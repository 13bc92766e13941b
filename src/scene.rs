//! The scene: its objects and lights, and the nearest-hit, shadow and
//! recursion-budget decisions made on the crossings of a ray with them.
use vstd::prelude::*;

use crate::hit::Hit;

verus! {

/// Order key of the smallest parameter at which a crossing can shadow a
/// point: the key of the `f32` value `0.00001`, which keeps a shadow ray from
/// meeting the surface it starts on.
pub const SHADOW_EPSILON: i32 = 0x3727_c5ac;

/// `s[i]` is the crossing that the ray meets first: it lies ahead of the
/// origin, no crossing ahead of the origin has a smaller parameter, and every
/// crossing ahead of the origin listed before it has a larger one.
pub open spec fn is_first_ahead<P>(s: Seq<Hit<P>>, i: int) -> bool {
    &&& 0 <= i < s.len()
    &&& s[i].t >= 0
    &&& forall|j: int| 0 <= j < s.len() && s[j].t >= 0 ==> s[i].t <= s[j].t
    &&& forall|j: int| 0 <= j < i && s[j].t >= 0 ==> s[i].t < s[j].t
}

/// No crossing of `s` lies ahead of the ray origin.
pub open spec fn none_ahead<P>(s: Seq<Hit<P>>) -> bool {
    forall|j: int| 0 <= j < s.len() ==> s[j].t < 0
}

/// What the front-most crossing of one object is: none when nothing lies
/// ahead of the origin, else the first crossing ahead.
pub open spec fn is_first_of<P>(s: Seq<Hit<P>>, r: Option<Hit<P>>) -> bool {
    match r {
        None => none_ahead(s),
        Some(h) => exists|i: int| is_first_ahead(s, i) && h == s[i],
    }
}

/// The crossing `lists[o][k]` is the one that a ray meets first among the
/// crossings of all objects, where `lists[o]` are the crossings of object `o`:
/// ahead of the origin, with the smallest parameter, and on ties the earliest
/// in object order and then in the object's own order.
pub open spec fn is_nearest<P>(lists: Seq<Vec<Hit<P>>>, o: int, k: int) -> bool {
    &&& 0 <= o < lists.len()
    &&& 0 <= k < lists[o]@.len()
    &&& lists[o]@[k].t >= 0
    &&& forall|p: int, q: int|
        0 <= p < lists.len() && 0 <= q < lists[p]@.len() && lists[p]@[q].t >= 0
            ==> lists[o]@[k].t <= lists[p]@[q].t
    &&& forall|p: int, q: int|
        0 <= p < lists.len() && 0 <= q < lists[p]@.len() && lists[p]@[q].t >= 0 && (p < o || (p
            == o && q < k)) ==> lists[o]@[k].t < lists[p]@[q].t
}

/// No object has a crossing ahead of the ray origin.
pub open spec fn nothing_ahead<P>(lists: Seq<Vec<Hit<P>>>) -> bool {
    forall|p: int| 0 <= p < lists.len() ==> none_ahead(lists[p]@)
}

/// What a ray returns: the crossing that it meets first, if any.
pub open spec fn is_trace_of<P>(lists: Seq<Vec<Hit<P>>>, r: Option<Hit<P>>) -> bool {
    match r {
        None => nothing_ahead(lists),
        Some(h) => exists|o: int, k: int| is_nearest(lists, o, k) && h == lists[o]@[k],
    }
}

/// A crossing that shadows a point at parameter `limit`: strictly between the
/// shadow epsilon and the limit.
pub open spec fn in_shadow_range(t: int, limit: int) -> bool {
    SHADOW_EPSILON < t < limit
}

/// Some object's first crossing lies in the shadow range and its material
/// does not let the light through there.
pub open spec fn is_blocked<P>(firsts: Seq<Option<Hit<P>>>, transmits: Seq<bool>, limit: int) -> bool {
    exists|i: int|
        0 <= i < firsts.len() && firsts[i] is Some && in_shadow_range(firsts[i]->0.t as int, limit)
            && !transmits[i]
}

proof fn lemma_first_exists<P>(s: Seq<Hit<P>>)
    requires
        !none_ahead(s),
    ensures
        exists|i: int| is_first_ahead(s, i),
    decreases s.len(),
{
    let n = s.len() - 1;
    let front = s.drop_last();
    assert(forall|j: int| 0 <= j < n ==> front[j] == s[j]);
    if none_ahead(front) {
        assert(is_first_ahead(s, n));
    } else {
        lemma_first_exists(front);
        let i = choose|i: int| is_first_ahead(front, i);
        if s[n].t >= 0 && s[n].t < s[i].t {
            assert(is_first_ahead(s, n));
        } else {
            assert(is_first_ahead(s, i));
        }
    }
}

proof fn lemma_nearest_exists<P>(lists: Seq<Vec<Hit<P>>>)
    requires
        !nothing_ahead(lists),
    ensures
        exists|o: int, k: int| is_nearest(lists, o, k),
    decreases lists.len(),
{
    let n = lists.len() - 1;
    let front = lists.drop_last();
    assert(forall|p: int| 0 <= p < n ==> front[p] == lists[p]);
    if nothing_ahead(front) {
        let p = choose|p: int| 0 <= p < lists.len() && !none_ahead(#[trigger] lists[p]@);
        if p < n {
            assert(none_ahead(front[p]@));
        }
        assert(!none_ahead(lists[n]@));
        lemma_first_exists(lists[n]@);
        let k = choose|k: int| is_first_ahead(lists[n]@, k);
        assert(is_nearest(lists, n, k));
    } else {
        lemma_nearest_exists(front);
        let (o, k) = choose|o: int, k: int| is_nearest(front, o, k);
        if none_ahead(lists[n]@) {
            assert(is_nearest(lists, o, k));
        } else {
            lemma_first_exists(lists[n]@);
            let kn = choose|kn: int| is_first_ahead(lists[n]@, kn);
            if lists[n]@[kn].t < lists[o]@[k].t {
                assert(is_nearest(lists, n, kn));
            } else {
                assert(is_nearest(lists, o, k));
            }
        }
    }
}

/// Shadow queries agree with nearest-hit queries along the same ray. When the
/// crossing that the ray meets first lies in the shadow range at an opaque
/// material, the point is in shadow. Conversely, a shadowed point has its
/// nearest crossing in the shadow range at an opaque material, unless that
/// nearest crossing is at or before the shadow epsilon or lets the light
/// through (a farther opaque object then still casts the shadow).
///
/// `firsts[i]` is the front-most crossing of object `i` and `transmits[i]`
/// the outcome of its material's interaction there.
pub proof fn shadow_agrees_with_trace<P>(
    lists: Seq<Vec<Hit<P>>>,
    firsts: Seq<Option<Hit<P>>>,
    transmits: Seq<bool>,
    limit: int,
)
    requires
        firsts.len() == lists.len(),
        transmits.len() == lists.len(),
        forall|i: int| 0 <= i < lists.len() ==> is_first_of(#[trigger] lists[i]@, firsts[i]),
    ensures
        (exists|o: int, k: int|
            is_nearest(lists, o, k) && in_shadow_range(lists[o]@[k].t as int, limit)
                && !transmits[o]) ==> is_blocked(firsts, transmits, limit),
        (is_blocked(firsts, transmits, limit) && forall|o: int, k: int|
            is_nearest(lists, o, k) ==> lists[o]@[k].t > SHADOW_EPSILON && !transmits[o]) ==> exists|
            o: int,
            k: int,
        | is_nearest(lists, o, k) && in_shadow_range(lists[o]@[k].t as int, limit)
            && !transmits[o],
{
    if exists|o: int, k: int|
        is_nearest(lists, o, k) && in_shadow_range(lists[o]@[k].t as int, limit) && !transmits[o] {
        let (o, k) = choose|o: int, k: int|
            is_nearest(lists, o, k) && in_shadow_range(lists[o]@[k].t as int, limit)
                && !transmits[o];
        assert(is_first_of(lists[o]@, firsts[o]));
        assert(!none_ahead(lists[o]@));
        let i = choose|i: int| is_first_ahead(lists[o]@, i) && firsts[o]->0 == lists[o]@[i];
        if i < k {
            assert(lists[o]@[k].t < lists[o]@[i].t);
        } else if k < i {
            assert(lists[o]@[i].t < lists[o]@[k].t);
        }
        assert(is_blocked(firsts, transmits, limit));
    }
    if is_blocked(firsts, transmits, limit) && forall|o: int, k: int|
        is_nearest(lists, o, k) ==> lists[o]@[k].t > SHADOW_EPSILON && !transmits[o] {
        let j = choose|j: int|
            0 <= j < firsts.len() && firsts[j] is Some && in_shadow_range(
                firsts[j]->0.t as int,
                limit,
            ) && !transmits[j];
        assert(is_first_of(lists[j]@, firsts[j]));
        let kj = choose|kj: int| is_first_ahead(lists[j]@, kj) && firsts[j]->0 == lists[j]@[kj];
        assert(!none_ahead(lists[j]@));
        assert(!nothing_ahead(lists));
        lemma_nearest_exists(lists);
        let (o, k) = choose|o: int, k: int| is_nearest(lists, o, k);
        assert(lists[o]@[k].t <= lists[j]@[kj].t);
        assert(in_shadow_range(lists[o]@[k].t as int, limit));
    }
}

/// The index of the first crossing ahead of the ray origin.
fn first_index<P>(hits: &Vec<Hit<P>>) -> (r: Option<usize>)
    ensures
        match r {
            None => none_ahead(hits@),
            Some(i) => is_first_ahead(hits@, i as int),
        },
{
    let mut result: Option<usize> = None;
    let mut i: usize = 0;
    while i < hits.len()
        invariant
            0 <= i <= hits@.len(),
            match result {
                None => forall|j: int| 0 <= j < i ==> hits@[j].t < 0,
                Some(b) => {
                    &&& b < i
                    &&& hits@[b as int].t >= 0
                    &&& forall|j: int| 0 <= j < i && hits@[j].t >= 0 ==> hits@[b as int].t <= hits@[j].t
                    &&& forall|j: int| 0 <= j < b && hits@[j].t >= 0 ==> hits@[b as int].t < hits@[j].t
                },
            },
        decreases hits@.len() - i,
    {
        match result {
            Some(b) => {
                if hits[i].t < hits[b].t && hits[i].t >= 0 {
                    result = Some(i);
                }
            },
            None => {
                if hits[i].t >= 0 {
                    result = Some(i);
                }
            },
        }
        i = i + 1;
    }
    result
}

/// How the radiance along a ray is found.
pub enum Shade<P> {
    /// The background radiance: the recursion budget is spent, or the ray
    /// meets nothing.
    Background,
    /// The material at `hit` computes the radiance, with `budget` levels of
    /// recursion left to it.
    Surface { hit: Hit<P>, budget: usize },
}

/// How a ray with `budget` levels of recursion left is shaded, given the
/// crossings `lists` of each object with it.
pub open spec fn is_shade_of<P>(lists: Seq<Vec<Hit<P>>>, budget: usize, r: Shade<P>) -> bool {
    match r {
        Shade::Background => is_trace_of(lists, None),
        Shade::Surface { hit, budget: b } => b == budget && is_trace_of(lists, Some(hit)),
    }
}

/// A scene: the objects and the lights, in the order they were added.
pub struct Scene<O, L> {
    pub object_list: Vec<O>,
    pub light_list: Vec<L>,
}

impl<O, L> Default for Scene<O, L> {
    /// A scene with no objects and no lights.
    fn default() -> (s: Self)
        ensures
            s.object_list@.len() == 0,
            s.light_list@.len() == 0,
    {
        Scene::new()
    }
}

impl<O, L> Scene<O, L> {
    /// A scene with no objects and no lights.
    pub fn new() -> (s: Self)
        ensures
            s.object_list@.len() == 0,
            s.light_list@.len() == 0,
    {
        Scene { object_list: Vec::new(), light_list: Vec::new() }
    }

    /// Adds an object after the others.
    pub fn add_object(&mut self, object: O)
        ensures
            final(self).object_list@ == old(self).object_list@.push(object),
            final(self).light_list@ == old(self).light_list@,
    {
        self.object_list.push(object);
    }

    /// Adds a light after the others.
    pub fn add_light(&mut self, light: L)
        ensures
            final(self).light_list@ == old(self).light_list@.push(light),
            final(self).object_list@ == old(self).object_list@,
    {
        self.light_list.push(light);
    }

    /// The front-most crossing of one object: the one with the smallest
    /// parameter that is not behind the ray origin (the earliest on ties).
    pub fn select_first<P>(hits: Vec<Hit<P>>) -> (r: Option<Hit<P>>)
        ensures
            is_first_of(hits@, r),
    {
        match first_index(&hits) {
            None => None,
            Some(i) => {
                let mut hits = hits;
                Some(hits.swap_remove(i))
            },
        }
    }

    /// The crossing that a ray meets first, given the crossings `hits[o]` of
    /// each object `o` with it, in object order: the smallest parameter ahead
    /// of the origin, the earliest object and then the earliest crossing on
    /// ties.
    pub fn trace<P>(&self, hits: Vec<Vec<Hit<P>>>) -> (r: Option<Hit<P>>)
        ensures
            is_trace_of(hits@, r),
    {
        let mut best: Option<(usize, usize)> = None;
        let mut o: usize = 0;
        while o < hits.len()
            invariant
                0 <= o <= hits@.len(),
                match best {
                    None => forall|p: int, q: int|
                        0 <= p < o && 0 <= q < hits@[p]@.len() ==> hits@[p]@[q].t < 0,
                    Some((bo, bk)) => {
                        &&& bo < o
                        &&& bk < hits@[bo as int]@.len()
                        &&& hits@[bo as int]@[bk as int].t >= 0
                        &&& forall|p: int, q: int|
                            0 <= p < o && 0 <= q < hits@[p]@.len() && hits@[p]@[q].t >= 0
                                ==> hits@[bo as int]@[bk as int].t <= hits@[p]@[q].t
                        &&& forall|p: int, q: int|
                            0 <= p < o && 0 <= q < hits@[p]@.len() && hits@[p]@[q].t >= 0 && (p
                                < bo || (p == bo && q < bk)) ==> hits@[bo as int]@[bk as int].t
                                < hits@[p]@[q].t
                    },
                },
            decreases hits@.len() - o,
        {
            match first_index(&hits[o]) {
                Some(k) => {
                    match best {
                        None => {
                            best = Some((o, k));
                        },
                        Some((bo, bk)) => {
                            if hits[o][k].t < hits[bo][bk].t {
                                best = Some((o, k));
                            }
                        },
                    }
                },
                None => {},
            }
            o = o + 1;
        }
        match best {
            None => None,
            Some((bo, bk)) => {
                let ghost lists = hits@;
                let mut hits = hits;
                let mut list = hits.swap_remove(bo);
                let h = list.swap_remove(bk);
                assert(is_nearest(lists, bo as int, bk as int));
                Some(h)
            },
        }
    }

    /// Whether a point is in shadow along a ray toward a light at parameter
    /// `limit`: some object's first crossing `firsts[i]` lies strictly between
    /// the shadow epsilon and `limit`, and its material does not let the light
    /// through there. `transmits(i)` draws the outcome of the interaction of
    /// object `i`'s material at that crossing; it is called only for crossings
    /// in the shadow range, in object order, until one is opaque.
    pub fn shadow_trace<P, F: Fn(usize) -> bool>(
        &self,
        firsts: &Vec<Option<Hit<P>>>,
        transmits: F,
        limit: i32,
    ) -> (r: bool)
        requires
            forall|i: usize| i < firsts@.len() ==> #[trigger] transmits.requires((i,)),
        ensures
            r ==> exists|i: int|
                0 <= i < firsts@.len() && firsts@[i] is Some && in_shadow_range(
                    firsts@[i]->0.t as int,
                    limit as int,
                ) && #[trigger] transmits.ensures((i as usize,), false),
            !r ==> forall|i: int|
                0 <= i < firsts@.len() && firsts@[i] is Some && in_shadow_range(
                    firsts@[i]->0.t as int,
                    limit as int,
                ) ==> #[trigger] transmits.ensures((i as usize,), true),
    {
        let mut i: usize = 0;
        while i < firsts.len()
            invariant
                0 <= i <= firsts@.len(),
                forall|i: usize| i < firsts@.len() ==> #[trigger] transmits.requires((i,)),
                forall|j: int|
                    0 <= j < i && firsts@[j] is Some && in_shadow_range(
                        firsts@[j]->0.t as int,
                        limit as int,
                    ) ==> #[trigger] transmits.ensures((j as usize,), true),
            decreases firsts@.len() - i,
        {
            match &firsts[i] {
                Some(hit) => {
                    if hit.t > SHADOW_EPSILON && hit.t < limit {
                        let through = transmits(i);
                        if !through {
                            proof {
                                let k = i as int;
                                assert(k as usize == i);
                                assert(firsts@[k] is Some && in_shadow_range(
                                    firsts@[k]->0.t as int,
                                    limit as int,
                                ) && transmits.ensures((k as usize,), false));
                            }
                            return true;
                        }
                    }
                },
                None => {},
            }
            i = i + 1;
        }
        false
    }

    /// The recursive entry point: with no budget left the ray gets the
    /// background at once, without `intersect` being called; otherwise the
    /// crossings that `intersect` returns for each object decide between the
    /// background and the material at the nearest crossing, which gets the
    /// whole budget.
    pub fn raytrace<P, F: FnOnce() -> Vec<Vec<Hit<P>>>>(&self, recurse: usize, intersect: F) -> (r:
        Shade<P>)
        requires
            intersect.requires(()),
        ensures
            recurse == 0 ==> r is Background,
            recurse > 0 ==> exists|lists: Vec<Vec<Hit<P>>>|
                intersect.ensures((), lists) && is_shade_of(lists@, recurse, r),
    {
        if recurse == 0 {
            return Shade::Background;
        }
        let lists = intersect();
        match self.trace(lists) {
            None => Shade::Background,
            Some(hit) => Shade::Surface { hit, budget: recurse },
        }
    }
}

} // verus!

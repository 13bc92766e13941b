//! Boolean combination of two solids along one ray.
//!
//! Each operand hands over its crossings with the ray in order; the result is
//! the ordered list of crossings of the combined solid, found by one merge
//! scan that tracks whether the ray is currently inside each operand.
use std::collections::VecDeque;
use vstd::prelude::*;

use crate::hit::{all_at_least, is_sorted, Hit};

verus! {

/// The boolean operator of a combination node.
#[derive(Clone, Copy, Debug, PartialEq, Eq, Structural)]
pub enum Op {
    Union,
    Intersection,
    Difference,
}

/// What the merge scan does with the front crossing of one side.
#[derive(Clone, Copy, Debug, PartialEq, Eq, Structural)]
pub enum Step {
    /// Emit the front crossing of the first operand.
    KeepA,
    /// Emit the front crossing of the second operand.
    KeepB,
    /// Drop the front crossing of the first operand.
    DropA,
    /// Drop the front crossing of the second operand.
    DropB,
}

/// The decision table of the merge scan, keyed by the operator, whether the
/// ray is inside each operand, and how the two front parameters compare
/// (twelve cases per operator). On equal parameters most states consume the
/// first operand's crossing; the table fixes each case.
pub open spec fn step(op: Op, in_a: bool, in_b: bool, ta: int, tb: int) -> Step {
    match op {
        Op::Union => {
            if !in_a && !in_b {
                if ta > tb { Step::KeepB } else { Step::KeepA }
            } else if in_a && !in_b {
                if ta < tb { Step::KeepA } else if ta > tb { Step::DropB } else { Step::DropA }
            } else if in_a && in_b {
                if ta > tb { Step::DropB } else { Step::DropA }
            } else {
                if ta < tb { Step::DropA } else if ta > tb { Step::KeepB } else { Step::DropB }
            }
        },
        Op::Intersection => {
            if !in_a && !in_b {
                if ta < tb { Step::DropA } else if ta > tb { Step::DropB } else { Step::KeepA }
            } else if in_a && !in_b {
                if ta > tb { Step::KeepB } else { Step::DropA }
            } else if in_a && in_b {
                if ta > tb { Step::KeepB } else { Step::KeepA }
            } else {
                if ta < tb { Step::KeepA } else { Step::DropB }
            }
        },
        Op::Difference => {
            if !in_a && !in_b {
                if ta < tb { Step::KeepA } else { Step::DropB }
            } else if in_a && !in_b {
                if ta > tb { Step::KeepB } else { Step::KeepA }
            } else if in_a && in_b {
                if ta > tb { Step::KeepB } else { Step::DropA }
            } else {
                if ta < tb { Step::DropA } else { Step::DropB }
            }
        },
    }
}

/// A crossing of the second operand as the combination emits it. Inside a
/// difference the second solid is cut away, so entering it means leaving
/// the combination: its flag is inverted. The normal in `data` faces the
/// ray either way and stays as it is.
pub open spec fn from_second<P>(op: Op, h: Hit<P>) -> Hit<P> {
    if op == Op::Difference {
        Hit { t: h.t, entering: !h.entering, data: h.data }
    } else {
        h
    }
}

/// What is left once one side is exhausted: the union keeps the rest of both
/// sides, the difference the rest of the first, the intersection nothing.
pub open spec fn flush<P>(op: Op, a: Seq<Hit<P>>, b: Seq<Hit<P>>) -> Seq<Hit<P>> {
    match op {
        Op::Union => a + b,
        Op::Intersection => Seq::empty(),
        Op::Difference => a,
    }
}

/// The crossings that the merge scan emits from the remaining crossings `a`
/// and `b`, starting inside the first operand when `in_a` and inside the
/// second when `in_b`.
pub open spec fn merge<P>(op: Op, a: Seq<Hit<P>>, b: Seq<Hit<P>>, in_a: bool, in_b: bool) -> Seq<
    Hit<P>,
>
    decreases a.len() + b.len(),
{
    if a.len() == 0 || b.len() == 0 {
        flush(op, a, b)
    } else {
        match step(op, in_a, in_b, a[0].t as int, b[0].t as int) {
            Step::KeepA => seq![a[0]] + merge(op, a.drop_first(), b, !in_a, in_b),
            Step::KeepB => seq![from_second(op, b[0])] + merge(op, a, b.drop_first(), in_a, !in_b),
            Step::DropA => merge(op, a.drop_first(), b, !in_a, in_b),
            Step::DropB => merge(op, a, b.drop_first(), in_a, !in_b),
        }
    }
}

/// The crossings of the combination of two solids whose crossings along the
/// ray are `a` and `b`: the merge scan started outside both.
pub open spec fn combined<P>(op: Op, a: Seq<Hit<P>>, b: Seq<Hit<P>>) -> Seq<Hit<P>> {
    merge(op, a, b, false, false)
}

/// Every crossing that the merge emits is one of its inputs, so a lower bound
/// on the parameters of both inputs bounds the result too.
proof fn lemma_merge_bounded<P>(
    op: Op,
    a: Seq<Hit<P>>,
    b: Seq<Hit<P>>,
    in_a: bool,
    in_b: bool,
    lo: int,
)
    requires
        all_at_least(a, lo),
        all_at_least(b, lo),
    ensures
        all_at_least(merge(op, a, b, in_a, in_b), lo),
    decreases a.len() + b.len(),
{
    if a.len() > 0 && b.len() > 0 {
        let r = merge(op, a, b, in_a, in_b);
        match step(op, in_a, in_b, a[0].t as int, b[0].t as int) {
            Step::KeepA => {
                lemma_merge_bounded(op, a.drop_first(), b, !in_a, in_b, lo);
                assert(all_at_least(r, lo));
            },
            Step::KeepB => {
                lemma_merge_bounded(op, a, b.drop_first(), in_a, !in_b, lo);
                assert(all_at_least(r, lo));
            },
            Step::DropA => lemma_merge_bounded(op, a.drop_first(), b, !in_a, in_b, lo),
            Step::DropB => lemma_merge_bounded(op, a, b.drop_first(), in_a, !in_b, lo),
        }
    }
}

/// Each step of the table consumes a front crossing whose parameter is the
/// smaller of the two fronts.
proof fn lemma_step_takes_front_minimum(op: Op, in_a: bool, in_b: bool, ta: int, tb: int)
    ensures
        (step(op, in_a, in_b, ta, tb) == Step::KeepA || step(op, in_a, in_b, ta, tb) == Step::DropA)
            ==> ta <= tb,
        (step(op, in_a, in_b, ta, tb) == Step::KeepB || step(op, in_a, in_b, ta, tb) == Step::DropB)
            ==> tb <= ta,
{
}

/// The merge of two ordered crossing lists is ordered.
proof fn lemma_merge_sorted<P>(op: Op, a: Seq<Hit<P>>, b: Seq<Hit<P>>, in_a: bool, in_b: bool)
    requires
        is_sorted(a),
        is_sorted(b),
    ensures
        is_sorted(merge(op, a, b, in_a, in_b)),
    decreases a.len() + b.len(),
{
    if a.len() == 0 || b.len() == 0 {
        assert(is_sorted(flush(op, a, b)));
    } else {
        let s = step(op, in_a, in_b, a[0].t as int, b[0].t as int);
        lemma_step_takes_front_minimum(op, in_a, in_b, a[0].t as int, b[0].t as int);
        let lo = if s == Step::KeepA || s == Step::DropA { a[0].t as int } else { b[0].t as int };
        assert(all_at_least(a, lo));
        assert(all_at_least(b, lo));
        assert(all_at_least(a.drop_first(), lo));
        assert(all_at_least(b.drop_first(), lo));
        match s {
            Step::KeepA => {
                lemma_merge_sorted(op, a.drop_first(), b, !in_a, in_b);
                lemma_merge_bounded(op, a.drop_first(), b, !in_a, in_b, lo);
            },
            Step::KeepB => {
                lemma_merge_sorted(op, a, b.drop_first(), in_a, !in_b);
                lemma_merge_bounded(op, a, b.drop_first(), in_a, !in_b, lo);
            },
            Step::DropA => lemma_merge_sorted(op, a.drop_first(), b, !in_a, in_b),
            Step::DropB => lemma_merge_sorted(op, a, b.drop_first(), in_a, !in_b),
        }
    }
}

/// Ordering is kept: when both operands list their crossings in
/// nondecreasing order of the ray parameter, so does their combination, under
/// every operator.
pub proof fn combined_is_sorted<P>(op: Op, a: Seq<Hit<P>>, b: Seq<Hit<P>>)
    requires
        is_sorted(a),
        is_sorted(b),
    ensures
        is_sorted(combined(op, a, b)),
{
    lemma_merge_sorted(op, a, b, false, false);
}

/// Every crossing of `a` lies strictly before every crossing of `b`: the spans
/// of the two operands along the ray do not overlap.
pub open spec fn all_before<P>(a: Seq<Hit<P>>, b: Seq<Hit<P>>) -> bool {
    forall|i: int, j: int| 0 <= i < a.len() && 0 <= j < b.len() ==> a[i].t < b[j].t
}

proof fn lemma_union_first_before<P>(a: Seq<Hit<P>>, b: Seq<Hit<P>>, in_a: bool)
    requires
        all_before(a, b),
    ensures
        merge(Op::Union, a, b, in_a, false) == a + b,
    decreases a.len(),
{
    if a.len() == 0 {
        assert(Seq::<Hit<P>>::empty() + b =~= b);
    } else if b.len() > 0 {
        assert(all_before(a.drop_first(), b));
        lemma_union_first_before(a.drop_first(), b, !in_a);
        assert(seq![a[0]] + (a.drop_first() + b) =~= a + b);
    }
}

proof fn lemma_union_second_before<P>(a: Seq<Hit<P>>, b: Seq<Hit<P>>, in_b: bool)
    requires
        all_before(b, a),
    ensures
        merge(Op::Union, a, b, false, in_b) == b + a,
    decreases b.len(),
{
    if b.len() == 0 {
        assert(a + b =~= b + a);
    } else if a.len() == 0 {
        assert(a + b =~= b + a);
    } else {
        assert(all_before(b.drop_first(), a));
        lemma_union_second_before(a, b.drop_first(), !in_b);
        assert(seq![b[0]] + (b.drop_first() + a) =~= b + a);
    }
}

proof fn lemma_intersection_first_before<P>(a: Seq<Hit<P>>, b: Seq<Hit<P>>, in_a: bool)
    requires
        all_before(a, b),
    ensures
        merge(Op::Intersection, a, b, in_a, false) == Seq::<Hit<P>>::empty(),
    decreases a.len(),
{
    if a.len() > 0 && b.len() > 0 {
        assert(all_before(a.drop_first(), b));
        lemma_intersection_first_before(a.drop_first(), b, !in_a);
    }
}

proof fn lemma_intersection_second_before<P>(a: Seq<Hit<P>>, b: Seq<Hit<P>>, in_b: bool)
    requires
        all_before(b, a),
    ensures
        merge(Op::Intersection, a, b, false, in_b) == Seq::<Hit<P>>::empty(),
    decreases b.len(),
{
    if a.len() > 0 && b.len() > 0 {
        assert(all_before(b.drop_first(), a));
        lemma_intersection_second_before(a, b.drop_first(), !in_b);
    }
}

/// Solids whose spans along the ray do not overlap: their union keeps every
/// crossing of both, in order (so its count is the sum of the two counts),
/// and their intersection has no crossing.
pub proof fn disjoint_union_and_intersection<P>(a: Seq<Hit<P>>, b: Seq<Hit<P>>)
    requires
        all_before(a, b) || all_before(b, a),
    ensures
        combined(Op::Union, a, b).len() == a.len() + b.len(),
        all_before(a, b) ==> combined(Op::Union, a, b) == a + b,
        all_before(b, a) ==> combined(Op::Union, a, b) == b + a,
        combined(Op::Intersection, a, b) == Seq::<Hit<P>>::empty(),
{
    if all_before(a, b) {
        lemma_union_first_before(a, b, false);
        lemma_intersection_first_before(a, b, false);
    }
    if all_before(b, a) {
        lemma_union_second_before(a, b, false);
        lemma_intersection_second_before(a, b, false);
    }
}

/// `s` lists the crossings of a closed solid from a point that is inside it
/// when `inside`: entering and leaving crossings alternate, the first one
/// entering when the point is outside, and the last one leaves the solid.
pub open spec fn is_closed_from<P>(s: Seq<Hit<P>>, inside: bool) -> bool {
    &&& forall|i: int| 0 <= i < s.len() ==> #[trigger] s[i].entering == ((i % 2 == 0) != inside)
    &&& (s.len() % 2 == 1) == inside
}

/// The crossings of a closed solid along a whole ray: alternating, starting
/// outside.
pub open spec fn is_closed<P>(s: Seq<Hit<P>>) -> bool {
    is_closed_from(s, false)
}

/// No crossing of `a` has the parameter of a crossing of `b`.
pub open spec fn no_shared_parameter<P>(a: Seq<Hit<P>>, b: Seq<Hit<P>>) -> bool {
    forall|i: int, j: int| 0 <= i < a.len() && 0 <= j < b.len() ==> a[i].t != b[j].t
}

/// Whether a point inside the operands as `in_a` and `in_b` say is inside
/// their combination.
pub open spec fn inside_combined(op: Op, in_a: bool, in_b: bool) -> bool {
    match op {
        Op::Union => in_a || in_b,
        Op::Intersection => in_a && in_b,
        Op::Difference => in_a && !in_b,
    }
}

proof fn lemma_closed_drop_first<P>(s: Seq<Hit<P>>, inside: bool)
    requires
        is_closed_from(s, inside),
        s.len() > 0,
    ensures
        s[0].entering == !inside,
        is_closed_from(s.drop_first(), !inside),
{
    let t = s.drop_first();
    assert forall|i: int| 0 <= i < t.len() implies #[trigger] t[i].entering == ((i % 2 == 0)
        != !inside) by {
        assert(t[i] == s[i + 1]);
        assert(s[i + 1].entering == (((i + 1) % 2 == 0) != inside));
    }
}

proof fn lemma_closed_prepend<P>(x: Hit<P>, rest: Seq<Hit<P>>, inside: bool)
    requires
        x.entering == !inside,
        is_closed_from(rest, !inside),
    ensures
        is_closed_from(seq![x] + rest, inside),
{
    let s = seq![x] + rest;
    assert forall|i: int| 0 <= i < s.len() implies #[trigger] s[i].entering == ((i % 2 == 0)
        != inside) by {
        if i > 0 {
            assert(s[i] == rest[i - 1]);
            assert(rest[i - 1].entering == (((i - 1) % 2 == 0) != !inside));
        }
    }
}

proof fn lemma_merge_closed<P>(op: Op, a: Seq<Hit<P>>, b: Seq<Hit<P>>, in_a: bool, in_b: bool)
    requires
        is_closed_from(a, in_a),
        is_closed_from(b, in_b),
        no_shared_parameter(a, b),
    ensures
        is_closed_from(merge(op, a, b, in_a, in_b), inside_combined(op, in_a, in_b)),
    decreases a.len() + b.len(),
{
    if a.len() == 0 || b.len() == 0 {
        if op == Op::Union {
            if a.len() == 0 {
                assert(a + b =~= b);
            } else {
                assert(a + b =~= a);
            }
        }
    } else {
        assert(a[0].t != b[0].t);
        lemma_closed_drop_first(a, in_a);
        lemma_closed_drop_first(b, in_b);
        assert(no_shared_parameter(a.drop_first(), b));
        assert(no_shared_parameter(a, b.drop_first()));
        match step(op, in_a, in_b, a[0].t as int, b[0].t as int) {
            Step::KeepA => {
                lemma_merge_closed(op, a.drop_first(), b, !in_a, in_b);
                lemma_closed_prepend(a[0], merge(op, a.drop_first(), b, !in_a, in_b), inside_combined(op, in_a, in_b));
            },
            Step::KeepB => {
                lemma_merge_closed(op, a, b.drop_first(), in_a, !in_b);
                lemma_closed_prepend(
                    from_second(op, b[0]),
                    merge(op, a, b.drop_first(), in_a, !in_b),
                    inside_combined(op, in_a, in_b),
                );
            },
            Step::DropA => lemma_merge_closed(op, a.drop_first(), b, !in_a, in_b),
            Step::DropB => lemma_merge_closed(op, a, b.drop_first(), in_a, !in_b),
        }
    }
}

/// Every operator keeps solids closed: when each operand's crossings
/// alternate between entering and leaving, starting and ending outside, and
/// no parameter is shared between the operands, so do the crossings of the
/// combination.
pub proof fn combination_stays_closed<P>(op: Op, a: Seq<Hit<P>>, b: Seq<Hit<P>>)
    requires
        is_closed(a),
        is_closed(b),
        no_shared_parameter(a, b),
    ensures
        is_closed(combined(op, a, b)),
{
    lemma_merge_closed(op, a, b, false, false);
}

/// Away from ties the table keeps exactly the boundary crossings: the nearer
/// front crossing is consumed, and it is emitted exactly when passing that
/// operand's surface there changes whether the ray is inside the
/// combination; otherwise it is dropped.
pub proof fn step_keeps_boundary_crossings(op: Op, in_a: bool, in_b: bool, ta: int, tb: int)
    requires
        ta != tb,
    ensures
        ta < tb ==> (step(op, in_a, in_b, ta, tb) == Step::KeepA || step(op, in_a, in_b, ta, tb)
            == Step::DropA),
        ta < tb ==> (step(op, in_a, in_b, ta, tb) == Step::KeepA <==> inside_combined(op, !in_a, in_b)
            != inside_combined(op, in_a, in_b)),
        tb < ta ==> (step(op, in_a, in_b, ta, tb) == Step::KeepB || step(op, in_a, in_b, ta, tb)
            == Step::DropB),
        tb < ta ==> (step(op, in_a, in_b, ta, tb) == Step::KeepB <==> inside_combined(op, in_a, !in_b)
            != inside_combined(op, in_a, in_b)),
{
}

/// `x` is a crossing of the first operand `a`, or a crossing of the second
/// operand `b` as the combination emits it.
pub open spec fn is_drawn_from<P>(op: Op, a: Seq<Hit<P>>, b: Seq<Hit<P>>, x: Hit<P>) -> bool {
    (exists|j: int| 0 <= j < a.len() && x == a[j]) || (exists|j: int|
        0 <= j < b.len() && x == from_second(op, b[j]))
}

proof fn lemma_merge_drawn<P>(op: Op, a: Seq<Hit<P>>, b: Seq<Hit<P>>, in_a: bool, in_b: bool)
    ensures
        forall|i: int|
            0 <= i < merge(op, a, b, in_a, in_b).len() ==> is_drawn_from(
                op,
                a,
                b,
                #[trigger] merge(op, a, b, in_a, in_b)[i],
            ),
    decreases a.len() + b.len(),
{
    let r = merge(op, a, b, in_a, in_b);
    if a.len() == 0 || b.len() == 0 {
        assert forall|i: int| 0 <= i < r.len() implies is_drawn_from(op, a, b, #[trigger] r[i]) by {
            if i < a.len() {
                assert(r[i] == a[i]);
            } else {
                assert(op == Op::Union);
                assert(r[i] == b[i - a.len()]);
                assert(from_second(op, b[i - a.len()]) == b[i - a.len()]);
            }
        }
    } else {
        let a1 = a.drop_first();
        let b1 = b.drop_first();
        let (na, nb, ia, ib) = match step(op, in_a, in_b, a[0].t as int, b[0].t as int) {
            Step::KeepA => (a1, b, !in_a, in_b),
            Step::DropA => (a1, b, !in_a, in_b),
            _ => (a, b1, in_a, !in_b),
        };
        lemma_merge_drawn(op, na, nb, ia, ib);
        let rest = merge(op, na, nb, ia, ib);
        assert forall|x: Hit<P>| is_drawn_from(op, na, nb, x) implies is_drawn_from(op, a, b, x) by {
            if exists|j: int| 0 <= j < na.len() && x == na[j] {
                let j = choose|j: int| 0 <= j < na.len() && x == na[j];
                if na == a1 {
                    assert(x == a[j + 1]);
                } else {
                    assert(x == a[j]);
                }
            } else {
                let j = choose|j: int| 0 <= j < nb.len() && x == from_second(op, nb[j]);
                if nb == b1 {
                    assert(x == from_second(op, b[j + 1]));
                } else {
                    assert(x == from_second(op, b[j]));
                }
            }
        }
        assert forall|i: int| 0 <= i < r.len() implies is_drawn_from(op, a, b, #[trigger] r[i]) by {
            match step(op, in_a, in_b, a[0].t as int, b[0].t as int) {
                Step::KeepA => {
                    if i == 0 {
                        assert(r[0] == a[0]);
                    } else {
                        assert(r[i] == rest[i - 1]);
                    }
                },
                Step::KeepB => {
                    if i == 0 {
                        assert(r[0] == from_second(op, b[0]));
                    } else {
                        assert(r[i] == rest[i - 1]);
                    }
                },
                _ => {
                    assert(r[i] == rest[i]);
                },
            }
        }
    }
}

/// A combination invents no crossing: each of its crossings is a crossing of
/// an operand, at the same parameter and with the same record (so a normal
/// that faces the ray still does); only a difference inverts the flag of the
/// second operand's crossings.
pub proof fn combined_draws_from_operands<P>(op: Op, a: Seq<Hit<P>>, b: Seq<Hit<P>>)
    ensures
        forall|i: int|
            0 <= i < combined(op, a, b).len() ==> is_drawn_from(
                op,
                a,
                b,
                #[trigger] combined(op, a, b)[i],
            ),
{
    lemma_merge_drawn(op, a, b, false, false);
}

impl Op {
    /// The step of the merge scan for the given state and front parameters.
    pub fn step(&self, in_a: bool, in_b: bool, ta: i32, tb: i32) -> (s: Step)
        ensures
            s == step(*self, in_a, in_b, ta as int, tb as int),
    {
        match self {
            Op::Union => {
                if !in_a && !in_b {
                    if ta > tb { Step::KeepB } else { Step::KeepA }
                } else if in_a && !in_b {
                    if ta < tb { Step::KeepA } else if ta > tb { Step::DropB } else { Step::DropA }
                } else if in_a && in_b {
                    if ta > tb { Step::DropB } else { Step::DropA }
                } else {
                    if ta < tb { Step::DropA } else if ta > tb { Step::KeepB } else { Step::DropB }
                }
            },
            Op::Intersection => {
                if !in_a && !in_b {
                    if ta < tb { Step::DropA } else if ta > tb { Step::DropB } else { Step::KeepA }
                } else if in_a && !in_b {
                    if ta > tb { Step::KeepB } else { Step::DropA }
                } else if in_a && in_b {
                    if ta > tb { Step::KeepB } else { Step::KeepA }
                } else {
                    if ta < tb { Step::KeepA } else { Step::DropB }
                }
            },
            Op::Difference => {
                if !in_a && !in_b {
                    if ta < tb { Step::KeepA } else { Step::DropB }
                } else if in_a && !in_b {
                    if ta > tb { Step::KeepB } else { Step::KeepA }
                } else if in_a && in_b {
                    if ta > tb { Step::KeepB } else { Step::DropA }
                } else {
                    if ta < tb { Step::DropA } else { Step::DropB }
                }
            },
        }
    }

    /// Combines the crossings of two operands under this operator.
    pub fn apply<P>(&self, int_a: VecDeque<Hit<P>>, int_b: VecDeque<Hit<P>>) -> (r: Vec<Hit<P>>)
        ensures
            r@ == combined(*self, int_a@, int_b@),
    {
        merge_scan(*self, int_a, int_b)
    }

    /// The crossings of the union of two operands.
    pub fn union<P>(int_a: VecDeque<Hit<P>>, int_b: VecDeque<Hit<P>>) -> (r: Vec<Hit<P>>)
        ensures
            r@ == combined(Op::Union, int_a@, int_b@),
    {
        merge_scan(Op::Union, int_a, int_b)
    }

    /// The crossings of the intersection of two operands.
    pub fn intersection<P>(int_a: VecDeque<Hit<P>>, int_b: VecDeque<Hit<P>>) -> (r: Vec<Hit<P>>)
        ensures
            r@ == combined(Op::Intersection, int_a@, int_b@),
    {
        merge_scan(Op::Intersection, int_a, int_b)
    }

    /// The crossings of the first operand with the second taken away; the
    /// second operand's crossings that bound the result come with their
    /// flags inverted.
    pub fn difference<P>(int_a: VecDeque<Hit<P>>, int_b: VecDeque<Hit<P>>) -> (r: Vec<Hit<P>>)
        ensures
            r@ == combined(Op::Difference, int_a@, int_b@),
    {
        merge_scan(Op::Difference, int_a, int_b)
    }
}

/// Moves the front crossing of `source` to the end of `dest` and toggles
/// `inside`.
fn keep<P>(source: &mut VecDeque<Hit<P>>, dest: &mut Vec<Hit<P>>, inside: &mut bool)
    requires
        old(source)@.len() > 0,
    ensures
        final(source)@ == old(source)@.drop_first(),
        final(dest)@ == old(dest)@.push(old(source)@[0]),
        *final(inside) == !*old(inside),
{
    *inside = !*inside;
    let val = source.pop_front();
    match val {
        Some(h) => dest.push(h),
        None => {},
    }
}

/// Moves the front crossing of the second operand's `source` to the end of
/// `dest` as the combination emits it, and toggles `inside`.
fn keep_second<P>(op: Op, source: &mut VecDeque<Hit<P>>, dest: &mut Vec<Hit<P>>, inside: &mut bool)
    requires
        old(source)@.len() > 0,
    ensures
        final(source)@ == old(source)@.drop_first(),
        final(dest)@ == old(dest)@.push(from_second(op, old(source)@[0])),
        *final(inside) == !*old(inside),
{
    *inside = !*inside;
    let val = source.pop_front();
    match val {
        Some(h) => {
            if op == Op::Difference {
                dest.push(Hit { t: h.t, entering: !h.entering, data: h.data });
            } else {
                dest.push(h);
            }
        },
        None => {},
    }
}

/// Drops the front crossing of `source` and toggles `inside`.
fn discard<P>(source: &mut VecDeque<Hit<P>>, inside: &mut bool)
    requires
        old(source)@.len() > 0,
    ensures
        final(source)@ == old(source)@.drop_first(),
        *final(inside) == !*old(inside),
{
    *inside = !*inside;
    let _ = source.pop_front();
}

/// The merge scan: consumes the front of one side per step as the table says,
/// then handles what is left of the other side as `flush` says.
fn merge_scan<P>(op: Op, int_a: VecDeque<Hit<P>>, int_b: VecDeque<Hit<P>>) -> (r: Vec<Hit<P>>)
    ensures
        r@ == combined(op, int_a@, int_b@),
{
    let ghost a0 = int_a@;
    let ghost b0 = int_b@;
    let mut int_a = int_a;
    let mut int_b = int_b;
    let mut int_result: Vec<Hit<P>> = Vec::new();
    let mut inside_a = false;
    let mut inside_b = false;
    while int_a.len() > 0 && int_b.len() > 0
        invariant
            int_result@ + merge(op, int_a@, int_b@, inside_a, inside_b) == merge(
                op,
                a0,
                b0,
                false,
                false,
            ),
        decreases int_a@.len() + int_b@.len(),
    {
        match op.step(inside_a, inside_b, int_a[0].t, int_b[0].t) {
            Step::KeepA => keep(&mut int_a, &mut int_result, &mut inside_a),
            Step::KeepB => keep_second(op, &mut int_b, &mut int_result, &mut inside_b),
            Step::DropA => discard(&mut int_a, &mut inside_a),
            Step::DropB => discard(&mut int_b, &mut inside_b),
        }
    }
    match op {
        Op::Union => {
            while int_a.len() > 0
                invariant
                    int_result@ + merge(op, int_a@, int_b@, inside_a, inside_b) == merge(
                        op,
                        a0,
                        b0,
                        false,
                        false,
                    ),
                    int_a@.len() == 0 || int_b@.len() == 0,
                    op == Op::Union,
                decreases int_a@.len(),
            {
                let ghost ra = int_a@;
                keep(&mut int_a, &mut int_result, &mut inside_a);
                assert(flush(op, ra, int_b@) =~= seq![ra[0]] + flush(op, int_a@, int_b@));
            }
            while int_b.len() > 0
                invariant
                    int_result@ + merge(op, int_a@, int_b@, inside_a, inside_b) == merge(
                        op,
                        a0,
                        b0,
                        false,
                        false,
                    ),
                    int_a@.len() == 0,
                    op == Op::Union,
                decreases int_b@.len(),
            {
                let ghost rb = int_b@;
                keep(&mut int_b, &mut int_result, &mut inside_b);
                assert(flush(op, int_a@, rb) =~= seq![rb[0]] + flush(op, int_a@, int_b@));
            }
        },
        Op::Intersection => {},
        Op::Difference => {
            while int_a.len() > 0
                invariant
                    int_result@ + merge(op, int_a@, int_b@, inside_a, inside_b) == merge(
                        op,
                        a0,
                        b0,
                        false,
                        false,
                    ),
                    int_a@.len() == 0 || int_b@.len() == 0,
                    op == Op::Difference,
                decreases int_a@.len(),
            {
                let ghost ra = int_a@;
                keep(&mut int_a, &mut int_result, &mut inside_a);
                assert(flush(op, ra, int_b@) =~= seq![ra[0]] + flush(op, int_a@, int_b@));
            }
        },
    }
    int_result
}

} // verus!

//! Crossings of a ray with a surface.
use vstd::prelude::*;

verus! {

/// The signed key of a non-NaN `f32` given by its bit pattern: the magnitude
/// bits, negated when the sign bit is set. Keys order as the floats do, and
/// both zeros get the key 0.
pub open spec fn key_of_bits(bits: u32) -> int {
    if bits >= 0x8000_0000 {
        -((bits - 0x8000_0000) as int)
    } else {
        bits as int
    }
}

/// The order key of the `f32` whose bit pattern is `bits` (`f32::to_bits`).
///
/// For two non-NaN floats `x`, `y`: `x < y` exactly when
/// `order_key(x.to_bits()) < order_key(y.to_bits())`, and `x == y` exactly when
/// the keys are equal. A key is negative exactly when the float is below zero.
pub fn order_key(bits: u32) -> (k: i32)
    ensures
        k == key_of_bits(bits),
{
    if bits >= 0x8000_0000 {
        let magnitude: u32 = bits - 0x8000_0000;
        -(magnitude as i32)
    } else {
        bits as i32
    }
}

/// One crossing of a ray with a surface.
///
/// `t` is the ray parameter as an order key (see [`order_key`]); `entering`
/// says whether the ray passes from outside to inside there; `data` is the
/// rest of the record (position, normal, material, incident ray), which the
/// decisions of this crate carry along without reading.
#[derive(Clone, Copy, Debug, PartialEq)]
pub struct Hit<P> {
    pub t: i32,
    pub entering: bool,
    pub data: P,
}

/// Crossings in nondecreasing order of their ray parameter.
pub open spec fn is_sorted<P>(s: Seq<Hit<P>>) -> bool {
    forall|i: int, j: int| 0 <= i <= j < s.len() ==> s[i].t <= s[j].t
}

/// Every crossing of `s` lies at or beyond the parameter `lo`.
pub open spec fn all_at_least<P>(s: Seq<Hit<P>>, lo: int) -> bool {
    forall|i: int| 0 <= i < s.len() ==> lo <= s[i].t
}

/// The crossings `hits` in nondecreasing order of their parameter: the same
/// crossings, each as often as before.
pub fn sort_by_parameter<P>(hits: Vec<Hit<P>>) -> (r: Vec<Hit<P>>)
    ensures
        is_sorted(r@),
        r@.to_multiset() == hits@.to_multiset(),
{
    broadcast use vstd::multiset::group_multiset_axioms;
    broadcast use vstd::seq_lib::to_multiset_remove, vstd::seq_lib::to_multiset_insert;

    let mut rest = hits;
    let mut out: Vec<Hit<P>> = Vec::new();
    proof {
        assert(out@.to_multiset() =~= vstd::multiset::Multiset::<Hit<P>>::empty()) by {
            broadcast use vstd::seq_lib::group_seq_properties;

        }
    }
    while rest.len() > 0
        invariant
            is_sorted(out@),
            out@.to_multiset().add(rest@.to_multiset()) == hits@.to_multiset(),
        decreases rest@.len(),
    {
        let ghost before_rest = rest@;
        let ghost before_out = out@;
        let h = rest.remove(0);
        let mut pos: usize = 0;
        while pos < out.len() && out[pos].t <= h.t
            invariant
                pos <= out@.len(),
                out@ == before_out,
                is_sorted(before_out),
                before_rest.len() > 0,
                h == before_rest[0],
                rest@ == before_rest.remove(0),
                before_out.to_multiset().add(before_rest.to_multiset()) == hits@.to_multiset(),
                forall|j: int| 0 <= j < pos ==> out@[j].t <= h.t,
            decreases out@.len() - pos,
        {
            pos = pos + 1;
        }
        proof {
            if pos < out@.len() {
                assert(out@[pos as int].t > h.t);
            }
        }
        out.insert(pos, h);
        proof {
            vstd::seq_lib::to_multiset_remove(before_rest, 0);
            vstd::seq_lib::to_multiset_insert(before_out, pos as int, h);
            assert(before_rest.to_multiset().contains(h)) by {
                vstd::seq_lib::to_multiset_contains(before_rest, h);
                assert(before_rest.contains(h)) by {
                    assert(before_rest[0] == h);
                }
            }
            assert(out@.to_multiset().add(rest@.to_multiset()) =~= before_out.to_multiset().add(
                before_rest.to_multiset(),
            ));
            assert forall|a: int, b: int| 0 <= a <= b < out@.len() implies out@[a].t <= out@[b].t by {
                if a < pos && b > pos {
                    assert(before_out[a].t <= h.t);
                } else if a == pos && b > pos {
                    assert(out@[b] == before_out[b - 1]);
                    if b - 1 >= pos {
                        assert(before_out[pos as int].t <= before_out[b - 1].t);
                    }
                } else if a < pos && b == pos {
                } else if a > pos {
                    assert(out@[a] == before_out[a - 1]);
                    assert(out@[b] == before_out[b - 1]);
                }
            }
        }
    }
    proof {
        assert(rest@.to_multiset() =~= vstd::multiset::Multiset::<Hit<P>>::empty()) by {
            broadcast use vstd::seq_lib::group_seq_properties;

        }
        assert(out@.to_multiset().add(rest@.to_multiset()) =~= out@.to_multiset());
    }
    out
}

} // verus!

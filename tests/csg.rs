use std::collections::VecDeque;

use raytracer::csg::Op;
use raytracer::hit::{order_key, sort_by_parameter, Hit};

fn h(t: i32, entering: bool, id: u32) -> Hit<u32> {
    Hit { t, entering, data: id }
}

fn span(t0: i32, t1: i32, id0: u32, id1: u32) -> VecDeque<Hit<u32>> {
    VecDeque::from(vec![h(t0, true, id0), h(t1, false, id1)])
}

fn ids(hits: &[Hit<u32>]) -> Vec<u32> {
    hits.iter().map(|x| x.data).collect()
}

fn ts(hits: &[Hit<u32>]) -> Vec<i32> {
    hits.iter().map(|x| x.t).collect()
}

#[test]
fn union_of_disjoint_spans_keeps_all_crossings() {
    let r = Op::union(span(1, 3, 1, 2), span(5, 7, 3, 4));
    assert_eq!(ids(&r), vec![1, 2, 3, 4]);
    let r = Op::union(span(5, 7, 3, 4), span(1, 3, 1, 2));
    assert_eq!(ids(&r), vec![1, 2, 3, 4]);
    assert_eq!(r.len(), 4);
}

#[test]
fn intersection_of_disjoint_spans_is_empty() {
    assert!(Op::intersection(span(1, 3, 1, 2), span(5, 7, 3, 4)).is_empty());
    assert!(Op::intersection(span(5, 7, 3, 4), span(1, 3, 1, 2)).is_empty());
}

#[test]
fn difference_of_disjoint_spans_is_first_span() {
    assert_eq!(ids(&Op::difference(span(1, 3, 1, 2), span(5, 7, 3, 4))), vec![1, 2]);
    assert!(Op::difference(span(5, 7, 3, 4), span(1, 3, 1, 2)).len() == 2);
}

#[test]
fn overlapping_spans() {
    let r = Op::union(span(1, 4, 1, 2), span(2, 6, 3, 4));
    assert_eq!(ts(&r), vec![1, 6]);
    assert_eq!(ids(&r), vec![1, 4]);
    let r = Op::intersection(span(1, 4, 1, 2), span(2, 6, 3, 4));
    assert_eq!(ts(&r), vec![2, 4]);
    assert_eq!(ids(&r), vec![3, 2]);
    let r = Op::difference(span(1, 4, 1, 2), span(2, 6, 3, 4));
    assert_eq!(ts(&r), vec![1, 2]);
    assert_eq!(ids(&r), vec![1, 3]);
}

#[test]
fn second_span_inside_first() {
    let r = Op::difference(span(1, 6, 1, 2), span(2, 4, 3, 4));
    assert_eq!(ts(&r), vec![1, 2, 4, 6]);
    assert_eq!(ids(&r), vec![1, 3, 4, 2]);
    let r = Op::union(span(1, 6, 1, 2), span(2, 4, 3, 4));
    assert_eq!(ids(&r), vec![1, 2]);
    let r = Op::intersection(span(1, 6, 1, 2), span(2, 4, 3, 4));
    assert_eq!(ids(&r), vec![3, 4]);
}

#[test]
fn equal_parameters_favour_first_operand() {
    let r = Op::union(span(1, 3, 1, 2), span(1, 3, 3, 4));
    assert_eq!(ids(&r), vec![1, 4]);
    let r = Op::intersection(span(1, 3, 1, 2), span(1, 3, 3, 4));
    assert_eq!(ids(&r), vec![1, 3, 2]);
    let r = Op::difference(span(1, 3, 1, 2), span(1, 3, 3, 4));
    assert!(r.is_empty());
}

#[test]
fn empty_operands() {
    assert_eq!(ids(&Op::union(span(1, 3, 1, 2), VecDeque::new())), vec![1, 2]);
    assert_eq!(ids(&Op::union(VecDeque::new(), span(1, 3, 1, 2))), vec![1, 2]);
    assert!(Op::intersection(span(1, 3, 1, 2), VecDeque::new()).is_empty());
    assert!(Op::difference(VecDeque::new(), span(1, 3, 1, 2)).is_empty());
    assert_eq!(ids(&Op::difference(span(1, 3, 1, 2), VecDeque::new())), vec![1, 2]);
}

#[test]
fn apply_dispatches_on_operator() {
    assert_eq!(ids(&Op::Union.apply(span(1, 4, 1, 2), span(2, 6, 3, 4))), vec![1, 4]);
    assert_eq!(ids(&Op::Intersection.apply(span(1, 4, 1, 2), span(2, 6, 3, 4))), vec![3, 2]);
    assert_eq!(ids(&Op::Difference.apply(span(1, 4, 1, 2), span(2, 6, 3, 4))), vec![1, 3]);
}

#[test]
fn union_result_is_sorted() {
    let a = VecDeque::from(vec![h(-3, true, 1), h(0, false, 2), h(5, true, 3), h(9, false, 4)]);
    let b = VecDeque::from(vec![h(-1, true, 5), h(2, false, 6), h(8, true, 7), h(12, false, 8)]);
    let r = Op::union(a, b);
    assert_eq!(ts(&r), vec![-3, 2, 5, 12]);
    assert!(r.windows(2).all(|w| w[0].t <= w[1].t));
}

#[test]
fn combining_float_parameters_through_keys() {
    let k = |x: f32| order_key(x.to_bits());
    let a = VecDeque::from(vec![h(k(1.0), true, 1), h(k(3.0), false, 2)]);
    let b = VecDeque::from(vec![h(k(2.5), true, 3), h(k(4.5), false, 4)]);
    let r = Op::union(a, b);
    assert_eq!(ids(&r), vec![1, 4]);
}

#[test]
fn order_key_follows_float_order() {
    assert_eq!(order_key(0.0f32.to_bits()), 0);
    assert_eq!(order_key((-0.0f32).to_bits()), 0);
    assert_eq!(order_key(1.0f32.to_bits()), 0x3f80_0000);
    assert_eq!(order_key((-1.0f32).to_bits()), -0x3f80_0000);
    let xs = [f32::NEG_INFINITY, -1e30, -2.5, -1e-30, 0.0, 1e-30, 0.00001, 1.0, 3.0, 1e30, f32::INFINITY];
    for w in xs.windows(2) {
        assert!(order_key(w[0].to_bits()) < order_key(w[1].to_bits()));
    }
}

#[test]
fn union_and_intersection_alternate_entering_and_leaving() {
    let a = VecDeque::from(vec![h(1, true, 1), h(4, false, 2), h(8, true, 3), h(10, false, 4)]);
    let b = VecDeque::from(vec![h(3, true, 5), h(9, false, 6)]);
    let u = Op::union(a.clone(), b.clone());
    assert_eq!(ts(&u), vec![1, 10]);
    let i = Op::intersection(a, b);
    assert_eq!(ts(&i), vec![3, 4, 8, 9]);
    for r in [u, i] {
        for (k, x) in r.iter().enumerate() {
            assert_eq!(x.entering, k % 2 == 0);
        }
        assert_eq!(r.len() % 2, 0);
    }
}

#[test]
fn difference_inverts_flags_of_second_operand() {
    let r = Op::difference(span(1, 6, 1, 2), span(2, 4, 3, 4));
    let flags: Vec<bool> = r.iter().map(|x| x.entering).collect();
    assert_eq!(flags, vec![true, false, true, false]);
    assert_eq!(ids(&r), vec![1, 3, 4, 2]);
}

#[test]
fn hollow_sphere_alternates() {
    let k = |x: f32| order_key(x.to_bits());
    let outer = VecDeque::from(vec![h(k(2.0), true, 1), h(k(8.0), false, 2)]);
    let inner = VecDeque::from(vec![h(k(4.0), true, 3), h(k(6.0), false, 4)]);
    let r = Op::Difference.apply(outer, inner);
    assert_eq!(ts(&r), vec![k(2.0), k(4.0), k(6.0), k(8.0)]);
    let flags: Vec<bool> = r.iter().map(|x| x.entering).collect();
    assert_eq!(flags, vec![true, false, true, false]);
}

#[test]
fn sort_orders_crossings_by_parameter() {
    let r = sort_by_parameter(vec![h(5, true, 1), h(-2, false, 2), h(3, true, 3), h(3, false, 4), h(0, true, 5)]);
    assert_eq!(ts(&r), vec![-2, 0, 3, 3, 5]);
    assert_eq!(ids(&r), vec![2, 5, 3, 4, 1]);
    assert!(sort_by_parameter(Vec::<Hit<u32>>::new()).is_empty());
}

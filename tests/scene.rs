use std::cell::Cell;

use raytracer::hit::{order_key, Hit};
use raytracer::scene::{Scene, Shade, SHADOW_EPSILON};

fn h(t: i32, id: &'static str) -> Hit<&'static str> {
    Hit { t, entering: true, data: id }
}

fn key(x: f32) -> i32 {
    order_key(x.to_bits())
}

type Plain = Scene<u8, u8>;

#[test]
fn shadow_epsilon_is_the_key_of_its_float() {
    assert_eq!(SHADOW_EPSILON, key(0.00001));
}

#[test]
fn select_first_skips_hits_behind_the_origin() {
    let r = Plain::select_first(vec![h(-2, "a"), h(5, "b"), h(3, "c"), h(3, "d"), h(-1, "e")]);
    assert_eq!(r.map(|x| x.data), Some("c"));
    assert!(Plain::select_first(vec![h(-2, "a"), h(-1, "b")]).is_none());
    assert!(Plain::select_first(Vec::<Hit<&str>>::new()).is_none());
    assert_eq!(Plain::select_first(vec![h(-1, "a"), h(0, "b")]).map(|x| x.data), Some("b"));
}

#[test]
fn trace_returns_nearest_over_objects() {
    let s = Plain::new();
    let lists = vec![vec![h(5, "a")], vec![], vec![h(2, "b"), h(-1, "c")], vec![h(2, "d")]];
    assert_eq!(s.trace(lists).map(|x| x.data), Some("b"));
    let lists = vec![vec![h(-5, "a")], vec![h(-2, "b")]];
    assert!(s.trace(lists).is_none());
    assert!(s.trace(Vec::<Vec<Hit<&str>>>::new()).is_none());
}

#[test]
fn unit_sphere_crossings_in_order() {
    let s = Plain::new();
    let sphere = vec![
        Hit { t: key(1.0), entering: true, data: "front" },
        Hit { t: key(3.0), entering: false, data: "back" },
    ];
    let r = s.trace(vec![sphere]).unwrap();
    assert_eq!(r.data, "front");
    assert!(r.entering);
    assert_eq!(r.t, key(1.0));
}

#[test]
fn shadow_trace_finds_opaque_occluder_in_range() {
    let s = Plain::new();
    let firsts = vec![Some(h(key(2.0), "wall")), None];
    assert!(s.shadow_trace(&firsts, |i| [false, false][i], key(f32::INFINITY)));
    assert!(s.shadow_trace(&firsts, |i| [false, false][i], key(5.0)));
    assert!(!s.shadow_trace(&firsts, |i| [false, false][i], key(2.0)));
    assert!(!s.shadow_trace(&firsts, |i| [true, false][i], key(5.0)));
}

#[test]
fn shadow_trace_ignores_crossings_at_the_start() {
    let s = Plain::new();
    let limit = key(f32::INFINITY);
    assert!(!s.shadow_trace(&vec![Some(h(SHADOW_EPSILON, "x"))], |_| false, limit));
    assert!(s.shadow_trace(&vec![Some(h(SHADOW_EPSILON + 1, "x"))], |_| false, limit));
    assert!(!s.shadow_trace(&vec![Some(h(0, "x"))], |_| false, limit));
    assert!(!s.shadow_trace(&Vec::<Option<Hit<&str>>>::new(), |_| false, limit));
}

#[test]
fn shadow_agrees_with_nearest_opaque_hit() {
    let s = Plain::new();
    let lists = vec![vec![h(key(4.0), "far")], vec![h(key(1.5), "near"), h(key(2.5), "near-back")]];
    let firsts: Vec<Option<Hit<&str>>> = lists.iter().map(|l| Plain::select_first(l.clone())).collect();
    let transmits = vec![false, false];
    let nearest = s.trace(lists).unwrap();
    assert_eq!(nearest.data, "near");
    let limit = key(3.0);
    assert!(nearest.t > SHADOW_EPSILON && nearest.t < limit);
    assert!(s.shadow_trace(&firsts, |i| transmits[i], limit));
    let limit = key(1.0);
    assert!(!(nearest.t < limit));
    assert!(!s.shadow_trace(&firsts, |i| transmits[i], limit));
}

#[test]
fn glass_in_front_of_opaque_object_still_shadows() {
    let s = Plain::new();
    let firsts = vec![Some(h(key(1.0), "glass")), Some(h(key(2.0), "wall"))];
    assert!(s.shadow_trace(&firsts, |i| [true, false][i], key(10.0)));
    assert!(!s.shadow_trace(&firsts, |i| [true, true][i], key(10.0)));
}

#[test]
fn raytrace_with_no_budget_is_background_without_tracing() {
    let s = Plain::new();
    let calls = Cell::new(0);
    let r = s.raytrace(0, || {
        calls.set(calls.get() + 1);
        vec![vec![h(1, "a")]]
    });
    assert!(matches!(r, Shade::Background));
    assert_eq!(calls.get(), 0);
}

#[test]
fn raytrace_shades_nearest_surface_with_budget() {
    let s = Plain::new();
    let r = s.raytrace(5, || vec![vec![h(7, "a")], vec![h(3, "b")]]);
    match r {
        Shade::Surface { hit, budget } => {
            assert_eq!(hit.data, "b");
            assert_eq!(budget, 5);
        }
        Shade::Background => panic!("expected a surface"),
    }
    let r = s.raytrace(1, || vec![vec![h(-7, "a")]]);
    assert!(matches!(r, Shade::Background));
}

#[test]
fn scene_keeps_insertion_order() {
    let mut s: Scene<u8, char> = Scene::new();
    s.add_object(3);
    s.add_light('x');
    s.add_object(1);
    assert_eq!(s.object_list, vec![3, 1]);
    assert_eq!(s.light_list, vec!['x']);
}

#[test]
fn shadow_trace_draws_only_in_range_until_opaque() {
    let s = Plain::new();
    let firsts = vec![Some(h(key(20.0), "beyond")), Some(h(key(1.0), "glass")), Some(h(key(2.0), "wall")), Some(h(key(3.0), "after"))];
    let drawn = std::cell::RefCell::new(Vec::new());
    let r = s.shadow_trace(
        &firsts,
        |i| {
            drawn.borrow_mut().push(i);
            i == 1
        },
        key(10.0),
    );
    assert!(r);
    assert_eq!(*drawn.borrow(), vec![1, 2]);
}

use std::cell::Cell;

use raytracer::hit::Hit;
use raytracer::material::NormalShading;
use raytracer::photonmap::{
    bounced, next_bounce, next_caustic_bounce, records_caustic, shadow_step, Interaction, Next,
    ShadowStep, Type, MAX_BOUNCES,
};

type I = Interaction<&'static str, u32>;

#[test]
fn only_direct_photons_fire_shadows() {
    assert!(Type::Direct.fires_shadow());
    assert!(!Type::Indirect.fires_shadow());
    assert!(!Type::Shadow.fires_shadow());
}

#[test]
fn walk_ends_at_depth_zero_without_drawing() {
    let calls = Cell::new(0);
    let r = next_bounce(0, || {
        calls.set(1);
        I::Reflected { ray: "r", attenuation: 2 }
    });
    assert!(matches!(r, Next::Stop));
    assert_eq!(calls.get(), 0);
}

#[test]
fn global_walk_follows_reflection_and_transmission() {
    match next_bounce(MAX_BOUNCES, || I::Reflected { ray: "r", attenuation: 2 }) {
        Next::Bounce { ray, attenuation, depth } => {
            assert_eq!((ray, attenuation, depth), ("r", 2, 4));
        }
        Next::Stop => panic!("expected a bounce"),
    }
    match next_bounce(1, || I::Transmitted { ray: "t", attenuation: 3 }) {
        Next::Bounce { ray, attenuation, depth } => {
            assert_eq!((ray, attenuation, depth), ("t", 3, 0));
        }
        Next::Stop => panic!("expected a bounce"),
    }
    assert!(matches!(next_bounce(3, || I::Absorbed), Next::Stop));
}

#[test]
fn caustic_walk_follows_transmission_only() {
    assert!(matches!(
        next_caustic_bounce(3, || I::Reflected { ray: "r", attenuation: 2 }),
        Next::Stop
    ));
    assert!(matches!(next_caustic_bounce(3, || I::Absorbed), Next::Stop));
    match next_caustic_bounce(3, || I::Transmitted { ray: "t", attenuation: 3 }) {
        Next::Bounce { depth, .. } => assert_eq!(depth, 2),
        Next::Stop => panic!("expected a bounce"),
    }
    assert!(matches!(
        next_caustic_bounce(0, || I::Transmitted { ray: "t", attenuation: 3 }),
        Next::Stop
    ));
}

#[test]
fn caustic_map_records_direct_photons_through_glass_only() {
    assert!(records_caustic(Type::Direct, || I::Transmitted { ray: "t", attenuation: 1 }));
    assert!(!records_caustic(Type::Direct, || I::Reflected { ray: "r", attenuation: 1 }));
    assert!(!records_caustic(Type::Direct, || I::Absorbed));
    let calls = Cell::new(0);
    assert!(records_caustic(Type::Indirect, || {
        calls.set(1);
        I::Absorbed
    }));
    assert_eq!(calls.get(), 0);
}

#[test]
fn bounced_photon_is_indirect() {
    let p = bounced("ray", 7u32);
    assert_eq!(p.ray, "ray");
    assert_eq!(p.colour, 7);
    assert!(p.type_ == Type::Indirect);
}

#[test]
fn normal_shading_absorbs() {
    let i: I = NormalShading.interact();
    assert!(matches!(i, Interaction::Absorbed));
}

#[test]
fn shadow_photons_are_recorded_where_they_enter() {
    let enter = Hit { t: 4, entering: true, data: "in" };
    assert!(matches!(shadow_step(enter), ShadowStep::Record(x) if x.data == "in"));
    let leave = Hit { t: 4, entering: false, data: "out" };
    assert!(matches!(shadow_step(leave), ShadowStep::PassThrough(x) if x.data == "out"));
}

//! The bounce rules of the photon pass.
//!
//! A photon leaves a light, and at every surface it meets its hit is recorded
//! and the material's interaction decides whether it goes on. The tracing of
//! rays, the colours and the spatial index belong to the caller; the rules
//! that decide what is recorded and when a walk ends stand here.
use vstd::prelude::*;

use crate::hit::Hit;

verus! {

/// The bounces a photon may make after the hit where it is emitted toward:
/// a walk records at most one hit more than this.
pub const MAX_BOUNCES: usize = 5;

/// How a photon reached the point where it is recorded.
#[derive(Clone, Copy, Debug, PartialEq, Eq, Structural)]
pub enum Type {
    /// Straight from the light.
    Direct,
    /// After one or more bounces.
    Indirect,
    /// Behind the first surface that a direct photon met: a point that the
    /// light does not reach along that line.
    Shadow,
}

/// What a material does with light arriving at a hit: sends it on along `ray`
/// scaled by `attenuation`, or absorbs it.
pub enum Interaction<R, C> {
    Reflected { ray: R, attenuation: C },
    Transmitted { ray: R, attenuation: C },
    Absorbed,
}

/// A light-carrying sample: its ray, its colour, and how it got there.
pub struct Photon<R, C> {
    pub ray: R,
    pub colour: C,
    pub type_: Type,
}

/// What the photon pass does after recording a hit.
pub enum Next<R, C> {
    /// The walk ends.
    Stop,
    /// The walk goes on along `ray`, the photon's colour scaled by
    /// `attenuation`, with `depth` bounces left.
    Bounce { ray: R, attenuation: C, depth: usize },
}

impl Type {
    /// Whether a recorded hit of this type also fires a shadow photon on along
    /// the incident direction: only direct photons do.
    pub fn fires_shadow(&self) -> (r: bool)
        ensures
            r == (*self == Type::Direct),
    {
        match self {
            Type::Direct => true,
            _ => false,
        }
    }
}

/// The photon that a walk goes on with: typed indirect, with its colour
/// given by the caller (the previous colour scaled by the attenuation).
pub fn bounced<R, C>(ray: R, colour: C) -> (p: Photon<R, C>)
    ensures
        p == (Photon { ray, colour, type_: Type::Indirect }),
{
    Photon { ray, colour, type_: Type::Indirect }
}

/// The rule of the global map after a hit was recorded with `depth` bounces
/// left: at depth 0 the walk ends and `interact` is not called; else the
/// material's interaction (`interact`) decides: a reflected or transmitted
/// photon goes on with one bounce fewer, an absorbed one ends the walk.
pub fn next_bounce<R, C, F: FnOnce() -> Interaction<R, C>>(depth: usize, interact: F) -> (r: Next<
    R,
    C,
>)
    requires
        interact.requires(()),
    ensures
        depth == 0 ==> r is Stop,
        depth > 0 ==> exists|e: Interaction<R, C>|
            interact.ensures((), e) && r == match e {
                Interaction::Reflected { ray, attenuation } => Next::Bounce {
                    ray,
                    attenuation,
                    depth: (depth - 1) as usize,
                },
                Interaction::Transmitted { ray, attenuation } => Next::Bounce {
                    ray,
                    attenuation,
                    depth: (depth - 1) as usize,
                },
                Interaction::Absorbed => Next::Stop,
            },
{
    if depth < 1 {
        return Next::Stop;
    }
    let e = interact();
    match e {
        Interaction::Reflected { ray, attenuation } => Next::Bounce {
            ray,
            attenuation,
            depth: depth - 1,
        },
        Interaction::Transmitted { ray, attenuation } => Next::Bounce {
            ray,
            attenuation,
            depth: depth - 1,
        },
        Interaction::Absorbed => Next::Stop,
    }
}

/// The rule of the caustic map after a hit was recorded with `depth` bounces
/// left: as in the global map, but only a transmitted photon goes on;
/// reflection ends the walk as absorption does.
pub fn next_caustic_bounce<R, C, F: FnOnce() -> Interaction<R, C>>(depth: usize, interact: F) -> (r:
    Next<R, C>)
    requires
        interact.requires(()),
    ensures
        depth == 0 ==> r is Stop,
        depth > 0 ==> exists|e: Interaction<R, C>|
            interact.ensures((), e) && r == match e {
                Interaction::Transmitted { ray, attenuation } => Next::Bounce {
                    ray,
                    attenuation,
                    depth: (depth - 1) as usize,
                },
                _ => Next::Stop,
            },
{
    if depth < 1 {
        return Next::Stop;
    }
    let e = interact();
    match e {
        Interaction::Transmitted { ray, attenuation } => Next::Bounce {
            ray,
            attenuation,
            depth: depth - 1,
        },
        _ => Next::Stop,
    }
}

/// Whether the caustic map records a hit of a photon of type `type_`: every
/// bounced photon is recorded; a direct one only where the material lets it
/// through (`interact` is called for direct photons alone), and otherwise
/// its walk ends there.
pub fn records_caustic<R, C, F: FnOnce() -> Interaction<R, C>>(type_: Type, interact: F) -> (r: bool)
    requires
        interact.requires(()),
    ensures
        type_ != Type::Direct ==> r,
        type_ == Type::Direct ==> exists|e: Interaction<R, C>|
            interact.ensures((), e) && r == (e is Transmitted),
{
    match type_ {
        Type::Direct => {
            let e = interact();
            match e {
                Interaction::Transmitted { .. } => true,
                _ => false,
            }
        },
        _ => true,
    }
}

/// What a shadow photon does at the nearest crossing ahead of it.
pub enum ShadowStep<P> {
    /// It enters a surface there: the point is recorded as shadowed.
    Record(Hit<P>),
    /// It leaves a surface there, and goes on past it along the same line.
    PassThrough(Hit<P>),
}

/// The rule of a shadow photon at the nearest crossing ahead: recorded where
/// it enters a surface, passed on where it leaves one.
pub fn shadow_step<P>(hit: Hit<P>) -> (r: ShadowStep<P>)
    ensures
        hit.entering ==> r == ShadowStep::Record(hit),
        !hit.entering ==> r == ShadowStep::PassThrough(hit),
{
    if hit.entering {
        ShadowStep::Record(hit)
    } else {
        ShadowStep::PassThrough(hit)
    }
}

} // verus!

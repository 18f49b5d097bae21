//! A constrained particle simulator: circular bodies under gravity inside a
//! circular container, advanced by a fixed-substep Verlet integrator, with
//! interchangeable broad-phase collision strategies and an elastic
//! narrow-phase resolver.
//!
//! All simulation state is kept in fixed-point coordinates (multiples of
//! `1 / SCALE` world units), so every step of the solver is an exact integer
//! computation.

pub mod broadphase;
pub mod fixed;
pub mod snapshot;
pub mod solver;
pub mod vec2;
pub mod verlet;

use vstd::prelude::*;

verus! {

/// Relies on `std::time::SystemTime::now`: the wall clock, read as
/// milliseconds since the Unix epoch; the result depends on the clock, so
/// nothing further is promised of it.  A clock set before the epoch reads
/// as zero rather than panicking.
#[verifier::external_body]
fn clock_millis() -> u128 {
    std::time::SystemTime::now()
        .duration_since(std::time::UNIX_EPOCH)
        .map(|d| d.as_millis())
        .unwrap_or(0)
}

/// The current wall-clock time in milliseconds, for frame pacing.
pub fn get_time() -> u128 {
    clock_millis()
}

} // verus!

//! A single circular body.
//!
//! Velocity is never stored: it is implicit in the pair
//! `(position, last_position)` together with the length of the last
//! substep, in the manner of Verlet integration.

use crate::fixed::{cmul, tdiv, DEFAULT_RADIUS, FIX_PI, LIM, SCALE};
use crate::vec2::{c64, in_lim, vfixmul, vlen, vminus, vmuldiv, vplus, vzero, Vec2};
use vstd::prelude::*;

verus! {

/// A cosmetic RGBA color; it never feeds back into the simulation.
#[derive(Clone, Copy, Debug, PartialEq, Eq, Structural)]
pub struct Color {
    pub r: u8,
    pub g: u8,
    pub b: u8,
    pub a: u8,
}

#[derive(Clone, Copy, Debug, PartialEq, Eq, Structural)]
pub struct Verlet {
    pub id: usize,
    pub position: Vec2,
    pub last_position: Vec2,
    pub last_grid: usize,
    pub position_in_cell: usize,
    pub acceleration: Vec2,
    pub last_acceleration: Vec2,
    pub radius: i64,
    pub density: i64,
    pub last_dt: i64,
    pub color: Color,
    pub is_sleeping: bool,
    pub sleep_timer: i64,
}

/// Relies on `rand::random`: each sampled byte is an arbitrary value; only
/// the alpha channel is fixed.
#[verifier::external_body]
fn random_color() -> (c: Color)
    ensures
        c.a == 255,
{
    Color { r: rand::random(), g: rand::random(), b: rand::random(), a: 255 }
}

impl Verlet {
    /// Every stored scalar sits in the band the arithmetic keeps exact, the
    /// radius and density are positive, and the timing fields are
    /// nonnegative.
    pub open spec fn wf(self) -> bool {
        &&& in_lim(self.position)
        &&& in_lim(self.last_position)
        &&& in_lim(self.acceleration)
        &&& in_lim(self.last_acceleration)
        &&& 1 <= self.radius <= LIM
        &&& 1 <= self.density <= LIM
        &&& 0 <= self.last_dt <= LIM
        &&& 0 <= self.sleep_timer <= LIM
    }

    /// Mass is density times the disc area, `density * pi * radius^2`.
    pub open spec fn mass_spec(self) -> int {
        cmul(
            self.density as int,
            cmul(FIX_PI as int, cmul(self.radius as int, self.radius as int, SCALE as int), SCALE as int),
            SCALE as int,
        )
    }

    /// The implicit velocity `(position - last_position) / last_dt`, zero
    /// before the first integration step.
    pub open spec fn vel_spec(self) -> Vec2 {
        if self.last_dt == 0 {
            vzero()
        } else {
            vmuldiv(vminus(self.position, self.last_position), SCALE as int, self.last_dt as int)
        }
    }

    /// One Verlet step: `position + d + acceleration * dt^2`, with the
    /// acceleration accumulator snapshotted and cleared.  A sleeping body
    /// keeps its position but still records the step.
    pub open spec fn integrate_spec(self, dt: i64) -> Verlet {
        if self.is_sleeping {
            Verlet {
                last_acceleration: self.acceleration,
                last_dt: dt,
                acceleration: vzero(),
                ..self
            }
        } else {
            Verlet {
                position: vplus(
                    vplus(self.position, vminus(self.position, self.last_position)),
                    vfixmul(vfixmul(self.acceleration, dt as int), dt as int),
                ),
                last_position: self.position,
                last_acceleration: self.acceleration,
                last_dt: dt,
                acceleration: vzero(),
                ..self
            }
        }
    }

    pub open spec fn with_position(self, position: Vec2) -> Verlet {
        Verlet { position, ..self }
    }

    pub open spec fn with_velocity(self, velocity: Vec2, dt: i64) -> Verlet {
        Verlet { last_position: vminus(self.position, vfixmul(velocity, dt as int)), ..self }
    }

    pub open spec fn with_added_velocity(self, velocity: Vec2, dt: i64) -> Verlet {
        Verlet { last_position: vminus(self.last_position, vfixmul(velocity, dt as int)), ..self }
    }

    pub open spec fn with_added_acceleration(self, acceleration: Vec2) -> Verlet {
        Verlet { acceleration: vplus(self.acceleration, acceleration), ..self }
    }

    /// The sleep bookkeeping: the timer accumulates while the speed stays
    /// under the threshold and resets otherwise; crossing the time
    /// threshold marks the body sleeping.
    pub open spec fn try_sleep_spec(self, velocity_threshold: i64, time_threshold: i64, dt: i64) -> Verlet {
        if self.is_sleeping {
            self
        } else {
            let speed = vlen(self.vel_spec());
            if speed < velocity_threshold {
                let timer = c64(self.sleep_timer + dt);
                Verlet { sleep_timer: timer, is_sleeping: timer >= time_threshold, ..self }
            } else {
                Verlet { sleep_timer: 0, ..self }
            }
        }
    }

    pub open spec fn interp_spec(self, alpha: i64) -> Vec2 {
        vplus(self.last_position, vfixmul(vminus(self.position, self.last_position), alpha as int))
    }

    pub fn new(position: Vec2) -> (r: Verlet)
        requires
            in_lim(position),
        ensures
            r == (Verlet { color: r.color, ..Verlet::defaults_at(position) }),
            r.color.a == 255,
            r.wf(),
    {
        Verlet { color: random_color(), ..Self::plain(position) }
    }

    /// The default state of a freshly spawned body, color aside.
    pub open spec fn defaults_at(position: Vec2) -> Verlet {
        Verlet {
            id: 0,
            position,
            last_position: position,
            last_grid: usize::MAX,
            position_in_cell: usize::MAX,
            acceleration: vzero(),
            last_acceleration: vzero(),
            radius: DEFAULT_RADIUS,
            density: SCALE,
            last_dt: 0,
            color: Color { r: 255, g: 255, b: 255, a: 255 },
            is_sleeping: false,
            sleep_timer: 0,
        }
    }

    fn plain(position: Vec2) -> (r: Verlet)
        ensures
            r == Verlet::defaults_at(position),
    {
        Verlet {
            id: 0,
            position,
            last_position: position,
            last_grid: usize::MAX,
            position_in_cell: usize::MAX,
            acceleration: Vec2::zero(),
            last_acceleration: Vec2::zero(),
            radius: DEFAULT_RADIUS,
            density: SCALE,
            last_dt: 0,
            color: Color { r: 255, g: 255, b: 255, a: 255 },
            is_sleeping: false,
            sleep_timer: 0,
        }
    }

    pub fn new_with_radius(position: Vec2, radius: i64) -> (r: Verlet)
        requires
            in_lim(position),
            1 <= radius <= LIM,
        ensures
            r == (Verlet { color: r.color, radius, ..Verlet::defaults_at(position) }),
            r.color.a == 255,
            r.wf(),
    {
        Verlet { color: random_color(), radius, ..Self::plain(position) }
    }

    pub fn new_with_velocity(position: Vec2, velocity: Vec2, dt: i64) -> (r: Verlet)
        requires
            in_lim(position),
            in_lim(velocity),
            0 <= dt <= LIM,
        ensures
            r == (Verlet {
                color: r.color,
                last_position: vminus(position, vfixmul(velocity, dt as int)),
                last_dt: dt,
                ..Verlet::defaults_at(position)
            }),
            r.color.a == 255,
            r.wf(),
    {
        let last_position = position.minus(velocity.fixmul(dt));
        Verlet { color: random_color(), last_position, last_dt: dt, ..Self::plain(position) }
    }

    pub fn get_color(&self) -> (r: Color)
        ensures
            r == self.color,
    {
        self.color
    }

    pub fn set_color(&mut self, color: Color)
        ensures
            *final(self) == (Verlet { color, ..*old(self) }),
    {
        self.color = color;
    }

    pub fn get_id(&self) -> (r: usize)
        ensures
            r == self.id,
    {
        self.id
    }

    pub fn set_id(&mut self, id: usize)
        ensures
            *final(self) == (Verlet { id, ..*old(self) }),
    {
        self.id = id;
    }

    pub fn get_radius(&self) -> (r: i64)
        ensures
            r == self.radius,
    {
        self.radius
    }

    pub fn set_radius(&mut self, radius: i64)
        requires
            1 <= radius <= LIM,
        ensures
            *final(self) == (Verlet { radius, ..*old(self) }),
    {
        self.radius = radius;
    }

    pub fn get_mass(&self) -> (r: i64)
        ensures
            r as int == self.mass_spec(),
    {
        let rr = crate::fixed::muldiv64(self.radius, self.radius, SCALE);
        let area = crate::fixed::muldiv64(FIX_PI, rr, SCALE);
        crate::fixed::muldiv64(self.density, area, SCALE)
    }

    pub fn add_acceleration(&mut self, acceleration: Vec2)
        ensures
            *final(self) == old(self).with_added_acceleration(acceleration),
    {
        self.acceleration = self.acceleration.plus(acceleration);
    }

    pub fn get_position(&self) -> (r: Vec2)
        ensures
            r == self.position,
    {
        self.position
    }

    pub fn set_position(&mut self, position: Vec2)
        requires
            in_lim(position),
        ensures
            *final(self) == old(self).with_position(position),
    {
        self.position = position;
    }

    pub fn get_velocity(&self) -> (r: Vec2)
        requires
            self.wf(),
        ensures
            r == self.vel_spec(),
            in_lim(r),
    {
        if self.last_dt == 0 {
            Vec2::zero()
        } else {
            self.position.minus(self.last_position).muldiv(SCALE, self.last_dt)
        }
    }

    pub fn set_velocity(&mut self, velocity: Vec2, dt: i64)
        requires
            old(self).wf(),
        ensures
            *final(self) == old(self).with_velocity(velocity, dt),
            final(self).wf(),
    {
        self.last_position = self.position.minus(velocity.fixmul(dt));
    }

    pub fn add_velocity(&mut self, velocity: Vec2, dt: i64)
        requires
            old(self).wf(),
        ensures
            *final(self) == old(self).with_added_velocity(velocity, dt),
            final(self).wf(),
    {
        self.last_position = self.last_position.minus(velocity.fixmul(dt));
    }

    pub fn get_acceleration(&self) -> (r: Vec2)
        ensures
            r == self.last_acceleration,
    {
        self.last_acceleration
    }

    /// Position blended `alpha` of the way from the previous step to the
    /// current one, for sub-frame rendering only.
    pub fn get_interpolated_position(&self, alpha: i64) -> (r: Vec2)
        requires
            self.wf(),
        ensures
            r == self.interp_spec(alpha),
    {
        self.last_position.plus(self.position.minus(self.last_position).fixmul(alpha))
    }

    pub fn is_sleeping(&self) -> (r: bool)
        ensures
            r == self.is_sleeping,
    {
        self.is_sleeping
    }

    pub fn wake_up(&mut self)
        ensures
            *final(self) == (Verlet { is_sleeping: false, sleep_timer: 0, ..*old(self) }),
    {
        self.is_sleeping = false;
        self.sleep_timer = 0;
    }

    pub fn try_sleep(&mut self, velocity_threshold: i64, time_threshold: i64, dt: i64)
        requires
            old(self).wf(),
            0 <= dt <= LIM,
        ensures
            *final(self) == old(self).try_sleep_spec(velocity_threshold, time_threshold, dt),
            final(self).wf(),
    {
        if self.is_sleeping {
            return ;
        }
        let velocity = self.get_velocity().length();
        if velocity < velocity_threshold {
            self.sleep_timer = crate::fixed::addc(self.sleep_timer, dt);
            if self.sleep_timer >= time_threshold {
                self.is_sleeping = true;
            }
        } else {
            self.sleep_timer = 0;
        }
    }

    pub fn update_position(&mut self, dt: i64)
        requires
            old(self).wf(),
            0 <= dt <= LIM,
        ensures
            *final(self) == old(self).integrate_spec(dt),
            final(self).wf(),
    {
        if self.is_sleeping {
            self.last_acceleration = self.acceleration;
            self.last_dt = dt;
            self.acceleration = Vec2::zero();
            return ;
        }
        let displacement = self.position.minus(self.last_position);
        let step = self.acceleration.fixmul(dt).fixmul(dt);
        self.last_position = self.position;
        self.position = self.position.plus(displacement).plus(step);
        self.last_acceleration = self.acceleration;
        self.last_dt = dt;
        self.acceleration = Vec2::zero();
    }

    pub fn get_last_grid(&self) -> (r: usize)
        ensures
            r == self.last_grid,
    {
        self.last_grid
    }

    pub fn set_last_grid(&mut self, grid: usize, position: usize)
        ensures
            *final(self) == (Verlet { last_grid: grid, position_in_cell: position, ..*old(self) }),
    {
        self.last_grid = grid;
        self.position_in_cell = position;
    }

    pub fn get_position_in_cell(&self) -> (r: usize)
        ensures
            r == self.position_in_cell,
    {
        self.position_in_cell
    }

    pub fn set_position_in_cell(&mut self, position: usize)
        ensures
            *final(self) == (Verlet { position_in_cell: position, ..*old(self) }),
    {
        self.position_in_cell = position;
    }
}

/// The position a free-flying body would hold after `k` more steps stays
/// inside the stored band.
pub open spec fn free_flight_in_band(p: Verlet, k: int) -> bool {
    &&& -LIM <= p.position.x + k * (p.position.x - p.last_position.x) <= LIM
    &&& -LIM <= p.position.y + k * (p.position.y - p.last_position.y) <= LIM
}

/// `n` integration steps in a row.
pub open spec fn iterate_integrate(p: Verlet, dt: i64, n: nat) -> Verlet
    decreases n,
{
    if n == 0 {
        p
    } else {
        iterate_integrate(p, dt, (n - 1) as nat).integrate_spec(dt)
    }
}

/// Free flight is exactly linear: a body that is awake, carries no
/// accumulated acceleration, and stays inside the stored band moves by the
/// same displacement `d = position - last_position` on every step, so after
/// `n` steps it stands at `initial + n * d`.
pub proof fn lemma_free_flight(p: Verlet, dt: i64, n: nat)
    requires
        p.wf(),
        !p.is_sleeping,
        p.acceleration == vzero(),
        0 <= dt <= LIM,
        -LIM <= p.position.x - p.last_position.x <= LIM,
        -LIM <= p.position.y - p.last_position.y <= LIM,
        forall|k: int| 0 <= k <= n ==> #[trigger] free_flight_in_band(p, k),
    ensures
        iterate_integrate(p, dt, n).position.x == p.position.x + n * (
        p.position.x - p.last_position.x),
        iterate_integrate(p, dt, n).position.y == p.position.y + n * (
        p.position.y - p.last_position.y),
        iterate_integrate(p, dt, n).position.x - iterate_integrate(p, dt, n).last_position.x
            == p.position.x - p.last_position.x,
        iterate_integrate(p, dt, n).position.y - iterate_integrate(p, dt, n).last_position.y
            == p.position.y - p.last_position.y,
        iterate_integrate(p, dt, n).acceleration == vzero(),
        !iterate_integrate(p, dt, n).is_sleeping,
        iterate_integrate(p, dt, n).wf(),
    decreases n,
{
    let dx = p.position.x - p.last_position.x;
    let dy = p.position.y - p.last_position.y;
    if n == 0 {
        assert(p.position.x + 0 * dx == p.position.x) by (nonlinear_arith);
        assert(p.position.y + 0 * dy == p.position.y) by (nonlinear_arith);
    } else {
        lemma_free_flight(p, dt, (n - 1) as nat);
        let q = iterate_integrate(p, dt, (n - 1) as nat);
        let r = iterate_integrate(p, dt, n);
        assert(r == q.integrate_spec(dt));
        assert(p.position.x + (n - 1) * dx + dx == p.position.x + n * dx) by (nonlinear_arith);
        assert(p.position.y + (n - 1) * dy + dy == p.position.y + n * dy) by (nonlinear_arith);
        assert(q.position.x == p.position.x + (n - 1) * dx);
        assert(free_flight_in_band(p, n - 1));
        assert(free_flight_in_band(p, n as int));
        assert(-LIM <= p.position.x + (n - 1) * dx <= LIM && -LIM <= p.position.x + n * dx <= LIM);
        assert(-LIM <= p.position.y + (n - 1) * dy <= LIM && -LIM <= p.position.y + n * dy <= LIM);
        assert(cmul(0, dt as int, SCALE as int) == 0) by {
            assert(tdiv(0, SCALE as int) == 0);
        }
        assert(r.position.x == q.position.x + dx);
        assert(r.position.y == q.position.y + dy);
    }
}

} // verus!

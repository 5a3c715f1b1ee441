use vstd::prelude::*;
use crate::vec3::{Bounds, Vec3, COORD_LIMIT};

verus! {

/// Milliseconds per second: `dt` is given in milliseconds.
pub const MILLIS_PER_SECOND: i64 = 1000;

/// Largest time step, in milliseconds, that one integration step accepts.
pub const DT_LIMIT: u32 = 65536;

/// Largest acceleration magnitude per component, in length units per second squared.
pub const ACCEL_LIMIT: i64 = 1073741824;

/// One unit of mass.
pub const MASS_ONE: u32 = 1000000;

/// Truncating division (rounds toward zero), as integer hardware does.
pub open spec fn tdiv(n: int, d: int) -> int {
    if n >= 0 {
        n / d
    } else {
        -((-n) / d)
    }
}

/// Displacement that an acceleration adds over one step of `dt` milliseconds.
pub open spec fn accel_term(a: int, dt: int) -> int {
    tdiv(a * dt * dt, MILLIS_PER_SECOND * MILLIS_PER_SECOND)
}

/// Position-Verlet update of one coordinate: `2x - x_prev + a dt^2`.
pub open spec fn verlet_coord(x: int, prev: int, a: int, dt: int) -> int {
    2 * x - prev + accel_term(a, dt)
}

pub open spec fn verlet_pos(pos: Vec3, prev: Vec3, acc: Vec3, dt: int) -> Vec3 {
    Vec3 {
        x: verlet_coord(pos.x as int, prev.x as int, acc.x as int, dt) as i64,
        y: verlet_coord(pos.y as int, prev.y as int, acc.y as int, dt) as i64,
        z: verlet_coord(pos.z as int, prev.z as int, acc.z as int, dt) as i64,
    }
}

/// A point mass. Velocity is implicit in `position - previous_position`.
#[derive(Clone, Copy, Debug, PartialEq, Eq, Structural)]
pub struct Particle {
    pub position: Vec3,
    pub previous_position: Vec3,
    pub acceleration: Vec3,
    /// In millionths of a unit mass. Below `MASS_EPSILON` the particle is
    /// pinned: it counts as infinitely heavy and links never move it.
    pub mass: u32,
}

impl Particle {
    /// Position and previous position within `COORD_LIMIT`, acceleration
    /// within `ACCEL_LIMIT`: what one integration step needs.
    pub open spec fn ready(self) -> bool {
        self.position.within(COORD_LIMIT as int) && self.previous_position.within(
            COORD_LIMIT as int,
        ) && self.acceleration.within(ACCEL_LIMIT as int)
    }

    /// The particle after one Verlet step of `dt` milliseconds.
    pub open spec fn verlet_spec(self, dt: int) -> Particle {
        Particle {
            position: verlet_pos(self.position, self.previous_position, self.acceleration, dt),
            previous_position: self.position,
            ..self
        }
    }

    /// A particle of unit mass at rest at `position`, moving as if it had
    /// come from `previous_position`.
    pub fn new(position: Vec3, previous_position: Vec3) -> (r: Particle)
        ensures
            r == (Particle {
                position,
                previous_position,
                acceleration: Vec3 { x: 0, y: 0, z: 0 },
                mass: MASS_ONE,
            }),
    {
        Particle { position, previous_position, acceleration: Vec3::zero(), mass: MASS_ONE }
    }

    /// Advances the particle by `dt` milliseconds with position-Verlet
    /// integration; the old position becomes the previous position.
    pub fn verlet(&mut self, dt: u32)
        requires
            old(self).ready(),
            dt <= DT_LIMIT,
        ensures
            *final(self) == old(self).verlet_spec(dt as int),
    {
        let x = verlet_i64(self.position.x, self.previous_position.x, self.acceleration.x, dt);
        let y = verlet_i64(self.position.y, self.previous_position.y, self.acceleration.y, dt);
        let z = verlet_i64(self.position.z, self.previous_position.z, self.acceleration.z, dt);
        self.previous_position = self.position;
        self.position = Vec3 { x, y, z };
    }

    /// Sets the acceleration for the next step (overwrites, does not sum).
    pub fn accumulate_forces(&mut self, force: Vec3)
        ensures
            *final(self) == (Particle { acceleration: force, ..*old(self) }),
    {
        self.acceleration = force;
    }

    /// Clamps the position into `bounds`.
    pub fn satisfy_constraints(&mut self, bounds: &Bounds)
        requires
            bounds.wf(),
        ensures
            *final(self) == (Particle { position: bounds.clamp_spec(old(self).position), ..*old(self) }),
            bounds.contains(final(self).position),
    {
        self.position = bounds.clamp(self.position);
    }
}

proof fn lemma_accel_product_bound(a: int, dt: int)
    requires
        -ACCEL_LIMIT <= a <= ACCEL_LIMIT,
        0 <= dt <= DT_LIMIT,
    ensures
        -0x400000000000 <= a * dt <= 0x400000000000,
        -0x4000000000000000 <= a * dt * dt <= 0x4000000000000000,
{
    assert(-0x400000000000 <= a * dt <= 0x400000000000) by (nonlinear_arith)
        requires
            -ACCEL_LIMIT <= a <= ACCEL_LIMIT,
            0 <= dt <= DT_LIMIT,
    ;
    assert(-0x4000000000000000 <= (a * dt) * dt <= 0x4000000000000000) by (nonlinear_arith)
        requires
            -0x400000000000 <= a * dt <= 0x400000000000,
            0 <= dt <= DT_LIMIT,
    ;
}

proof fn lemma_accel_term_bound(a: int, dt: int)
    requires
        -ACCEL_LIMIT <= a <= ACCEL_LIMIT,
        0 <= dt <= DT_LIMIT,
    ensures
        -0x100000000000 <= accel_term(a, dt) <= 0x100000000000,
{
    lemma_accel_product_bound(a, dt);
    let n = a * dt * dt;
    if n >= 0 {
        assert(n / 1000000 <= 0x100000000000) by (nonlinear_arith)
            requires
                0 <= n <= 0x4000000000000000,
        ;
    } else {
        assert((-n) / 1000000 <= 0x100000000000) by (nonlinear_arith)
            requires
                0 < -n <= 0x4000000000000000,
        ;
    }
}

fn verlet_i64(x: i64, prev: i64, a: i64, dt: u32) -> (r: i64)
    requires
        -COORD_LIMIT <= x <= COORD_LIMIT,
        -COORD_LIMIT <= prev <= COORD_LIMIT,
        -ACCEL_LIMIT <= a <= ACCEL_LIMIT,
        dt <= DT_LIMIT,
    ensures
        r == verlet_coord(x as int, prev as int, a as int, dt as int),
{
    proof {
        lemma_accel_term_bound(a as int, dt as int);
        lemma_accel_product_bound(a as int, dt as int);
    }
    let d: i128 = dt as i128;
    let ad: i128 = (a as i128) * d;
    let n: i128 = ad * d;
    let term: i128 = if n >= 0 {
        n / 1000000
    } else {
        -((-n) / 1000000)
    };
    (2 * (x as i128) - (prev as i128) + term) as i64
}

/// Integration is a function of its inputs alone: equal particles and time
/// steps give equal results.
pub proof fn integration_is_deterministic(p: Particle, q: Particle, dt: int)
    requires
        p.position == q.position,
        p.previous_position == q.previous_position,
        p.acceleration == q.acceleration,
    ensures
        p.verlet_spec(dt).position == q.verlet_spec(dt).position,
        p.verlet_spec(dt).previous_position == q.verlet_spec(dt).previous_position,
{
}

} // verus!

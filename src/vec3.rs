use vstd::prelude::*;

verus! {

/// Largest coordinate magnitude that positions entering a tick may have.
pub const COORD_LIMIT: i64 = 1073741824;

/// A point or displacement in fixed-point coordinates.
#[derive(Clone, Copy, Debug, PartialEq, Eq, Structural)]
pub struct Vec3 {
    pub x: i64,
    pub y: i64,
    pub z: i64,
}

impl Vec3 {
    /// Every component lies in `[-r, r]`.
    pub open spec fn within(self, r: int) -> bool {
        -r <= self.x <= r && -r <= self.y <= r && -r <= self.z <= r
    }

    pub fn new(x: i64, y: i64, z: i64) -> (r: Vec3)
        ensures
            r == (Vec3 { x, y, z }),
    {
        Vec3 { x, y, z }
    }

    pub fn zero() -> (r: Vec3)
        ensures
            r == (Vec3 { x: 0, y: 0, z: 0 }),
    {
        Vec3 { x: 0, y: 0, z: 0 }
    }
}

pub open spec fn clamp_int(v: int, lo: int, hi: int) -> int {
    if v < lo {
        lo
    } else if v > hi {
        hi
    } else {
        v
    }
}

/// An axis-aligned box given by its lower and upper corners.
#[derive(Clone, Copy, Debug, PartialEq, Eq, Structural)]
pub struct Bounds {
    pub bottom: Vec3,
    pub top: Vec3,
}

impl Bounds {
    /// The corners are ordered on every axis and lie within `COORD_LIMIT`.
    pub open spec fn wf(self) -> bool {
        self.bottom.x <= self.top.x && self.bottom.y <= self.top.y && self.bottom.z <= self.top.z
            && self.bottom.within(COORD_LIMIT as int) && self.top.within(COORD_LIMIT as int)
    }

    pub open spec fn contains(self, p: Vec3) -> bool {
        self.bottom.x <= p.x <= self.top.x && self.bottom.y <= p.y <= self.top.y
            && self.bottom.z <= p.z <= self.top.z
    }

    pub open spec fn clamp_spec(self, p: Vec3) -> Vec3 {
        Vec3 {
            x: clamp_int(p.x as int, self.bottom.x as int, self.top.x as int) as i64,
            y: clamp_int(p.y as int, self.bottom.y as int, self.top.y as int) as i64,
            z: clamp_int(p.z as int, self.bottom.z as int, self.top.z as int) as i64,
        }
    }

    /// A box from two corners; `None` unless `bottom <= top` on every axis and
    /// both corners lie within `COORD_LIMIT`.
    pub fn new(bottom: Vec3, top: Vec3) -> (r: Option<Bounds>)
        ensures
            r is Some <==> (Bounds { bottom, top }).wf(),
            r is Some ==> r->0 == (Bounds { bottom, top }),
    {
        if bottom.x <= top.x && bottom.y <= top.y && bottom.z <= top.z && -COORD_LIMIT
            <= bottom.x && bottom.x <= COORD_LIMIT && -COORD_LIMIT <= bottom.y && bottom.y
            <= COORD_LIMIT && -COORD_LIMIT <= bottom.z && bottom.z <= COORD_LIMIT
            && -COORD_LIMIT <= top.x && top.x <= COORD_LIMIT && -COORD_LIMIT <= top.y && top.y
            <= COORD_LIMIT && -COORD_LIMIT <= top.z && top.z <= COORD_LIMIT {
            Some(Bounds { bottom, top })
        } else {
            None
        }
    }

    /// Moves `p` component-wise to the nearest point of the box.
    pub fn clamp(&self, p: Vec3) -> (r: Vec3)
        requires
            self.wf(),
        ensures
            r == self.clamp_spec(p),
            self.contains(r),
            r.within(COORD_LIMIT as int),
    {
        Vec3 {
            x: clamp_i64(p.x, self.bottom.x, self.top.x),
            y: clamp_i64(p.y, self.bottom.y, self.top.y),
            z: clamp_i64(p.z, self.bottom.z, self.top.z),
        }
    }
}

fn clamp_i64(v: i64, lo: i64, hi: i64) -> (r: i64)
    requires
        lo <= hi,
    ensures
        r == clamp_int(v as int, lo as int, hi as int),
        lo <= r <= hi,
{
    if v < lo {
        lo
    } else if v > hi {
        hi
    } else {
        v
    }
}

/// Clamping into a box is idempotent: a second clamp changes nothing.
pub proof fn clamp_idempotent(bounds: Bounds, p: Vec3)
    requires
        bounds.wf(),
    ensures
        bounds.clamp_spec(bounds.clamp_spec(p)) == bounds.clamp_spec(p),
        bounds.contains(bounds.clamp_spec(p)),
{
}

/// A point already inside the box is left where it is.
pub proof fn clamp_keeps_inside(bounds: Bounds, p: Vec3)
    requires
        bounds.wf(),
        bounds.contains(p),
    ensures
        bounds.clamp_spec(p) == p,
{
}

} // verus!

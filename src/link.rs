use vstd::prelude::*;
use crate::particle::{tdiv, Particle, MASS_ONE};
use crate::vec3::{Bounds, Vec3, COORD_LIMIT};

verus! {

/// Passes of the per-link relaxation loop.
pub const NUM_ITERATIONS: usize = 5;

/// Masses below this (one ten-thousandth of a unit) count as near zero: such
/// a particle is pinned, as if infinitely heavy, and links never move it.
pub const MASS_EPSILON: u32 = 100;

/// Largest target distance a link may carry.
pub const LINK_LIMIT: u64 = 4294967296;

/// How a link's target distance follows from the current one.
#[derive(Clone, Copy, Debug, PartialEq, Eq, Structural)]
pub enum ParticleLinkType {
    /// Always pull or push to exactly this distance.
    Exact(u64),
    /// Push apart only when closer than this distance.
    Min(u64),
    /// Pull together only when farther than this distance.
    Max(u64),
}

impl ParticleLinkType {
    pub open spec fn distance(self) -> u64 {
        match self {
            ParticleLinkType::Exact(d) => d,
            ParticleLinkType::Min(d) => d,
            ParticleLinkType::Max(d) => d,
        }
    }

    pub open spec fn wf(self) -> bool {
        self.distance() <= LINK_LIMIT
    }

    /// The distance the link aims for when the endpoints are `l` apart.
    pub open spec fn target(self, l: int) -> int {
        match self {
            ParticleLinkType::Exact(d) => d as int,
            ParticleLinkType::Min(d) => if l >= d { l } else { d as int },
            ParticleLinkType::Max(d) => if l <= d { l } else { d as int },
        }
    }
}

/// A distance constraint between the particles at indices `a` and `b`.
#[derive(Clone, Copy, Debug, PartialEq, Eq, Structural)]
pub struct ParticleLink {
    pub a: usize,
    pub b: usize,
    pub link_type: ParticleLinkType,
}

pub open spec fn len_sq(dx: int, dy: int, dz: int) -> int {
    dx * dx + dy * dy + dz * dz
}

/// `r` is the integer square root of `n`.
pub open spec fn is_root(n: int, r: int) -> bool {
    0 <= r && r * r <= n && n < (r + 1) * (r + 1)
}

/// The integer square root (floor of the real one) of a natural number.
pub open spec fn isqrt(n: int) -> int {
    choose|r: int| is_root(n, r)
}

/// Numerator and denominator of a particle's inverse mass; a pinned
/// particle (mass below `MASS_EPSILON`) has inverse mass zero.
pub open spec fn inv_mass_num(m: u32) -> int {
    if m < MASS_EPSILON {
        0
    } else {
        MASS_ONE as int
    }
}

pub open spec fn inv_mass_den(m: u32) -> int {
    if m < MASS_EPSILON {
        1
    } else {
        m as int
    }
}

/// Inverse mass of a particle of mass `m`, over the common denominator it
/// shares with its partner of mass `other`.
pub open spec fn weight(m: u32, other: u32) -> int {
    inv_mass_num(m) * inv_mass_den(other)
}

/// The share of the gap closed along one axis by a particle of inverse-mass
/// weight `w`: `0.5 * (l - t) / (l * total) * w * dc`, rounded toward zero;
/// nothing when the endpoints coincide or both are pinned.
pub open spec fn correction(dc: int, l: int, t: int, w: int, total: int) -> int {
    if l == 0 || total == 0 {
        0
    } else {
        tdiv(dc * (l - t) * w, 2 * l * total)
    }
}

/// Positions of the two endpoints after one application of a link.
pub open spec fn link_spec(a: Vec3, ma: u32, b: Vec3, mb: u32, kind: ParticleLinkType) -> (Vec3, Vec3) {
    let dx = b.x - a.x;
    let dy = b.y - a.y;
    let dz = b.z - a.z;
    let l = isqrt(len_sq(dx, dy, dz));
    let t = kind.target(l);
    let wa = weight(ma, mb);
    let wb = weight(mb, ma);
    (
        Vec3 {
            x: (a.x + correction(dx, l, t, wa, wa + wb)) as i64,
            y: (a.y + correction(dy, l, t, wa, wa + wb)) as i64,
            z: (a.z + correction(dz, l, t, wa, wa + wb)) as i64,
        },
        Vec3 {
            x: (b.x - correction(dx, l, t, wb, wa + wb)) as i64,
            y: (b.y - correction(dy, l, t, wb, wa + wb)) as i64,
            z: (b.z - correction(dz, l, t, wb, wa + wb)) as i64,
        },
    )
}

/// One pass of the relaxation loop: clamp both endpoints, then apply the link.
pub open spec fn relax_step(a: Vec3, ma: u32, b: Vec3, mb: u32, kind: ParticleLinkType, bounds: Bounds) -> (Vec3, Vec3) {
    link_spec(bounds.clamp_spec(a), ma, bounds.clamp_spec(b), mb, kind)
}

/// Final endpoints and number of passes run, for a budget of `fuel` passes
/// that stops after the first pass that changes neither endpoint.
pub open spec fn relax_spec(
    a: Vec3,
    ma: u32,
    b: Vec3,
    mb: u32,
    kind: ParticleLinkType,
    bounds: Bounds,
    fuel: nat,
) -> (Vec3, Vec3, nat)
    decreases fuel,
{
    if fuel == 0 {
        (a, b, 0)
    } else {
        let (a2, b2) = relax_step(a, ma, b, mb, kind, bounds);
        if a2 == a && b2 == b {
            (a, b, 1)
        } else {
            let r = relax_spec(a2, ma, b2, mb, kind, bounds, (fuel - 1) as nat);
            (r.0, r.1, r.2 + 1)
        }
    }
}

/// The particle sequence after relaxing one link with the full budget.
pub open spec fn apply_link(ps: Seq<Particle>, link: ParticleLink, bounds: Bounds) -> Seq<Particle> {
    let pa = ps[link.a as int];
    let pb = ps[link.b as int];
    let r = relax_spec(pa.position, pa.mass, pb.position, pb.mass, link.link_type, bounds, NUM_ITERATIONS as nat);
    ps.update(link.a as int, Particle { position: r.0, ..pa }).update(link.b as int, Particle { position: r.1, ..pb })
}

proof fn lemma_root_unique(n: int, r1: int, r2: int)
    requires
        is_root(n, r1),
        is_root(n, r2),
    ensures
        r1 == r2,
{
    assert(r1 < r2 + 1) by (nonlinear_arith)
        requires
            0 <= r1,
            0 <= r2,
            r1 * r1 <= n,
            n < (r2 + 1) * (r2 + 1),
    ;
    assert(r2 < r1 + 1) by (nonlinear_arith)
        requires
            0 <= r1,
            0 <= r2,
            r2 * r2 <= n,
            n < (r1 + 1) * (r1 + 1),
    ;
}

/// Integer square root by bisection, for `n < 2^64`.
fn isqrt_u128(n: u128) -> (r: u128)
    requires
        n < 0x10000000000000000,
    ensures
        r == isqrt(n as int),
        r < 0x100000000,
{
    let mut lo: u128 = 0;
    let mut hi: u128 = 0x100000000;
    while hi - lo > 1
        invariant
            lo < hi <= 0x100000000,
            lo * lo <= n,
            n < hi * hi,
        decreases hi - lo,
    {
        let mid: u128 = lo + (hi - lo) / 2;
        assert(mid * mid <= 0x10000000000000000) by (nonlinear_arith)
            requires
                mid <= 0x100000000,
        ;
        if mid * mid <= n {
            lo = mid;
        } else {
            hi = mid;
        }
    }
    proof {
        assert(hi == lo + 1);
        assert(is_root(n as int, lo as int));
        lemma_root_unique(n as int, lo as int, isqrt(n as int));
    }
    lo
}

fn inv_mass_i128(m: u32) -> (r: (i128, i128))
    ensures
        r.0 == inv_mass_num(m),
        r.1 == inv_mass_den(m),
        0 <= r.0 <= MASS_ONE,
        1 <= r.1 <= 0xffffffff,
{
    if m < MASS_EPSILON {
        (0, 1)
    } else {
        (MASS_ONE as i128, m as i128)
    }
}

fn tdiv_i128(n: i128, d: i128) -> (r: i128)
    requires
        d > 0,
        n > i128::MIN,
    ensures
        r == tdiv(n as int, d as int),
{
    if n >= 0 {
        n / d
    } else {
        -((-n) / d)
    }
}

proof fn lemma_quotient_bound(m: int, d: int, k: int)
    requires
        0 <= m <= k * d,
        d > 0,
        k >= 0,
    ensures
        0 <= m / d <= k,
{
    assert(m / d <= k) by (nonlinear_arith)
        requires
            0 <= m <= k * d,
            d > 0,
    ;
    assert(0 <= m / d) by (nonlinear_arith)
        requires
            0 <= m,
            d > 0,
    ;
}

proof fn lemma_correction_bound(dc: int, l: int, t: int, w: int, total: int)
    requires
        -0x80000000 <= dc <= 0x80000000,
        0 <= l < 0x100000000,
        0 <= t <= 0x100000000,
        0 <= w <= total,
        0 <= total <= 0x1000000000000000,
    ensures
        -0x4000000000000000 <= correction(dc, l, t, w, total) <= 0x4000000000000000,
{
    if l != 0 && total != 0 {
        let p = dc * (l - t);
        assert(-0x8000000000000000 <= p <= 0x8000000000000000) by (nonlinear_arith)
            requires
                -0x80000000 <= dc <= 0x80000000,
                -0x100000000 <= l - t <= 0x100000000,
                p == dc * (l - t),
        ;
        let num = p * w;
        let den = 2 * l * total;
        let m: int = if num >= 0 { num } else { -num };
        assert(m <= 0x4000000000000000 * den) by (nonlinear_arith)
            requires
                -0x8000000000000000 <= p <= 0x8000000000000000,
                0 <= w <= total,
                num == p * w,
                m == if num >= 0 { num } else { -num },
                den == 2 * l * total,
                l >= 1,
                total >= 1,
        ;
        assert(den > 0) by (nonlinear_arith)
            requires
                den == 2 * l * total,
                l >= 1,
                total >= 1,
        ;
        lemma_quotient_bound(m, den, 0x4000000000000000);
    }
}

fn correction_i128(dc: i128, l: i128, t: i128, w: i128, total: i128) -> (r: i128)
    requires
        -0x80000000 <= dc <= 0x80000000,
        0 <= l < 0x100000000,
        0 <= t <= 0x100000000,
        0 <= w <= total,
        0 <= total <= 0x1000000000000000,
    ensures
        r == correction(dc as int, l as int, t as int, w as int, total as int),
        -0x4000000000000000 <= r <= 0x4000000000000000,
{
    if l == 0 || total == 0 {
        return 0;
    }
    let diff: i128 = l - t;
    proof {
        assert(-0x8000000000000000 <= (dc as int) * (diff as int) <= 0x8000000000000000)
            by (nonlinear_arith)
            requires
                -0x80000000 <= dc <= 0x80000000,
                -0x100000000 <= diff <= 0x100000000,
        ;
    }
    let p: i128 = dc * diff;
    proof {
        assert(-0x8000000000000000 * (total as int) <= (p as int) * (w as int)
            <= 0x8000000000000000 * (total as int)) by (nonlinear_arith)
            requires
                -0x8000000000000000 <= p <= 0x8000000000000000,
                0 <= w <= total,
        ;
        assert(0x8000000000000000 * (total as int) <= 0x1000000000000000000000000000000000)
            by (nonlinear_arith)
            requires
                total <= 0x1000000000000000,
        ;
    }
    let num: i128 = p * w;
    proof {
        assert(2 <= 2 * (l as int) * (total as int) <= 0x1000000000000000000000000) by (nonlinear_arith)
            requires
                1 <= l < 0x100000000,
                1 <= total <= 0x1000000000000000,
        ;
    }
    let den: i128 = 2 * l * total;
    proof {
        let m: int = if num >= 0 { num as int } else { -(num as int) };
        assert(m <= 0x4000000000000000 * (den as int)) by (nonlinear_arith)
            requires
                m <= 0x8000000000000000 * (total as int),
                den == 2 * (l as int) * (total as int),
                l >= 1,
                total >= 1,
        ;
        lemma_quotient_bound(m, den as int, 0x4000000000000000);
    }
    tdiv_i128(num, den)
}

/// One application of a link to two endpoints: moves them along the line
/// between them toward the link's target distance, each in proportion to
/// its inverse mass.
pub fn link_step(a: Vec3, ma: u32, b: Vec3, mb: u32, kind: ParticleLinkType) -> (r: (Vec3, Vec3))
    requires
        a.within(COORD_LIMIT as int),
        b.within(COORD_LIMIT as int),
        kind.wf(),
    ensures
        r == link_spec(a, ma, b, mb, kind),
        ma < MASS_EPSILON ==> r.0 == a,
        mb < MASS_EPSILON ==> r.1 == b,
{
    proof {
        pinned_endpoint_stays(a, ma, b, mb, kind);
    }
    let dx: i128 = (b.x as i128) - (a.x as i128);
    let dy: i128 = (b.y as i128) - (a.y as i128);
    let dz: i128 = (b.z as i128) - (a.z as i128);
    proof {
        assert(0 <= dx * dx <= 0x4000000000000000) by (nonlinear_arith)
            requires
                -0x80000000 <= dx <= 0x80000000,
        ;
        assert(0 <= dy * dy <= 0x4000000000000000) by (nonlinear_arith)
            requires
                -0x80000000 <= dy <= 0x80000000,
        ;
        assert(0 <= dz * dz <= 0x4000000000000000) by (nonlinear_arith)
            requires
                -0x80000000 <= dz <= 0x80000000,
        ;
    }
    let sq: i128 = dx * dx + dy * dy + dz * dz;
    let l: i128 = isqrt_u128(sq as u128) as i128;
    let t: i128 = match kind {
        ParticleLinkType::Exact(d) => d as i128,
        ParticleLinkType::Min(d) => if l >= d as i128 { l } else { d as i128 },
        ParticleLinkType::Max(d) => if l <= d as i128 { l } else { d as i128 },
    };
    let (na, da) = inv_mass_i128(ma);
    let (nb, db) = inv_mass_i128(mb);
    proof {
        assert(0 <= (na as int) * (db as int) <= 0x800000000000000) by (nonlinear_arith)
            requires
                0 <= na <= MASS_ONE,
                1 <= db <= 0xffffffff,
        ;
        assert(0 <= (nb as int) * (da as int) <= 0x800000000000000) by (nonlinear_arith)
            requires
                0 <= nb <= MASS_ONE,
                1 <= da <= 0xffffffff,
        ;
    }
    let wa: i128 = na * db;
    let wb: i128 = nb * da;
    let total: i128 = wa + wb;
    let cax = correction_i128(dx, l, t, wa, total);
    let cay = correction_i128(dy, l, t, wa, total);
    let caz = correction_i128(dz, l, t, wa, total);
    let cbx = correction_i128(dx, l, t, wb, total);
    let cby = correction_i128(dy, l, t, wb, total);
    let cbz = correction_i128(dz, l, t, wb, total);
    (
        Vec3 {
            x: ((a.x as i128) + cax) as i64,
            y: ((a.y as i128) + cay) as i64,
            z: ((a.z as i128) + caz) as i64,
        },
        Vec3 {
            x: ((b.x as i128) - cbx) as i64,
            y: ((b.y as i128) - cby) as i64,
            z: ((b.z as i128) - cbz) as i64,
        },
    )
}

/// Relaxes one link: up to `budget` passes of clamp-then-link, stopping
/// after the first pass that leaves both endpoints exactly where they were.
/// Returns the endpoints and the number of passes run.
pub fn relax_pair(
    a: Vec3,
    ma: u32,
    b: Vec3,
    mb: u32,
    kind: ParticleLinkType,
    bounds: &Bounds,
    budget: usize,
) -> (r: (Vec3, Vec3, usize))
    requires
        bounds.wf(),
        kind.wf(),
    ensures
        (r.0, r.1, r.2 as nat) == relax_spec(a, ma, b, mb, kind, *bounds, budget as nat),
{
    let mut ca = a;
    let mut cb = b;
    let mut i: usize = 0;
    while i < budget
        invariant
            bounds.wf(),
            kind.wf(),
            i <= budget,
            ({
                let rest = relax_spec(ca, ma, cb, mb, kind, *bounds, (budget - i) as nat);
                (rest.0, rest.1, (rest.2 + i) as nat) == relax_spec(a, ma, b, mb, kind, *bounds, budget as nat)
            }),
        decreases budget - i,
    {
        let before_a = ca;
        let before_b = cb;
        let sa = bounds.clamp(ca);
        let sb = bounds.clamp(cb);
        let (na, nb) = link_step(sa, ma, sb, mb, kind);
        i = i + 1;
        if na == before_a && nb == before_b {
            return (ca, cb, i);
        }
        ca = na;
        cb = nb;
    }
    (ca, cb, i)
}

impl ParticleLink {
    /// Applies the link once to two particles, moving only their positions.
    pub fn link_constraint(p1: &mut Particle, p2: &mut Particle, link_type: ParticleLinkType)
        requires
            old(p1).position.within(COORD_LIMIT as int),
            old(p2).position.within(COORD_LIMIT as int),
            link_type.wf(),
        ensures
            ({
                let r = link_spec(old(p1).position, old(p1).mass, old(p2).position, old(p2).mass, link_type);
                *final(p1) == (Particle { position: r.0, ..*old(p1) })
                && *final(p2) == (Particle { position: r.1, ..*old(p2) })
            }),
            old(p1).mass < MASS_EPSILON ==> *final(p1) == *old(p1),
            old(p2).mass < MASS_EPSILON ==> *final(p2) == *old(p2),
    {
        let (ra, rb) = link_step(p1.position, p1.mass, p2.position, p2.mass, link_type);
        p1.position = ra;
        p2.position = rb;
    }

    /// Relaxes this link against the particles it names, with the box
    /// constraint applied to both endpoints on every pass.
    pub fn satisfy_constraints(&self, particles: &mut Vec<Particle>, bounds: &Bounds)
        requires
            self.a < old(particles).len(),
            self.b < old(particles).len(),
            self.a != self.b,
            self.link_type.wf(),
            bounds.wf(),
        ensures
            final(particles)@ == apply_link(old(particles)@, *self, *bounds),
    {
        let pa = particles[self.a];
        let pb = particles[self.b];
        let (ra, rb, _) = relax_pair(
            pa.position,
            pa.mass,
            pb.position,
            pb.mass,
            self.link_type,
            bounds,
            NUM_ITERATIONS,
        );
        particles.set(self.a, Particle { position: ra, ..pa });
        particles.set(self.b, Particle { position: rb, ..pb });
    }
}

/// Early exit: when a pass leaves both endpoints exactly as they were,
/// relaxation stops after that one pass and returns them unchanged.
pub proof fn unchanged_pass_stops_relaxation(
    a: Vec3,
    ma: u32,
    b: Vec3,
    mb: u32,
    kind: ParticleLinkType,
    bounds: Bounds,
    budget: nat,
)
    requires
        budget >= 1,
        relax_step(a, ma, b, mb, kind, bounds) == (a, b),
    ensures
        relax_spec(a, ma, b, mb, kind, bounds, budget) == (a, b, 1nat),
{
}

/// Relaxation never runs more passes than its budget, and runs at least one
/// when the budget allows any.
pub proof fn relaxation_within_budget(
    a: Vec3,
    ma: u32,
    b: Vec3,
    mb: u32,
    kind: ParticleLinkType,
    bounds: Bounds,
    budget: nat,
)
    ensures
        relax_spec(a, ma, b, mb, kind, bounds, budget).2 <= budget,
        budget >= 1 ==> relax_spec(a, ma, b, mb, kind, bounds, budget).2 >= 1,
    decreases budget,
{
    if budget > 0 {
        let (a2, b2) = relax_step(a, ma, b, mb, kind, bounds);
        relaxation_within_budget(a2, ma, b2, mb, kind, bounds, (budget - 1) as nat);
    }
}

pub open spec fn abs(v: int) -> int {
    if v < 0 {
        -v
    } else {
        v
    }
}

/// `a` is at least as heavy as `b`, a pinned particle counting as
/// heavier than any other.
pub open spec fn at_least_as_heavy(ma: u32, mb: u32) -> bool {
    ma < MASS_EPSILON || (mb >= MASS_EPSILON && ma >= mb)
}

proof fn lemma_heavier_weighs_less(ma: u32, mb: u32)
    requires
        at_least_as_heavy(ma, mb),
    ensures
        0 <= weight(ma, mb) <= weight(mb, ma),
{
    lemma_weight_nonneg(ma, mb);
    lemma_weight_nonneg(mb, ma);
    if ma >= MASS_EPSILON {
        assert(MASS_ONE * (mb as int) <= MASS_ONE * (ma as int)) by (nonlinear_arith)
            requires
                mb <= ma,
        ;
    }
}

proof fn lemma_smaller_weight_smaller_correction(dc: int, l: int, t: int, wa: int, wb: int, total: int)
    requires
        0 <= wa <= wb,
        total >= 0,
        l >= 0,
    ensures
        abs(correction(dc, l, t, wa, total)) <= abs(correction(dc, l, t, wb, total)),
{
    if l != 0 && total != 0 {
        let p = dc * (l - t);
        let den = 2 * l * total;
        assert(den > 0) by (nonlinear_arith)
            requires
                den == 2 * l * total,
                l >= 1,
                total >= 1,
        ;
        let pa = abs(p) * wa;
        let pb = abs(p) * wb;
        assert(0 <= pa <= pb) by (nonlinear_arith)
            requires
                0 <= wa <= wb,
                pa == abs(p) * wa,
                pb == abs(p) * wb,
        ;
        assert(abs(p * wa) == pa && abs(p * wb) == pb) by (nonlinear_arith)
            requires
                0 <= wa <= wb,
                pa == abs(p) * wa,
                pb == abs(p) * wb,
        ;
        vstd::arithmetic::div_mod::lemma_div_is_ordered(pa, pb, den);
        vstd::arithmetic::div_mod::lemma_div_pos_is_pos(pa, den);
        assert(abs(tdiv(p * wa, den)) == pa / den);
        assert(abs(tdiv(p * wb, den)) == pb / den);
    }
}

/// Mass weighting: of the two endpoints of a link, the heavier one is moved
/// no farther, on every axis, than the lighter one (a pinned particle
/// counting as the heaviest).
pub proof fn heavier_endpoint_moves_less(a: Vec3, ma: u32, b: Vec3, mb: u32, kind: ParticleLinkType)
    requires
        a.within(COORD_LIMIT as int),
        b.within(COORD_LIMIT as int),
        kind.wf(),
        at_least_as_heavy(ma, mb),
    ensures
        ({
            let r = link_spec(a, ma, b, mb, kind);
            abs(r.0.x - a.x) <= abs(r.1.x - b.x) && abs(r.0.y - a.y) <= abs(r.1.y - b.y)
                && abs(r.0.z - a.z) <= abs(r.1.z - b.z)
        }),
{
    let dx = b.x - a.x;
    let dy = b.y - a.y;
    let dz = b.z - a.z;
    let n = len_sq(dx, dy, dz);
    lemma_len_sq_bound(dx, dy, dz);
    lemma_isqrt_exists(n);
    let l = isqrt(n);
    assert(l < 0x100000000) by (nonlinear_arith)
        requires
            is_root(n, l),
            n < 0x10000000000000000,
    ;
    let t = kind.target(l);
    let wa = weight(ma, mb);
    let wb = weight(mb, ma);
    lemma_heavier_weighs_less(ma, mb);
    lemma_weight_nonneg(mb, ma);
    lemma_weight_bound(ma, mb);
    lemma_weight_bound(mb, ma);
    lemma_correction_bound(dx, l, t, wa, wa + wb);
    lemma_correction_bound(dy, l, t, wa, wa + wb);
    lemma_correction_bound(dz, l, t, wa, wa + wb);
    lemma_correction_bound(dx, l, t, wb, wa + wb);
    lemma_correction_bound(dy, l, t, wb, wa + wb);
    lemma_correction_bound(dz, l, t, wb, wa + wb);
    lemma_smaller_weight_smaller_correction(dx, l, t, wa, wb, wa + wb);
    lemma_smaller_weight_smaller_correction(dy, l, t, wa, wb, wa + wb);
    lemma_smaller_weight_smaller_correction(dz, l, t, wa, wb, wa + wb);
}

proof fn lemma_weight_bound(m: u32, other: u32)
    ensures
        weight(m, other) <= 0x800000000000000,
{
    assert(inv_mass_num(m) * inv_mass_den(other) <= 0x800000000000000) by (nonlinear_arith)
        requires
            0 <= inv_mass_num(m) <= MASS_ONE,
            1 <= inv_mass_den(other) <= 0xffffffff,
    ;
}

proof fn lemma_scaled_div(g: int, k: int, c: int)
    requires
        k > 0,
        c > 0,
    ensures
        tdiv(g * k, c * k) == tdiv(g, c),
{
    let h = if g >= 0 { g } else { -g };
    let q = h / c;
    let r = h % c;
    vstd::arithmetic::div_mod::lemma_fundamental_div_mod(h, c);
    vstd::arithmetic::div_mod::lemma_mod_bound(h, c);
    assert(h * k == q * (c * k) + r * k && 0 <= r * k < c * k) by (nonlinear_arith)
        requires
            h == c * q + r,
            0 <= r < c,
            k > 0,
    ;
    vstd::arithmetic::div_mod::lemma_fundamental_div_mod_converse(h * k, c * k, q, r * k);
    if g < 0 {
        assert(-(g * k) == h * k) by (nonlinear_arith)
            requires
                h == -g,
        ;
    } else {
        assert(g * k == h * k);
    }
}

/// Contraction of `Exact` links: for two unpinned particles of equal mass on a line
/// parallel to the x axis, one application of an `Exact(d)` link keeps them
/// on that line and at least halves the error in their separation, up to
/// rounding: `2 |s' - d| <= |s - d| + 3`.
pub proof fn exact_link_halves_error(a: Vec3, b: Vec3, m: u32, d: u64)
    requires
        m >= MASS_EPSILON,
        a.within(COORD_LIMIT as int),
        b.within(COORD_LIMIT as int),
        d <= LINK_LIMIT,
        a.y == b.y,
        a.z == b.z,
        a.x < b.x,
    ensures
        ({
            let r = link_spec(a, m, b, m, ParticleLinkType::Exact(d));
            &&& r.0.y == a.y && r.0.z == a.z && r.1.y == b.y && r.1.z == b.z
            &&& 2 * abs((r.1.x - r.0.x) - d) <= abs((b.x - a.x) - d) + 3
        }),
{
    let dx: int = b.x - a.x;
    let n = len_sq(dx, 0, 0);
    lemma_len_sq_bound(dx, 0, 0);
    lemma_isqrt_exists(n);
    assert(is_root(n, dx)) by (nonlinear_arith)
        requires
            n == dx * dx + 0 * 0 + 0 * 0,
            dx > 0,
    ;
    lemma_root_unique(n, dx, isqrt(n));
    let l = isqrt(n);
    let w = weight(m, m);
    lemma_weight_nonneg(m, m);
    let g = dx - d;
    assert(0 * (l - d) * w == 0) by (nonlinear_arith);
    assert(2 * l * (w + w) > 0) by (nonlinear_arith)
        requires
            l > 0,
            w > 0,
    ;
    let k = dx * w;
    assert(k > 0) by (nonlinear_arith)
        requires
            dx > 0,
            w > 0,
            k == dx * w,
    ;
    assert(dx * (l - d) * w == g * k && 2 * l * (w + w) == 4 * k) by (nonlinear_arith)
        requires
            l == dx,
            g == dx - d,
            k == dx * w,
    ;
    lemma_scaled_div(g, k, 4);
    let c = tdiv(g, 4);
    assert(correction(dx, l, d as int, w, w + w) == c);
    let h = if g >= 0 { g } else { -g };
    vstd::arithmetic::div_mod::lemma_fundamental_div_mod(h, 4);
    assert(-0x200000000 <= g <= 0x200000000);
}

proof fn lemma_zero_weight_no_correction(dc: int, l: int, t: int, total: int)
    requires
        l >= 0,
        total >= 0,
    ensures
        correction(dc, l, t, 0, total) == 0,
{
    if l != 0 && total != 0 {
        assert(dc * (l - t) * 0 == 0) by (nonlinear_arith);
        assert(2 * l * total > 0) by (nonlinear_arith)
            requires
                l > 0,
                total > 0,
        ;
    }
}

/// A pinned endpoint (mass below `MASS_EPSILON`) is never moved by a link.
pub proof fn pinned_endpoint_stays(a: Vec3, ma: u32, b: Vec3, mb: u32, kind: ParticleLinkType)
    requires
        a.within(COORD_LIMIT as int),
        b.within(COORD_LIMIT as int),
    ensures
        ma < MASS_EPSILON ==> link_spec(a, ma, b, mb, kind).0 == a,
        mb < MASS_EPSILON ==> link_spec(a, ma, b, mb, kind).1 == b,
{
    let dx = b.x - a.x;
    let dy = b.y - a.y;
    let dz = b.z - a.z;
    let n = len_sq(dx, dy, dz);
    lemma_len_sq_bound(dx, dy, dz);
    lemma_isqrt_exists(n);
    let l = isqrt(n);
    let t = kind.target(l);
    lemma_weight_nonneg(ma, mb);
    lemma_weight_nonneg(mb, ma);
    let total = weight(ma, mb) + weight(mb, ma);
    lemma_zero_weight_no_correction(dx, l, t, total);
    lemma_zero_weight_no_correction(dy, l, t, total);
    lemma_zero_weight_no_correction(dz, l, t, total);
}

/// A pinned endpoint inside the box stays exactly where it is through a
/// whole relaxation, whatever the budget.
pub proof fn pinned_endpoint_stays_through_relaxation(
    a: Vec3,
    ma: u32,
    b: Vec3,
    mb: u32,
    kind: ParticleLinkType,
    bounds: Bounds,
    budget: nat,
)
    requires
        bounds.wf(),
        bounds.contains(a),
        ma < MASS_EPSILON,
    ensures
        relax_spec(a, ma, b, mb, kind, bounds, budget).0 == a,
    decreases budget,
{
    if budget > 0 {
        crate::vec3::clamp_keeps_inside(bounds, a);
        crate::vec3::clamp_idempotent(bounds, b);
        pinned_endpoint_stays(a, ma, bounds.clamp_spec(b), mb, kind);
        let (a2, b2) = relax_step(a, ma, b, mb, kind, bounds);
        pinned_endpoint_stays_through_relaxation(a2, ma, b2, mb, kind, bounds, (budget - 1) as nat);
    }
}

/// A link from a pinned particle: for a pinned `a` and an unpinned `b` on a
/// line parallel to the x axis, an `Exact(d)` link leaves `a` in place and
/// moves `b` alone along that line, at least halving the error in their
/// separation up to rounding: `2 |s' - d| <= |s - d| + 1`.
pub proof fn pinned_link_halves_error(a: Vec3, ma: u32, b: Vec3, mb: u32, d: u64)
    requires
        a.within(COORD_LIMIT as int),
        b.within(COORD_LIMIT as int),
        d <= LINK_LIMIT,
        ma < MASS_EPSILON,
        mb >= MASS_EPSILON,
        a.y == b.y,
        a.z == b.z,
        a.x < b.x,
    ensures
        ({
            let r = link_spec(a, ma, b, mb, ParticleLinkType::Exact(d));
            &&& r.0 == a
            &&& r.1.y == b.y && r.1.z == b.z
            &&& 2 * abs((r.1.x - a.x) - d) <= abs((b.x - a.x) - d) + 1
        }),
{
    pinned_endpoint_stays(a, ma, b, mb, ParticleLinkType::Exact(d));
    let dx: int = b.x - a.x;
    let n = len_sq(dx, 0, 0);
    lemma_len_sq_bound(dx, 0, 0);
    lemma_isqrt_exists(n);
    assert(is_root(n, dx)) by (nonlinear_arith)
        requires
            n == dx * dx + 0 * 0 + 0 * 0,
            dx > 0,
    ;
    lemma_root_unique(n, dx, isqrt(n));
    let l = isqrt(n);
    lemma_weight_nonneg(ma, mb);
    lemma_weight_nonneg(mb, ma);
    let w = weight(mb, ma);
    let total = weight(ma, mb) + w;
    assert(total == w);
    let g = dx - d;
    assert(0 * (l - d) * w == 0) by (nonlinear_arith);
    assert(2 * l * total > 0) by (nonlinear_arith)
        requires
            l > 0,
            total > 0,
    ;
    let k = dx * w;
    assert(k > 0) by (nonlinear_arith)
        requires
            dx > 0,
            w > 0,
            k == dx * w,
    ;
    assert(dx * (l - d) * w == g * k && 2 * l * total == 2 * k) by (nonlinear_arith)
        requires
            l == dx,
            g == dx - d,
            k == dx * w,
            total == w,
    ;
    lemma_scaled_div(g, k, 2);
    let c = tdiv(g, 2);
    assert(correction(dx, l, d as int, w, total) == c);
    let h = if g >= 0 { g } else { -g };
    vstd::arithmetic::div_mod::lemma_fundamental_div_mod(h, 2);
    assert(-0x200000000 <= g <= 0x200000000);
}

/// Equal masses share each correction equally, so the midpoint of the two
/// endpoints is exactly where it was.
pub proof fn equal_masses_keep_midpoint(a: Vec3, b: Vec3, m: u32, kind: ParticleLinkType)
    requires
        a.within(COORD_LIMIT as int),
        b.within(COORD_LIMIT as int),
        kind.wf(),
    ensures
        ({
            let r = link_spec(a, m, b, m, kind);
            r.0.x + r.1.x == a.x + b.x && r.0.y + r.1.y == a.y + b.y && r.0.z + r.1.z == a.z + b.z
        }),
{
    let dx = b.x - a.x;
    let dy = b.y - a.y;
    let dz = b.z - a.z;
    let n = len_sq(dx, dy, dz);
    lemma_len_sq_bound(dx, dy, dz);
    lemma_isqrt_exists(n);
    let l = isqrt(n);
    assert(l < 0x100000000) by (nonlinear_arith)
        requires
            is_root(n, l),
            n < 0x10000000000000000,
    ;
    let t = kind.target(l);
    let w = weight(m, m);
    lemma_weight_nonneg(m, m);
    lemma_weight_bound(m, m);
    lemma_correction_bound(dx, l, t, w, w + w);
    lemma_correction_bound(dy, l, t, w, w + w);
    lemma_correction_bound(dz, l, t, w, w + w);
}

/// One-sidedness of `Min` and `Max`: a `Min(d)` link whose endpoints are at
/// least `d` apart, or a `Max(d)` link whose endpoints are at most `d` apart,
/// moves neither endpoint.
pub proof fn satisfied_bound_moves_nothing(a: Vec3, ma: u32, b: Vec3, mb: u32, kind: ParticleLinkType)
    requires
        a.within(COORD_LIMIT as int),
        b.within(COORD_LIMIT as int),
        kind.wf(),
        match kind {
            ParticleLinkType::Exact(_) => false,
            ParticleLinkType::Min(d) => len_sq(b.x - a.x, b.y - a.y, b.z - a.z) >= d * d,
            ParticleLinkType::Max(d) => len_sq(b.x - a.x, b.y - a.y, b.z - a.z) < (d + 1) * (d + 1),
        },
    ensures
        link_spec(a, ma, b, mb, kind) == (a, b),
{
    let n = len_sq(b.x - a.x, b.y - a.y, b.z - a.z);
    lemma_len_sq_bound(b.x - a.x, b.y - a.y, b.z - a.z);
    lemma_isqrt_exists(n);
    let l = isqrt(n);
    match kind {
        ParticleLinkType::Min(d) => {
            assert(l >= d) by (nonlinear_arith)
                requires
                    is_root(n, l),
                    n >= d * d,
                    d >= 0,
            ;
        },
        ParticleLinkType::Max(d) => {
            assert(l <= d) by (nonlinear_arith)
                requires
                    is_root(n, l),
                    n < (d + 1) * (d + 1),
                    d >= 0,
            ;
        },
        ParticleLinkType::Exact(_) => {},
    }
    assert(kind.target(l) == l);
    let wa = weight(ma, mb);
    let wb = weight(mb, ma);
    lemma_weight_nonneg(ma, mb);
    lemma_weight_nonneg(mb, ma);
    lemma_no_gap_no_correction(b.x - a.x, l, wa, wa + wb);
    lemma_no_gap_no_correction(b.y - a.y, l, wa, wa + wb);
    lemma_no_gap_no_correction(b.z - a.z, l, wa, wa + wb);
    lemma_no_gap_no_correction(b.x - a.x, l, wb, wa + wb);
    lemma_no_gap_no_correction(b.y - a.y, l, wb, wa + wb);
    lemma_no_gap_no_correction(b.z - a.z, l, wb, wa + wb);
}

proof fn lemma_weight_nonneg(m: u32, other: u32)
    ensures
        weight(m, other) >= 0,
        m >= MASS_EPSILON ==> weight(m, other) >= 1,
        m < MASS_EPSILON ==> weight(m, other) == 0,
{
    assert(inv_mass_num(m) * inv_mass_den(other) >= 0) by (nonlinear_arith)
        requires
            inv_mass_num(m) >= 0,
            inv_mass_den(other) >= 1,
    ;
    if m >= MASS_EPSILON {
        assert(inv_mass_num(m) * inv_mass_den(other) >= 1) by (nonlinear_arith)
            requires
                inv_mass_num(m) >= 1,
                inv_mass_den(other) >= 1,
        ;
    }
}

proof fn lemma_no_gap_no_correction(dc: int, l: int, w: int, total: int)
    requires
        l >= 0,
        total >= 0,
    ensures
        correction(dc, l, l, w, total) == 0,
{
    if l != 0 && total != 0 {
        assert(dc * (l - l) * w == 0) by (nonlinear_arith);
        assert(2 * l * total > 0) by (nonlinear_arith)
            requires
                l > 0,
                total > 0,
        ;
    }
}

proof fn lemma_len_sq_bound(dx: int, dy: int, dz: int)
    requires
        -0x80000000 <= dx <= 0x80000000,
        -0x80000000 <= dy <= 0x80000000,
        -0x80000000 <= dz <= 0x80000000,
    ensures
        0 <= len_sq(dx, dy, dz) < 0x10000000000000000,
{
    assert(0 <= dx * dx <= 0x4000000000000000) by (nonlinear_arith)
        requires
            -0x80000000 <= dx <= 0x80000000,
    ;
    assert(0 <= dy * dy <= 0x4000000000000000) by (nonlinear_arith)
        requires
            -0x80000000 <= dy <= 0x80000000,
    ;
    assert(0 <= dz * dz <= 0x4000000000000000) by (nonlinear_arith)
        requires
            -0x80000000 <= dz <= 0x80000000,
    ;
}

proof fn lemma_root_between(n: int, lo: int, hi: int)
    requires
        0 <= lo < hi,
        lo * lo <= n,
        n < hi * hi,
    ensures
        is_root(n, isqrt(n)),
    decreases hi - lo,
{
    if hi - lo == 1 {
        assert(is_root(n, lo));
    } else {
        let mid = lo + (hi - lo) / 2;
        if mid * mid <= n {
            lemma_root_between(n, mid, hi);
        } else {
            lemma_root_between(n, lo, mid);
        }
    }
}

proof fn lemma_isqrt_exists(n: int)
    requires
        0 <= n < 0x10000000000000000,
    ensures
        is_root(n, isqrt(n)),
{
    lemma_root_between(n, 0, 0x100000000);
}

} // verus!

use vstd::prelude::*;
use crate::link::{apply_link, ParticleLink, ParticleLinkType, LINK_LIMIT};
use crate::particle::{Particle, ACCEL_LIMIT, DT_LIMIT, MASS_ONE};
use crate::vec3::{Bounds, Vec3, COORD_LIMIT};

verus! {

/// The constant external acceleration applied to every particle.
#[derive(Clone, Copy, Debug, PartialEq, Eq, Structural)]
pub struct ParticleGravity(pub Vec3);

impl ParticleGravity {
    pub open spec fn wf(self) -> bool {
        self.0.within(ACCEL_LIMIT as int)
    }

    /// Gravity of the demo scene: `-147.15` world units per second squared
    /// on the y axis, in thousandths of a world unit.
    pub fn default() -> (r: ParticleGravity)
        ensures
            r == ParticleGravity(Vec3 { x: 0, y: -147150i64, z: 0 }),
    {
        ParticleGravity(Vec3::new(0, -147150, 0))
    }
}

/// The demo scene's containment box, in thousandths of a world unit.
pub fn default_bounds() -> (r: Bounds)
    ensures
        r == (Bounds {
            bottom: Vec3 { x: -300000i64, y: -300000i64, z: 0 },
            top: Vec3 { x: 0, y: 0, z: 0 },
        }),
        r.wf(),
{
    Bounds { bottom: Vec3::new(-300000, -300000, 0), top: Vec3::zero() }
}

/// Every particle after the integration step: acceleration set to gravity,
/// then one Verlet step.
pub open spec fn integrate_all(ps: Seq<Particle>, g: Vec3, dt: int) -> Seq<Particle> {
    Seq::new(ps.len(), |i: int| (Particle { acceleration: g, ..ps[i] }).verlet_spec(dt))
}

/// The particles after relaxing each link in turn, in sequence order.
pub open spec fn apply_links(ps: Seq<Particle>, links: Seq<ParticleLink>, bounds: Bounds) -> Seq<Particle>
    decreases links.len(),
{
    if links.len() == 0 {
        ps
    } else {
        apply_link(apply_links(ps, links.drop_last(), bounds), links.last(), bounds)
    }
}

/// Every particle with its position clamped into the box.
pub open spec fn clamp_all(ps: Seq<Particle>, bounds: Bounds) -> Seq<Particle> {
    Seq::new(ps.len(), |i: int| (Particle { position: bounds.clamp_spec(ps[i].position), ..ps[i] }))
}

pub open spec fn links_valid(links: Seq<ParticleLink>, n: int) -> bool {
    forall|k: int|
        0 <= k < links.len() ==> (#[trigger] links[k]).a < n && links[k].b < n && links[k].a
            != links[k].b && links[k].link_type.wf()
}

/// A scene: particles in an arena, links naming them by index, and the
/// configuration every tick reads.
pub struct ParticleWorld {
    pub particles: Vec<Particle>,
    pub links: Vec<ParticleLink>,
    pub gravity: ParticleGravity,
    pub bounds: Bounds,
}

impl ParticleWorld {
    /// Configuration in range, links naming two distinct existing particles, and every
    /// particle's position and previous position within `COORD_LIMIT`.
    pub open spec fn wf(&self) -> bool {
        &&& self.bounds.wf()
        &&& self.gravity.wf()
        &&& links_valid(self.links@, self.particles.len() as int)
        &&& forall|i: int|
            0 <= i < self.particles.len() ==> (#[trigger] self.particles@[i]).position.within(
                COORD_LIMIT as int,
            ) && self.particles@[i].previous_position.within(COORD_LIMIT as int)
    }

    /// Builds a scene; `None` exactly when the result would not be well formed.
    pub fn new(
        particles: Vec<Particle>,
        links: Vec<ParticleLink>,
        gravity: ParticleGravity,
        bounds: Bounds,
    ) -> (r: Option<ParticleWorld>)
        ensures
            r is Some <==> (ParticleWorld { particles, links, gravity, bounds }).wf(),
            r is Some ==> r->0.particles@ == particles@ && r->0.links@ == links@
                && r->0.gravity == gravity && r->0.bounds == bounds,
    {
        let ghost w = ParticleWorld { particles, links, gravity, bounds };
        if !(bounds_ok(&bounds) && gravity_ok(&gravity)) {
            return None;
        }
        let mut i: usize = 0;
        while i < particles.len()
            invariant
                0 <= i <= particles.len(),
                w.particles@ == particles@,
                w.links@ == links@,
                forall|j: int|
                    0 <= j < i ==> (#[trigger] particles@[j]).position.within(COORD_LIMIT as int)
                        && particles@[j].previous_position.within(COORD_LIMIT as int),
            decreases particles.len() - i,
        {
            if !(within_coord(&particles[i].position) && within_coord(
                &particles[i].previous_position,
            )) {
                assert(!w.wf()) by {
                    assert(w.particles@[i as int] == particles@[i as int]);
                }
                return None;
            }
            i = i + 1;
        }
        let mut k: usize = 0;
        while k < links.len()
            invariant
                0 <= k <= links.len(),
                w.particles@ == particles@,
                w.links@ == links@,
                w.bounds == bounds,
                w.gravity == gravity,
                bounds.wf(),
                gravity.wf(),
                forall|j: int|
                    0 <= j < particles.len() ==> (#[trigger] particles@[j]).position.within(
                        COORD_LIMIT as int,
                    ) && particles@[j].previous_position.within(COORD_LIMIT as int),
                forall|j: int|
                    0 <= j < k ==> (#[trigger] links@[j]).a < particles.len() && links@[j].b
                        < particles.len() && links@[j].a != links@[j].b && links@[j].link_type.wf(),
            decreases links.len() - k,
        {
            let l = links[k];
            let d = match l.link_type {
                ParticleLinkType::Exact(d) => d,
                ParticleLinkType::Min(d) => d,
                ParticleLinkType::Max(d) => d,
            };
            if !(l.a < particles.len() && l.b < particles.len() && l.a != l.b && d <= LINK_LIMIT) {
                assert(!links_valid(links@, particles.len() as int)) by {
                    assert(links@[k as int] == l);
                }
                return None;
            }
            k = k + 1;
        }
        assert(w.wf());
        Some(ParticleWorld { particles, links, gravity, bounds })
    }

    /// Integrates every particle under gravity, then relaxes every link in
    /// order. Positions may be left outside the box; see
    /// `constrain_unliked_particles`.
    pub fn update_particles(&mut self, dt: u32)
        requires
            old(self).wf(),
            dt <= DT_LIMIT,
        ensures
            final(self).particles@ == apply_links(
                integrate_all(old(self).particles@, old(self).gravity.0, dt as int),
                old(self).links@,
                old(self).bounds,
            ),
            final(self).links@ == old(self).links@,
            final(self).gravity == old(self).gravity,
            final(self).bounds == old(self).bounds,
    {
        let n = self.particles.len();
        let g = self.gravity.0;
        let ghost start = self.particles@;
        let mut i: usize = 0;
        while i < n
            invariant
                n == self.particles.len(),
                0 <= i <= n,
                self.links@ == old(self).links@,
                self.bounds == old(self).bounds,
                self.gravity == old(self).gravity,
                g == self.gravity.0,
                self.gravity.wf(),
                dt <= DT_LIMIT,
                start.len() == n,
                forall|j: int|
                    0 <= j < n ==> (#[trigger] start[j]).position.within(COORD_LIMIT as int)
                        && start[j].previous_position.within(COORD_LIMIT as int),
                forall|j: int|
                    0 <= j < i ==> #[trigger] self.particles@[j] == (Particle {
                        acceleration: g,
                        ..start[j]
                    }).verlet_spec(dt as int),
                forall|j: int| i <= j < n ==> #[trigger] self.particles@[j] == start[j],
            decreases n - i,
        {
            let mut p = self.particles[i];
            p.accumulate_forces(g);
            p.verlet(dt);
            self.particles.set(i, p);
            i = i + 1;
        }
        assert(self.particles@ =~= integrate_all(start, g, dt as int));
        let ghost integrated = self.particles@;
        let mut k: usize = 0;
        while k < self.links.len()
            invariant
                0 <= k <= self.links.len(),
                n == self.particles.len(),
                self.links@ == old(self).links@,
                self.bounds == old(self).bounds,
                self.gravity == old(self).gravity,
                links_valid(self.links@, n as int),
                self.bounds.wf(),
                self.particles@ == apply_links(integrated, self.links@.subrange(0, k as int), self.bounds),
            decreases self.links.len() - k,
        {
            let link = self.links[k];
            assert(self.links@[k as int] == link);
            link.satisfy_constraints(&mut self.particles, &self.bounds);
            assert(self.links@.subrange(0, k + 1).drop_last() =~= self.links@.subrange(0, k as int));
            k = k + 1;
        }
        assert(self.links@.subrange(0, self.links.len() as int) =~= self.links@);
    }

    /// Clamps every particle into the box, so that particles no link touched
    /// stay inside it too.
    pub fn constrain_unliked_particles(&mut self)
        requires
            old(self).bounds.wf(),
        ensures
            final(self).particles@ == clamp_all(old(self).particles@, old(self).bounds),
            final(self).links@ == old(self).links@,
            final(self).gravity == old(self).gravity,
            final(self).bounds == old(self).bounds,
    {
        let n = self.particles.len();
        let ghost start = self.particles@;
        let mut i: usize = 0;
        while i < n
            invariant
                n == self.particles.len(),
                0 <= i <= n,
                start.len() == n,
                self.links@ == old(self).links@,
                self.bounds == old(self).bounds,
                self.gravity == old(self).gravity,
                self.bounds.wf(),
                forall|j: int|
                    0 <= j < i ==> #[trigger] self.particles@[j] == (Particle {
                        position: self.bounds.clamp_spec(start[j].position),
                        ..start[j]
                    }),
                forall|j: int| i <= j < n ==> #[trigger] self.particles@[j] == start[j],
            decreases n - i,
        {
            let mut p = self.particles[i];
            p.satisfy_constraints(&self.bounds);
            self.particles.set(i, p);
            i = i + 1;
        }
        assert(self.particles@ =~= clamp_all(start, self.bounds));
    }

    /// One simulation tick of `dt` milliseconds: integrate, relax every
    /// link, clamp every particle. Afterwards every particle is in the box.
    pub fn tick(&mut self, dt: u32)
        requires
            old(self).wf(),
            dt <= DT_LIMIT,
        ensures
            final(self).particles@ == clamp_all(
                apply_links(
                    integrate_all(old(self).particles@, old(self).gravity.0, dt as int),
                    old(self).links@,
                    old(self).bounds,
                ),
                old(self).bounds,
            ),
            final(self).links@ == old(self).links@,
            final(self).gravity == old(self).gravity,
            final(self).bounds == old(self).bounds,
            final(self).wf(),
            forall|i: int|
                0 <= i < final(self).particles.len() ==> final(self).bounds.contains(
                    #[trigger] final(self).particles@[i].position,
                ),
    {
        let ghost start = self.particles@;
        self.update_particles(dt);
        proof {
            let integrated = integrate_all(start, self.gravity.0, dt as int);
            lemma_apply_links_keeps_rest(integrated, self.links@, self.bounds);
            assert forall|j: int| 0 <= j < integrated.len() implies
                (#[trigger] integrated[j]).previous_position.within(COORD_LIMIT as int) by {
                assert(integrated[j].previous_position == start[j].position);
            }
        }
        self.constrain_unliked_particles();
    }

    /// Discards every particle and link and rebuilds the demo scene; gravity
    /// and the box are kept.
    pub fn reset_particles(&mut self)
        requires
            old(self).wf(),
        ensures
            final(self).particles@ == demo_particles(),
            final(self).links@ == demo_links(),
            final(self).gravity == old(self).gravity,
            final(self).bounds == old(self).bounds,
            final(self).wf(),
    {
        let demo = spawn_demo_particles();
        self.particles = demo.particles;
        self.links = demo.links;
    }
}

/// Relaxing links moves positions only: the count of particles and every
/// other field stay as they were.
pub proof fn lemma_apply_links_keeps_rest(ps: Seq<Particle>, links: Seq<ParticleLink>, bounds: Bounds)
    requires
        links_valid(links, ps.len() as int),
    ensures
        apply_links(ps, links, bounds).len() == ps.len(),
        forall|i: int|
            0 <= i < ps.len() ==> (#[trigger] apply_links(ps, links, bounds)[i]).previous_position
                == ps[i].previous_position && apply_links(ps, links, bounds)[i].mass == ps[i].mass
                && apply_links(ps, links, bounds)[i].acceleration == ps[i].acceleration,
    decreases links.len(),
{
    if links.len() > 0 {
        let init = links.drop_last();
        assert(links_valid(init, ps.len() as int)) by {
            assert forall|k: int| 0 <= k < init.len() implies init[k].a < ps.len() && init[k].b
                < ps.len() && init[k].a != init[k].b && (#[trigger] init[k]).link_type.wf() by {
                assert(init[k] == links[k]);
            }
        }
        lemma_apply_links_keeps_rest(ps, init, bounds);
        assert(links[links.len() - 1].a < ps.len());
    }
}

fn within_coord(p: &Vec3) -> (r: bool)
    ensures
        r == p.within(COORD_LIMIT as int),
{
    -COORD_LIMIT <= p.x && p.x <= COORD_LIMIT && -COORD_LIMIT <= p.y && p.y <= COORD_LIMIT
        && -COORD_LIMIT <= p.z && p.z <= COORD_LIMIT
}

fn bounds_ok(b: &Bounds) -> (r: bool)
    ensures
        r == b.wf(),
{
    b.bottom.x <= b.top.x && b.bottom.y <= b.top.y && b.bottom.z <= b.top.z && within_coord(
        &b.bottom,
    ) && within_coord(&b.top)
}

fn gravity_ok(g: &ParticleGravity) -> (r: bool)
    ensures
        r == g.wf(),
{
    -ACCEL_LIMIT <= g.0.x && g.0.x <= ACCEL_LIMIT && -ACCEL_LIMIT <= g.0.y && g.0.y
        <= ACCEL_LIMIT && -ACCEL_LIMIT <= g.0.z && g.0.z <= ACCEL_LIMIT
}

pub open spec fn demo_particle(x: int, y: int, px: int, py: int) -> Particle {
    Particle {
        position: Vec3 { x: x as i64, y: y as i64, z: 0 },
        previous_position: Vec3 { x: px as i64, y: py as i64, z: 0 },
        acceleration: Vec3 { x: 0, y: 0, z: 0 },
        mass: MASS_ONE,
    }
}

/// The demo particles: one free particle, a triangle, and a second
/// triangle hung from it. Each starts with a small downward velocity.
pub open spec fn demo_particles() -> Seq<Particle> {
    seq![
        demo_particle(-150000, -150000, -150000, -153750),
        demo_particle(-125000, -140000, -128000, -143750),
        demo_particle(-103000, -138000, -103000, -141750),
        demo_particle(-133000, -128000, -133000, -131750),
        demo_particle(-149000, -108000, -133000, -131750),
        demo_particle(-155000, -120000, -133000, -131750),
        demo_particle(-155000, -120000, -133000, -131750),
    ]
}

/// The demo links: the closed triangle 1-2-3, a `Max` link to the second
/// triangle 4-5-6, which closes with a `Min` link.
pub open spec fn demo_links() -> Seq<ParticleLink> {
    seq![
        ParticleLink { a: 1, b: 2, link_type: ParticleLinkType::Exact(15000) },
        ParticleLink { a: 1, b: 3, link_type: ParticleLinkType::Exact(25000) },
        ParticleLink { a: 2, b: 3, link_type: ParticleLinkType::Exact(15000) },
        ParticleLink { a: 3, b: 4, link_type: ParticleLinkType::Max(30000) },
        ParticleLink { a: 4, b: 6, link_type: ParticleLinkType::Exact(9100) },
        ParticleLink { a: 4, b: 5, link_type: ParticleLinkType::Exact(11100) },
        ParticleLink { a: 5, b: 6, link_type: ParticleLinkType::Min(10000) },
    ]
}

fn new_demo_particle(x: i64, y: i64, px: i64, py: i64) -> (r: Particle)
    ensures
        r == demo_particle(x as int, y as int, px as int, py as int),
{
    Particle::new(Vec3::new(x, y, 0), Vec3::new(px, py, 0))
}

fn new_link(a: usize, b: usize, link_type: ParticleLinkType) -> (r: ParticleLink)
    ensures
        r == (ParticleLink { a, b, link_type }),
{
    ParticleLink { a, b, link_type }
}

/// The demo scene under the default gravity and box.
pub fn spawn_demo_particles() -> (r: ParticleWorld)
    ensures
        r.particles@ == demo_particles(),
        r.links@ == demo_links(),
        r.gravity == ParticleGravity(Vec3 { x: 0, y: -147150i64, z: 0 }),
        r.bounds == default_bounds_spec(),
        r.wf(),
{
    let particles = vec![
        new_demo_particle(-150000, -150000, -150000, -153750),
        new_demo_particle(-125000, -140000, -128000, -143750),
        new_demo_particle(-103000, -138000, -103000, -141750),
        new_demo_particle(-133000, -128000, -133000, -131750),
        new_demo_particle(-149000, -108000, -133000, -131750),
        new_demo_particle(-155000, -120000, -133000, -131750),
        new_demo_particle(-155000, -120000, -133000, -131750),
    ];
    let links = vec![
        new_link(1, 2, ParticleLinkType::Exact(15000)),
        new_link(1, 3, ParticleLinkType::Exact(25000)),
        new_link(2, 3, ParticleLinkType::Exact(15000)),
        new_link(3, 4, ParticleLinkType::Max(30000)),
        new_link(4, 6, ParticleLinkType::Exact(9100)),
        new_link(4, 5, ParticleLinkType::Exact(11100)),
        new_link(5, 6, ParticleLinkType::Min(10000)),
    ];
    assert(particles@ =~= demo_particles());
    assert(links@ =~= demo_links());
    ParticleWorld { particles, links, gravity: ParticleGravity::default(), bounds: default_bounds() }
}

pub open spec fn default_bounds_spec() -> Bounds {
    Bounds { bottom: Vec3 { x: -300000i64, y: -300000i64, z: 0 }, top: Vec3 { x: 0, y: 0, z: 0 } }
}

} // verus!

use procanim::link::{link_step, relax_pair, ParticleLink, ParticleLinkType, NUM_ITERATIONS};
use procanim::particle::{Particle, MASS_ONE};
use procanim::vec3::{Bounds, Vec3};
use procanim::world::{default_bounds, spawn_demo_particles, ParticleGravity, ParticleWorld};

fn v(x: i64, y: i64, z: i64) -> Vec3 {
    Vec3::new(x, y, z)
}

fn huge_box() -> Bounds {
    Bounds::new(v(-1_000_000_000, -1_000_000_000, -1_000_000_000), v(1_000_000_000, 1_000_000_000, 1_000_000_000))
        .unwrap()
}

fn dist(a: Vec3, b: Vec3) -> f64 {
    let dx = (b.x - a.x) as f64;
    let dy = (b.y - a.y) as f64;
    let dz = (b.z - a.z) as f64;
    (dx * dx + dy * dy + dz * dz).sqrt()
}

#[test]
fn verlet_step_exact_value() {
    let mut p = Particle::new(v(1000, 2000, 0), v(1000, 2500, 0));
    p.accumulate_forces(v(0, -147150, 0));
    p.verlet(16);
    assert_eq!(p.position, v(1000, 1463, 0));
    assert_eq!(p.previous_position, v(1000, 2000, 0));
}

#[test]
fn verlet_is_deterministic() {
    let mut p = Particle::new(v(-5, 7, 3), v(-9, 2, 3));
    let mut q = p;
    p.accumulate_forces(v(11, -147150, 0));
    q.accumulate_forces(v(11, -147150, 0));
    p.verlet(33);
    q.verlet(33);
    assert_eq!(p, q);
}

#[test]
fn exact_link_converges() {
    let (a, b, passes) =
        relax_pair(v(0, 0, 0), MASS_ONE, v(30000, 0, 0), MASS_ONE, ParticleLinkType::Exact(15000), &huge_box(), 40);
    assert!(passes < 40);
    let d = dist(a, b);
    assert!((d - 15000.0).abs() <= 5.0, "separation {}", d);
}

#[test]
fn exact_link_halves_gap_per_pass() {
    let (a, b) = link_step(v(0, 0, 0), MASS_ONE, v(30000, 0, 0), MASS_ONE, ParticleLinkType::Exact(15000));
    assert_eq!(a, v(3750, 0, 0));
    assert_eq!(b, v(26250, 0, 0));
}

#[test]
fn min_link_satisfied_moves_nothing() {
    let a = v(0, 0, 0);
    let b = v(3000, 4000, 0);
    assert_eq!(link_step(a, MASS_ONE, b, MASS_ONE, ParticleLinkType::Min(4000)), (a, b));
    assert_ne!(link_step(a, MASS_ONE, b, MASS_ONE, ParticleLinkType::Min(6000)), (a, b));
}

#[test]
fn max_link_satisfied_moves_nothing() {
    let a = v(0, 0, 0);
    let b = v(3000, 4000, 0);
    assert_eq!(link_step(a, MASS_ONE, b, MASS_ONE, ParticleLinkType::Max(6000)), (a, b));
    assert_ne!(link_step(a, MASS_ONE, b, MASS_ONE, ParticleLinkType::Max(4000)), (a, b));
}

#[test]
fn heavier_endpoint_moves_less() {
    let a = v(0, 0, 0);
    let b = v(30000, 0, 0);
    let (ra, rb) = link_step(a, 3 * MASS_ONE, b, MASS_ONE, ParticleLinkType::Exact(15000));
    assert_eq!(ra, v(1875, 0, 0));
    assert_eq!(rb, v(24375, 0, 0));
}

#[test]
fn near_zero_mass_is_pinned() {
    let (ra, rb) = link_step(v(0, 0, 0), 0, v(30000, 0, 0), MASS_ONE, ParticleLinkType::Exact(15000));
    assert_eq!(ra, v(0, 0, 0));
    assert_eq!(rb, v(22500, 0, 0));
    let (ra, rb) = link_step(v(0, 0, 0), MASS_ONE, v(30000, 0, 0), 99, ParticleLinkType::Exact(15000));
    assert_eq!(ra, v(7500, 0, 0));
    assert_eq!(rb, v(30000, 0, 0));
}

#[test]
fn two_pinned_endpoints_stay() {
    let a = v(0, 0, 0);
    let b = v(30000, 0, 0);
    assert_eq!(link_step(a, 0, b, 50, ParticleLinkType::Exact(15000)), (a, b));
}

#[test]
fn pinned_particle_stays_through_relaxation() {
    let mut pinned = Particle::new(v(-160000, -100000, 0), v(-160000, -100000, 0));
    pinned.mass = 0;
    let free = Particle::new(v(-130000, -100000, 0), v(-130000, -100000, 0));
    let mut ps = vec![pinned, free];
    let link = ParticleLink { a: 0, b: 1, link_type: ParticleLinkType::Exact(15000) };
    link.satisfy_constraints(&mut ps, &default_bounds());
    assert_eq!(ps[0].position, v(-160000, -100000, 0));
    assert_eq!(ps[1].position, v(-144531, -100000, 0));
    // with a larger budget the free particle alone closes the whole gap
    let (a, b, _) = relax_pair(
        v(-160000, -100000, 0),
        0,
        v(-130000, -100000, 0),
        MASS_ONE,
        ParticleLinkType::Exact(15000),
        &default_bounds(),
        40,
    );
    assert_eq!(a, v(-160000, -100000, 0));
    assert!((dist(a, b) - 15000.0).abs() <= 2.0);
}

#[test]
fn equal_masses_keep_midpoint() {
    let a = v(0, 0, 0);
    let b = v(30001, 7, 0);
    let (ra, rb) = link_step(a, MASS_ONE, b, MASS_ONE, ParticleLinkType::Exact(15000));
    assert_eq!((ra, rb), (v(3750, 0, 0), v(26251, 7, 0)));
    assert_eq!((ra.x + rb.x, ra.y + rb.y, ra.z + rb.z), (a.x + b.x, a.y + b.y, a.z + b.z));
}

#[test]
fn world_rejects_self_link() {
    let ps = vec![Particle::new(v(0, 0, 0), v(0, 0, 0))];
    let links = vec![ParticleLink { a: 0, b: 0, link_type: ParticleLinkType::Exact(10) }];
    assert!(ParticleWorld::new(ps, links, ParticleGravity::default(), default_bounds()).is_none());
}

#[test]
fn coincident_endpoints_are_left_alone() {
    let p = v(10, 20, 30);
    assert_eq!(link_step(p, MASS_ONE, p, MASS_ONE, ParticleLinkType::Exact(15000)), (p, p));
}

#[test]
fn clamp_is_idempotent() {
    let bounds = default_bounds();
    let once = bounds.clamp(v(50, -400000, 7));
    assert_eq!(once, v(0, -300000, 0));
    assert_eq!(bounds.clamp(once), once);
}

#[test]
fn unchanged_pass_exits_early() {
    let a = v(0, 0, 0);
    let b = v(15000, 0, 0);
    let r = relax_pair(a, MASS_ONE, b, MASS_ONE, ParticleLinkType::Exact(15000), &huge_box(), NUM_ITERATIONS);
    assert_eq!(r, (a, b, 1));
}

#[test]
fn relaxation_runs_full_budget_when_moving() {
    let r = relax_pair(v(0, 0, 0), MASS_ONE, v(30000, 0, 0), MASS_ONE, ParticleLinkType::Exact(15000), &huge_box(), 5);
    assert_eq!(r, (v(7265, 0, 0), v(22735, 0, 0), 5));
}

#[test]
fn bounds_reject_inverted_corners() {
    assert!(Bounds::new(v(1, 0, 0), v(0, 0, 0)).is_none());
    assert!(Bounds::new(v(0, 0, 0), v(0, 0, 0)).is_some());
}

#[test]
fn world_rejects_dangling_link() {
    let ps = vec![Particle::new(v(0, 0, 0), v(0, 0, 0))];
    let links = vec![ParticleLink { a: 0, b: 1, link_type: ParticleLinkType::Exact(10) }];
    assert!(ParticleWorld::new(ps, links, ParticleGravity::default(), default_bounds()).is_none());
}

#[test]
fn world_rejects_far_particle() {
    let ps = vec![Particle::new(v(0, 0, 1 << 40), v(0, 0, 0))];
    assert!(ParticleWorld::new(ps, Vec::new(), ParticleGravity::default(), default_bounds()).is_none());
}

#[test]
fn triangle_reaches_steady_shape() {
    let a = v(-125000, -140000, 0);
    let b = v(-103000, -138000, 0);
    let c = v(-133000, -128000, 0);
    let ps = vec![Particle::new(a, a), Particle::new(b, b), Particle::new(c, c)];
    let links = vec![
        ParticleLink { a: 0, b: 1, link_type: ParticleLinkType::Exact(15000) },
        ParticleLink { a: 0, b: 2, link_type: ParticleLinkType::Exact(25000) },
        ParticleLink { a: 1, b: 2, link_type: ParticleLinkType::Exact(15000) },
    ];
    let mut w = ParticleWorld::new(ps, links, ParticleGravity(v(0, 0, 0)), huge_box()).unwrap();
    for _ in 0..100 {
        w.tick(16);
    }
    for _ in 0..100 {
        w.tick(16);
        let p = &w.particles;
        assert!((dist(p[0].position, p[1].position) - 15000.0).abs() < 20.0);
        assert!((dist(p[0].position, p[2].position) - 25000.0).abs() < 20.0);
        assert!((dist(p[1].position, p[2].position) - 15000.0).abs() < 20.0);
    }
}

#[test]
fn demo_scene_stays_in_box() {
    let mut w = spawn_demo_particles();
    assert_eq!(w.particles.len(), 7);
    assert_eq!(w.links.len(), 7);
    let bounds = w.bounds;
    for _ in 0..300 {
        w.tick(16);
        for p in &w.particles {
            assert_eq!(bounds.clamp(p.position), p.position);
        }
    }
    // everything has fallen to the floor of the box
    assert!(w.particles.iter().all(|p| p.position.y < -280000));
}

#[test]
fn reset_restores_demo_scene() {
    let mut w = spawn_demo_particles();
    let fresh = spawn_demo_particles();
    for _ in 0..10 {
        w.tick(16);
    }
    w.reset_particles();
    assert_eq!(w.particles, fresh.particles);
    assert_eq!(w.links, fresh.links);
}

#[test]
fn unlinked_particle_is_clamped() {
    let ps = vec![Particle::new(v(-10, -10, 0), v(-10, 399990, 0))];
    let mut w = ParticleWorld::new(ps, Vec::new(), ParticleGravity(v(0, 0, 0)), default_bounds()).unwrap();
    w.tick(16);
    assert_eq!(w.particles[0].position, v(-10, -300000, 0));
    assert_eq!(w.particles[0].previous_position, v(-10, -10, 0));
}

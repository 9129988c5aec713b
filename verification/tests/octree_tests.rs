use barnes_hut::Cell;
use barnes_hut::InsertOutcome;
use barnes_hut::Particle;
use barnes_hut::Vector;

const K: i128 = 8988;

/// Truncating division, as the library documents its force arithmetic.
fn divt(a: i128, b: i128) -> i128 {
    a / b
}

/// Floor square root.
fn isqrt(n: i128) -> i128 {
    let mut r: i128 = 0;
    while (r + 1) * (r + 1) <= n {
        r += 1;
    }
    r
}

/// The single-point force term the library documents: direction times
/// `K * q * q_src / r^3`, computed as two truncating divisions.
fn single_force(center: (i64, i64, i64), q_src: i64, p: &Particle) -> (i64, i64, i64) {
    let dx = p.position.x as i128 - center.0 as i128;
    let dy = p.position.y as i128 - center.1 as i128;
    let dz = p.position.z as i128 - center.2 as i128;
    let dsq = dx * dx + dy * dy + dz * dz;
    if dsq == 0 {
        return (0, 0, 0);
    }
    let r = isqrt(dsq);
    let a = K * p.charge as i128 * q_src as i128;
    (
        divt(divt(a * dx, dsq), r) as i64,
        divt(divt(a * dy, dsq), r) as i64,
        divt(divt(a * dz, dsq), r) as i64,
    )
}

fn brute_force(sources: &[Particle], p: &Particle) -> (i64, i64, i64) {
    let mut f = (0i64, 0i64, 0i64);
    for s in sources {
        let t = single_force((s.position.x, s.position.y, s.position.z), s.charge, p);
        f = (f.0 + t.0, f.1 + t.1, f.2 + t.2);
    }
    f
}

#[test]
fn vector_new_and_components() {
    let v = Vector::new(3, -4, 12);
    assert_eq!(v.x, 3);
    assert_eq!(v.y, -4);
    assert_eq!(v.z, 12);
}

#[test]
fn vector_add() {
    let a = Vector::new(1, 2, 3);
    let b = Vector::new(10, -20, 30);
    let c = a.add(&b);
    assert_eq!((c.x, c.y, c.z), (11, -18, 33));
}

#[test]
fn vector_distance_vector() {
    let a = Vector::new(5, 5, 5);
    let b = Vector::new(1, 2, 3);
    let d = a.distance_vector(&b);
    assert_eq!((d.x, d.y, d.z), (4, 3, 2));
}

#[test]
fn vector_scalar_multiplication() {
    let a = Vector::new(1, -2, 3);
    let m = a.scalar_multiplication(-5);
    assert_eq!((m.x, m.y, m.z), (-5, 10, -15));
}

#[test]
fn vector_magnitude_squares_each_component() {
    // A plain 3-4-0 triangle and a z-only vector: the z component is
    // squared like the others.
    assert_eq!(Vector::new(3, 4, 0).magnitude(), 5);
    assert_eq!(Vector::new(0, 0, 3).magnitude(), 3);
    assert_eq!(Vector::new(2, 3, 6).magnitude(), 7);
}

#[test]
fn vector_distance_is_true_euclidean_floor() {
    let a = Vector::new(0, 0, 0);
    let b = Vector::new(3, 4, 0);
    assert_eq!(a.distance(&b), 5);
    let c = Vector::new(1, 1, 1);
    // sqrt(3) floors to 1
    assert_eq!(a.distance(&c), 1);
}

#[test]
fn particle_new() {
    let p = Particle::new(1, 2, 3, -7);
    assert_eq!((p.position.x, p.position.y, p.position.z), (1, 2, 3));
    assert_eq!(p.charge, -7);
}

#[test]
fn cell_new_is_empty() {
    let c = Cell::new(4, Vector::new(-1, -1, -1));
    assert_eq!(c.count, 0);
    assert_eq!(c.charge, 0);
    assert_eq!(c.children.len(), 0);
    assert!(c.particle.is_none());
}

#[test]
fn is_inside_is_half_open() {
    let c = Cell::new(4, Vector::new(0, 0, 0));
    assert!(c.is_inside(&Vector::new(0, 0, 0)));
    assert!(c.is_inside(&Vector::new(3, 3, 3)));
    assert!(!c.is_inside(&Vector::new(4, 0, 0)));
    assert!(!c.is_inside(&Vector::new(0, -1, 0)));
    assert!(!c.is_inside(&Vector::new(0, 0, 4)));
}

#[test]
fn create_subcells_makes_eight_octants() {
    let mut c = Cell::new(4, Vector::new(0, 0, 0));
    c.create_subcells();
    assert_eq!(c.children.len(), 8);
    for ch in c.children.iter() {
        assert_eq!(ch.length, 2);
        assert_eq!(ch.count, 0);
        assert!(ch.base.x == 0 || ch.base.x == 2);
        assert!(ch.base.y == 0 || ch.base.y == 2);
        assert!(ch.base.z == 0 || ch.base.z == 2);
    }
}

#[test]
fn insert_outcomes() {
    let mut c = Cell::new(4, Vector::new(-1, -1, -1));
    let p1 = Particle::new(0, 0, 0, 1);
    let outside = Particle::new(10, 0, 0, 1);
    let dup = Particle::new(0, 0, 0, 5);
    assert_eq!(c.insert_particle(&p1), InsertOutcome::Stored);
    assert_eq!(c.count, 1);
    assert_eq!(c.insert_particle(&outside), InsertOutcome::OutOfBounds);
    assert_eq!(c.count, 1);
    assert_eq!(c.insert_particle(&dup), InsertOutcome::Coincident);
    assert_eq!(c.count, 1);
}

#[test]
fn insert_two_particles_subdivides() {
    let mut c = Cell::new(4, Vector::new(-1, -1, -1));
    assert_eq!(c.insert_particle(&Particle::new(0, 0, 0, 1)), InsertOutcome::Stored);
    assert_eq!(c.insert_particle(&Particle::new(1, 0, 0, 1)), InsertOutcome::Stored);
    assert_eq!(c.count, 2);
    assert_eq!(c.children.len(), 8);
    assert!(c.particle.is_none());
}

#[test]
fn tree_construction_counts_in_bounds_particles() {
    let mut c = Cell::new(8, Vector::new(0, 0, 0));
    let ps = vec![
        Particle::new(1, 1, 1, 2),
        Particle::new(6, 1, 1, 2),
        Particle::new(1, 6, 1, 2),
        Particle::new(100, 0, 0, 2), // out of bounds: silently rejected
    ];
    c.tree_construction(&ps);
    assert_eq!(c.count, 3);
}

#[test]
fn conservation_total_charge_at_root() {
    let mut c = Cell::new(8, Vector::new(0, 0, 0));
    let ps = vec![
        Particle::new(1, 1, 1, 5),
        Particle::new(6, 1, 1, -3),
        Particle::new(1, 6, 1, 7),
        Particle::new(6, 6, 6, 11),
    ];
    c.tree_construction(&ps);
    c.calculate_charge_distribution();
    assert_eq!(c.charge, 5 - 3 + 7 + 11);
}

#[test]
fn zero_net_charge_centroid_falls_back_to_zero() {
    let mut c = Cell::new(8, Vector::new(0, 0, 0));
    c.tree_construction(&vec![Particle::new(1, 1, 1, 5), Particle::new(6, 6, 6, -5)]);
    c.calculate_charge_distribution();
    assert_eq!(c.charge, 0);
    assert_eq!((c.center_of_charge.x, c.center_of_charge.y, c.center_of_charge.z), (0, 0, 0));
}

#[test]
fn aggregation_is_idempotent() {
    let mut c = Cell::new(8, Vector::new(0, 0, 0));
    c.tree_construction(&vec![
        Particle::new(1, 1, 1, 5),
        Particle::new(6, 1, 1, -3),
        Particle::new(1, 6, 1, 7),
    ]);
    c.calculate_charge_distribution();
    let charge1 = c.charge;
    let center1 = (c.center_of_charge.x, c.center_of_charge.y, c.center_of_charge.z);
    let child_charges1: Vec<i64> = c.children.iter().map(|ch| ch.charge).collect();
    c.calculate_charge_distribution();
    assert_eq!(c.charge, charge1);
    assert_eq!((c.center_of_charge.x, c.center_of_charge.y, c.center_of_charge.z), center1);
    let child_charges2: Vec<i64> = c.children.iter().map(|ch| ch.charge).collect();
    assert_eq!(child_charges1, child_charges2);
}

#[test]
fn aggregation_weighted_centroid() {
    // charge 3 at x=2 and charge 1 at x=6: centroid x = (3*2 + 1*6)/4 = 3
    let mut c = Cell::new(8, Vector::new(0, 0, 0));
    c.tree_construction(&vec![Particle::new(2, 0, 0, 3), Particle::new(6, 0, 0, 1)]);
    c.calculate_charge_distribution();
    assert_eq!(c.charge, 4);
    assert_eq!((c.center_of_charge.x, c.center_of_charge.y, c.center_of_charge.z), (3, 0, 0));
}

#[test]
fn two_unit_charges_force_is_k() {
    // Two unit charges one length-unit apart in root cube base (-1,-1,-1),
    // edge 4, exact evaluation: the force on each particle has magnitude
    // exactly K, directed away from the other. The root's rounded centroid
    // (1/2 -> 0) lands on the first particle, but the exact-coincidence
    // test sees through the rounding and the walk recurses instead of
    // short-circuiting to zero.
    let p1 = Particle::new(0, 0, 0, 1);
    let p2 = Particle::new(1, 0, 0, 1);
    let mut c = Cell::new(4, Vector::new(-1, -1, -1));
    assert_eq!(c.insert_particle(&p1), InsertOutcome::Stored);
    assert_eq!(c.insert_particle(&p2), InsertOutcome::Stored);
    c.calculate_charge_distribution();
    let f2 = c.calculate_coulomb_force(&p2, 0, 1);
    assert_eq!((f2.x, f2.y, f2.z), (K as i64, 0, 0));
    assert_eq!(f2.magnitude(), K as i64);
    let f1 = c.calculate_coulomb_force(&p1, 0, 1);
    assert_eq!((f1.x, f1.y, f1.z), (-(K as i64), 0, 0));
    assert_eq!(f1.magnitude(), K as i64);
}

#[test]
fn two_charges_equal_and_opposite_forces() {
    // Distance 2, so the truncated root centroid (1,0,0) coincides with
    // neither particle: both directions come out exact and opposite.
    let p1 = Particle::new(0, 0, 0, 1);
    let p2 = Particle::new(2, 0, 0, 1);
    let mut c = Cell::new(4, Vector::new(-1, -1, -1));
    c.tree_construction(&vec![p1, p2]);
    c.calculate_charge_distribution();
    let f1 = c.calculate_coulomb_force(&p1, 0, 1);
    let f2 = c.calculate_coulomb_force(&p2, 0, 1);
    // K / 2^2 = 2247
    assert_eq!((f1.x, f1.y, f1.z), (-2247, 0, 0));
    assert_eq!((f2.x, f2.y, f2.z), (2247, 0, 0));
}

#[test]
fn single_particle_force_is_zero_for_every_accuracy() {
    let p = Particle::new(0, 0, 0, 5);
    let mut c = Cell::new(4, Vector::new(-1, -1, -1));
    assert_eq!(c.insert_particle(&p), InsertOutcome::Stored);
    c.calculate_charge_distribution();
    for &(tn, td) in [(0i64, 1i64), (1, 1), (10, 1), (1, 2)].iter() {
        let f = c.calculate_coulomb_force(&p, tn, td);
        assert_eq!((f.x, f.y, f.z), (0, 0, 0));
    }
}

#[test]
fn eight_octant_charges_large_accuracy_short_circuits() {
    // One charge at each octant center of the cube [0,8)^3; a distant test
    // particle; with a large accuracy parameter the whole cube acts as one
    // point charge at (4,4,4), differing from the exact pairwise sum.
    let mut sources = Vec::new();
    for &x in [2i64, 6].iter() {
        for &y in [2i64, 6].iter() {
            for &z in [2i64, 6].iter() {
                sources.push(Particle::new(x, y, z, 100));
            }
        }
    }
    let mut c = Cell::new(8, Vector::new(0, 0, 0));
    c.tree_construction(&sources);
    c.calculate_charge_distribution();
    assert_eq!(c.charge, 800);
    assert_eq!((c.center_of_charge.x, c.center_of_charge.y, c.center_of_charge.z), (4, 4, 4));

    let probe = Particle::new(100, 4, 4, 100);

    // Exact evaluation matches the pairwise sum.
    let exact = c.calculate_coulomb_force(&probe, 0, 1);
    let expected = brute_force(&sources, &probe);
    assert_eq!((exact.x, exact.y, exact.z), expected);

    // With accuracy 10 the root is accepted as a single point charge.
    let approx = c.calculate_coulomb_force(&probe, 10, 1);
    let single = single_force((4, 4, 4), 800, &probe);
    assert_eq!((approx.x, approx.y, approx.z), single);

    // The approximation differs measurably from the exact sum.
    assert_ne!((approx.x, approx.y, approx.z), (exact.x, exact.y, exact.z));
}

#[test]
fn accuracy_zero_matches_brute_force_on_scattered_charges() {
    let sources = vec![
        Particle::new(3, 9, 27, 40),
        Particle::new(60, 5, 11, -25),
        Particle::new(17, 44, 2, 60),
        Particle::new(50, 50, 50, 10),
        Particle::new(9, 33, 60, -55),
    ];
    let mut c = Cell::new(64, Vector::new(0, 0, 0));
    c.tree_construction(&sources);
    c.calculate_charge_distribution();
    let probe = Particle::new(31, 30, 29, 70);
    let f = c.calculate_coulomb_force(&probe, 0, 1);
    let expected = brute_force(&sources, &probe);
    assert_eq!((f.x, f.y, f.z), expected);
}

#[test]
fn symmetric_cluster_exerts_no_net_force_at_its_centroid() {
    // Eight equal charges symmetric about (4,4,4): the exact pairwise force
    // on a probe at the centroid cancels to zero, and the evaluation returns
    // zero there too — here the exact (unrounded) center of charge really
    // does coincide with the probe.
    let mut sources = Vec::new();
    for &x in [2i64, 6].iter() {
        for &y in [2i64, 6].iter() {
            for &z in [2i64, 6].iter() {
                sources.push(Particle::new(x, y, z, 100));
            }
        }
    }
    let mut c = Cell::new(8, Vector::new(0, 0, 0));
    c.tree_construction(&sources);
    c.calculate_charge_distribution();
    let probe = Particle::new(4, 4, 4, 100);
    let exact = c.calculate_coulomb_force(&probe, 0, 1);
    assert_eq!((exact.x, exact.y, exact.z), (0, 0, 0));
    let approx = c.calculate_coulomb_force(&probe, 10, 1);
    assert_eq!((approx.x, approx.y, approx.z), (0, 0, 0));
}

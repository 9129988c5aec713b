//! The library's laws: conservation of charge under aggregation, membership
//! accounting after construction, idempotence of aggregation, exactness of
//! force evaluation at accuracy zero, and absence of self-force.

use vstd::prelude::*;

use crate::octree::charge_sum;
use crate::octree::lemma_aggregated_child;
use crate::octree::lemma_same_shape_particles;
use crate::octree::lemma_wf_child;
use crate::octree::moment_sum;
use crate::octree::single_force;
use crate::octree::Cell;
use crate::particle::Particle;
use crate::vector::Vector;

verus! {

broadcast use {vstd::std_specs::vec::axiom_vec_index_decreases, vstd::seq_lib::group_to_multiset_ensures};

/// Removing one entry removes its charge and moment from the sums.
pub proof fn lemma_sums_remove(s: Seq<Particle>, i: int)
    requires
        0 <= i < s.len(),
    ensures
        charge_sum(s) == charge_sum(s.remove(i)) + s[i].charge,
        moment_sum(s).0 == moment_sum(s.remove(i)).0 + s[i].charge * s[i].position.x,
        moment_sum(s).1 == moment_sum(s.remove(i)).1 + s[i].charge * s[i].position.y,
        moment_sum(s).2 == moment_sum(s.remove(i)).2 + s[i].charge * s[i].position.z,
    decreases s.len(),
{
    if i == s.len() - 1 {
        assert(s.remove(i) =~= s.drop_last());
    } else {
        lemma_sums_remove(s.drop_last(), i);
        assert(s.remove(i).drop_last() =~= s.drop_last().remove(i));
        assert(s.remove(i).last() == s.last());
    }
}

/// Charge and moment sums are invariant under permutation: they depend only
/// on the multiset of particles, not on the order the tree stores them in.
pub proof fn lemma_sums_permutation(s1: Seq<Particle>, s2: Seq<Particle>)
    requires
        s1.to_multiset() == s2.to_multiset(),
    ensures
        charge_sum(s1) == charge_sum(s2),
        moment_sum(s1) == moment_sum(s2),
    decreases s1.len(),
{
    if s1.len() == 0 {
        assert(s2.len() == s2.to_multiset().len());
        assert(s2 =~= Seq::<Particle>::empty());
    } else {
        let x = s1.last();
        let s1p = s1.drop_last();
        assert(s1 =~= s1p.push(x));
        assert(s1.to_multiset() =~= s1p.to_multiset().insert(x));
        assert(s1.contains(x));
        assert(s2.to_multiset().count(x) > 0);
        assert(s2.contains(x));
        let i = choose|i: int| 0 <= i < s2.len() && s2[i] == x;
        let s2p = s2.remove(i);
        assert(s2p.to_multiset() =~= s2.to_multiset().remove(x));
        assert(s1p.to_multiset() =~= s2p.to_multiset());
        lemma_sums_permutation(s1p, s2p);
        lemma_sums_remove(s2, i);
        lemma_sums_remove(s1, s1.len() - 1);
        assert(s1.remove(s1.len() - 1) =~= s1p);
    }
}

/// Conservation: after aggregation, the root's `charge` is exactly the sum
/// of the charges of the particles that were inserted, in any order, and its
/// `moment` is exactly their charge-weighted position sum.
pub proof fn lemma_charge_conservation(root: Cell, ps: Seq<Particle>)
    requires
        root.wf(),
        root.aggregated(),
        root.particles().to_multiset() == ps.to_multiset(),
    ensures
        root.charge == charge_sum(ps),
        root.moment.x == moment_sum(ps).0,
        root.moment.y == moment_sum(ps).1,
        root.moment.z == moment_sum(ps).2,
{
    lemma_agg_sums(root);
    lemma_sums_permutation(root.particles(), ps);
}

/// An aggregated node's `charge` and `moment` equal the sums over its own
/// particle list.
pub proof fn lemma_agg_sums(c: Cell)
    requires
        c.wf(),
        c.aggregated(),
    ensures
        c.charge == charge_sum(c.particles()),
        c.moment.x == moment_sum(c.particles()).0,
        c.moment.y == moment_sum(c.particles()).1,
        c.moment.z == moment_sum(c.particles()).2,
{
    if c.children.len() == 0 {
        if c.particle is Some {
            let p = c.particle.unwrap();
            assert(c.particles() == seq![p]);
            assert(c.particles().drop_last() =~= Seq::<Particle>::empty());
            assert(charge_sum(Seq::<Particle>::empty()) == 0);
            assert(moment_sum(Seq::<Particle>::empty()) == (0int, 0int, 0int));
        } else {
            assert(charge_sum(c.particles()) == 0);
        }
    }
}

/// Membership: when the inserted particles have pairwise distinct positions,
/// the tree stores each exactly once, and `count` equals their number.
pub proof fn lemma_membership(root: Cell, ps: Seq<Particle>)
    requires
        root.wf(),
        root.particles().to_multiset() == ps.to_multiset(),
        forall|i: int, j: int|
            0 <= i < j < ps.len() ==> (#[trigger] ps[i]).position != (#[trigger] ps[j]).position,
    ensures
        root.count == ps.len(),
        forall|i: int|
            0 <= i < ps.len() ==> root.particles().to_multiset().count(#[trigger] ps[i]) == 1,
{
    assert(root.particles().len() == root.particles().to_multiset().len());
    assert(ps.len() == ps.to_multiset().len());
    assert(ps.no_duplicates()) by {
        assert forall|i: int, j: int|
            0 <= i < ps.len() && 0 <= j < ps.len() && i != j implies ps[i] != ps[j] by {
            if i < j {
                assert(ps[i].position != ps[j].position);
            } else {
                assert(ps[j].position != ps[i].position);
            }
        }
    }
    ps.lemma_multiset_has_no_duplicates();
    assert forall|i: int|
        0 <= i < ps.len() implies root.particles().to_multiset().count(#[trigger] ps[i]) == 1 by {
        assert(ps.contains(ps[i]));
        assert(ps.to_multiset().count(ps[i]) > 0);
    }
}

/// The aggregation fields of `b` equal those of `a`, at every node.
pub open spec fn agg_eq(a: Cell, b: Cell) -> bool
    decreases a, 9int,
{
    &&& b.charge == a.charge
    &&& b.moment == a.moment
    &&& b.center_of_charge == a.center_of_charge
    &&& agg_eq_children(a, b, 8)
}

/// `agg_eq` over the first `n` children.
pub open spec fn agg_eq_children(a: Cell, b: Cell, n: int) -> bool
    decreases a, n,
{
    if n <= 0 || n > a.children.len() || b.children.len() != a.children.len() {
        true
    } else {
        agg_eq_children(a, b, n - 1) && agg_eq(a.children[n - 1], b.children[n - 1])
    }
}

/// Pointwise view of `same_shape_children`.
pub proof fn lemma_same_shape_child(a: Cell, b: Cell, n: int, i: int)
    requires
        a.same_shape_children(b, n),
        b.children.len() == a.children.len(),
        n <= a.children.len(),
        0 <= i < n,
    ensures
        a.children[i].same_shape(b.children[i]),
    decreases n,
{
    if i < n - 1 {
        lemma_same_shape_child(a, b, n - 1, i);
    }
}

/// Builds `agg_eq_children` from pointwise equality.
pub proof fn lemma_agg_eq_children_build(a: Cell, b: Cell, n: int)
    requires
        b.children.len() == a.children.len(),
        n <= a.children.len(),
        forall|j: int| 0 <= j < n ==> agg_eq(#[trigger] a.children[j], b.children[j]),
    ensures
        agg_eq_children(a, b, n),
    decreases n,
{
    if n > 0 {
        lemma_agg_eq_children_build(a, b, n - 1);
    }
}

/// Aggregation idempotence: two aggregated trees of the same shape carry
/// identical `charge`, `moment` and `center_of_charge` on every node — so
/// running `calculate_charge_distribution` a second time changes nothing.
pub proof fn lemma_aggregation_idempotent(a: Cell, b: Cell)
    requires
        a.same_shape(b),
        a.wf(),
        a.aggregated(),
        b.aggregated(),
    ensures
        agg_eq(a, b),
    decreases a, 9int,
{
    lemma_same_shape_particles(a, b);
    if a.children.len() == 0 {
        assert(agg_eq_children(a, b, 8));
    } else {
        assert(a.children.len() == 8);
        assert forall|j: int| 0 <= j < 8 implies agg_eq(#[trigger] a.children[j], b.children[j]) by {
            lemma_same_shape_child(a, b, 8, j);
            lemma_wf_child(a, 8, j);
            lemma_aggregated_child(a, 8, j);
            lemma_aggregated_child(b, 8, j);
            lemma_aggregation_idempotent(a.children[j], b.children[j]);
        }
        lemma_agg_eq_children_build(a, b, 8);
    }
}

/// The exact pairwise force on `p` from a list of source particles, each
/// treated as a point charge at its own position.
pub open spec fn pairwise_force(p: Particle, s: Seq<Particle>) -> (int, int, int)
    decreases s.len(),
{
    if s.len() == 0 {
        (0, 0, 0)
    } else {
        let rest = pairwise_force(p, s.drop_last());
        let f = single_force(s.last().position, s.last().charge as int, p);
        (rest.0 + f.0, rest.1 + f.1, rest.2 + f.2)
    }
}

/// Pairwise force distributes over concatenation.
pub proof fn lemma_pairwise_concat(p: Particle, a: Seq<Particle>, b: Seq<Particle>)
    ensures
        pairwise_force(p, a + b).0 == pairwise_force(p, a).0 + pairwise_force(p, b).0,
        pairwise_force(p, a + b).1 == pairwise_force(p, a).1 + pairwise_force(p, b).1,
        pairwise_force(p, a + b).2 == pairwise_force(p, a).2 + pairwise_force(p, b).2,
    decreases b.len(),
{
    if b.len() == 0 {
        assert(a + b =~= a);
    } else {
        lemma_pairwise_concat(p, a, b.drop_last());
        assert((a + b).drop_last() =~= a + b.drop_last());
        assert((a + b).last() == b.last());
    }
}

/// No interior node's exact (unrounded) center of charge sits at `pos` —
/// the coincidence that the evaluation's guard short-circuits on, which the
/// opening-angle walk itself acknowledges as undefined. Rounded collisions
/// are not excluded: the evaluation recurses through those.
pub open spec fn no_center_hit(c: Cell, pos: Vector) -> bool
    decreases c, 9int,
{
    if c.children.len() == 0 {
        true
    } else {
        &&& !c.exact_center_hit(pos)
        &&& no_center_hit_children(c, pos, 8)
    }
}

/// `no_center_hit` over the first `n` children.
pub open spec fn no_center_hit_children(c: Cell, pos: Vector, n: int) -> bool
    decreases c, n,
{
    if n <= 0 || n > c.children.len() {
        true
    } else {
        no_center_hit_children(c, pos, n - 1) && no_center_hit(c.children[n - 1], pos)
    }
}

/// Pointwise view of `no_center_hit_children`.
pub proof fn lemma_no_center_hit_child(c: Cell, pos: Vector, n: int, i: int)
    requires
        no_center_hit_children(c, pos, n),
        n <= c.children.len(),
        0 <= i < n,
    ensures
        no_center_hit(c.children[i], pos),
    decreases n,
{
    if i < n - 1 {
        lemma_no_center_hit_child(c, pos, n - 1, i);
    }
}

/// At accuracy zero the walk never accepts an interior cell, so the
/// approximate force degenerates to the exact pairwise sum — provided no
/// interior node's center of charge coincides with the test position, where
/// the coincidence guard would cut the walk short.
pub proof fn lemma_accuracy_zero_exact(c: Cell, p: Particle, td: int)
    requires
        c.wf(),
        c.aggregated(),
        td >= 1,
        no_center_hit(c, p.position),
    ensures
        c.spec_force(p, 0, td) == pairwise_force(p, c.particles()),
    decreases c, 9int,
{
    let dx = p.position.x - c.center_of_charge.x;
    let dy = p.position.y - c.center_of_charge.y;
    let dz = p.position.z - c.center_of_charge.z;
    let dsq = dx * dx + dy * dy + dz * dz;
    if c.children.len() == 0 {
        if c.particle is None {
            assert(c.count == 0);
            assert(pairwise_force(p, c.particles()) == (0int, 0int, 0int));
        } else {
            let q = c.particle.unwrap();
            assert(c.particles() == seq![q]);
            assert(c.particles().drop_last() =~= Seq::<Particle>::empty());
            assert(pairwise_force(p, Seq::<Particle>::empty()) == (0int, 0int, 0int));
            assert(c.center_of_charge == q.position);
            if dsq == 0 {
                assert(single_force(q.position, q.charge as int, p) == (0int, 0int, 0int));
            } else {
                assert(c.count == 1);
            }
        }
    } else {
        assert(c.count >= 2);
        assert(!c.exact_center_hit(p.position));
        assert(!(c.length * td < 0 * crate::arith::sqrt_floor(dsq))) by {
            assert(c.length * td >= 1) by (nonlinear_arith)
                requires
                    c.length >= 1,
                    td >= 1;
        }
        lemma_accuracy_zero_children(c, p, td, 8);
        assert(c.particles() == c.particles_upto(8));
    }
}

/// The children's summed force at accuracy zero equals the pairwise sum
/// over the first `n` children's particles.
pub proof fn lemma_accuracy_zero_children(c: Cell, p: Particle, td: int, n: int)
    requires
        c.wf(),
        c.aggregated(),
        c.children.len() == 8,
        td >= 1,
        no_center_hit_children(c, p.position, 8),
        0 <= n <= 8,
    ensures
        c.spec_force_children(p, 0, td, n).0 == pairwise_force(p, c.particles_upto(n)).0,
        c.spec_force_children(p, 0, td, n).1 == pairwise_force(p, c.particles_upto(n)).1,
        c.spec_force_children(p, 0, td, n).2 == pairwise_force(p, c.particles_upto(n)).2,
    decreases c, n,
{
    if n > 0 {
        lemma_accuracy_zero_children(c, p, td, n - 1);
        lemma_wf_child(c, 8, n - 1);
        lemma_aggregated_child(c, 8, n - 1);
        lemma_no_center_hit_child(c, p.position, 8, n - 1);
        lemma_accuracy_zero_exact(c.children[n - 1], p, td);
        lemma_pairwise_concat(p, c.particles_upto(n - 1), c.children[n - 1].particles());
    }
}

/// Self-force is zero: a subtree holding exactly the test particle itself
/// contributes nothing, for every accuracy parameter — its center of charge
/// is the particle's own position, so the coincidence guard returns zero.
pub proof fn lemma_self_force_zero(c: Cell, p: Particle, tn: int, td: int)
    requires
        c.wf(),
        c.aggregated(),
        c.particles() == seq![p],
    ensures
        c.spec_force(p, tn, td) == (0int, 0int, 0int),
{
    assert(c.count == 1);
    assert(c.children.len() == 0);
    assert(c.particle is Some);
    assert(c.particles() == seq![c.particle.unwrap()]);
    assert(seq![c.particle.unwrap()][0] == c.particle.unwrap());
    assert(seq![p][0] == p);
    assert(c.particles()[0] == c.particle.unwrap());
    assert(c.particles()[0] == p);
    assert(c.particle.unwrap() == p);
    assert(c.center_of_charge == p.position);
}

} // verus!

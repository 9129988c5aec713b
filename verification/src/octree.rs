//! The octree: a cubic cell that owns zero, one, or many particles, split
//! into 8 half-length octants when it holds more than one. Construction
//! inserts particles recursively; aggregation fills in each node's total
//! charge, exact charge moment, and center of charge; force evaluation walks
//! the tree once per particle under the opening-angle criterion.

use vstd::prelude::*;

use crate::arith::divq;
use crate::arith::divt;
use crate::arith::sqrt_floor;
use crate::arith::is_sqrt;
use crate::particle::Particle;
use crate::vector::Vector;

verus! {

broadcast use {vstd::std_specs::vec::axiom_vec_index_decreases, vstd::seq_lib::group_to_multiset_ensures};

/// Largest coordinate magnitude a cell may reach: every cube handled by the
/// tree lies within `[-MAX_COORD, MAX_COORD]` on each axis.
pub const MAX_COORD: i64 = 65536;

/// Largest charge magnitude of a single particle.
pub const MAX_CHARGE: i64 = 65536;

/// Largest number of particles one tree may hold.
pub const MAX_COUNT: u64 = 65536;

/// The force constant of the inverse-square law, in the caller's units.
pub const K: i64 = 8988;

/// Half-open cube membership: `base.axis <= pos.axis < base.axis + length`
/// on every axis.
pub open spec fn in_cube(base: Vector, length: int, pos: Vector) -> bool {
    &&& base.x <= pos.x < base.x + length
    &&& base.y <= pos.y < base.y + length
    &&& base.z <= pos.z < base.z + length
}

/// `n` is a power of two.
pub open spec fn is_pow2(n: int) -> bool
    decreases n,
{
    if n < 1 {
        false
    } else if n == 1 {
        true
    } else {
        n % 2 == 0 && is_pow2(n / 2)
    }
}

/// Whether octant `i` sits in the upper half of the x axis.
pub open spec fn octant_dx(i: int) -> int {
    if i == 3 || i == 5 || i == 6 || i == 7 {
        1
    } else {
        0
    }
}

/// Whether octant `i` sits in the upper half of the y axis.
pub open spec fn octant_dy(i: int) -> int {
    if i == 2 || i == 4 || i == 6 || i == 7 {
        1
    } else {
        0
    }
}

/// Whether octant `i` sits in the upper half of the z axis.
pub open spec fn octant_dz(i: int) -> int {
    if i == 1 || i == 4 || i == 5 || i == 7 {
        1
    } else {
        0
    }
}

/// `c` covers octant `i` of the cube `(base, length)`: half the edge, with
/// the base shifted by half the edge on the axes where the octant is upper.
pub open spec fn is_octant_of(c: Cell, base: Vector, length: int, i: int) -> bool {
    &&& c.length == length / 2
    &&& c.base.x == base.x + octant_dx(i) * (length / 2)
    &&& c.base.y == base.y + octant_dy(i) * (length / 2)
    &&& c.base.z == base.z + octant_dz(i) * (length / 2)
}

/// The total charge of a list of particles.
pub open spec fn charge_sum(s: Seq<Particle>) -> int
    decreases s.len(),
{
    if s.len() == 0 {
        0
    } else {
        charge_sum(s.drop_last()) + s.last().charge
    }
}

/// The charge moment (charge-weighted position sum) of a list of particles,
/// one component per axis.
pub open spec fn moment_sum(s: Seq<Particle>) -> (int, int, int)
    decreases s.len(),
{
    if s.len() == 0 {
        (0, 0, 0)
    } else {
        let m = moment_sum(s.drop_last());
        let p = s.last();
        (m.0 + p.charge * p.position.x, m.1 + p.charge * p.position.y, m.2 + p.charge
            * p.position.z)
    }
}

/// What `insert_particle` did with the particle it was given.
#[derive(Clone, Copy, Debug, PartialEq, Eq, Structural)]
pub enum InsertOutcome {
    /// The particle now sits in a leaf of the tree.
    Stored,
    /// The particle's position lies outside the cell's cube and was rejected.
    OutOfBounds,
    /// A particle at the same position is already stored; the new one was
    /// rejected, as two coincident points can never be separated by
    /// subdivision.
    Coincident,
}

/// A cubic region of space. `children` is empty or holds exactly 8 octants;
/// `particle` is present exactly on a one-particle leaf; `charge`, `moment`
/// and `center_of_charge` are meaningful once `calculate_charge_distribution`
/// has run.
#[derive(Debug)]
#[verifier::ext_equal]
pub struct Cell {
    pub children: Vec<Cell>,
    pub particle: Option<Particle>,
    pub count: u64,
    pub length: i64,
    pub base: Vector,
    pub charge: i64,
    pub moment: Vector,
    pub center_of_charge: Vector,
}

impl Cell {
    /// All particles stored in this subtree, in leaf order.
    pub open spec fn particles(self) -> Seq<Particle>
        decreases self, 9int,
    {
        if self.children.len() == 0 {
            match self.particle {
                Option::Some(p) => seq![p],
                Option::None => Seq::empty(),
            }
        } else {
            self.particles_upto(8)
        }
    }

    /// The particles of the first `n` children, concatenated.
    pub open spec fn particles_upto(self, n: int) -> Seq<Particle>
        decreases self, n,
    {
        if n <= 0 || n > self.children.len() {
            Seq::empty()
        } else {
            self.particles_upto(n - 1) + self.children[n - 1].particles()
        }
    }

    /// The particles of children `k` and onward, concatenated.
    pub open spec fn particles_from(self, k: int) -> Seq<Particle>
        decreases self, 8 - k,
    {
        if k < 0 || k >= self.children.len() || self.children.len() > 8 {
            Seq::empty()
        } else {
            self.children[k].particles() + self.particles_from(k + 1)
        }
    }

    /// `p` is a particle the subtree may store: inside the cell's cube, with
    /// a charge within range.
    pub open spec fn stores(self, p: Particle) -> bool {
        &&& in_cube(self.base, self.length as int, p.position)
        &&& -MAX_CHARGE <= p.charge <= MAX_CHARGE
    }

    /// Structural well-formedness, maintained from creation through every
    /// insertion: cube geometry in range and a power-of-two edge, `count`
    /// equal to the number of stored particles, every stored particle inside
    /// the cube at a distinct position, and children that exactly partition
    /// the cube into its 8 octants.
    pub open spec fn wf(self) -> bool
        decreases self, 9int,
    {
        &&& 1 <= self.length
        &&& is_pow2(self.length as int)
        &&& -MAX_COORD <= self.base.x && self.base.x + self.length <= MAX_COORD
        &&& -MAX_COORD <= self.base.y && self.base.y + self.length <= MAX_COORD
        &&& -MAX_COORD <= self.base.z && self.base.z + self.length <= MAX_COORD
        &&& self.count == self.particles().len()
        &&& self.count <= MAX_COUNT
        &&& forall|i: int|
            0 <= i < self.particles().len() ==> self.stores(#[trigger] self.particles()[i])
        &&& forall|i: int, j: int|
            0 <= i < j < self.particles().len() ==> (#[trigger] self.particles()[i]).position != (
            #[trigger] self.particles()[j]).position
        &&& self.children.len() == 0 || self.children.len() == 8
        &&& (self.children.len() == 0 ==> self.count <= 1 && (self.particle is Some <==> self.count
            == 1))
        &&& (self.count == 0 ==> self.charge == 0 && self.moment == (Vector { x: 0, y: 0, z: 0 })
            && self.center_of_charge == (Vector { x: 0, y: 0, z: 0 }))
        &&& (self.children.len() == 8 ==> {
            &&& self.particle is None
            &&& self.count >= 2
            &&& self.length >= 2
            &&& self.wf_children(8)
        })
    }

    /// The first `n` children are well-formed octants of this cell.
    pub open spec fn wf_children(self, n: int) -> bool
        decreases self, n,
    {
        if n <= 0 || n > self.children.len() {
            true
        } else {
            &&& self.wf_children(n - 1)
            &&& self.children[n - 1].wf()
            &&& is_octant_of(self.children[n - 1], self.base, self.length as int, n - 1)
        }
    }

    /// Some stored particle sits at position `pos`.
    pub open spec fn occupied(self, pos: Vector) -> bool {
        exists|i: int|
            0 <= i < self.particles().len() && (#[trigger] self.particles()[i]).position == pos
    }

    /// An empty cell covering the cube `(base, length)`.
    pub fn new(length: i64, base: Vector) -> (c: Cell)
        requires
            1 <= length,
            is_pow2(length as int),
            -MAX_COORD <= base.x && base.x + length <= MAX_COORD,
            -MAX_COORD <= base.y && base.y + length <= MAX_COORD,
            -MAX_COORD <= base.z && base.z + length <= MAX_COORD,
        ensures
            c.wf(),
            c.count == 0,
            c.particles() == Seq::<Particle>::empty(),
            c.children.len() == 0,
            c.particle is None,
            c.length == length,
            c.base == base,
            c.charge == 0,
            c.moment == (Vector { x: 0, y: 0, z: 0 }),
            c.center_of_charge == (Vector { x: 0, y: 0, z: 0 }),
    {
        Cell {
            children: Vec::<Cell>::new(),
            particle: None,
            count: 0,
            length,
            base,
            charge: 0,
            moment: Vector::new(0, 0, 0),
            center_of_charge: Vector::new(0, 0, 0),
        }
    }

    /// Half-open membership of `pt` in this cell's cube.
    pub fn is_inside(&self, pt: &Vector) -> (r: bool)
        requires
            0 <= self.length,
            self.base.x + self.length <= i64::MAX,
            self.base.y + self.length <= i64::MAX,
            self.base.z + self.length <= i64::MAX,
        ensures
            r == in_cube(self.base, self.length as int, *pt),
    {
        self.base.x <= pt.x && self.base.x + self.length > pt.x && self.base.y <= pt.y
            && self.base.y + self.length > pt.y && self.base.z <= pt.z && self.base.z + self.length
            > pt.z
    }
}

/// Membership of `pos` in octant `i` of the cube `(base, length)`.
pub open spec fn in_octant(base: Vector, length: int, i: int, pos: Vector) -> bool {
    let h = length / 2;
    &&& base.x + octant_dx(i) * h <= pos.x < base.x + octant_dx(i) * h + h
    &&& base.y + octant_dy(i) * h <= pos.y < base.y + octant_dy(i) * h + h
    &&& base.z + octant_dz(i) * h <= pos.z < base.z + octant_dz(i) * h + h
}

/// The octant index with the given upper-half flags, inverse of
/// `octant_dx`/`octant_dy`/`octant_dz`.
pub open spec fn octant_index(dx: int, dy: int, dz: int) -> int {
    if dx == 0 {
        if dy == 0 {
            if dz == 0 { 0 } else { 1 }
        } else {
            if dz == 0 { 2 } else { 4 }
        }
    } else {
        if dy == 0 {
            if dz == 0 { 3 } else { 5 }
        } else {
            if dz == 0 { 6 } else { 7 }
        }
    }
}

/// A position inside a cube of even edge lies in one of its 8 octants.
pub proof fn lemma_octant_cover(base: Vector, length: int, pos: Vector)
    requires
        length >= 2,
        length % 2 == 0,
        in_cube(base, length, pos),
    ensures
        exists|i: int| 0 <= i < 8 && #[trigger] in_octant(base, length, i, pos),
{
    let h = length / 2;
    assert(h + h == length);
    let dx: int = if pos.x >= base.x + h { 1 } else { 0 };
    let dy: int = if pos.y >= base.y + h { 1 } else { 0 };
    let dz: int = if pos.z >= base.z + h { 1 } else { 0 };
    let i = octant_index(dx, dy, dz);
    assert(octant_dx(i) == dx && octant_dy(i) == dy && octant_dz(i) == dz);
    assert(0 <= i < 8 && in_octant(base, length, i, pos));
}

/// Octants of one cube are pairwise disjoint.
pub proof fn lemma_octant_disjoint(base: Vector, length: int, i: int, j: int, pos: Vector)
    requires
        length >= 2,
        length % 2 == 0,
        0 <= i < 8,
        0 <= j < 8,
        i != j,
    ensures
        !(in_octant(base, length, i, pos) && in_octant(base, length, j, pos)),
{
    assert(octant_dx(i) != octant_dx(j) || octant_dy(i) != octant_dy(j) || octant_dz(i)
        != octant_dz(j));
}

/// A power of two at least 2 halves to a power of two.
pub proof fn lemma_pow2_half(n: int)
    requires
        is_pow2(n),
        n >= 2,
    ensures
        n % 2 == 0,
        n == 2 * (n / 2),
        is_pow2(n / 2),
        1 <= n / 2,
{
}

/// `charge_sum` and `moment_sum` distribute over concatenation.
pub proof fn lemma_sums_concat(a: Seq<Particle>, b: Seq<Particle>)
    ensures
        charge_sum(a + b) == charge_sum(a) + charge_sum(b),
        moment_sum(a + b).0 == moment_sum(a).0 + moment_sum(b).0,
        moment_sum(a + b).1 == moment_sum(a).1 + moment_sum(b).1,
        moment_sum(a + b).2 == moment_sum(a).2 + moment_sum(b).2,
    decreases b.len(),
{
    if b.len() == 0 {
        assert(a + b =~= a);
    } else {
        lemma_sums_concat(a, b.drop_last());
        assert((a + b).drop_last() =~= a + b.drop_last());
        assert((a + b).last() == b.last());
    }
}

/// Charge and moment sums are bounded by the length of the list when every
/// particle is in range.
pub proof fn lemma_sums_bound(s: Seq<Particle>)
    requires
        forall|i: int|
            0 <= i < s.len() ==> {
                &&& -MAX_CHARGE <= (#[trigger] s[i]).charge <= MAX_CHARGE
                &&& -MAX_COORD <= s[i].position.x <= MAX_COORD
                &&& -MAX_COORD <= s[i].position.y <= MAX_COORD
                &&& -MAX_COORD <= s[i].position.z <= MAX_COORD
            },
    ensures
        -(s.len() * MAX_CHARGE) <= charge_sum(s) <= s.len() * MAX_CHARGE,
        -(s.len() * MAX_CHARGE * MAX_COORD) <= moment_sum(s).0 <= s.len() * MAX_CHARGE * MAX_COORD,
        -(s.len() * MAX_CHARGE * MAX_COORD) <= moment_sum(s).1 <= s.len() * MAX_CHARGE * MAX_COORD,
        -(s.len() * MAX_CHARGE * MAX_COORD) <= moment_sum(s).2 <= s.len() * MAX_CHARGE * MAX_COORD,
    decreases s.len(),
{
    if s.len() > 0 {
        lemma_sums_bound(s.drop_last());
        let p = s.last();
        assert(-(MAX_CHARGE * MAX_COORD) <= p.charge * p.position.x <= MAX_CHARGE * MAX_COORD)
            by (nonlinear_arith)
            requires
                -MAX_CHARGE <= p.charge <= MAX_CHARGE,
                -MAX_COORD <= p.position.x <= MAX_COORD;
        assert(-(MAX_CHARGE * MAX_COORD) <= p.charge * p.position.y <= MAX_CHARGE * MAX_COORD)
            by (nonlinear_arith)
            requires
                -MAX_CHARGE <= p.charge <= MAX_CHARGE,
                -MAX_COORD <= p.position.y <= MAX_COORD;
        assert(-(MAX_CHARGE * MAX_COORD) <= p.charge * p.position.z <= MAX_CHARGE * MAX_COORD)
            by (nonlinear_arith)
            requires
                -MAX_CHARGE <= p.charge <= MAX_CHARGE,
                -MAX_COORD <= p.position.z <= MAX_COORD;
    }
}


/// Well-formedness of the first `n` children, read off pointwise.
pub proof fn lemma_wf_child(c: Cell, n: int, i: int)
    requires
        c.wf_children(n),
        n <= c.children.len(),
        0 <= i < n,
    ensures
        c.children[i].wf(),
        is_octant_of(c.children[i], c.base, c.length as int, i),
    decreases n,
{
    if i < n - 1 {
        lemma_wf_child(c, n - 1, i);
    }
}

/// `particles_upto(n)` depends only on the first `n` children.
pub proof fn lemma_upto_same(c1: Cell, c2: Cell, n: int)
    requires
        0 <= n <= c1.children.len(),
        n <= c2.children.len(),
        c1.children.len() <= 8,
        c2.children.len() <= 8,
        forall|i: int| 0 <= i < n ==> c1.children[i] == c2.children[i],
    ensures
        c1.particles_upto(n) == c2.particles_upto(n),
    decreases n,
{
    if n > 0 {
        lemma_upto_same(c1, c2, n - 1);
    }
}

/// `particles_from(k)` depends only on the children from `k` on.
pub proof fn lemma_from_same(c1: Cell, c2: Cell, k: int)
    requires
        0 <= k <= c1.children.len(),
        c1.children.len() == c2.children.len(),
        c1.children.len() <= 8,
        forall|i: int| k <= i < c1.children.len() ==> c1.children[i] == c2.children[i],
    ensures
        c1.particles_from(k) == c2.particles_from(k),
    decreases c1.children.len() - k,
{
    if k < c1.children.len() {
        lemma_from_same(c1, c2, k + 1);
    }
}

/// The full particle list splits at any child index `k`.
pub proof fn lemma_split_at(c: Cell, k: int)
    requires
        c.children.len() == 8,
        0 <= k <= 8,
    ensures
        c.particles_upto(8) == c.particles_upto(k) + c.particles_from(k),
    decreases 8 - k,
{
    if k == 8 {
        assert(c.particles_upto(8) + c.particles_from(8) =~= c.particles_upto(8));
    } else {
        lemma_split_at(c, k + 1);
        assert((c.particles_upto(k) + c.children[k].particles()) + c.particles_from(k + 1) =~= c
            .particles_upto(k) + (c.children[k].particles() + c.particles_from(k + 1)));
    }
}


impl Cell {
    /// Splits this cell's cube into its 8 octants, pushed as fresh empty
    /// children; every other field is left as it was.
    pub fn create_subcells(&mut self)
        requires
            old(self).children.len() == 0,
            old(self).length >= 2,
            is_pow2(old(self).length as int),
            -MAX_COORD <= old(self).base.x && old(self).base.x + old(self).length <= MAX_COORD,
            -MAX_COORD <= old(self).base.y && old(self).base.y + old(self).length <= MAX_COORD,
            -MAX_COORD <= old(self).base.z && old(self).base.z + old(self).length <= MAX_COORD,
        ensures
            final(self).children.len() == 8,
            final(self).wf_children(8),
            forall|i: int|
                0 <= i < 8 ==> {
                    &&& (#[trigger] final(self).children[i]).count == 0
                    &&& final(self).children[i].children.len() == 0
                    &&& final(self).children[i].particle is None
                    &&& final(self).children[i].particles() == Seq::<Particle>::empty()
                    &&& final(self).children[i].charge == 0
                    &&& final(self).children[i].moment == (Vector { x: 0, y: 0, z: 0 })
                    &&& final(self).children[i].center_of_charge == (Vector { x: 0, y: 0, z: 0 })
                },
            final(self).particles() == Seq::<Particle>::empty(),
            final(self).base == old(self).base,
            final(self).length == old(self).length,
            final(self).count == old(self).count,
            final(self).particle == old(self).particle,
            final(self).charge == old(self).charge,
            final(self).moment == old(self).moment,
            final(self).center_of_charge == old(self).center_of_charge,
    {
        proof {
            lemma_pow2_half(self.length as int);
        }
        let half: i64 = ((self.length as u64) / 2) as i64;
        let bx = self.base.x;
        let by = self.base.y;
        let bz = self.base.z;
        let c0 = Cell::new(half, Vector::new(bx, by, bz));
        let c1 = Cell::new(half, Vector::new(bx, by, bz + half));
        let c2 = Cell::new(half, Vector::new(bx, by + half, bz));
        let c3 = Cell::new(half, Vector::new(bx + half, by, bz));
        let c4 = Cell::new(half, Vector::new(bx, by + half, bz + half));
        let c5 = Cell::new(half, Vector::new(bx + half, by, bz + half));
        let c6 = Cell::new(half, Vector::new(bx + half, by + half, bz));
        let c7 = Cell::new(half, Vector::new(bx + half, by + half, bz + half));
        self.children.push(c0);
        self.children.push(c1);
        self.children.push(c2);
        self.children.push(c3);
        self.children.push(c4);
        self.children.push(c5);
        self.children.push(c6);
        self.children.push(c7);
        proof {
            reveal_with_fuel(Cell::wf_children, 9);
            reveal_with_fuel(Cell::particles_upto, 9);
            assert(self.children[0int] == c0);
            assert(self.children[1int] == c1);
            assert(self.children[2int] == c2);
            assert(self.children[3int] == c3);
            assert(self.children[4int] == c4);
            assert(self.children[5int] == c5);
            assert(self.children[6int] == c6);
            assert(self.children[7int] == c7);
            assert(self.wf_children(8));
            assert(self.particles_upto(0).len() == 0);
            assert(self.particles_upto(1).len() == 0);
            assert(self.particles_upto(2).len() == 0);
            assert(self.particles_upto(3).len() == 0);
            assert(self.particles_upto(4).len() == 0);
            assert(self.particles_upto(5).len() == 0);
            assert(self.particles_upto(6).len() == 0);
            assert(self.particles_upto(7).len() == 0);
            assert(self.particles_upto(8).len() == 0);
            assert(self.particles().len() == 0);
            assert(self.particles() =~= Seq::<Particle>::empty());
        }
    }
}


/// Two equal entries at distinct indices give that value multiplicity 2.
pub proof fn lemma_dup_count(s: Seq<Particle>, i: int, j: int)
    requires
        0 <= i < j < s.len(),
        s[i] == s[j],
    ensures
        s.to_multiset().count(s[i]) >= 2,
{
    let t = s.remove(j);
    assert(t[i] == s[i]);
    assert(t.contains(s[i]));
    assert(t.to_multiset() == s.to_multiset().remove(s[j]));
    assert(t.to_multiset().count(s[i]) > 0);
}

/// Transfers membership and position-distinctness across a one-particle
/// multiset insertion: if `s1` holds the particles of `s2` plus `p`, every
/// entry of `s1` is `p` or an entry of `s2`; and if `s2` is position-distinct
/// and nothing in `s2` sits at `p`'s position, `s1` is position-distinct.
pub proof fn lemma_particle_set_insert(s1: Seq<Particle>, s2: Seq<Particle>, p: Particle)
    requires
        s1.to_multiset() == s2.to_multiset().insert(p),
        forall|i: int, j: int|
            0 <= i < j < s2.len() ==> (#[trigger] s2[i]).position != (#[trigger] s2[j]).position,
        forall|i: int| 0 <= i < s2.len() ==> (#[trigger] s2[i]).position != p.position,
    ensures
        forall|i: int| 0 <= i < s1.len() ==> s1[i] == p || s2.contains(#[trigger] s1[i]),
        forall|i: int, j: int|
            0 <= i < j < s1.len() ==> (#[trigger] s1[i]).position != (#[trigger] s1[j]).position,
{
    assert forall|i: int| 0 <= i < s1.len() implies s1[i] == p || s2.contains(#[trigger] s1[i]) by {
        assert(s1.contains(s1[i]));
        assert(s1.to_multiset().count(s1[i]) > 0);
        if s1[i] != p {
            assert(s2.to_multiset().count(s1[i]) > 0);
        }
    }
    assert(s2.no_duplicates()) by {
        assert forall|i: int, j: int|
            0 <= i < s2.len() && 0 <= j < s2.len() && i != j implies s2[i] != s2[j] by {
            if i < j {
                assert(s2[i].position != s2[j].position);
            } else {
                assert(s2[j].position != s2[i].position);
            }
        }
    }
    s2.lemma_multiset_has_no_duplicates();
    assert(s2.to_multiset().count(p) == 0) by {
        if s2.to_multiset().count(p) > 0 {
            assert(s2.contains(p));
            let w = choose|w: int| 0 <= w < s2.len() && s2[w] == p;
            assert(s2[w].position == p.position);
        }
    }
    assert forall|i: int, j: int|
        0 <= i < j < s1.len() implies (#[trigger] s1[i]).position != (#[trigger] s1[j]).position by {
        if s1[i].position == s1[j].position {
            if s1[i] == s1[j] {
                lemma_dup_count(s1, i, j);
                assert(s1.to_multiset().count(s1[i]) >= 2);
                if s1[i] == p {
                    assert(s1.to_multiset().count(p) == s2.to_multiset().count(p) + 1);
                } else {
                    assert(s2.to_multiset().count(s1[i]) >= 2);
                    assert(s2.contains(s1[i]));
                }
            } else {
                assert(s1.contains(s1[i]) && s1.contains(s1[j]));
                assert(s1.to_multiset().count(s1[i]) > 0);
                assert(s1.to_multiset().count(s1[j]) > 0);
                if s1[i] != p && s1[j] != p {
                    assert(s2.to_multiset().count(s1[i]) > 0);
                    assert(s2.to_multiset().count(s1[j]) > 0);
                    assert(s2.contains(s1[i]) && s2.contains(s1[j]));
                    let a = choose|a: int| 0 <= a < s2.len() && s2[a] == s1[i];
                    let b = choose|b: int| 0 <= b < s2.len() && s2[b] == s1[j];
                    assert(a != b);
                    if a < b {
                        assert(s2[a].position != s2[b].position);
                    } else {
                        assert(s2[b].position != s2[a].position);
                    }
                } else if s1[i] == p {
                    assert(s2.to_multiset().count(s1[j]) > 0);
                    assert(s2.contains(s1[j]));
                    let b = choose|b: int| 0 <= b < s2.len() && s2[b] == s1[j];
                    assert(s2[b].position == p.position);
                } else {
                    assert(s2.to_multiset().count(s1[i]) > 0);
                    assert(s2.contains(s1[i]));
                    let a = choose|a: int| 0 <= a < s2.len() && s2[a] == s1[i];
                    assert(s2[a].position == p.position);
                }
            }
        }
    }
}

/// Concatenation views of a tree before and after one child is replaced.
pub proof fn lemma_child_update(c0: Cell, c1: Cell, k: int)
    requires
        c0.children.len() == 8,
        c1.children.len() == 8,
        0 <= k < 8,
        forall|i: int| 0 <= i < 8 && i != k ==> c0.children[i] == c1.children[i],
    ensures
        c0.particles_upto(8) == c0.particles_upto(k) + (c0.children[k].particles()
            + c0.particles_from(k + 1)),
        c1.particles_upto(8) == c0.particles_upto(k) + (c1.children[k].particles()
            + c0.particles_from(k + 1)),
{
    lemma_split_at(c0, k);
    lemma_split_at(c1, k);
    lemma_upto_same(c0, c1, k);
    lemma_from_same(c0, c1, k + 1);
    assert(c0.particles_from(k) == c0.children[k].particles() + c0.particles_from(k + 1));
    assert(c1.particles_from(k) == c1.children[k].particles() + c1.particles_from(k + 1));
}

/// Every particle among the first `n` children lies in the octant of the
/// child that stores it.
pub proof fn lemma_upto_in_octants(c: Cell, n: int, i: int)
    requires
        c.children.len() == 8,
        c.wf_children(8),
        0 <= n <= 8,
        0 <= i < c.particles_upto(n).len(),
    ensures
        exists|j: int|
            0 <= j < n && #[trigger] in_octant(c.base, c.length as int, j, c.particles_upto(n)[i].position),
    decreases n,
{
    let a = c.particles_upto(n - 1);
    let b = c.children[n - 1].particles();
    if i < a.len() {
        lemma_upto_in_octants(c, n - 1, i);
        let j = choose|j: int|
            0 <= j < n - 1 && #[trigger] in_octant(c.base, c.length as int, j, a[i].position);
        assert(in_octant(c.base, c.length as int, j, c.particles_upto(n)[i].position));
    } else {
        lemma_wf_child(c, 8, n - 1);
        assert(c.particles_upto(n)[i] == b[i - a.len()]);
        assert(c.children[n - 1].stores(b[i - a.len()]));
        assert(in_octant(c.base, c.length as int, n - 1, c.particles_upto(n)[i].position));
    }
}

/// Every particle among the children from `k` on lies in the octant of the
/// child that stores it.
pub proof fn lemma_from_in_octants(c: Cell, k: int, i: int)
    requires
        c.children.len() == 8,
        c.wf_children(8),
        0 <= k < 8,
        0 <= i < c.particles_from(k).len(),
    ensures
        exists|j: int|
            k <= j < 8 && #[trigger] in_octant(c.base, c.length as int, j, c.particles_from(k)[i].position),
    decreases 8 - k,
{
    let a = c.children[k].particles();
    let b = c.particles_from(k + 1);
    if i < a.len() {
        lemma_wf_child(c, 8, k);
        assert(c.particles_from(k)[i] == a[i]);
        assert(c.children[k].stores(a[i]));
        assert(in_octant(c.base, c.length as int, k, c.particles_from(k)[i].position));
    } else {
        lemma_from_in_octants(c, k + 1, i - a.len());
        let j = choose|j: int|
            k + 1 <= j < 8 && #[trigger] in_octant(c.base, c.length as int, j, b[i - a.len()].position);
        assert(c.particles_from(k)[i] == b[i - a.len()]);
        assert(in_octant(c.base, c.length as int, j, c.particles_from(k)[i].position));
    }
}

/// For a position inside octant `k`, only child `k` can hold a particle
/// there: parent occupancy coincides with child occupancy.
pub proof fn lemma_occupied_split(c: Cell, k: int, pos: Vector)
    requires
        c.children.len() == 8,
        c.wf_children(8),
        c.length >= 2,
        c.length as int % 2 == 0,
        0 <= k < 8,
        in_octant(c.base, c.length as int, k, pos),
    ensures
        c.occupied(pos) == c.children[k].occupied(pos),
{
    lemma_split_at(c, k);
    let a = c.particles_upto(k);
    let m = c.children[k].particles();
    let b = c.particles_from(k + 1);
    assert(c.particles_from(k) == m + b);
    assert(c.particles() == a + (m + b));
    if c.children[k].occupied(pos) {
        let i = choose|i: int| 0 <= i < m.len() && (#[trigger] m[i]).position == pos;
        assert(c.particles()[a.len() + i] == m[i]);
        assert(c.occupied(pos));
    }
    if c.occupied(pos) {
        let i = choose|i: int|
            0 <= i < c.particles().len() && (#[trigger] c.particles()[i]).position == pos;
        if i < a.len() {
            assert(c.particles()[i] == a[i]);
            lemma_upto_in_octants(c, k, i);
            let j = choose|j: int|
                0 <= j < k && #[trigger] in_octant(c.base, c.length as int, j, a[i].position);
            lemma_octant_disjoint(c.base, c.length as int, j, k, pos);
            assert(false);
        } else if i < a.len() + m.len() {
            assert(c.particles()[i] == m[i - a.len()]);
            assert(c.children[k].occupied(pos));
        } else {
            assert(c.particles()[i] == b[i - a.len() - m.len()]);
            assert(c.particles_from(k + 1)[i - a.len() - m.len()] == c.particles()[i]);
            lemma_from_in_octants(c, k + 1, i - a.len() - m.len());
            let j = choose|j: int|
                k + 1 <= j < 8 && #[trigger] in_octant(c.base, c.length as int, j, b[i - a.len() - m.len()].position);
            lemma_octant_disjoint(c.base, c.length as int, j, k, pos);
            assert(false);
        }
    }
}

/// `wf_children` reads only the children and the cube geometry.
pub proof fn lemma_wf_children_frame(c0: Cell, c1: Cell, n: int)
    requires
        c0.wf_children(n),
        c1.children == c0.children,
        c1.base == c0.base,
        c1.length == c0.length,
    ensures
        c1.wf_children(n),
    decreases n,
{
    if 0 < n <= c0.children.len() {
        lemma_wf_children_frame(c0, c1, n - 1);
    }
}

/// Replacing child `k` by a well-formed cell over the same octant keeps the
/// children well-formed.
pub proof fn lemma_wf_children_update(c0: Cell, c1: Cell, k: int, n: int)
    requires
        c0.wf_children(n),
        c0.children.len() == 8,
        c1.children.len() == 8,
        c1.base == c0.base,
        c1.length == c0.length,
        0 <= k < 8,
        0 <= n <= 8,
        forall|i: int| 0 <= i < 8 && i != k ==> c1.children[i] == c0.children[i],
        c1.children[k].wf(),
        c1.children[k].base == c0.children[k].base,
        c1.children[k].length == c0.children[k].length,
    ensures
        c1.wf_children(n),
    decreases n,
{
    if n > 0 {
        lemma_wf_children_update(c0, c1, k, n - 1);
    }
}


impl Cell {
    /// Index of the child octant whose half-open cube contains `pos`.
    fn find_child(&self, pos: &Vector) -> (k: usize)
        requires
            self.children.len() == 8,
            self.wf_children(8),
            self.length >= 2,
            self.length as int % 2 == 0,
            in_cube(self.base, self.length as int, *pos),
        ensures
            k < 8,
            in_octant(self.base, self.length as int, k as int, *pos),
            in_cube(self.children[k as int].base, self.children[k as int].length as int, *pos),
    {
        let mut k: usize = 0;
        while k < 7
            invariant
                self.children.len() == 8,
                self.wf_children(8),
                self.length >= 2,
                self.length as int % 2 == 0,
                in_cube(self.base, self.length as int, *pos),
                k <= 7,
                forall|j: int| 0 <= j < k ==> !in_octant(self.base, self.length as int, j, *pos),
            decreases 7 - k,
        {
            proof {
                lemma_wf_child(*self, 8, k as int);
            }
            if self.children[k].is_inside(pos) {
                return k;
            }
            k = k + 1;
        }
        proof {
            lemma_wf_child(*self, 8, 7);
            lemma_octant_cover(self.base, self.length as int, *pos);
            let i = choose|i: int|
                0 <= i < 8 && #[trigger] in_octant(self.base, self.length as int, i, *pos);
            assert(i == 7);
        }
        7
    }

    /// Recursive insertion on an owned subtree. Returns the updated subtree
    /// and what happened to the particle.
    #[verifier::rlimit(100)]
    fn insert_rec(cell: Cell, p: Particle) -> (res: (Cell, InsertOutcome))
        requires
            cell.wf(),
            cell.count < MAX_COUNT,
            -MAX_CHARGE <= p.charge <= MAX_CHARGE,
        ensures
            res.0.wf(),
            res.0.base == cell.base,
            res.0.length == cell.length,
            res.1 == (if !in_cube(cell.base, cell.length as int, p.position) {
                InsertOutcome::OutOfBounds
            } else if cell.occupied(p.position) {
                InsertOutcome::Coincident
            } else {
                InsertOutcome::Stored
            }),
            res.1 == InsertOutcome::Stored ==> {
                &&& res.0.particles().to_multiset() == cell.particles().to_multiset().insert(p)
                &&& res.0.count == cell.count + 1
                &&& charge_sum(res.0.particles()) == charge_sum(cell.particles()) + p.charge
                &&& moment_sum(res.0.particles()).0 == moment_sum(cell.particles()).0 + p.charge
                    * p.position.x
                &&& moment_sum(res.0.particles()).1 == moment_sum(cell.particles()).1 + p.charge
                    * p.position.y
                &&& moment_sum(res.0.particles()).2 == moment_sum(cell.particles()).2 + p.charge
                    * p.position.z
            },
            res.1 != InsertOutcome::Stored ==> {
                &&& res.0.particles() == cell.particles()
                &&& res.0.count == cell.count
            },
            res.0.charge == cell.charge,
            res.0.moment == cell.moment,
            res.0.center_of_charge == cell.center_of_charge,
        decreases cell.length,
    {
        let ghost orig = cell;
        let mut cell = cell;
        if !cell.is_inside(&p.position) {
            return (cell, InsertOutcome::OutOfBounds);
        }
        if cell.count == 0 {
            cell.particle = Some(p);
            cell.count = 1;
            proof {
                assert(orig.particles() =~= Seq::<Particle>::empty());
                assert(cell.particles() =~= Seq::<Particle>::empty().push(p));
                assert(cell.particles().to_multiset() == orig.particles().to_multiset().insert(p));
                assert(cell.particles().drop_last() =~= Seq::<Particle>::empty());
                assert(charge_sum(Seq::<Particle>::empty()) == 0);
                assert(moment_sum(Seq::<Particle>::empty()) == (0int, 0int, 0int));
                assert(charge_sum(cell.particles()) == p.charge);
                assert(moment_sum(cell.particles()).0 == p.charge * p.position.x);
                assert(moment_sum(cell.particles()).1 == p.charge * p.position.y);
                assert(moment_sum(cell.particles()).2 == p.charge * p.position.z);
                assert(charge_sum(orig.particles()) == 0);
            }
            (cell, InsertOutcome::Stored)
        } else if cell.count == 1 {
            let q = cell.particle.unwrap();
            proof {
                assert(orig.particles() == seq![q]);
                assert(orig.particles()[0] == q);
                assert(orig.stores(q));
            }
            if q.position == p.position {
                proof {
                    assert(orig.particles()[0].position == p.position);
                    assert(orig.occupied(p.position));
                }
                return (cell, InsertOutcome::Coincident);
            }
            proof {
                assert(!orig.occupied(p.position)) by {
                    if orig.occupied(p.position) {
                        let i = choose|i: int|
                            0 <= i < orig.particles().len() && (#[trigger] orig.particles()[i]).position
                                == p.position;
                        assert(orig.particles()[i] == q);
                    }
                }
                assert(cell.length >= 2) by {
                    if cell.length < 2 {
                        assert(cell.length == 1);
                        assert(q.position.x == cell.base.x && p.position.x == cell.base.x);
                        assert(q.position.y == cell.base.y && p.position.y == cell.base.y);
                        assert(q.position.z == cell.base.z && p.position.z == cell.base.z);
                    }
                }
                lemma_pow2_half(cell.length as int);
            }
            cell.create_subcells();
            let ghost sta = cell;
            cell.particle = None;
            let ghost st0 = cell;
            proof {
                lemma_wf_children_frame(sta, st0, 8);
                lemma_upto_same(sta, st0, 8);
                assert(st0.particles() == Seq::<Particle>::empty());
            }
            let kq = cell.find_child(&q.position);
            let cq = cell.children.remove(kq);
            proof {
                lemma_wf_child(st0, 8, kq as int);
            }
            let (cq2, outq) = Self::insert_rec(cq, q);
            cell.children.insert(kq, cq2);
            let ghost st1 = cell;
            proof {
                assert(st1.children@ =~= st0.children@.update(kq as int, cq2));
                assert(outq == InsertOutcome::Stored);
                lemma_wf_children_update(st0, st1, kq as int, 8);
                lemma_child_update(st0, st1, kq as int);
                lemma_sums_concat(st0.particles_upto(kq as int), st0.children[kq as int].particles()
                    + st0.particles_from(kq as int + 1));
                lemma_sums_concat(st0.children[kq as int].particles(), st0.particles_from(
                    kq as int + 1));
                lemma_sums_concat(st1.particles_upto(kq as int), st1.children[kq as int].particles()
                    + st1.particles_from(kq as int + 1));
                lemma_sums_concat(st0.particles_upto(kq as int), cq2.particles()
                    + st0.particles_from(kq as int + 1));
                lemma_sums_concat(cq2.particles(), st0.particles_from(kq as int + 1));
                assert(st1.particles().len() == 1) by {
                    assert(st0.particles_upto(8).len() == 0);
                    assert(st0.particles_upto(kq as int).len() == 0 && st0.children[kq as int].particles().len()
                        == 0 && st0.particles_from(kq as int + 1).len() == 0);
                    assert(cq2.particles().len() == 1);
                }
                assert(st1.particles()[0] == q) by {
                    assert(st1.particles() == st0.particles_upto(kq as int) + (cq2.particles()
                        + st0.particles_from(kq as int + 1)));
                    assert(cq2.particles().to_multiset().count(q) == 1);
                    assert(cq2.particles().len() == 1);
                    assert(cq2.particles().contains(cq2.particles()[0]));
                    assert(cq2.particles().to_multiset().count(cq2.particles()[0]) > 0);
                    assert(cq2.particles()[0] == q);
                    assert(st1.particles()[0] == cq2.particles()[0]);
                }
            }
            let kp = cell.find_child(&p.position);
            let cp = cell.children.remove(kp);
            proof {
                lemma_wf_child(st1, 8, kp as int);
                assert(!cp.occupied(p.position)) by {
                    lemma_occupied_split(st1, kp as int, p.position) 
                }
            }
            let (cp2, outp) = Self::insert_rec(cp, p);
            cell.children.insert(kp, cp2);
            cell.count = 2;
            let ghost st2 = cell;
            proof {
                assert(st2.children@ =~= st1.children@.update(kp as int, cp2));
                assert(outp == InsertOutcome::Stored);
                lemma_wf_children_update(st1, st2, kp as int, 8);
                lemma_child_update(st1, st2, kp as int);
                lemma_sums_concat(st1.particles_upto(kp as int), st1.children[kp as int].particles()
                    + st1.particles_from(kp as int + 1));
                lemma_sums_concat(st1.children[kp as int].particles(), st1.particles_from(
                    kp as int + 1));
                lemma_sums_concat(st1.particles_upto(kp as int), cp2.particles()
                    + st1.particles_from(kp as int + 1));
                lemma_sums_concat(cp2.particles(), st1.particles_from(kp as int + 1));
                assert(st2.particles().len() == 2);
                assert(charge_sum(st2.particles()) == charge_sum(st1.particles()) + p.charge) by {
                    assert(charge_sum(st1.particles()) == charge_sum(st1.particles_upto(kp as int))
                        + charge_sum(st1.children[kp as int].particles()) + charge_sum(
                        st1.particles_from(kp as int + 1)));
                    assert(charge_sum(st2.particles()) == charge_sum(st1.particles_upto(kp as int))
                        + charge_sum(cp2.particles()) + charge_sum(st1.particles_from(
                        kp as int + 1)));
                }
                assert(charge_sum(st1.particles()) == q.charge) by {
                    assert(st1.particles() =~= seq![q]);
                    assert(seq![q].drop_last() =~= Seq::<Particle>::empty());
                }
                assert(charge_sum(orig.particles()) == q.charge) by {
                    assert(orig.particles().drop_last() =~= Seq::<Particle>::empty());
                }
                assert(st2.particles().to_multiset() == orig.particles().to_multiset().insert(p))
                    by {
                    assert(st1.particles() =~= seq![q]);
                    assert(orig.particles() =~= seq![q]);
                    let au = st1.particles_upto(kp as int);
                    let bu = st1.particles_from(kp as int + 1);
                    vstd::seq_lib::lemma_multiset_commutative(au, st1.children[kp as int].particles()
                        + bu);
                    vstd::seq_lib::lemma_multiset_commutative(st1.children[kp as int].particles(), bu);
                    vstd::seq_lib::lemma_multiset_commutative(au, cp2.particles() + bu);
                    vstd::seq_lib::lemma_multiset_commutative(cp2.particles(), bu);
                    assert(cp2.particles().to_multiset() == st1.children[kp as int].particles().to_multiset().insert(
                        p));
                    assert(st2.particles().to_multiset() =~= st1.particles().to_multiset().insert(
                        p));
                }
                assert(moment_sum(st1.particles()).0 == moment_sum(orig.particles()).0);
                assert(moment_sum(st1.particles()).1 == moment_sum(orig.particles()).1);
                assert(moment_sum(st1.particles()).2 == moment_sum(orig.particles()).2);
                assert(charge_sum(st2.particles()) == charge_sum(orig.particles()) + p.charge);
                assert(moment_sum(st2.particles()).0 == moment_sum(orig.particles()).0 + p.charge
                    * p.position.x);
                assert(moment_sum(st2.particles()).1 == moment_sum(orig.particles()).1 + p.charge
                    * p.position.y);
                assert(moment_sum(st2.particles()).2 == moment_sum(orig.particles()).2 + p.charge
                    * p.position.z);
                assert(st2.wf()) by {
                    lemma_particle_set_insert(st2.particles(), orig.particles(), p);
                    assert forall|i: int| 0 <= i < st2.particles().len() implies st2.stores(
                        #[trigger] st2.particles()[i]) by {
                        if st2.particles()[i] != p {
                            assert(orig.particles().contains(st2.particles()[i]));
                            let w = choose|w: int|
                                0 <= w < orig.particles().len() && orig.particles()[w]
                                    == st2.particles()[i];
                        }
                    }
                }
            }
            (cell, InsertOutcome::Stored)
        } else {
            proof {
                assert(cell.children.len() == 8);
                lemma_pow2_half(cell.length as int);
            }
            let k = cell.find_child(&p.position);
            let ghost st0 = cell;
            proof {
                lemma_wf_child(st0, 8, k as int);
                lemma_occupied_split(st0, k as int, p.position);
                lemma_child_update(st0, st0, k as int);
                lemma_sums_concat(st0.particles_upto(k as int), st0.children[k as int].particles()
                    + st0.particles_from(k as int + 1));
                lemma_sums_concat(st0.children[k as int].particles(), st0.particles_from(
                    k as int + 1));
                assert(st0.children[k as int].particles().len() <= st0.particles().len());
            }
            let c = cell.children.remove(k);
            let (c2, out) = Self::insert_rec(c, p);
            cell.children.insert(k, c2);
            if matches!(out, InsertOutcome::Stored) {
                cell.count = cell.count + 1;
            }
            let ghost st1 = cell;
            proof {
                assert(st1.children@ =~= st0.children@.update(k as int, c2));
                lemma_wf_children_update(st0, st1, k as int, 8);
                lemma_child_update(st0, st1, k as int);
                lemma_sums_concat(st0.particles_upto(k as int), c2.particles()
                    + st0.particles_from(k as int + 1));
                lemma_sums_concat(c2.particles(), st0.particles_from(k as int + 1));
                let au = st0.particles_upto(k as int);
                let bu = st0.particles_from(k as int + 1);
                let m0 = st0.children[k as int].particles();
                if out == InsertOutcome::Stored {
                    vstd::seq_lib::lemma_multiset_commutative(au, m0 + bu);
                    vstd::seq_lib::lemma_multiset_commutative(m0, bu);
                    vstd::seq_lib::lemma_multiset_commutative(au, c2.particles() + bu);
                    vstd::seq_lib::lemma_multiset_commutative(c2.particles(), bu);
                    assert(st1.particles().to_multiset() =~= st0.particles().to_multiset().insert(
                        p));
                    assert(charge_sum(st1.particles()) == charge_sum(st0.particles()) + p.charge);
                    assert(moment_sum(st1.particles()).0 == moment_sum(st0.particles()).0
                        + p.charge * p.position.x);
                    assert(moment_sum(st1.particles()).1 == moment_sum(st0.particles()).1
                        + p.charge * p.position.y);
                    assert(moment_sum(st1.particles()).2 == moment_sum(st0.particles()).2
                        + p.charge * p.position.z);
                    assert(st1.count == st0.count + 1);
                    assert(st1.wf()) by {
                        lemma_particle_set_insert(st1.particles(), st0.particles(), p);
                        assert forall|i: int| 0 <= i < st1.particles().len() implies st1.stores(
                            #[trigger] st1.particles()[i]) by {
                            if st1.particles()[i] != p {
                                assert(st0.particles().contains(st1.particles()[i]));
                                let w = choose|w: int|
                                    0 <= w < st0.particles().len() && st0.particles()[w]
                                        == st1.particles()[i];
                            }
                        }
                    }
                } else {
                    assert(st1.particles() =~= st0.particles());
                    assert(st1.wf()) by {
                        assert(st1.count == st0.count);
                        assert(st1.particles().len() == st0.particles().len());
                    }
                }
            }
            (cell, out)
        }
    }
}


impl Cell {
    /// Inserts one particle. A particle outside the cube or at an
    /// already-occupied position is rejected, the tree left as it was, and
    /// the outcome reports which happened; a stored particle grows `count`
    /// by one.
    pub fn insert_particle(&mut self, particle: &Particle) -> (r: InsertOutcome)
        requires
            old(self).wf(),
            old(self).count < MAX_COUNT,
            -MAX_CHARGE <= particle.charge <= MAX_CHARGE,
        ensures
            final(self).wf(),
            final(self).base == old(self).base,
            final(self).length == old(self).length,
            r == (if !in_cube(old(self).base, old(self).length as int, particle.position) {
                InsertOutcome::OutOfBounds
            } else if old(self).occupied(particle.position) {
                InsertOutcome::Coincident
            } else {
                InsertOutcome::Stored
            }),
            r == InsertOutcome::Stored ==> {
                &&& final(self).particles().to_multiset() == old(self).particles().to_multiset().insert(*particle)
                &&& final(self).count == old(self).count + 1
                &&& charge_sum(final(self).particles()) == charge_sum(old(self).particles())
                    + particle.charge
                &&& moment_sum(final(self).particles()).0 == moment_sum(old(self).particles()).0
                    + particle.charge * particle.position.x
                &&& moment_sum(final(self).particles()).1 == moment_sum(old(self).particles()).1
                    + particle.charge * particle.position.y
                &&& moment_sum(final(self).particles()).2 == moment_sum(old(self).particles()).2
                    + particle.charge * particle.position.z
            },
            r != InsertOutcome::Stored ==> {
                &&& final(self).particles() == old(self).particles()
                &&& final(self).count == old(self).count
            },
            final(self).charge == old(self).charge,
            final(self).moment == old(self).moment,
            final(self).center_of_charge == old(self).center_of_charge,
    {
        let mut tmp = Cell::new(1, Vector::new(0, 0, 0));
        core::mem::swap(self, &mut tmp);
        let (c, out) = Cell::insert_rec(tmp, *particle);
        *self = c;
        out
    }

    /// Inserts every particle of `particles` in order. Whenever the
    /// positions are pairwise distinct and none is already occupied, exactly
    /// the in-bounds particles are stored: the tree then holds the old
    /// particles plus that subsequence, and its count, total charge and
    /// charge moment grow by exactly their contribution. The aggregation
    /// fields of the root are never written here.
    pub fn tree_construction(&mut self, particles: &Vec<Particle>)
        requires
            old(self).wf(),
            old(self).count + particles.len() <= MAX_COUNT,
            forall|i: int|
                0 <= i < particles.len() ==> -MAX_CHARGE <= (#[trigger] particles[i]).charge
                    <= MAX_CHARGE,
        ensures
            final(self).wf(),
            final(self).base == old(self).base,
            final(self).length == old(self).length,
            final(self).count <= old(self).count + particles.len(),
            final(self).charge == old(self).charge,
            final(self).moment == old(self).moment,
            final(self).center_of_charge == old(self).center_of_charge,
            (clean_input(*old(self), particles@)) ==> ({
                let flt = in_bounds_filter(old(self).base, old(self).length as int, particles@);
                &&& final(self).count == old(self).count + flt.len()
                &&& final(self).particles().to_multiset() == old(self).particles().to_multiset().add(
                    flt.to_multiset())
                &&& charge_sum(final(self).particles()) == charge_sum(old(self).particles())
                    + charge_sum(flt)
                &&& moment_sum(final(self).particles()).0 == moment_sum(old(self).particles()).0
                    + moment_sum(flt).0
                &&& moment_sum(final(self).particles()).1 == moment_sum(old(self).particles()).1
                    + moment_sum(flt).1
                &&& moment_sum(final(self).particles()).2 == moment_sum(old(self).particles()).2
                    + moment_sum(flt).2
            }),
    {
        let ghost orig = *self;
        let ghost ps = particles@;
        let n = particles.len();
        let mut j: usize = 0;
        while j < n
            invariant
                self.wf(),
                self.base == orig.base,
                self.length == orig.length,
                self.charge == orig.charge,
                self.moment == orig.moment,
                self.center_of_charge == orig.center_of_charge,
                n == ps.len(),
                particles@ == ps,
                0 <= j <= n,
                orig.count + ps.len() <= MAX_COUNT,
                forall|i: int|
                    0 <= i < ps.len() ==> -MAX_CHARGE <= (#[trigger] ps[i]).charge <= MAX_CHARGE,
                self.count <= orig.count + j,
                clean_input(orig, ps) ==> ({
                    let flt = in_bounds_filter(orig.base, orig.length as int, ps.subrange(
                        0,
                        j as int,
                    ));
                    &&& self.count == orig.count + flt.len()
                    &&& self.particles().to_multiset() == orig.particles().to_multiset().add(
                        flt.to_multiset())
                    &&& charge_sum(self.particles()) == charge_sum(orig.particles()) + charge_sum(
                        flt)
                    &&& moment_sum(self.particles()).0 == moment_sum(orig.particles()).0
                        + moment_sum(flt).0
                    &&& moment_sum(self.particles()).1 == moment_sum(orig.particles()).1
                        + moment_sum(flt).1
                    &&& moment_sum(self.particles()).2 == moment_sum(orig.particles()).2
                        + moment_sum(flt).2
                }),
            decreases n - j,
        {
            let ghost pre = *self;
            let outcome = self.insert_particle(&particles[j]);
            proof {
                let jj = j as int;
                let pj = ps[jj];
                let flt = in_bounds_filter(orig.base, orig.length as int, ps.subrange(0, jj));
                let flt1 = in_bounds_filter(orig.base, orig.length as int, ps.subrange(0, jj + 1));
                assert(ps.subrange(0, jj + 1).drop_last() =~= ps.subrange(0, jj));
                assert(ps.subrange(0, jj + 1).last() == pj);
                assert(flt1 == (if in_cube(orig.base, orig.length as int, pj.position) {
                    flt.push(pj)
                } else {
                    flt
                }));
                if clean_input(orig, ps) {
                    if in_cube(orig.base, orig.length as int, pj.position) {
                        assert(!pre.occupied(pj.position)) by {
                            if pre.occupied(pj.position) {
                                let w = choose|w: int|
                                    0 <= w < pre.particles().len() && (#[trigger] pre.particles()[w]).position
                                        == pj.position;
                                let e = pre.particles()[w];
                                assert(pre.particles().contains(e));
                                assert(pre.particles().to_multiset().count(e) > 0);
                                assert(orig.particles().to_multiset().count(e) > 0
                                    || flt.to_multiset().count(e) > 0);
                                if orig.particles().to_multiset().count(e) > 0 {
                                    assert(orig.particles().contains(e));
                                    let v = choose|v: int|
                                        0 <= v < orig.particles().len() && orig.particles()[v]
                                            == e;
                                    assert(orig.particles()[v].position == pj.position);
                                } else {
                                    assert(flt.contains(e));
                                    lemma_filter_contains(orig.base, orig.length as int,
                                        ps.subrange(0, jj), e);
                                    let v = choose|v: int|
                                        0 <= v < jj && ps.subrange(0, jj)[v] == e;
                                    assert(ps[v].position == ps[jj].position);
                                }
                            }
                        }
                        assert(outcome == InsertOutcome::Stored);
                        assert(flt1 =~= flt.push(pj));
                        assert(flt1.to_multiset() =~= flt.to_multiset().insert(pj));
                        assert(flt1.drop_last() =~= flt);
                        assert(self.particles().to_multiset() =~= orig.particles().to_multiset().add(
                            flt1.to_multiset()));
                    } else {
                        assert(outcome == InsertOutcome::OutOfBounds);
                        assert(flt1 == flt);
                    }
                }
            }
            j = j + 1;
        }
        proof {
            if clean_input(orig, ps) {
                assert(ps.subrange(0, ps.len() as int) =~= ps);
            }
        }
    }
}

/// The inputs under which construction's effect is pinned exactly: pairwise
/// distinct positions, none already occupied. In-bounds particles are then
/// stored and out-of-bounds ones rejected, each reported by its outcome.
pub open spec fn clean_input(root: Cell, ps: Seq<Particle>) -> bool {
    &&& forall|i: int, j: int|
        0 <= i < j < ps.len() ==> (#[trigger] ps[i]).position != (#[trigger] ps[j]).position
    &&& forall|i: int| 0 <= i < ps.len() ==> !root.occupied((#[trigger] ps[i]).position)
}

/// The subsequence of `ps` whose positions lie inside the cube, in order.
pub open spec fn in_bounds_filter(base: Vector, length: int, ps: Seq<Particle>) -> Seq<Particle>
    decreases ps.len(),
{
    if ps.len() == 0 {
        Seq::empty()
    } else {
        let rest = in_bounds_filter(base, length, ps.drop_last());
        if in_cube(base, length, ps.last().position) {
            rest.push(ps.last())
        } else {
            rest
        }
    }
}

/// Whatever the filter keeps came from `ps`, and lies inside the cube.
pub proof fn lemma_filter_contains(base: Vector, length: int, ps: Seq<Particle>, e: Particle)
    requires
        in_bounds_filter(base, length, ps).contains(e),
    ensures
        ps.contains(e),
        in_cube(base, length, e.position),
    decreases ps.len(),
{
    let flt = in_bounds_filter(base, length, ps);
    let rest = in_bounds_filter(base, length, ps.drop_last());
    assert(ps.len() > 0);
    let i = choose|i: int| 0 <= i < flt.len() && flt[i] == e;
    if in_cube(base, length, ps.last().position) && i == rest.len() {
        assert(e == ps.last());
        assert(ps[ps.len() - 1] == e);
    } else {
        assert(rest[i] == e);
        assert(rest.contains(e));
        lemma_filter_contains(base, length, ps.drop_last(), e);
        let v = choose|v: int| 0 <= v < ps.drop_last().len() && ps.drop_last()[v] == e;
        assert(ps[v] == e);
    }
}

/// With every position inside the cube, the filter keeps everything.
pub proof fn lemma_filter_all_inside(base: Vector, length: int, ps: Seq<Particle>)
    requires
        forall|i: int| 0 <= i < ps.len() ==> in_cube(base, length, (#[trigger] ps[i]).position),
    ensures
        in_bounds_filter(base, length, ps) == ps,
    decreases ps.len(),
{
    if ps.len() > 0 {
        lemma_filter_all_inside(base, length, ps.drop_last());
        assert(in_bounds_filter(base, length, ps) =~= ps.drop_last().push(ps.last()));
        assert(ps.drop_last().push(ps.last()) =~= ps);
    }
}


impl Cell {
    /// The aggregation fields are filled in correctly at every node: a
    /// leaf's charge, moment and center come from its particle (zero for an
    /// empty cell), and an interior node's are the total charge, the exact
    /// charge moment, and the moment divided by the total charge — the
    /// charge-weighted centroid, rounded toward zero once, or the zero
    /// vector when the total charge is zero.
    pub open spec fn aggregated(self) -> bool
        decreases self, 9int,
    {
        if self.children.len() == 0 {
            match self.particle {
                Option::None => {
                    &&& self.charge == 0
                    &&& self.moment == (Vector { x: 0, y: 0, z: 0 })
                    &&& self.center_of_charge == (Vector { x: 0, y: 0, z: 0 })
                },
                Option::Some(p) => {
                    &&& self.charge == p.charge
                    &&& self.moment.x == p.charge * p.position.x
                    &&& self.moment.y == p.charge * p.position.y
                    &&& self.moment.z == p.charge * p.position.z
                    &&& self.center_of_charge == p.position
                },
            }
        } else {
            &&& self.aggregated_children(8)
            &&& self.charge == charge_sum(self.particles())
            &&& self.moment.x == moment_sum(self.particles()).0
            &&& self.moment.y == moment_sum(self.particles()).1
            &&& self.moment.z == moment_sum(self.particles()).2
            &&& (self.charge == 0 ==> self.center_of_charge == (Vector { x: 0, y: 0, z: 0 }))
            &&& (self.charge != 0 ==> {
                &&& self.center_of_charge.x == divq(self.moment.x as int, self.charge as int)
                &&& self.center_of_charge.y == divq(self.moment.y as int, self.charge as int)
                &&& self.center_of_charge.z == divq(self.moment.z as int, self.charge as int)
            })
        }
    }

    /// The first `n` children are aggregated.
    pub open spec fn aggregated_children(self, n: int) -> bool
        decreases self, n,
    {
        if n <= 0 || n > self.children.len() {
            true
        } else {
            self.aggregated_children(n - 1) && self.children[n - 1].aggregated()
        }
    }

    /// `other` is the same tree with possibly different aggregation fields:
    /// same cube, same count, same leaf particle, and children pairwise of
    /// the same shape.
    pub open spec fn same_shape(self, other: Cell) -> bool
        decreases self, 9int,
    {
        &&& other.base == self.base
        &&& other.length == self.length
        &&& other.count == self.count
        &&& other.particle == self.particle
        &&& other.children.len() == self.children.len()
        &&& self.same_shape_children(other, 8)
    }

    /// The first `n` children pairwise have the same shape.
    pub open spec fn same_shape_children(self, other: Cell, n: int) -> bool
        decreases self, n,
    {
        if n <= 0 || n > self.children.len() || other.children.len() != self.children.len() {
            true
        } else {
            &&& self.same_shape_children(other, n - 1)
            &&& self.children[n - 1].same_shape(other.children[n - 1])
        }
    }
}

/// Cells of the same shape hold the same particles.
pub proof fn lemma_same_shape_particles(a: Cell, b: Cell)
    requires
        a.same_shape(b),
    ensures
        b.particles() == a.particles(),
    decreases a, 9int,
{
    if a.children.len() == 0 {
    } else {
        lemma_same_shape_particles_upto(a, b, 8);
    }
}

/// The particle lists of the first `n` children agree for same-shaped cells.
pub proof fn lemma_same_shape_particles_upto(a: Cell, b: Cell, n: int)
    requires
        a.same_shape_children(b, n),
        b.children.len() == a.children.len(),
        n <= 8,
    ensures
        b.particles_upto(n) == a.particles_upto(n),
    decreases a, n,
{
    if 0 < n <= a.children.len() {
        lemma_same_shape_particles_upto(a, b, n - 1);
        lemma_same_shape_particles(a.children[n - 1], b.children[n - 1]);
    }
}

/// Pointwise view of `aggregated_children`.
pub proof fn lemma_aggregated_child(c: Cell, n: int, i: int)
    requires
        c.aggregated_children(n),
        n <= c.children.len(),
        0 <= i < n,
    ensures
        c.children[i].aggregated(),
    decreases n,
{
    if i < n - 1 {
        lemma_aggregated_child(c, n - 1, i);
    }
}


/// Builds `aggregated_children` from pointwise aggregation of the children.
pub proof fn lemma_aggregated_children_build(c: Cell, n: int)
    requires
        n <= c.children.len(),
        forall|j: int| 0 <= j < n ==> (#[trigger] c.children[j]).aggregated(),
    ensures
        c.aggregated_children(n),
    decreases n,
{
    if n > 0 {
        lemma_aggregated_children_build(c, n - 1);
    }
}

/// Builds `same_shape_children` from pointwise shape equality.
pub proof fn lemma_same_shape_children_build(a: Cell, b: Cell, n: int)
    requires
        a.children.len() == b.children.len(),
        n <= a.children.len(),
        forall|j: int| 0 <= j < n ==> (#[trigger] a.children[j]).same_shape(b.children[j]),
    ensures
        a.same_shape_children(b, n),
    decreases n,
{
    if n > 0 {
        lemma_same_shape_children_build(a, b, n - 1);
    }
}

/// Well-formedness and the particle list ignore the aggregation fields.
pub proof fn lemma_wf_frame(c0: Cell, c1: Cell)
    requires
        c0.wf(),
        c1.children == c0.children,
        c1.base == c0.base,
        c1.length == c0.length,
        c1.count == c0.count,
        c1.particle == c0.particle,
        c1.count == 0 ==> c1.charge == 0 && c1.moment == (Vector { x: 0, y: 0, z: 0 })
            && c1.center_of_charge == (Vector { x: 0, y: 0, z: 0 }),
    ensures
        c1.wf(),
        c1.particles() == c0.particles(),
{
    if c0.children.len() == 0 {
    } else {
        lemma_upto_same(c0, c1, 8);
        lemma_wf_children_frame(c0, c1, 8);
    }
}

impl Cell {
    /// Post-order aggregation over an owned subtree.
    #[verifier::rlimit(100)]
    fn agg_rec(cell: Cell) -> (res: Cell)
        requires
            cell.wf(),
        ensures
            res.wf(),
            res.aggregated(),
            cell.same_shape(res),
            res.particles() == cell.particles(),
            res.charge == charge_sum(cell.particles()),
            res.moment.x == moment_sum(cell.particles()).0,
            res.moment.y == moment_sum(cell.particles()).1,
            res.moment.z == moment_sum(cell.particles()).2,
        decreases cell.length,
    {
        let ghost orig = cell;
        let mut cell = cell;
        if cell.count == 0 {
            cell.charge = 0;
            cell.moment = Vector::new(0, 0, 0);
            cell.center_of_charge = Vector::new(0, 0, 0);
            proof {
                lemma_wf_frame(orig, cell);
                assert(charge_sum(Seq::<Particle>::empty()) == 0);
            }
            cell
        } else if cell.count == 1 {
            let p = cell.particle.unwrap();
            proof {
                assert(orig.particles() == seq![p]);
                assert(orig.particles()[0] == p);
                assert(orig.stores(p));
                assert(-(MAX_CHARGE * MAX_COORD) <= p.charge * p.position.x <= MAX_CHARGE
                    * MAX_COORD) by (nonlinear_arith)
                    requires
                        -MAX_CHARGE <= p.charge <= MAX_CHARGE,
                        -MAX_COORD <= p.position.x <= MAX_COORD;
                assert(-(MAX_CHARGE * MAX_COORD) <= p.charge * p.position.y <= MAX_CHARGE
                    * MAX_COORD) by (nonlinear_arith)
                    requires
                        -MAX_CHARGE <= p.charge <= MAX_CHARGE,
                        -MAX_COORD <= p.position.y <= MAX_COORD;
                assert(-(MAX_CHARGE * MAX_COORD) <= p.charge * p.position.z <= MAX_CHARGE
                    * MAX_COORD) by (nonlinear_arith)
                    requires
                        -MAX_CHARGE <= p.charge <= MAX_CHARGE,
                        -MAX_COORD <= p.position.z <= MAX_COORD;
            }
            cell.charge = p.charge;
            cell.moment = Vector::new(p.charge * p.position.x, p.charge * p.position.y, p.charge
                * p.position.z);
            cell.center_of_charge = p.position;
            proof {
                lemma_wf_frame(orig, cell);
                assert(cell.particles() == seq![p]);
                assert(seq![p].drop_last() =~= Seq::<Particle>::empty());
                assert(charge_sum(Seq::<Particle>::empty()) == 0);
                assert(moment_sum(Seq::<Particle>::empty()) == (0int, 0int, 0int));
            }
            cell
        } else {
            let mut charge: i64 = 0;
            let mut mx: i64 = 0;
            let mut my: i64 = 0;
            let mut mz: i64 = 0;
            let mut i: usize = 0;
            proof {
                assert(cell.children.len() == 8);
            }
            #[verifier::loop_isolation(false)]
            while i < 8
                invariant
                    0 <= i <= 8,
                    cell.wf(),
                    cell.children.len() == 8,
                    cell.count >= 2,
                    cell.base == orig.base,
                    cell.length == orig.length,
                    cell.count == orig.count,
                    cell.particle == orig.particle,
                    orig.children.len() == 8,
                    cell.particles() == orig.particles(),
                    forall|j: int| i <= j < 8 ==> cell.children[j] == orig.children[j],
                    forall|j: int|
                        0 <= j < i ==> (#[trigger] cell.children[j]).aggregated()
                            && orig.children[j].same_shape(cell.children[j]),
                    charge == charge_sum(cell.particles_upto(i as int)),
                    mx == moment_sum(cell.particles_upto(i as int)).0,
                    my == moment_sum(cell.particles_upto(i as int)).1,
                    mz == moment_sum(cell.particles_upto(i as int)).2,
                    cell.particles_upto(i as int).len() <= cell.particles().len(),
                    -0x100000000 <= charge <= 0x100000000,
                    -0x1000000000000 <= mx <= 0x1000000000000,
                    -0x1000000000000 <= my <= 0x1000000000000,
                    -0x1000000000000 <= mz <= 0x1000000000000,
                decreases 8 - i,
            {
                let ghost pre = cell;
                proof {
                    lemma_wf_child(pre, 8, i as int);
                }
                let c = cell.children.remove(i);
                proof {
                    assert(c.length as int == orig.length as int / 2);
                    assert(orig.length as int / 2 < orig.length as int);
                }
                let c2 = Self::agg_rec(c);
                let c2_charge = c2.charge;
                let c2_mx = c2.moment.x;
                let c2_my = c2.moment.y;
                let c2_mz = c2.moment.z;
                cell.children.insert(i, c2);
                proof {
                    assert(cell.children@ =~= pre.children@.update(i as int, c2));
                    lemma_wf_children_update(pre, cell, i as int, 8);
                    lemma_child_update(pre, cell, i as int);
                    assert(cell.particles_upto(8) == pre.particles_upto(8));
                    assert(cell.particles() == pre.particles());
                    assert(cell.wf()) by {
                        assert(cell.count == cell.particles().len());
                    }
                    lemma_upto_same(pre, cell, i as int);
                    assert(cell.particles_upto(i as int + 1) == cell.particles_upto(i as int)
                        + c2.particles());
                    lemma_sums_concat(cell.particles_upto(i as int), c2.particles());
                    lemma_split_at(cell, i as int + 1);
                    assert(cell.particles_upto(i as int + 1).len() <= cell.particles().len());
                    assert(forall|w: int|
                        0 <= w < cell.particles().len() ==> cell.stores(
                            #[trigger] cell.particles()[w]));
                    assert forall|w: int| 0 <= w < cell.particles_upto(i as int).len() implies {
                        &&& -MAX_CHARGE <= (#[trigger] cell.particles_upto(i as int)[w]).charge
                            <= MAX_CHARGE
                        &&& -MAX_COORD <= cell.particles_upto(i as int)[w].position.x <= MAX_COORD
                        &&& -MAX_COORD <= cell.particles_upto(i as int)[w].position.y <= MAX_COORD
                        &&& -MAX_COORD <= cell.particles_upto(i as int)[w].position.z <= MAX_COORD
                    } by {
                        lemma_split_at(cell, i as int);
                        assert(cell.particles()[w] == cell.particles_upto(i as int)[w]);
                        assert(cell.stores(cell.particles()[w]));
                    }
                    lemma_sums_bound(cell.particles_upto(i as int));
                    assert forall|w: int| 0 <= w < c2.particles().len() implies {
                        &&& -MAX_CHARGE <= (#[trigger] c2.particles()[w]).charge <= MAX_CHARGE
                        &&& -MAX_COORD <= c2.particles()[w].position.x <= MAX_COORD
                        &&& -MAX_COORD <= c2.particles()[w].position.y <= MAX_COORD
                        &&& -MAX_COORD <= c2.particles()[w].position.z <= MAX_COORD
                    } by {
                        lemma_split_at(cell, i as int);
                        assert(cell.particles_from(i as int) == c2.particles()
                            + cell.particles_from(i as int + 1));
                        assert(cell.particles()[cell.particles_upto(i as int).len() + w]
                            == c2.particles()[w]);
                        assert(cell.stores(cell.particles()[cell.particles_upto(i as int).len()
                            + w]));
                    }
                    lemma_sums_bound(c2.particles());
                    assert(cell.particles_upto(i as int).len() + c2.particles().len()
                        <= MAX_COUNT) by {
                        assert(cell.particles().len() == cell.count);
                    }
                    assert(MAX_COUNT * MAX_CHARGE == 0x100000000int);
                    assert(MAX_COUNT * MAX_CHARGE * MAX_COORD == 0x1000000000000int);
                    assert(cell.particles_upto(i as int).len() * MAX_CHARGE + c2.particles().len()
                        * MAX_CHARGE <= MAX_COUNT * MAX_CHARGE) by (nonlinear_arith)
                        requires
                            cell.particles_upto(i as int).len() + c2.particles().len() <= MAX_COUNT;
                    assert(cell.particles_upto(i as int).len() * MAX_CHARGE * MAX_COORD
                        + c2.particles().len() * MAX_CHARGE * MAX_COORD <= MAX_COUNT * MAX_CHARGE
                        * MAX_COORD) by (nonlinear_arith)
                        requires
                            cell.particles_upto(i as int).len() + c2.particles().len() <= MAX_COUNT;
                }
                charge = charge + c2_charge;
                mx = mx + c2_mx;
                my = my + c2_my;
                mz = mz + c2_mz;
                i = i + 1;
            }
            let ghost stl = cell;
            cell.charge = charge;
            cell.moment = Vector::new(mx, my, mz);
            proof {
                lemma_wf_frame(stl, cell);
                lemma_wf_children_frame(stl, cell, 8);
                lemma_upto_same(stl, cell, 8);
                assert(charge == charge_sum(cell.particles()));
            }
            if charge == 0 {
                cell.center_of_charge = Vector::new(0, 0, 0);
            } else {
                let ghost stm = cell;
                let qa: i64 = if charge > 0 {
                    charge
                } else {
                    -charge
                };
                proof {
                    let cvx: int = if mx >= 0 { mx as int } else { -(mx as int) };
                    let cvy: int = if my >= 0 { my as int } else { -(my as int) };
                    let cvz: int = if mz >= 0 { mz as int } else { -(mz as int) };
                    assert(-(cvx * qa as int) <= mx as int <= cvx * qa as int) by (nonlinear_arith)
                        requires
                            qa as int >= 1,
                            cvx >= 0,
                            -cvx <= mx as int <= cvx;
                    assert(-(cvy * qa as int) <= my as int <= cvy * qa as int) by (nonlinear_arith)
                        requires
                            qa as int >= 1,
                            cvy >= 0,
                            -cvy <= my as int <= cvy;
                    assert(-(cvz * qa as int) <= mz as int <= cvz * qa as int) by (nonlinear_arith)
                        requires
                            qa as int >= 1,
                            cvz >= 0,
                            -cvz <= mz as int <= cvz;
                    crate::arith::lemma_divt_le(mx as int, qa as int, cvx);
                    crate::arith::lemma_divt_le(my as int, qa as int, cvy);
                    crate::arith::lemma_divt_le(mz as int, qa as int, cvz);
                }
                let cx128 = crate::arith::div_trunc(mx as i128, qa as i128);
                let cy128 = crate::arith::div_trunc(my as i128, qa as i128);
                let cz128 = crate::arith::div_trunc(mz as i128, qa as i128);
                let cx: i64 = if charge > 0 {
                    cx128 as i64
                } else {
                    (-cx128) as i64
                };
                let cy: i64 = if charge > 0 {
                    cy128 as i64
                } else {
                    (-cy128) as i64
                };
                let cz: i64 = if charge > 0 {
                    cz128 as i64
                } else {
                    (-cz128) as i64
                };
                cell.center_of_charge = Vector::new(cx, cy, cz);
                proof {
                    lemma_wf_frame(stm, cell);
                    lemma_wf_children_frame(stm, cell, 8);
                    lemma_upto_same(stm, cell, 8);
                }
            }
            proof {
                lemma_wf_frame(stl, cell);
                lemma_wf_children_frame(stl, cell, 8);
                lemma_upto_same(stl, cell, 8);
                lemma_aggregated_children_build(cell, 8);
                lemma_same_shape_children_build(orig, cell, 8);
                assert(orig.same_shape(cell));
                assert(cell.aggregated());
            }
            cell
        }
    }

    /// Fills in `charge`, `moment` and `center_of_charge` over the whole
    /// tree, bottom-up. The structure and the stored particles are left
    /// untouched, and afterwards every node is `aggregated`; in particular
    /// the root's `charge` is exactly the sum of all stored charges.
    pub fn calculate_charge_distribution(&mut self)
        requires
            old(self).wf(),
        ensures
            final(self).wf(),
            final(self).aggregated(),
            old(self).same_shape(*final(self)),
            final(self).particles() == old(self).particles(),
            final(self).count == old(self).count,
            final(self).base == old(self).base,
            final(self).length == old(self).length,
            final(self).charge == charge_sum(old(self).particles()),
            final(self).moment.x == moment_sum(old(self).particles()).0,
            final(self).moment.y == moment_sum(old(self).particles()).1,
            final(self).moment.z == moment_sum(old(self).particles()).2,
    {
        let mut tmp = Cell::new(1, Vector::new(0, 0, 0));
        core::mem::swap(self, &mut tmp);
        let res = Cell::agg_rec(tmp);
        *self = res;
    }
}


/// One accepted interaction term: the force on `p` from a point source of
/// charge `q_src` at `center`, in Coulomb's vector form
/// `direction * K * q * q_src / r^3` — here with the floor distance
/// `r = sqrt_floor(|d|^2)` and each of the two divisions truncated toward
/// zero: the numerator is divided by `|d|^2` and then by `r`.
pub open spec fn single_force(center: Vector, q_src: int, p: Particle) -> (int, int, int) {
    let dx = p.position.x - center.x;
    let dy = p.position.y - center.y;
    let dz = p.position.z - center.z;
    let dsq = dx * dx + dy * dy + dz * dz;
    let r = sqrt_floor(dsq);
    if dsq == 0 {
        (0, 0, 0)
    } else {
        let a = K * p.charge * q_src;
        (divt(divt(a * dx, dsq), r), divt(divt(a * dy, dsq), r), divt(divt(a * dz, dsq), r))
    }
}

impl Cell {
    /// The exact (unrounded) center of charge sits at `pos`: the charge
    /// moment equals `charge * pos` componentwise. Decidable without any
    /// division, so truncation cannot produce a spurious coincidence.
    pub open spec fn exact_center_hit(self, pos: Vector) -> bool {
        &&& self.moment.x == self.charge * pos.x
        &&& self.moment.y == self.charge * pos.y
        &&& self.moment.z == self.charge * pos.z
    }

    /// The approximate force this subtree exerts on `p`, under the
    /// opening-angle criterion `length / r < accuracy`, with the accuracy
    /// parameter given as the ratio `tn / td`: an empty cell, or one whose
    /// exact center of charge coincides with `p`'s position, contributes
    /// nothing; a single particle, or a cell far enough away, acts as one
    /// point charge at its center of charge; otherwise the eight children's
    /// forces are summed. When only the *rounded* center lands on `p` the
    /// distance is zero but the coincidence is not real: the criterion then
    /// fails and the children are summed instead.
    pub open spec fn spec_force(self, p: Particle, tn: int, td: int) -> (int, int, int)
        decreases self, 9int,
    {
        let dx = p.position.x - self.center_of_charge.x;
        let dy = p.position.y - self.center_of_charge.y;
        let dz = p.position.z - self.center_of_charge.z;
        let dsq = dx * dx + dy * dy + dz * dz;
        if self.count == 0 || (dsq == 0 && self.exact_center_hit(p.position)) {
            (0, 0, 0)
        } else if self.count == 1 || self.length * td < tn * sqrt_floor(dsq) {
            single_force(self.center_of_charge, self.charge as int, p)
        } else {
            self.spec_force_children(p, tn, td, 8)
        }
    }

    /// Sum of the forces of the first `n` children.
    pub open spec fn spec_force_children(self, p: Particle, tn: int, td: int, n: int) -> (
        int,
        int,
        int,
    )
        decreases self, n,
    {
        if n <= 0 || n > self.children.len() {
            (0, 0, 0)
        } else {
            let rest = self.spec_force_children(p, tn, td, n - 1);
            let f = self.children[n - 1].spec_force(p, tn, td);
            (rest.0 + f.0, rest.1 + f.1, rest.2 + f.2)
        }
    }
}

/// Bounds on the aggregation fields of a well-formed aggregated cell.
pub proof fn lemma_agg_bounds(c: Cell)
    requires
        c.wf(),
        c.aggregated(),
    ensures
        -0x100000000 <= c.charge <= 0x100000000,
        -0x1000000000000 <= c.moment.x <= 0x1000000000000,
        -0x1000000000000 <= c.moment.y <= 0x1000000000000,
        -0x1000000000000 <= c.moment.z <= 0x1000000000000,
        -0x1000000000000 <= c.center_of_charge.x <= 0x1000000000000,
        -0x1000000000000 <= c.center_of_charge.y <= 0x1000000000000,
        -0x1000000000000 <= c.center_of_charge.z <= 0x1000000000000,
{
    let s = c.particles();
    assert forall|w: int| 0 <= w < s.len() implies {
        &&& -MAX_CHARGE <= (#[trigger] s[w]).charge <= MAX_CHARGE
        &&& -MAX_COORD <= s[w].position.x <= MAX_COORD
        &&& -MAX_COORD <= s[w].position.y <= MAX_COORD
        &&& -MAX_COORD <= s[w].position.z <= MAX_COORD
    } by {
        assert(c.stores(s[w]));
    }
    lemma_sums_bound(s);
    assert(s.len() * MAX_CHARGE <= MAX_COUNT * MAX_CHARGE) by (nonlinear_arith)
        requires
            s.len() <= MAX_COUNT;
    assert(s.len() * MAX_CHARGE * MAX_COORD <= MAX_COUNT * MAX_CHARGE * MAX_COORD)
        by (nonlinear_arith)
        requires
            s.len() <= MAX_COUNT;
    assert(MAX_COUNT * MAX_CHARGE == 0x100000000int);
    assert(MAX_COUNT * MAX_CHARGE * MAX_COORD == 0x1000000000000int);
    if c.children.len() == 0 {
        if c.particle is Some {
            let p = c.particle.unwrap();
            assert(s == seq![p]);
            assert(s[0] == p);
            assert(c.stores(p));
            assert(-(MAX_CHARGE * MAX_COORD) <= p.charge * p.position.x <= MAX_CHARGE * MAX_COORD)
                by (nonlinear_arith)
                requires
                    -MAX_CHARGE <= p.charge <= MAX_CHARGE,
                    -MAX_COORD <= p.position.x <= MAX_COORD;
            assert(-(MAX_CHARGE * MAX_COORD) <= p.charge * p.position.y <= MAX_CHARGE * MAX_COORD)
                by (nonlinear_arith)
                requires
                    -MAX_CHARGE <= p.charge <= MAX_CHARGE,
                    -MAX_COORD <= p.position.y <= MAX_COORD;
            assert(-(MAX_CHARGE * MAX_COORD) <= p.charge * p.position.z <= MAX_CHARGE * MAX_COORD)
                by (nonlinear_arith)
                requires
                    -MAX_CHARGE <= p.charge <= MAX_CHARGE,
                    -MAX_COORD <= p.position.z <= MAX_COORD;
        }
    } else {
        if c.charge != 0 {
            let q = c.charge as int;
            let qa: int = if q >= 0 { q } else { -q };
            let cvx: int = if c.moment.x >= 0 { c.moment.x as int } else { -(c.moment.x as int) };
            let cvy: int = if c.moment.y >= 0 { c.moment.y as int } else { -(c.moment.y as int) };
            let cvz: int = if c.moment.z >= 0 { c.moment.z as int } else { -(c.moment.z as int) };
            assert(-(cvx * qa) <= c.moment.x as int <= cvx * qa) by (nonlinear_arith)
                requires
                    qa >= 1,
                    cvx >= 0,
                    -cvx <= c.moment.x as int <= cvx;
            assert(-(cvy * qa) <= c.moment.y as int <= cvy * qa) by (nonlinear_arith)
                requires
                    qa >= 1,
                    cvy >= 0,
                    -cvy <= c.moment.y as int <= cvy;
            assert(-(cvz * qa) <= c.moment.z as int <= cvz * qa) by (nonlinear_arith)
                requires
                    qa >= 1,
                    cvz >= 0,
                    -cvz <= c.moment.z as int <= cvz;
            crate::arith::lemma_divt_le(c.moment.x as int, qa, cvx);
            crate::arith::lemma_divt_le(c.moment.y as int, qa, cvy);
            crate::arith::lemma_divt_le(c.moment.z as int, qa, cvz);
        }
    }
}

/// The accepted-term force components are bounded by `K * |q_p| * |q_src|`.
pub proof fn lemma_single_force_bound(center: Vector, q_src: int, p: Particle, b: int)
    requires
        K * (if p.charge >= 0 { p.charge as int } else { -(p.charge as int) }) * (if q_src >= 0 { q_src } else { -q_src }) <= b,
        0 <= b,
    ensures
        -b <= single_force(center, q_src, p).0 <= b,
        -b <= single_force(center, q_src, p).1 <= b,
        -b <= single_force(center, q_src, p).2 <= b,
{
    let dx = p.position.x - center.x;
    let dy = p.position.y - center.y;
    let dz = p.position.z - center.z;
    let dsq = dx * dx + dy * dy + dz * dz;
    if dsq != 0 {
        assert(dsq > 0) by (nonlinear_arith)
            requires
                dsq == dx * dx + dy * dy + dz * dz,
                dsq != 0;
        crate::arith::lemma_sqrt_exists(dsq);
        let r = sqrt_floor(dsq);
        assert(is_sqrt(dsq, r));
        assert(r >= 1) by (nonlinear_arith)
            requires
                is_sqrt(dsq, r),
                dsq >= 1;
        let a = K * p.charge * q_src;
        let aa: int = if a >= 0 { a } else { -a };
        assert(aa <= b) by (nonlinear_arith)
            requires
                a == K * p.charge * q_src,
                aa == (if a >= 0 { a } else { -a }),
                K * (if p.charge >= 0 { p.charge as int } else { -(p.charge as int) }) * (if q_src
                    >= 0 { q_src } else { -q_src }) <= b;
        assert(dx * dx <= dsq && dy * dy <= dsq && dz * dz <= dsq) by (nonlinear_arith)
            requires
                dsq == dx * dx + dy * dy + dz * dz;
        assert(-r <= dx <= r && -r <= dy <= r && -r <= dz <= r) by (nonlinear_arith)
            requires
                dx * dx <= dsq,
                dy * dy <= dsq,
                dz * dz <= dsq,
                is_sqrt(dsq, r),
                r >= 0;
        assert(-(aa * dsq) <= a * dx <= aa * dsq) by (nonlinear_arith)
            requires
                -r <= dx <= r,
                -aa <= a <= aa,
                r >= 1,
                aa >= 0,
                is_sqrt(dsq, r),
                dsq >= 1;
        assert(-(aa * dsq) <= a * dy <= aa * dsq) by (nonlinear_arith)
            requires
                -r <= dy <= r,
                -aa <= a <= aa,
                r >= 1,
                aa >= 0,
                is_sqrt(dsq, r),
                dsq >= 1;
        assert(-(aa * dsq) <= a * dz <= aa * dsq) by (nonlinear_arith)
            requires
                -r <= dz <= r,
                -aa <= a <= aa,
                r >= 1,
                aa >= 0,
                is_sqrt(dsq, r),
                dsq >= 1;
        crate::arith::lemma_divt_le(a * dx, dsq, aa);
        crate::arith::lemma_divt_le(a * dy, dsq, aa);
        crate::arith::lemma_divt_le(a * dz, dsq, aa);
        assert(-(aa * r) <= divt(a * dx, dsq) <= aa * r) by (nonlinear_arith)
            requires
                -aa <= divt(a * dx, dsq) <= aa,
                r >= 1,
                aa >= 0;
        assert(-(aa * r) <= divt(a * dy, dsq) <= aa * r) by (nonlinear_arith)
            requires
                -aa <= divt(a * dy, dsq) <= aa,
                r >= 1,
                aa >= 0;
        assert(-(aa * r) <= divt(a * dz, dsq) <= aa * r) by (nonlinear_arith)
            requires
                -aa <= divt(a * dz, dsq) <= aa,
                r >= 1,
                aa >= 0;
        crate::arith::lemma_divt_le(divt(a * dx, dsq), r, aa);
        crate::arith::lemma_divt_le(divt(a * dy, dsq), r, aa);
        crate::arith::lemma_divt_le(divt(a * dz, dsq), r, aa);
    }
}

/// The force a subtree exerts is bounded by `K * MAX_CHARGE^2` per stored
/// particle.
pub proof fn lemma_force_bound(c: Cell, p: Particle, tn: int, td: int)
    requires
        c.wf(),
        c.aggregated(),
        -MAX_CHARGE <= p.charge <= MAX_CHARGE,
    ensures
        -(K * MAX_CHARGE * MAX_CHARGE * c.count) <= c.spec_force(p, tn, td).0 <= K * MAX_CHARGE
            * MAX_CHARGE * c.count,
        -(K * MAX_CHARGE * MAX_CHARGE * c.count) <= c.spec_force(p, tn, td).1 <= K * MAX_CHARGE
            * MAX_CHARGE * c.count,
        -(K * MAX_CHARGE * MAX_CHARGE * c.count) <= c.spec_force(p, tn, td).2 <= K * MAX_CHARGE
            * MAX_CHARGE * c.count,
    decreases c, 9int,
{
    let dx = p.position.x - c.center_of_charge.x;
    let dy = p.position.y - c.center_of_charge.y;
    let dz = p.position.z - c.center_of_charge.z;
    let dsq = dx * dx + dy * dy + dz * dz;
    let bound = K * MAX_CHARGE * MAX_CHARGE * c.count;
    assert(bound >= 0) by (nonlinear_arith)
        requires
            c.count >= 0,
            bound == K * MAX_CHARGE * MAX_CHARGE * c.count;
    if c.count == 0 || (dsq == 0 && c.exact_center_hit(p.position)) {
    } else if c.count == 1 || c.length * td < tn * sqrt_floor(dsq) {
        let s = c.particles();
        assert forall|w: int| 0 <= w < s.len() implies {
            &&& -MAX_CHARGE <= (#[trigger] s[w]).charge <= MAX_CHARGE
            &&& -MAX_COORD <= s[w].position.x <= MAX_COORD
            &&& -MAX_COORD <= s[w].position.y <= MAX_COORD
            &&& -MAX_COORD <= s[w].position.z <= MAX_COORD
        } by {
            assert(c.stores(s[w]));
        }
        assert(c.charge == charge_sum(s)) by {
            if c.children.len() == 0 {
                assert(s == seq![c.particle.unwrap()]);
                assert(s.drop_last() =~= Seq::<Particle>::empty());
                assert(charge_sum(Seq::<Particle>::empty()) == 0);
            }
        }
        lemma_sums_bound(s);
        let qv = c.charge as int;
        let qa: int = if qv >= 0 { qv } else { -qv };
        assert(qa <= c.count * MAX_CHARGE) by (nonlinear_arith)
            requires
                -(s.len() * MAX_CHARGE) <= qv <= s.len() * MAX_CHARGE,
                qa == (if qv >= 0 { qv } else { -qv }),
                s.len() == c.count;
        let pa: int = if p.charge >= 0 { p.charge as int } else { -(p.charge as int) };
        assert(K * pa * qa <= bound) by (nonlinear_arith)
            requires
                0 <= pa <= MAX_CHARGE,
                0 <= qa <= c.count * MAX_CHARGE,
                bound == K * MAX_CHARGE * MAX_CHARGE * c.count;
        lemma_single_force_bound(c.center_of_charge, c.charge as int, p, bound);
    } else {
        lemma_force_children_bound(c, p, tn, td, 8);
        assert(c.particles_upto(8).len() == c.count);
        assert(K * MAX_CHARGE * MAX_CHARGE * c.particles_upto(8).len() == bound);
    }
}

/// Bound for the summed forces of the first `n` children.
pub proof fn lemma_force_children_bound(c: Cell, p: Particle, tn: int, td: int, n: int)
    requires
        c.wf(),
        c.aggregated(),
        c.children.len() == 8,
        -MAX_CHARGE <= p.charge <= MAX_CHARGE,
        0 <= n <= 8,
    ensures
        -(K * MAX_CHARGE * MAX_CHARGE * c.particles_upto(n).len()) <= c.spec_force_children(
            p,
            tn,
            td,
            n,
        ).0 <= K * MAX_CHARGE * MAX_CHARGE * c.particles_upto(n).len(),
        -(K * MAX_CHARGE * MAX_CHARGE * c.particles_upto(n).len()) <= c.spec_force_children(
            p,
            tn,
            td,
            n,
        ).1 <= K * MAX_CHARGE * MAX_CHARGE * c.particles_upto(n).len(),
        -(K * MAX_CHARGE * MAX_CHARGE * c.particles_upto(n).len()) <= c.spec_force_children(
            p,
            tn,
            td,
            n,
        ).2 <= K * MAX_CHARGE * MAX_CHARGE * c.particles_upto(n).len(),
    decreases c, n,
{
    if n > 0 {
        lemma_force_children_bound(c, p, tn, td, n - 1);
        lemma_wf_child(c, 8, n - 1);
        lemma_aggregated_child(c, 8, n - 1);
        lemma_force_bound(c.children[n - 1], p, tn, td);
        assert(c.children[n - 1].count == c.children[n - 1].particles().len());
        assert(c.particles_upto(n).len() == c.particles_upto(n - 1).len() + c.children[n
            - 1].particles().len());
        assert(K * MAX_CHARGE * MAX_CHARGE * c.particles_upto(n).len() == K * MAX_CHARGE
            * MAX_CHARGE * c.particles_upto(n - 1).len() + K * MAX_CHARGE * MAX_CHARGE
            * c.children[n - 1].particles().len()) by (nonlinear_arith)
            requires
                c.particles_upto(n).len() == c.particles_upto(n - 1).len() + c.children[n
                    - 1].particles().len();
    }
}


impl Cell {
    /// Approximate net force of this (aggregated) subtree on `particle`,
    /// exactly the value of `spec_force` with the accuracy parameter
    /// `accuracy_num / accuracy_den`. With `accuracy_num == 0` the criterion
    /// never accepts an interior cell and the walk degenerates to the exact
    /// pairwise sum, except at a probe that sits exactly on an interior
    /// node's unrounded center of charge, where the coincidence guard
    /// short-circuits to zero.
    #[verifier::rlimit(100)]
    pub fn calculate_coulomb_force(&self, particle: &Particle, accuracy_num: i64, accuracy_den: i64) -> (force: Vector)
        requires
            self.wf(),
            self.aggregated(),
            -MAX_CHARGE <= particle.charge <= MAX_CHARGE,
            -MAX_COORD <= particle.position.x <= MAX_COORD,
            -MAX_COORD <= particle.position.y <= MAX_COORD,
            -MAX_COORD <= particle.position.z <= MAX_COORD,
            0 <= accuracy_num,
            1 <= accuracy_den,
        ensures
            force.x == self.spec_force(*particle, accuracy_num as int, accuracy_den as int).0,
            force.y == self.spec_force(*particle, accuracy_num as int, accuracy_den as int).1,
            force.z == self.spec_force(*particle, accuracy_num as int, accuracy_den as int).2,
        decreases self.length,
    {
        proof {
            lemma_agg_bounds(*self);
        }
        let dx: i128 = (particle.position.x as i128) - (self.center_of_charge.x as i128);
        let dy: i128 = (particle.position.y as i128) - (self.center_of_charge.y as i128);
        let dz: i128 = (particle.position.z as i128) - (self.center_of_charge.z as i128);
        proof {
            crate::vector::lemma_square_bound(dx as int, 0x2000000000000int);
            crate::vector::lemma_square_bound(dy as int, 0x2000000000000int);
            crate::vector::lemma_square_bound(dz as int, 0x2000000000000int);
        }
        let dsq: i128 = dx * dx + dy * dy + dz * dz;
        proof {
            assert(-0x10000000000000000int <= (self.charge as int) * (particle.position.x as int)
                <= 0x10000000000000000int) by (nonlinear_arith)
                requires
                    -0x100000000 <= self.charge <= 0x100000000,
                    -MAX_COORD <= particle.position.x <= MAX_COORD;
            assert(-0x10000000000000000int <= (self.charge as int) * (particle.position.y as int)
                <= 0x10000000000000000int) by (nonlinear_arith)
                requires
                    -0x100000000 <= self.charge <= 0x100000000,
                    -MAX_COORD <= particle.position.y <= MAX_COORD;
            assert(-0x10000000000000000int <= (self.charge as int) * (particle.position.z as int)
                <= 0x10000000000000000int) by (nonlinear_arith)
                requires
                    -0x100000000 <= self.charge <= 0x100000000,
                    -MAX_COORD <= particle.position.z <= MAX_COORD;
        }
        let hit = self.moment.x as i128 == (self.charge as i128) * (particle.position.x as i128)
            && self.moment.y as i128 == (self.charge as i128) * (particle.position.y as i128)
            && self.moment.z as i128 == (self.charge as i128) * (particle.position.z as i128);
        proof {
            assert(hit == self.exact_center_hit(particle.position));
        }
        if self.count == 0 || (dsq == 0 && hit) {
            return Vector::new(0, 0, 0);
        }
        let r: u128 = crate::arith::isqrt(dsq as u128);
        proof {
            assert(r as int == sqrt_floor(dsq as int));
            if dsq != 0 {
                assert(r as int >= 1) by (nonlinear_arith)
                    requires
                        is_sqrt(dsq as int, r as int),
                        dsq as int >= 1;
            }
            assert(r as int * r as int <= dsq as int);
            assert(r < 0x10000000000000000u128) by (nonlinear_arith)
                requires
                    r as int * r as int <= dsq as int,
                    dsq < 0x100000000000000000000000000i128,
                    r as int >= 0,
                    0x10000000000000000int * 0x10000000000000000int
                        > 0x100000000000000000000000000int;
        }
        proof {
            assert(-0x40000000000000000000000000000000int <= (self.length as int) * (accuracy_den as int)
                <= 0x40000000000000000000000000000000int) by (nonlinear_arith)
                requires
                    -0x8000000000000000int <= (self.length as int) <= 0x8000000000000000int,
                    -0x8000000000000000int <= (accuracy_den as int) <= 0x8000000000000000int;
            assert(0 <= (accuracy_num as int) * (r as int) && (accuracy_num as int) * (r as int)
                < 0x80000000000000000000000000000000int) by (nonlinear_arith)
                requires
                    0 <= (accuracy_num as int),
                    (accuracy_num as int) < 0x8000000000000000int,
                    0 <= (r as int),
                    (r as int) < 0x10000000000000000int;
        }
        let accept = self.count == 1 || (self.length as i128) * (accuracy_den as i128)
            < (accuracy_num as i128) * (r as i128);
        if accept {
            proof {
                assert(dsq != 0) by {
                    if dsq == 0 {
                        assert(dx == 0 && dy == 0 && dz == 0) by (nonlinear_arith)
                            requires
                                (dx as int) * (dx as int) + (dy as int) * (dy as int) + (dz as int)
                                    * (dz as int) == 0;
                        if self.count == 1 {
                            assert(self.children.len() == 0);
                            let q = self.particle.unwrap();
                            assert(self.center_of_charge == q.position);
                            assert(self.moment.x == self.charge * q.position.x);
                            assert(q.position == particle.position);
                            assert(self.exact_center_hit(particle.position));
                        } else {
                            assert(r == 0) by (nonlinear_arith)
                                requires
                                    (r as int) * (r as int) <= dsq as int,
                                    dsq == 0,
                                    r >= 0;
                            assert((self.length as int) * (accuracy_den as int) >= 1)
                                by (nonlinear_arith)
                                requires
                                    self.length >= 1,
                                    accuracy_den >= 1;
                            assert((accuracy_num as int) * (r as int) == 0);
                        }
                    }
                }
                let kq: int = (K as int) * (particle.charge as int);
                assert(-0x40000000int <= kq <= 0x40000000int) by (nonlinear_arith)
                    requires
                        kq == (K as int) * (particle.charge as int),
                        -MAX_CHARGE <= particle.charge <= MAX_CHARGE;
                assert(-0x4000000000000000int <= kq * (self.charge as int)
                    <= 0x4000000000000000int) by (nonlinear_arith)
                    requires
                        -0x40000000int <= kq <= 0x40000000int,
                        -0x100000000 <= self.charge <= 0x100000000;
            }
            let a: i128 = (K as i128) * (particle.charge as i128) * (self.charge as i128);
            proof {
                assert(-0x4000000000000000int <= (a as int)
                    && (a as int) <= 0x4000000000000000int) by (nonlinear_arith)
                    requires
                        a == (K as i128) * (particle.charge as i128) * (self.charge as i128),
                        -MAX_CHARGE <= particle.charge <= MAX_CHARGE,
                        -0x100000000 <= self.charge <= 0x100000000;
                assert(-(0x8000000000000000000000000000int) <= (a as int) * (dx as int)
                    <= 0x8000000000000000000000000000int) by (nonlinear_arith)
                    requires
                        -(0x4000000000000000int) <= (a as int) <= 0x4000000000000000int,
                        -0x2000000000000int <= (dx as int) <= 0x2000000000000int;
                assert(-(0x8000000000000000000000000000int) <= (a as int) * (dy as int)
                    <= 0x8000000000000000000000000000int) by (nonlinear_arith)
                    requires
                        -(0x4000000000000000int) <= (a as int) <= 0x4000000000000000int,
                        -0x2000000000000int <= (dy as int) <= 0x2000000000000int;
                assert(-(0x8000000000000000000000000000int) <= (a as int) * (dz as int)
                    <= 0x8000000000000000000000000000int) by (nonlinear_arith)
                    requires
                        -(0x4000000000000000int) <= (a as int) <= 0x4000000000000000int,
                        -0x2000000000000int <= (dz as int) <= 0x2000000000000int;
            }
            let nx: i128 = crate::arith::mul_i128(a, dx);
            let ny: i128 = crate::arith::mul_i128(a, dy);
            let nz: i128 = crate::arith::mul_i128(a, dz);
            let fx = crate::arith::div_trunc(crate::arith::div_trunc(nx, dsq), r as i128);
            let fy = crate::arith::div_trunc(crate::arith::div_trunc(ny, dsq), r as i128);
            let fz = crate::arith::div_trunc(crate::arith::div_trunc(nz, dsq), r as i128);
            proof {
                lemma_force_bound(*self, *particle, accuracy_num as int, accuracy_den as int);
                assert(K * MAX_CHARGE * MAX_CHARGE * self.count
                    <= K * MAX_CHARGE * MAX_CHARGE * MAX_COUNT) by (nonlinear_arith)
                    requires
                        0 <= self.count <= MAX_COUNT;
                assert(K * MAX_CHARGE * MAX_CHARGE * MAX_COUNT < 0x8000000000000000int);
            }
            return Vector::new(fx as i64, fy as i64, fz as i64);
        }
        let mut fx: i128 = 0;
        let mut fy: i128 = 0;
        let mut fz: i128 = 0;
        let mut i: usize = 0;
        let ghost tn = accuracy_num as int;
        let ghost td = accuracy_den as int;
        let ghost p = *particle;
        #[verifier::loop_isolation(false)]
        while i < 8
            invariant
                0 <= i <= 8,
                fx == self.spec_force_children(p, tn, td, i as int).0,
                fy == self.spec_force_children(p, tn, td, i as int).1,
                fz == self.spec_force_children(p, tn, td, i as int).2,
                -(K * MAX_CHARGE * MAX_CHARGE * self.particles_upto(i as int).len()) <= fx
                    <= K * MAX_CHARGE * MAX_CHARGE * self.particles_upto(i as int).len(),
                -(K * MAX_CHARGE * MAX_CHARGE * self.particles_upto(i as int).len()) <= fy
                    <= K * MAX_CHARGE * MAX_CHARGE * self.particles_upto(i as int).len(),
                -(K * MAX_CHARGE * MAX_CHARGE * self.particles_upto(i as int).len()) <= fz
                    <= K * MAX_CHARGE * MAX_CHARGE * self.particles_upto(i as int).len(),
            decreases 8 - i,
        {
            proof {
                lemma_wf_child(*self, 8, i as int);
                lemma_aggregated_child(*self, 8, i as int);
                lemma_force_bound(self.children[i as int], p, tn, td);
                lemma_force_children_bound(*self, p, tn, td, i as int + 1);
                assert(self.children[i as int].length < self.length);
                lemma_split_at(*self, i as int);
                assert(self.particles_upto(i as int).len() <= MAX_COUNT);
                assert(self.children[i as int].count <= MAX_COUNT);
                assert(K * MAX_CHARGE * MAX_CHARGE * self.particles_upto(i as int).len() <= K
                    * MAX_CHARGE * MAX_CHARGE * MAX_COUNT) by (nonlinear_arith)
                    requires
                        0 <= self.particles_upto(i as int).len() <= MAX_COUNT;
                assert(K * MAX_CHARGE * MAX_CHARGE * self.children[i as int].count <= K
                    * MAX_CHARGE * MAX_CHARGE * MAX_COUNT) by (nonlinear_arith)
                    requires
                        0 <= self.children[i as int].count <= MAX_COUNT;
                assert(K * MAX_CHARGE * MAX_CHARGE * MAX_COUNT < 0x4000000000000000int);
            }
            let f = self.children[i].calculate_coulomb_force(particle, accuracy_num, accuracy_den);
            fx = fx + (f.x as i128);
            fy = fy + (f.y as i128);
            fz = fz + (f.z as i128);
            i = i + 1;
        }
        proof {
            assert(self.particles_upto(8).len() == self.count);
            assert(K * MAX_CHARGE * MAX_CHARGE * self.count
                <= K * MAX_CHARGE * MAX_CHARGE * MAX_COUNT) by (nonlinear_arith)
                requires
                    0 <= self.count <= MAX_COUNT;
            assert(K * MAX_CHARGE * MAX_CHARGE * MAX_COUNT < 0x8000000000000000int);
        }
        Vector::new(fx as i64, fy as i64, fz as i64)
    }
}

} // verus!

//! The discrete part of an Ising model on a periodic grid with disjoint edge
//! storage: its geometry, the neighbour of every edge slot, its spins, its
//! starting configurations and its random number generator. The real-valued
//! part (edge weights, magnetic field, cost) is kept beside it by the caller,
//! slot for slot.

use vstd::prelude::*;
use rand_pcg::Mcg128Xsl64;
use vstd::arithmetic::div_mod::lemma_fundamental_div_mod_converse;
use crate::bits::{max_bits, Spins};
use crate::lattice::{
    digits, from_digits, lemma_digits_valid, lemma_from_digits_bound, lemma_neighbour_in_grid, lemma_product_positive_sides,
    lemma_product_suffix,
    lemma_product_take, lemma_step_values, lemma_steps_cancel, neighbour, step_down, step_up, product,
    product_fits, sides_positive, valid_coord,
};
use crate::rng::{random_below, random_ratio, seeded, seeded_generator};

verus! {

/// The dimension of a grid whose points have `deg` neighbours.
pub fn dimension(deg: usize) -> (d: usize)
    ensures
        d == deg / 2,
{
    deg / 2
}

/// The discrete state of an Ising model on a periodic grid.
pub struct IsingDisjoint {
    /// Neighbours per point: twice the dimension.
    pub deg: usize,
    /// Side lengths of the grid.
    pub sizes: Vec<usize>,
    /// Number of points: the product of the side lengths.
    pub n_points: usize,
    /// The current spin of every point.
    pub spins: Spins,
    /// For every point and edge slot, the point at the other end of the edge
    /// (the point itself where the slot carries no interaction).
    pub edges: Vec<usize>,
    /// Configurations that spins may start from.
    pub starting_configs: Option<Vec<Spins>>,
    /// The model's own generator.
    pub random_number_generator: Mcg128Xsl64,
}

/// Edge slots per point that `set_edges` fills: the degree, or the number of
/// neighbours where there are fewer.
pub open spec fn slots_per_point(deg: usize, sizes: Seq<usize>) -> nat {
    if deg <= 2 * sizes.len() {
        deg as nat
    } else {
        2 * sizes.len()
    }
}

/// Slot `j` of `node` carries its own weight: it points at `node` itself, or
/// at a neighbour that no earlier slot of `node` points at.
pub open spec fn slot_kept(sizes: Seq<usize>, node: nat, j: int) -> bool {
    ||| neighbour(sizes, node, j) == node
    ||| forall|k: int| 0 <= k < j ==> neighbour(sizes, node, k) != neighbour(sizes, node, j)
}

/// The other end of slot `j` of `node`: its neighbour where the slot is kept,
/// else `node` itself (with weight zero).
pub open spec fn slot_target(sizes: Seq<usize>, node: nat, j: int) -> nat {
    if slot_kept(sizes, node, j) {
        neighbour(sizes, node, j)
    } else {
        node
    }
}

/// The other ends of all edge slots: slot `j` of point `p` at position
/// `p m + j`, for `n` points of `m` slots each.
pub open spec fn edge_targets(sizes: Seq<usize>, n: nat, m: nat) -> Seq<usize> {
    Seq::new(n * m, |t: int| slot_target(sizes, (t / m as int) as nat, t % m as int) as usize)
}

/// Which edge slots carry their own weight, laid out as in `edge_targets`.
pub open spec fn edge_kept(sizes: Seq<usize>, n: nat, m: nat) -> Seq<bool> {
    Seq::new(n * m, |t: int| slot_kept(sizes, (t / m as int) as nat, t % m as int))
}

/// With no more slots than neighbours, every one of the `n` points gets
/// `deg` edge slots, and slot `j` of point `p` (at position `p deg + j`)
/// points at neighbour `j` of `p`, unless an earlier slot of `p` has the same
/// neighbour, in which case it points at `p` itself and carries no weight of
/// its own.
pub proof fn lemma_edge_slots(sizes: Seq<usize>, n: nat, deg: usize, p: nat, j: int)
    requires
        n == product(sizes),
        n <= usize::MAX,
        deg <= 2 * sizes.len(),
        p < n,
        0 <= j < deg,
    ensures
        edge_targets(sizes, n, slots_per_point(deg, sizes)).len() == n * deg,
        edge_kept(sizes, n, slots_per_point(deg, sizes)).len() == n * deg,
        p * deg + j < n * deg,
        edge_targets(sizes, n, slots_per_point(deg, sizes))[p * deg + j] == (if exists|t: int|
            0 <= t < j && #[trigger] neighbour(sizes, p, t) == neighbour(sizes, p, j) {
            p
        } else {
            neighbour(sizes, p, j)
        }),
        edge_kept(sizes, n, slots_per_point(deg, sizes))[p * deg + j] == (neighbour(sizes, p, j)
            == p || forall|t: int| 0 <= t < j ==> neighbour(sizes, p, t) != neighbour(sizes, p, j)),
{
    let m = slots_per_point(deg, sizes);
    assert(m == deg);
    assert(p * deg + j < n * deg) by (nonlinear_arith)
        requires
            p < n,
            0 <= j < deg,
    ;
    lemma_fundamental_div_mod_converse(p * deg + j, deg as int, p as int, j);
    lemma_product_positive_sides(sizes);
    lemma_neighbour_in_grid(sizes, p, j);
}

/// A slot that points where an earlier one does has some earlier kept slot
/// with that target.
proof fn lemma_repeat_has_kept_target(sizes: Seq<usize>, node: nat, j: int, t: int)
    requires
        0 <= t < j,
        neighbour(sizes, node, t) == neighbour(sizes, node, j),
        neighbour(sizes, node, j) != node,
    ensures
        exists|u: int| 0 <= u <= t && slot_target(sizes, node, u) == neighbour(sizes, node, j),
    decreases t,
{
    if slot_kept(sizes, node, t) {
        assert(slot_target(sizes, node, t) == neighbour(sizes, node, j));
    } else {
        let k = choose|k: int|
            0 <= k < t && neighbour(sizes, node, k) == neighbour(sizes, node, t);
        lemma_repeat_has_kept_target(sizes, node, j, k);
    }
}

/// The number of `true` bits.
pub open spec fn count_true(s: Seq<bool>) -> nat
    decreases s.len(),
{
    if s.len() == 0 {
        0
    } else {
        count_true(s.drop_last()) + if s.last() {
            1nat
        } else {
            0nat
        }
    }
}

/// The number of positions, among those that both have, at which two bit
/// sequences differ.
pub open spec fn count_differences(a: Seq<bool>, b: Seq<bool>) -> nat
    decreases a.len(),
{
    if a.len() == 0 || b.len() == 0 {
        0
    } else if a.len() <= b.len() {
        count_differences(a.drop_last(), b) + if a.last() != b[a.len() - 1] {
            1nat
        } else {
            0nat
        }
    } else {
        count_differences(a.take(b.len() as int), b)
    }
}

/// `s` with the bit at `i` flipped.
pub open spec fn flipped(s: Seq<bool>, i: int) -> Seq<bool> {
    s.update(i, !s[i])
}

/// Flipping the same spin twice restores the configuration.
pub proof fn lemma_flip_twice(s: Seq<bool>, i: int)
    requires
        0 <= i < s.len(),
    ensures
        flipped(flipped(s, i), i) == s,
{
    assert(flipped(flipped(s, i), i) =~= s);
}

/// How many points of a cluster are flipped against the ground configuration
/// (or, with none given, against all spins down).
pub fn cluster_flips(cluster: &Spins, ground: Option<&Spins>) -> (m: usize)
    ensures
        m == match ground {
            Some(g) => count_differences(cluster@, g@),
            None => count_true(cluster@),
        },
{
    let n = cluster.len();
    match ground {
        Some(g) => {
            let gl = g.len();
            let len = if n <= gl {
                n
            } else {
                gl
            };
            let mut m: usize = 0;
            let mut i: usize = 0;
            while i < len
                invariant
                    len <= n,
                    len <= gl,
                    n == cluster@.len(),
                    gl == g@.len(),
                    len == n || len == gl,
                    i <= len,
                    m == count_differences(cluster@.take(i as int), g@),
                    m <= i,
                decreases len - i,
            {
                let a = cluster.get(i);
                let b = g.get(i);
                proof {
                    let t = cluster@.take(i + 1);
                    assert(t.drop_last() =~= cluster@.take(i as int));
                    assert(t.last() == a);
                }
                if a != b {
                    m = m + 1;
                }
                i = i + 1;
            }
            proof {
                lemma_count_differences_prefix(cluster@, g@);
            }
            m
        },
        None => {
            let mut m: usize = 0;
            let mut i: usize = 0;
            while i < n
                invariant
                    n == cluster@.len(),
                    i <= n,
                    m == count_true(cluster@.take(i as int)),
                    m <= i,
                decreases n - i,
            {
                let a = cluster.get(i);
                proof {
                    let t = cluster@.take(i + 1);
                    assert(t.drop_last() =~= cluster@.take(i as int));
                    assert(t.last() == a);
                }
                if a {
                    m = m + 1;
                }
                i = i + 1;
            }
            assert(cluster@.take(n as int) =~= cluster@);
            m
        },
    }
}

/// Counting differences over the common prefix counts them all.
proof fn lemma_count_differences_prefix(a: Seq<bool>, b: Seq<bool>)
    ensures
        count_differences(a, b) == count_differences(
            a.take(if a.len() <= b.len() { a.len() as int } else { b.len() as int }),
            b,
        ),
{
    if a.len() <= b.len() {
        assert(a.take(a.len() as int) =~= a);
    } else if b.len() == 0 {
    } else {
        let t = a.take(b.len() as int);
        assert(t.take(b.len() as int) =~= t);
    }
}

impl IsingDisjoint {
    /// What `new` establishes and every method keeps: the number of points
    /// is the product of the side lengths, and the degree is even (two
    /// neighbours per axis).
    pub open spec fn well_formed(&self) -> bool {
        &&& self.n_points == product(self.sizes@)
        &&& self.deg % 2 == 0
    }

    /// A model of dimension `dim` with the given side lengths: `2 dim`
    /// neighbours per point, as many points as the product of the side
    /// lengths, no spins, edges or starting configurations yet, and a
    /// generator seeded with `seed`.
    pub fn new(dim: usize, sizes: Vec<usize>, seed: u64) -> (r: Self)
        requires
            dim <= usize::MAX / 2,
            product_fits(sizes@),
        ensures
            r.well_formed(),
            r.deg == 2 * dim,
            r.sizes@ == sizes@,
            r.n_points == product(sizes@),
            r.spins@ == Seq::<bool>::empty(),
            r.edges@ == Seq::<usize>::empty(),
            r.starting_configs is None,
            r.random_number_generator == seeded_generator(seed),
    {
        let mut n_points: usize = 1;
        let mut i: usize = 0;
        assert(sizes@.take(0) =~= Seq::<usize>::empty());
        while i < sizes.len()
            invariant
                i <= sizes.len(),
                product_fits(sizes@),
                n_points == product(sizes@.take(i as int)),
            decreases sizes.len() - i,
        {
            proof {
                lemma_product_take(sizes@, i as int);
                assert(product(sizes@.take(i + 1)) <= usize::MAX);
            }
            n_points = n_points * sizes[i];
            i = i + 1;
        }
        assert(sizes@.take(sizes.len() as int) =~= sizes@);
        let deg = dim * 2;
        IsingDisjoint {
            deg,
            sizes,
            n_points,
            spins: Spins::new(),
            edges: Vec::new(),
            starting_configs: None,
            random_number_generator: seeded(seed),
        }
    }

    /// The position of slot `edge_index` of `vertex` among all edge slots.
    pub fn edge_index(&self, vertex: usize, edge_index: usize) -> (r: usize)
        requires
            vertex * self.deg + edge_index <= usize::MAX,
        ensures
            r == vertex * self.deg + edge_index,
    {
        vertex * self.deg + edge_index
    }

    /// The other end of slot `edge_index` of `vertex`.
    pub fn edge_neighbour(&self, vertex: usize, edge_index: usize) -> (r: usize)
        requires
            vertex * self.deg + edge_index < self.edges@.len(),
        ensures
            r == self.edges@[vertex * self.deg + edge_index],
    {
        let n = self.edges.len();
        let k = self.edge_index(vertex, edge_index);
        self.edges[k]
    }

    /// The coordinates of `node`.
    fn to_coord(&self, node: usize) -> (coord: Vec<usize>)
        requires
            sides_positive(self.sizes@),
        ensures
            coord@ == digits(self.sizes@, node as nat),
    {
        let mut node_copy = node;
        let mut coord: Vec<usize> = Vec::new();
        let mut i: usize = 0;
        assert(self.sizes@.skip(0) =~= self.sizes@);
        while i < self.sizes.len()
            invariant
                i <= self.sizes.len(),
                sides_positive(self.sizes@),
                coord@ + digits(self.sizes@.skip(i as int), node_copy as nat) == digits(
                    self.sizes@,
                    node as nat,
                ),
            decreases self.sizes.len() - i,
        {
            let s = self.sizes[i];
            proof {
                let rest = self.sizes@.skip(i as int);
                assert(rest[0] == s);
                assert(rest.skip(1) =~= self.sizes@.skip(i + 1));
                assert(coord@.push(node_copy % s) + digits(rest.skip(1), (node_copy / s) as nat)
                    =~= coord@ + digits(rest, node_copy as nat));
            }
            coord.push(node_copy % s);
            node_copy = node_copy / s;
            i = i + 1;
        }
        assert(digits(self.sizes@.skip(i as int), node_copy as nat) =~= Seq::<usize>::empty());
        assert(coord@ + Seq::<usize>::empty() =~= coord@);
        coord
    }

    /// The point with coordinates `coord`.
    fn from_coord(&self, coord: &Vec<usize>) -> (node: usize)
        requires
            valid_coord(coord@, self.sizes@),
            product(self.sizes@) <= usize::MAX,
        ensures
            node == from_digits(coord@, self.sizes@),
    {
        let mut node: usize = 0;
        let mut i: usize = coord.len();
        assert(sides_positive(self.sizes@)) by {
            assert forall|j: int| 0 <= j < self.sizes@.len() implies #[trigger] self.sizes@[j]
                > 0 by {
                assert(coord@[j] < self.sizes@[j]);
            }
        }
        while i > 0
            invariant
                i <= coord.len(),
                valid_coord(coord@, self.sizes@),
                sides_positive(self.sizes@),
                product(self.sizes@) <= usize::MAX,
                node == from_digits(coord@.skip(i as int), self.sizes@.skip(i as int)),
            decreases i,
        {
            i = i - 1;
            proof {
                let c = coord@.skip(i as int);
                let s = self.sizes@.skip(i as int);
                assert(c.skip(1) =~= coord@.skip(i + 1));
                assert(s.skip(1) =~= self.sizes@.skip(i + 1));
                assert(valid_coord(c, s)) by {
                    assert forall|j: int| 0 <= j < c.len() implies #[trigger] c[j] < s[j] by {
                        assert(c[j] == coord@[i + j]);
                        assert(s[j] == self.sizes@[i + j]);
                    }
                }
                lemma_from_digits_bound(c, s);
                lemma_product_suffix(self.sizes@, i as int);
                assert(from_digits(c, s) == coord@[i as int] + self.sizes@[i as int] * node);
            }
            node = coord[i] + self.sizes[i] * node;
        }
        assert(coord@.skip(0) =~= coord@);
        assert(self.sizes@.skip(0) =~= self.sizes@);
        node
    }

    /// The neighbours of `node`, two per axis: slot `2 i` one step up along
    /// axis `i`, slot `2 i + 1` one step down, wrapping around; along an axis
    /// of length 1 both slots hold `node`.
    pub fn neighbours_disjoint(&self, node: usize) -> (r: Vec<usize>)
        requires
            sides_positive(self.sizes@),
            product(self.sizes@) <= usize::MAX,
        ensures
            r@.len() == 2 * self.sizes@.len(),
            forall|k: int| 0 <= k < r@.len() ==> r@[k] == neighbour(self.sizes@, node as nat, k),
    {
        let mut neighbours: Vec<usize> = Vec::new();
        let mut node_coord = self.to_coord(node);
        let ghost c0 = node_coord@;
        proof {
            lemma_digits_valid(self.sizes@, node as nat);
        }
        let mut i: usize = 0;
        while i < self.sizes.len()
            invariant
                i <= self.sizes.len(),
                sides_positive(self.sizes@),
                product(self.sizes@) <= usize::MAX,
                c0 == digits(self.sizes@, node as nat),
                valid_coord(c0, self.sizes@),
                node_coord@ == c0,
                neighbours@.len() == 2 * i,
                forall|k: int|
                    0 <= k < neighbours@.len() ==> neighbours@[k] == neighbour(
                        self.sizes@,
                        node as nat,
                        k,
                    ),
            decreases self.sizes.len() - i,
        {
            let s = self.sizes[i];
            if s > 1 {
                let c = node_coord[i];
                proof {
                    lemma_step_values(c, s);
                    lemma_steps_cancel(c, s);
                }
                let up = if c + 1 == s {
                    0
                } else {
                    c + 1
                };
                node_coord.set(i, up);
                proof {
                    assert(node_coord@ == c0.update(i as int, step_up(c, s)));
                }
                let a = self.from_coord(&node_coord);
                let down = if c == 0 {
                    s - 1
                } else {
                    c - 1
                };
                node_coord.set(i, down);
                proof {
                    assert(node_coord@ == c0.update(i as int, step_down(c, s)));
                }
                let b = self.from_coord(&node_coord);
                node_coord.set(i, c);
                proof {
                    assert((2 * i) as int / 2 == i);
                    assert((2 * i + 1) as int / 2 == i);
                    assert((2 * i) as int % 2 == 0);
                    assert((2 * i + 1) as int % 2 == 1);
                    assert(node_coord@ =~= c0);
                    assert(a == neighbour(self.sizes@, node as nat, 2 * i));
                    assert(b == neighbour(self.sizes@, node as nat, 2 * i + 1));
                }
                neighbours.push(a);
                neighbours.push(b);
            } else {
                proof {
                    assert((2 * i) as int / 2 == i);
                    assert((2 * i + 1) as int / 2 == i);
                    assert(node == neighbour(self.sizes@, node as nat, 2 * i));
                    assert(node == neighbour(self.sizes@, node as nat, 2 * i + 1));
                }
                neighbours.push(node);
                neighbours.push(node);
            }
            i = i + 1;
        }
        neighbours
    }

    /// Fills the edge slots of every point from its neighbours: slot `j` of
    /// `node` points at neighbour `j`, unless an earlier slot of `node`
    /// already points at that neighbour, in which case it points at `node`
    /// itself and its weight is dropped. Returns, slot by slot, whether the
    /// slot keeps its weight (the weights themselves stay with the caller).
    pub fn set_edges(&mut self) -> (kept: Vec<bool>)
        requires
            old(self).well_formed(),
            old(self).n_points * old(self).deg <= usize::MAX,
        ensures
            final(self).edges@ == edge_targets(
                old(self).sizes@,
                old(self).n_points as nat,
                slots_per_point(old(self).deg, old(self).sizes@),
            ),
            kept@ == edge_kept(
                old(self).sizes@,
                old(self).n_points as nat,
                slots_per_point(old(self).deg, old(self).sizes@),
            ),
            old(self).deg <= 2 * old(self).sizes@.len() ==> final(self).edges@.len()
                == old(self).n_points * old(self).deg,
            old(self).deg <= 2 * old(self).sizes@.len() ==> forall|p: int, j: int|
                0 <= p < old(self).n_points && 0 <= j < old(self).deg ==> (#[trigger] final(self).edges@[p * old(self).deg + j]) == (if exists|t: int|
                    0 <= t < j && #[trigger] neighbour(old(self).sizes@, p as nat, t) == neighbour(
                        old(self).sizes@,
                        p as nat,
                        j,
                    ) {
                    p
                } else {
                    neighbour(old(self).sizes@, p as nat, j) as int
                }),
            final(self).well_formed() == old(self).well_formed(),
            final(self).deg == old(self).deg,
            final(self).sizes@ == old(self).sizes@,
            final(self).n_points == old(self).n_points,
            final(self).spins@ == old(self).spins@,
            final(self).starting_configs == old(self).starting_configs,
            final(self).random_number_generator == old(self).random_number_generator,
    {
        let ghost sizes = self.sizes@;
        let ghost m = slots_per_point(self.deg, sizes);
        let mut edges: Vec<usize> = Vec::new();
        let mut kept: Vec<bool> = Vec::new();
        let mut node: usize = 0;
        assert(edges@ =~= edge_targets(sizes, 0, m));
        assert(kept@ =~= edge_kept(sizes, 0, m));
        while node < self.n_points
            invariant
                self.n_points == product(self.sizes@),
                sizes == self.sizes@,
                m == slots_per_point(self.deg, sizes),
                node <= self.n_points,
                edges@ == edge_targets(sizes, node as nat, m),
                kept@ == edge_kept(sizes, node as nat, m),
            decreases self.n_points - node,
        {
            proof {
                lemma_product_positive_sides(sizes);
            }
            let neighbours = self.neighbours_disjoint(node);
            let slots = if self.deg <= neighbours.len() {
                self.deg
            } else {
                neighbours.len()
            };
            assert(slots == m);
            let mut row: Vec<usize> = Vec::new();
            let mut row_kept: Vec<bool> = Vec::new();
            let mut j: usize = 0;
            while j < slots
                invariant
                    j <= slots,
                    slots <= neighbours@.len(),
                    neighbours@.len() == 2 * sizes.len(),
                    forall|k: int|
                        0 <= k < neighbours@.len() ==> neighbours@[k] == neighbour(
                            sizes,
                            node as nat,
                            k,
                        ),
                    row@.len() == j,
                    row_kept@.len() == j,
                    forall|t: int|
                        0 <= t < j ==> row@[t] == slot_target(sizes, node as nat, t)
                            && row_kept@[t] == slot_kept(sizes, node as nat, t),
                decreases slots - j,
            {
                let nb = neighbours[j];
                if nb == node {
                    row.push(nb);
                    row_kept.push(true);
                } else {
                    let mut found = false;
                    let mut k: usize = 0;
                    while k < j && !found
                        invariant
                            k <= j,
                            row@.len() == j,
                            found <==> exists|t: int| 0 <= t < k && row@[t] == nb,
                        decreases j - k,
                    {
                        if row[k] == nb {
                            found = true;
                        }
                        k = k + 1;
                    }
                    proof {
                        let nbj = neighbour(sizes, node as nat, j as int);
                        if found {
                            let t = choose|t: int| 0 <= t < k && row@[t] == nb;
                            assert(slot_target(sizes, node as nat, t) == nbj);
                            assert(slot_kept(sizes, node as nat, t));
                            assert(!slot_kept(sizes, node as nat, j as int));
                        } else {
                            assert(k == j);
                            if !slot_kept(sizes, node as nat, j as int) {
                                let t = choose|t: int|
                                    0 <= t < j && neighbour(sizes, node as nat, t) == nbj;
                                lemma_repeat_has_kept_target(sizes, node as nat, j as int, t);
                                let u = choose|u: int|
                                    0 <= u <= t && slot_target(sizes, node as nat, u) == nbj;
                                assert(row@[u] == nb);
                            }
                        }
                    }
                    if found {
                        row.push(node);
                        row_kept.push(false);
                    } else {
                        row.push(nb);
                        row_kept.push(true);
                    }
                }
                j = j + 1;
            }
            proof {
                let n1 = (node + 1) as nat;
                assert(n1 * m == node * m + m) by (nonlinear_arith)
                    requires
                        n1 == node + 1,
                ;
                assert forall|t: int| 0 <= t < n1 * m implies (#[trigger] edge_targets(
                    sizes,
                    n1,
                    m,
                )[t]) == (edges@ + row@)[t] by {
                    if t >= node * m {
                        lemma_fundamental_div_mod_converse(t, m as int, node as int, t - node * m);
                    }
                }
                assert forall|t: int| 0 <= t < n1 * m implies (#[trigger] edge_kept(
                    sizes,
                    n1,
                    m,
                )[t]) == (kept@ + row_kept@)[t] by {
                    if t >= node * m {
                        lemma_fundamental_div_mod_converse(t, m as int, node as int, t - node * m);
                    }
                }
                assert(edge_targets(sizes, n1, m) =~= edges@ + row@);
                assert(edge_kept(sizes, n1, m) =~= kept@ + row_kept@);
            }
            edges.append(&mut row);
            kept.append(&mut row_kept);
            node = node + 1;
        }
        self.edges = edges;
        proof {
            let d = self.deg;
            if d <= 2 * sizes.len() {
                assert(slots_per_point(d, sizes) == d);
                assert forall|p: int, j: int| 0 <= p < self.n_points && 0 <= j < d implies (
                #[trigger] self.edges@[p * d + j]) == (if exists|t: int|
                    0 <= t < j && #[trigger] neighbour(sizes, p as nat, t) == neighbour(sizes, p as nat, j) {
                    p
                } else {
                    neighbour(sizes, p as nat, j) as int
                }) by {
                    lemma_edge_slots(sizes, self.n_points as nat, d, p as nat, j);
                }
            }
        }
        kept
    }

    /// Replaces the starting configurations.
    pub fn set_starting_configs(&mut self, starting_config: Option<Vec<Spins>>)
        ensures
            final(self).starting_configs == starting_config,
            final(self).well_formed() == old(self).well_formed(),
            final(self).deg == old(self).deg,
            final(self).sizes@ == old(self).sizes@,
            final(self).n_points == old(self).n_points,
            final(self).spins@ == old(self).spins@,
            final(self).edges@ == old(self).edges@,
            final(self).random_number_generator == old(self).random_number_generator,
    {
        self.starting_configs = starting_config;
    }

    /// Draws every spin with a fair coin from the model's generator, point by
    /// point.
    pub fn init_spins_unif(&mut self)
        requires
            old(self).n_points <= max_bits(),
        ensures
            final(self).spins@.len() == old(self).n_points,
            final(self).well_formed() == old(self).well_formed(),
            final(self).deg == old(self).deg,
            final(self).sizes@ == old(self).sizes@,
            final(self).n_points == old(self).n_points,
            final(self).edges@ == old(self).edges@,
            final(self).starting_configs == old(self).starting_configs,
    {
        let mut spins = Spins::new();
        let mut i: usize = 0;
        let ghost deg = self.deg;
        let ghost sizes = self.sizes@;
        let ghost n_points = self.n_points;
        let ghost edges = self.edges@;
        let ghost configs = self.starting_configs;
        while i < self.n_points
            invariant
                self.deg == deg,
                self.sizes@ == sizes,
                self.n_points == n_points,
                self.edges@ == edges,
                self.starting_configs == configs,
                i <= self.n_points,
                self.n_points <= max_bits(),
                spins@.len() == i,
            decreases self.n_points - i,
        {
            let bit = random_ratio(&mut self.random_number_generator, 1, 2);
            spins.push(bit);
            i = i + 1;
        }
        self.spins = spins;
    }

    /// Sets the spins to start from. With no starting configurations they
    /// are drawn uniformly (`init_spins_unif`); otherwise they become a copy
    /// of configuration number `choice`, the one that the caller drew by the
    /// configurations' weights.
    pub fn init_spins_disjoint(&mut self, choice: usize)
        requires
            match old(self).starting_configs {
                Some(configs) => choice < configs@.len(),
                None => old(self).n_points <= max_bits(),
            },
        ensures
            match old(self).starting_configs {
                Some(configs) => final(self).spins@ == configs@[choice as int]@,
                None => final(self).spins@.len() == old(self).n_points,
            },
            final(self).well_formed() == old(self).well_formed(),
            final(self).deg == old(self).deg,
            final(self).sizes@ == old(self).sizes@,
            final(self).n_points == old(self).n_points,
            final(self).edges@ == old(self).edges@,
            final(self).starting_configs == old(self).starting_configs,
    {
        match &self.starting_configs {
            None => {
                self.init_spins_unif();
            },
            Some(configs) => {
                let spins = configs[choice].duplicate();
                self.set_spins(spins);
            },
        }
    }

    /// Replaces the spins.
    fn set_spins(&mut self, spins: Spins)
        ensures
            final(self).spins == spins,
            final(self).well_formed() == old(self).well_formed(),
            final(self).deg == old(self).deg,
            final(self).sizes@ == old(self).sizes@,
            final(self).n_points == old(self).n_points,
            final(self).edges@ == old(self).edges@,
            final(self).starting_configs == old(self).starting_configs,
            final(self).random_number_generator == old(self).random_number_generator,
    {
        self.spins = spins;
    }

    /// Flips the spin of `node`; nothing else changes.
    pub fn flip_spin_disjoint(&mut self, node: usize)
        requires
            node < old(self).spins@.len(),
        ensures
            final(self).spins@ == flipped(old(self).spins@, node as int),
            final(self).well_formed() == old(self).well_formed(),
            final(self).deg == old(self).deg,
            final(self).sizes@ == old(self).sizes@,
            final(self).n_points == old(self).n_points,
            final(self).edges@ == old(self).edges@,
            final(self).starting_configs == old(self).starting_configs,
            final(self).random_number_generator == old(self).random_number_generator,
    {
        let spin = self.spins.get(node);
        self.spins.set(node, !spin);
    }

    /// A point drawn uniformly from the model's generator.
    pub fn random_node(&mut self) -> (node: usize)
        requires
            old(self).n_points > 0,
        ensures
            node < old(self).n_points,
            final(self).well_formed() == old(self).well_formed(),
            final(self).deg == old(self).deg,
            final(self).sizes@ == old(self).sizes@,
            final(self).n_points == old(self).n_points,
            final(self).spins@ == old(self).spins@,
            final(self).edges@ == old(self).edges@,
            final(self).starting_configs == old(self).starting_configs,
    {
        random_below(&mut self.random_number_generator, self.n_points)
    }
}

} // verus!

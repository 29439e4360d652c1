//! Geometry of a periodic grid: points are numbered in mixed radix, the first
//! coordinate varying fastest, and each point has two neighbours along every
//! axis (one step up and one step down, wrapping around).

use vstd::prelude::*;
use vstd::arithmetic::div_mod::{lemma_fundamental_div_mod_converse, lemma_mod_breakdown};
use vstd::arithmetic::mul::{
    lemma_mul_is_associative,
    lemma_mul_is_distributive_sub,
    lemma_mul_inequality,
    lemma_mul_left_inequality,
};

verus! {

/// The number of points of a grid with the given side lengths.
pub open spec fn product(sizes: Seq<usize>) -> nat
    decreases sizes.len(),
{
    if sizes.len() == 0 {
        1
    } else {
        product(sizes.drop_last()) * (sizes.last() as nat)
    }
}

/// Every side length is positive.
pub open spec fn sides_positive(sizes: Seq<usize>) -> bool {
    forall|i: int| 0 <= i < sizes.len() ==> #[trigger] sizes[i] > 0
}

/// Multiplying the side lengths together, in order, never leaves `usize`.
pub open spec fn product_fits(sizes: Seq<usize>) -> bool {
    forall|i: int| 0 <= i <= sizes.len() ==> #[trigger] product(sizes.take(i)) <= usize::MAX
}

/// The coordinates of point `node`: its digits in the mixed radix given by
/// the side lengths, least significant first.
pub open spec fn digits(sizes: Seq<usize>, node: nat) -> Seq<usize>
    decreases sizes.len(),
{
    if sizes.len() == 0 {
        seq![]
    } else {
        seq![(node % (sizes[0] as nat)) as usize] + digits(sizes.skip(1), node / (sizes[0] as nat))
    }
}

/// The point with the given coordinates (the coordinates and the side lengths
/// are paired up as far as both go).
pub open spec fn from_digits(coord: Seq<usize>, sizes: Seq<usize>) -> nat
    decreases coord.len(),
{
    if coord.len() == 0 || sizes.len() == 0 {
        0
    } else {
        coord[0] as nat + (sizes[0] as nat) * from_digits(coord.skip(1), sizes.skip(1))
    }
}

/// Coordinates that name a point of the grid.
pub open spec fn valid_coord(coord: Seq<usize>, sizes: Seq<usize>) -> bool {
    &&& coord.len() == sizes.len()
    &&& forall|i: int| 0 <= i < coord.len() ==> #[trigger] coord[i] < sizes[i]
}

/// One step up along an axis of length `size`, wrapping around.
pub open spec fn step_up(c: usize, size: usize) -> usize {
    ((c + 1) % (size as int)) as usize
}

/// One step down along an axis of length `size`, wrapping around.
pub open spec fn step_down(c: usize, size: usize) -> usize {
    ((c + size - 1) % (size as int)) as usize
}

/// Neighbour number `k` of `node`: slot `2 i` is one step up along axis `i`,
/// slot `2 i + 1` one step down; along an axis of length at most 1 both slots
/// hold `node` itself.
pub open spec fn neighbour(sizes: Seq<usize>, node: nat, k: int) -> nat {
    let i = k / 2;
    if sizes[i] > 1 {
        let c = digits(sizes, node);
        let moved = if k % 2 == 0 {
            step_up(c[i], sizes[i])
        } else {
            step_down(c[i], sizes[i])
        };
        from_digits(c.update(i, moved), sizes)
    } else {
        node
    }
}

/// The slot of the opposite direction along the same axis.
pub open spec fn opposite_slot(k: int) -> int {
    if k % 2 == 0 {
        k + 1
    } else {
        k - 1
    }
}

/// The product of a nonempty sequence, split at its first factor.
pub proof fn lemma_product_skip(s: Seq<usize>)
    requires
        s.len() > 0,
    ensures
        product(s) == (s[0] as nat) * product(s.skip(1)),
    decreases s.len(),
{
    if s.len() == 1 {
        assert(s.drop_last().len() == 0);
        assert(s.skip(1).len() == 0);
        assert(product(s.drop_last()) == 1);
        assert(product(s.skip(1)) == 1);
        assert(s.last() == s[0]);
    } else {
        let d = s.drop_last();
        lemma_product_skip(d);
        assert(s.skip(1).drop_last() =~= d.skip(1));
        assert(s.skip(1).last() == s.last());
        assert(d[0] == s[0]);
        assert(product(s.skip(1)) == product(d.skip(1)) * (s.last() as nat));
        assert(product(s) == product(d) * (s.last() as nat));
        lemma_mul_is_associative(s[0] as int, product(d.skip(1)) as int, s.last() as int);
    }
}

/// A longer prefix has the product of the shorter one times the next factor.
pub proof fn lemma_product_take(s: Seq<usize>, i: int)
    requires
        0 <= i < s.len(),
    ensures
        product(s.take(i + 1)) == product(s.take(i)) * (s[i] as nat),
{
    assert(s.take(i + 1).drop_last() =~= s.take(i));
}

/// With positive side lengths, every suffix has a positive product no larger
/// than that of the whole.
pub proof fn lemma_product_suffix(s: Seq<usize>, i: int)
    requires
        sides_positive(s),
        0 <= i <= s.len(),
    ensures
        0 < product(s.skip(i)) <= product(s),
    decreases i,
{
    if i == 0 {
        assert(s.skip(0) =~= s);
        lemma_product_positive(s);
    } else {
        lemma_product_suffix(s, i - 1);
        let t = s.skip(i - 1);
        lemma_product_skip(t);
        assert(t.skip(1) =~= s.skip(i));
        assert(t[0] == s[i - 1]);
        assert(s[i - 1] > 0);
        let u = s.skip(i);
        assert(sides_positive(u)) by {
            assert forall|j: int| 0 <= j < u.len() implies #[trigger] u[j] > 0 by {
                assert(u[j] == s[i + j]);
            }
        }
        lemma_product_positive(u);
        lemma_mul_inequality(1, t[0] as int, product(t.skip(1)) as int);
    }
}

/// With positive side lengths the product is positive.
pub proof fn lemma_product_positive(s: Seq<usize>)
    requires
        sides_positive(s),
    ensures
        product(s) > 0,
    decreases s.len(),
{
    if s.len() > 0 {
        let d = s.drop_last();
        assert(sides_positive(d)) by {
            assert forall|i: int| 0 <= i < d.len() implies #[trigger] d[i] > 0 by {
                assert(d[i] == s[i]);
            }
        }
        lemma_product_positive(d);
        assert(s.last() == s[s.len() - 1]);
        lemma_mul_left_inequality(product(d) as int, 0, s.last() as int);
    }
}

/// Coordinates of a point are valid coordinates.
pub proof fn lemma_digits_valid(sizes: Seq<usize>, node: nat)
    requires
        sides_positive(sizes),
    ensures
        valid_coord(digits(sizes, node), sizes),
    decreases sizes.len(),
{
    if sizes.len() > 0 {
        let rest = sizes.skip(1);
        assert(sides_positive(rest)) by {
            assert forall|i: int| 0 <= i < rest.len() implies #[trigger] rest[i] > 0 by {
                assert(rest[i] == sizes[i + 1]);
            }
        }
        lemma_digits_valid(rest, node / (sizes[0] as nat));
        let d = digits(sizes, node);
        assert forall|i: int| 0 <= i < d.len() implies #[trigger] d[i] < sizes[i] by {
            if i > 0 {
                assert(d[i] == digits(rest, node / (sizes[0] as nat))[i - 1]);
                assert(rest[i - 1] == sizes[i]);
            }
        }
    }
}

/// Valid coordinates name a point below the product of the side lengths.
pub proof fn lemma_from_digits_bound(coord: Seq<usize>, sizes: Seq<usize>)
    requires
        valid_coord(coord, sizes),
    ensures
        from_digits(coord, sizes) < product(sizes),
    decreases coord.len(),
{
    if coord.len() > 0 {
        let c1 = coord.skip(1);
        let s1 = sizes.skip(1);
        assert(valid_coord(c1, s1)) by {
            assert forall|i: int| 0 <= i < c1.len() implies #[trigger] c1[i] < s1[i] by {
                assert(c1[i] == coord[i + 1]);
                assert(s1[i] == sizes[i + 1]);
            }
        }
        lemma_from_digits_bound(c1, s1);
        lemma_product_skip(sizes);
        let v = from_digits(c1, s1) as int;
        let p = product(s1) as int;
        let s0 = sizes[0] as int;
        assert(coord[0] < sizes[0]);
        lemma_mul_left_inequality(s0, v, p - 1);
        lemma_mul_is_distributive_sub(s0, p, 1);
    }
}

/// The coordinates of the point named by valid coordinates are those
/// coordinates.
pub proof fn lemma_digits_of_from_digits(coord: Seq<usize>, sizes: Seq<usize>)
    requires
        valid_coord(coord, sizes),
    ensures
        digits(sizes, from_digits(coord, sizes)) == coord,
    decreases coord.len(),
{
    if coord.len() == 0 {
        assert(digits(sizes, from_digits(coord, sizes)) =~= coord);
    } else {
        let c1 = coord.skip(1);
        let s1 = sizes.skip(1);
        assert(valid_coord(c1, s1)) by {
            assert forall|i: int| 0 <= i < c1.len() implies #[trigger] c1[i] < s1[i] by {
                assert(c1[i] == coord[i + 1]);
                assert(s1[i] == sizes[i + 1]);
            }
        }
        lemma_digits_of_from_digits(c1, s1);
        let v = from_digits(c1, s1) as int;
        let n = from_digits(coord, sizes);
        let s0 = sizes[0] as int;
        assert(coord[0] < sizes[0]);
        assert(n == v * s0 + coord[0]) by {
            vstd::arithmetic::mul::lemma_mul_is_commutative(v, s0);
        }
        lemma_fundamental_div_mod_converse(n as int, s0, v, coord[0] as int);
        assert(digits(sizes, n) =~= coord);
    }
}

/// The point named by the coordinates of `node` is `node` reduced modulo the
/// number of points.
pub proof fn lemma_from_digits_of_digits(sizes: Seq<usize>, node: nat)
    requires
        sides_positive(sizes),
    ensures
        from_digits(digits(sizes, node), sizes) == node % product(sizes),
    decreases sizes.len(),
{
    if sizes.len() == 0 {
    } else {
        let s1 = sizes.skip(1);
        let s0 = sizes[0] as nat;
        assert(sides_positive(s1)) by {
            assert forall|i: int| 0 <= i < s1.len() implies #[trigger] s1[i] > 0 by {
                assert(s1[i] == sizes[i + 1]);
            }
        }
        assert(sizes[0] > 0);
        lemma_from_digits_of_digits(s1, node / s0);
        let d = digits(sizes, node);
        assert(d.skip(1) =~= digits(s1, node / s0));
        lemma_product_skip(sizes);
        lemma_product_positive(s1);
        lemma_mod_breakdown(node as int, s0 as int, product(s1) as int);
    }
}

/// Stepping up and then down (or down and then up) along an axis of length at
/// least 2 returns to the start.
pub proof fn lemma_steps_cancel(c: usize, size: usize)
    requires
        c < size,
        size > 1,
    ensures
        step_down(step_up(c, size), size) == c,
        step_up(step_down(c, size), size) == c,
        step_up(c, size) < size,
        step_down(c, size) < size,
{
    if c + 1 < size {
        assert((c + 1) % (size as int) == c + 1) by {
            lemma_fundamental_div_mod_converse(c + 1, size as int, 0, c + 1);
        }
        lemma_fundamental_div_mod_converse(c + 1 + size - 1, size as int, 1, c as int);
    } else {
        lemma_fundamental_div_mod_converse(c + 1, size as int, 1, 0);
        lemma_fundamental_div_mod_converse(size - 1, size as int, 0, c as int);
    }
    if c > 0 {
        lemma_fundamental_div_mod_converse(c + size - 1, size as int, 1, c - 1);
        lemma_fundamental_div_mod_converse(c as int, size as int, 0, c as int);
    } else {
        lemma_fundamental_div_mod_converse(size - 1, size as int, 0, size - 1);
        lemma_fundamental_div_mod_converse(size as int, size as int, 1, 0);
    }
}

/// Every neighbour of a point of the grid is a point of the grid.
pub proof fn lemma_neighbour_in_grid(sizes: Seq<usize>, node: nat, k: int)
    requires
        sides_positive(sizes),
        node < product(sizes),
        0 <= k < 2 * sizes.len(),
    ensures
        neighbour(sizes, node, k) < product(sizes),
{
    let i = k / 2;
    if sizes[i] > 1 {
        let c = digits(sizes, node);
        lemma_digits_valid(sizes, node);
        lemma_steps_cancel(c[i], sizes[i]);
        let moved = if k % 2 == 0 {
            step_up(c[i], sizes[i])
        } else {
            step_down(c[i], sizes[i])
        };
        let c2 = c.update(i, moved);
        assert(valid_coord(c2, sizes));
        lemma_from_digits_bound(c2, sizes);
    }
}

/// Neighbours come in opposite pairs: the neighbour of `node` in slot `k` has
/// `node` as its neighbour in the opposite slot along the same axis.
pub proof fn lemma_neighbour_symmetric(sizes: Seq<usize>, node: nat, k: int)
    requires
        sides_positive(sizes),
        node < product(sizes),
        0 <= k < 2 * sizes.len(),
    ensures
        neighbour(sizes, neighbour(sizes, node, k), opposite_slot(k)) == node,
{
    let i = k / 2;
    let k2 = opposite_slot(k);
    assert(k2 / 2 == i);
    if sizes[i] > 1 {
        let c = digits(sizes, node);
        lemma_digits_valid(sizes, node);
        lemma_steps_cancel(c[i], sizes[i]);
        let moved = if k % 2 == 0 {
            step_up(c[i], sizes[i])
        } else {
            step_down(c[i], sizes[i])
        };
        let c2 = c.update(i, moved);
        assert(valid_coord(c2, sizes));
        let m = from_digits(c2, sizes);
        lemma_digits_of_from_digits(c2, sizes);
        assert(digits(sizes, m) == c2);
        assert(c2.update(i, c[i]) =~= c);
        lemma_from_digits_of_digits(sizes, node);
        lemma_fundamental_div_mod_converse(node as int, product(sizes) as int, 0, node as int);
    }
}

/// The two steps in closed form, as a program computes them without
/// overflow.
pub proof fn lemma_step_values(c: usize, size: usize)
    requires
        c < size,
    ensures
        step_up(c, size) == if c + 1 == size { 0 } else { c + 1 },
        step_down(c, size) == if c == 0 { size - 1 } else { c - 1 },
{
    if c + 1 == size {
        lemma_fundamental_div_mod_converse(c + 1, size as int, 1, 0);
    } else {
        lemma_fundamental_div_mod_converse(c + 1, size as int, 0, c + 1);
    }
    if c == 0 {
        lemma_fundamental_div_mod_converse(size - 1, size as int, 0, size - 1);
    } else {
        lemma_fundamental_div_mod_converse(c + size - 1, size as int, 1, c - 1);
    }
}

/// A grid with points has positive side lengths.
pub proof fn lemma_product_positive_sides(s: Seq<usize>)
    requires
        product(s) > 0,
    ensures
        sides_positive(s),
    decreases s.len(),
{
    if s.len() > 0 {
        let d = s.drop_last();
        if product(d) == 0 {
            assert(product(s) == 0);
        }
        lemma_product_positive_sides(d);
        if s.last() == 0 {
            assert(product(s) == 0);
        }
        assert forall|i: int| 0 <= i < s.len() implies #[trigger] s[i] > 0 by {
            if i < s.len() - 1 {
                assert(s[i] == d[i]);
            }
        }
    }
}

} // verus!

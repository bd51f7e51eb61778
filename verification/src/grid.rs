//! Geometry of the grid: cells, digits, and the numbering of walls.
//!
//! A maze with `d` axes has `8^d` cells. Cell `c` has coordinate
//! `(c / 8^k) % 8` on axis `k`. Along each axis there are `7 * 8^(d-1)`
//! walls, one between every cell whose coordinate on that axis is below 7
//! and its successor on that axis.

use vstd::prelude::*;
use vstd::arithmetic::power2::{pow2, lemma_pow2_adds, lemma2_to64, lemma_pow2_strictly_increases};
use vstd::arithmetic::div_mod::{
    lemma_mod_breakdown, lemma_div_denominator, lemma_fundamental_div_mod,
    lemma_mod_pos_bound, lemma_fundamental_div_mod_converse,
};
use vstd::arithmetic::mul::{lemma_mul_is_associative, lemma_mul_inequality, lemma_mul_is_distributive_add};
use vstd::bits::lemma_u32_shl_is_mul;

verus! {

/// `8^n`: the number of cells of a maze with `n` axes.
pub open spec fn pow8(n: nat) -> nat
    decreases n,
{
    if n == 0 {
        1
    } else {
        8 * pow8((n - 1) as nat)
    }
}

pub proof fn lemma_pow8_pos(n: nat)
    ensures
        pow8(n) > 0,
    decreases n,
{
    if n > 0 {
        lemma_pow8_pos((n - 1) as nat);
    }
}

pub proof fn lemma_pow8_adds(a: nat, b: nat)
    ensures
        pow8(a + b) == pow8(a) * pow8(b),
    decreases a,
{
    if a > 0 {
        let a1 = (a - 1) as nat;
        lemma_pow8_adds(a1, b);
        assert(a + b == (a1 + b) + 1);
        assert(pow8(a + b) == 8 * pow8(a1 + b));
        assert(pow8(a) == 8 * pow8(a1));
        lemma_mul_is_associative(8, pow8(a1) as int, pow8(b) as int);
        assert(pow8(a + b) == 8 * (pow8(a1) * pow8(b)));
        assert(pow8(a) * pow8(b) == (8 * pow8(a1)) * pow8(b));
    } else {
        assert(a + b == b);
        assert(pow8(a) == 1);
    }
}

pub proof fn lemma_pow8_is_pow2(n: nat)
    ensures
        pow8(n) == pow2(3 * n),
    decreases n,
{
    if n > 0 {
        lemma_pow8_is_pow2((n - 1) as nat);
        lemma_pow2_adds(3 * (n - 1) as nat, 3);
        lemma2_to64();
        assert(3 * n == 3 * (n - 1) as nat + 3);
    } else {
        lemma2_to64();
    }
}

pub proof fn lemma_pow8_monotone(a: nat, b: nat)
    requires
        a <= b,
    ensures
        pow8(a) <= pow8(b),
{
    lemma_pow8_adds(a, (b - a) as nat);
    lemma_pow8_pos((b - a) as nat);
    lemma_pow8_pos(a);
    lemma_mul_inequality(1, pow8((b - a) as nat) as int, pow8(a) as int);
}

pub proof fn lemma_pow8_injective(a: nat, b: nat)
    requires
        pow8(a) == pow8(b),
    ensures
        a == b,
{
    if a < b {
        lemma_pow8_adds(a, (b - a) as nat);
        lemma_pow8_pos(a);
        lemma_pow8_monotone(1, (b - a) as nat);
        assert(pow8(0) == 1);
        assert(pow8(1) == 8);
        assert(pow8(a) * pow8((b - a) as nat) >= pow8(a) * 8) by (nonlinear_arith)
            requires pow8((b - a) as nat) >= 8, pow8(a) > 0;
    } else if b < a {
        lemma_pow8_adds(b, (a - b) as nat);
        lemma_pow8_pos(b);
        lemma_pow8_monotone(1, (a - b) as nat);
        assert(pow8(0) == 1);
        assert(pow8(1) == 8);
        assert(pow8(b) * pow8((a - b) as nat) >= pow8(b) * 8) by (nonlinear_arith)
            requires pow8((a - b) as nat) >= 8, pow8(b) > 0;
    }
}

pub proof fn lemma_pow8_le_9(n: nat)
    requires
        n <= 9,
    ensures
        pow8(n) <= 134217728,
{
    lemma_pow8_monotone(n, 9);
    reveal_with_fuel(pow8, 10);
    assert(pow8(9) == 134217728);
}

pub proof fn lemma_pow8_le_10(n: nat)
    requires
        n <= 10,
    ensures
        pow8(n) <= 1073741824,
{
    lemma_pow8_monotone(n, 10);
    reveal_with_fuel(pow8, 11);
    assert(pow8(10) == 1073741824);
}

pub proof fn lemma_pow8_le_8(n: nat)
    requires
        n <= 8,
    ensures
        pow8(n) <= 16777216,
{
    lemma_pow8_monotone(n, 8);
    reveal_with_fuel(pow8, 9);
    assert(pow8(8) == 16777216);
}

/// A maze with at most nine axes has fewer than 2^30 walls.
pub proof fn lemma_wall_count_bound(d: nat)
    requires
        1 <= d <= 9,
    ensures
        wall_count(d) <= 1056964608,
        wall_count(d) > 0,
{
    lemma_pow8_le_8((d - 1) as nat);
    lemma_pow8_pos((d - 1) as nat);
    assert(d * (7 * pow8((d - 1) as nat)) <= 9 * (7 * 16777216)) by (nonlinear_arith)
        requires d <= 9, pow8((d - 1) as nat) <= 16777216;
    assert(d * (7 * pow8((d - 1) as nat)) > 0) by (nonlinear_arith)
        requires d >= 1, pow8((d - 1) as nat) > 0;
}

/// `8^k` computed as the shift `1 << 3k`.
pub fn pow8_u32(k: u32) -> (r: u32)
    requires
        k <= 10,
    ensures
        r == pow8(k as nat),
{
    proof {
        lemma_pow8_is_pow2(k as nat);
        lemma2_to64();
        if 3 * k < 30 {
            lemma_pow2_strictly_increases((3 * k) as nat, 30);
        }
        lemma_u32_shl_is_mul(1, (3 * k) as u32);
    }
    1u32 << (3 * k)
}


/// Number of walls along one axis of a maze with `d` axes.
pub open spec fn axis_walls(d: nat) -> nat {
    7 * pow8((d - 1) as nat)
}

/// Number of walls of a maze with `d` axes.
pub open spec fn wall_count(d: nat) -> nat {
    d * axis_walls(d)
}

/// Coordinate of cell `c` on axis `k`.
pub open spec fn digit(c: nat, k: nat) -> nat {
    (c / pow8(k)) % 8
}

/// The axis that wall `w` is crossed along.
pub open spec fn wall_axis(w: nat, d: nat) -> nat {
    w / axis_walls(d)
}

/// The cell on the low side of wall `w`. Within its axis, the walls are
/// numbered in mixed radix: 7 positions on the wall's own axis, 8 on every
/// other axis.
pub open spec fn wall_low(w: nat, d: nat) -> nat {
    let r = w % axis_walls(d);
    let k = wall_axis(w, d);
    let q = r / pow8(k);
    r % pow8(k) + pow8(k) * (q % 7) + pow8(k + 1) * (q / 7)
}

/// The cell on the high side of wall `w`: the low cell's successor on the
/// wall's axis.
pub open spec fn wall_high(w: nat, d: nat) -> nat {
    wall_low(w, d) + pow8(wall_axis(w, d))
}

/// The number of the wall between cell `a` and its successor on axis `k`.
pub open spec fn wall_between(a: nat, k: nat, d: nat) -> nat {
    k * axis_walls(d) + a % pow8(k) + pow8(k) * (digit(a, k) + 7 * (a / pow8(k + 1)))
}

/// Splitting off the digit at position `i`.
pub proof fn lemma_digit_split(x: nat, i: nat)
    ensures
        pow8(i + 1) == pow8(i) * 8,
        x % pow8(i + 1) == x % pow8(i) + pow8(i) * ((x / pow8(i)) % 8),
        x / pow8(i + 1) == (x / pow8(i)) / 8,
{
    lemma_pow8_pos(i);
    assert(pow8(i + 1) == 8 * pow8(i));
    lemma_mod_breakdown(x as int, pow8(i) as int, 8);
    lemma_div_denominator(x as int, pow8(i) as int, 8);
}

/// `x < a * b` gives `x / a < b`.
pub proof fn lemma_div_below(x: nat, a: nat, b: nat)
    requires
        a > 0,
        x < a * b,
    ensures
        x / a < b,
{
    lemma_fundamental_div_mod(x as int, a as int);
    lemma_mod_pos_bound(x as int, a as int);
    if x / a >= b {
        lemma_mul_inequality(b as int, (x / a) as int, a as int);
        assert(a * b <= a * (x / a)) by (nonlinear_arith)
            requires b <= x / a, a > 0;
    }
}

/// Every axis has walls.
pub proof fn lemma_axis_walls_pos(d: nat)
    ensures
        axis_walls(d) > 0,
{
    lemma_pow8_pos((d - 1) as nat);
}

/// The pair of cells that wall `wall_ind` separates in a maze with
/// `dimensions` axes: the low cell and its successor on the wall's axis.
pub fn cell_pair(wall_ind: u32, dimensions: u32) -> (result: (u32, u32))
    requires
        1 <= dimensions <= 10,
        wall_ind < wall_count(dimensions as nat),
    ensures
        result.0 == wall_low(wall_ind as nat, dimensions as nat),
        result.1 == wall_high(wall_ind as nat, dimensions as nat),
{
    let ghost d = dimensions as nat;
    let ghost w = wall_ind as nat;
    proof {
        lemma_pow8_le_9((d - 1) as nat);
        lemma_axis_walls_pos(d);
    }
    let walls_dimension: u32 = 7 * pow8_u32(dimensions - 1);
    let dimension_of_wall: u32 = wall_ind / walls_dimension;
    let ghost span = axis_walls(d);
    let ghost k = dimension_of_wall as nat;
    proof {
        assert(span * d == d * span) by (nonlinear_arith);
        lemma_div_below(w, span, d);
        lemma_fundamental_div_mod(w as int, span as int);
        assert(dimension_of_wall * walls_dimension <= wall_ind) by (nonlinear_arith)
            requires
                dimension_of_wall == wall_ind / walls_dimension,
                walls_dimension > 0;
    }
    let mut wall_ind_dimension: u32 = wall_ind - dimension_of_wall * walls_dimension;
    let ghost r = w % span;
    let ghost q = r / pow8(k);
    let ghost h = q / 7;
    proof {
        assert(wall_ind_dimension == r) by (nonlinear_arith)
            requires
                wall_ind_dimension == wall_ind - dimension_of_wall * walls_dimension,
                w == wall_ind,
                w == span * (w / span) + w % span,
                dimension_of_wall == w / span,
                walls_dimension == span,
                r == w % span;
        lemma_pow8_pos(k);
        lemma_pow8_pos(0);
    }
    let mut result: (u32, u32) = (0, 0);
    for i in 0..dimensions
        invariant
            d == dimensions,
            w == wall_ind,
            1 <= d <= 10,
            span == axis_walls(d),
            k == dimension_of_wall,
            k < d,
            r == w % span,
            q == r / pow8(k),
            h == q / 7,
            result.0 < pow8(i as nat),
            i <= k ==> result.0 == r % pow8(i as nat) && wall_ind_dimension == r / pow8(i as nat),
            i > k ==> result.0 == r % pow8(k) + pow8(k) * (q % 7) + pow8(k + 1) * (h % pow8(
                (i - k - 1) as nat,
            )) && wall_ind_dimension == h / pow8((i - k - 1) as nat),
    {
        let ghost i0 = i as nat;
        let ghost res0 = result.0;
        proof {
            lemma_pow8_le_9(i0);
            lemma_pow8_pos(i0);
        }
        let p = pow8_u32(i);
        if i == dimension_of_wall {
            proof {
                assert(p * (wall_ind_dimension % 7) <= 7 * p) by (nonlinear_arith)
                    requires wall_ind_dimension % 7 < 7;
            }
            result.0 += p * (wall_ind_dimension % 7);
            wall_ind_dimension /= 7;
            proof {
                assert(pow8(0) == 1);
                assert(h % 1 == 0);
                assert(h / 1 == h);
                assert((i + 1 - k - 1) as nat == 0);
                assert(r % pow8(k) + pow8(k) * (q % 7) + pow8(k + 1) * 0 == r % pow8(k) + pow8(k) * (q % 7));
                lemma_digit_split(res0 as nat, i0);
            }
        } else {
            proof {
                assert(p * (wall_ind_dimension % 8) <= 7 * p) by (nonlinear_arith)
                    requires wall_ind_dimension % 8 < 8;
            }
            result.0 += p * (wall_ind_dimension % 8);
            proof {
                if i0 < k {
                    lemma_digit_split(r, i0);
                } else {
                    let j = (i0 - k - 1) as nat;
                    lemma_digit_split(h, j);
                    lemma_pow8_adds(k + 1, j);
                    assert(i0 == k + 1 + j);
                    lemma_mul_is_distributive_add(pow8(k + 1) as int, (h % pow8(j)) as int,
                        (pow8(j) * ((h / pow8(j)) % 8)) as int);
                    lemma_mul_is_associative(pow8(k + 1) as int, pow8(j) as int, ((h / pow8(j)) % 8) as int);
                    assert((i + 1 - k - 1) as nat == j + 1);
                }
            }
            wall_ind_dimension /= 8;
        }
        proof {
            lemma_digit_split(0, i0);
        }
    }
    proof {
        // On the last axis the high part is exhausted.
        let j = (d - k - 1) as nat;
        lemma_pow8_adds(k, j);
        assert((d - 1) as nat == k + j);
        lemma_pow8_pos(j);
        lemma_mod_pos_bound(w as int, span as int);
        assert(r < pow8(k) * (7 * pow8(j))) by (nonlinear_arith)
            requires r < span, span == 7 * pow8((d - 1) as nat), pow8((d - 1) as nat) == pow8(k) * pow8(j);
        lemma_div_below(r, pow8(k), 7 * pow8(j));
        lemma_div_below(q, 7, pow8(j));
        vstd::arithmetic::div_mod::lemma_small_mod(h, pow8(j));
        lemma_pow8_monotone(k, d);
        lemma_pow8_le_10(d);
    }
    result.1 = result.0 + pow8_u32(dimension_of_wall);
    result
}

/// `lo + p * t` splits back into `lo` and `t` when `lo < p`.
pub proof fn lemma_compose(lo: nat, p: nat, t: nat)
    requires
        lo < p,
    ensures
        (lo + p * t) % p == lo,
        (lo + p * t) / p == t,
{
    assert(lo + p * t == t * p + lo) by (nonlinear_arith);
    lemma_fundamental_div_mod_converse((lo + p * t) as int, p as int, t as int, lo as int);
}

/// A cell split around axis `k`: the part below, the coordinate, the part above.
pub proof fn lemma_cell_parts(a: nat, k: nat)
    ensures
        pow8(k + 1) == pow8(k) * 8,
        a % pow8(k) < pow8(k),
        digit(a, k) < 8,
        a == a % pow8(k) + pow8(k) * digit(a, k) + pow8(k + 1) * (a / pow8(k + 1)),
{
    lemma_pow8_pos(k);
    lemma_digit_split(a, k);
    lemma_pow8_pos(k + 1);
    lemma_fundamental_div_mod(a as int, pow8(k + 1) as int);
    lemma_mod_pos_bound(a as int, pow8(k) as int);
}

/// Reassembling a cell from the part below axis `k`, its coordinate on `k`,
/// and the part above.
pub proof fn lemma_cell_from_parts(lo: nat, c: nat, hi: nat, k: nat)
    requires
        lo < pow8(k),
        c < 8,
    ensures
        ({
            let a = lo + pow8(k) * c + pow8(k + 1) * hi;
            &&& a % pow8(k) == lo
            &&& a / pow8(k) == c + 8 * hi
            &&& digit(a, k) == c
            &&& a / pow8(k + 1) == hi
        }),
{
    let a = lo + pow8(k) * c + pow8(k + 1) * hi;
    lemma_digit_split(a, k);
    assert(pow8(k + 1) * hi == pow8(k) * (8 * hi)) by (nonlinear_arith)
        requires pow8(k + 1) == pow8(k) * 8;
    assert(pow8(k) * c + pow8(k) * (8 * hi) == pow8(k) * (c + 8 * hi)) by (nonlinear_arith);
    lemma_compose(lo, pow8(k), c + 8 * hi);
    lemma_compose(c, 8, hi);
}

/// The part of a cell above axis `k` is below `8^(d-k-1)`.
pub proof fn lemma_high_part_bound(a: nat, k: nat, d: nat)
    requires
        k < d,
        a < pow8(d),
    ensures
        a / pow8(k + 1) < pow8((d - k - 1) as nat),
{
    lemma_pow8_adds(k + 1, (d - k - 1) as nat);
    assert(k + 1 + (d - k - 1) as nat == d);
    lemma_pow8_pos(k + 1);
    lemma_div_below(a, pow8(k + 1), pow8((d - k - 1) as nat));
}

/// A cell assembled from parts within their ranges lies in the maze.
pub proof fn lemma_parts_in_range(lo: nat, c: nat, hi: nat, k: nat, d: nat)
    requires
        k < d,
        lo < pow8(k),
        c < 8,
        hi < pow8((d - k - 1) as nat),
    ensures
        lo + pow8(k) * c + pow8(k + 1) * hi < pow8(d),
{
    let j = (d - k - 1) as nat;
    lemma_pow8_adds(k + 1, j);
    assert(k + 1 + j == d);
    assert(pow8(k + 1) == pow8(k) * 8);
    assert(lo + pow8(k) * c + pow8(k + 1) * hi < pow8(k + 1) * pow8(j)) by (nonlinear_arith)
        requires
            lo < pow8(k),
            c < 8,
            hi < pow8(j),
            pow8(k + 1) == pow8(k) * 8;
}

/// Every wall lies along an axis of the maze, and both of its cells lie in
/// the maze; the low cell's coordinate on that axis is below 7; and numbering
/// the wall between that cell and its successor gives the wall back.
pub proof fn lemma_wall_cells(w: nat, d: nat)
    requires
        1 <= d,
        w < wall_count(d),
    ensures
        wall_axis(w, d) < d,
        wall_low(w, d) < pow8(d),
        wall_high(w, d) < pow8(d),
        digit(wall_low(w, d), wall_axis(w, d)) < 7,
        wall_between(wall_low(w, d), wall_axis(w, d), d) == w,
{
    let span = axis_walls(d);
    lemma_axis_walls_pos(d);
    assert(span * d == d * span) by (nonlinear_arith);
    lemma_div_below(w, span, d);
    let k = wall_axis(w, d);
    let r = w % span;
    lemma_pow8_pos(k);
    let q = r / pow8(k);
    let lo = r % pow8(k);
    let c = q % 7;
    let hi = q / 7;
    let j = (d - k - 1) as nat;
    lemma_mod_pos_bound(w as int, span as int);
    lemma_mod_pos_bound(r as int, pow8(k) as int);
    lemma_pow8_adds(k, j);
    assert((d - 1) as nat == k + j);
    lemma_pow8_pos(j);
    assert(r < pow8(k) * (7 * pow8(j))) by (nonlinear_arith)
        requires r < span, span == 7 * pow8((d - 1) as nat), pow8((d - 1) as nat) == pow8(k) * pow8(j);
    lemma_div_below(r, pow8(k), 7 * pow8(j));
    lemma_div_below(q, 7, pow8(j));
    lemma_cell_from_parts(lo, c, hi, k);
    let a = lo + pow8(k) * c + pow8(k + 1) * hi;
    assert(wall_low(w, d) == a);
    lemma_parts_in_range(lo, c, hi, k, d);
    lemma_parts_in_range(lo, c + 1, hi, k, d);
    assert(a + pow8(k) == lo + pow8(k) * (c + 1) + pow8(k + 1) * hi) by (nonlinear_arith)
        requires a == lo + pow8(k) * c + pow8(k + 1) * hi;
    // Renumbering.
    lemma_fundamental_div_mod(q as int, 7);
    lemma_fundamental_div_mod(r as int, pow8(k) as int);
    lemma_fundamental_div_mod(w as int, span as int);
    assert(wall_between(a, k, d) == k * span + lo + pow8(k) * (c + 7 * hi));
    assert(c + 7 * hi == q);
    assert(lo + pow8(k) * q == r);
    assert(k * span + r == w) by (nonlinear_arith)
        requires w == span * (w / span) + w % span, k == w / span, r == w % span;
}

/// The wall between a cell and its successor on an axis is a wall of the
/// maze along that axis, and its low cell is the cell itself.
pub proof fn lemma_wall_between(a: nat, k: nat, d: nat)
    requires
        k < d,
        a < pow8(d),
        digit(a, k) < 7,
    ensures
        wall_between(a, k, d) < wall_count(d),
        wall_axis(wall_between(a, k, d), d) == k,
        wall_low(wall_between(a, k, d), d) == a,
        wall_high(wall_between(a, k, d), d) == a + pow8(k),
{
    let span = axis_walls(d);
    let j = (d - k - 1) as nat;
    lemma_pow8_pos(k);
    lemma_pow8_pos(j);
    lemma_cell_parts(a, k);
    let lo = a % pow8(k);
    let c = digit(a, k);
    let hi = a / pow8(k + 1);
    lemma_high_part_bound(a, k, d);
    lemma_pow8_adds(k, j);
    assert((d - 1) as nat == k + j);
    let r = lo + pow8(k) * (c + 7 * hi);
    assert(r < span) by (nonlinear_arith)
        requires
            lo < pow8(k),
            c < 7,
            hi < pow8(j),
            r == lo + pow8(k) * (c + 7 * hi),
            span == 7 * pow8((d - 1) as nat),
            pow8((d - 1) as nat) == pow8(k) * pow8(j);
    let w = wall_between(a, k, d);
    assert(w == r + span * k) by (nonlinear_arith)
        requires w == k * span + lo + pow8(k) * (c + 7 * hi), r == lo + pow8(k) * (c + 7 * hi);
    lemma_compose(r, span, k);
    assert(w < wall_count(d)) by (nonlinear_arith)
        requires w == r + span * k, r < span, k < d, wall_count(d) == d * span;
    lemma_compose(lo, pow8(k), c + 7 * hi);
    lemma_compose(c, 7, hi);
}

} // verus!

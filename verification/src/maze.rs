//! Carving a maze: Kruskal's algorithm over a wall order drawn at random.
//!
//! Walls are drawn one by one from the walls not yet drawn; a wall is opened
//! exactly when the cells on its two sides are not yet joined by open walls.

use vstd::prelude::*;
use crate::grid::{
    pow8, pow8_u32, wall_count, wall_low, wall_high, wall_axis, wall_between, digit, cell_pair,
    lemma_pow8_le_9, lemma_pow8_pos, lemma_wall_cells, lemma_wall_between, lemma_cell_parts,
    lemma_cell_from_parts, lemma_pow8_le_8, lemma_wall_count_bound,
};
use crate::flood::{cell_match, relabelled, index_step, is_label_walk, label_reachable};
use vstd::arithmetic::div_mod::{lemma_div_denominator, lemma_fundamental_div_mod};
use crate::game::GameState;
use rand::rngs::{OsRng, StdRng};
use rand::{Rng, SeedableRng};

verus! {

/// Wall `w` is open and separates cells `x` and `y`.
pub open spec fn open_wall_between(d: nat, walls: Seq<bool>, w: nat, x: nat, y: nat) -> bool {
    &&& w < wall_count(d)
    &&& walls[w as int]
    &&& ((wall_low(w, d) == x && wall_high(w, d) == y) || (wall_low(w, d) == y && wall_high(w, d) == x))
}

/// Cells `x` and `y` are joined by an open wall.
pub open spec fn open_step(d: nat, walls: Seq<bool>, x: nat, y: nat) -> bool {
    exists|w: nat| #[trigger] open_wall_between(d, walls, w, x, y)
}

/// `p` is a walk through the maze that passes only open walls.
pub open spec fn is_open_walk(d: nat, walls: Seq<bool>, p: Seq<nat>) -> bool {
    &&& p.len() > 0
    &&& forall|j: int| 0 <= j < p.len() ==> #[trigger] p[j] < pow8(d)
    &&& forall|j: int| 0 <= j < p.len() - 1 ==> #[trigger] open_step(d, walls, p[j], p[j + 1])
}

/// Cell `y` can be reached from cell `x` through open walls.
pub open spec fn connected(d: nat, walls: Seq<bool>, x: nat, y: nat) -> bool {
    exists|p: Seq<nat>| #[trigger] is_open_walk(d, walls, p) && p[0] == x && p.last() == y
}

/// All walls of a maze with `d` axes, in their numbering order.
pub open spec fn all_walls(d: nat) -> Seq<u32> {
    Seq::new(wall_count(d), |i: int| i as u32)
}

/// `picks[t]` chooses among the walls not drawn before step `t`.
pub open spec fn valid_picks(d: nat, picks: Seq<usize>) -> bool {
    &&& picks.len() == wall_count(d)
    &&& forall|t: int| 0 <= t < picks.len() ==> #[trigger] picks[t] < wall_count(d) - t
}

/// After `t` draws: the walls not yet drawn, and the walls drawn in order.
/// Each draw takes out the wall at the picked position and moves the last
/// undrawn wall into its place.
pub open spec fn draw_state(d: nat, picks: Seq<usize>, t: nat) -> (Seq<u32>, Seq<u32>)
    decreases t,
{
    if t == 0 {
        (all_walls(d), Seq::empty())
    } else {
        let (rest, drawn) = draw_state(d, picks, (t - 1) as nat);
        let i = picks[t - 1] as int;
        (rest.update(i, rest.last()).drop_last(), drawn.push(rest[i]))
    }
}

/// The order in which all walls are drawn.
pub open spec fn draw_order(d: nat, picks: Seq<usize>) -> Seq<u32> {
    draw_state(d, picks, wall_count(d)).1
}

/// Kruskal's algorithm: the walls processed in `order`, each opened exactly
/// when its two cells are not yet joined by the walls opened before.
pub open spec fn kruskal(d: nat, order: Seq<u32>) -> Seq<bool>
    decreases order.len(),
{
    if order.len() == 0 {
        Seq::new(wall_count(d), |i: int| false)
    } else {
        let prev = kruskal(d, order.drop_last());
        let w = order.last() as nat;
        if connected(d, prev, wall_low(w, d), wall_high(w, d)) {
            prev
        } else {
            prev.update(w as int, true)
        }
    }
}

/// The open walls of the maze carved with the given picks.
pub open spec fn carved_walls(d: nat, picks: Seq<usize>) -> Seq<bool> {
    kruskal(d, draw_order(d, picks))
}

/// Every open wall joins two cells with the same label.
pub open spec fn open_walls_joined(d: nat, cells: Seq<u32>, walls: Seq<bool>) -> bool {
    forall|w: nat|
        #![trigger walls[w as int]]
        w < wall_count(d) && walls[w as int] ==> cells[wall_low(w, d) as int] == cells[wall_high(w, d) as int]
}

/// Cells with the same label are connected through open walls.
pub open spec fn same_label_connected(d: nat, cells: Seq<u32>, walls: Seq<bool>) -> bool {
    forall|x: nat, y: nat|
        #![trigger connected(d, walls, x, y)]
        x < pow8(d) && y < pow8(d) && cells[x as int] == cells[y as int] ==> connected(d, walls, x, y)
}

// ----- walks -----

proof fn lemma_open_step_is_index_step(d: nat, walls: Seq<bool>, x: nat, y: nat)
    requires
        d >= 1,
        open_step(d, walls, x, y),
    ensures
        index_step(d, x, y),
{
    let w = choose|w: nat| #[trigger] open_wall_between(d, walls, w, x, y);
    lemma_wall_cells(w, d);
    let k = wall_axis(w, d);
    assert(k < d && (y == x + pow8(k) || x == y + pow8(k)));
}

/// Along an open walk every cell carries the label of the first, when open
/// walls join equal labels.
proof fn lemma_walk_keeps_label(d: nat, cells: Seq<u32>, walls: Seq<bool>, p: Seq<nat>, j: int)
    requires
        d >= 1,
        cells.len() == pow8(d),
        open_walls_joined(d, cells, walls),
        is_open_walk(d, walls, p),
        0 <= j < p.len(),
    ensures
        cells[p[j] as int] == cells[p[0] as int],
    decreases j,
{
    if j > 0 {
        lemma_walk_keeps_label(d, cells, walls, p, j - 1);
        assert(open_step(d, walls, p[j - 1], p[j - 1 + 1]));
        let w = choose|w: nat| #[trigger] open_wall_between(d, walls, w, p[j - 1], p[j]);
        assert(walls[w as int]);
    }
}

/// Connected cells carry the same label, when open walls join equal labels.
pub proof fn lemma_connected_same_label(d: nat, cells: Seq<u32>, walls: Seq<bool>, x: nat, y: nat)
    requires
        d >= 1,
        cells.len() == pow8(d),
        open_walls_joined(d, cells, walls),
        connected(d, walls, x, y),
    ensures
        cells[x as int] == cells[y as int],
{
    let p = choose|p: Seq<nat>| #[trigger] is_open_walk(d, walls, p) && p[0] == x && p.last() == y;
    lemma_walk_keeps_label(d, cells, walls, p, p.len() - 1);
}

/// An open walk through cells of one label is a walk by index steps through
/// that label.
proof fn lemma_open_walk_is_label_walk(d: nat, cells: Seq<u32>, walls: Seq<bool>, p: Seq<nat>)
    requires
        d >= 1,
        cells.len() == pow8(d),
        open_walls_joined(d, cells, walls),
        is_open_walk(d, walls, p),
    ensures
        is_label_walk(d, cells, cells[p[0] as int], p),
{
    assert forall|j: int| 0 <= j < p.len() implies #[trigger] p[j] < pow8(d) && cells[p[j] as int] == cells[p[0] as int] by {
        lemma_walk_keeps_label(d, cells, walls, p, j);
    }
    assert forall|j: int| 0 <= j < p.len() - 1 implies #[trigger] index_step(d, p[j], p[j + 1]) by {
        assert(open_step(d, walls, p[j], p[j + 1]));
        lemma_open_step_is_index_step(d, walls, p[j], p[j + 1]);
    }
}

/// Opening more walls keeps every open walk open.
proof fn lemma_walk_more_open(d: nat, walls: Seq<bool>, more: Seq<bool>, p: Seq<nat>)
    requires
        walls.len() == more.len(),
        forall|w: int| 0 <= w < walls.len() && #[trigger] walls[w] ==> more[w],
        walls.len() == wall_count(d),
        is_open_walk(d, walls, p),
    ensures
        is_open_walk(d, more, p),
{
    assert forall|j: int| 0 <= j < p.len() - 1 implies #[trigger] open_step(d, more, p[j], p[j + 1]) by {
        assert(open_step(d, walls, p[j], p[j + 1]));
        let w = choose|w: nat| #[trigger] open_wall_between(d, walls, w, p[j], p[j + 1]);
        assert(open_wall_between(d, more, w, p[j], p[j + 1]));
    }
}

proof fn lemma_connected_more_open(d: nat, walls: Seq<bool>, more: Seq<bool>, x: nat, y: nat)
    requires
        walls.len() == more.len(),
        forall|w: int| 0 <= w < walls.len() && #[trigger] walls[w] ==> more[w],
        walls.len() == wall_count(d),
        connected(d, walls, x, y),
    ensures
        connected(d, more, x, y),
{
    let p = choose|p: Seq<nat>| #[trigger] is_open_walk(d, walls, p) && p[0] == x && p.last() == y;
    lemma_walk_more_open(d, walls, more, p);
}

/// Two walks joined through an open wall make one walk.
proof fn lemma_connected_through(d: nat, walls: Seq<bool>, x: nat, u: nat, v: nat, y: nat)
    requires
        connected(d, walls, x, u),
        open_step(d, walls, u, v),
        connected(d, walls, v, y),
    ensures
        connected(d, walls, x, y),
{
    let p1 = choose|p: Seq<nat>| #[trigger] is_open_walk(d, walls, p) && p[0] == x && p.last() == u;
    let p2 = choose|p: Seq<nat>| #[trigger] is_open_walk(d, walls, p) && p[0] == v && p.last() == y;
    let q = p1 + p2;
    assert forall|j: int| 0 <= j < q.len() implies #[trigger] q[j] < pow8(d) by {
        if j < p1.len() {
            assert(q[j] == p1[j]);
        } else {
            assert(q[j] == p2[j - p1.len()]);
        }
    }
    assert forall|j: int| 0 <= j < q.len() - 1 implies #[trigger] open_step(d, walls, q[j], q[j + 1]) by {
        if j < p1.len() - 1 {
            assert(q[j] == p1[j] && q[j + 1] == p1[j + 1]);
            assert(open_step(d, walls, p1[j], p1[j + 1]));
        } else if j == p1.len() - 1 {
            assert(q[j] == u && q[j + 1] == v);
        } else {
            let j2 = j - p1.len();
            assert(q[j] == p2[j2] && q[j + 1] == p2[j2 + 1]);
            assert(open_step(d, walls, p2[j2], p2[j2 + 1]));
        }
    }
    assert(is_open_walk(d, walls, q));
    assert(q[0] == x);
    assert(q.last() == y);
}

/// A cell is connected to itself.
proof fn lemma_connected_refl(d: nat, walls: Seq<bool>, x: nat)
    requires
        x < pow8(d),
    ensures
        connected(d, walls, x, x),
{
    let p = seq![x];
    assert(is_open_walk(d, walls, p));
}

// ----- the grid is connected through its walls -----

/// A nonzero cell has a nonzero coordinate on some axis.
proof fn lemma_nonzero_digit(x: nat, d: nat) -> (k: nat)
    requires
        0 < x < pow8(d),
    ensures
        k < d,
        digit(x, k) > 0,
    decreases d,
{
    if d == 0 {
        assert(pow8(0) == 1);
        0
    } else if x % 8 != 0 {
        assert(pow8(0) == 1);
        assert(x / 1 == x);
        0
    } else {
        lemma_fundamental_div_mod(x as int, 8);
        assert(x / 8 > 0);
        assert(pow8(d) == 8 * pow8((d - 1) as nat));
        assert(x / 8 < pow8((d - 1) as nat)) by (nonlinear_arith)
            requires x < 8 * pow8((d - 1) as nat), x == 8 * (x / 8);
        let k1 = lemma_nonzero_digit(x / 8, (d - 1) as nat);
        lemma_pow8_pos(k1);
        lemma_div_denominator(x as int, 8, pow8(k1) as int);
        assert(pow8(k1 + 1) == 8 * pow8(k1));
        k1 + 1
    }
}

/// When every wall joins two cells of one label, all cells share the label
/// of cell 0.
proof fn lemma_all_walls_one_label(d: nat, cells: Seq<u32>, x: nat)
    requires
        d >= 1,
        cells.len() == pow8(d),
        x < pow8(d),
        forall|w: nat|
            w < wall_count(d) ==> #[trigger] cells[wall_low(w, d) as int] == cells[wall_high(w, d) as int],
    ensures
        cells[x as int] == cells[0],
    decreases x,
{
    if x > 0 {
        let k = lemma_nonzero_digit(x, d);
        lemma_cell_parts(x, k);
        let lo = x % pow8(k);
        let c = digit(x, k);
        let hi = x / pow8(k + 1);
        let c1 = (c - 1) as nat;
        let y = lo + pow8(k) * c1 + pow8(k + 1) * hi;
        assert(x == y + pow8(k)) by (nonlinear_arith)
            requires
                x == lo + pow8(k) * c + pow8(k + 1) * hi,
                y == lo + pow8(k) * c1 + pow8(k + 1) * hi,
                c1 + 1 == c;
        lemma_cell_from_parts(lo, c1, hi, k);
        lemma_wall_between(y, k, d);
        let w = wall_between(y, k, d);
        assert(cells[wall_low(w, d) as int] == cells[wall_high(w, d) as int]);
        lemma_all_walls_one_label(d, cells, y);
    }
}

/// Number of open walls.
pub open spec fn count_open(walls: Seq<bool>) -> nat
    decreases walls.len(),
{
    if walls.len() == 0 {
        0
    } else {
        count_open(walls.drop_last()) + if walls.last() { 1nat } else { 0nat }
    }
}

/// The open walls join every cell to every other, and there is one fewer
/// of them than there are cells: they form a spanning tree, so between any
/// two cells there is exactly one path.
pub open spec fn is_spanning_tree(d: nat, walls: Seq<bool>) -> bool {
    &&& fully_connected(d, walls)
    &&& count_open(walls) + 1 == pow8(d)
}

proof fn lemma_count_open_update(walls: Seq<bool>, i: int)
    requires
        0 <= i < walls.len(),
        !walls[i],
    ensures
        count_open(walls.update(i, true)) == count_open(walls) + 1,
    decreases walls.len(),
{
    let t = walls.update(i, true);
    if i == walls.len() - 1 {
        assert(t.drop_last() =~= walls.drop_last());
    } else {
        lemma_count_open_update(walls.drop_last(), i);
        assert(t.drop_last() =~= walls.drop_last().update(i, true));
    }
}

proof fn lemma_count_open_none(n: nat)
    ensures
        count_open(Seq::new(n, |i: int| false)) == 0,
    decreases n,
{
    if n > 0 {
        lemma_count_open_none((n - 1) as nat);
        assert(Seq::new(n, |i: int| false).drop_last() =~= Seq::new((n - 1) as nat, |i: int| false));
    }
}

/// Merging label `lb` into `la` removes `lb` from the labels in use.
proof fn lemma_merge_labels(cells: Seq<u32>, a: int, b: int)
    requires
        0 <= a < cells.len(),
        0 <= b < cells.len(),
        cells[a] != cells[b],
    ensures
        merged(cells, cells[a], cells[b]).to_set().len() + 1 == cells.to_set().len(),
{
    broadcast use vstd::set::group_set_axioms, vstd::seq_lib::seq_to_set_is_finite;
    let la = cells[a];
    let lb = cells[b];
    let m = merged(cells, la, lb);
    assert forall|v: u32| m.to_set().contains(v) <==> cells.to_set().remove(lb).contains(v) by {
        if m.to_set().contains(v) {
            let x = choose|x: int| 0 <= x < m.len() && m[x] == v;
            if cells[x] == lb {
                assert(v == la);
                assert(cells[a] == v);
            } else {
                assert(cells[x] == v);
            }
        }
        if cells.to_set().remove(lb).contains(v) {
            let x = choose|x: int| 0 <= x < cells.len() && cells[x] == v;
            assert(m[x] == v);
        }
    }
    assert(m.to_set() =~= cells.to_set().remove(lb));
    assert(cells.to_set().contains(lb)) by {
        assert(cells[b] == lb);
    }
}

// ----- carving -----

/// Every label `high` replaced by `low`.
pub open spec fn merged(cells: Seq<u32>, low: u32, high: u32) -> Seq<u32> {
    Seq::new(cells.len(), |x: int| if cells[x] == high { low } else { cells[x] })
}

/// Opening wall `w` between cells of different labels merges the two labels,
/// and the label invariants carry over.
proof fn lemma_merge_step(d: nat, cells: Seq<u32>, walls: Seq<bool>, w: nat)
    requires
        d >= 1,
        cells.len() == pow8(d),
        walls.len() == wall_count(d),
        w < wall_count(d),
        cells[wall_low(w, d) as int] != cells[wall_high(w, d) as int],
        open_walls_joined(d, cells, walls),
        same_label_connected(d, cells, walls),
    ensures
        ({
            let a = wall_low(w, d);
            let b = wall_high(w, d);
            let la = cells[a as int];
            let lb = cells[b as int];
            let cells2 = merged(cells, la, lb);
            let walls2 = walls.update(w as int, true);
            &&& !connected(d, walls, a, b)
            &&& relabelled(d, cells, b, la, lb) == cells2
            &&& open_walls_joined(d, cells2, walls2)
            &&& same_label_connected(d, cells2, walls2)
            &&& cells2[a as int] == cells2[b as int]
            &&& !walls[w as int]
            &&& cells2.to_set().len() + 1 == cells.to_set().len()
            &&& forall|x: int, y: int|
                0 <= x < cells.len() && 0 <= y < cells.len() && cells[x] == cells[y] ==> cells2[x] == cells2[y]
        }),
{
    let a = wall_low(w, d);
    let b = wall_high(w, d);
    let la = cells[a as int];
    let lb = cells[b as int];
    let cells2 = merged(cells, la, lb);
    let walls2 = walls.update(w as int, true);
    lemma_wall_cells(w, d);
    if connected(d, walls, a, b) {
        lemma_connected_same_label(d, cells, walls, a, b);
    }
    if walls[w as int] {
        assert(cells[wall_low(w, d) as int] == cells[wall_high(w, d) as int]);
    }
    lemma_merge_labels(cells, a as int, b as int);
    // Every cell labelled `lb` is reached from `b` through `lb` cells.
    assert forall|x: int| 0 <= x < cells.len() implies #[trigger] relabelled(d, cells, b, la, lb)[x] == cells2[x] by {
        if cells[x] == lb {
            assert(connected(d, walls, b, x as nat));
            let p = choose|p: Seq<nat>| #[trigger] is_open_walk(d, walls, p) && p[0] == b && p.last() == x as nat;
            lemma_open_walk_is_label_walk(d, cells, walls, p);
            assert(label_reachable(d, cells, lb, b, x as nat));
        }
    }
    assert(relabelled(d, cells, b, la, lb) =~= cells2);
    assert forall|v: nat| #![trigger walls2[v as int]] v < wall_count(d) && walls2[v as int] implies
        cells2[wall_low(v, d) as int] == cells2[wall_high(v, d) as int] by {
        lemma_wall_cells(v, d);
        if v != w {
            assert(walls[v as int]);
        }
    }
    assert forall|i: int| 0 <= i < walls.len() && #[trigger] walls[i] implies walls2[i] by {}
    assert(open_wall_between(d, walls2, w, b, a));
    assert(open_step(d, walls2, b, a));
    assert(open_wall_between(d, walls2, w, a, b));
    assert(open_step(d, walls2, a, b));
    assert forall|x: nat, y: nat|
        #![trigger connected(d, walls2, x, y)]
        x < pow8(d) && y < pow8(d) && cells2[x as int] == cells2[y as int] implies connected(d, walls2, x, y) by {
        if cells[x as int] == cells[y as int] {
            assert(connected(d, walls, x, y));
            lemma_connected_more_open(d, walls, walls2, x, y);
        } else if cells[x as int] == lb {
            assert(cells[y as int] == la);
            assert(connected(d, walls, x, b));
            assert(connected(d, walls, a, y));
            lemma_connected_more_open(d, walls, walls2, x, b);
            lemma_connected_more_open(d, walls, walls2, a, y);
            lemma_connected_through(d, walls2, x, b, a, y);
        } else {
            assert(cells[x as int] == la && cells[y as int] == lb);
            assert(connected(d, walls, x, a));
            assert(connected(d, walls, b, y));
            lemma_connected_more_open(d, walls, walls2, x, a);
            lemma_connected_more_open(d, walls, walls2, b, y);
            lemma_connected_through(d, walls2, x, a, b, y);
        }
    }
}

/// Carves a maze with `dimensions` axes: the walls are drawn in the order
/// that `picks` gives, and each is opened exactly when the cells on its two
/// sides are not yet joined. Every cell is then reachable from every other.
pub fn carve_walls(dimensions: u32, picks: &Vec<usize>) -> (walls: Vec<bool>)
    requires
        1 <= dimensions <= 9,
        valid_picks(dimensions as nat, picks@),
    ensures
        walls@ == carved_walls(dimensions as nat, picks@),
        walls@.len() == wall_count(dimensions as nat),
        is_spanning_tree(dimensions as nat, walls@),
{
    let ghost d = dimensions as nat;
    let ghost nw = wall_count(d);
    proof {
        lemma_pow8_le_9(d);
        lemma_pow8_le_9((d - 1) as nat);
        lemma_pow8_pos((d - 1) as nat);
        lemma_pow8_le_8((d - 1) as nat);
        lemma_wall_count_bound(d);
    }
    let n = pow8_u32(dimensions);
    let p = pow8_u32(dimensions - 1);
    proof {
        assert(dimensions * 7 * p <= 1056964608) by (nonlinear_arith)
            requires dimensions <= 9, p <= 16777216;
    }
    let total: u32 = dimensions * 7 * p;
    proof {
        assert(total == nw) by (nonlinear_arith)
            requires total == dimensions * 7 * pow8((d - 1) as nat), nw == d * (7 * pow8((d - 1) as nat)), d == dimensions;
    }
    let mut cells: Vec<u32> = Vec::new();
    let mut c: u32 = 0;
    while c < n
        invariant
            c <= n,
            cells@.len() == c,
            forall|i: int| 0 <= i < c ==> cells@[i] == i,
        decreases n - c,
    {
        cells.push(c);
        c += 1;
    }
    let mut wall_choices: Vec<u32> = Vec::new();
    let mut walls: Vec<bool> = Vec::new();
    let mut w: u32 = 0;
    while w < total
        invariant
            w <= total,
            wall_choices@.len() == w,
            walls@.len() == w,
            forall|i: int| 0 <= i < w ==> wall_choices@[i] == i && !walls@[i],
        decreases total - w,
    {
        wall_choices.push(w);
        walls.push(false);
        w += 1;
    }
    proof {
        assert(wall_choices@ =~= all_walls(d));
        assert(walls@ =~= kruskal(d, Seq::empty()));
        assert forall|v: nat| #![trigger walls@[v as int]] v < wall_count(d) && walls@[v as int] implies
            cells@[wall_low(v, d) as int] == cells@[wall_high(v, d) as int] by {}
        assert forall|x: nat, y: nat|
            #![trigger connected(d, walls@, x, y)]
            x < pow8(d) && y < pow8(d) && cells@[x as int] == cells@[y as int] implies connected(d, walls@, x, y) by {
            lemma_connected_refl(d, walls@, x);
        }
        lemma_count_open_none(nw);
        assert(cells@.no_duplicates());
        cells@.unique_seq_to_set();
        assert forall|v: nat| v < nw implies wall_choices@.contains(v as u32) || #[trigger] draw_state(d, picks@, 0).1.contains(v as u32) by {
            assert(wall_choices@[v as int] == v as u32);
        }
    }
    let mut t: usize = 0;
    while wall_choices.len() > 0
        invariant
            d == dimensions,
            1 <= d <= 9,
            nw == wall_count(d),
            nw <= 1056964608,
            valid_picks(d, picks@),
            t <= nw,
            wall_choices@.len() == nw - t,
            wall_choices@ == draw_state(d, picks@, t as nat).0,
            walls@ == kruskal(d, draw_state(d, picks@, t as nat).1),
            walls@.len() == nw,
            cells@.len() == pow8(d),
            forall|j: int| 0 <= j < wall_choices@.len() ==> #[trigger] wall_choices@[j] < nw,
            forall|v: nat|
                v < nw ==> wall_choices@.contains(v as u32) || #[trigger] draw_state(d, picks@, t as nat).1.contains(
                    v as u32,
                ),
            forall|j: int|
                0 <= j < draw_state(d, picks@, t as nat).1.len() ==> {
                    let u = #[trigger] draw_state(d, picks@, t as nat).1[j];
                    &&& u < nw
                    &&& cells@[wall_low(u as nat, d) as int] == cells@[wall_high(u as nat, d) as int]
                },
            open_walls_joined(d, cells@, walls@),
            same_label_connected(d, cells@, walls@),
            count_open(walls@) + cells@.to_set().len() == pow8(d),
        decreases wall_choices.len(),
    {
        let ghost rest = wall_choices@;
        let ghost drawn = draw_state(d, picks@, t as nat).1;
        let ghost i = picks@[t as int] as int;
        let cur_wall = wall_choices.swap_remove(picks[t]);
        let ghost drawn2 = drawn.push(cur_wall);
        proof {
            assert(draw_state(d, picks@, (t + 1) as nat) == (wall_choices@, drawn2));
            assert(drawn2.drop_last() =~= drawn);
            assert(cur_wall < nw);
            lemma_wall_cells(cur_wall as nat, d);
            assert forall|v: nat| v < nw implies wall_choices@.contains(v as u32) || #[trigger] drawn2.contains(v as u32) by {
                if rest.contains(v as u32) {
                    let j = choose|j: int| 0 <= j < rest.len() && rest[j] == v as u32;
                    if j == i {
                        assert(drawn2[drawn.len() as int] == v as u32);
                    } else if j == rest.len() - 1 {
                        assert(wall_choices@[i] == v as u32);
                    } else {
                        assert(wall_choices@[j] == v as u32);
                    }
                } else {
                    assert(drawn.contains(v as u32));
                    let j = choose|j: int| 0 <= j < drawn.len() && drawn[j] == v as u32;
                    assert(drawn2[j] == v as u32);
                }
            }
            assert forall|j: int| 0 <= j < wall_choices@.len() implies #[trigger] wall_choices@[j] < nw by {
                if j == i {
                    assert(wall_choices@[j] == rest[rest.len() - 1]);
                } else {
                    assert(wall_choices@[j] == rest[j]);
                }
            }
        }
        let pair = cell_pair(cur_wall, dimensions);
        if cells[pair.0 as usize] == cells[pair.1 as usize] {
            proof {
                assert(connected(d, walls@, pair.0 as nat, pair.1 as nat));
                assert forall|j: int| 0 <= j < drawn2.len() implies {
                    let u = #[trigger] drawn2[j];
                    &&& u < nw
                    &&& cells@[wall_low(u as nat, d) as int] == cells@[wall_high(u as nat, d) as int]
                } by {
                    if j < drawn.len() {
                        assert(drawn2[j] == drawn[j]);
                    }
                }
            }
            t += 1;
            continue;
        }
        let ghost cells0 = cells@;
        let ghost walls0 = walls@;
        proof {
            lemma_merge_step(d, cells0, walls0, cur_wall as nat);
            lemma_count_open_update(walls0, cur_wall as int);
        }
        cells = cell_match(cells, dimensions, pair);
        walls.set(cur_wall as usize, true);
        proof {
            assert(walls@ == walls0.update(cur_wall as int, true));
            assert forall|j: int| 0 <= j < drawn2.len() implies {
                let u = #[trigger] drawn2[j];
                &&& u < nw
                &&& cells@[wall_low(u as nat, d) as int] == cells@[wall_high(u as nat, d) as int]
            } by {
                if j < drawn.len() {
                    assert(drawn2[j] == drawn[j]);
                    let u = drawn[j];
                    lemma_wall_cells(u as nat, d);
                }
            }
        }
        t += 1;
    }
    proof {
        let drawn = draw_state(d, picks@, t as nat).1;
        assert(t == nw);
        assert forall|v: nat| v < wall_count(d) implies #[trigger] cells@[wall_low(v, d) as int] == cells@[wall_high(v, d) as int] by {
            assert(!wall_choices@.contains(v as u32));
            assert(drawn.contains(v as u32));
            let j = choose|j: int| 0 <= j < drawn.len() && drawn[j] == v as u32;
            assert(drawn[j] as nat == v);
        }
        assert forall|x: nat, y: nat| x < pow8(d) && y < pow8(d) implies #[trigger] connected(d, walls@, x, y) by {
            lemma_all_walls_one_label(d, cells@, x);
            lemma_all_walls_one_label(d, cells@, y);
        }
        // One label is left.
        broadcast use vstd::set::group_set_axioms;
        lemma_pow8_pos(d);
        assert forall|v: u32| cells@.to_set().contains(v) <==> Set::<u32>::empty().insert(cells@[0]).contains(v) by {
            if cells@.to_set().contains(v) {
                let x = choose|x: int| 0 <= x < cells@.len() && cells@[x] == v;
                lemma_all_walls_one_label(d, cells@, x as nat);
            }
            if v == cells@[0] {
                assert(cells@.contains(v));
            }
        }
        assert(cells@.to_set() =~= Set::<u32>::empty().insert(cells@[0]));
    }
    walls
}

/// Every cell is reachable from every other through open walls.
pub open spec fn fully_connected(d: nat, walls: Seq<bool>) -> bool {
    forall|x: nat, y: nat| x < pow8(d) && y < pow8(d) ==> #[trigger] connected(d, walls, x, y)
}

/// `s` is the start of a game in the maze carved with `picks`: the player
/// stands in cell 0 facing the positive end of the first axis, and every
/// cell holds the note " ".
pub open spec fn is_new_maze(s: GameState, d: nat, picks: Seq<usize>) -> bool {
    &&& s.dimensions == d
    &&& s.position == 0
    &&& s.direction == (true, 0u32)
    &&& s.walls@ == carved_walls(d, picks)
    &&& s.notes@.len() == pow8(d)
    &&& forall|c: int| 0 <= c < pow8(d) ==> (#[trigger] s.notes@[c])@ == seq![' ']
}

/// `s` is the start of a game in a maze carved from some wall order.
pub open spec fn is_random_maze(s: GameState, d: nat) -> bool {
    exists|picks: Seq<usize>| valid_picks(d, picks) && #[trigger] is_new_maze(s, d, picks)
}

/// A new game in the maze with `dimensions` axes carved with `picks`.
pub fn maze_from_picks(dimensions: u32, picks: &Vec<usize>) -> (state: GameState)
    requires
        1 <= dimensions <= 9,
        valid_picks(dimensions as nat, picks@),
    ensures
        state.wf(),
        is_new_maze(state, dimensions as nat, picks@),
        is_spanning_tree(dimensions as nat, state.walls@),
{
    let walls = carve_walls(dimensions, picks);
    proof {
        lemma_pow8_le_9(dimensions as nat);
        lemma_pow8_pos(dimensions as nat);
    }
    let n = pow8_u32(dimensions);
    let blank = " ".to_string();
    proof {
        reveal_strlit(" ");
        assert(blank@ == seq![' ']);
    }
    let mut notes: Vec<String> = Vec::new();
    let mut c: u32 = 0;
    while c < n
        invariant
            c <= n,
            blank@ == seq![' '],
            notes@.len() == c,
            forall|i: int| 0 <= i < c ==> (#[trigger] notes@[i])@ == seq![' '],
        decreases n - c,
    {
        notes.push(blank.clone());
        c += 1;
    }
    GameState { dimensions, position: 0, direction: (true, 0), walls, notes }
}

/// The picks that always draw the first wall not yet drawn.
pub fn first_picks(dimensions: u32) -> (picks: Vec<usize>)
    requires
        1 <= dimensions <= 9,
    ensures
        valid_picks(dimensions as nat, picks@),
        forall|t: int| 0 <= t < picks@.len() ==> #[trigger] picks@[t] == 0,
{
    let ghost d = dimensions as nat;
    proof {
        lemma_pow8_le_8((d - 1) as nat);
        lemma_wall_count_bound(d);
    }
    let p = pow8_u32(dimensions - 1);
    proof {
        assert(dimensions * 7 * p == wall_count(d)) by (nonlinear_arith)
            requires p == pow8((d - 1) as nat), d == dimensions, wall_count(d) == d * (7 * p);
    }
    let total: u32 = dimensions * 7 * p;
    let mut picks: Vec<usize> = Vec::new();
    let mut t: u32 = 0;
    while t < total
        invariant
            t <= total,
            total == wall_count(d),
            picks@.len() == t,
            forall|j: int| 0 <= j < t ==> #[trigger] picks@[j] == 0,
        decreases total - t,
    {
        picks.push(0);
        t += 1;
    }
    picks
}

/// `rand`'s standard generator, carried through unopened. It draws from a
/// seeded stream and never reseeds.
#[verifier::external_type_specification]
#[verifier::external_body]
pub struct ExStdRng(StdRng);

/// Calls `StdRng::from_rng(OsRng)`, which seeds the standard generator from
/// the system's random source and fails, without panicking, when that source
/// fails; the error is dropped. Nothing is claimed of the generator, nor of
/// when seeding fails.
#[verifier::external_body]
fn new_rng() -> Option<StdRng> {
    StdRng::from_rng(OsRng).ok()
}

/// Calls `Rng::gen_range(0..bound)` on the standard generator, which draws
/// from the half-open range (and panics only on an empty one, ruled out by
/// `requires`): the result is below `bound`. Which value is drawn depends on
/// the generator's state and is not stated.
#[verifier::external_body]
fn random_below(rng: &mut StdRng, bound: usize) -> (r: usize)
    requires
        bound > 0,
    ensures
        r < bound,
{
    rng.gen_range(0..bound)
}

/// A new game in a freshly carved maze with `dimensions` axes, its walls
/// drawn in random order. `None` when the random generator could not be
/// seeded.
pub fn make_maze(dimensions: u32) -> (state: Option<GameState>)
    requires
        1 <= dimensions <= 9,
    ensures
        state matches Some(s) ==> {
            &&& s.wf()
            &&& is_random_maze(s, dimensions as nat)
            &&& is_spanning_tree(dimensions as nat, s.walls@)
        },
{
    let ghost d = dimensions as nat;
    proof {
        lemma_pow8_le_8((d - 1) as nat);
        lemma_wall_count_bound(d);
    }
    let p = pow8_u32(dimensions - 1);
    proof {
        assert(dimensions * 7 * p == wall_count(d)) by (nonlinear_arith)
            requires p == pow8((d - 1) as nat), d == dimensions, wall_count(d) == d * (7 * p);
    }
    let total: u32 = dimensions * 7 * p;
    let mut rng = match new_rng() {
        Some(rng) => rng,
        None => {
            return None;
        },
    };
    let mut picks: Vec<usize> = Vec::new();
    let mut t: u32 = 0;
    while t < total
        invariant
            t <= total,
            total == wall_count(d),
            picks@.len() == t,
            forall|j: int| 0 <= j < t ==> #[trigger] picks@[j] < wall_count(d) - j,
        decreases total - t,
    {
        let pick = random_below(&mut rng, (total - t) as usize);
        picks.push(pick);
        t += 1;
    }
    let state = maze_from_picks(dimensions, &picks);
    proof {
        assert(is_new_maze(state, d, picks@));
    }
    Some(state)
}

} // verus!

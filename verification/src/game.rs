//! The game: a player in a carved maze, facing along one axis, who moves,
//! turns, and leaves notes in cells.

use vstd::prelude::*;
use crate::grid::{
    pow8, pow8_u32, wall_count, wall_between, digit, lemma_pow8_le_9, lemma_pow8_pos, lemma_cell_parts,
    lemma_cell_from_parts, lemma_wall_between, lemma_pow8_monotone, lemma_pow8_le_8, lemma_wall_count_bound,
    lemma_wall_cells, lemma_pow8_injective, wall_low, wall_high, wall_axis,
};
use crate::maze::{open_step, open_wall_between, is_random_maze, is_spanning_tree, make_maze, first_picks,
    maze_from_picks, is_new_maze, fully_connected, connected, is_open_walk};

verus! {

/// The state of a game. Cell `position` of a maze with `dimensions` axes;
/// the player faces the positive (`direction.0`) or negative end of axis
/// `direction.1`; `walls[w]` tells whether wall `w` is open; `notes[c]` is
/// the note left in cell `c`.
pub struct GameState {
    pub dimensions: u32,
    pub position: u32,
    pub direction: (bool, u32),
    pub walls: Vec<bool>,
    pub notes: Vec<String>,
}

impl GameState {
    /// The sizes fit the number of axes, and the player stands in the maze
    /// facing one of its axes.
    pub open spec fn wf(&self) -> bool {
        &&& 1 <= self.dimensions <= 9
        &&& self.walls@.len() == wall_count(self.dimensions as nat)
        &&& self.notes@.len() == pow8(self.dimensions as nat)
        &&& self.position < pow8(self.dimensions as nat)
        &&& self.direction.1 < self.dimensions
    }

    /// Checks `wf`.
    pub fn is_well_formed(&self) -> (r: bool)
        ensures
            r == self.wf(),
    {
        if self.dimensions < 1 || self.dimensions > 9 || self.direction.1 >= self.dimensions {
            return false;
        }
        proof {
            lemma_wall_count_bound(self.dimensions as nat);
            lemma_pow8_le_9(self.dimensions as nat);
        }
        let d = self.dimensions;
        let per = pow8_u32(d - 1);
        proof {
            lemma_pow8_le_8((d - 1) as nat);
            assert(d * 7 * per <= 9 * 7 * 16777216) by (nonlinear_arith)
                requires d <= 9, per <= 16777216;
        }
        let total = d * 7 * per;
        proof {
            assert(total == wall_count(d as nat)) by (nonlinear_arith)
                requires total == d * 7 * per, per == pow8((d - 1) as nat), wall_count(d as nat) == d * (7 * per);
        }
        let cells = pow8_u32(d);
        self.walls.len() == total as usize && self.notes.len() == cells as usize && self.position < cells
    }
}

/// The player at cell `pos`, facing `direction`, may step forward: the
/// neighbouring cell on that side lies in the maze and the wall between is open.
pub open spec fn can_step(d: nat, walls: Seq<bool>, direction: (bool, u32), pos: nat) -> bool {
    let k = direction.1 as nat;
    if direction.0 {
        digit(pos, k) < 7 && walls[wall_between(pos, k, d) as int]
    } else {
        digit(pos, k) > 0 && walls[wall_between((pos - pow8(k)) as nat, k, d) as int]
    }
}

/// The cell one step forward from `pos` when facing `direction`.
pub open spec fn step_target(direction: (bool, u32), pos: nat) -> int {
    if direction.0 {
        (pos + pow8(direction.1 as nat)) as int
    } else {
        pos - pow8(direction.1 as nat)
    }
}

/// The player in state `s` may step forward.
pub open spec fn can_move(s: GameState) -> bool {
    can_step(s.dimensions as nat, s.walls@, s.direction, s.position as nat)
}

/// How a cell splits around axis `k`, and how the coordinate on `k` shows in
/// the remainder by `8^(k+1)`.
proof fn lemma_facing(p: nat, k: nat)
    ensures
        pow8(k) > 0,
        pow8(k + 1) == 8 * pow8(k),
        p % pow8(k + 1) == p % pow8(k) + pow8(k) * digit(p, k),
        p / pow8(k + 1) * pow8(k) <= p,
        p - pow8(k) * (p / pow8(k + 1)) == p % pow8(k) + pow8(k) * (digit(p, k) + 7 * (p / pow8(k + 1))),
        (p % pow8(k + 1) < pow8(k + 1) - pow8(k)) == (digit(p, k) < 7),
        (p % pow8(k + 1) > pow8(k) - 1) == (digit(p, k) > 0),
{
    lemma_pow8_pos(k);
    lemma_cell_parts(p, k);
    crate::grid::lemma_digit_split(p, k);
    let lo = p % pow8(k);
    let c = digit(p, k);
    let hi = p / pow8(k + 1);
    let u = pow8(k);
    assert(hi * u <= p) by (nonlinear_arith)
        requires p == lo + u * c + (u * 8) * hi, lo >= 0, c >= 0, u > 0;
    assert(p - u * hi == lo + u * (c + 7 * hi)) by (nonlinear_arith)
        requires p == lo + u * c + (u * 8) * hi;
    assert((lo + u * c < u * 8 - u) == (c < 7)) by (nonlinear_arith)
        requires lo < u, u > 0, c >= 0;
    assert((lo + u * c > u - 1) == (c > 0)) by (nonlinear_arith)
        requires lo < u, lo >= 0, u > 0, c >= 0;
}

/// Whether the player may step forward: the cell ahead lies in the maze and
/// the wall between is open.
pub fn check_move(game_state: &GameState) -> (r: bool)
    requires
        game_state.wf(),
    ensures
        r == can_move(*game_state),
{
    let ghost d = game_state.dimensions as nat;
    let ghost p = game_state.position as nat;
    let ghost k = game_state.direction.1 as nat;
    proof {
        lemma_facing(p, k);
        lemma_pow8_le_9(d);
        lemma_pow8_monotone(k + 1, d);
        lemma_pow8_le_8((d - 1) as nat);
    }
    let dir = game_state.direction.1;
    let unit = pow8_u32(dir);
    let block = pow8_u32(dir + 1);
    if game_state.direction.0 {
        if game_state.position % block < block - unit {
            let walls_dimension = 7 * pow8_u32(game_state.dimensions - 1);
            let wall_ind_dimension = game_state.position - unit * (game_state.position / block);
            proof {
                lemma_wall_between(p, k, d);
                let rest = p % pow8(k) + pow8(k) * (digit(p, k) + 7 * (p / pow8(k + 1)));
                let span = 7 * pow8((d - 1) as nat);
                assert(wall_between(p, k, d) == k * span + rest);
                assert(wall_ind_dimension + walls_dimension * dir == k * span + rest) by (nonlinear_arith)
                    requires
                        wall_ind_dimension == rest,
                        walls_dimension == span,
                        dir == k;
                lemma_wall_count_bound(d);
                assert(walls_dimension * dir <= k * span + rest) by (nonlinear_arith)
                    requires walls_dimension == span, dir == k, rest >= 0;
            }
            return game_state.walls[(wall_ind_dimension + walls_dimension * dir) as usize];
        }
    } else if game_state.position % block > unit - 1 {
        let walls_dimension = 7 * pow8_u32(game_state.dimensions - 1);
        proof {
            let u = pow8(k);
            let c = digit(p, k);
            let hi = p / pow8(k + 1);
            let lo = p % pow8(k);
            assert(lo + u * (c + 7 * hi) >= u) by (nonlinear_arith)
                requires c > 0, u > 0, hi >= 0, lo >= 0;
        }
        let wall_ind_dimension = game_state.position - unit * (game_state.position / block) - unit;
        proof {
            let q = (p - pow8(k)) as nat;
            let lo = p % pow8(k);
            let c = digit(p, k);
            let hi = p / pow8(k + 1);
            lemma_cell_parts(p, k);
            assert(q == lo + pow8(k) * ((c - 1) as nat) + pow8(k + 1) * hi) by (nonlinear_arith)
                requires
                    p == lo + pow8(k) * c + pow8(k + 1) * hi,
                    q == p - pow8(k),
                    c > 0;
            lemma_cell_from_parts(lo, (c - 1) as nat, hi, k);
            assert(q < pow8(d));
            lemma_wall_between(q, k, d);
            let span = 7 * pow8((d - 1) as nat);
            let u = pow8(k);
            let c1 = (c - 1) as nat;
            assert(wall_between(q, k, d) == k * span + lo + u * (c1 + 7 * hi));
            assert(wall_ind_dimension + walls_dimension * dir == k * span + lo + u * (c1 + 7 * hi)) by (nonlinear_arith)
                requires
                    wall_ind_dimension == lo + u * (c + 7 * hi) - u,
                    walls_dimension == span,
                    dir == k,
                    c1 + 1 == c;
            lemma_wall_count_bound(d);
            assert(walls_dimension * dir <= k * span + lo + u * (c1 + 7 * hi)) by (nonlinear_arith)
                requires walls_dimension == span, dir == k, lo >= 0, u * (c1 + 7 * hi) >= 0;
        }
        return game_state.walls[(wall_ind_dimension + walls_dimension * dir) as usize];
    }
    false
}

/// The cell `pos - 8^k` when the coordinate of `pos` on axis `k` is not 0:
/// it lies in the maze and its coordinate on `k` is one less.
proof fn lemma_step_back(pos: nat, k: nat, d: nat)
    requires
        k < d,
        pos < pow8(d),
        digit(pos, k) > 0,
    ensures
        pos >= pow8(k),
        digit((pos - pow8(k)) as nat, k) == digit(pos, k) - 1,
{
    lemma_cell_parts(pos, k);
    let lo = pos % pow8(k);
    let c = digit(pos, k);
    let hi = pos / pow8(k + 1);
    let c1 = (c - 1) as nat;
    let q = lo + pow8(k) * c1 + pow8(k + 1) * hi;
    assert(pos == q + pow8(k)) by (nonlinear_arith)
        requires pos == lo + pow8(k) * c + pow8(k + 1) * hi, q == lo + pow8(k) * c1 + pow8(k + 1) * hi, c1 + 1 == c;
    lemma_cell_from_parts(lo, c1, hi, k);
}

/// The cell `pos + 8^k` when the coordinate of `pos` on axis `k` is below 7:
/// its coordinate on `k` is one more.
proof fn lemma_step_forward(pos: nat, k: nat)
    requires
        digit(pos, k) < 7,
    ensures
        digit(pos + pow8(k), k) == digit(pos, k) + 1,
{
    lemma_cell_parts(pos, k);
    let lo = pos % pow8(k);
    let c = digit(pos, k);
    let hi = pos / pow8(k + 1);
    assert(pos + pow8(k) == lo + pow8(k) * (c + 1) + pow8(k + 1) * hi) by (nonlinear_arith)
        requires pos == lo + pow8(k) * c + pow8(k + 1) * hi;
    lemma_cell_from_parts(lo, c + 1, hi, k);
}

/// Navigation follows the carved maze: the player may step forward exactly
/// when an open wall joins the current cell and the cell ahead, and the cell
/// ahead then lies in the maze.
pub proof fn lemma_step_crosses_open_wall(d: nat, walls: Seq<bool>, direction: (bool, u32), pos: nat)
    requires
        1 <= d <= 9,
        walls.len() == wall_count(d),
        pos < pow8(d),
        direction.1 < d,
    ensures
        can_step(d, walls, direction, pos) <==> (step_target(direction, pos) >= 0 && open_step(
            d,
            walls,
            pos,
            step_target(direction, pos) as nat,
        )),
        can_step(d, walls, direction, pos) ==> 0 <= step_target(direction, pos) < pow8(d),
{
    let k = direction.1 as nat;
    let t = step_target(direction, pos);
    if can_step(d, walls, direction, pos) {
        if direction.0 {
            let w = wall_between(pos, k, d);
            lemma_wall_between(pos, k, d);
            lemma_wall_cells(w, d);
            assert(open_wall_between(d, walls, w, pos, t as nat));
        } else {
            lemma_step_back(pos, k, d);
            let q = (pos - pow8(k)) as nat;
            let w = wall_between(q, k, d);
            lemma_wall_between(q, k, d);
            assert(open_wall_between(d, walls, w, pos, t as nat));
        }
    }
    if t >= 0 && open_step(d, walls, pos, t as nat) {
        let w = choose|w: nat| #[trigger] open_wall_between(d, walls, w, pos, t as nat);
        lemma_wall_cells(w, d);
        let a = wall_axis(w, d);
        lemma_pow8_pos(a);
        lemma_pow8_pos(k);
        if direction.0 {
            assert(wall_low(w, d) == pos && wall_high(w, d) == t);
            lemma_pow8_injective(a, k);
        } else {
            assert(wall_low(w, d) == t && wall_high(w, d) == pos);
            lemma_pow8_injective(a, k);
            lemma_step_forward(t as nat, k);
        }
    }
}

/// The last cell of the four-axis maze: reaching it ends the game.
pub const GOAL_POSITION: u32 = 4095;

/// The cells passed walking straight ahead from `pos`, facing `direction`:
/// at most `steps` of them, up to the first wall that is closed.
pub open spec fn corridor(d: nat, walls: Seq<bool>, direction: (bool, u32), pos: nat, steps: nat) -> Seq<nat>
    decreases steps,
{
    if steps == 0 || !can_step(d, walls, direction, pos) {
        Seq::empty()
    } else {
        let next = step_target(direction, pos) as nat;
        seq![next] + corridor(d, walls, direction, next, (steps - 1) as nat)
    }
}

/// The cell `n` steps ahead of `pos` when facing `direction`.
pub open spec fn ahead(direction: (bool, u32), pos: nat, n: nat) -> int {
    if direction.0 {
        (pos + n * pow8(direction.1 as nat)) as int
    } else {
        pos - n * pow8(direction.1 as nat)
    }
}

/// The shape of a corridor: its `i`-th cell is `i + 1` steps ahead; the
/// player may step on from the start and from every cell of the corridor but
/// the last; and a corridor shorter than `steps` ends at a closed wall.
pub proof fn lemma_corridor_shape(d: nat, walls: Seq<bool>, direction: (bool, u32), pos: nat, steps: nat)
    requires
        1 <= d <= 9,
        walls.len() == wall_count(d),
        pos < pow8(d),
        direction.1 < d,
    ensures
        ({
            let c = corridor(d, walls, direction, pos, steps);
            &&& c.len() <= steps
            &&& forall|i: int| 0 <= i < c.len() ==> c[i] == #[trigger] ahead(direction, pos, (i + 1) as nat) && 0
                <= ahead(direction, pos, (i + 1) as nat) < pow8(d)
            &&& forall|i: int| 0 <= i < c.len() ==> #[trigger] can_step(d, walls, direction, ahead(direction, pos, i as nat) as nat)
            &&& c.len() < steps ==> !can_step(d, walls, direction, ahead(direction, pos, c.len()) as nat)
        }),
    decreases steps,
{
    let c = corridor(d, walls, direction, pos, steps);
    let u = pow8(direction.1 as nat);
    assert(ahead(direction, pos, 0) == pos);
    if steps > 0 && can_step(d, walls, direction, pos) {
        lemma_step_crosses_open_wall(d, walls, direction, pos);
        let next = step_target(direction, pos) as nat;
        lemma_corridor_shape(d, walls, direction, next, (steps - 1) as nat);
        let rest = corridor(d, walls, direction, next, (steps - 1) as nat);
        assert(c == seq![next] + rest);
        assert forall|n: nat| #[trigger] ahead(direction, next, n) == ahead(direction, pos, n + 1) by {
            assert(n * u + u == (n + 1) * u) by (nonlinear_arith);
        }
        assert forall|i: int| 0 <= i < c.len() implies c[i] == #[trigger] ahead(direction, pos, (i + 1) as nat) && 0
            <= ahead(direction, pos, (i + 1) as nat) < pow8(d) by {
            if i > 0 {
                assert(c[i] == rest[i - 1]);
                assert(ahead(direction, next, i as nat) == ahead(direction, pos, (i + 1) as nat));
                assert(ahead(direction, next, ((i - 1) + 1) as nat) == ahead(direction, pos, (i + 1) as nat));
            } else {
                assert(1 * u == u);
            }
        }
        assert forall|i: int| 0 <= i < c.len() implies #[trigger] can_step(d, walls, direction, ahead(direction, pos, i as nat) as nat) by {
            if i > 0 {
                assert(ahead(direction, next, (i - 1) as nat) == ahead(direction, pos, i as nat));
            }
        }
        if c.len() < steps {
            assert(ahead(direction, next, rest.len()) == ahead(direction, pos, c.len()));
        }
    }
}

/// Turning around at the end of a corridor and looking back shows the same
/// cells in reverse: the corridor back is as long, and its `i`-th cell is
/// the `i`-th cell before the end.
pub proof fn lemma_corridor_turned_around(d: nat, walls: Seq<bool>, direction: (bool, u32), pos: nat, steps: nat)
    requires
        1 <= d <= 9,
        walls.len() == wall_count(d),
        pos < pow8(d),
        direction.1 < d,
        corridor(d, walls, direction, pos, steps).len() > 0,
    ensures
        ({
            let c = corridor(d, walls, direction, pos, steps);
            let m = c.len();
            let back = turned(direction, d as u32, 0);
            let b = corridor(d, walls, back, c.last(), m);
            &&& b.len() == m
            &&& forall|i: int| 0 <= i < m ==> b[i] == ahead(direction, pos, (m - 1 - i) as nat)
        }),
{
    let c = corridor(d, walls, direction, pos, steps);
    let m = c.len();
    let back = turned(direction, d as u32, 0);
    let u = pow8(direction.1 as nat);
    lemma_corridor_shape(d, walls, direction, pos, steps);
    let end = c.last();
    let last = m - 1;
    assert(c[last] == ahead(direction, pos, (last + 1) as nat));
    assert((last + 1) as nat == m as nat);
    assert(end == ahead(direction, pos, m as nat));
    assert(forall|n: nat| n <= m ==> #[trigger] ahead(back, end, n) == ahead(direction, pos, (m - n) as nat)) by {
        assert forall|n: nat| n <= m implies #[trigger] ahead(back, end, n) == ahead(direction, pos, (m - n) as nat) by {
            assert(m * u - n * u == (m - n) * u) by (nonlinear_arith);
        }
    }
    lemma_corridor_shape(d, walls, back, end, m);
    let b = corridor(d, walls, back, end, m);
    // Every cell of the corridor back can be stepped from.
    assert forall|n: nat| n < m implies can_step(d, walls, back, ahead(back, end, n) as nat) by {
        let j = (m - n - 1) as nat;
        assert(can_step(d, walls, direction, ahead(direction, pos, j) as nat));
        assert(0 <= ahead(direction, pos, j) < pow8(d)) by {
            if j > 0 {
                let i = j - 1;
                assert(c[i] == ahead(direction, pos, (i + 1) as nat));
                assert((i + 1) as nat == j);
            } else {
                assert(ahead(direction, pos, 0) == pos);
            }
        }
        lemma_step_back_after_turn(d, walls, direction, ahead(direction, pos, j) as nat);
        assert(step_target(direction, ahead(direction, pos, j) as nat) == ahead(direction, pos, j + 1)) by {
            assert(j * u + u == (j + 1) * u) by (nonlinear_arith);
        }
        assert(ahead(back, end, n) == ahead(direction, pos, j + 1));
    }
    if b.len() < m {
        assert(can_step(d, walls, back, ahead(back, end, b.len()) as nat));
    }
    assert forall|i: int| 0 <= i < m implies b[i] == ahead(direction, pos, (m - 1 - i) as nat) by {
        assert(b[i] == ahead(back, end, (i + 1) as nat));
        assert(ahead(back, end, (i + 1) as nat) == ahead(direction, pos, (m - (i + 1)) as nat));
        assert((m - (i + 1)) as nat == (m - 1 - i) as nat);
    }
}

/// Moves the player one cell forward; the caller has checked that the move
/// is allowed.
fn step_forward(game_state: &mut GameState)
    requires
        old(game_state).wf(),
        can_move(*old(game_state)),
    ensures
        final(game_state).wf(),
        final(game_state).position == step_target(old(game_state).direction, old(game_state).position as nat),
        final(game_state).dimensions == old(game_state).dimensions,
        final(game_state).direction == old(game_state).direction,
        final(game_state).walls == old(game_state).walls,
        final(game_state).notes == old(game_state).notes,
{
    proof {
        lemma_step_crosses_open_wall(
            game_state.dimensions as nat,
            game_state.walls@,
            game_state.direction,
            game_state.position as nat,
        );
        lemma_pow8_le_9(game_state.dimensions as nat);
        lemma_pow8_monotone(game_state.direction.1 as nat, game_state.dimensions as nat);
    }
    let unit = pow8_u32(game_state.direction.1);
    if game_state.direction.0 {
        game_state.position = game_state.position + unit;
    } else {
        game_state.position = game_state.position - unit;
    }
}

/// The notes of the cells seen looking down the corridor ahead when facing
/// `direction`: the cells passed walking straight on, at most 8 of them, up
/// to the first closed wall. Nothing is seen along an axis the maze does not
/// have.
pub fn hall_dist(mut game_state: GameState, direction: (bool, u32)) -> (result: Vec<String>)
    requires
        game_state.wf(),
    ensures
        game_state.dimensions <= direction.1 ==> result@ == Seq::<String>::empty(),
        game_state.dimensions > direction.1 ==> result@ == corridor(
            game_state.dimensions as nat,
            game_state.walls@,
            direction,
            game_state.position as nat,
            8,
        ).map_values(|c: nat| game_state.notes@[c as int]),
        game_state.dimensions > direction.1 ==> {
            &&& result@.len() <= 8
            &&& forall|i: int|
                0 <= i < result@.len() ==> result@[i] == game_state.notes@[#[trigger] ahead(
                    direction,
                    game_state.position as nat,
                    (i + 1) as nat,
                )]
            &&& forall|i: int|
                0 <= i < result@.len() ==> #[trigger] can_step(
                    game_state.dimensions as nat,
                    game_state.walls@,
                    direction,
                    ahead(direction, game_state.position as nat, i as nat) as nat,
                )
            &&& result@.len() < 8 ==> !can_step(
                game_state.dimensions as nat,
                game_state.walls@,
                direction,
                ahead(direction, game_state.position as nat, result@.len()) as nat,
            )
        },
{
    let ghost d = game_state.dimensions as nat;
    let ghost start = game_state.position as nat;
    let ghost walls = game_state.walls@;
    let ghost notes = game_state.notes@;
    let mut result: Vec<String> = Vec::new();
    let mut counter: u32 = 0;
    if game_state.dimensions <= direction.1 {
        return result;
    }
    game_state.direction = direction;
    let ghost mut seen: Seq<nat> = Seq::empty();
    while check_move(&game_state) && counter < 8
        invariant
            game_state.wf(),
            game_state.dimensions as nat == d,
            game_state.walls@ == walls,
            game_state.notes@ == notes,
            game_state.direction == direction,
            counter <= 8,
            seen.len() == counter,
            corridor(d, walls, direction, start, 8) == seen + corridor(
                d,
                walls,
                direction,
                game_state.position as nat,
                (8 - counter) as nat,
            ),
            result@ == seen.map_values(|c: nat| notes[c as int]),
        decreases 8 - counter,
    {
        let ghost here = game_state.position as nat;
        step_forward(&mut game_state);
        let ghost next = game_state.position as nat;
        proof {
            assert(corridor(d, walls, direction, here, (8 - counter) as nat) == seq![next] + corridor(
                d,
                walls,
                direction,
                next,
                (8 - counter - 1) as nat,
            ));
            assert(seen + (seq![next] + corridor(d, walls, direction, next, (8 - counter - 1) as nat)) =~= seen.push(
                next,
            ) + corridor(d, walls, direction, next, (8 - counter - 1) as nat));
        }
        result.push(game_state.notes[game_state.position as usize].clone());
        proof {
            seen = seen.push(next);
            assert(result@ =~= seen.map_values(|c: nat| notes[c as int]));
        }
        counter += 1;
    }
    proof {
        assert(corridor(d, walls, direction, game_state.position as nat, (8 - counter) as nat) =~= Seq::empty());
        assert(seen + Seq::<nat>::empty() =~= seen);
        lemma_corridor_shape(d, walls, direction, start, 8);
        let c = corridor(d, walls, direction, start, 8);
        assert forall|i: int| 0 <= i < result@.len() implies result@[i] == notes[#[trigger] ahead(
            direction,
            start,
            (i + 1) as nat,
        )] by {
            assert(c[i] == ahead(direction, start, (i + 1) as nat));
        }
    }
    result
}

/// Leaves `note` in the player's cell, replacing the note there.
pub fn store_note(game_state: &mut GameState, note: String)
    requires
        old(game_state).wf(),
    ensures
        final(game_state).wf(),
        final(game_state).notes@ == old(game_state).notes@.update(old(game_state).position as int, note),
        final(game_state).dimensions == old(game_state).dimensions,
        final(game_state).position == old(game_state).position,
        final(game_state).direction == old(game_state).direction,
        final(game_state).walls == old(game_state).walls,
{
    let pos = game_state.position as usize;
    game_state.notes.set(pos, note);
}

/// What a request to turn came to.
#[derive(PartialEq, Eq, Structural, Debug, Clone, Copy)]
pub enum TurnOutcome {
    /// The player turned.
    Turned,
    /// The game is over; nothing changed.
    Finished,
    /// The option names no turn; nothing changed.
    Invalid,
}

/// The direction after a turn in a maze with `d` axes: `-1` faces the
/// previous axis, `1` the next, `0` turns around. Going past the first or
/// last axis wraps around and flips the sign.
pub open spec fn turned(direction: (bool, u32), d: u32, opt: i32) -> (bool, u32) {
    if opt == -1 {
        if direction.1 == 0 {
            (!direction.0, (d - 1) as u32)
        } else {
            (direction.0, (direction.1 - 1) as u32)
        }
    } else if opt == 0 {
        (!direction.0, direction.1)
    } else {
        if direction.1 == d - 1 {
            (!direction.0, 0u32)
        } else {
            (direction.0, (direction.1 + 1) as u32)
        }
    }
}

/// The turn's arithmetic stays within `u32`: a turn that wraps past the
/// first or last axis needs at least one axis, and stepping to the next
/// axis needs room above the current one. Every well-formed state has it.
pub open spec fn turn_defined(s: GameState, opt: i32) -> bool {
    ||| s.position == GOAL_POSITION
    ||| {
        &&& opt == 1 ==> s.dimensions >= 1 && (s.direction.1 == s.dimensions - 1 || s.direction.1 < u32::MAX)
        &&& (opt == -1 && s.direction.1 == 0) ==> s.dimensions >= 1
    }
}

/// Checks `turn_defined`.
pub fn check_turn_defined(game_state: &GameState, opt: i32) -> (r: bool)
    ensures
        r == turn_defined(*game_state, opt),
{
    if game_state.position == GOAL_POSITION {
        return true;
    }
    if opt == 1 && (game_state.dimensions < 1 || (game_state.direction.1 != game_state.dimensions - 1
        && game_state.direction.1 == u32::MAX)) {
        return false;
    }
    if opt == -1 && game_state.direction.1 == 0 && game_state.dimensions < 1 {
        return false;
    }
    true
}

/// Turns the player: `-1` to the previous axis, `0` around, `1` to the next
/// axis. Once the game is over, or for any other option, nothing changes.
pub fn turn_cell(game_state: &mut GameState, opt: i32) -> (outcome: TurnOutcome)
    requires
        turn_defined(*old(game_state), opt),
    ensures
        old(game_state).wf() ==> final(game_state).wf(),
        old(game_state).position == GOAL_POSITION ==> outcome == TurnOutcome::Finished && *final(game_state) == *old(
            game_state,
        ),
        old(game_state).position != GOAL_POSITION && (opt == -1 || opt == 0 || opt == 1) ==> {
            &&& outcome == TurnOutcome::Turned
            &&& final(game_state).direction == turned(old(game_state).direction, old(game_state).dimensions, opt)
            &&& final(game_state).dimensions == old(game_state).dimensions
            &&& final(game_state).position == old(game_state).position
            &&& final(game_state).walls == old(game_state).walls
            &&& final(game_state).notes == old(game_state).notes
        },
        old(game_state).position != GOAL_POSITION && !(opt == -1 || opt == 0 || opt == 1) ==> outcome
            == TurnOutcome::Invalid && *final(game_state) == *old(game_state),
{
    if game_state.position == GOAL_POSITION {
        return TurnOutcome::Finished;
    }
    match opt {
        -1 => {
            if game_state.direction.1 == 0 {
                game_state.direction.1 = game_state.dimensions - 1;
                game_state.direction.0 = !game_state.direction.0;
            } else {
                game_state.direction.1 -= 1;
            }
        },
        0 => {
            game_state.direction.0 = !game_state.direction.0;
        },
        1 => {
            if game_state.direction.1 == game_state.dimensions - 1 {
                game_state.direction.1 = 0;
                game_state.direction.0 = !game_state.direction.0;
            } else {
                game_state.direction.1 += 1;
            }
        },
        _ => {
            return TurnOutcome::Invalid;
        },
    }
    TurnOutcome::Turned
}

/// Moves the player one cell forward when the wall ahead is open. Reaching
/// the far corner of a maze with fewer than four axes starts a freshly
/// carved maze with one more axis, its walls drawn in random order (in the
/// order `first_picks` gives when the random generator cannot be seeded).
/// Returns whether anything changed; once the game is over, nothing does.
pub fn move_cell(game_state: &mut GameState) -> (moved: bool)
    requires
        old(game_state).wf(),
    ensures
        final(game_state).wf(),
        !moved ==> *final(game_state) == *old(game_state),
        (old(game_state).position == GOAL_POSITION || !can_move(*old(game_state))) ==> !moved,
        old(game_state).position != GOAL_POSITION && can_move(*old(game_state)) ==> ({
            let d = old(game_state).dimensions;
            let target = step_target(old(game_state).direction, old(game_state).position as nat);
            if target == pow8(d as nat) - 1 && d < 4 {
                &&& moved
                &&& final(game_state).dimensions == d + 1
                &&& final(game_state).position == 0
                &&& final(game_state).direction == (true, 0u32)
                &&& is_random_maze(*final(game_state), (d + 1) as nat)
                &&& is_spanning_tree((d + 1) as nat, final(game_state).walls@)
            } else {
                &&& moved
                &&& final(game_state).position == target
                &&& final(game_state).dimensions == d
                &&& final(game_state).direction == old(game_state).direction
                &&& final(game_state).walls == old(game_state).walls
                &&& final(game_state).notes == old(game_state).notes
            }
        }),
{
    if game_state.position == GOAL_POSITION {
        return false;
    }
    if check_move(game_state) {
        proof {
            lemma_pow8_le_9(game_state.dimensions as nat);
            lemma_step_crosses_open_wall(
                game_state.dimensions as nat,
                game_state.walls@,
                game_state.direction,
                game_state.position as nat,
            );
            lemma_pow8_monotone(game_state.direction.1 as nat, game_state.dimensions as nat);
        }
        let unit = pow8_u32(game_state.direction.1);
        let target = if game_state.direction.0 {
            game_state.position + unit
        } else {
            game_state.position - unit
        };
        if target == pow8_u32(game_state.dimensions) - 1 && game_state.dimensions < 4 {
            match make_maze(game_state.dimensions + 1) {
                Some(next) => {
                    *game_state = next;
                    return true;
                },
                None => {
                    let picks = first_picks(game_state.dimensions + 1);
                    let next = maze_from_picks(game_state.dimensions + 1, &picks);
                    proof {
                        assert(is_new_maze(next, (game_state.dimensions + 1) as nat, picks@));
                    }
                    *game_state = next;
                    return true;
                },
            }
        }
        step_forward(game_state);
        return true;
    }
    false
}

/// Where the player stands: position, number of axes, direction faced, and
/// the note in the current cell.
pub fn get_loc(game_state: &GameState) -> (r: (u32, u32, (bool, u32), String))
    requires
        game_state.wf(),
    ensures
        r == (game_state.position, game_state.dimensions, game_state.direction, game_state.notes@[
            game_state.position as int
        ]),
{
    (
        game_state.position,
        game_state.dimensions,
        game_state.direction,
        game_state.notes[game_state.position as usize].clone(),
    )
}

/// Each turn can be undone: the previous axis after the next one, the next
/// after the previous, and turning around twice all give back the direction
/// faced; every turn keeps the player facing an axis of the maze.
pub proof fn lemma_turns_undo(direction: (bool, u32), d: u32)
    requires
        1 <= d,
        direction.1 < d,
    ensures
        turned(turned(direction, d, 1), d, -1i32) == direction,
        turned(turned(direction, d, -1i32), d, 1) == direction,
        turned(turned(direction, d, 0), d, 0) == direction,
        turned(direction, d, -1i32).1 < d,
        turned(direction, d, 0).1 < d,
        turned(direction, d, 1).1 < d,
{
}

/// A step can be retraced: after stepping forward and turning around, the
/// player may step again, and lands back in the cell they came from.
pub proof fn lemma_step_back_after_turn(d: nat, walls: Seq<bool>, direction: (bool, u32), pos: nat)
    requires
        1 <= d <= 9,
        walls.len() == wall_count(d),
        pos < pow8(d),
        direction.1 < d,
        can_step(d, walls, direction, pos),
    ensures
        ({
            let ahead = step_target(direction, pos) as nat;
            let back = turned(direction, d as u32, 0);
            &&& can_step(d, walls, back, ahead)
            &&& step_target(back, ahead) == pos
        }),
{
    let ahead = step_target(direction, pos) as nat;
    let back = turned(direction, d as u32, 0);
    lemma_step_crosses_open_wall(d, walls, direction, pos);
    let w = choose|w: nat| #[trigger] open_wall_between(d, walls, w, pos, ahead);
    assert(open_wall_between(d, walls, w, ahead, pos));
    assert(step_target(back, ahead) == pos);
    lemma_step_crosses_open_wall(d, walls, back, ahead);
}

/// A note left in a cell is the note `get_loc` reports there afterwards,
/// and the notes of all other cells stay as they were.
pub proof fn lemma_note_read_back(notes: Seq<String>, position: int, note: String, other: int)
    requires
        0 <= position < notes.len(),
        0 <= other < notes.len(),
        other != position,
    ensures
        notes.update(position, note)[position] == note,
        notes.update(position, note)[other] == notes[other],
{
}

/// Some direction lets the player step from `x` straight to `y`.
pub open spec fn move_between(d: nat, walls: Seq<bool>, x: nat, y: nat) -> bool {
    exists|direction: (bool, u32)|
        direction.1 < d && #[trigger] can_step(d, walls, direction, x) && step_target(direction, x) == y
}

/// `p` is a sequence of cells that the player can walk, one step at a time.
pub open spec fn is_move_walk(d: nat, walls: Seq<bool>, p: Seq<nat>) -> bool {
    &&& p.len() > 0
    &&& forall|j: int| 0 <= j < p.len() - 1 ==> #[trigger] move_between(d, walls, p[j], p[j + 1])
}

/// An open wall between two cells lets the player step from either to the
/// other.
pub proof fn lemma_open_wall_is_move(d: nat, walls: Seq<bool>, x: nat, y: nat)
    requires
        1 <= d <= 9,
        walls.len() == wall_count(d),
        open_step(d, walls, x, y),
    ensures
        move_between(d, walls, x, y),
{
    let w = choose|w: nat| #[trigger] open_wall_between(d, walls, w, x, y);
    lemma_wall_cells(w, d);
    let k = wall_axis(w, d);
    if wall_low(w, d) == x {
        let direction = (true, k as u32);
        assert(step_target(direction, x) == y);
        lemma_step_crosses_open_wall(d, walls, direction, x);
        assert(direction.1 < d && can_step(d, walls, direction, x) && step_target(direction, x) == y);
    } else {
        let direction = (false, k as u32);
        assert(step_target(direction, x) == y);
        lemma_step_crosses_open_wall(d, walls, direction, x);
        assert(direction.1 < d && can_step(d, walls, direction, x) && step_target(direction, x) == y);
    }
}

/// In a maze whose open walls join every cell to every other, such as every
/// maze `make_maze` carves, the player can walk from any cell to any other,
/// in particular from the start to the far corner.
pub proof fn lemma_every_cell_walkable(d: nat, walls: Seq<bool>, x: nat, y: nat)
    requires
        1 <= d <= 9,
        walls.len() == wall_count(d),
        fully_connected(d, walls),
        x < pow8(d),
        y < pow8(d),
    ensures
        exists|p: Seq<nat>| #[trigger] is_move_walk(d, walls, p) && p[0] == x && p.last() == y,
{
    assert(connected(d, walls, x, y));
    let p = choose|p: Seq<nat>| #[trigger] is_open_walk(d, walls, p) && p[0] == x && p.last() == y;
    assert forall|j: int| 0 <= j < p.len() - 1 implies #[trigger] move_between(d, walls, p[j], p[j + 1]) by {
        assert(open_step(d, walls, p[j], p[j + 1]));
        lemma_open_wall_is_move(d, walls, p[j], p[j + 1]);
    }
    assert(is_move_walk(d, walls, p));
}

/// The direction after `j` turns to the next axis.
pub open spec fn turns_to_next(direction: (bool, u32), d: u32, j: nat) -> (bool, u32)
    decreases j,
{
    if j == 0 {
        direction
    } else {
        turned(turns_to_next(direction, d, (j - 1) as nat), d, 1)
    }
}

/// The place of a direction in the cycle of turns to the next axis: the
/// positive ends of the axes first, then the negative ends.
pub open spec fn direction_index(direction: (bool, u32), d: u32) -> nat {
    if direction.0 {
        direction.1 as nat
    } else {
        (d + direction.1) as nat
    }
}

proof fn lemma_mod_succ(x: nat, m: nat)
    requires
        m > 0,
    ensures
        (x + 1) % m == if x % m + 1 == m { 0 } else { x % m + 1 },
{
    vstd::arithmetic::div_mod::lemma_fundamental_div_mod(x as int, m as int);
    vstd::arithmetic::div_mod::lemma_mod_pos_bound(x as int, m as int);
    let q = x / m;
    let r = x % m;
    if r + 1 == m {
        assert(x + 1 == (q + 1) * m + 0) by (nonlinear_arith)
            requires x == m * q + r, r + 1 == m;
        vstd::arithmetic::div_mod::lemma_fundamental_div_mod_converse((x + 1) as int, m as int, (q + 1) as int, 0);
    } else {
        assert(x + 1 == q * m + (r + 1)) by (nonlinear_arith)
            requires x == m * q + r;
        vstd::arithmetic::div_mod::lemma_fundamental_div_mod_converse((x + 1) as int, m as int, q as int, (r + 1) as int);
    }
}

/// After `j` turns to the next axis the player faces the direction `j`
/// places further round the cycle.
proof fn lemma_turns_index(direction: (bool, u32), d: u32, j: nat)
    requires
        1 <= d,
        direction.1 < d,
    ensures
        turns_to_next(direction, d, j).1 < d,
        direction_index(turns_to_next(direction, d, j), d) == (direction_index(direction, d) + j) % (2 * d as nat),
    decreases j,
{
    let m = 2 * d as nat;
    let i0 = direction_index(direction, d);
    if j == 0 {
        vstd::arithmetic::div_mod::lemma_small_mod(i0, m);
    } else {
        lemma_turns_index(direction, d, (j - 1) as nat);
        lemma_mod_succ(i0 + (j - 1) as nat, m);
        assert(i0 + (j - 1) as nat + 1 == i0 + j);
    }
}

/// Directions of the maze are told apart by their place in the cycle.
proof fn lemma_direction_index_injective(a: (bool, u32), b: (bool, u32), d: u32)
    requires
        a.1 < d,
        b.1 < d,
        direction_index(a, d) == direction_index(b, d),
    ensures
        a == b,
{
}

/// Turning to the next axis `2d` times brings the player back to the
/// direction they started from, and on the way faces each of the `2d`
/// directions of the maze exactly once.
pub proof fn lemma_turn_cycle(direction: (bool, u32), d: u32)
    requires
        1 <= d,
        direction.1 < d,
    ensures
        turns_to_next(direction, d, 2 * d as nat) == direction,
        forall|i: nat, j: nat|
            i < j < 2 * d ==> #[trigger] turns_to_next(direction, d, i) != #[trigger] turns_to_next(direction, d, j),
        forall|e: (bool, u32)|
            e.1 < d ==> exists|j: nat| j < 2 * d && #[trigger] turns_to_next(direction, d, j) == e,
{
    let m = 2 * d as nat;
    let i0 = direction_index(direction, d);
    lemma_turns_index(direction, d, m);
    vstd::arithmetic::div_mod::lemma_small_mod(i0, m);
    vstd::arithmetic::div_mod::lemma_mod_add_multiples_vanish(i0 as int, m as int);
    lemma_direction_index_injective(turns_to_next(direction, d, m), direction, d);
    assert forall|i: nat, j: nat| i < j < 2 * d implies #[trigger] turns_to_next(direction, d, i) != #[trigger] turns_to_next(
        direction,
        d,
        j,
    ) by {
        lemma_turns_index(direction, d, i);
        lemma_turns_index(direction, d, j);
        if turns_to_next(direction, d, i) == turns_to_next(direction, d, j) {
            let x = i0 + i;
            let y = i0 + j;
            vstd::arithmetic::div_mod::lemma_fundamental_div_mod(x as int, m as int);
            vstd::arithmetic::div_mod::lemma_fundamental_div_mod(y as int, m as int);
            assert(false) by (nonlinear_arith)
                requires
                    x == m * (x / m) + x % m,
                    y == m * (y / m) + y % m,
                    x % m == y % m,
                    x < y,
                    y - x < m,
                    m > 0;
        }
    }
    assert forall|e: (bool, u32)| e.1 < d implies exists|j: nat| j < 2 * d && #[trigger] turns_to_next(
        direction,
        d,
        j,
    ) == e by {
        let t = direction_index(e, d);
        let j: nat = if t >= i0 { (t - i0) as nat } else { (t + m - i0) as nat };
        lemma_turns_index(direction, d, j);
        if t >= i0 {
            vstd::arithmetic::div_mod::lemma_small_mod(t, m);
        } else {
            vstd::arithmetic::div_mod::lemma_small_mod(t, m);
            vstd::arithmetic::div_mod::lemma_mod_add_multiples_vanish(t as int, m as int);
        }
        lemma_direction_index_injective(turns_to_next(direction, d, j), e, d);
    }
}

} // verus!

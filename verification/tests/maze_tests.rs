use hyperspace_nav::flood::cell_match;
use hyperspace_nav::game::{
    check_move, check_turn_defined, get_loc, hall_dist, move_cell, store_note, turn_cell, GameState, TurnOutcome, GOAL_POSITION,
};
use hyperspace_nav::grid::{cell_pair, pow8_u32};
use hyperspace_nav::labels::{corridor_slots, hall_label, hall_label_head, state_label};
use hyperspace_nav::lock::{lock_step, LockAttempt, LockStep, LOCK_TRIES};
use hyperspace_nav::maze::{carve_walls, make_maze, maze_from_picks};

fn wall_total(d: u32) -> u32 {
    d * 7 * pow8_u32(d - 1)
}

/// Cells reachable from cell 0 through open walls, found by a search of
/// this test's own.
fn reachable_count(d: u32, walls: &[bool]) -> usize {
    let n = pow8_u32(d) as usize;
    let mut adj: Vec<Vec<usize>> = vec![Vec::new(); n];
    for w in 0..wall_total(d) {
        if walls[w as usize] {
            let (a, b) = cell_pair(w, d);
            adj[a as usize].push(b as usize);
            adj[b as usize].push(a as usize);
        }
    }
    let mut seen = vec![false; n];
    let mut stack = vec![0usize];
    seen[0] = true;
    let mut count = 1;
    while let Some(c) = stack.pop() {
        for &x in &adj[c] {
            if !seen[x] {
                seen[x] = true;
                count += 1;
                stack.push(x);
            }
        }
    }
    count
}

/// Kruskal's algorithm with union by relabelling, written independently.
fn reference_walls(d: u32, picks: &[usize]) -> Vec<bool> {
    let total = wall_total(d) as usize;
    let n = pow8_u32(d) as usize;
    let mut label: Vec<usize> = (0..n).collect();
    let mut rest: Vec<u32> = (0..total as u32).collect();
    let mut walls = vec![false; total];
    for &p in picks {
        let w = rest.swap_remove(p);
        let (a, b) = cell_pair(w, d);
        let (la, lb) = (label[a as usize], label[b as usize]);
        if la != lb {
            for l in label.iter_mut() {
                if *l == lb {
                    *l = la;
                }
            }
            walls[w as usize] = true;
        }
    }
    walls
}

fn line_state(open: [bool; 7], position: u32, direction: (bool, u32)) -> GameState {
    GameState {
        dimensions: 1,
        position,
        direction,
        walls: open.to_vec(),
        notes: ["a", "b", "c", "d", "e", "f", "g", "h"].iter().map(|s| s.to_string()).collect(),
    }
}

#[test]
fn cell_pair_one_axis() {
    assert_eq!(cell_pair(0, 1), (0, 1));
    assert_eq!(cell_pair(3, 1), (3, 4));
    assert_eq!(cell_pair(6, 1), (6, 7));
}

#[test]
fn cell_pair_two_axes() {
    assert_eq!(cell_pair(7, 2), (8, 9));
    assert_eq!(cell_pair(13, 2), (14, 15));
    assert_eq!(cell_pair(56, 2), (0, 8));
    assert_eq!(cell_pair(57, 2), (1, 9));
    assert_eq!(cell_pair(63, 2), (7, 15));
    assert_eq!(cell_pair(64, 2), (8, 16));
    assert_eq!(cell_pair(111, 2), (55, 63));
}

#[test]
fn cell_pair_four_axes() {
    // Wall 3 * 7 * 8^3 + 0 is the first along the fourth axis.
    assert_eq!(cell_pair(3 * 3584, 4), (0, 512));
    assert_eq!(cell_pair(4 * 3584 - 1, 4), (3583, 4095));
}

#[test]
fn cell_pair_covers_every_neighbour_once() {
    for d in 1..=3u32 {
        let n = pow8_u32(d) as usize;
        let mut seen = std::collections::HashSet::new();
        for w in 0..wall_total(d) {
            let (a, b) = cell_pair(w, d);
            assert!((b as usize) < n);
            assert!(seen.insert((a, b)));
        }
        assert_eq!(seen.len() as u32, wall_total(d));
    }
}

#[test]
fn cell_match_whole_component() {
    let cells: Vec<u32> = (0..8).collect();
    let out = cell_match(cells, 1, (0, 1));
    assert_eq!(out, vec![0, 0, 2, 3, 4, 5, 6, 7]);
}

#[test]
fn cell_match_stops_at_other_labels() {
    let cells = vec![0, 0, 1, 1, 1, 5, 1, 7];
    let out = cell_match(cells, 1, (1, 2));
    assert_eq!(out, vec![0, 0, 0, 0, 0, 5, 1, 7]);
}

#[test]
fn carve_line_opens_every_wall() {
    let picks = vec![0usize; 7];
    let walls = carve_walls(1, &picks);
    assert_eq!(walls, vec![true; 7]);
}

#[test]
fn carve_matches_reference() {
    for d in 1..=3u32 {
        let total = wall_total(d) as usize;
        let picks: Vec<usize> = (0..total).map(|t| (t * 7919 + 13) % (total - t)).collect();
        let walls = carve_walls(d, &picks);
        assert_eq!(walls, reference_walls(d, &picks));
        let open = walls.iter().filter(|&&w| w).count();
        assert_eq!(open, pow8_u32(d) as usize - 1);
        assert_eq!(reachable_count(d, &walls), pow8_u32(d) as usize);
    }
}

#[test]
fn maze_from_picks_starts_game() {
    let picks: Vec<usize> = (0..112).map(|t| t % (112 - t)).collect();
    let s = maze_from_picks(2, &picks);
    assert_eq!(s.dimensions, 2);
    assert_eq!(s.position, 0);
    assert_eq!(s.direction, (true, 0));
    assert_eq!(s.notes.len(), 64);
    assert!(s.notes.iter().all(|n| n == " "));
    assert_eq!(s.walls, reference_walls(2, &picks));
}

#[test]
fn make_maze_is_spanning_tree() {
    for d in 1..=4u32 {
        let s = make_maze(d).expect("the system random source seeds the generator");
        assert!(s.is_well_formed());
        assert_eq!(s.position, 0);
        assert_eq!(s.direction, (true, 0));
        let open = s.walls.iter().filter(|&&w| w).count();
        assert_eq!(open, pow8_u32(d) as usize - 1);
        assert_eq!(reachable_count(d, &s.walls), pow8_u32(d) as usize);
    }
}

#[test]
fn check_move_follows_walls() {
    let mut open = [false; 7];
    open[0] = true;
    assert!(check_move(&line_state(open, 0, (true, 0))));
    assert!(!check_move(&line_state(open, 1, (true, 0))));
    assert!(!check_move(&line_state(open, 0, (false, 0))));
    assert!(check_move(&line_state(open, 1, (false, 0))));
    assert!(!check_move(&line_state([true; 7], 7, (true, 0))));
}

#[test]
fn check_move_second_axis() {
    let picks: Vec<usize> = vec![0; 112];
    let mut s = maze_from_picks(2, &picks);
    // Wall 56 joins cell 0 and cell 8 along the second axis.
    s.direction = (true, 1);
    assert_eq!(check_move(&s), s.walls[56]);
    s.position = 8;
    s.direction = (false, 1);
    assert_eq!(check_move(&s), s.walls[56]);
}

#[test]
fn hall_dist_sees_down_the_corridor() {
    let mut open = [true; 7];
    open[4] = false;
    let s = line_state(open, 1, (true, 0));
    assert_eq!(hall_dist(s, (true, 0)), vec!["c", "d", "e"]);
    let s = line_state(open, 1, (true, 0));
    assert_eq!(hall_dist(s, (false, 0)), vec!["a"]);
    let s = line_state(open, 1, (true, 0));
    assert!(hall_dist(s, (true, 1)).is_empty());
}

#[test]
fn hall_dist_whole_line() {
    let s = line_state([true; 7], 0, (false, 0));
    assert_eq!(hall_dist(s, (true, 0)), vec!["b", "c", "d", "e", "f", "g", "h"]);
}

#[test]
fn store_note_then_get_loc() {
    let mut s = line_state([true; 7], 3, (false, 0));
    store_note(&mut s, "here".to_string());
    assert_eq!(get_loc(&s), (3, 1, (false, 0), "here".to_string()));
    assert_eq!(s.notes[2], "c");
}

#[test]
fn turn_cell_cycles_axes() {
    let picks: Vec<usize> = vec![0; 3 * 7 * 64];
    let mut s = maze_from_picks(3, &picks);
    assert_eq!(turn_cell(&mut s, -1), TurnOutcome::Turned);
    assert_eq!(s.direction, (false, 2));
    assert_eq!(turn_cell(&mut s, 1), TurnOutcome::Turned);
    assert_eq!(s.direction, (true, 0));
    assert_eq!(turn_cell(&mut s, 1), TurnOutcome::Turned);
    assert_eq!(s.direction, (true, 1));
    assert_eq!(turn_cell(&mut s, 0), TurnOutcome::Turned);
    assert_eq!(s.direction, (false, 1));
    assert_eq!(turn_cell(&mut s, 2), TurnOutcome::Invalid);
    assert_eq!(s.direction, (false, 1));
}

#[test]
fn nothing_changes_at_the_goal() {
    let picks: Vec<usize> = vec![0; 4 * 7 * 512];
    let mut s = maze_from_picks(4, &picks);
    s.position = GOAL_POSITION;
    assert_eq!(turn_cell(&mut s, 1), TurnOutcome::Finished);
    assert_eq!(s.direction, (true, 0));
    assert!(!move_cell(&mut s));
    assert_eq!(s.position, GOAL_POSITION);
}

#[test]
fn move_cell_steps_and_blocks() {
    let mut open = [true; 7];
    open[2] = false;
    let mut s = line_state(open, 1, (true, 0));
    assert!(move_cell(&mut s));
    assert_eq!(s.position, 2);
    assert!(!move_cell(&mut s));
    assert_eq!(s.position, 2);
    turn_cell(&mut s, 0);
    assert!(move_cell(&mut s));
    assert_eq!(s.position, 1);
}

#[test]
fn move_cell_to_corner_starts_next_level() {
    let mut s = line_state([true; 7], 6, (true, 0));
    assert!(move_cell(&mut s));
    assert_eq!(s.dimensions, 2);
    assert_eq!(s.position, 0);
    assert_eq!(s.walls.len(), 112);
    assert_eq!(reachable_count(2, &s.walls), 64);
}

#[test]
fn hall_label_text() {
    assert_eq!(hall_label_head((true, 0)), Some(".x +.\n__\n".to_string()));
    assert_eq!(hall_label_head((false, 3)), Some(".a -.\n__\n".to_string()));
    assert_eq!(hall_label_head((true, 4)), None);
    let head = hall_label_head((false, 1)).unwrap();
    assert_eq!(hall_label(head, vec!["n1".to_string(), "n2".to_string()]), ".y -.\n__\n|n2|\n|n1|\n");
}

#[test]
fn state_label_text() {
    assert_eq!(state_label((GOAL_POSITION, 4, (true, 0), " ".to_string())), Some("You Win!".to_string()));
    assert_eq!(
        state_label((10, 2, (false, 1), "hi".to_string())),
        Some("Position: (2, 1) Facing: y - note: hi".to_string())
    );
    assert_eq!(
        state_label((83, 3, (true, 2), " ".to_string())),
        Some("Position: (3, 2, 1) Facing: z + note:  ".to_string())
    );
    assert_eq!(state_label((10, 2, (true, 5), String::new())), None);
}

#[test]
fn cell_pair_ten_axes() {
    assert_eq!(cell_pair(0, 10), (0, 1));
    // The first wall along the fifth axis.
    assert_eq!(cell_pair(4 * 939524096, 10), (0, 4096));
    assert_eq!(cell_pair(4 * 939524096 + 7, 10), (7, 4103));
}

#[test]
fn turning_to_next_axis_cycles() {
    for d in 1..=4u32 {
        let total = wall_total(d) as usize;
        let mut s = maze_from_picks(d, &vec![0; total]);
        let start = s.direction;
        let mut seen = std::collections::HashSet::new();
        for j in 1..=2 * d {
            assert_eq!(turn_cell(&mut s, 1), TurnOutcome::Turned);
            assert_eq!(s.direction == start, j == 2 * d);
            assert!(s.direction.1 < d);
            assert!(seen.insert(s.direction));
        }
        assert_eq!(seen.len() as u32, 2 * d);
    }
}

#[test]
fn turn_defined_on_damaged_states() {
    let mut s = line_state([true; 7], 0, (true, 0));
    s.dimensions = 0;
    assert!(!check_turn_defined(&s, 1));
    assert!(check_turn_defined(&s, 0));
    assert!(!check_turn_defined(&s, -1));
    s.direction = (true, 3);
    assert!(check_turn_defined(&s, -1));
    assert_eq!(turn_cell(&mut s, -1), TurnOutcome::Turned);
    assert_eq!(s.direction, (true, 2));
}

#[test]
fn lock_steps() {
    assert_eq!(LOCK_TRIES, 10);
    assert_eq!(lock_step(1, LockAttempt::Created), LockStep::Proceed);
    assert_eq!(lock_step(9, LockAttempt::Created), LockStep::Proceed);
    assert_eq!(lock_step(10, LockAttempt::Created), LockStep::GiveUpHoldingLock);
    assert_eq!(lock_step(1, LockAttempt::AlreadyExists), LockStep::SleepThenRetry);
    assert_eq!(lock_step(10, LockAttempt::AlreadyExists), LockStep::SleepThenGiveUp);
    assert_eq!(lock_step(4, LockAttempt::Failed), LockStep::Abort);
}

#[test]
fn corridor_slots_in_pane_order() {
    assert_eq!(
        corridor_slots(),
        vec![(true, 0), (false, 0), (true, 1), (false, 1), (true, 2), (false, 2), (true, 3), (false, 3)]
    );
}

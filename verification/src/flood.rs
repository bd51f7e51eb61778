//! Flood fill over cell labels: the merge step of maze carving.

use vstd::prelude::*;
use crate::grid::{pow8, lemma_pow8_le_10, lemma_pow8_monotone, pow8_u32};

verus! {

/// Cells `x` and `y` of a maze with `d` axes are one index step apart:
/// `y = x + 8^k` or `x = y + 8^k` for some axis `k < d`.
pub open spec fn index_step(d: nat, x: nat, y: nat) -> bool {
    exists|k: nat| #![trigger pow8(k)] k < d && (y == x + pow8(k) || x == y + pow8(k))
}

/// `p` is a walk by index steps through cells of the maze that carry `label`.
pub open spec fn is_label_walk(d: nat, cells: Seq<u32>, label: u32, p: Seq<nat>) -> bool {
    &&& p.len() > 0
    &&& forall|j: int| 0 <= j < p.len() ==> #[trigger] p[j] < pow8(d) && cells[p[j] as int] == label
    &&& forall|j: int| 0 <= j < p.len() - 1 ==> #[trigger] index_step(d, p[j], p[j + 1])
}

/// Cell `to` is reachable from `from` by index steps through cells labelled
/// `label`.
pub open spec fn label_reachable(d: nat, cells: Seq<u32>, label: u32, from: nat, to: nat) -> bool {
    exists|p: Seq<nat>| #[trigger] is_label_walk(d, cells, label, p) && p[0] == from && p.last() == to
}

/// The labels after the merge: each cell labelled `high` that is reachable
/// from `start` through cells labelled `high` now carries `low`; every other
/// cell keeps its label.
pub open spec fn relabelled(d: nat, cells: Seq<u32>, start: nat, low: u32, high: u32) -> Seq<u32> {
    Seq::new(
        cells.len(),
        |x: int|
            if cells[x] == high && label_reachable(d, cells, high, start, x as nat) {
                low
            } else {
                cells[x]
            },
    )
}

/// Number of entries of `s` equal to `v`.
pub open spec fn count_eq(s: Seq<u32>, v: u32) -> nat
    decreases s.len(),
{
    if s.len() == 0 {
        0
    } else {
        count_eq(s.drop_last(), v) + if s.last() == v { 1nat } else { 0nat }
    }
}

/// Number of entries of `stack` naming a cell whose label is not `v`.
pub open spec fn count_off(stack: Seq<u32>, cells: Seq<u32>, v: u32) -> nat
    decreases stack.len(),
{
    if stack.len() == 0 {
        0
    } else {
        count_off(stack.drop_last(), cells, v) + if cells[stack.last() as int] != v {
            1nat
        } else {
            0nat
        }
    }
}

/// Cell `y` is named on `stack`.
pub open spec fn on_stack(stack: Seq<u32>, y: int) -> bool {
    exists|j: int| 0 <= j < stack.len() && stack[j] as int == y
}

/// Cell `x` carried `high` at first and has been relabelled since.
pub open spec fn visited(orig: Seq<u32>, now: Seq<u32>, high: u32, x: int) -> bool {
    orig[x] == high && now[x] != high
}

/// Every neighbour still labelled `high` of a visited cell waits on the stack.
pub open spec fn frontier_closed(d: nat, orig: Seq<u32>, now: Seq<u32>, stack: Seq<u32>, high: u32) -> bool {
    forall|x: int, k: nat|
        #![trigger visited(orig, now, high, x), pow8(k)]
        0 <= x < pow8(d) && k < d && visited(orig, now, high, x) ==> {
            &&& (x + pow8(k) < pow8(d) && now[x + pow8(k)] == high) ==> on_stack(stack, x + pow8(k))
            &&& (x >= pow8(k) && now[x - pow8(k)] == high) ==> on_stack(stack, x - pow8(k))
        }
}

proof fn lemma_count_eq_update(s: Seq<u32>, i: int, w: u32, v: u32)
    requires
        0 <= i < s.len(),
        s[i] == v,
        w != v,
    ensures
        count_eq(s.update(i, w), v) + 1 == count_eq(s, v),
    decreases s.len(),
{
    let t = s.update(i, w);
    if i == s.len() - 1 {
        assert(t.drop_last() =~= s.drop_last());
    } else {
        lemma_count_eq_update(s.drop_last(), i, w, v);
        assert(t.drop_last() =~= s.drop_last().update(i, w));
    }
}

proof fn lemma_count_off_push(stack: Seq<u32>, cells: Seq<u32>, v: u32, y: u32)
    requires
        cells[y as int] == v,
    ensures
        count_off(stack.push(y), cells, v) == count_off(stack, cells, v),
{
    assert(stack.push(y).drop_last() =~= stack);
}

/// Extending a walk by one more index step.
proof fn lemma_walk_extend(d: nat, cells: Seq<u32>, label: u32, p: Seq<nat>, y: nat)
    requires
        is_label_walk(d, cells, label, p),
        y < pow8(d),
        cells[y as int] == label,
        index_step(d, p.last(), y),
    ensures
        is_label_walk(d, cells, label, p.push(y)),
        p.push(y)[0] == p[0],
        p.push(y).last() == y,
{
    let q = p.push(y);
    assert forall|j: int| 0 <= j < q.len() - 1 implies #[trigger] index_step(d, q[j], q[j + 1]) by {
        if j < p.len() - 1 {
            assert(q[j] == p[j] && q[j + 1] == p[j + 1]);
            assert(index_step(d, p[j], p[j + 1]));
        }
    }
    assert forall|j: int| 0 <= j < q.len() implies #[trigger] q[j] < pow8(d) && cells[q[j] as int] == label by {
        if j < p.len() {
            assert(q[j] == p[j]);
        }
    }
}

/// Along a walk of `high` cells that starts at a visited cell, with the
/// frontier closed and the stack empty, every cell has been visited.
proof fn lemma_walk_all_visited(
    d: nat,
    orig: Seq<u32>,
    now: Seq<u32>,
    high: u32,
    low: u32,
    p: Seq<nat>,
    j: int,
)
    requires
        orig.len() == pow8(d),
        now.len() == pow8(d),
        low != high,
        is_label_walk(d, orig, high, p),
        0 <= j < p.len(),
        now[p[0] as int] != high,
        frontier_closed(d, orig, now, Seq::<u32>::empty(), high),
        forall|x: int| 0 <= x < pow8(d) ==> now[x] == orig[x] || now[x] == low,
    ensures
        now[p[j] as int] != high,
    decreases j,
{
    if j > 0 {
        lemma_walk_all_visited(d, orig, now, high, low, p, j - 1);
        let a = p[j - 1];
        let b = p[j];
        assert(index_step(d, p[j - 1], p[j - 1 + 1]));
        let k = choose|k: nat| #![trigger pow8(k)] k < d && (b == a + pow8(k) || a == b + pow8(k));
        assert(a < pow8(d) && orig[a as int] == high);
        assert(visited(orig, now, high, a as int));
        if now[b as int] == high {
            if b == a + pow8(k) {
                assert(on_stack(Seq::<u32>::empty(), (a + pow8(k)) as int));
            } else {
                assert(on_stack(Seq::<u32>::empty(), a - pow8(k)));
            }
        }
    }
}

/// Relabels with `cells[cell_pair.0]` every cell that carries the label of
/// `cell_pair.1` and can be reached from `cell_pair.1` by index steps through
/// cells with that label.
pub fn cell_match(mut cells: Vec<u32>, dimensions: u32, cell_pair: (u32, u32)) -> (result: Vec<u32>)
    requires
        1 <= dimensions <= 10,
        cells.len() == pow8(dimensions as nat),
        cell_pair.0 < cells.len(),
        cell_pair.1 < cells.len(),
        cells[cell_pair.0 as int] != cells[cell_pair.1 as int],
    ensures
        result@ == relabelled(
            dimensions as nat,
            cells@,
            cell_pair.1 as nat,
            cells[cell_pair.0 as int],
            cells[cell_pair.1 as int],
        ),
{
    let ghost d = dimensions as nat;
    let ghost n = pow8(d);
    let low = cells[cell_pair.0 as usize];
    let high = cells[cell_pair.1 as usize];
    let ghost orig = cells@;
    let ghost start = cell_pair.1 as nat;
    proof {
        lemma_pow8_le_10(d);
        let p0 = seq![start];
        assert(is_label_walk(d, orig, high, p0));
        assert(label_reachable(d, orig, high, start, start));
    }
    let mut check_cells: Vec<u32> = Vec::new();
    check_cells.push(cell_pair.1);
    proof {
        assert(on_stack(check_cells@, start as int)) by {
            assert(check_cells@[0] as int == start as int);
        }
    }
    while check_cells.len() > 0
        invariant
            d == dimensions,
            1 <= d <= 10,
            n == pow8(d),
            n <= 1073741824,
            cells@.len() == n,
            orig.len() == n,
            start < n,
            low != high,
            high == orig[start as int],
            low == orig[cell_pair.0 as int],
            forall|x: int|
                0 <= x < n ==> #[trigger] cells@[x] == orig[x] || (orig[x] == high && cells@[x] == low
                    && label_reachable(d, orig, high, start, x as nat)),
            forall|j: int|
                0 <= j < check_cells@.len() ==> #[trigger] check_cells@[j] < n && orig[check_cells@[j] as int]
                    == high && label_reachable(d, orig, high, start, check_cells@[j] as nat),
            cells@[start as int] == low || on_stack(check_cells@, start as int),
            frontier_closed(d, orig, cells@, check_cells@, high),
        decreases count_eq(cells@, high), count_off(check_cells@, cells@, high),
    {
        let ghost before = cells@;
        let ghost stack0 = check_cells@;
        let cur_cell = check_cells.pop().unwrap();
        let ghost popped = check_cells@;
        proof {
            assert(popped =~= stack0.drop_last());
            assert(cur_cell == stack0[stack0.len() - 1]);
        }
        cells.set(cur_cell as usize, low);
        let ghost after = cells@;
        proof {
            if before[cur_cell as int] == high {
                lemma_count_eq_update(before, cur_cell as int, low, high);
            } else {
                assert(after =~= before);
            }
        }
        for i in 0..dimensions
            invariant
                d == dimensions,
                1 <= d <= 10,
                n == pow8(d),
                n <= 1073741824,
                cells@ == after,
                after.len() == n,
                orig.len() == n,
                cur_cell < n,
                low != high,
                after[cur_cell as int] == low,
                label_reachable(d, orig, high, start, cur_cell as nat),
                forall|x: int| 0 <= x < n ==> after[x] == orig[x] || after[x] == low,
                check_cells@.len() >= popped.len(),
                forall|j: int| 0 <= j < popped.len() ==> check_cells@[j] == popped[j],
                forall|j: int|
                    0 <= j < check_cells@.len() ==> #[trigger] check_cells@[j] < n && orig[check_cells@[j] as int]
                        == high && label_reachable(d, orig, high, start, check_cells@[j] as nat),
                count_off(check_cells@, after, high) == count_off(popped, after, high),
                forall|k: nat|
                    #![trigger pow8(k)]
                    k < i ==> {
                        &&& (cur_cell + pow8(k) < n && after[cur_cell + pow8(k)] == high) ==> on_stack(
                            check_cells@,
                            cur_cell + pow8(k),
                        )
                        &&& (cur_cell >= pow8(k) && after[cur_cell - pow8(k)] == high) ==> on_stack(
                            check_cells@,
                            cur_cell - pow8(k),
                        )
                    },
        {
            let p = pow8_u32(i);
            proof {
                lemma_pow8_monotone(i as nat, d);
            }
            if cur_cell >= p && cells[(cur_cell - p) as usize] == high {
                let ghost s0 = check_cells@;
                let y = cur_cell - p;
                proof {
                    let wp = choose|wp: Seq<nat>| #[trigger] is_label_walk(d, orig, high, wp) && wp[0] == start
                        && wp.last() == cur_cell as nat;
                    assert(index_step(d, cur_cell as nat, y as nat)) by {
                        assert(pow8(i as nat) == p);
                    }
                    lemma_walk_extend(d, orig, high, wp, y as nat);
                    lemma_count_off_push(s0, after, high, y);
                }
                check_cells.push(y);
                proof {
                    assert(check_cells@[s0.len() as int] == y);
                    assert forall|k: nat|
                        #![trigger pow8(k)]
                        k < i ==> {
                            &&& (cur_cell + pow8(k) < n && after[cur_cell + pow8(k)] == high) ==> on_stack(
                                check_cells@,
                                cur_cell + pow8(k),
                            )
                            &&& (cur_cell >= pow8(k) && after[cur_cell - pow8(k)] == high) ==> on_stack(
                                check_cells@,
                                cur_cell - pow8(k),
                            )
                        } by {
                        if k < i {
                            if cur_cell + pow8(k) < n && after[cur_cell + pow8(k)] == high {
                                let jj = choose|jj: int| 0 <= jj < s0.len() && s0[jj] as int == cur_cell + pow8(k);
                                assert(check_cells@[jj] == s0[jj]);
                            }
                            if cur_cell >= pow8(k) && after[cur_cell - pow8(k)] == high {
                                let jj = choose|jj: int| 0 <= jj < s0.len() && s0[jj] as int == cur_cell - pow8(k);
                                assert(check_cells@[jj] == s0[jj]);
                            }
                        }
                    }
                }
            }
            let top = pow8_u32(dimensions);
            if cur_cell + p < top && cells[(cur_cell + p) as usize] == high {
                let ghost s0 = check_cells@;
                let y = cur_cell + p;
                proof {
                    let wp = choose|wp: Seq<nat>| #[trigger] is_label_walk(d, orig, high, wp) && wp[0] == start
                        && wp.last() == cur_cell as nat;
                    assert(index_step(d, cur_cell as nat, y as nat)) by {
                        assert(pow8(i as nat) == p);
                    }
                    lemma_walk_extend(d, orig, high, wp, y as nat);
                    lemma_count_off_push(s0, after, high, y);
                }
                check_cells.push(y);
                proof {
                    assert(check_cells@[s0.len() as int] == y);
                    assert forall|k: nat|
                        #![trigger pow8(k)]
                        k <= i ==> {
                            &&& (cur_cell + pow8(k) < n && after[cur_cell + pow8(k)] == high) ==> on_stack(
                                check_cells@,
                                cur_cell + pow8(k),
                            )
                            &&& (cur_cell >= pow8(k) && after[cur_cell - pow8(k)] == high) ==> on_stack(
                                check_cells@,
                                cur_cell - pow8(k),
                            )
                        } by {
                        if k < i {
                            if cur_cell + pow8(k) < n && after[cur_cell + pow8(k)] == high {
                                let jj = choose|jj: int| 0 <= jj < s0.len() && s0[jj] as int == cur_cell + pow8(k);
                                assert(check_cells@[jj] == s0[jj]);
                            }
                            if cur_cell >= pow8(k) && after[cur_cell - pow8(k)] == high {
                                let jj = choose|jj: int| 0 <= jj < s0.len() && s0[jj] as int == cur_cell - pow8(k);
                                assert(check_cells@[jj] == s0[jj]);
                            }
                        } else if k == i {
                            if cur_cell >= pow8(k) && after[cur_cell - pow8(k)] == high {
                                let jj = choose|jj: int| 0 <= jj < s0.len() && s0[jj] as int == cur_cell - pow8(k);
                                assert(check_cells@[jj] == s0[jj]);
                            }
                        }
                    }
                }
            }
        }
        proof {
            // The frontier stays closed: visited cells other than the current
            // one kept their waiting neighbours, which lie below the popped top.
            assert forall|x: int, k: nat|
                #![trigger visited(orig, after, high, x), pow8(k)]
                0 <= x < pow8(d) && k < d && visited(orig, after, high, x) implies {
                    &&& (x + pow8(k) < pow8(d) && after[x + pow8(k)] == high) ==> on_stack(check_cells@, x + pow8(k))
                    &&& (x >= pow8(k) && after[x - pow8(k)] == high) ==> on_stack(check_cells@, x - pow8(k))
                } by {
                if x != cur_cell as int {
                    assert(visited(orig, before, high, x));
                    if x + pow8(k) < pow8(d) && after[x + pow8(k)] == high {
                        assert(x + pow8(k) != cur_cell as int);
                        assert(before[x + pow8(k)] == high);
                        let jj = choose|jj: int| 0 <= jj < stack0.len() && stack0[jj] as int == x + pow8(k);
                        assert(jj < popped.len());
                        assert(check_cells@[jj] == popped[jj]);
                    }
                    if x >= pow8(k) && after[x - pow8(k)] == high {
                        assert(x - pow8(k) != cur_cell as int);
                        assert(before[x - pow8(k)] == high);
                        let jj = choose|jj: int| 0 <= jj < stack0.len() && stack0[jj] as int == x - pow8(k);
                        assert(jj < popped.len());
                        assert(check_cells@[jj] == popped[jj]);
                    }
                }
            }
            if after[start as int] != low {
                assert(before[start as int] != low);
                let jj = choose|jj: int| 0 <= jj < stack0.len() && stack0[jj] as int == start as int;
                assert(jj < popped.len());
                assert(check_cells@[jj] == popped[jj]);
            }
            assert forall|x: int|
                0 <= x < n implies #[trigger] after[x] == orig[x] || (orig[x] == high && after[x] == low
                    && label_reachable(d, orig, high, start, x as nat)) by {
                if x != cur_cell as int {
                    assert(after[x] == before[x]);
                }
            }
            if before[cur_cell as int] != high {
                assert(count_off(stack0, before, high) == count_off(popped, before, high) + 1);
            }
        }
    }
    proof {
        assert forall|x: int| 0 <= x < n implies #[trigger] cells@[x] == relabelled(d, orig, start, low, high)[x] by {
            if orig[x] == high && label_reachable(d, orig, high, start, x as nat) {
                let wp = choose|wp: Seq<nat>| #[trigger] is_label_walk(d, orig, high, wp) && wp[0] == start
                    && wp.last() == x as nat;
                assert(check_cells@ =~= Seq::<u32>::empty());
                assert forall|y: int| 0 <= y < n implies cells@[y] == orig[y] || cells@[y] == low by {
                    assert(cells@[y] == orig[y] || (orig[y] == high && cells@[y] == low && label_reachable(d, orig, high, start, y as nat)));
                }
                lemma_walk_all_visited(d, orig, cells@, high, low, wp, wp.len() - 1);
            }
        }
        assert(cells@ =~= relabelled(d, orig, start, low, high));
    }
    cells
}

} // verus!

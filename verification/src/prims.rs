use vstd::prelude::*;
use crate::backtracker::{
    candidate_steps, dfs_inv, lemma_candidate, lemma_carve_step, lemma_finish, lemma_open_doors,
    lemma_start, neighbour, open_neighbours, open_passage, passage_of, step_towards, Step,
};
use crate::grid::{at, filled_grid, is_grid, set_at};
use crate::maze::{grid_cells, in_grid, lemma_grid_cells, perfect_maze};
use crate::rng::{pick_index, thread_rng};
use crate::wall::Wall;

verus! {

/// A frontier entry: a visited cell and a move out of it.
pub type Frontier = (usize, usize, Step);

/// The frontier entries of cell (`y`, `x`) for the moves `steps`.
pub open spec fn entries_of(y: usize, x: usize, steps: Seq<Step>) -> Seq<Frontier> {
    steps.map_values(|s: Step| (y, x, s))
}

/// A frontier entry leaves a visited cell of the grid towards a neighbour
/// inside the grid.
pub open spec fn entry_ok(e: Frontier, vis: Seq<Vec<bool>>, rows: int, cols: int) -> bool {
    &&& in_grid(rows, cols, e.0 as int, e.1 as int)
    &&& at(vis, e.0 as int, e.1 as int)
    &&& exists|d: int|
        0 <= d < 4 && e.2 == step_towards(e.0 as int, e.1 as int, d) && in_grid(
            rows,
            cols,
            neighbour(e.0 as int, e.1 as int, d).0,
            neighbour(e.0 as int, e.1 as int, d).1,
        )
}

/// Every entry of the frontier is well formed.
pub open spec fn frontier_ok(f: Seq<Frontier>, vis: Seq<Vec<bool>>, rows: int, cols: int) -> bool {
    forall|i: int| 0 <= i < f.len() ==> #[trigger] entry_ok(f[i], vis, rows, cols)
}

/// Taking an entry off the frontier leaves the others well formed.
proof fn lemma_frontier_remove(f0: Seq<Frontier>, i: int, vis: Seq<Vec<bool>>, rows: int, cols: int)
    requires
        frontier_ok(f0, vis, rows, cols),
        0 <= i < f0.len(),
    ensures
        frontier_ok(f0.remove(i), vis, rows, cols),
{
    let f1 = f0.remove(i);
    assert forall|k: int| 0 <= k < f1.len() implies #[trigger] entry_ok(f1[k], vis, rows, cols) by {
        let k0 = if k < i { k } else { k + 1 };
        assert(f1[k] == f0[k0]);
        assert(entry_ok(f0[k0], vis, rows, cols));
    }
}

/// Visiting more cells and adding the moves of a newly visited cell
/// (`y`, `x`) keeps the frontier well formed.
proof fn lemma_frontier_extend(
    f1: Seq<Frontier>,
    v0: Seq<Vec<bool>>,
    v1: Seq<Vec<bool>>,
    rows: int,
    cols: int,
    y: usize,
    x: usize,
)
    requires
        frontier_ok(f1, v0, rows, cols),
        forall|yy: int, xx: int| in_grid(rows, cols, yy, xx) && #[trigger] at(v0, yy, xx) ==> at(v1, yy, xx),
        rows <= usize::MAX,
        cols <= usize::MAX,
        in_grid(rows, cols, y as int, x as int),
        at(v1, y as int, x as int),
    ensures
        frontier_ok(f1 + entries_of(y, x, candidate_steps(v1, rows, cols, y, x)), v1, rows, cols),
{
    let cands = candidate_steps(v1, rows, cols, y, x);
    let f2 = f1 + entries_of(y, x, cands);
    assert forall|k: int| 0 <= k < f2.len() implies #[trigger] entry_ok(f2[k], v1, rows, cols) by {
        if k < f1.len() {
            assert(f2[k] == f1[k]);
            assert(entry_ok(f1[k], v0, rows, cols));
            assert(at(v0, f1[k].0 as int, f1[k].1 as int));
        } else {
            let j = k - f1.len();
            assert(cands.contains(cands[j]));
            let e = lemma_candidate(v1, rows, cols, y, x, cands[j]);
            assert(f2[k] == (y, x, cands[j]));
            assert(f2[k].2 == step_towards(y as int, x as int, e));
            assert(in_grid(rows, cols, neighbour(y as int, x as int, e).0, neighbour(y as int, x as int, e).1));
        }
    }
}

/// Every move from a visited cell into an unvisited cell of the grid is on
/// the frontier.
pub open spec fn frontier_covers(f: Seq<Frontier>, vis: Seq<Vec<bool>>, rows: int, cols: int) -> bool {
    forall|y: int, x: int, d: int|
        #![trigger at(vis, y, x), neighbour(y, x, d)]
        in_grid(rows, cols, y, x) && at(vis, y, x) && 0 <= d < 4 && in_grid(
            rows,
            cols,
            neighbour(y, x, d).0,
            neighbour(y, x, d).1,
        ) && !at(vis, neighbour(y, x, d).0, neighbour(y, x, d).1) ==> f.contains(
            (y as usize, x as usize, step_towards(y, x, d)),
        )
}

/// A move into an unvisited neighbour inside the grid is among the moves
/// that `open_neighbours` lists.
proof fn lemma_candidate_listed(vis: Seq<Vec<bool>>, rows: int, cols: int, cy: usize, cx: usize, d: int)
    requires
        0 <= d < 4,
        cy < rows <= usize::MAX,
        cx < cols <= usize::MAX,
        in_grid(rows, cols, neighbour(cy as int, cx as int, d).0, neighbour(cy as int, cx as int, d).1),
        !at(vis, neighbour(cy as int, cx as int, d).0, neighbour(cy as int, cx as int, d).1),
    ensures
        candidate_steps(vis, rows, cols, cy, cx).contains(step_towards(cy as int, cx as int, d)),
{
    let s = candidate_steps(vis, rows, cols, cy, cx);
    let a: Seq<Step> = if cy > 0 && !at(vis, cy - 1, cx as int) {
        seq![((cy - 1) as usize, cx, Wall::spec_north(), Wall::spec_south())]
    } else {
        Seq::empty()
    };
    let b: Seq<Step> = if cx > 0 && !at(vis, cy as int, cx - 1) {
        seq![(cy, (cx - 1) as usize, Wall::spec_west(), Wall::spec_east())]
    } else {
        Seq::empty()
    };
    let c: Seq<Step> = if cy + 1 < rows && !at(vis, cy + 1, cx as int) {
        seq![((cy + 1) as usize, cx, Wall::spec_south(), Wall::spec_north())]
    } else {
        Seq::empty()
    };
    let e: Seq<Step> = if cx + 1 < cols && !at(vis, cy as int, cx + 1) {
        seq![(cy, (cx + 1) as usize, Wall::spec_east(), Wall::spec_west())]
    } else {
        Seq::empty()
    };
    assert(s == a + b + c + e);
    let st = step_towards(cy as int, cx as int, d);
    if d == 0 {
        assert(s[0] == st);
    } else if d == 1 {
        assert(s[a.len() as int] == st);
    } else if d == 2 {
        assert(s[(a.len() + b.len()) as int] == st);
    } else {
        assert(s[(a.len() + b.len() + c.len()) as int] == st);
    }
}

/// Appends to the frontier one entry of cell (`y`, `x`) for each move it
/// has into an unvisited neighbour.
fn add_frontier(frontier: &mut Vec<Frontier>, visited: &Vec<Vec<bool>>, rows: usize, cols: usize, y: usize, x: usize)
    requires
        is_grid(visited@, rows as int, cols as int),
        y < rows,
        x < cols,
    ensures
        final(frontier)@ == old(frontier)@ + entries_of(y, x, candidate_steps(visited@, rows as int, cols as int, y, x)),
{
    let dirs = open_neighbours(visited, rows, cols, y, x);
    let ghost base = frontier@;
    for k in 0..dirs.len()
        invariant
            frontier@ == base + entries_of(y, x, dirs@.take(k as int)),
    {
        frontier.push((y, x, dirs[k]));
        assert(entries_of(y, x, dirs@.take(k + 1)) =~= entries_of(y, x, dirs@.take(k as int)).push((y, x, dirs@[k as int])));
    }
    assert(dirs@.take(dirs@.len() as int) =~= dirs@);
}

/// Generates a perfect maze of `rows` by `cols` cells with randomised
/// Prim's algorithm: starting from the top-left cell, it keeps a frontier
/// of moves from visited cells into their neighbours, repeatedly takes a
/// random move off the frontier and, when it leads into an unvisited cell,
/// opens that passage and adds the new cell's moves. The entrance west of
/// the top-left cell and the exit east of the bottom-right cell are then
/// opened.
///
/// Which perfect maze comes out depends on the random choices.
#[verifier::spinoff_prover]
pub fn generate_prims(rows: usize, cols: usize) -> (maze: Vec<Vec<Wall>>)
    requires
        rows >= 1,
        cols >= 1,
    ensures
        perfect_maze(maze@, rows as int, cols as int),
{
    let mut maze = filled_grid(rows, cols, Wall::all());
    let mut visited = filled_grid(rows, cols, false);
    let mut rng = thread_rng();
    let ghost vis0 = visited@;
    set_at(&mut visited, 0, 0, true);
    let mut frontier: Vec<Frontier> = Vec::new();
    let ghost mut order: Seq<(usize, usize)> = seq![(0usize, 0usize)];
    let ghost mut vset: Set<(int, int)> = set![(0int, 0int)];
    let ghost mut carved: Set<(int, int, bool)> = Set::empty();
    proof {
        lemma_start(maze@, vis0, visited@, order, rows as int, cols as int);
        lemma_grid_cells(rows as nat, cols as nat);
    }
    add_frontier(&mut frontier, &visited, rows, cols, 0, 0);
    proof {
        let f = frontier@;
        let cands = candidate_steps(visited@, rows as int, cols as int, 0, 0);
        assert(frontier_ok(Seq::empty(), visited@, rows as int, cols as int));
        assert(f =~= Seq::<Frontier>::empty() + entries_of(0, 0, cands));
        lemma_frontier_extend(Seq::empty(), visited@, visited@, rows as int, cols as int, 0, 0);
        assert forall|y: int, x: int, d: int|
            #![trigger at(visited@, y, x), neighbour(y, x, d)]
            in_grid(rows as int, cols as int, y, x) && at(visited@, y, x) && 0 <= d < 4 && in_grid(
                rows as int,
                cols as int,
                neighbour(y, x, d).0,
                neighbour(y, x, d).1,
            ) && !at(visited@, neighbour(y, x, d).0, neighbour(y, x, d).1) implies f.contains(
            (y as usize, x as usize, step_towards(y, x, d)),
        ) by {
            assert(at(visited@, y, x) <==> vset.contains((y, x)));
            lemma_candidate_listed(visited@, rows as int, cols as int, 0, 0, d);
            let j = choose|j: int| 0 <= j < cands.len() && cands[j] == step_towards(y, x, d);
            assert(f[j] == (0usize, 0usize, cands[j]));
        }
    }
    while frontier.len() > 0
        invariant
            dfs_inv(maze@, visited@, order, vset, carved, rows as int, cols as int),
            frontier_ok(frontier@, visited@, rows as int, cols as int),
            frontier_covers(frontier@, visited@, rows as int, cols as int),
            grid_cells(rows as int, cols as int).finite(),
            grid_cells(rows as int, cols as int).len() == rows * cols,
        decreases rows * cols - vset.len(), frontier.len(),
    {
        proof {
            vstd::set_lib::lemma_len_subset(vset, grid_cells(rows as int, cols as int));
        }
        let ghost f0 = frontier@;
        let i = pick_index(frontier.len(), &mut rng);
        let (cy, cx, step) = frontier.remove(i);
        let ghost f1 = frontier@;
        assert(f0[i as int] == (cy, cx, step));
        assert(entry_ok(f0[i as int], visited@, rows as int, cols as int));
        let ghost d = choose|d: int|
            0 <= d < 4 && step == step_towards(cy as int, cx as int, d) && in_grid(
                rows as int,
                cols as int,
                neighbour(cy as int, cx as int, d).0,
                neighbour(cy as int, cx as int, d).1,
            );
        let ghost n = neighbour(cy as int, cx as int, d);
        assert(step.0 == n.0 && step.1 == n.1);
        if !visited[step.0][step.1] {
            let ghost m0 = maze@;
            let ghost v0 = visited@;
            open_passage(&mut maze, &mut visited, cy, cx, step);
            proof {
                assert(is_grid(maze@, rows as int, cols as int));
                assert(is_grid(visited@, rows as int, cols as int));
                lemma_carve_step(
                    m0,
                    maze@,
                    v0,
                    visited@,
                    order,
                    order.push((n.0 as usize, n.1 as usize)),
                    vset,
                    carved,
                    rows as int,
                    cols as int,
                    cy as int,
                    cx as int,
                    d,
                );
                assert(at(v0, n.0, n.1) <==> vset.contains((n.0, n.1)));
                assert(!vset.contains(n));
                order = order.push((n.0 as usize, n.1 as usize));
                vset = vset.insert(n);
                carved = carved.insert(passage_of(cy as int, cx as int, d));
                vstd::set_lib::lemma_len_subset(vset, grid_cells(rows as int, cols as int));
            }
            let ghost v1 = visited@;
            add_frontier(&mut frontier, &visited, rows, cols, step.0, step.1);
            proof {
                let f2 = frontier@;
                let cands = candidate_steps(v1, rows as int, cols as int, step.0, step.1);
                lemma_frontier_remove(f0, i as int, v0, rows as int, cols as int);
                assert forall|yy: int, xx: int| in_grid(rows as int, cols as int, yy, xx) && #[trigger] at(v0, yy, xx) implies at(v1, yy, xx) by {
                    assert(at(v1, yy, xx) == (at(v0, yy, xx) || (yy == n.0 && xx == n.1)));
                }
                lemma_frontier_extend(f1, v0, v1, rows as int, cols as int, step.0, step.1);
                assert forall|y: int, x: int, e: int|
                    #![trigger at(v1, y, x), neighbour(y, x, e)]
                    in_grid(rows as int, cols as int, y, x) && at(v1, y, x) && 0 <= e < 4 && in_grid(
                        rows as int,
                        cols as int,
                        neighbour(y, x, e).0,
                        neighbour(y, x, e).1,
                    ) && !at(v1, neighbour(y, x, e).0, neighbour(y, x, e).1) implies f2.contains(
                    (y as usize, x as usize, step_towards(y, x, e)),
                ) by {
                    let t = neighbour(y, x, e);
                    assert(at(v1, t.0, t.1) == (at(v0, t.0, t.1) || (t.0 == n.0 && t.1 == n.1)));
                    if y == n.0 && x == n.1 {
                        lemma_candidate_listed(v1, rows as int, cols as int, step.0, step.1, e);
                        let j = choose|j: int| 0 <= j < cands.len() && cands[j] == step_towards(y, x, e);
                        assert(f2[f1.len() + j] == (step.0, step.1, cands[j]));
                    } else {
                        assert(at(v1, y, x) == (at(v0, y, x) || (y == n.0 && x == n.1)));
                        assert(at(v0, y, x) && at(v0, neighbour(y, x, e).0, neighbour(y, x, e).1) == false);
                        let entry = (y as usize, x as usize, step_towards(y, x, e));
                        assert(f0.contains(entry));
                        let j = choose|j: int| 0 <= j < f0.len() && f0[j] == entry;
                        assert(j != i);
                        if j < i {
                            assert(f2[j] == entry);
                        } else {
                            assert(f2[j - 1] == entry);
                        }
                    }
                }
            }
        } else {
            proof {
                lemma_frontier_remove(f0, i as int, visited@, rows as int, cols as int);
                assert forall|y: int, x: int, e: int|
                    #![trigger at(visited@, y, x), neighbour(y, x, e)]
                    in_grid(rows as int, cols as int, y, x) && at(visited@, y, x) && 0 <= e < 4 && in_grid(
                        rows as int,
                        cols as int,
                        neighbour(y, x, e).0,
                        neighbour(y, x, e).1,
                    ) && !at(visited@, neighbour(y, x, e).0, neighbour(y, x, e).1) implies f1.contains(
                    (y as usize, x as usize, step_towards(y, x, e)),
                ) by {
                    let entry = (y as usize, x as usize, step_towards(y, x, e));
                    assert(f0.contains(entry));
                    let j = choose|j: int| 0 <= j < f0.len() && f0[j] == entry;
                    assert(j != i);
                    if j < i {
                        assert(f1[j] == entry);
                    } else {
                        assert(f1[j - 1] == entry);
                    }
                }
            }
        }
    }
    proof {
        let vis = visited@;
        assert forall|y: int, x: int|
            #![trigger at(vis, y, x)]
            in_grid(rows as int, cols as int, y, x) && at(vis, y, x) implies crate::backtracker::neighbours_visited(
            vis,
            rows as int,
            cols as int,
            y,
            x,
        ) by {
            assert(!frontier@.contains((y as usize, x as usize, step_towards(y, x, 0))));
            assert(!frontier@.contains((y as usize, x as usize, step_towards(y, x, 1))));
            assert(!frontier@.contains((y as usize, x as usize, step_towards(y, x, 2))));
            assert(!frontier@.contains((y as usize, x as usize, step_towards(y, x, 3))));
            assert(neighbour(y, x, 0) == (y - 1, x));
            assert(neighbour(y, x, 1) == (y, x - 1));
            assert(neighbour(y, x, 2) == (y + 1, x));
            assert(neighbour(y, x, 3) == (y, x + 1));
        }
        assert(dfs_inv(maze@, vis, Seq::empty(), vset, carved, rows as int, cols as int));
        lemma_finish(maze@, vis, Seq::empty(), vset, carved, rows as int, cols as int);
    }
    let ghost m = maze@;
    let w = maze[0][0].without(Wall::west());
    set_at(&mut maze, 0, 0, w);
    let ghost m3 = maze@;
    let w = maze[rows - 1][cols - 1].without(Wall::east());
    set_at(&mut maze, rows - 1, cols - 1, w);
    proof {
        lemma_open_doors(m, m3, maze@, rows as int, cols as int);
    }
    maze
}

} // verus!

use vstd::prelude::*;
use crate::grid::{at, filled_grid, is_grid, set_at};
use crate::maze::{grid_cells, in_grid, is_open_path, lemma_grid_cells, open_step, open_step_at, reachable};
use crate::wall::Wall;

verus! {

/// The cells of `p` as pairs of integers.
pub open spec fn cells_of(p: Seq<(usize, usize)>) -> Seq<(int, int)> {
    p.map_values(|c: (usize, usize)| (c.0 as int, c.1 as int))
}

/// `p` is an open walk from the top-left cell to the bottom-right cell.
pub open spec fn is_solution(m: Seq<Vec<Wall>>, rows: int, cols: int, p: Seq<(int, int)>) -> bool {
    &&& is_open_path(m, rows, cols, p)
    &&& p[0] == (0int, 0int)
    &&& p.last() == (rows - 1, cols - 1)
}

/// No cell appears twice in `p`.
pub open spec fn no_repeats(p: Seq<(int, int)>) -> bool {
    forall|i: int, j: int| 0 <= i < j < p.len() ==> p[i] != p[j]
}

/// Every neighbour that cell (`y`, `x`) opens onto is visited.
pub open spec fn open_exits_visited(
    m: Seq<Vec<Wall>>,
    vis: Seq<Vec<bool>>,
    rows: int,
    cols: int,
    y: int,
    x: int,
) -> bool {
    &&& y > 0 && !at(m, y, x).north ==> at(vis, y - 1, x)
    &&& x > 0 && !at(m, y, x).west ==> at(vis, y, x - 1)
    &&& y + 1 < rows && !at(m, y, x).south ==> at(vis, y + 1, x)
    &&& x + 1 < cols && !at(m, y, x).east ==> at(vis, y, x + 1)
}

/// When the visited cells include the top-left one and every visited cell
/// opens only onto visited cells, every open walk from the top-left cell
/// stays among visited cells.
pub proof fn lemma_open_path_visited(
    m: Seq<Vec<Wall>>,
    vis: Seq<Vec<bool>>,
    rows: int,
    cols: int,
    p: Seq<(int, int)>,
    i: int,
)
    requires
        is_open_path(m, rows, cols, p),
        p[0] == (0int, 0int),
        at(vis, 0, 0),
        forall|y: int, x: int|
            in_grid(rows, cols, y, x) && #[trigger] at(vis, y, x) ==> open_exits_visited(m, vis, rows, cols, y, x),
        0 <= i < p.len(),
    ensures
        at(vis, p[i].0, p[i].1),
    decreases i,
{
    if i > 0 {
        lemma_open_path_visited(m, vis, rows, cols, p, i - 1);
        assert(open_step_at(m, rows, cols, p, i - 1));
        assert(open_exits_visited(m, vis, rows, cols, p[i - 1].0, p[i - 1].1));
    }
}

/// A neighbour that cell (`cy`, `cx`) opens onto and that is not yet
/// visited, looked for in the order north, west, south, east.
fn open_unvisited_neighbour(
    maze: &[Vec<Wall>],
    visited: &Vec<Vec<bool>>,
    rows: usize,
    cols: usize,
    cy: usize,
    cx: usize,
) -> (r: Option<(usize, usize)>)
    requires
        is_grid(maze@, rows as int, cols as int),
        is_grid(visited@, rows as int, cols as int),
        cy < rows,
        cx < cols,
    ensures
        r matches Some(n) ==> open_step(maze@, rows as int, cols as int, (cy as int, cx as int), (n.0 as int, n.1 as int))
            && !at(visited@, n.0 as int, n.1 as int),
        r is None ==> open_exits_visited(maze@, visited@, rows as int, cols as int, cy as int, cx as int),
{
    let w = maze[cy][cx];
    if cy > 0 && !w.north && !visited[cy - 1][cx] {
        return Some((cy - 1, cx));
    }
    if cx > 0 && !w.west && !visited[cy][cx - 1] {
        return Some((cy, cx - 1));
    }
    if cy + 1 < rows && !w.south && !visited[cy + 1][cx] {
        return Some((cy + 1, cx));
    }
    if cx + 1 < cols && !w.east && !visited[cy][cx + 1] {
        return Some((cy, cx + 1));
    }
    None
}

/// Cell (`y`, `x`) is one of the cells of `stack`.
pub open spec fn on_path(stack: Seq<(usize, usize)>, y: int, x: int) -> bool {
    exists|i: int| 0 <= i < stack.len() && #[trigger] stack[i] == (y as usize, x as usize)
}

/// What the depth-first search keeps true from one round to the next.
pub open spec fn dfs_search_inv(
    m: Seq<Vec<Wall>>,
    vis: Seq<Vec<bool>>,
    stack: Seq<(usize, usize)>,
    vset: Set<(int, int)>,
    rows: int,
    cols: int,
) -> bool {
    &&& 1 <= rows <= usize::MAX && 1 <= cols <= usize::MAX
    &&& is_grid(m, rows, cols)
    &&& is_grid(vis, rows, cols)
    &&& at(vis, 0, 0)
    &&& !at(vis, rows - 1, cols - 1)
    &&& vset.finite()
    &&& vset.subset_of(grid_cells(rows, cols))
    &&& stack.len() > 0 ==> is_open_path(m, rows, cols, cells_of(stack)) && cells_of(stack)[0] == (
        0int,
        0int,
    )
    &&& no_repeats(cells_of(stack))
    &&& forall|i: int|
        0 <= i < stack.len() ==> in_grid(rows, cols, #[trigger] stack[i].0 as int, stack[i].1 as int)
            && at(vis, stack[i].0 as int, stack[i].1 as int)
    &&& forall|y: int, x: int|
        #![trigger at(vis, y, x)]
        in_grid(rows, cols, y, x) ==> {
            &&& at(vis, y, x) <==> vset.contains((y, x))
            &&& at(vis, y, x) ==> on_path(stack, y, x) || open_exits_visited(m, vis, rows, cols, y, x)
        }
}

/// Depth-first search for a path from the entrance (top-left cell) to the
/// exit (bottom-right cell) of `maze`: it walks into open, unvisited
/// neighbours, backs up when there is none, and stops on reaching the exit.
/// The path it returns crosses only open walls and visits no cell twice;
/// it returns `None` exactly when no open path leads to the exit.
#[verifier::spinoff_prover]
pub fn solve_dfs(maze: &[Vec<Wall>], rows: usize, cols: usize) -> (path: Option<Vec<(usize, usize)>>)
    requires
        rows >= 1,
        cols >= 1,
        is_grid(maze@, rows as int, cols as int),
    ensures
        path is Some <==> reachable(maze@, rows as int, cols as int, rows - 1, cols - 1),
        path matches Some(p) ==> is_solution(maze@, rows as int, cols as int, cells_of(p@)) && no_repeats(
            cells_of(p@),
        ),
{
    let ghost m = maze@;
    let mut stack: Vec<(usize, usize)> = Vec::new();
    stack.push((0, 0));
    if rows == 1 && cols == 1 {
        proof {
            let p = cells_of(stack@);
            assert(p =~= seq![(0int, 0int)]);
            assert(is_open_path(m, rows as int, cols as int, p));
        }
        return Some(stack);
    }
    let mut visited = filled_grid(rows, cols, false);
    let ghost vis0 = visited@;
    set_at(&mut visited, 0, 0, true);
    let ghost mut vset: Set<(int, int)> = set![(0int, 0int)];
    proof {
        lemma_grid_cells(rows as nat, cols as nat);
        assert forall|y: int, x: int| in_grid(rows as int, cols as int, y, x) implies #[trigger] at(
            visited@,
            y,
            x,
        ) == (y == 0 && x == 0) by {
            assert(!at(vis0, y, x));
            if y != 0 {
                assert(visited@[y] == vis0[y]);
            }
        }
        assert(is_grid(visited@, rows as int, cols as int)) by {
            assert forall|y: int| 0 <= y < rows implies #[trigger] visited@[y]@.len() == cols by {
                if y != 0 {
                    assert(visited@[y] == vis0[y]);
                }
            }
        }
        let p = cells_of(stack@);
        assert(p =~= seq![(0int, 0int)]);
        assert(is_open_path(m, rows as int, cols as int, p));
        assert(stack@[0] == (0usize, 0usize));
        assert(on_path(stack@, 0, 0));
        assert(vset.subset_of(grid_cells(rows as int, cols as int)));
    }
    while stack.len() > 0
        invariant
            m == maze@,
            dfs_search_inv(m, visited@, stack@, vset, rows as int, cols as int),
            grid_cells(rows as int, cols as int).finite(),
            grid_cells(rows as int, cols as int).len() == rows * cols,
        decreases rows * cols - vset.len(), stack.len(),
    {
        proof {
            vstd::set_lib::lemma_len_subset(vset, grid_cells(rows as int, cols as int));
        }
        let ghost s0 = stack@;
        let ghost v0 = visited@;
        let (cy, cx) = stack[stack.len() - 1];
        assert(in_grid(rows as int, cols as int, cy as int, cx as int) && at(v0, cy as int, cx as int)) by {
            assert(s0[s0.len() - 1] == (cy, cx));
        }
        match open_unvisited_neighbour(maze, &visited, rows, cols, cy, cx) {
            Some((ny, nx)) => {
                set_at(&mut visited, ny, nx, true);
                stack.push((ny, nx));
                let ghost v1 = visited@;
                let ghost s1 = stack@;
                proof {
                    assert forall|y: int, x: int| in_grid(rows as int, cols as int, y, x) implies #[trigger] at(
                        v1,
                        y,
                        x,
                    ) == (at(v0, y, x) || (y == ny && x == nx)) by {
                        if y != ny {
                            assert(v1[y] == v0[y]);
                        }
                    }
                    assert(is_grid(v1, rows as int, cols as int)) by {
                        assert forall|y: int| 0 <= y < rows implies #[trigger] v1[y]@.len() == cols by {
                            if y != ny {
                                assert(v1[y] == v0[y]);
                            }
                        }
                    }
                    assert(!vset.contains((ny as int, nx as int)));
                    let old_len = vset.len();
                    vset = vset.insert((ny as int, nx as int));
                    assert(vset.len() == old_len + 1);
                    vstd::set_lib::lemma_len_subset(vset, grid_cells(rows as int, cols as int));
                    let p0 = cells_of(s0);
                    let p1 = cells_of(s1);
                    assert(p1 =~= p0.push((ny as int, nx as int)));
                    assert forall|i: int| 0 <= i < p1.len() - 1 implies #[trigger] open_step_at(
                        m,
                        rows as int,
                        cols as int,
                        p1,
                        i,
                    ) by {
                        if i < p0.len() - 1 {
                            assert(open_step_at(m, rows as int, cols as int, p0, i));
                        } else {
                            assert(p1[i] == (cy as int, cx as int));
                        }
                    }
                    assert(is_open_path(m, rows as int, cols as int, p1));
                    assert forall|i: int, j: int| 0 <= i < j < p1.len() implies p1[i] != p1[j] by {
                        if j == p1.len() - 1 {
                            assert(at(v0, s0[i].0 as int, s0[i].1 as int));
                        }
                    }
                    assert forall|i: int| 0 <= i < s1.len() implies in_grid(
                        rows as int,
                        cols as int,
                        #[trigger] s1[i].0 as int,
                        s1[i].1 as int,
                    ) && at(v1, s1[i].0 as int, s1[i].1 as int) by {
                        if i < s0.len() {
                            assert(s1[i] == s0[i]);
                        }
                    }
                    assert forall|y: int, x: int| #![trigger at(v1, y, x)] in_grid(rows as int, cols as int, y, x) implies {
                        &&& at(v1, y, x) <==> vset.contains((y, x))
                        &&& at(v1, y, x) ==> on_path(s1, y, x) || open_exits_visited(m, v1, rows as int, cols as int, y, x)
                    } by {
                        assert(at(v0, y, x) <==> vset.remove((ny as int, nx as int)).contains((y, x)) || (at(v0, y, x) && y == ny && x == nx));
                        if at(v1, y, x) {
                            if y == ny && x == nx {
                                assert(s1[s0.len() as int] == (y as usize, x as usize));
                            } else if on_path(s0, y, x) {
                                let i = choose|i: int| 0 <= i < s0.len() && #[trigger] s0[i] == (y as usize, x as usize);
                                assert(s1[i] == s0[i]);
                            } else {
                                assert(open_exits_visited(m, v0, rows as int, cols as int, y, x));
                                if y > 0 { assert(at(v0, y - 1, x) ==> at(v1, y - 1, x)); }
                                if x > 0 { assert(at(v0, y, x - 1) ==> at(v1, y, x - 1)); }
                                if y + 1 < rows { assert(at(v0, y + 1, x) ==> at(v1, y + 1, x)); }
                                if x + 1 < cols { assert(at(v0, y, x + 1) ==> at(v1, y, x + 1)); }
                            }
                        }
                    }
                }
                if ny == rows - 1 && nx == cols - 1 {
                    proof {
                        let p1 = cells_of(stack@);
                        assert(is_solution(m, rows as int, cols as int, p1));
                    }
                    return Some(stack);
                }
                proof {
                    assert(!at(v1, rows - 1, cols - 1));
                }
            },
            None => {
                stack.pop();
                let ghost s1 = stack@;
                proof {
                    let p0 = cells_of(s0);
                    let p1 = cells_of(s1);
                    assert(p1 =~= p0.drop_last());
                    if s1.len() > 0 {
                        assert forall|i: int| 0 <= i < p1.len() - 1 implies #[trigger] open_step_at(
                            m,
                            rows as int,
                            cols as int,
                            p1,
                            i,
                        ) by {
                            assert(open_step_at(m, rows as int, cols as int, p0, i));
                        }
                    }
                    assert forall|i: int, j: int| 0 <= i < j < p1.len() implies p1[i] != p1[j] by {
                        assert(p1[i] == p0[i] && p1[j] == p0[j]);
                    }
                    assert forall|i: int| 0 <= i < s1.len() implies in_grid(
                        rows as int,
                        cols as int,
                        #[trigger] s1[i].0 as int,
                        s1[i].1 as int,
                    ) && at(v0, s1[i].0 as int, s1[i].1 as int) by {
                        assert(s1[i] == s0[i]);
                    }
                    assert forall|y: int, x: int| #![trigger at(v0, y, x)] in_grid(rows as int, cols as int, y, x) && at(v0, y, x) implies
                        on_path(s1, y, x) || open_exits_visited(m, v0, rows as int, cols as int, y, x) by {
                        if on_path(s0, y, x) && !open_exits_visited(m, v0, rows as int, cols as int, y, x) {
                            let i = choose|i: int| 0 <= i < s0.len() && #[trigger] s0[i] == (y as usize, x as usize);
                            if i < s0.len() - 1 {
                                assert(s1[i] == s0[i]);
                            }
                        }
                    }
                }
            },
        }
    }
    proof {
        let vis = visited@;
        if reachable(m, rows as int, cols as int, rows - 1, cols - 1) {
            let p = choose|p: Seq<(int, int)>|
                #[trigger] is_open_path(m, rows as int, cols as int, p) && p[0] == (0int, 0int) && p.last() == (
                    rows - 1,
                    cols - 1,
                );
            assert forall|y: int, x: int|
                in_grid(rows as int, cols as int, y, x) && #[trigger] at(vis, y, x) implies open_exits_visited(
                m,
                vis,
                rows as int,
                cols as int,
                y,
                x,
            ) by {
                assert(!on_path(stack@, y, x));
            }
            lemma_open_path_visited(m, vis, rows as int, cols as int, p, p.len() - 1);
        }
    }
    None
}

} // verus!

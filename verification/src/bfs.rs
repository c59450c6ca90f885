use vstd::prelude::*;
use crate::grid::{at, filled_grid, is_grid, lemma_updated_at, set_at, updated};
use crate::maze::{grid_cells, in_grid, is_open_path, lemma_grid_cells, open_step, open_step_at, reachable};
use crate::solve::{cells_of, is_solution, no_repeats, on_path};
use crate::wall::Wall;

verus! {

/// Every neighbour that cell (`y`, `x`) opens onto is visited and lies at
/// most one step further from the entrance than the cell itself.
pub open spec fn relaxed(
    m: Seq<Vec<Wall>>,
    vis: Seq<Vec<bool>>,
    dist: Seq<Vec<usize>>,
    rows: int,
    cols: int,
    y: int,
    x: int,
) -> bool {
    &&& y > 0 && !at(m, y, x).north ==> at(vis, y - 1, x) && at(dist, y - 1, x) <= at(dist, y, x) + 1
    &&& x > 0 && !at(m, y, x).west ==> at(vis, y, x - 1) && at(dist, y, x - 1) <= at(dist, y, x) + 1
    &&& y + 1 < rows && !at(m, y, x).south ==> at(vis, y + 1, x) && at(dist, y + 1, x) <= at(dist, y, x)
        + 1
    &&& x + 1 < cols && !at(m, y, x).east ==> at(vis, y, x + 1) && at(dist, y, x + 1) <= at(dist, y, x)
        + 1
}

/// The parent recorded for visited cell (`y`, `x`) other than the entrance
/// is a visited cell one step nearer the entrance with an open step into it.
pub open spec fn parent_ok(
    m: Seq<Vec<Wall>>,
    vis: Seq<Vec<bool>>,
    dist: Seq<Vec<usize>>,
    par: Seq<Vec<(usize, usize)>>,
    rows: int,
    cols: int,
    y: int,
    x: int,
) -> bool {
    let p = at(par, y, x);
    (y, x) != (0int, 0int) ==> {
        &&& in_grid(rows, cols, p.0 as int, p.1 as int)
        &&& at(vis, p.0 as int, p.1 as int)
        &&& at(dist, p.0 as int, p.1 as int) + 1 == at(dist, y, x)
        &&& open_step(m, rows, cols, (p.0 as int, p.1 as int), (y, x))
    }
}

/// What the level-by-level breadth-first search keeps true: `order` lists
/// the visited cells in the order they were reached; those before
/// `level_start` lie nearer than `k`, those up to `level_end` at `k`, the
/// rest at `k + 1`; the first `done` of them have had their neighbours seen.
#[verifier::opaque]
pub open spec fn bfs_inv(
    m: Seq<Vec<Wall>>,
    vis: Seq<Vec<bool>>,
    dist: Seq<Vec<usize>>,
    par: Seq<Vec<(usize, usize)>>,
    order: Seq<(usize, usize)>,
    k: int,
    done: int,
    level_start: int,
    level_end: int,
    rows: int,
    cols: int,
) -> bool {
    &&& 1 <= rows <= usize::MAX && 1 <= cols <= usize::MAX
    &&& is_grid(m, rows, cols)
    &&& is_grid(vis, rows, cols)
    &&& is_grid(dist, rows, cols)
    &&& is_grid(par, rows, cols)
    &&& at(vis, 0, 0)
    &&& at(dist, 0, 0) == 0
    &&& 0 <= k <= level_start <= done <= level_end <= order.len()
    &&& no_repeats(cells_of(order))
    &&& forall|i: int|
        0 <= i < order.len() ==> {
            &&& in_grid(rows, cols, #[trigger] order[i].0 as int, order[i].1 as int)
            &&& at(vis, order[i].0 as int, order[i].1 as int)
            &&& i < level_start ==> at(dist, order[i].0 as int, order[i].1 as int) < k
            &&& level_start <= i < level_end ==> at(dist, order[i].0 as int, order[i].1 as int) == k
            &&& level_end <= i ==> at(dist, order[i].0 as int, order[i].1 as int) == k + 1
            &&& i < done ==> relaxed(m, vis, dist, rows, cols, order[i].0 as int, order[i].1 as int)
        }
    &&& forall|y: int, x: int|
        #![trigger at(vis, y, x)]
        in_grid(rows, cols, y, x) && at(vis, y, x) ==> on_path(order, y, x) && parent_ok(
            m,
            vis,
            dist,
            par,
            rows,
            cols,
            y,
            x,
        )
}

/// Distinct cells of a grid are no more than its cells.
proof fn lemma_distinct_cells_bound(p: Seq<(int, int)>, rows: int, cols: int)
    requires
        rows >= 0,
        cols >= 0,
        no_repeats(p),
        forall|i: int| 0 <= i < p.len() ==> in_grid(rows, cols, #[trigger] p[i].0, p[i].1),
    ensures
        p.len() <= rows * cols,
{
    assert(p.no_duplicates()) by {
        assert forall|i: int, j: int| 0 <= i < p.len() && 0 <= j < p.len() && i != j implies p[i] != p[j] by {
            if i > j {
                assert(p[j] != p[i]);
            }
        }
    }
    p.unique_seq_to_set();
    lemma_grid_cells(rows as nat, cols as nat);
    assert forall|c: (int, int)| p.to_set().contains(c) implies grid_cells(rows, cols).contains(c) by {
        let i = choose|i: int| 0 <= i < p.len() && p[i] == c;
        assert(in_grid(rows, cols, p[i].0, p[i].1));
    }
    vstd::set_lib::lemma_len_subset(p.to_set(), grid_cells(rows, cols));
}

/// Along an open walk from the entrance, the `i`-th cell is visited and no
/// further than `i` steps, when every visited cell is relaxed.
proof fn lemma_walk_distance(
    m: Seq<Vec<Wall>>,
    vis: Seq<Vec<bool>>,
    dist: Seq<Vec<usize>>,
    rows: int,
    cols: int,
    q: Seq<(int, int)>,
    i: int,
)
    requires
        is_open_path(m, rows, cols, q),
        q[0] == (0int, 0int),
        at(vis, 0, 0),
        at(dist, 0, 0) == 0,
        forall|y: int, x: int|
            in_grid(rows, cols, y, x) && #[trigger] at(vis, y, x) ==> relaxed(m, vis, dist, rows, cols, y, x),
        0 <= i < q.len(),
    ensures
        at(vis, q[i].0, q[i].1),
        at(dist, q[i].0, q[i].1) <= i,
    decreases i,
{
    if i > 0 {
        lemma_walk_distance(m, vis, dist, rows, cols, q, i - 1);
        assert(open_step_at(m, rows, cols, q, i - 1));
        assert(relaxed(m, vis, dist, rows, cols, q[i - 1].0, q[i - 1].1));
    }
}

/// The shape the search invariant gives its grids and counters.
proof fn lemma_inv_shape(
    m: Seq<Vec<Wall>>,
    vis: Seq<Vec<bool>>,
    dist: Seq<Vec<usize>>,
    par: Seq<Vec<(usize, usize)>>,
    order: Seq<(usize, usize)>,
    k: int,
    done: int,
    level_start: int,
    level_end: int,
    rows: int,
    cols: int,
)
    requires
        bfs_inv(m, vis, dist, par, order, k, done, level_start, level_end, rows, cols),
    ensures
        1 <= rows <= usize::MAX && 1 <= cols <= usize::MAX,
        is_grid(m, rows, cols),
        is_grid(vis, rows, cols),
        is_grid(dist, rows, cols),
        is_grid(par, rows, cols),
        0 <= k <= level_start <= done <= level_end <= order.len(),
        order.len() <= rows * cols,
{
    reveal(bfs_inv);
    assert forall|i: int| 0 <= i < order.len() implies in_grid(rows, cols, #[trigger] cells_of(order)[i].0, cells_of(order)[i].1) by {
        assert(in_grid(rows, cols, order[i].0 as int, order[i].1 as int));
    }
    lemma_distinct_cells_bound(cells_of(order), rows, cols);
}

/// A cell of the level being expanded lies in the grid, is visited and is
/// `k` steps from the entrance.
proof fn lemma_level_cell(
    m: Seq<Vec<Wall>>,
    vis: Seq<Vec<bool>>,
    dist: Seq<Vec<usize>>,
    par: Seq<Vec<(usize, usize)>>,
    order: Seq<(usize, usize)>,
    k: int,
    done: int,
    level_start: int,
    level_end: int,
    rows: int,
    cols: int,
    j: int,
)
    requires
        bfs_inv(m, vis, dist, par, order, k, done, level_start, level_end, rows, cols),
        level_start <= j < level_end,
    ensures
        in_grid(rows, cols, order[j].0 as int, order[j].1 as int),
        at(vis, order[j].0 as int, order[j].1 as int),
        at(dist, order[j].0 as int, order[j].1 as int) == k,
{
    reveal(bfs_inv);
    assert(in_grid(rows, cols, order[j].0 as int, order[j].1 as int));
}

/// A visited cell is at most one step further than the level being expanded.
proof fn lemma_seen_dist(
    m: Seq<Vec<Wall>>,
    vis: Seq<Vec<bool>>,
    dist: Seq<Vec<usize>>,
    par: Seq<Vec<(usize, usize)>>,
    order: Seq<(usize, usize)>,
    k: int,
    done: int,
    level_start: int,
    level_end: int,
    rows: int,
    cols: int,
    y: int,
    x: int,
)
    requires
        bfs_inv(m, vis, dist, par, order, k, done, level_start, level_end, rows, cols),
        in_grid(rows, cols, y, x),
        at(vis, y, x),
    ensures
        at(dist, y, x) <= k + 1,
{
    reveal(bfs_inv);
    assert(on_path(order, y, x));
    let i = choose|i: int| 0 <= i < order.len() && #[trigger] order[i] == (y as usize, x as usize);
    assert(in_grid(rows, cols, order[i].0 as int, order[i].1 as int));
}

/// Once every neighbour of the `j`-th cell is seen, the first `j + 1`
/// cells count as expanded.
#[verifier::spinoff_prover]
proof fn lemma_advance(
    m: Seq<Vec<Wall>>,
    vis: Seq<Vec<bool>>,
    dist: Seq<Vec<usize>>,
    par: Seq<Vec<(usize, usize)>>,
    order: Seq<(usize, usize)>,
    k: int,
    j: int,
    level_start: int,
    level_end: int,
    rows: int,
    cols: int,
)
    requires
        bfs_inv(m, vis, dist, par, order, k, j, level_start, level_end, rows, cols),
        level_start <= j < level_end,
        relaxed(m, vis, dist, rows, cols, order[j].0 as int, order[j].1 as int),
    ensures
        bfs_inv(m, vis, dist, par, order, k, j + 1, level_start, level_end, rows, cols),
{
    reveal(bfs_inv);
    assert forall|i: int| 0 <= i < order.len() implies {
        &&& in_grid(rows, cols, #[trigger] order[i].0 as int, order[i].1 as int)
        &&& at(vis, order[i].0 as int, order[i].1 as int)
        &&& i < level_start ==> at(dist, order[i].0 as int, order[i].1 as int) < k
        &&& level_start <= i < level_end ==> at(dist, order[i].0 as int, order[i].1 as int) == k
        &&& level_end <= i ==> at(dist, order[i].0 as int, order[i].1 as int) == k + 1
        &&& i < j + 1 ==> relaxed(m, vis, dist, rows, cols, order[i].0 as int, order[i].1 as int)
    } by {
        assert(in_grid(rows, cols, order[i].0 as int, order[i].1 as int));
        if i == j {
            assert(relaxed(m, vis, dist, rows, cols, order[j].0 as int, order[j].1 as int));
        }
    }
    assert(bfs_inv(m, vis, dist, par, order, k, j + 1, level_start, level_end, rows, cols));
}

/// When a whole level is expanded, the cells found meanwhile form the next.
proof fn lemma_next_level(
    m: Seq<Vec<Wall>>,
    vis: Seq<Vec<bool>>,
    dist: Seq<Vec<usize>>,
    par: Seq<Vec<(usize, usize)>>,
    order: Seq<(usize, usize)>,
    k: int,
    level_start: int,
    level_end: int,
    rows: int,
    cols: int,
)
    requires
        bfs_inv(m, vis, dist, par, order, k, level_end, level_start, level_end, rows, cols),
        level_start < level_end,
    ensures
        bfs_inv(m, vis, dist, par, order, k + 1, level_end, level_end, order.len() as int, rows, cols),
{
    reveal(bfs_inv);
    assert forall|i: int| 0 <= i < order.len() implies {
        &&& in_grid(rows, cols, #[trigger] order[i].0 as int, order[i].1 as int)
        &&& at(vis, order[i].0 as int, order[i].1 as int)
        &&& i < level_end ==> at(dist, order[i].0 as int, order[i].1 as int) < k + 1
        &&& level_end <= i < order.len() ==> at(dist, order[i].0 as int, order[i].1 as int) == k + 1
        &&& order.len() <= i ==> at(dist, order[i].0 as int, order[i].1 as int) == k + 2
        &&& i < level_end ==> relaxed(m, vis, dist, rows, cols, order[i].0 as int, order[i].1 as int)
    } by {
        assert(in_grid(rows, cols, order[i].0 as int, order[i].1 as int));
    }
}

/// When the search stops, every visited cell has had its neighbours seen
/// and has a parent one step nearer the entrance.
proof fn lemma_finished(
    m: Seq<Vec<Wall>>,
    vis: Seq<Vec<bool>>,
    dist: Seq<Vec<usize>>,
    par: Seq<Vec<(usize, usize)>>,
    order: Seq<(usize, usize)>,
    k: int,
    rows: int,
    cols: int,
)
    requires
        bfs_inv(m, vis, dist, par, order, k, order.len() as int, order.len() as int, order.len() as int, rows, cols),
    ensures
        at(vis, 0, 0),
        at(dist, 0, 0) == 0,
        forall|y: int, x: int|
            in_grid(rows, cols, y, x) && #[trigger] at(vis, y, x) ==> relaxed(m, vis, dist, rows, cols, y, x)
                && parent_ok(m, vis, dist, par, rows, cols, y, x),
{
    reveal(bfs_inv);
    assert forall|y: int, x: int|
        in_grid(rows, cols, y, x) && #[trigger] at(vis, y, x) implies relaxed(m, vis, dist, rows, cols, y, x)
        && parent_ok(m, vis, dist, par, rows, cols, y, x) by {
        assert(on_path(order, y, x));
        let i = choose|i: int| 0 <= i < order.len() && #[trigger] order[i] == (y as usize, x as usize);
        assert(in_grid(rows, cols, order[i].0 as int, order[i].1 as int));
    }
}

/// Visits cell (`ny`, `nx`) from cell (`cy`, `cx`) at level `k` when it is
/// not yet visited; the step between them is open.
fn bfs_reach(
    maze: &[Vec<Wall>],
    visited: &mut Vec<Vec<bool>>,
    dist: &mut Vec<Vec<usize>>,
    parent: &mut Vec<Vec<(usize, usize)>>,
    order: &mut Vec<(usize, usize)>,
    rows: usize,
    cols: usize,
    k: usize,
    j: usize,
    level_start: usize,
    level_end: usize,
    cy: usize,
    cx: usize,
    ny: usize,
    nx: usize,
)
    requires
        bfs_inv(
            maze@,
            old(visited)@,
            old(dist)@,
            old(parent)@,
            old(order)@,
            k as int,
            j as int,
            level_start as int,
            level_end as int,
            rows as int,
            cols as int,
        ),
        level_start <= j < level_end,
        old(order)@[j as int] == (cy, cx),
        open_step(maze@, rows as int, cols as int, (cy as int, cx as int), (ny as int, nx as int)),
    ensures
        bfs_inv(
            maze@,
            final(visited)@,
            final(dist)@,
            final(parent)@,
            final(order)@,
            k as int,
            j as int,
            level_start as int,
            level_end as int,
            rows as int,
            cols as int,
        ),
        final(order)@.len() >= old(order)@.len(),
        forall|i: int| 0 <= i < old(order)@.len() ==> #[trigger] final(order)@[i] == old(order)@[i],
        forall|y: int, x: int|
            in_grid(rows as int, cols as int, y, x) && #[trigger] at(old(visited)@, y, x) ==> at(
                final(visited)@,
                y,
                x,
            ) && at(final(dist)@, y, x) == at(old(dist)@, y, x),
        at(final(visited)@, ny as int, nx as int),
        at(final(dist)@, ny as int, nx as int) <= k + 1,
{
    let ghost v0 = visited@;
    let ghost d0 = dist@;
    let ghost p0 = parent@;
    let ghost o0 = order@;
    proof {
        lemma_inv_shape(maze@, v0, d0, p0, o0, k as int, j as int, level_start as int, level_end as int, rows as int, cols as int);
    }
    if visited[ny][nx] {
        proof {
            lemma_seen_dist(maze@, v0, d0, p0, o0, k as int, j as int, level_start as int, level_end as int, rows as int, cols as int, ny as int, nx as int);
        }
        return;
    }
    set_at(visited, ny, nx, true);
    set_at(dist, ny, nx, k + 1);
    set_at(parent, ny, nx, (cy, cx));
    order.push((ny, nx));
    proof {
        lemma_reach_new(maze@, v0, d0, p0, o0, visited@, dist@, parent@, order@, rows, cols, k, j, level_start, level_end, cy, cx, ny, nx);
    }
}

/// Sees every open neighbour of the `j`-th cell of the level being expanded.
#[verifier::spinoff_prover]
fn bfs_expand(
    maze: &[Vec<Wall>],
    visited: &mut Vec<Vec<bool>>,
    dist: &mut Vec<Vec<usize>>,
    parent: &mut Vec<Vec<(usize, usize)>>,
    order: &mut Vec<(usize, usize)>,
    rows: usize,
    cols: usize,
    k: usize,
    j: usize,
    level_start: usize,
    level_end: usize,
)
    requires
        bfs_inv(
            maze@,
            old(visited)@,
            old(dist)@,
            old(parent)@,
            old(order)@,
            k as int,
            j as int,
            level_start as int,
            level_end as int,
            rows as int,
            cols as int,
        ),
        level_start <= j < level_end,
    ensures
        bfs_inv(
            maze@,
            final(visited)@,
            final(dist)@,
            final(parent)@,
            final(order)@,
            k as int,
            j + 1,
            level_start as int,
            level_end as int,
            rows as int,
            cols as int,
        ),
{
    let ghost m = maze@;
    proof {
        lemma_inv_shape(m, visited@, dist@, parent@, order@, k as int, j as int, level_start as int, level_end as int, rows as int, cols as int);
        lemma_level_cell(m, visited@, dist@, parent@, order@, k as int, j as int, level_start as int, level_end as int, rows as int, cols as int, j as int);
    }
    let (cy, cx) = order[j];
    let w = maze[cy][cx];
    let ghost v0 = visited@;
    let ghost d0 = dist@;
    let ghost o0 = order@;
    if cy > 0 && !w.north {
        bfs_reach(maze, visited, dist, parent, order, rows, cols, k, j, level_start, level_end, cy, cx, cy - 1, cx);
    }
    let ghost v1 = visited@;
    let ghost d1 = dist@;
    if cx > 0 && !w.west {
        bfs_reach(maze, visited, dist, parent, order, rows, cols, k, j, level_start, level_end, cy, cx, cy, cx - 1);
    }
    let ghost v2 = visited@;
    let ghost d2 = dist@;
    if cy + 1 < rows && !w.south {
        bfs_reach(maze, visited, dist, parent, order, rows, cols, k, j, level_start, level_end, cy, cx, cy + 1, cx);
    }
    let ghost v3 = visited@;
    let ghost d3 = dist@;
    if cx + 1 < cols && !w.east {
        bfs_reach(maze, visited, dist, parent, order, rows, cols, k, j, level_start, level_end, cy, cx, cy, cx + 1);
    }
    proof {
        let y = cy as int;
        let x = cx as int;
        assert(at(v0, y, x) && at(d0, y, x) == k);
        assert(at(v1, y, x) && at(d1, y, x) == k);
        assert(at(v2, y, x) && at(d2, y, x) == k);
        assert(at(v3, y, x) && at(d3, y, x) == k);
        assert(at(visited@, y, x) && at(dist@, y, x) == k);
        if y > 0 && !at(m, y, x).north {
            assert(at(v1, y - 1, x) && at(d1, y - 1, x) <= k + 1);
            assert(at(v2, y - 1, x) && at(d2, y - 1, x) <= k + 1);
            assert(at(v3, y - 1, x) && at(d3, y - 1, x) <= k + 1);
            assert(at(visited@, y - 1, x) && at(dist@, y - 1, x) <= k + 1);
        }
        if x > 0 && !at(m, y, x).west {
            assert(at(v2, y, x - 1) && at(d2, y, x - 1) <= k + 1);
            assert(at(v3, y, x - 1) && at(d3, y, x - 1) <= k + 1);
            assert(at(visited@, y, x - 1) && at(dist@, y, x - 1) <= k + 1);
        }
        if y + 1 < rows && !at(m, y, x).south {
            assert(at(v3, y + 1, x) && at(d3, y + 1, x) <= k + 1);
            assert(at(visited@, y + 1, x) && at(dist@, y + 1, x) <= k + 1);
        }
        assert(order@[j as int] == o0[j as int]);
        assert(relaxed(m, visited@, dist@, rows as int, cols as int, y, x));
        lemma_advance(m, visited@, dist@, parent@, order@, k as int, j as int, level_start as int, level_end as int, rows as int, cols as int);
    }
}

/// Visiting a new cell from the level being expanded keeps the invariant.
proof fn lemma_reach_new(
    m: Seq<Vec<Wall>>,
    v0: Seq<Vec<bool>>,
    d0: Seq<Vec<usize>>,
    p0: Seq<Vec<(usize, usize)>>,
    o0: Seq<(usize, usize)>,
    v1: Seq<Vec<bool>>,
    d1: Seq<Vec<usize>>,
    p1: Seq<Vec<(usize, usize)>>,
    o1: Seq<(usize, usize)>,
    rows: usize,
    cols: usize,
    k: usize,
    j: usize,
    level_start: usize,
    level_end: usize,
    cy: usize,
    cx: usize,
    ny: usize,
    nx: usize,
)
    requires
        bfs_inv(m, v0, d0, p0, o0, k as int, j as int, level_start as int, level_end as int, rows as int, cols as int),
        level_start <= j < level_end,
        o0[j as int] == (cy, cx),
        open_step(m, rows as int, cols as int, (cy as int, cx as int), (ny as int, nx as int)),
        !at(v0, ny as int, nx as int),
        k + 1 <= usize::MAX,
        updated(v0, v1, ny as int, nx as int, true),
        updated(d0, d1, ny as int, nx as int, (k + 1) as usize),
        updated(p0, p1, ny as int, nx as int, (cy, cx)),
        o1 == o0.push((ny, nx)),
    ensures
        bfs_inv(m, v1, d1, p1, o1, k as int, j as int, level_start as int, level_end as int, rows as int, cols as int),
        forall|i: int| 0 <= i < o0.len() ==> #[trigger] o1[i] == o0[i],
        forall|y: int, x: int|
            in_grid(rows as int, cols as int, y, x) && #[trigger] at(v0, y, x) ==> at(v1, y, x) && at(d1, y, x)
                == at(d0, y, x),
        at(v1, ny as int, nx as int),
        at(d1, ny as int, nx as int) == k + 1,
{
    reveal(bfs_inv);
    assert(at(v0, cy as int, cx as int) && at(d0, cy as int, cx as int) == k);
    lemma_updated_at(v0, v1, rows as int, cols as int, ny as int, nx as int, true);
    lemma_updated_at(d0, d1, rows as int, cols as int, ny as int, nx as int, (k + 1) as usize);
    lemma_updated_at(p0, p1, rows as int, cols as int, ny as int, nx as int, (cy, cx));
    let c0 = cells_of(o0);
    let c1 = cells_of(o1);
    assert(c1 =~= c0.push((ny as int, nx as int)));
    assert forall|a: int, b: int| 0 <= a < b < c1.len() implies c1[a] != c1[b] by {
        if b == c1.len() - 1 {
            assert(at(v0, o0[a].0 as int, o0[a].1 as int));
        }
    }
    assert forall|y: int, x: int|
        in_grid(rows as int, cols as int, y, x) && at(v0, y, x) && relaxed(m, v0, d0, rows as int, cols as int, y, x)
        implies relaxed(m, v1, d1, rows as int, cols as int, y, x) by {
        if y > 0 {
            assert(at(v0, y - 1, x) ==> at(d1, y - 1, x) == at(d0, y - 1, x));
        }
        if x > 0 {
            assert(at(v0, y, x - 1) ==> at(d1, y, x - 1) == at(d0, y, x - 1));
        }
        if y + 1 < rows {
            assert(at(v0, y + 1, x) ==> at(d1, y + 1, x) == at(d0, y + 1, x));
        }
        if x + 1 < cols {
            assert(at(v0, y, x + 1) ==> at(d1, y, x + 1) == at(d0, y, x + 1));
        }
    }
    assert forall|i: int| 0 <= i < o1.len() implies {
        &&& in_grid(rows as int, cols as int, #[trigger] o1[i].0 as int, o1[i].1 as int)
        &&& at(v1, o1[i].0 as int, o1[i].1 as int)
        &&& i < level_start ==> at(d1, o1[i].0 as int, o1[i].1 as int) < k
        &&& level_start <= i < level_end ==> at(d1, o1[i].0 as int, o1[i].1 as int) == k
        &&& level_end <= i ==> at(d1, o1[i].0 as int, o1[i].1 as int) == k + 1
        &&& i < j ==> relaxed(m, v1, d1, rows as int, cols as int, o1[i].0 as int, o1[i].1 as int)
    } by {
        if i < o0.len() {
            assert(o1[i] == o0[i]);
            assert(at(v0, o0[i].0 as int, o0[i].1 as int));
        }
    }
    assert forall|y: int, x: int|
        #![trigger at(v1, y, x)]
        in_grid(rows as int, cols as int, y, x) && at(v1, y, x) implies on_path(o1, y, x) && parent_ok(
        m,
        v1,
        d1,
        p1,
        rows as int,
        cols as int,
        y,
        x,
    ) by {
        if y == ny && x == nx {
            assert(o1[o0.len() as int] == (ny, nx));
        } else {
            assert(at(v0, y, x));
            assert(on_path(o0, y, x));
            let i = choose|i: int| 0 <= i < o0.len() && #[trigger] o0[i] == (y as usize, x as usize);
            assert(o1[i] == o0[i]);
            assert(parent_ok(m, v0, d0, p0, rows as int, cols as int, y, x));
            if (y, x) != (0int, 0int) {
                let p = at(p0, y, x);
                assert(at(v0, p.0 as int, p.1 as int));
            }
        }
    }
}

/// Breadth-first search for a shortest path from the entrance (top-left
/// cell) to the exit (bottom-right cell) of `maze`: it visits the cells in
/// order of their distance from the entrance, recording for each the cell
/// it was reached from, and traces the exit back to the entrance. The path
/// it returns crosses only open walls and no open path to the exit has
/// fewer cells; it returns `None` exactly when no open path leads to the exit.
#[verifier::spinoff_prover]
pub fn solve_bfs(maze: &[Vec<Wall>], rows: usize, cols: usize) -> (path: Option<Vec<(usize, usize)>>)
    requires
        rows >= 1,
        cols >= 1,
        is_grid(maze@, rows as int, cols as int),
    ensures
        path is Some <==> reachable(maze@, rows as int, cols as int, rows - 1, cols - 1),
        path matches Some(p) ==> is_solution(maze@, rows as int, cols as int, cells_of(p@)),
        path matches Some(p) ==> forall|q: Seq<(int, int)>|
            #[trigger] is_solution(maze@, rows as int, cols as int, q) ==> p@.len() <= q.len(),
{
    let ghost m = maze@;
    let mut visited = filled_grid(rows, cols, false);
    let mut dist = filled_grid(rows, cols, 0usize);
    let mut parent = filled_grid(rows, cols, (0usize, 0usize));
    let ghost v0 = visited@;
    set_at(&mut visited, 0, 0, true);
    let mut order: Vec<(usize, usize)> = Vec::new();
    order.push((0, 0));
    let mut k: usize = 0;
    let mut level_start: usize = 0;
    let mut level_end: usize = 1;
    proof {
        reveal(bfs_inv);
        lemma_updated_at(v0, visited@, rows as int, cols as int, 0, 0, true);
        assert(cells_of(order@) =~= seq![(0int, 0int)]);
        assert(order@[0] == (0usize, 0usize));
        assert forall|y: int, x: int|
            #![trigger at(visited@, y, x)]
            in_grid(rows as int, cols as int, y, x) && at(visited@, y, x) implies on_path(order@, y, x)
            && parent_ok(m, visited@, dist@, parent@, rows as int, cols as int, y, x) by {
            assert(!at(v0, y, x));
        }
    }
    while level_start < level_end
        invariant
            m == maze@,
            level_end == order@.len(),
            bfs_inv(
                m,
                visited@,
                dist@,
                parent@,
                order@,
                k as int,
                level_start as int,
                level_start as int,
                level_end as int,
                rows as int,
                cols as int,
            ),
        decreases rows * cols - level_start,
    {
        let mut j = level_start;
        while j < level_end
            invariant
                m == maze@,
                level_start < level_end,
                level_start <= j <= level_end,
                bfs_inv(
                    m,
                    visited@,
                    dist@,
                    parent@,
                    order@,
                    k as int,
                    j as int,
                    level_start as int,
                    level_end as int,
                    rows as int,
                    cols as int,
                ),
            decreases level_end - j,
        {
            bfs_expand(maze, &mut visited, &mut dist, &mut parent, &mut order, rows, cols, k, j, level_start, level_end);
            j = j + 1;
        }
        proof {
            lemma_inv_shape(m, visited@, dist@, parent@, order@, k as int, j as int, level_start as int, level_end as int, rows as int, cols as int);
            lemma_next_level(m, visited@, dist@, parent@, order@, k as int, level_start as int, level_end as int, rows as int, cols as int);
        }
        k = k + 1;
        level_start = level_end;
        level_end = order.len();
    }
    proof {
        lemma_inv_shape(m, visited@, dist@, parent@, order@, k as int, level_start as int, level_start as int, level_end as int, rows as int, cols as int);
        lemma_finished(m, visited@, dist@, parent@, order@, k as int, rows as int, cols as int);
    }
    let ghost vis = visited@;
    let ghost d = dist@;
    let ghost par = parent@;
    if !visited[rows - 1][cols - 1] {
        proof {
            if reachable(m, rows as int, cols as int, rows - 1, cols - 1) {
                let q = choose|q: Seq<(int, int)>|
                    #[trigger] is_open_path(m, rows as int, cols as int, q) && q[0] == (0int, 0int) && q.last() == (
                        rows - 1,
                        cols - 1,
                    );
                lemma_walk_distance(m, vis, d, rows as int, cols as int, q, q.len() - 1);
            }
        }
        return None;
    }
    let path = trace_back(maze, &visited, &dist, &parent, rows, cols);
    proof {
        let p = cells_of(path@);
        assert(is_open_path(m, rows as int, cols as int, p) && p[0] == (0int, 0int) && p.last() == (rows - 1, cols - 1));
        assert forall|q: Seq<(int, int)>| #[trigger] is_solution(m, rows as int, cols as int, q) implies path@.len() <= q.len() by {
            lemma_walk_distance(m, vis, d, rows as int, cols as int, q, q.len() - 1);
        }
    }
    Some(path)
}

/// Follows the recorded parents from the exit back to the entrance and
/// returns the cells passed, entrance first.
fn trace_back(
    maze: &[Vec<Wall>],
    visited: &Vec<Vec<bool>>,
    dist: &Vec<Vec<usize>>,
    parent: &Vec<Vec<(usize, usize)>>,
    rows: usize,
    cols: usize,
) -> (path: Vec<(usize, usize)>)
    requires
        1 <= rows,
        1 <= cols,
        is_grid(maze@, rows as int, cols as int),
        is_grid(visited@, rows as int, cols as int),
        is_grid(dist@, rows as int, cols as int),
        is_grid(parent@, rows as int, cols as int),
        at(visited@, rows - 1, cols - 1),
        at(dist@, 0, 0) == 0,
        forall|y: int, x: int|
            in_grid(rows as int, cols as int, y, x) && #[trigger] at(visited@, y, x) ==> parent_ok(
                maze@,
                visited@,
                dist@,
                parent@,
                rows as int,
                cols as int,
                y,
                x,
            ),
    ensures
        is_solution(maze@, rows as int, cols as int, cells_of(path@)),
        path@.len() == at(dist@, rows - 1, cols - 1) + 1,
{
    let ghost m = maze@;
    let ghost vis = visited@;
    let ghost d = dist@;
    let mut rev: Vec<(usize, usize)> = Vec::new();
    let mut cy = rows - 1;
    let mut cx = cols - 1;
    rev.push((cy, cx));
    while cy != 0 || cx != 0
        invariant
            m == maze@,
            vis == visited@,
            d == dist@,
            is_grid(m, rows as int, cols as int),
            is_grid(vis, rows as int, cols as int),
            is_grid(d, rows as int, cols as int),
            is_grid(parent@, rows as int, cols as int),
            at(d, 0, 0) == 0,
            forall|y: int, x: int|
                in_grid(rows as int, cols as int, y, x) && #[trigger] at(vis, y, x) ==> parent_ok(
                    m,
                    vis,
                    d,
                    parent@,
                    rows as int,
                    cols as int,
                    y,
                    x,
                ),
            in_grid(rows as int, cols as int, cy as int, cx as int),
            at(vis, cy as int, cx as int),
            rev@.len() >= 1,
            rev@[0] == ((rows - 1) as usize, (cols - 1) as usize),
            rev@.last() == (cy, cx),
            rev@.len() + at(d, cy as int, cx as int) == at(d, rows - 1, cols - 1) + 1,
            forall|t: int|
                0 <= t < rev@.len() - 1 ==> #[trigger] open_step(
                    m,
                    rows as int,
                    cols as int,
                    (rev@[t + 1].0 as int, rev@[t + 1].1 as int),
                    (rev@[t].0 as int, rev@[t].1 as int),
                ),
        decreases at(d, cy as int, cx as int),
    {
        let ghost r0 = rev@;
        assert(parent_ok(m, vis, d, parent@, rows as int, cols as int, cy as int, cx as int));
        let (py, px) = parent[cy][cx];
        rev.push((py, px));
        proof {
            assert forall|t: int|
                0 <= t < rev@.len() - 1 implies #[trigger] open_step(
                    m,
                    rows as int,
                    cols as int,
                    (rev@[t + 1].0 as int, rev@[t + 1].1 as int),
                    (rev@[t].0 as int, rev@[t].1 as int),
                ) by {
                if t < r0.len() - 1 {
                    assert(rev@[t] == r0[t] && rev@[t + 1] == r0[t + 1]);
                } else {
                    assert(rev@[t] == (cy, cx));
                }
            }
        }
        cy = py;
        cx = px;
    }
    let n = rev.len();
    let mut path: Vec<(usize, usize)> = Vec::new();
    let mut i: usize = 0;
    while i < n
        invariant
            n == rev@.len(),
            i <= n,
            path@.len() == i,
            forall|t: int| 0 <= t < i ==> #[trigger] path@[t] == rev@[n - 1 - t],
        decreases n - i,
    {
        path.push(rev[n - 1 - i]);
        i = i + 1;
    }
    proof {
        let p = cells_of(path@);
        assert(p[0] == (0int, 0int));
        assert(p.last() == (rows - 1, cols - 1));
        assert forall|t: int| 0 <= t < p.len() - 1 implies #[trigger] open_step_at(m, rows as int, cols as int, p, t) by {
            let s = n - 2 - t;
            assert(path@[t] == rev@[s + 1]);
            assert(path@[t + 1] == rev@[s]);
            assert(open_step(
                m,
                rows as int,
                cols as int,
                (rev@[s + 1].0 as int, rev@[s + 1].1 as int),
                (rev@[s].0 as int, rev@[s].1 as int),
            ));
        }
    }
    path
}

} // verus!

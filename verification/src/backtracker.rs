use vstd::prelude::*;
use crate::grid::{at, filled_grid, is_grid, set_at, updated};
use crate::maze::{
    in_grid, grid_cells, walls_agree, border_closed, passage_open, passages, open_step_at, is_open_path,
    reachable, perfect_maze, lemma_grid_cells, lemma_path_survives, side_by_side, on_simple_path_to, in_line,
    depth_first_tree, lemma_in_line_survives, lemma_depth_first_survives,
};
use crate::solve::{cells_of, no_repeats};
use crate::rng::{pick_one, thread_rng};
use crate::wall::Wall;

verus! {

/// One carving move of the backtracker: the row and column of the
/// neighbour to enter, the wall to knock down in the current cell and the
/// facing wall to knock down in the neighbour.
pub type Step = (usize, usize, Wall, Wall);

/// The neighbour of cell (`cy`, `cx`) in direction `d`: 0 north, 1 west,
/// 2 south, 3 east.
pub open spec fn neighbour(cy: int, cx: int, d: int) -> (int, int) {
    if d == 0 {
        (cy - 1, cx)
    } else if d == 1 {
        (cy, cx - 1)
    } else if d == 2 {
        (cy + 1, cx)
    } else {
        (cy, cx + 1)
    }
}

/// The wall of the current cell that faces direction `d`.
pub open spec fn facing_wall(d: int) -> Wall {
    if d == 0 {
        Wall::spec_north()
    } else if d == 1 {
        Wall::spec_west()
    } else if d == 2 {
        Wall::spec_south()
    } else {
        Wall::spec_east()
    }
}

/// The wall of the neighbour in direction `d` that faces back.
pub open spec fn facing_back(d: int) -> Wall {
    if d == 0 {
        Wall::spec_south()
    } else if d == 1 {
        Wall::spec_east()
    } else if d == 2 {
        Wall::spec_north()
    } else {
        Wall::spec_west()
    }
}

/// The moves open from cell (`cy`, `cx`): into each neighbour inside the
/// grid that is not yet visited, in the order north, west, south, east.
pub open spec fn candidate_steps(
    vis: Seq<Vec<bool>>,
    rows: int,
    cols: int,
    cy: usize,
    cx: usize,
) -> Seq<Step> {
    (if cy > 0 && !at(vis, cy - 1, cx as int) {
        seq![((cy - 1) as usize, cx, Wall::spec_north(), Wall::spec_south())]
    } else {
        Seq::empty()
    }) + (if cx > 0 && !at(vis, cy as int, cx - 1) {
        seq![(cy, (cx - 1) as usize, Wall::spec_west(), Wall::spec_east())]
    } else {
        Seq::empty()
    }) + (if cy + 1 < rows && !at(vis, cy + 1, cx as int) {
        seq![((cy + 1) as usize, cx, Wall::spec_south(), Wall::spec_north())]
    } else {
        Seq::empty()
    }) + (if cx + 1 < cols && !at(vis, cy as int, cx + 1) {
        seq![(cy, (cx + 1) as usize, Wall::spec_east(), Wall::spec_west())]
    } else {
        Seq::empty()
    })
}

/// The walls of the cell at row `y`, column `x` after `step` has been
/// carved from cell (`cy`, `cx`).
pub open spec fn carved_wall(w: Wall, y: int, x: int, cy: int, cx: int, step: Step) -> Wall {
    let w1 = if y == cy && x == cx {
        w.spec_without(step.2)
    } else {
        w
    };
    if y == step.0 && x == step.1 {
        w1.spec_without(step.3)
    } else {
        w1
    }
}

/// Lists the moves open from cell (`cy`, `cx`): into each unvisited
/// neighbour inside the grid, in the order north, west, south, east.
pub fn open_neighbours(visited: &Vec<Vec<bool>>, rows: usize, cols: usize, cy: usize, cx: usize) -> (dirs:
    Vec<Step>)
    requires
        is_grid(visited@, rows as int, cols as int),
        cy < rows,
        cx < cols,
    ensures
        dirs@ == candidate_steps(visited@, rows as int, cols as int, cy, cx),
{
    let ghost vis = visited@;
    let mut dirs: Vec<Step> = Vec::new();
    let ghost s0: Seq<Step> = if cy > 0 && !at(vis, cy - 1, cx as int) {
        seq![((cy - 1) as usize, cx, Wall::spec_north(), Wall::spec_south())]
    } else {
        Seq::empty()
    };
    let ghost s1: Seq<Step> = if cx > 0 && !at(vis, cy as int, cx - 1) {
        seq![(cy, (cx - 1) as usize, Wall::spec_west(), Wall::spec_east())]
    } else {
        Seq::empty()
    };
    let ghost s2: Seq<Step> = if cy + 1 < rows && !at(vis, cy + 1, cx as int) {
        seq![((cy + 1) as usize, cx, Wall::spec_south(), Wall::spec_north())]
    } else {
        Seq::empty()
    };
    if cy > 0 && !visited[cy - 1][cx] {
        dirs.push((cy - 1, cx, Wall::north(), Wall::south()));
    }
    assert(dirs@ =~= s0);
    if cx > 0 && !visited[cy][cx - 1] {
        dirs.push((cy, cx - 1, Wall::west(), Wall::east()));
    }
    assert(dirs@ =~= s0 + s1);
    if cy + 1 < rows && !visited[cy + 1][cx] {
        dirs.push((cy + 1, cx, Wall::south(), Wall::north()));
    }
    assert(dirs@ =~= s0 + s1 + s2);
    if cx + 1 < cols && !visited[cy][cx + 1] {
        dirs.push((cy, cx + 1, Wall::east(), Wall::west()));
    }
    assert(dirs@ =~= candidate_steps(vis, rows as int, cols as int, cy, cx));
    dirs
}

/// Opens the passage of `step` out of cell (`cy`, `cx`): knocks down the
/// wall `step.2` of the current cell and the wall `step.3` of the neighbour
/// (`step.0`, `step.1`), and marks the neighbour visited.
pub fn open_passage(
    maze: &mut Vec<Vec<Wall>>,
    visited: &mut Vec<Vec<bool>>,
    cy: usize,
    cx: usize,
    step: Step,
)
    requires
        cy < old(maze)@.len(),
        cx < old(maze)@[cy as int]@.len(),
        step.0 < old(maze)@.len(),
        step.1 < old(maze)@[step.0 as int]@.len(),
        step.0 < old(visited)@.len(),
        step.1 < old(visited)@[step.0 as int]@.len(),
    ensures
        final(maze)@.len() == old(maze)@.len(),
        forall|y: int|
            0 <= y < old(maze)@.len() ==> #[trigger] final(maze)@[y]@.len() == old(maze)@[y]@.len(),
        forall|y: int, x: int|
            0 <= y < old(maze)@.len() && 0 <= x < old(maze)@[y]@.len() ==> #[trigger] at(
                final(maze)@,
                y,
                x,
            ) == carved_wall(at(old(maze)@, y, x), y, x, cy as int, cx as int, step),
        final(visited)@.len() == old(visited)@.len(),
        forall|y: int|
            0 <= y < old(visited)@.len() ==> #[trigger] final(visited)@[y]@.len()
                == old(visited)@[y]@.len(),
        forall|y: int, x: int|
            0 <= y < old(visited)@.len() && 0 <= x < old(visited)@[y]@.len() ==> #[trigger] at(
                final(visited)@,
                y,
                x,
            ) == (at(old(visited)@, y, x) || (y == step.0 && x == step.1)),
{
    let (ny, nx, from, to) = step;
    let ghost m0 = maze@;
    let w = maze[cy][cx].without(from);
    set_at(maze, cy, cx, w);
    let ghost m1 = maze@;
    let w2 = maze[ny][nx].without(to);
    set_at(maze, ny, nx, w2);
    let ghost m2 = maze@;
    assert forall|y: int, x: int|
        0 <= y < m0.len() && 0 <= x < m0[y]@.len() implies #[trigger] at(m2, y, x) == carved_wall(
        at(m0, y, x),
        y,
        x,
        cy as int,
        cx as int,
        step,
    ) by {
        if y != cy {
            assert(m1[y] == m0[y]);
        }
        if y != ny {
            assert(m2[y] == m1[y]);
        }
    }
    let ghost v0 = visited@;
    set_at(visited, ny, nx, true);
    assert forall|y: int, x: int|
        0 <= y < v0.len() && 0 <= x < v0[y]@.len() implies #[trigger] at(visited@, y, x) == (at(
        v0,
        y,
        x,
    ) || (y == ny && x == nx)) by {
        if y != ny {
            assert(visited@[y] == v0[y]);
        }
    }
    assert forall|y: int| 0 <= y < m0.len() implies #[trigger] maze@[y]@.len() == m0[y]@.len() by {
        if y != cy {
            assert(m1[y] == m0[y]);
        }
        if y != ny {
            assert(m2[y] == m1[y]);
        }
    }
    assert forall|y: int| 0 <= y < v0.len() implies #[trigger] visited@[y]@.len() == v0[y]@.len() by {
        if y != ny {
            assert(visited@[y] == v0[y]);
        }
    }
}

/// Carves `step` out of cell (`cy`, `cx`): knocks down the wall `step.2` of
/// the current cell and the wall `step.3` of the neighbour (`step.0`,
/// `step.1`), marks the neighbour visited and pushes it on the stack.
pub fn carve(
    maze: &mut Vec<Vec<Wall>>,
    visited: &mut Vec<Vec<bool>>,
    stack: &mut Vec<(usize, usize)>,
    cy: usize,
    cx: usize,
    step: Step,
)
    requires
        cy < old(maze)@.len(),
        cx < old(maze)@[cy as int]@.len(),
        step.0 < old(maze)@.len(),
        step.1 < old(maze)@[step.0 as int]@.len(),
        step.0 < old(visited)@.len(),
        step.1 < old(visited)@[step.0 as int]@.len(),
    ensures
        final(maze)@.len() == old(maze)@.len(),
        forall|y: int|
            0 <= y < old(maze)@.len() ==> #[trigger] final(maze)@[y]@.len() == old(maze)@[y]@.len(),
        forall|y: int, x: int|
            0 <= y < old(maze)@.len() && 0 <= x < old(maze)@[y]@.len() ==> #[trigger] at(
                final(maze)@,
                y,
                x,
            ) == carved_wall(at(old(maze)@, y, x), y, x, cy as int, cx as int, step),
        final(visited)@.len() == old(visited)@.len(),
        forall|y: int|
            0 <= y < old(visited)@.len() ==> #[trigger] final(visited)@[y]@.len()
                == old(visited)@[y]@.len(),
        forall|y: int, x: int|
            0 <= y < old(visited)@.len() && 0 <= x < old(visited)@[y]@.len() ==> #[trigger] at(
                final(visited)@,
                y,
                x,
            ) == (at(old(visited)@, y, x) || (y == step.0 && x == step.1)),
        final(stack)@ == old(stack)@.push((step.0, step.1)),
{
    open_passage(maze, visited, cy, cx, step);
    stack.push((step.0, step.1));
}

/// Cell (`y`, `x`) appears on the stack.
pub open spec fn on_stack(stack: Seq<(usize, usize)>, y: int, x: int) -> bool {
    exists|i: int| 0 <= i < stack.len() && #[trigger] stack[i] == (y as usize, x as usize)
}

/// Every neighbour of cell (`y`, `x`) inside the grid is visited.
pub open spec fn neighbours_visited(vis: Seq<Vec<bool>>, rows: int, cols: int, y: int, x: int) -> bool {
    &&& y > 0 ==> at(vis, y - 1, x)
    &&& x > 0 ==> at(vis, y, x - 1)
    &&& y + 1 < rows ==> at(vis, y + 1, x)
    &&& x + 1 < cols ==> at(vis, y, x + 1)
}

/// The canonical name of the passage crossed when moving from (`cy`, `cx`)
/// in direction `d`, as used by `passage_open`.
pub open spec fn passage_of(cy: int, cx: int, d: int) -> (int, int, bool) {
    if d == 0 {
        (cy - 1, cx, true)
    } else if d == 1 {
        (cy, cx - 1, false)
    } else if d == 2 {
        (cy, cx, true)
    } else {
        (cy, cx, false)
    }
}

/// What the depth-first carving keeps true from one round to the next.
pub open spec fn dfs_inv(
    m: Seq<Vec<Wall>>,
    vis: Seq<Vec<bool>>,
    stack: Seq<(usize, usize)>,
    vset: Set<(int, int)>,
    carved: Set<(int, int, bool)>,
    rows: int,
    cols: int,
) -> bool {
    &&& rows >= 1 && cols >= 1
    &&& rows <= usize::MAX && cols <= usize::MAX
    &&& is_grid(m, rows, cols)
    &&& is_grid(vis, rows, cols)
    &&& walls_agree(m, rows, cols)
    &&& border_closed(m, rows, cols)
    &&& at(vis, 0, 0)
    &&& vset.finite() && carved.finite()
    &&& vset.len() == carved.len() + 1
    &&& vset.subset_of(grid_cells(rows, cols))
    &&& forall|e: (int, int, bool)|
        #![trigger carved.contains(e)]
        #![trigger passage_open(m, rows, cols, e)]
        carved.contains(e) <==> passage_open(m, rows, cols, e)
    &&& forall|i: int|
        0 <= i < stack.len() ==> in_grid(rows, cols, #[trigger] stack[i].0 as int, stack[i].1 as int)
            && at(vis, stack[i].0 as int, stack[i].1 as int)
    &&& forall|y: int, x: int|
        #![trigger at(vis, y, x)]
        in_grid(rows, cols, y, x) ==> {
            &&& at(vis, y, x) <==> vset.contains((y, x))
            &&& !at(vis, y, x) ==> at(m, y, x) == Wall::spec_all()
            &&& at(vis, y, x) ==> reachable(m, rows, cols, y, x)
            &&& at(vis, y, x) ==> on_stack(stack, y, x) || neighbours_visited(vis, rows, cols, y, x)
        }
}

/// A move listed by `candidate_steps` goes in one of the four directions,
/// into an unvisited neighbour inside the grid.
pub(crate) proof fn lemma_candidate(vis: Seq<Vec<bool>>, rows: int, cols: int, cy: usize, cx: usize, step: Step) -> (d:
    int)
    requires
        candidate_steps(vis, rows, cols, cy, cx).contains(step),
        rows <= usize::MAX,
        cols <= usize::MAX,
        cy < rows,
        cx < cols,
    ensures
        0 <= d < 4,
        step.0 == neighbour(cy as int, cx as int, d).0,
        step.1 == neighbour(cy as int, cx as int, d).1,
        step.2 == facing_wall(d),
        step.3 == facing_back(d),
        0 <= step.0 < rows && 0 <= step.1 < cols,
        !at(vis, step.0 as int, step.1 as int),
{
    let s = candidate_steps(vis, rows, cols, cy, cx);
    let i = choose|i: int| 0 <= i < s.len() && s[i] == step;
    let a: Seq<Step> = if cy > 0 && !at(vis, cy - 1, cx as int) {
        seq![((cy - 1) as usize, cx, Wall::spec_north(), Wall::spec_south())]
    } else {
        Seq::empty()
    };
    let b: Seq<Step> = if cx > 0 && !at(vis, cy as int, cx - 1) {
        seq![(cy, (cx - 1) as usize, Wall::spec_west(), Wall::spec_east())]
    } else {
        Seq::empty()
    };
    let c: Seq<Step> = if cy + 1 < rows && !at(vis, cy + 1, cx as int) {
        seq![((cy + 1) as usize, cx, Wall::spec_south(), Wall::spec_north())]
    } else {
        Seq::empty()
    };
    let e: Seq<Step> = if cx + 1 < cols && !at(vis, cy as int, cx + 1) {
        seq![(cy, (cx + 1) as usize, Wall::spec_east(), Wall::spec_west())]
    } else {
        Seq::empty()
    };
    assert(s == a + b + c + e);
    if i < a.len() {
        assert(step == a[i]);
        0
    } else if i < a.len() + b.len() {
        assert(step == b[i - a.len()]);
        1
    } else if i < a.len() + b.len() + c.len() {
        assert(step == c[i - a.len() - b.len()]);
        2
    } else {
        assert(step == e[i - a.len() - b.len() - c.len()]);
        3
    }
}

/// With no move open, every neighbour of the cell is visited.
proof fn lemma_no_candidate(vis: Seq<Vec<bool>>, rows: int, cols: int, cy: usize, cx: usize)
    requires
        candidate_steps(vis, rows, cols, cy, cx).len() == 0,
    ensures
        neighbours_visited(vis, rows, cols, cy as int, cx as int),
{
}

/// The move in direction `d` out of cell (`cy`, `cx`).
pub open spec fn step_towards(cy: int, cx: int, d: int) -> Step {
    (neighbour(cy, cx, d).0 as usize, neighbour(cy, cx, d).1 as usize, facing_wall(d), facing_back(d))
}

/// The situation of one carving move: cell (`cy`, `cx`) is visited, its
/// neighbour in direction `d` is an unvisited cell of the grid, and `m2` is
/// `m` with the move carved.
pub open spec fn carving(
    m: Seq<Vec<Wall>>,
    m2: Seq<Vec<Wall>>,
    vis: Seq<Vec<bool>>,
    rows: int,
    cols: int,
    cy: int,
    cx: int,
    d: int,
) -> bool {
    &&& 0 <= d < 4
    &&& rows <= usize::MAX && cols <= usize::MAX
    &&& in_grid(rows, cols, cy, cx)
    &&& in_grid(rows, cols, neighbour(cy, cx, d).0, neighbour(cy, cx, d).1)
    &&& at(vis, cy, cx)
    &&& !at(vis, neighbour(cy, cx, d).0, neighbour(cy, cx, d).1)
    &&& is_grid(m2, rows, cols)
    &&& forall|y: int, x: int|
        in_grid(rows, cols, y, x) ==> #[trigger] at(m2, y, x) == carved_wall(
            at(m, y, x),
            y,
            x,
            cy,
            cx,
            step_towards(cy, cx, d),
        )
}

proof fn lemma_carve_walls(
    m: Seq<Vec<Wall>>,
    m2: Seq<Vec<Wall>>,
    vis: Seq<Vec<bool>>,
    rows: int,
    cols: int,
    cy: int,
    cx: int,
    d: int,
)
    requires
        is_grid(m, rows, cols),
        is_grid(vis, rows, cols),
        walls_agree(m, rows, cols),
        border_closed(m, rows, cols),
        carving(m, m2, vis, rows, cols, cy, cx, d),
        forall|y: int, x: int|
            in_grid(rows, cols, y, x) && !#[trigger] at(vis, y, x) ==> at(m, y, x) == Wall::spec_all(),
    ensures
        walls_agree(m2, rows, cols),
        border_closed(m2, rows, cols),
        forall|y: int, x: int|
            in_grid(rows, cols, y, x) ==> #[trigger] at(m, y, x).spec_contains(at(m2, y, x)),
{
    let n = neighbour(cy, cx, d);
    assert(at(m, n.0, n.1) == Wall::spec_all());
    assert forall|y: int, x: int, x2: int|
        #![trigger at(m2, y, x), at(m2, y, x2)]
        in_grid(rows, cols, y, x) && x2 == x + 1 && x2 < cols implies at(m2, y, x).east == at(
            m2,
            y,
            x2,
        ).west by {
        assert(at(m, y, x).east == at(m, y, x2).west);
        assert(at(m2, y, x) == carved_wall(at(m, y, x), y, x, cy, cx, step_towards(cy, cx, d)));
        assert(at(m2, y, x2) == carved_wall(at(m, y, x2), y, x2, cy, cx, step_towards(cy, cx, d)));
    }
    assert forall|y: int, x: int, y2: int|
        #![trigger at(m2, y, x), at(m2, y2, x)]
        in_grid(rows, cols, y, x) && y2 == y + 1 && y2 < rows implies at(m2, y, x).south == at(
            m2,
            y2,
            x,
        ).north by {
        assert(at(m, y, x).south == at(m, y2, x).north);
        assert(at(m2, y, x) == carved_wall(at(m, y, x), y, x, cy, cx, step_towards(cy, cx, d)));
        assert(at(m2, y2, x) == carved_wall(at(m, y2, x), y2, x, cy, cx, step_towards(cy, cx, d)));
    }
    assert forall|y: int, x: int| #![trigger at(m2, y, x)] in_grid(rows, cols, y, x) implies {
        &&& y == 0 ==> at(m2, y, x).north
        &&& y == rows - 1 ==> at(m2, y, x).south
        &&& x == 0 ==> at(m2, y, x).west
        &&& x == cols - 1 ==> at(m2, y, x).east
    } by {
        assert(at(m, y, x).north || y != 0);
    }
    assert forall|y: int, x: int| in_grid(rows, cols, y, x) implies #[trigger] at(
        m,
        y,
        x,
    ).spec_contains(at(m2, y, x)) by {
        assert(at(m2, y, x) == carved_wall(at(m, y, x), y, x, cy, cx, step_towards(cy, cx, d)));
    }
}

proof fn lemma_carve_passages(
    m: Seq<Vec<Wall>>,
    m2: Seq<Vec<Wall>>,
    vis: Seq<Vec<bool>>,
    rows: int,
    cols: int,
    cy: int,
    cx: int,
    d: int,
)
    requires
        is_grid(m, rows, cols),
        walls_agree(m, rows, cols),
        carving(m, m2, vis, rows, cols, cy, cx, d),
        forall|y: int, x: int|
            in_grid(rows, cols, y, x) && !#[trigger] at(vis, y, x) ==> at(m, y, x) == Wall::spec_all(),
    ensures
        !passage_open(m, rows, cols, passage_of(cy, cx, d)),
        forall|e: (int, int, bool)|
            #[trigger] passage_open(m2, rows, cols, e) <==> (passage_open(m, rows, cols, e) || e
                == passage_of(cy, cx, d)),
{
    let n = neighbour(cy, cx, d);
    let st = step_towards(cy, cx, d);
    assert(at(m, n.0, n.1) == Wall::spec_all());
    if d == 1 {
        assert(at(m, n.0, n.1).east == at(m, cy, cx).west);
    } else if d == 3 {
        assert(at(m, cy, cx).east == at(m, n.0, n.1).west);
    } else if d == 0 {
        assert(at(m, n.0, n.1).south == at(m, cy, cx).north);
    } else {
        assert(at(m, cy, cx).south == at(m, n.0, n.1).north);
    }
    assert(at(m2, cy, cx) == carved_wall(at(m, cy, cx), cy, cx, cy, cx, st));
    assert(at(m2, n.0, n.1) == carved_wall(at(m, n.0, n.1), n.0, n.1, cy, cx, st));
    assert forall|e: (int, int, bool)| #[trigger] passage_open(m2, rows, cols, e) <==> (passage_open(
        m,
        rows,
        cols,
        e,
    ) || e == passage_of(cy, cx, d)) by {
        if in_grid(rows, cols, e.0, e.1) {
            assert(at(m2, e.0, e.1) == carved_wall(at(m, e.0, e.1), e.0, e.1, cy, cx, st));
        }
    }
}

proof fn lemma_carve_reach(
    m: Seq<Vec<Wall>>,
    m2: Seq<Vec<Wall>>,
    vis: Seq<Vec<bool>>,
    rows: int,
    cols: int,
    cy: int,
    cx: int,
    d: int,
)
    requires
        carving(m, m2, vis, rows, cols, cy, cx, d),
        forall|y: int, x: int|
            in_grid(rows, cols, y, x) ==> #[trigger] at(m, y, x).spec_contains(at(m2, y, x)),
        forall|y: int, x: int|
            in_grid(rows, cols, y, x) && #[trigger] at(vis, y, x) ==> reachable(m, rows, cols, y, x),
    ensures
        forall|y: int, x: int|
            in_grid(rows, cols, y, x) && (at(vis, y, x) || (y == neighbour(cy, cx, d).0 && x
                == neighbour(cy, cx, d).1)) ==> #[trigger] reachable(m2, rows, cols, y, x),
{
    let n = neighbour(cy, cx, d);
    assert forall|y: int, x: int|
        in_grid(rows, cols, y, x) && (at(vis, y, x) || (y == n.0 && x == n.1)) implies #[trigger] reachable(
        m2,
        rows,
        cols,
        y,
        x,
    ) by {
        if at(vis, y, x) {
            assert(reachable(m, rows, cols, y, x));
            let p = choose|p: Seq<(int, int)>|
                #[trigger] is_open_path(m, rows, cols, p) && p[0] == (0int, 0int) && p.last() == (y, x);
            lemma_path_survives(m, m2, rows, cols, p);
        } else {
            assert(reachable(m, rows, cols, cy, cx));
            let p = choose|p: Seq<(int, int)>|
                #[trigger] is_open_path(m, rows, cols, p) && p[0] == (0int, 0int) && p.last() == (
                    cy,
                    cx,
                );
            lemma_path_survives(m, m2, rows, cols, p);
            let p2 = p.push(n);
            assert(at(m2, cy, cx) == carved_wall(at(m, cy, cx), cy, cx, cy, cx, step_towards(cy, cx, d)));
            assert forall|i: int| 0 <= i < p2.len() - 1 implies #[trigger] open_step_at(
                m2,
                rows,
                cols,
                p2,
                i,
            ) by {
                if i < p.len() - 1 {
                    assert(open_step_at(m2, rows, cols, p, i));
                } else {
                    assert(p2[i] == (cy, cx));
                    assert(p2[i + 1] == n);
                }
            }
            assert(is_open_path(m2, rows, cols, p2));
            assert(p2[0] == (0int, 0int) && p2.last() == (y, x));
        }
    }
}

/// One carving move keeps the invariant of the depth-first carving.
pub(crate) proof fn lemma_carve_step(
    m: Seq<Vec<Wall>>,
    m2: Seq<Vec<Wall>>,
    vis: Seq<Vec<bool>>,
    vis2: Seq<Vec<bool>>,
    stack: Seq<(usize, usize)>,
    stack2: Seq<(usize, usize)>,
    vset: Set<(int, int)>,
    carved: Set<(int, int, bool)>,
    rows: int,
    cols: int,
    cy: int,
    cx: int,
    d: int,
)
    requires
        dfs_inv(m, vis, stack, vset, carved, rows, cols),
        carving(m, m2, vis, rows, cols, cy, cx, d),
        is_grid(vis2, rows, cols),
        forall|y: int, x: int|
            in_grid(rows, cols, y, x) ==> #[trigger] at(vis2, y, x) == (at(vis, y, x) || (y
                == neighbour(cy, cx, d).0 && x == neighbour(cy, cx, d).1)),
        stack2 == stack.push((neighbour(cy, cx, d).0 as usize, neighbour(cy, cx, d).1 as usize)),
    ensures
        dfs_inv(
            m2,
            vis2,
            stack2,
            vset.insert(neighbour(cy, cx, d)),
            carved.insert(passage_of(cy, cx, d)),
            rows,
            cols,
        ),
{
    let n = neighbour(cy, cx, d);
    let pe = passage_of(cy, cx, d);
    let vset2 = vset.insert(n);
    let carved2 = carved.insert(pe);
    lemma_carve_walls(m, m2, vis, rows, cols, cy, cx, d);
    lemma_carve_passages(m, m2, vis, rows, cols, cy, cx, d);
    lemma_carve_reach(m, m2, vis, rows, cols, cy, cx, d);
    assert(!at(vis, n.0, n.1));
    assert(!vset.contains(n));
    assert(!carved.contains(pe));
    assert(vset2.len() == vset.len() + 1);
    assert(carved2.len() == carved.len() + 1);
    assert(at(vis2, 0, 0));
    assert forall|e: (int, int, bool)|
        #![trigger carved2.contains(e)]
        #![trigger passage_open(m2, rows, cols, e)]
        carved2.contains(e) <==> passage_open(m2, rows, cols, e) by {
        assert(carved.contains(e) <==> passage_open(m, rows, cols, e));
    }
    assert forall|i: int| 0 <= i < stack2.len() implies in_grid(
        rows,
        cols,
        #[trigger] stack2[i].0 as int,
        stack2[i].1 as int,
    ) && at(vis2, stack2[i].0 as int, stack2[i].1 as int) by {
        if i < stack.len() {
            assert(stack2[i] == stack[i]);
            assert(at(vis, stack[i].0 as int, stack[i].1 as int));
        }
    }
    assert forall|y: int, x: int| #![trigger at(vis2, y, x)] in_grid(rows, cols, y, x) implies {
        &&& at(vis2, y, x) <==> vset2.contains((y, x))
        &&& !at(vis2, y, x) ==> at(m2, y, x) == Wall::spec_all()
        &&& at(vis2, y, x) ==> reachable(m2, rows, cols, y, x)
        &&& at(vis2, y, x) ==> on_stack(stack2, y, x) || neighbours_visited(vis2, rows, cols, y, x)
    } by {
        assert(at(vis, y, x) <==> vset.contains((y, x)));
        assert(at(m2, y, x) == carved_wall(at(m, y, x), y, x, cy, cx, step_towards(cy, cx, d)));
        if at(vis2, y, x) {
            assert(reachable(m2, rows, cols, y, x));
            if y == n.0 && x == n.1 {
                assert(stack2[stack.len() as int] == (y as usize, x as usize));
            } else {
                assert(at(vis, y, x));
                if on_stack(stack, y, x) {
                    let i = choose|i: int| 0 <= i < stack.len() && #[trigger] stack[i] == (y as usize, x as usize);
                    assert(stack2[i] == stack[i]);
                } else {
                    assert(neighbours_visited(vis, rows, cols, y, x));
                    if y > 0 {
                        assert(at(vis2, y - 1, x));
                    }
                    if x > 0 {
                        assert(at(vis2, y, x - 1));
                    }
                    if y + 1 < rows {
                        assert(at(vis2, y + 1, x));
                    }
                    if x + 1 < cols {
                        assert(at(vis2, y, x + 1));
                    }
                }
            }
        }
    }
}

/// Dropping a cell all of whose neighbours are visited from the top of the
/// stack keeps the invariant of the depth-first carving.
proof fn lemma_pop_step(
    m: Seq<Vec<Wall>>,
    vis: Seq<Vec<bool>>,
    stack: Seq<(usize, usize)>,
    vset: Set<(int, int)>,
    carved: Set<(int, int, bool)>,
    rows: int,
    cols: int,
)
    requires
        dfs_inv(m, vis, stack, vset, carved, rows, cols),
        stack.len() > 0,
        neighbours_visited(vis, rows, cols, stack.last().0 as int, stack.last().1 as int),
    ensures
        dfs_inv(m, vis, stack.drop_last(), vset, carved, rows, cols),
{
    let s2 = stack.drop_last();
    let top = stack.last();
    assert forall|i: int| 0 <= i < s2.len() implies in_grid(
        rows,
        cols,
        #[trigger] s2[i].0 as int,
        s2[i].1 as int,
    ) && at(vis, s2[i].0 as int, s2[i].1 as int) by {
        assert(s2[i] == stack[i]);
    }
    assert(in_grid(rows, cols, top.0 as int, top.1 as int));
    assert forall|y: int, x: int| #![trigger at(vis, y, x)] in_grid(rows, cols, y, x) && at(
        vis,
        y,
        x,
    ) implies on_stack(s2, y, x) || neighbours_visited(vis, rows, cols, y, x) by {
        if on_stack(stack, y, x) && !neighbours_visited(vis, rows, cols, y, x) {
            let i = choose|i: int| 0 <= i < stack.len() && #[trigger] stack[i] == (y as usize, x as usize);
            if i < stack.len() - 1 {
                assert(s2[i] == stack[i]);
            } else {
                assert(stack[i] == top);
            }
        }
    }
}

/// When every visited cell has all its neighbours visited and the top-left
/// cell is visited, every cell of the grid is visited.
proof fn lemma_closed_visits(vis: Seq<Vec<bool>>, rows: int, cols: int, y: int, x: int)
    requires
        at(vis, 0, 0),
        forall|y: int, x: int|
            in_grid(rows, cols, y, x) && #[trigger] at(vis, y, x) ==> neighbours_visited(
                vis,
                rows,
                cols,
                y,
                x,
            ),
        in_grid(rows, cols, y, x),
    ensures
        at(vis, y, x),
    decreases y, x,
{
    if y == 0 && x == 0 {
    } else if y == 0 {
        lemma_closed_visits(vis, rows, cols, 0, x - 1);
        assert(neighbours_visited(vis, rows, cols, 0, x - 1));
    } else {
        lemma_closed_visits(vis, rows, cols, y - 1, x);
        assert(neighbours_visited(vis, rows, cols, y - 1, x));
    }
}

/// The state before the first carving move satisfies the invariant.
pub(crate) proof fn lemma_start(
    m: Seq<Vec<Wall>>,
    vis0: Seq<Vec<bool>>,
    vis: Seq<Vec<bool>>,
    stack: Seq<(usize, usize)>,
    rows: int,
    cols: int,
)
    requires
        1 <= rows <= usize::MAX,
        1 <= cols <= usize::MAX,
        is_grid(m, rows, cols),
        forall|y: int, x: int|
            0 <= y < rows && 0 <= x < cols ==> #[trigger] at(m, y, x) == Wall::spec_all(),
        is_grid(vis0, rows, cols),
        forall|y: int, x: int| 0 <= y < rows && 0 <= x < cols ==> !#[trigger] at(vis0, y, x),
        updated(vis0, vis, 0, 0, true),
        stack == seq![(0usize, 0usize)],
    ensures
        dfs_inv(m, vis, stack, set![(0int, 0int)], Set::empty(), rows, cols),
{
    let vset = set![(0int, 0int)];
    let carved = Set::<(int, int, bool)>::empty();
    lemma_grid_cells(rows as nat, cols as nat);
    assert(is_grid(vis, rows, cols)) by {
        assert forall|y: int| 0 <= y < rows implies #[trigger] vis[y]@.len() == cols by {
            if y != 0 {
                assert(vis[y] == vis0[y]);
            }
        }
    }
    assert forall|y: int, x: int| in_grid(rows, cols, y, x) implies #[trigger] at(vis, y, x) == (y
        == 0 && x == 0) by {
        assert(!at(vis0, y, x));
        if y != 0 {
            assert(vis[y] == vis0[y]);
        }
    }
    assert(vset.len() == 1);
    let p = seq![(0int, 0int)];
    assert(is_open_path(m, rows, cols, p));
    assert(reachable(m, rows, cols, 0, 0));
    assert(stack[0] == (0usize, 0usize));
    assert(on_stack(stack, 0, 0));
    assert forall|e: (int, int, bool)|
        #![trigger carved.contains(e)]
        #![trigger passage_open(m, rows, cols, e)]
        carved.contains(e) <==> passage_open(m, rows, cols, e) by {
        if in_grid(rows, cols, e.0, e.1) {
            assert(at(m, e.0, e.1) == Wall::spec_all());
        }
    }
    assert forall|y: int, x: int, x2: int|
        #![trigger at(m, y, x), at(m, y, x2)]
        in_grid(rows, cols, y, x) && x2 == x + 1 && x2 < cols implies at(m, y, x).east == at(
            m,
            y,
            x2,
        ).west by {
        assert(at(m, y, x2) == Wall::spec_all());
    }
    assert forall|y: int, x: int, y2: int|
        #![trigger at(m, y, x), at(m, y2, x)]
        in_grid(rows, cols, y, x) && y2 == y + 1 && y2 < rows implies at(m, y, x).south == at(
            m,
            y2,
            x,
        ).north by {
        assert(at(m, y2, x) == Wall::spec_all());
    }
    assert(vset.subset_of(grid_cells(rows, cols)));
}

/// Once the stack is empty, every cell has been visited and the carved
/// passages form a spanning tree of the grid.
pub(crate) proof fn lemma_finish(
    m: Seq<Vec<Wall>>,
    vis: Seq<Vec<bool>>,
    stack: Seq<(usize, usize)>,
    vset: Set<(int, int)>,
    carved: Set<(int, int, bool)>,
    rows: int,
    cols: int,
)
    requires
        dfs_inv(m, vis, stack, vset, carved, rows, cols),
        stack.len() == 0,
    ensures
        forall|y: int, x: int| in_grid(rows, cols, y, x) ==> #[trigger] reachable(m, rows, cols, y, x),
        passages(m, rows, cols).finite(),
        passages(m, rows, cols).len() == rows * cols - 1,
{
    assert forall|y: int, x: int|
        in_grid(rows, cols, y, x) && #[trigger] at(vis, y, x) implies neighbours_visited(
        vis,
        rows,
        cols,
        y,
        x,
    ) by {
        assert(!on_stack(stack, y, x));
    }
    assert forall|y: int, x: int| in_grid(rows, cols, y, x) implies #[trigger] reachable(
        m,
        rows,
        cols,
        y,
        x,
    ) by {
        lemma_closed_visits(vis, rows, cols, y, x);
    }
    assert forall|c: (int, int)| grid_cells(rows, cols).contains(c) implies vset.contains(c) by {
        lemma_closed_visits(vis, rows, cols, c.0, c.1);
    }
    assert(vset =~= grid_cells(rows, cols));
    lemma_grid_cells(rows as nat, cols as nat);
    assert(passages(m, rows, cols) =~= carved);
}

/// Opening the entrance and the exit of a fully carved grid gives a perfect maze.
pub(crate) proof fn lemma_open_doors(
    m: Seq<Vec<Wall>>,
    m3: Seq<Vec<Wall>>,
    m4: Seq<Vec<Wall>>,
    rows: int,
    cols: int,
)
    requires
        rows >= 1 && cols >= 1,
        is_grid(m, rows, cols),
        walls_agree(m, rows, cols),
        border_closed(m, rows, cols),
        forall|y: int, x: int| in_grid(rows, cols, y, x) ==> #[trigger] reachable(m, rows, cols, y, x),
        passages(m, rows, cols).finite(),
        passages(m, rows, cols).len() == rows * cols - 1,
        updated(m, m3, 0, 0, at(m, 0, 0).spec_without(Wall::spec_west())),
        updated(m3, m4, rows - 1, cols - 1, at(m3, rows - 1, cols - 1).spec_without(Wall::spec_east())),
    ensures
        perfect_maze(m4, rows, cols),
{
    assert forall|y: int, x: int| in_grid(rows, cols, y, x) implies #[trigger] at(m4, y, x) == {
        let w1 = if y == 0 && x == 0 {
            at(m, y, x).spec_without(Wall::spec_west())
        } else {
            at(m, y, x)
        };
        if y == rows - 1 && x == cols - 1 {
            w1.spec_without(Wall::spec_east())
        } else {
            w1
        }
    } by {
        if y != 0 {
            assert(m3[y] == m[y]);
        }
        if y != rows - 1 {
            assert(m4[y] == m3[y]);
        }
    }
    assert(is_grid(m4, rows, cols)) by {
        assert forall|y: int| 0 <= y < rows implies #[trigger] m4[y]@.len() == cols by {
            if y != 0 {
                assert(m3[y] == m[y]);
            }
            if y != rows - 1 {
                assert(m4[y] == m3[y]);
            }
        }
    }
    assert forall|y: int, x: int, x2: int|
        #![trigger at(m4, y, x), at(m4, y, x2)]
        in_grid(rows, cols, y, x) && x2 == x + 1 && x2 < cols implies at(m4, y, x).east == at(
            m4,
            y,
            x2,
        ).west by {
        assert(at(m, y, x).east == at(m, y, x2).west);
    }
    assert forall|y: int, x: int, y2: int|
        #![trigger at(m4, y, x), at(m4, y2, x)]
        in_grid(rows, cols, y, x) && y2 == y + 1 && y2 < rows implies at(m4, y, x).south == at(
            m4,
            y2,
            x,
        ).north by {
        assert(at(m, y, x).south == at(m, y2, x).north);
    }
    assert forall|y: int, x: int| #![trigger at(m4, y, x)] in_grid(rows, cols, y, x) implies {
        &&& y == 0 ==> at(m4, y, x).north
        &&& y == rows - 1 ==> at(m4, y, x).south
        &&& x == 0 ==> (at(m4, y, x).west <==> y != 0)
        &&& x == cols - 1 ==> (at(m4, y, x).east <==> y != rows - 1)
    } by {
        assert(border_closed(m, rows, cols) ==> {
            &&& y == 0 ==> at(m, y, x).north
            &&& y == rows - 1 ==> at(m, y, x).south
            &&& x == 0 ==> at(m, y, x).west
            &&& x == cols - 1 ==> at(m, y, x).east
        });
    }
    assert forall|y: int, x: int| in_grid(rows, cols, y, x) implies #[trigger] reachable(
        m4,
        rows,
        cols,
        y,
        x,
    ) by {
        assert(reachable(m, rows, cols, y, x));
        let p = choose|p: Seq<(int, int)>|
            #[trigger] is_open_path(m, rows, cols, p) && p[0] == (0int, 0int) && p.last() == (y, x);
        assert forall|i: int| 0 <= i < p.len() - 1 implies #[trigger] open_step_at(
            m4,
            rows,
            cols,
            p,
            i,
        ) by {
            assert(open_step_at(m, rows, cols, p, i));
        }
        assert(is_open_path(m4, rows, cols, p));
    }
    assert(passages(m4, rows, cols) =~= passages(m, rows, cols));
}

/// What the depth-first carving keeps of the order in which it visits
/// cells: the stack is a simple open walk from the top-left cell, and of any
/// two visited cells that share a side, one lies on a simple open walk from
/// the top-left cell to the other.
pub open spec fn stack_tree_inv(
    m: Seq<Vec<Wall>>,
    vis: Seq<Vec<bool>>,
    stack: Seq<(usize, usize)>,
    rows: int,
    cols: int,
) -> bool {
    &&& stack.len() > 0 ==> {
        &&& is_open_path(m, rows, cols, cells_of(stack))
        &&& cells_of(stack)[0] == (0int, 0int)
        &&& no_repeats(cells_of(stack))
    }
    &&& forall|a: (int, int), b: (int, int)|
        in_grid(rows, cols, a.0, a.1) && in_grid(rows, cols, b.0, b.1) && side_by_side(a, b) && at(
            vis,
            a.0,
            a.1,
        ) && at(vis, b.0, b.1) ==> #[trigger] in_line(m, rows, cols, a, b)
}

/// A simple open walk from the top-left cell passes through each of its cells
/// on the way to its last cell.
proof fn lemma_walk_passes(m: Seq<Vec<Wall>>, rows: int, cols: int, p: Seq<(int, int)>, i: int)
    requires
        is_open_path(m, rows, cols, p),
        p[0] == (0int, 0int),
        no_repeats(p),
        0 <= i < p.len(),
    ensures
        on_simple_path_to(m, rows, cols, p[i], p.last()),
{
    assert(p.contains(p[i]));
}

/// The carving starts from the top-left cell alone on the stack.
proof fn lemma_tree_start(
    m: Seq<Vec<Wall>>,
    vis: Seq<Vec<bool>>,
    stack: Seq<(usize, usize)>,
    rows: int,
    cols: int,
)
    requires
        dfs_inv(m, vis, stack, set![(0int, 0int)], Set::empty(), rows, cols),
        stack == seq![(0usize, 0usize)],
    ensures
        stack_tree_inv(m, vis, stack, rows, cols),
{
    assert(cells_of(stack) =~= seq![(0int, 0int)]);
    assert forall|a: (int, int), b: (int, int)|
        in_grid(rows, cols, a.0, a.1) && in_grid(rows, cols, b.0, b.1) && side_by_side(a, b) && at(
            vis,
            a.0,
            a.1,
        ) && at(vis, b.0, b.1) implies #[trigger] in_line(m, rows, cols, a, b) by {
        assert(at(vis, a.0, a.1) <==> set![(0int, 0int)].contains((a.0, a.1)));
        assert(at(vis, b.0, b.1) <==> set![(0int, 0int)].contains((b.0, b.1)));
    }
}

/// One carving move keeps the stack a simple open walk and puts the new
/// cell in line with every visited cell beside it.
proof fn lemma_tree_carve(
    m: Seq<Vec<Wall>>,
    m2: Seq<Vec<Wall>>,
    vis: Seq<Vec<bool>>,
    vis2: Seq<Vec<bool>>,
    stack: Seq<(usize, usize)>,
    stack2: Seq<(usize, usize)>,
    vset: Set<(int, int)>,
    carved: Set<(int, int, bool)>,
    rows: int,
    cols: int,
    cy: int,
    cx: int,
    d: int,
)
    requires
        dfs_inv(m, vis, stack, vset, carved, rows, cols),
        stack_tree_inv(m, vis, stack, rows, cols),
        carving(m, m2, vis, rows, cols, cy, cx, d),
        stack.len() > 0,
        stack.last() == (cy as usize, cx as usize),
        forall|y: int, x: int|
            in_grid(rows, cols, y, x) ==> #[trigger] at(vis2, y, x) == (at(vis, y, x) || (y
                == neighbour(cy, cx, d).0 && x == neighbour(cy, cx, d).1)),
        stack2 == stack.push((neighbour(cy, cx, d).0 as usize, neighbour(cy, cx, d).1 as usize)),
    ensures
        stack_tree_inv(m2, vis2, stack2, rows, cols),
{
    let n = neighbour(cy, cx, d);
    lemma_carve_walls(m, m2, vis, rows, cols, cy, cx, d);
    let p = cells_of(stack);
    let p2 = cells_of(stack2);
    assert(p2 =~= p.push(n));
    lemma_path_survives(m, m2, rows, cols, p);
    assert(p[p.len() - 1] == (cy, cx));
    assert(at(m2, cy, cx) == carved_wall(at(m, cy, cx), cy, cx, cy, cx, step_towards(cy, cx, d)));
    assert forall|i: int| 0 <= i < p2.len() - 1 implies #[trigger] open_step_at(m2, rows, cols, p2, i) by {
        if i < p.len() - 1 {
            assert(open_step_at(m2, rows, cols, p, i));
        } else {
            assert(p2[i] == (cy, cx));
            assert(p2[i + 1] == n);
        }
    }
    assert(is_open_path(m2, rows, cols, p2));
    assert forall|a: int, b: int| 0 <= a < b < p2.len() implies p2[a] != p2[b] by {
        if b == p2.len() - 1 {
            assert(in_grid(rows, cols, stack[a].0 as int, stack[a].1 as int) && at(vis, stack[a].0 as int, stack[a].1 as int));
        } else {
            assert(p[a] != p[b]);
        }
    }
    assert(p2[0] == (0int, 0int));
    assert(!at(vis, n.0, n.1));
    assert forall|a: (int, int), b: (int, int)|
        in_grid(rows, cols, a.0, a.1) && in_grid(rows, cols, b.0, b.1) && side_by_side(a, b) && at(
            vis2,
            a.0,
            a.1,
        ) && at(vis2, b.0, b.1) implies #[trigger] in_line(m2, rows, cols, a, b) by {
        if at(vis, a.0, a.1) && at(vis, b.0, b.1) {
            assert(in_line(m, rows, cols, a, b));
            lemma_in_line_survives(m, m2, rows, cols, a, b);
        } else {
            // One of the two is the new cell and the other an older one
            // beside it, which must still be on the stack.
            let prev = if a == n { b } else { a };
            assert(a == n || b == n);
            assert(prev != n);
            assert(at(vis, prev.0, prev.1));
            if !on_stack(stack, prev.0, prev.1) {
                assert(neighbours_visited(vis, rows, cols, prev.0, prev.1));
                assert(false);
            }
            let i = choose|i: int| 0 <= i < stack.len() && #[trigger] stack[i] == (prev.0 as usize, prev.1 as usize);
            assert(p2[i] == prev);
            assert(p2.last() == n);
            lemma_walk_passes(m2, rows, cols, p2, i);
        }
    }
}

/// Backing up keeps the stack a simple open walk.
proof fn lemma_tree_pop(
    m: Seq<Vec<Wall>>,
    vis: Seq<Vec<bool>>,
    stack: Seq<(usize, usize)>,
    rows: int,
    cols: int,
)
    requires
        stack_tree_inv(m, vis, stack, rows, cols),
        stack.len() > 0,
    ensures
        stack_tree_inv(m, vis, stack.drop_last(), rows, cols),
{
    let p = cells_of(stack);
    let p2 = cells_of(stack.drop_last());
    assert(p2 =~= p.drop_last());
    if p2.len() > 0 {
        assert forall|i: int| 0 <= i < p2.len() - 1 implies #[trigger] open_step_at(m, rows, cols, p2, i) by {
            assert(open_step_at(m, rows, cols, p, i));
        }
        assert forall|a: int, b: int| 0 <= a < b < p2.len() implies p2[a] != p2[b] by {
            assert(p[a] != p[b]);
        }
    }
}

/// Once every cell is visited, the carved grid is laid out depth first.
proof fn lemma_tree_finish(
    m: Seq<Vec<Wall>>,
    vis: Seq<Vec<bool>>,
    stack: Seq<(usize, usize)>,
    vset: Set<(int, int)>,
    carved: Set<(int, int, bool)>,
    rows: int,
    cols: int,
)
    requires
        dfs_inv(m, vis, stack, vset, carved, rows, cols),
        stack_tree_inv(m, vis, stack, rows, cols),
        stack.len() == 0,
    ensures
        depth_first_tree(m, rows, cols),
{
    assert forall|y: int, x: int|
        in_grid(rows, cols, y, x) && #[trigger] at(vis, y, x) implies neighbours_visited(vis, rows, cols, y, x) by {
        assert(!on_stack(stack, y, x));
    }
    assert forall|a: (int, int), b: (int, int)|
        in_grid(rows, cols, a.0, a.1) && in_grid(rows, cols, b.0, b.1) && side_by_side(a, b) implies #[trigger] in_line(
        m,
        rows,
        cols,
        a,
        b,
    ) by {
        lemma_closed_visits(vis, rows, cols, a.0, a.1);
        lemma_closed_visits(vis, rows, cols, b.0, b.1);
    }
}

/// Opening the entrance and the exit only knocks down walls.
proof fn lemma_doors_only_open(m: Seq<Vec<Wall>>, m3: Seq<Vec<Wall>>, m4: Seq<Vec<Wall>>, rows: int, cols: int)
    requires
        rows >= 1 && cols >= 1,
        is_grid(m, rows, cols),
        updated(m, m3, 0, 0, at(m, 0, 0).spec_without(Wall::spec_west())),
        updated(m3, m4, rows - 1, cols - 1, at(m3, rows - 1, cols - 1).spec_without(Wall::spec_east())),
    ensures
        forall|y: int, x: int| in_grid(rows, cols, y, x) ==> #[trigger] at(m, y, x).spec_contains(at(m4, y, x)),
{
    assert forall|y: int, x: int| in_grid(rows, cols, y, x) implies #[trigger] at(m, y, x).spec_contains(
        at(m4, y, x),
    ) by {
        if y != 0 {
            assert(m3[y] == m[y]);
        }
        if y != rows - 1 {
            assert(m4[y] == m3[y]);
        }
    }
}

/// Generates a perfect maze of `rows` by `cols` cells with the recursive
/// backtracker: starting from the top-left cell, it repeatedly carves into a
/// randomly chosen unvisited neighbour of the cell on top of the stack, and
/// backs up when there is none. The entrance west of the top-left cell and
/// the exit east of the bottom-right cell are then opened.
///
/// Which perfect maze comes out depends on the random choices.
pub fn generate_backtracker(rows: usize, cols: usize) -> (maze: Vec<Vec<Wall>>)
    requires
        rows >= 1,
        cols >= 1,
    ensures
        perfect_maze(maze@, rows as int, cols as int),
        depth_first_tree(maze@, rows as int, cols as int),
{
    let mut maze = filled_grid(rows, cols, Wall::all());
    let mut visited = filled_grid(rows, cols, false);
    let mut stack: Vec<(usize, usize)> = Vec::new();
    let mut rng = thread_rng();
    let y: usize = 0;
    let x: usize = 0;
    let ghost vis0 = visited@;
    set_at(&mut visited, y, x, true);
    stack.push((y, x));
    let ghost mut vset: Set<(int, int)> = set![(0int, 0int)];
    let ghost mut carved: Set<(int, int, bool)> = Set::empty();
    proof {
        lemma_start(maze@, vis0, visited@, stack@, rows as int, cols as int);
        lemma_tree_start(maze@, visited@, stack@, rows as int, cols as int);
        lemma_grid_cells(rows as nat, cols as nat);
    }
    while stack.len() > 0
        invariant
            dfs_inv(maze@, visited@, stack@, vset, carved, rows as int, cols as int),
            stack_tree_inv(maze@, visited@, stack@, rows as int, cols as int),
            grid_cells(rows as int, cols as int).finite(),
            grid_cells(rows as int, cols as int).len() == rows * cols,
        decreases rows * cols - vset.len(), stack.len(),
    {
        proof {
            vstd::set_lib::lemma_len_subset(vset, grid_cells(rows as int, cols as int));
        }
        let (cy, cx) = stack[stack.len() - 1];
        assert(in_grid(rows as int, cols as int, cy as int, cx as int) && at(visited@, cy as int, cx as int)) by {
            assert(stack@[stack@.len() - 1] == (cy, cx));
        }
        let dirs = open_neighbours(&visited, rows, cols, cy, cx);
        if dirs.len() == 0 {
            proof {
                lemma_no_candidate(visited@, rows as int, cols as int, cy, cx);
                lemma_pop_step(maze@, visited@, stack@, vset, carved, rows as int, cols as int);
                lemma_tree_pop(maze@, visited@, stack@, rows as int, cols as int);
            }
            stack.pop();
        } else {
            assert(dirs@.contains(dirs@[0]));
            let step = pick_one(&dirs, &mut rng);
            let ghost d = lemma_candidate(visited@, rows as int, cols as int, cy, cx, step);
            let ghost m0 = maze@;
            let ghost v0 = visited@;
            let ghost s0 = stack@;
            assert(s0.last() == (cy, cx));
            carve(&mut maze, &mut visited, &mut stack, cy, cx, step);
            proof {
                let n = neighbour(cy as int, cx as int, d);
                assert(step == step_towards(cy as int, cx as int, d));
                assert(is_grid(maze@, rows as int, cols as int));
                assert(is_grid(visited@, rows as int, cols as int));
                lemma_tree_carve(
                    m0,
                    maze@,
                    v0,
                    visited@,
                    s0,
                    stack@,
                    vset,
                    carved,
                    rows as int,
                    cols as int,
                    cy as int,
                    cx as int,
                    d,
                );
                lemma_carve_step(
                    m0,
                    maze@,
                    v0,
                    visited@,
                    s0,
                    stack@,
                    vset,
                    carved,
                    rows as int,
                    cols as int,
                    cy as int,
                    cx as int,
                    d,
                );
                vset = vset.insert(n);
                carved = carved.insert(passage_of(cy as int, cx as int, d));
                vstd::set_lib::lemma_len_subset(vset, grid_cells(rows as int, cols as int));
            }
        }
    }
    proof {
        lemma_finish(maze@, visited@, stack@, vset, carved, rows as int, cols as int);
        lemma_tree_finish(maze@, visited@, stack@, vset, carved, rows as int, cols as int);
    }
    let ghost m = maze@;
    let w = maze[0][0].without(Wall::west());
    set_at(&mut maze, 0, 0, w);
    let ghost m3 = maze@;
    let w = maze[rows - 1][cols - 1].without(Wall::east());
    set_at(&mut maze, rows - 1, cols - 1, w);
    proof {
        lemma_open_doors(m, m3, maze@, rows as int, cols as int);
        lemma_doors_only_open(m, m3, maze@, rows as int, cols as int);
        lemma_depth_first_survives(m, maze@, rows as int, cols as int);
    }
    maze
}

} // verus!

use vstd::prelude::*;
use vstd::set_lib::lemma_set_disjoint_lens;
use crate::grid::{at, is_grid};
use crate::solve::no_repeats;
use crate::wall::Wall;

verus! {

/// The cell at row `y`, column `x` lies in a grid of `rows` by `cols` cells.
pub open spec fn in_grid(rows: int, cols: int, y: int, x: int) -> bool {
    0 <= y < rows && 0 <= x < cols
}

/// Every cell of a `rows` by `cols` grid.
pub open spec fn grid_cells(rows: int, cols: int) -> Set<(int, int)> {
    Set::new(|c: (int, int)| in_grid(rows, cols, c.0, c.1))
}

/// Neighbouring cells agree on the wall between them.
pub open spec fn walls_agree(m: Seq<Vec<Wall>>, rows: int, cols: int) -> bool {
    &&& forall|y: int, x: int, x2: int|
        #![trigger at(m, y, x), at(m, y, x2)]
        in_grid(rows, cols, y, x) && x2 == x + 1 && x2 < cols ==> at(m, y, x).east == at(
            m,
            y,
            x2,
        ).west
    &&& forall|y: int, x: int, y2: int|
        #![trigger at(m, y, x), at(m, y2, x)]
        in_grid(rows, cols, y, x) && y2 == y + 1 && y2 < rows ==> at(m, y, x).south == at(
            m,
            y2,
            x,
        ).north
}

/// The outer wall of the grid stands all the way round.
pub open spec fn border_closed(m: Seq<Vec<Wall>>, rows: int, cols: int) -> bool {
    forall|y: int, x: int|
        #![trigger at(m, y, x)]
        in_grid(rows, cols, y, x) ==> {
            &&& y == 0 ==> at(m, y, x).north
            &&& y == rows - 1 ==> at(m, y, x).south
            &&& x == 0 ==> at(m, y, x).west
            &&& x == cols - 1 ==> at(m, y, x).east
        }
}

/// The outer wall stands all the way round except for two openings: the
/// entrance west of the top-left cell and the exit east of the bottom-right cell.
pub open spec fn border_with_openings(m: Seq<Vec<Wall>>, rows: int, cols: int) -> bool {
    forall|y: int, x: int|
        #![trigger at(m, y, x)]
        in_grid(rows, cols, y, x) ==> {
            &&& y == 0 ==> at(m, y, x).north
            &&& y == rows - 1 ==> at(m, y, x).south
            &&& x == 0 ==> (at(m, y, x).west <==> y != 0)
            &&& x == cols - 1 ==> (at(m, y, x).east <==> y != rows - 1)
        }
}

/// The passage `e` between two neighbouring cells is open. `e` names the cell
/// at row `e.0`, column `e.1` and the side it opens to: east when `e.2` is
/// false, south when it is true.
pub open spec fn passage_open(m: Seq<Vec<Wall>>, rows: int, cols: int, e: (int, int, bool)) -> bool {
    &&& in_grid(rows, cols, e.0, e.1)
    &&& if !e.2 {
        e.1 + 1 < cols && !at(m, e.0, e.1).east
    } else {
        e.0 + 1 < rows && !at(m, e.0, e.1).south
    }
}

/// The open passages between neighbouring cells of the grid.
pub open spec fn passages(m: Seq<Vec<Wall>>, rows: int, cols: int) -> Set<(int, int, bool)> {
    Set::new(|e: (int, int, bool)| passage_open(m, rows, cols, e))
}

/// One can walk from cell `a` into the neighbouring cell `b`: both lie in the
/// grid and the wall of `a` on the side of `b` is down.
pub open spec fn open_step(m: Seq<Vec<Wall>>, rows: int, cols: int, a: (int, int), b: (int, int)) -> bool {
    &&& in_grid(rows, cols, a.0, a.1)
    &&& in_grid(rows, cols, b.0, b.1)
    &&& {
        ||| b == (a.0 - 1, a.1) && !at(m, a.0, a.1).north
        ||| b == (a.0 + 1, a.1) && !at(m, a.0, a.1).south
        ||| b == (a.0, a.1 - 1) && !at(m, a.0, a.1).west
        ||| b == (a.0, a.1 + 1) && !at(m, a.0, a.1).east
    }
}

/// The step from the `i`-th cell of `p` to the next one is open.
pub open spec fn open_step_at(m: Seq<Vec<Wall>>, rows: int, cols: int, p: Seq<(int, int)>, i: int) -> bool {
    open_step(m, rows, cols, p[i], p[i + 1])
}

/// `p` is a walk through the grid that crosses only open passages.
pub open spec fn is_open_path(m: Seq<Vec<Wall>>, rows: int, cols: int, p: Seq<(int, int)>) -> bool {
    &&& p.len() > 0
    &&& in_grid(rows, cols, p[0].0, p[0].1)
    &&& forall|i: int| 0 <= i < p.len() - 1 ==> #[trigger] open_step_at(m, rows, cols, p, i)
}

/// Some open walk leads from the top-left cell to the cell at row `y`, column `x`.
pub open spec fn reachable(m: Seq<Vec<Wall>>, rows: int, cols: int, y: int, x: int) -> bool {
    exists|p: Seq<(int, int)>|
        #[trigger] is_open_path(m, rows, cols, p) && p[0] == (0int, 0int) && p.last() == (y, x)
}

/// A perfect maze: a grid whose walls agree between neighbours, closed all
/// round but for the entrance and the exit, in which every cell can be
/// reached from the top-left one and the open passages number one less than
/// the cells, so that the passages form a spanning tree of the cells.
pub open spec fn perfect_maze(m: Seq<Vec<Wall>>, rows: int, cols: int) -> bool {
    &&& is_grid(m, rows, cols)
    &&& walls_agree(m, rows, cols)
    &&& border_with_openings(m, rows, cols)
    &&& forall|y: int, x: int| in_grid(rows, cols, y, x) ==> #[trigger] reachable(m, rows, cols, y, x)
    &&& passages(m, rows, cols).finite()
    &&& passages(m, rows, cols).len() == rows * cols - 1
}

/// The cells of one row.
pub open spec fn row_cells(y: int, cols: int) -> Set<(int, int)> {
    Set::new(|c: (int, int)| c.0 == y && 0 <= c.1 < cols)
}

proof fn lemma_row_cells(y: int, cols: nat)
    ensures
        row_cells(y, cols as int).finite(),
        row_cells(y, cols as int).len() == cols,
    decreases cols,
{
    if cols == 0 {
        assert(row_cells(y, 0) =~= Set::empty());
    } else {
        lemma_row_cells(y, (cols - 1) as nat);
        assert(row_cells(y, cols as int) =~= row_cells(y, cols - 1).insert((y, cols - 1)));
    }
}

/// A grid of `rows` by `cols` cells has `rows * cols` cells.
pub proof fn lemma_grid_cells(rows: nat, cols: nat)
    ensures
        grid_cells(rows as int, cols as int).finite(),
        grid_cells(rows as int, cols as int).len() == rows * cols,
    decreases rows,
{
    if rows == 0 {
        assert(grid_cells(0, cols as int) =~= Set::empty());
    } else {
        lemma_grid_cells((rows - 1) as nat, cols);
        lemma_row_cells(rows - 1, cols);
        let a = grid_cells(rows - 1, cols as int);
        let b = row_cells(rows - 1, cols as int);
        assert(grid_cells(rows as int, cols as int) =~= a + b);
        assert(a.disjoint(b));
        lemma_set_disjoint_lens(a, b);
        assert((rows - 1) * cols + cols == rows * cols) by (nonlinear_arith);
    }
}

/// Knocking down walls keeps every open walk open.
pub proof fn lemma_path_survives(
    m: Seq<Vec<Wall>>,
    m2: Seq<Vec<Wall>>,
    rows: int,
    cols: int,
    p: Seq<(int, int)>,
)
    requires
        forall|y: int, x: int|
            in_grid(rows, cols, y, x) ==> #[trigger] at(m, y, x).spec_contains(at(m2, y, x)),
        is_open_path(m, rows, cols, p),
    ensures
        is_open_path(m2, rows, cols, p),
{
    assert forall|i: int| 0 <= i < p.len() - 1 implies #[trigger] open_step_at(m2, rows, cols, p, i) by {
        assert(open_step_at(m, rows, cols, p, i));
        assert(at(m, p[i].0, p[i].1).spec_contains(at(m2, p[i].0, p[i].1)));
    }
}

/// Cells `a` and `b` share a side.
pub open spec fn side_by_side(a: (int, int), b: (int, int)) -> bool {
    ||| a.0 == b.0 && (a.1 == b.1 + 1 || b.1 == a.1 + 1)
    ||| a.1 == b.1 && (a.0 == b.0 + 1 || b.0 == a.0 + 1)
}

/// Some open walk from the top-left cell to cell `b` that visits no cell
/// twice passes through cell `a`.
pub open spec fn on_simple_path_to(m: Seq<Vec<Wall>>, rows: int, cols: int, a: (int, int), b: (int, int)) -> bool {
    exists|p: Seq<(int, int)>|
        #[trigger] is_open_path(m, rows, cols, p) && p[0] == (0int, 0int) && p.last() == b && no_repeats(p)
            && p.contains(a)
}

/// One of the cells `a` and `b` lies on a simple open walk from the
/// top-left cell to the other.
pub open spec fn in_line(m: Seq<Vec<Wall>>, rows: int, cols: int, a: (int, int), b: (int, int)) -> bool {
    on_simple_path_to(m, rows, cols, a, b) || on_simple_path_to(m, rows, cols, b, a)
}

/// The maze is laid out as a depth-first search from the top-left cell lays
/// it out: of any two cells that share a side, one lies on the simple open
/// walk from the top-left cell to the other. (In a perfect maze that walk is
/// the unique path through the tree of passages, so one of the two cells is
/// an ancestor of the other.)
pub open spec fn depth_first_tree(m: Seq<Vec<Wall>>, rows: int, cols: int) -> bool {
    forall|a: (int, int), b: (int, int)|
        in_grid(rows, cols, a.0, a.1) && in_grid(rows, cols, b.0, b.1) && side_by_side(a, b)
            ==> #[trigger] in_line(m, rows, cols, a, b)
}

/// Knocking down walls keeps every simple open walk from the top-left cell.
pub proof fn lemma_in_line_survives(
    m: Seq<Vec<Wall>>,
    m2: Seq<Vec<Wall>>,
    rows: int,
    cols: int,
    a: (int, int),
    b: (int, int),
)
    requires
        forall|y: int, x: int|
            in_grid(rows, cols, y, x) ==> #[trigger] at(m, y, x).spec_contains(at(m2, y, x)),
        in_line(m, rows, cols, a, b),
    ensures
        in_line(m2, rows, cols, a, b),
{
    if on_simple_path_to(m, rows, cols, a, b) {
        let p = choose|p: Seq<(int, int)>|
            #[trigger] is_open_path(m, rows, cols, p) && p[0] == (0int, 0int) && p.last() == b && no_repeats(p)
                && p.contains(a);
        lemma_path_survives(m, m2, rows, cols, p);
        assert(on_simple_path_to(m2, rows, cols, a, b));
    } else {
        let p = choose|p: Seq<(int, int)>|
            #[trigger] is_open_path(m, rows, cols, p) && p[0] == (0int, 0int) && p.last() == a && no_repeats(p)
                && p.contains(b);
        lemma_path_survives(m, m2, rows, cols, p);
        assert(on_simple_path_to(m2, rows, cols, b, a));
    }
}

/// Knocking down walls keeps a depth-first layout.
pub proof fn lemma_depth_first_survives(m: Seq<Vec<Wall>>, m2: Seq<Vec<Wall>>, rows: int, cols: int)
    requires
        forall|y: int, x: int|
            in_grid(rows, cols, y, x) ==> #[trigger] at(m, y, x).spec_contains(at(m2, y, x)),
        depth_first_tree(m, rows, cols),
    ensures
        depth_first_tree(m2, rows, cols),
{
    assert forall|a: (int, int), b: (int, int)|
        in_grid(rows, cols, a.0, a.1) && in_grid(rows, cols, b.0, b.1) && side_by_side(a, b) implies #[trigger] in_line(
        m2,
        rows,
        cols,
        a,
        b,
    ) by {
        assert(in_line(m, rows, cols, a, b));
        lemma_in_line_survives(m, m2, rows, cols, a, b);
    }
}

} // verus!

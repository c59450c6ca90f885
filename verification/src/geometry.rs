use vstd::prelude::*;
use crate::grid::at;
use crate::wall::Wall;

verus! {

/// A corner of the cell lattice: column line, then row line. Cell (`y`,
/// `x`) spans column lines `x` to `x + 1` and row lines `y` to `y + 1`.
pub type Corner = (usize, usize);

/// A wall drawn as a line between two lattice corners.
pub type Segment = (Corner, Corner);

/// The lines drawn for the walls of cell (`y`, `x`), in the order north,
/// south, west, east. With left `l = x`, right `r = x + 1`, bottom `b = y`
/// and top `t = y + 1`, north runs from (l, t) to (r, t), south from (l, b)
/// to (r, b), west from (l, t) to (l, b) and east from (r, t) to (r, b).
pub open spec fn cell_segments(w: Wall, y: int, x: int) -> Seq<Segment> {
    let l = x as usize;
    let r = (x + 1) as usize;
    let b = y as usize;
    let t = (y + 1) as usize;
    (if w.north {
        seq![((l, t), (r, t))]
    } else {
        Seq::empty()
    }) + (if w.south {
        seq![((l, b), (r, b))]
    } else {
        Seq::empty()
    }) + (if w.west {
        seq![((l, t), (l, b))]
    } else {
        Seq::empty()
    }) + (if w.east {
        seq![((r, t), (r, b))]
    } else {
        Seq::empty()
    })
}

/// The lines of the first `n` cells of row `y`, left to right.
pub open spec fn row_segments(m: Seq<Vec<Wall>>, y: int, n: int) -> Seq<Segment>
    decreases n,
{
    if n <= 0 {
        Seq::empty()
    } else {
        row_segments(m, y, n - 1) + cell_segments(at(m, y, n - 1), y, n - 1)
    }
}

/// The lines of the first `k` rows of `cols` cells, row after row.
pub open spec fn grid_segments(m: Seq<Vec<Wall>>, cols: int, k: int) -> Seq<Segment>
    decreases k,
{
    if k <= 0 {
        Seq::empty()
    } else {
        grid_segments(m, cols, k - 1) + row_segments(m, k - 1, cols)
    }
}

/// The north, south, west and east lines of cell (`y`, `x`): north from
/// corner (x, y + 1) to (x + 1, y + 1), south from (x, y) to (x + 1, y),
/// west from (x, y + 1) to (x, y), east from (x + 1, y + 1) to (x + 1, y).
pub open spec fn north_line(y: int, x: int) -> Segment {
    ((x as usize, (y + 1) as usize), ((x + 1) as usize, (y + 1) as usize))
}

/// See `north_line`.
pub open spec fn south_line(y: int, x: int) -> Segment {
    ((x as usize, y as usize), ((x + 1) as usize, y as usize))
}

/// See `north_line`.
pub open spec fn west_line(y: int, x: int) -> Segment {
    ((x as usize, (y + 1) as usize), (x as usize, y as usize))
}

/// See `north_line`.
pub open spec fn east_line(y: int, x: int) -> Segment {
    (((x + 1) as usize, (y + 1) as usize), ((x + 1) as usize, y as usize))
}

/// The lines drawn for a cell are exactly the unit lines along the sides
/// whose walls stand: the north side's line is drawn if and only if the
/// north wall stands, and so on, and no other line is drawn for the cell.
pub proof fn lemma_cell_lines(w: Wall, y: int, x: int)
    requires
        0 <= y,
        0 <= x,
        y + 1 <= usize::MAX,
        x + 1 <= usize::MAX,
    ensures
        cell_segments(w, y, x).contains(north_line(y, x)) <==> w.north,
        cell_segments(w, y, x).contains(south_line(y, x)) <==> w.south,
        cell_segments(w, y, x).contains(west_line(y, x)) <==> w.west,
        cell_segments(w, y, x).contains(east_line(y, x)) <==> w.east,
        forall|i: int|
            0 <= i < cell_segments(w, y, x).len() ==> {
                ||| #[trigger] cell_segments(w, y, x)[i] == north_line(y, x)
                ||| cell_segments(w, y, x)[i] == south_line(y, x)
                ||| cell_segments(w, y, x)[i] == west_line(y, x)
                ||| cell_segments(w, y, x)[i] == east_line(y, x)
            },
{
    let n = north_line(y, x);
    let so = south_line(y, x);
    let we = west_line(y, x);
    let ea = east_line(y, x);
    let a: Seq<Segment> = if w.north { seq![n] } else { Seq::empty() };
    let b: Seq<Segment> = if w.south { seq![so] } else { Seq::empty() };
    let c: Seq<Segment> = if w.west { seq![we] } else { Seq::empty() };
    let d: Seq<Segment> = if w.east { seq![ea] } else { Seq::empty() };
    let segs = cell_segments(w, y, x);
    assert(segs =~= a + b + c + d);
    assert(n != so && n != we && n != ea && so != we && so != ea && we != ea);
    assert forall|i: int| 0 <= i < segs.len() implies {
        &&& segs[i] == n ==> w.north
        &&& segs[i] == so ==> w.south
        &&& segs[i] == we ==> w.west
        &&& segs[i] == ea ==> w.east
        &&& (segs[i] == n || segs[i] == so || segs[i] == we || segs[i] == ea)
    } by {
        if i < a.len() {
            assert(segs[i] == a[i]);
        } else if i < a.len() + b.len() {
            assert(segs[i] == b[i - a.len()]);
        } else if i < a.len() + b.len() + c.len() {
            assert(segs[i] == c[i - a.len() - b.len()]);
        } else {
            assert(segs[i] == d[i - a.len() - b.len() - c.len()]);
        }
    }
    if w.north {
        assert(segs[0] == n);
    }
    if w.south {
        assert(segs[a.len() as int] == so);
    }
    if w.west {
        assert(segs[(a.len() + b.len()) as int] == we);
    }
    if w.east {
        assert(segs[(a.len() + b.len() + c.len()) as int] == ea);
    }
}

/// Line `s` is one of the lines drawn for a cell among the first `n` of row `y`.
spec fn drawn_in_row(m: Seq<Vec<Wall>>, y: int, n: int, s: Segment) -> bool {
    exists|x: int| 0 <= x < n && #[trigger] cell_segments(at(m, y, x), y, x).contains(s)
}

/// Line `s` is one of the lines drawn for a cell of the first `k` rows of
/// `cols` cells.
spec fn drawn_in_grid(m: Seq<Vec<Wall>>, cols: int, k: int, s: Segment) -> bool {
    exists|y: int, x: int| 0 <= y < k && 0 <= x < cols && #[trigger] cell_segments(at(m, y, x), y, x).contains(s)
}

/// The lines of every cell among the first `n` of row `y` are among the
/// row's lines, and every line of the row belongs to one of those cells.
proof fn lemma_row_lines(m: Seq<Vec<Wall>>, y: int, n: int)
    requires
        0 <= n,
    ensures
        forall|x: int, s: Segment|
            0 <= x < n && #[trigger] cell_segments(at(m, y, x), y, x).contains(s) ==> row_segments(m, y, n).contains(s),
        forall|i: int|
            0 <= i < row_segments(m, y, n).len() ==> drawn_in_row(m, y, n, #[trigger] row_segments(m, y, n)[i]),
    decreases n,
{
    if n > 0 {
        lemma_row_lines(m, y, n - 1);
        let prev = row_segments(m, y, n - 1);
        let cs = cell_segments(at(m, y, n - 1), y, n - 1);
        let r = row_segments(m, y, n);
        assert(r == prev + cs);
        assert forall|x: int, s: Segment|
            0 <= x < n && #[trigger] cell_segments(at(m, y, x), y, x).contains(s) implies r.contains(s) by {
            if x < n - 1 {
                assert(prev.contains(s));
                let j = choose|j: int| 0 <= j < prev.len() && prev[j] == s;
                assert(r[j] == s);
            } else {
                let j = choose|j: int| 0 <= j < cs.len() && cs[j] == s;
                assert(r[prev.len() + j] == s);
            }
        }
        assert forall|i: int| 0 <= i < r.len() implies drawn_in_row(m, y, n, #[trigger] r[i]) by {
            if i < prev.len() {
                assert(r[i] == prev[i]);
                assert(drawn_in_row(m, y, n - 1, prev[i]));
                let x = choose|x: int| 0 <= x < n - 1 && #[trigger] cell_segments(at(m, y, x), y, x).contains(prev[i]);
                assert(cell_segments(at(m, y, x), y, x).contains(r[i]));
            } else {
                assert(r[i] == cs[i - prev.len()]);
                assert(cs.contains(cs[i - prev.len()]));
                assert(cell_segments(at(m, y, n - 1), y, n - 1).contains(r[i]));
            }
        }
    } else {
        assert(row_segments(m, y, n).len() == 0);
    }
}

/// The lines of every cell in the first `k` rows are among the grid's
/// lines, and every line of the grid belongs to one of those cells.
proof fn lemma_grid_lines(m: Seq<Vec<Wall>>, cols: int, k: int)
    requires
        0 <= k,
        0 <= cols,
    ensures
        forall|y: int, x: int, s: Segment|
            0 <= y < k && 0 <= x < cols && #[trigger] cell_segments(at(m, y, x), y, x).contains(s)
                ==> grid_segments(m, cols, k).contains(s),
        forall|i: int|
            0 <= i < grid_segments(m, cols, k).len() ==> drawn_in_grid(m, cols, k, #[trigger] grid_segments(m, cols, k)[i]),
    decreases k,
{
    if k > 0 {
        lemma_grid_lines(m, cols, k - 1);
        lemma_row_lines(m, k - 1, cols);
        let prev = grid_segments(m, cols, k - 1);
        let rs = row_segments(m, k - 1, cols);
        let g = grid_segments(m, cols, k);
        assert(g == prev + rs);
        assert forall|y: int, x: int, s: Segment|
            0 <= y < k && 0 <= x < cols && #[trigger] cell_segments(at(m, y, x), y, x).contains(s) implies g.contains(s) by {
            if y < k - 1 {
                assert(prev.contains(s));
                let j = choose|j: int| 0 <= j < prev.len() && prev[j] == s;
                assert(g[j] == s);
            } else {
                assert(rs.contains(s));
                let j = choose|j: int| 0 <= j < rs.len() && rs[j] == s;
                assert(g[prev.len() + j] == s);
            }
        }
        assert forall|i: int| 0 <= i < g.len() implies drawn_in_grid(m, cols, k, #[trigger] g[i]) by {
            if i < prev.len() {
                assert(g[i] == prev[i]);
                assert(drawn_in_grid(m, cols, k - 1, prev[i]));
                let (y, x) = choose|y: int, x: int|
                    0 <= y < k - 1 && 0 <= x < cols && #[trigger] cell_segments(at(m, y, x), y, x).contains(prev[i]);
                assert(cell_segments(at(m, y, x), y, x).contains(g[i]));
            } else {
                let j = i - prev.len();
                assert(g[i] == rs[j]);
                assert(drawn_in_row(m, k - 1, cols, rs[j]));
                let x = choose|x: int| 0 <= x < cols && #[trigger] cell_segments(at(m, k - 1, x), k - 1, x).contains(rs[j]);
                assert(cell_segments(at(m, k - 1, x), k - 1, x).contains(g[i]));
            }
        }
    } else {
        assert(grid_segments(m, cols, k).len() == 0);
    }
}

/// Line `s` runs along a standing wall of a cell of a `rows` by `cols`
/// maze: it is the north, south, west or east line of a cell whose wall on
/// that side stands.
pub open spec fn standing_wall_line(m: Seq<Vec<Wall>>, rows: int, cols: int, s: Segment) -> bool {
    exists|y: int, x: int|
        0 <= y < rows && 0 <= x < cols && {
            ||| s == north_line(y, x) && #[trigger] at(m, y, x).north
            ||| s == south_line(y, x) && at(m, y, x).south
            ||| s == west_line(y, x) && at(m, y, x).west
            ||| s == east_line(y, x) && at(m, y, x).east
        }
}

/// The lines drawn for a maze are exactly the lines along its standing
/// walls: each standing wall's line is drawn, and each drawn line runs
/// along a standing wall.
pub proof fn lemma_wall_lines(m: Seq<Vec<Wall>>, rows: int, cols: int)
    requires
        0 <= rows <= usize::MAX,
        0 <= cols <= usize::MAX,
    ensures
        forall|y: int, x: int|
            0 <= y < rows && 0 <= x < cols ==> {
                &&& #[trigger] at(m, y, x).north ==> grid_segments(m, cols, rows).contains(north_line(y, x))
                &&& at(m, y, x).south ==> grid_segments(m, cols, rows).contains(south_line(y, x))
                &&& at(m, y, x).west ==> grid_segments(m, cols, rows).contains(west_line(y, x))
                &&& at(m, y, x).east ==> grid_segments(m, cols, rows).contains(east_line(y, x))
            },
        forall|i: int|
            0 <= i < grid_segments(m, cols, rows).len() ==> #[trigger] standing_wall_line(
                m,
                rows,
                cols,
                grid_segments(m, cols, rows)[i],
            ),
{
    let g = grid_segments(m, cols, rows);
    lemma_grid_lines(m, cols, rows);
    assert forall|y: int, x: int| 0 <= y < rows && 0 <= x < cols implies {
        &&& #[trigger] at(m, y, x).north ==> g.contains(north_line(y, x))
        &&& at(m, y, x).south ==> g.contains(south_line(y, x))
        &&& at(m, y, x).west ==> g.contains(west_line(y, x))
        &&& at(m, y, x).east ==> g.contains(east_line(y, x))
    } by {
        lemma_cell_lines(at(m, y, x), y, x);
    }
    assert forall|i: int| 0 <= i < g.len() implies #[trigger] standing_wall_line(m, rows, cols, g[i]) by {
        assert(drawn_in_grid(m, cols, rows, g[i]));
        let (y, x) = choose|y: int, x: int|
            0 <= y < rows && 0 <= x < cols && #[trigger] cell_segments(at(m, y, x), y, x).contains(g[i]);
        lemma_cell_lines(at(m, y, x), y, x);
        let cs = cell_segments(at(m, y, x), y, x);
        let j = choose|j: int| 0 <= j < cs.len() && cs[j] == g[i];
        assert(cs[j] == north_line(y, x) || cs[j] == south_line(y, x) || cs[j] == west_line(y, x) || cs[j]
            == east_line(y, x));
    }
}

/// The line segments that draw the walls of a `rows` by `cols` maze, cell
/// by cell in row-major order, each cell's walls in the order north, south,
/// west, east.
#[verifier::spinoff_prover]
pub fn wall_segments(maze: &[Vec<Wall>], rows: usize, cols: usize) -> (segs: Vec<Segment>)
    requires
        rows <= maze@.len(),
        forall|y: int| 0 <= y < rows ==> cols <= #[trigger] maze@[y]@.len(),
    ensures
        segs@ == grid_segments(maze@, cols as int, rows as int),
        forall|y: int, x: int|
            0 <= y < rows && 0 <= x < cols ==> {
                &&& #[trigger] at(maze@, y, x).north ==> segs@.contains(north_line(y, x))
                &&& at(maze@, y, x).south ==> segs@.contains(south_line(y, x))
                &&& at(maze@, y, x).west ==> segs@.contains(west_line(y, x))
                &&& at(maze@, y, x).east ==> segs@.contains(east_line(y, x))
            },
        forall|i: int| 0 <= i < segs@.len() ==> #[trigger] standing_wall_line(maze@, rows as int, cols as int, segs@[i]),
{
    let mut segs: Vec<Segment> = Vec::new();
    for y in 0..rows
        invariant
            rows <= maze@.len(),
            forall|i: int| 0 <= i < rows ==> cols <= #[trigger] maze@[i]@.len(),
            segs@ == grid_segments(maze@, cols as int, y as int),
    {
        let ghost before = segs@;
        for x in 0..cols
            invariant
                y < rows,
                rows <= maze@.len(),
                forall|i: int| 0 <= i < rows ==> cols <= #[trigger] maze@[i]@.len(),
                segs@ == before + row_segments(maze@, y as int, x as int),
        {
            let w = maze[y][x];
            let l = x;
            let r = x + 1;
            let b = y;
            let t = y + 1;
            let ghost start = segs@;
            if w.contains(Wall::north()) {
                segs.push(((l, t), (r, t)));
            }
            if w.contains(Wall::south()) {
                segs.push(((l, b), (r, b)));
            }
            if w.contains(Wall::west()) {
                segs.push(((l, t), (l, b)));
            }
            if w.contains(Wall::east()) {
                segs.push(((r, t), (r, b)));
            }
            proof {
                assert(w == at(maze@, y as int, x as int));
                let cs = cell_segments(w, y as int, x as int);
                assert(segs@ =~= start + cs);
                let rs0 = row_segments(maze@, y as int, x as int);
                let rs1 = row_segments(maze@, y as int, x + 1);
                assert(rs1 == rs0 + cs);
                assert(before + rs1 =~= (before + rs0) + cs);
            }
        }
    }
    proof {
        lemma_wall_lines(maze@, rows as int, cols as int);
    }
    segs
}

} // verus!

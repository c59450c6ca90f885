use vstd::prelude::*;

verus! {

/// `m` has `rows` rows of `cols` entries each.
pub open spec fn is_grid<T>(m: Seq<Vec<T>>, rows: int, cols: int) -> bool {
    &&& m.len() == rows
    &&& forall|y: int| 0 <= y < rows ==> #[trigger] m[y]@.len() == cols
}

/// The entry of `m` at row `y`, column `x`.
pub open spec fn at<T>(m: Seq<Vec<T>>, y: int, x: int) -> T {
    m[y]@[x]
}

/// `m2` is `m1` with the entry at row `y`, column `x` replaced by `v`.
pub open spec fn updated<T>(m1: Seq<Vec<T>>, m2: Seq<Vec<T>>, y: int, x: int, v: T) -> bool {
    &&& m2.len() == m1.len()
    &&& forall|i: int| 0 <= i < m1.len() && i != y ==> #[trigger] m2[i] == m1[i]
    &&& m2[y]@ == m1[y]@.update(x, v)
}

/// A grid of `rows` rows and `cols` columns, every entry `v`.
pub fn filled_grid<T: Copy>(rows: usize, cols: usize, v: T) -> (g: Vec<Vec<T>>)
    ensures
        is_grid(g@, rows as int, cols as int),
        forall|y: int, x: int| 0 <= y < rows && 0 <= x < cols ==> #[trigger] at(g@, y, x) == v,
{
    let mut g: Vec<Vec<T>> = Vec::new();
    for y in 0..rows
        invariant
            g@.len() == y,
            forall|i: int| 0 <= i < y ==> #[trigger] g@[i]@.len() == cols,
            forall|i: int, x: int| 0 <= i < y && 0 <= x < cols ==> #[trigger] at(g@, i, x) == v,
    {
        let mut row: Vec<T> = Vec::new();
        for x in 0..cols
            invariant
                row@.len() == x,
                forall|j: int| 0 <= j < x ==> #[trigger] row@[j] == v,
        {
            row.push(v);
        }
        let ghost old_g = g@;
        g.push(row);
        assert forall|i: int, x: int| 0 <= i < y + 1 && 0 <= x < cols implies #[trigger] at(
            g@,
            i,
            x,
        ) == v by {
            if i < y {
                assert(g@[i] == old_g[i]);
                assert(at(old_g, i, x) == v);
            } else {
                assert(g@[i]@ == row@);
                assert(row@[x] == v);
            }
        }
    }
    g
}

/// Replaces the entry at row `y`, column `x` by `v`.
pub fn set_at<T>(g: &mut Vec<Vec<T>>, y: usize, x: usize, v: T)
    requires
        y < old(g)@.len(),
        x < old(g)@[y as int]@.len(),
    ensures
        updated(old(g)@, final(g)@, y as int, x as int, v),
{
    g[y][x] = v;
}

/// After replacing one entry of a grid, the grid keeps its shape and every
/// other entry.
pub proof fn lemma_updated_at<T>(m1: Seq<Vec<T>>, m2: Seq<Vec<T>>, rows: int, cols: int, y: int, x: int, v: T)
    requires
        is_grid(m1, rows, cols),
        0 <= y < rows,
        0 <= x < cols,
        updated(m1, m2, y, x, v),
    ensures
        is_grid(m2, rows, cols),
        forall|yy: int, xx: int|
            0 <= yy < rows && 0 <= xx < cols ==> #[trigger] at(m2, yy, xx) == if yy == y && xx == x {
                v
            } else {
                at(m1, yy, xx)
            },
{
    assert forall|yy: int| 0 <= yy < rows implies #[trigger] m2[yy]@.len() == cols by {
        if yy != y {
            assert(m2[yy] == m1[yy]);
        }
    }
    assert forall|yy: int, xx: int| 0 <= yy < rows && 0 <= xx < cols implies #[trigger] at(m2, yy, xx)
        == if yy == y && xx == x {
        v
    } else {
        at(m1, yy, xx)
    } by {
        if yy != y {
            assert(m2[yy] == m1[yy]);
        }
    }
}

} // verus!

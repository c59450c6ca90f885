use vstd::prelude::*;

verus! {

/// Rows `0` to `height / 2`, both included, of a frame of `height` rows.
pub open spec fn spec_symmetric_rows(height: int) -> int {
    if height <= 0 {
        0
    } else {
        height / 2 + 1
    }
}

/// The row whose bytes row `y` holds once rows past the middle have been
/// mirrored: the row itself up to `height / 2`, row `height - 1 - y` below.
pub open spec fn source_row(height: int, y: int) -> int {
    if y <= height / 2 {
        y
    } else {
        height - 1 - y
    }
}

/// The number of rows that are rendered directly in a frame of `height`
/// rows when the frame is symmetric about its middle row: rows `0` to
/// `height / 2`, both included.
pub fn symmetric_rows(height: usize) -> (n: usize)
    ensures
        n == spec_symmetric_rows(height as int),
{
    if height == 0 {
        0
    } else {
        height / 2 + 1
    }
}

/// The byte at column byte `k` of row `y` once rows past the middle have
/// been mirrored: rows up to `height / 2` keep their bytes, row `y` below
/// them takes the bytes of row `height - 1 - y`.
pub open spec fn mirrored(old: Seq<u8>, bytes_per_row: int, height: int, y: int, k: int) -> u8 {
    old[source_row(height, y) * bytes_per_row + k]
}

/// Mirroring reads only rows that are rendered directly: every row of the
/// finished frame is one of the first `spec_symmetric_rows(height)` rows or
/// a copy of one of them.
pub proof fn lemma_mirror_reads_rendered_rows(height: int, y: int)
    requires
        0 <= y < height,
    ensures
        0 <= source_row(height, y) < spec_symmetric_rows(height),
{
}

proof fn lemma_row_index(bpr: int, y1: int, k1: int, y2: int, k2: int)
    requires
        0 <= k1 < bpr,
        0 <= k2 < bpr,
        0 <= y1,
        0 <= y2,
        y1 != y2,
    ensures
        y1 * bpr + k1 != y2 * bpr + k2,
{
    if y1 < y2 {
        assert(y1 * bpr + k1 < y2 * bpr + k2) by (nonlinear_arith)
            requires
                y1 < y2,
                0 <= k1 < bpr,
                0 <= k2,
        ;
    } else {
        assert(y2 * bpr + k2 < y1 * bpr + k1) by (nonlinear_arith)
            requires
                y2 < y1,
                0 <= k2 < bpr,
                0 <= k1,
        ;
    }
}

proof fn lemma_row_bound(bpr: int, h: int, y: int)
    requires
        0 <= y < h,
        0 <= bpr,
    ensures
        0 <= y * bpr,
        y * bpr + bpr <= h * bpr,
        bpr * h == h * bpr,
{
    assert(0 <= y * bpr && y * bpr + bpr <= h * bpr && bpr * h == h * bpr) by (nonlinear_arith)
        requires
            0 <= y < h,
            0 <= bpr,
    ;
}

/// Every row past the middle of a mirrored frame holds the bytes of the row
/// as far above the middle as it lies below: row `y` takes row
/// `height - 1 - y`, which is itself rendered directly and kept. So the
/// finished lower half is the mirror image of the upper rows, and the frame
/// reads the same from the top as from the bottom over those rows.
pub proof fn lemma_lower_row_mirrors(old: Seq<u8>, bytes_per_row: int, height: int, y: int, k: int)
    requires
        height / 2 < y < height,
    ensures
        mirrored(old, bytes_per_row, height, y, k) == old[(height - 1 - y) * bytes_per_row + k],
        0 <= height - 1 - y <= height / 2,
        mirrored(old, bytes_per_row, height, height - 1 - y, k) == old[(height - 1 - y) * bytes_per_row + k],
        mirrored(old, bytes_per_row, height, y, k) == mirrored(old, bytes_per_row, height, height - 1 - y, k),
{
}

/// Rows up to the middle of a mirrored frame keep the bytes they were
/// rendered with.
pub proof fn lemma_upper_row_kept(old: Seq<u8>, bytes_per_row: int, height: int, y: int, k: int)
    requires
        0 <= y <= height / 2,
    ensures
        mirrored(old, bytes_per_row, height, y, k) == old[y * bytes_per_row + k],
{
}

/// Completes a frame of `height` rows of `width` RGB pixels (three bytes
/// each) whose rows up to the middle one are rendered: every row `y` past
/// `height / 2` becomes a copy of row `height - 1 - y`.
pub fn mirror_lower_half(data: &mut Vec<u8>, width: usize, height: usize)
    requires
        width * 3 <= usize::MAX,
        old(data)@.len() == width * 3 * height,
    ensures
        final(data)@.len() == old(data)@.len(),
        forall|y: int, k: int|
            0 <= y < height && 0 <= k < width * 3 ==> #[trigger] final(data)@[y * (width * 3) + k]
                == mirrored(old(data)@, width * 3, height as int, y, k),
        forall|y: int, k: int|
            0 <= y <= height / 2 && y < height && 0 <= k < width * 3 ==> #[trigger] final(data)@[y * (
            width * 3) + k] == old(data)@[y * (width * 3) + k],
        forall|y: int, k: int|
            height / 2 < y < height && 0 <= k < width * 3 ==> #[trigger] final(data)@[y * (width * 3)
                + k] == old(data)@[(height - 1 - y) * (width * 3) + k],
        forall|y: int, k: int|
            height / 2 < y < height && 0 <= k < width * 3 ==> #[trigger] final(data)@[y * (width * 3)
                + k] == final(data)@[(height - 1 - y) * (width * 3) + k],
{
    let ghost old_data = data@;
    let total = data.len();
    let bytes_per_row = width * 3;
    let ghost bpr = bytes_per_row as int;
    let ghost h = height as int;
    let mid = height / 2;
    let mut y = mid + 1;
    while y < height
        invariant
            bytes_per_row == width * 3,
            bpr == bytes_per_row,
            h == height,
            mid == height / 2,
            mid + 1 <= y,
            y <= height || y == mid + 1,
            data@.len() == old_data.len(),
            old_data.len() == bpr * h,
            total == old_data.len(),
            forall|yy: int, kk: int|
                0 <= yy < h && 0 <= kk < bpr ==> #[trigger] data@[yy * bpr + kk] == if yy < y {
                    mirrored(old_data, bpr, h, yy, kk)
                } else {
                    old_data[yy * bpr + kk]
                },
        decreases height - y,
    {
        let src_y = height - 1 - y;
        proof {
            lemma_row_bound(bpr, h, y as int);
            lemma_row_bound(bpr, h, src_y as int);
        }
        let dst_start = y * bytes_per_row;
        let src_start = src_y * bytes_per_row;
        let mut k: usize = 0;
        while k < bytes_per_row
            invariant
                bytes_per_row == width * 3,
                bpr == bytes_per_row,
                h == height,
                mid == height / 2,
                mid + 1 <= y < height,
                src_y == height - 1 - y,
                dst_start == y * bpr,
                src_start == src_y * bpr,
                dst_start + bpr <= bpr * h,
                src_start + bpr <= bpr * h,
                k <= bytes_per_row,
                total == old_data.len(),
                data@.len() == old_data.len(),
                old_data.len() == bpr * h,
                forall|yy: int, kk: int|
                    0 <= yy < h && 0 <= kk < bpr ==> #[trigger] data@[yy * bpr + kk] == if yy < y
                        || (yy == y && kk < k) {
                        mirrored(old_data, bpr, h, yy, kk)
                    } else {
                        old_data[yy * bpr + kk]
                    },
            decreases bytes_per_row - k,
        {
            let ghost before = data@;
            assert(data@[src_y * bpr + k] == old_data[src_y * bpr + k]);
            let v = data[src_start + k];
            data[dst_start + k] = v;
            assert forall|yy: int, kk: int|
                0 <= yy < h && 0 <= kk < bpr implies #[trigger] data@[yy * bpr + kk] == if yy < y
                    || (yy == y && kk < k + 1) {
                    mirrored(old_data, bpr, h, yy, kk)
                } else {
                    old_data[yy * bpr + kk]
                } by {
                lemma_row_bound(bpr, h, yy);
                if yy != y {
                    lemma_row_index(bpr, yy, kk, y as int, k as int);
                    assert(data@[yy * bpr + kk] == before[yy * bpr + kk]);
                } else if kk != k {
                    assert(yy * bpr == dst_start);
                    assert(data@[yy * bpr + kk] == before[yy * bpr + kk]);
                }
            }
            k = k + 1;
        }
        y = y + 1;
    }
    proof {
        assert forall|yy: int, kk: int|
            height / 2 < yy < height && 0 <= kk < width * 3 implies #[trigger] data@[yy * (width * 3) + kk]
            == data@[(height - 1 - yy) * (width * 3) + kk] by {
            lemma_lower_row_mirrors(old_data, bpr, h, yy, kk);
            assert(data@[(h - 1 - yy) * bpr + kk] == mirrored(old_data, bpr, h, h - 1 - yy, kk));
        }
    }
}

/// The iterations to spend per pixel on a frame of the zoom sequence: the
/// base plus the `extra` that the zoom asks for, saturating at `u32::MAX`.
pub fn frame_max_iter(base: u32, extra: u32) -> (n: u32)
    ensures
        n == if base + extra <= u32::MAX {
            base + extra
        } else {
            u32::MAX as int
        },
{
    base.saturating_add(extra)
}

} // verus!

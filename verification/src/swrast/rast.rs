//! Rasterizing a render target, one row of bins at a time.
use vstd::prelude::*;

use super::bin::{Bmp, Elem};
use super::binrast::{
    chan_index, copy_target, elem_ok, lemma_target_bound, lemma_targets_distinct, rasterized_all,
    BinRast,
};
use super::TILE;

verus! {

/// The output buffer is large enough for a render target of `size`: each
/// row takes `size[0] * 4` bytes, rows are `out_stride` bytes apart, and
/// neither figure overflows. An empty target fits any buffer.
pub open spec fn output_fits_spec(size: [usize; 2], out_len: usize, out_stride: usize) -> bool {
    size[0] == 0 || size[1] == 0 || {
        let row = size[0] * 4;
        let total = out_stride * (size[1] - 1) + row;
        &&& row <= usize::MAX
        &&& out_stride >= row
        &&& total <= usize::MAX
        &&& out_len >= total
    }
}

/// Check that a buffer of `out_len` bytes, with rows `out_stride` bytes
/// apart, holds a render target of `size`.
pub fn output_fits(size: [usize; 2], out_len: usize, out_stride: usize) -> (r: bool)
    ensures
        r == output_fits_spec(size, out_len, out_stride),
{
    if size[0] == 0 || size[1] == 0 {
        return true;
    }
    let row = match size[0].checked_mul(4) {
        Some(row) => row,
        None => return false,
    };
    if out_stride < row {
        return false;
    }
    let total = match out_stride.checked_mul(size[1] - 1) {
        Some(t) => match t.checked_add(row) {
            Some(t) => t,
            None => return false,
        },
        None => {
            proof {
                assert(out_stride * (size[1] - 1) + row > usize::MAX);
            }
            return false;
        },
    };
    out_len >= total
}

/// `min(TILE, size - i * TILE)`: the extent of the bin `i` along an axis of
/// `size` pixels.
pub open spec fn bin_extent(size: int, i: int) -> int {
    if size - i * 16 < 16 {
        size - i * 16
    } else {
        16
    }
}

/// The layer buffers after rasterizing the first `n` bins of the row `y`,
/// starting from `s0`; `row[x]` holds the elements of the bin `[x, y]`.
pub open spec fn row_state<TBmp: Bmp>(
    s0: Seq<u8>,
    y: usize,
    row: Seq<Vec<(&Elem<TBmp>, u8)>>,
    n: int,
) -> Seq<u8>
    decreases n,
{
    if n <= 0 {
        s0
    } else {
        rasterized_all(row_state(s0, y, row, n - 1), [(n - 1) as usize, y], row[n - 1]@)
    }
}

/// The byte `i` holds a channel of a pixel `(x, y)` with `x < w` and
/// `y < h` of an image whose rows are `stride` bytes apart.
pub open spec fn is_target(stride: int, w: int, h: int, i: int) -> bool {
    exists|x: int, y: int, c: int|
        0 <= x < w && 0 <= y < h && 0 <= c < 4 && i == #[trigger] copy_target(stride, x, y, c)
}

/// Rasterize the row `y` of bins of a render target of `target_size`
/// pixels into `out`, the image rows of that row of bins, `out_stride`
/// bytes apart.
///
/// `row[x]` holds the elements of the bin `[x, y]` and their layers, in
/// drawing order. Each bin is drawn in turn into `bin_rast`, whose layer 0 is
/// then copied to the bin's place in `out`.
pub fn rasterize_row<TBmp: Bmp>(
    bin_rast: &mut BinRast,
    row: &[Vec<(&Elem<TBmp>, u8)>],
    y: usize,
    target_size: [usize; 2],
    out: &mut [u8],
    out_stride: usize,
)
    requires
        old(bin_rast).wf(),
        0 < target_size[0] <= row@.len() * 16,
        (row@.len() - 1) * 16 < target_size[0],
        y * 16 < target_size[1],
        target_size[0] * 4 <= out_stride,
        out_stride * (bin_extent(target_size[1] as int, y as int) - 1) + target_size[0] * 4 <= old(
            out,
        )@.len(),
        forall|i: int, j: int|
            0 <= i < row@.len() && 0 <= j < row@[i]@.len() ==> elem_ok(
                *(#[trigger] row@[i]@[j]).0,
                [i as usize, y],
                row@[i]@[j].1 as int,
            ),
    ensures
        final(bin_rast).wf(),
        final(bin_rast)@ == row_state(old(bin_rast)@, y, row@, row@.len() as int),
        final(out)@.len() == old(out)@.len(),
        forall|x: int, py: int, c: int|
            0 <= x < target_size[0] && 0 <= py < bin_extent(target_size[1] as int, y as int) && 0
                <= c < 4 ==> #[trigger] final(out)@[copy_target(out_stride as int, x, py, c)] == row_state(
                old(bin_rast)@,
                y,
                row@,
                x / 16 + 1,
            )[chan_index(0, c, py * 16 + x % 16)],
        forall|i: int|
            0 <= i < old(out)@.len() && !is_target(
                out_stride as int,
                target_size[0] as int,
                bin_extent(target_size[1] as int, y as int),
                i,
            ) ==> #[trigger] final(out)@[i] == old(out)@[i],
{
    let ghost s0 = bin_rast@;
    let ghost old_out = out@;
    let ghost w = target_size[0] as int;
    let ghost sw = out_stride as int;
    let bin_h = if target_size[1] - y * TILE < TILE {
        target_size[1] - y * TILE
    } else {
        TILE
    };
    let ghost h = bin_h as int;
    let mut bx: usize = 0;
    while bx < row.len()
        invariant
            bin_rast.wf(),
            bx <= row@.len(),
            0 < target_size[0] <= row@.len() * 16,
            (row@.len() - 1) * 16 < target_size[0],
            w == target_size[0],
            sw == out_stride,
            h == bin_h,
            h == bin_extent(target_size[1] as int, y as int),
            0 < bin_h <= 16,
            target_size[0] * 4 <= out_stride,
            out_stride * (bin_h - 1) + target_size[0] * 4 <= old_out.len(),
            out@.len() == old_out.len(),
            forall|i: int, j: int|
                0 <= i < row@.len() && 0 <= j < row@[i]@.len() ==> elem_ok(
                    *(#[trigger] row@[i]@[j]).0,
                    [i as usize, y],
                    row@[i]@[j].1 as int,
                ),
            bin_rast@ == row_state(s0, y, row@, bx as int),
            forall|x: int, py: int, c: int|
                0 <= x < w && x < bx * 16 && 0 <= py < h && 0 <= c < 4 ==> #[trigger] out@[copy_target(
                    sw,
                    x,
                    py,
                    c,
                )] == row_state(s0, y, row@, x / 16 + 1)[chan_index(0, c, py * 16 + x % 16)],
            forall|i: int|
                0 <= i < old_out.len() && !is_target(sw, if w < bx * 16 { w } else { bx * 16 }, h, i)
                    ==> #[trigger] out@[i] == old_out[i],
        decreases row@.len() - bx,
    {
        let elems = row[bx].as_slice();
        proof {
            assert forall|j: int| 0 <= j < elems@.len() implies elem_ok(
                *(#[trigger] elems@[j]).0,
                [bx, y],
                elems@[j].1 as int,
            ) by {
                assert(elem_ok(*row@[bx as int]@[j].0, [bx, y], row@[bx as int]@[j].1 as int));
            }
        }
        bin_rast.rasterize(elems, [bx, y]);
        proof {
            assert(bin_rast@ == row_state(s0, y, row@, bx + 1));
        }
        let bin_w = if target_size[0] - bx * TILE < TILE {
            target_size[0] - bx * TILE
        } else {
            TILE
        };
        let ghost before = out@;
        let ghost lo = bx * 16;
        proof {
            assert(bx * 64 + out_stride * (bin_h - 1) + bin_w * 4 <= old_out.len());
        }
        bin_rast.copy_region(out, bx * 64, out_stride, bin_w, bin_h);
        proof {
            let ghost hi = if w < lo + 16 { w } else { lo + 16 };
            assert(hi == lo + bin_w);
            // The bin's own pixels
            assert forall|x: int, py: int, c: int|
                0 <= x < w && x < (bx + 1) * 16 && 0 <= py < h && 0 <= c < 4 implies #[trigger] out@[copy_target(
                    sw,
                    x,
                    py,
                    c,
                )] == row_state(s0, y, row@, x / 16 + 1)[chan_index(0, c, py * 16 + x % 16)] by {
                if x < lo {
                    lemma_target_bound(sw, w, h, x, py, c);
                    assert(!exists|x2: int, y2: int, c2: int|
                        0 <= x2 < bin_w && 0 <= y2 < bin_h && 0 <= c2 < 4 && copy_target(sw, x, py, c)
                            == bx * 64 + copy_target(sw, x2, y2, c2)) by {
                        if exists|x2: int, y2: int, c2: int|
                            0 <= x2 < bin_w && 0 <= y2 < bin_h && 0 <= c2 < 4 && copy_target(sw, x, py, c)
                                == bx * 64 + copy_target(sw, x2, y2, c2) {
                            let (x2, y2, c2) = choose|x2: int, y2: int, c2: int|
                                0 <= x2 < bin_w && 0 <= y2 < bin_h && 0 <= c2 < 4 && copy_target(sw, x, py, c)
                                    == bx * 64 + copy_target(sw, x2, y2, c2);
                            assert(bx * 64 + copy_target(sw, x2, y2, c2) == copy_target(sw, lo + x2, y2, c2));
                            lemma_targets_distinct(sw, w, h, x, py, c, lo + x2, y2, c2);
                        }
                    }
                    assert(out@[copy_target(sw, x, py, c)] == before[copy_target(sw, x, py, c)]);
                } else {
                    let px = x - lo;
                    assert(bx * 64 + copy_target(sw, px, py, c) == copy_target(sw, x, py, c));
                    assert(x / 16 == bx && x % 16 == px);
                }
            }
            // Everything else is untouched
            assert forall|i: int|
                0 <= i < old_out.len() && !is_target(sw, hi, h, i) implies #[trigger] out@[i] == old_out[i] by {
                if exists|x2: int, y2: int, c2: int|
                    0 <= x2 < bin_w && 0 <= y2 < bin_h && 0 <= c2 < 4 && i == bx * 64 + copy_target(sw, x2, y2, c2) {
                    let (x2, y2, c2) = choose|x2: int, y2: int, c2: int|
                        0 <= x2 < bin_w && 0 <= y2 < bin_h && 0 <= c2 < 4 && i == bx * 64 + copy_target(
                            sw,
                            x2,
                            y2,
                            c2,
                        );
                    assert(i == copy_target(sw, lo + x2, y2, c2));
                    assert(is_target(sw, hi, h, i));
                }
                let plo = if w < lo { w } else { lo };
                if is_target(sw, plo, h, i) {
                    let (x3, y3, c3) = choose|x3: int, y3: int, c3: int|
                        0 <= x3 < plo && 0 <= y3 < h && 0 <= c3 < 4 && i == #[trigger] copy_target(sw, x3, y3, c3);
                    assert(is_target(sw, hi, h, i));
                }
            }
        }
        bx += 1;
    }
    proof {
        assert forall|i: int|
            0 <= i < old_out.len() && !is_target(sw, w, h, i) implies #[trigger] out@[i] == old_out[i] by {
            let bound = if w < bx * 16 { w } else { bx * 16 };
            assert(bound == w);
        }
    }
}

} // verus!

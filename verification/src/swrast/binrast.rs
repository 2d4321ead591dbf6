//! A bin rasterizer.
use vstd::prelude::*;
use zerocopy::LayoutVerified;

use super::bin::{Bmp, ClipPlanes, Content, Elem, ELEM_CLIP_PLANES, ELEM_CLIP_PLANES_ANTIALIASED};
use super::{CLIP_SUB, CLIP_SUB_SHIFT, NUM_LAYERS, TILE, UV_SUB, UV_SUB_SHIFT};

verus! {

/// The number of bytes of the layer buffers: `NUM_LAYERS` layers of four
/// channels of `TILE * TILE` bytes.
pub const LAYERS_LEN: usize = 16384;

/// The position of channel `chan` of pixel `pix` of layer `layer`.
pub open spec fn chan_index(layer: int, chan: int, pix: int) -> int {
    (layer * 4 + chan) * 256 + pix
}

/// A working area for bin rasterization.
pub struct BinRast {
    /// Tile buffers for layers, laid out as
    /// `[[[[u8; TILE]; TILE]; 4]; NUM_LAYERS]`.
    layers: Vec<u8>,
}

impl View for BinRast {
    type V = Seq<u8>;

    closed spec fn view(&self) -> Seq<u8> {
        self.layers@
    }
}

/// The last of the first `h` rows of a copy (rows of `w` pixels, `stride`
/// bytes apart) that covers byte `i`; -1 if none does.
pub open spec fn copy_row(stride: int, w: int, h: int, i: int) -> int
    decreases h,
{
    if h <= 0 {
        -1
    } else if stride * (h - 1) <= i < stride * (h - 1) + 4 * w {
        h - 1
    } else {
        copy_row(stride, w, h - 1, i)
    }
}

/// Byte `i` of a buffer that held `old` after `h` rows of layer 0 of `src`
/// were copied into it, the last row that covers it winning.
pub open spec fn copied_byte(src: Seq<u8>, old: Seq<u8>, stride: int, w: int, h: int, i: int) -> u8 {
    let y = copy_row(stride, w, h, i);
    if y < 0 {
        old[i]
    } else {
        let d = i - stride * y;
        src[chan_index(0, d % 4, y * 16 + d / 4)]
    }
}

/// Where `copy_to` puts channel `c` of pixel `(x, y)`.
pub open spec fn copy_target(stride: int, x: int, y: int, c: int) -> int {
    stride * y + 4 * x + c
}

impl BinRast {
    /// The buffers hold `LAYERS_LEN` bytes.
    pub closed spec fn wf(&self) -> bool {
        self.layers.len() == LAYERS_LEN
    }

    /// A working area with every layer cleared.
    pub fn new() -> (r: Self)
        ensures
            r.wf(),
            r@ == Seq::new(LAYERS_LEN as nat, |i: int| 0u8),
    {
        let mut layers: Vec<u8> = Vec::new();
        let mut i: usize = 0;
        while i < LAYERS_LEN
            invariant
                i <= LAYERS_LEN,
                layers@ == Seq::new(i as nat, |k: int| 0u8),
            decreases LAYERS_LEN - i,
        {
            layers.push(0);
            i += 1;
        }
        BinRast { layers }
    }

    /// Copy the result image (of size `TILE`²) to a supplied image buffer.
    ///
    /// For each `(x, y)` in range `0 ≤ x < clip_width` and
    /// `0 ≤ y < clip_height`, the corresponding pixel of layer 0 is copied to
    /// `to[y * stride + x * 4..][0..4]`. The rows are written in order, so
    /// where rows overlap (`stride < clip_width * 4`), a byte holds what the
    /// last row that covers it wrote.
    pub fn copy_to(&self, to: &mut [u8], stride: usize, clip_width: usize, clip_height: usize)
        requires
            self.wf(),
            clip_width <= TILE,
            clip_height <= TILE,
            clip_height > 0 ==> stride * (clip_height - 1) + clip_width * 4 <= old(to)@.len(),
        ensures
            final(to)@.len() == old(to)@.len(),
            forall|i: int|
                0 <= i < old(to)@.len() ==> #[trigger] final(to)@[i] == copied_byte(
                    self@,
                    old(to)@,
                    stride as int,
                    clip_width as int,
                    clip_height as int,
                    i,
                ),
            forall|x: int, y: int, c: int|
                0 <= x < clip_width && 0 <= y < clip_height && 0 <= c < 4 && (clip_width * 4
                    <= stride || y == clip_height - 1) ==> #[trigger] final(to)@[copy_target(
                    stride as int,
                    x,
                    y,
                    c,
                )] == self@[chan_index(0, c, y * 16 + x)],
    {
        let ghost old_to = to@;
        let total = to.len();
        let mut y: usize = 0;
        while y < clip_height
            invariant
                self.wf(),
                old_to.len() == total,
                y <= clip_height,
                clip_width <= TILE,
                clip_height <= TILE,
                clip_height > 0 ==> stride * (clip_height - 1) + clip_width * 4 <= old_to.len(),
                to@.len() == old_to.len(),
                forall|i: int|
                    0 <= i < old_to.len() ==> #[trigger] to@[i] == copied_byte(
                        self@,
                        old_to,
                        stride as int,
                        clip_width as int,
                        y as int,
                        i,
                    ),
            decreases clip_height - y,
        {
            proof {
                assert(stride * y <= stride * (clip_height - 1)) by (nonlinear_arith)
                    requires
                        y < clip_height,
                ;
            }
            let row = stride * y;
            let n = clip_width * 4;
            let mut k: usize = 0;
            while k < n
                invariant
                    self.wf(),
                    y < clip_height,
                    clip_height <= TILE,
                    k <= n,
                    n == clip_width * 4,
                    clip_width <= TILE,
                    row == stride * y,
                    row + n <= old_to.len(),
                    old_to.len() == total,
                    to@.len() == old_to.len(),
                    forall|i: int|
                        0 <= i < old_to.len() ==> #[trigger] to@[i] == if row <= i < row + k {
                            self@[chan_index(0, (i - row) % 4, y * 16 + (i - row) / 4)]
                        } else {
                            copied_byte(self@, old_to, stride as int, clip_width as int, y as int, i)
                        },
                decreases n - k,
            {
                let v = self.layers[(k % 4) * 256 + y * TILE + k / 4];
                to[row + k] = v;
                k += 1;
            }
            proof {
                assert forall|i: int| 0 <= i < old_to.len() implies #[trigger] to@[i] == copied_byte(
                    self@,
                    old_to,
                    stride as int,
                    clip_width as int,
                    (y + 1) as int,
                    i,
                ) by {
                    assert(copy_row(stride as int, clip_width as int, (y + 1) as int, i) == if row
                        <= i < row + n {
                        y as int
                    } else {
                        copy_row(stride as int, clip_width as int, y as int, i)
                    });
                }
            }
            y += 1;
        }
        proof {
            assert forall|x: int, yy: int, c: int|
                0 <= x < clip_width && 0 <= yy < clip_height && 0 <= c < 4 && (clip_width * 4
                    <= stride || yy == clip_height - 1) implies #[trigger] to@[copy_target(
                stride as int,
                x,
                yy,
                c,
            )] == self@[chan_index(0, c, yy * 16 + x)] by {
                lemma_copy_row_pixel(stride as int, clip_width as int, clip_height as int, x, yy, c);
                lemma_target_bound(stride as int, clip_width as int, clip_height as int, x, yy, c);
            }
        }
    }

    /// Copy the result image to `to[offset..]`: pixel `(x, y)` of layer 0
    /// goes to `to[offset + y * stride + x * 4..][0..4]`.
    pub(crate) fn copy_region(&self, to: &mut [u8], offset: usize, stride: usize, clip_width: usize, clip_height: usize)
        requires
            self.wf(),
            clip_width <= TILE,
            clip_height <= TILE,
            clip_height > 0 ==> offset + stride * (clip_height - 1) + clip_width * 4 <= old(to)@.len(),
            clip_height > 1 ==> clip_width * 4 <= stride,
        ensures
            final(to)@.len() == old(to)@.len(),
            forall|x: int, y: int, c: int|
                0 <= x < clip_width && 0 <= y < clip_height && 0 <= c < 4 ==> #[trigger] final(to)@[offset + copy_target(stride as int, x, y, c)]
                    == self@[chan_index(0, c, y * 16 + x)],
            forall|i: int|
                0 <= i < old(to)@.len() && !(exists|x: int, y: int, c: int|
                    0 <= x < clip_width && 0 <= y < clip_height && 0 <= c < 4 && i == offset + copy_target(
                        stride as int,
                        x,
                        y,
                        c,
                    )) ==> #[trigger] final(to)@[i] == old(to)@[i],
    {
        let ghost old_to = to@;
        let total = to.len();
        let mut y: usize = 0;
        while y < clip_height
            invariant
                self.wf(),
                y <= clip_height,
                clip_width <= TILE,
                clip_height <= TILE,
                clip_height > 0 ==> offset + stride * (clip_height - 1) + clip_width * 4 <= old_to.len(),
                clip_height > 1 ==> clip_width * 4 <= stride,
                old_to.len() == total,
                to@.len() == old_to.len(),
                forall|xx: int, yy: int, c: int|
                    0 <= xx < clip_width && 0 <= yy < y && 0 <= c < 4 ==> #[trigger] to@[offset + copy_target(stride as int, xx, yy, c)]
                        == self@[chan_index(0, c, yy * 16 + xx)],
                forall|i: int|
                    0 <= i < old_to.len() && !(exists|xx: int, yy: int, c: int|
                        0 <= xx < clip_width && 0 <= yy < y && 0 <= c < 4 && i == offset + copy_target(
                            stride as int,
                            xx,
                            yy,
                            c,
                        )) ==> #[trigger] to@[i] == old_to[i],
            decreases clip_height - y,
        {
            proof {
                assert(stride * y <= stride * (clip_height - 1)) by (nonlinear_arith)
                    requires
                        y < clip_height,
                ;
            }
            let row = stride * y;
            let mut x: usize = 0;
            while x < clip_width
                invariant
                    self.wf(),
                    y < clip_height,
                    x <= clip_width,
                    clip_width <= TILE,
                    clip_height <= TILE,
                    row == stride * y,
                    offset + row + clip_width * 4 <= old_to.len(),
                    old_to.len() == total,
                    offset + stride * (clip_height - 1) + clip_width * 4 <= old_to.len(),
                    clip_height > 1 ==> clip_width * 4 <= stride,
                    to@.len() == old_to.len(),
                    forall|xx: int, yy: int, c: int|
                        0 <= xx < clip_width && 0 <= yy < y && 0 <= c < 4 ==> #[trigger] to@[offset + copy_target(stride as int, xx, yy, c)]
                            == self@[chan_index(0, c, yy * 16 + xx)],
                    forall|xx: int, c: int|
                        0 <= xx < x && 0 <= c < 4 ==> #[trigger] to@[offset + copy_target(stride as int, xx, y as int, c)]
                            == self@[chan_index(0, c, y * 16 + xx)],
                    forall|i: int|
                        0 <= i < old_to.len() && !(exists|xx: int, yy: int, c: int|
                            0 <= xx < clip_width && 0 <= yy < y && 0 <= c < 4 && i == offset + copy_target(
                                stride as int,
                                xx,
                                yy,
                                c,
                            )) && !(exists|xx: int, c: int| 0 <= xx < x && 0 <= c < 4 && i == offset + copy_target(
                                stride as int,
                                xx,
                                y as int,
                                c,
                            )) ==> #[trigger] to@[i] == old_to[i],
                decreases clip_width - x,
            {
                let src = y * TILE + x;
                let mut c: usize = 0;
                while c < 4
                    invariant
                        self.wf(),
                        y < clip_height,
                        x < clip_width,
                        c <= 4,
                        clip_width <= TILE,
                        clip_height <= TILE,
                        row == stride * y,
                        src == y * 16 + x,
                        offset + row + clip_width * 4 <= old_to.len(),
                        old_to.len() == total,
                        offset + stride * (clip_height - 1) + clip_width * 4 <= old_to.len(),
                        clip_height > 1 ==> clip_width * 4 <= stride,
                        to@.len() == old_to.len(),
                        forall|xx: int, yy: int, cc: int|
                            0 <= xx < clip_width && 0 <= yy < y && 0 <= cc < 4 ==> #[trigger] to@[offset + copy_target(stride as int, xx, yy, cc)]
                                == self@[chan_index(0, cc, yy * 16 + xx)],
                        forall|xx: int, cc: int|
                            0 <= xx < x && 0 <= cc < 4 ==> #[trigger] to@[offset + copy_target(stride as int, xx, y as int, cc)]
                                == self@[chan_index(0, cc, y * 16 + xx)],
                        forall|cc: int|
                            0 <= cc < c ==> #[trigger] to@[offset + copy_target(stride as int, x as int, y as int, cc)]
                                == self@[chan_index(0, cc, y * 16 + x)],
                        forall|i: int|
                            0 <= i < old_to.len() && !(exists|xx: int, yy: int, cc: int|
                                0 <= xx < clip_width && 0 <= yy < y && 0 <= cc < 4 && i == offset + copy_target(
                                    stride as int,
                                    xx,
                                    yy,
                                    cc,
                                )) && !(exists|xx: int, cc: int| 0 <= xx < x && 0 <= cc < 4 && i == offset + copy_target(
                                    stride as int,
                                    xx,
                                    y as int,
                                    cc,
                                )) && !(exists|cc: int| 0 <= cc < c && i == offset + copy_target(
                                    stride as int,
                                    x as int,
                                    y as int,
                                    cc,
                                )) ==> #[trigger] to@[i] == old_to[i],
                    decreases 4 - c,
                {
                    let v = self.layers[c * 256 + src];
                    let ghost before = to@;
                    let t = offset + row + x * 4 + c;
                    to[t] = v;
                    proof {
                        assert(t == offset + copy_target(stride as int, x as int, y as int, c as int));
                        assert(to@ == before.update(t as int, v));
                        assert forall|xx: int, yy: int, cc: int|
                            0 <= xx < clip_width && 0 <= yy < y && 0 <= cc < 4 implies #[trigger] to@[offset + copy_target(stride as int, xx, yy, cc)]
                                == self@[chan_index(0, cc, yy * 16 + xx)] by {
                            lemma_targets_distinct(stride as int, clip_width as int, clip_height as int, xx, yy, cc, x as int, y as int, c as int);
                            lemma_target_bound(stride as int, clip_width as int, clip_height as int, xx, yy, cc);
                            assert(before[offset + copy_target(stride as int, xx, yy, cc)] == self@[chan_index(0, cc, yy * 16 + xx)]);
                        }
                        assert forall|xx: int, cc: int|
                            0 <= xx < x && 0 <= cc < 4 implies #[trigger] to@[offset + copy_target(stride as int, xx, y as int, cc)]
                                == self@[chan_index(0, cc, y * 16 + xx)] by {
                            lemma_targets_distinct(stride as int, clip_width as int, clip_height as int, xx, y as int, cc, x as int, y as int, c as int);
                            lemma_target_bound(stride as int, clip_width as int, clip_height as int, xx, y as int, cc);
                            assert(before[offset + copy_target(stride as int, xx, y as int, cc)] == self@[chan_index(0, cc, y * 16 + xx)]);
                        }
                        assert forall|i: int|
                            0 <= i < old_to.len() && !(exists|xx: int, yy: int, cc: int|
                                0 <= xx < clip_width && 0 <= yy < y && 0 <= cc < 4 && i == offset + copy_target(
                                    stride as int,
                                    xx,
                                    yy,
                                    cc,
                                )) && !(exists|xx: int, cc: int| 0 <= xx < x && 0 <= cc < 4 && i == offset + copy_target(
                                    stride as int,
                                    xx,
                                    y as int,
                                    cc,
                                )) && !(exists|cc: int| 0 <= cc < c + 1 && i == offset + copy_target(
                                    stride as int,
                                    x as int,
                                    y as int,
                                    cc,
                                )) implies #[trigger] to@[i] == old_to[i] by {
                            if i == t {
                                assert(exists|cc: int| 0 <= cc < c + 1 && i == offset + copy_target(
                                    stride as int,
                                    x as int,
                                    y as int,
                                    cc,
                                ));
                            }
                        }
                    }
                    c += 1;
                }
                let ghost xi = x as int;
                let ghost yi = y as int;
                let ghost si = stride as int;
                x += 1;
                proof {
                    assert forall|i: int|
                        0 <= i < old_to.len() && !(exists|xx: int, yy: int, cc: int|
                            0 <= xx < clip_width && 0 <= yy < y && 0 <= cc < 4 && i == offset + copy_target(
                                stride as int,
                                xx,
                                yy,
                                cc,
                            )) && !(exists|xx: int, cc: int| 0 <= xx < x && 0 <= cc < 4 && i == offset + copy_target(
                                stride as int,
                                xx,
                                y as int,
                                cc,
                            )) implies #[trigger] to@[i] == old_to[i] by {
                        if exists|cc: int| 0 <= cc < 4 && i == offset + #[trigger] copy_target(si, xi, yi, cc) {
                            let cc = choose|cc: int| 0 <= cc < 4 && i == offset + #[trigger] copy_target(si, xi, yi, cc);
                            assert(exists|xx: int, cc2: int| 0 <= xx < x && 0 <= cc2 < 4 && i == offset + copy_target(
                                stride as int,
                                xx,
                                y as int,
                                cc2,
                            ));
                        }
                    }
                }
            }
            let ghost yi = y as int;
            let ghost si = stride as int;
            y += 1;
            proof {
                assert forall|i: int|
                    0 <= i < old_to.len() && !(exists|xx: int, yy: int, cc: int|
                        0 <= xx < clip_width && 0 <= yy < y && 0 <= cc < 4 && i == offset + copy_target(
                            stride as int,
                            xx,
                            yy,
                            cc,
                        )) implies #[trigger] to@[i] == old_to[i] by {
                    if exists|xx: int, cc: int| 0 <= xx < clip_width && 0 <= cc < 4 && i == offset + #[trigger] copy_target(
                        si,
                        xx,
                        yi,
                        cc,
                    ) {
                        let (xx, cc) = choose|xx: int, cc: int| 0 <= xx < clip_width && 0 <= cc < 4 && i == offset + #[trigger] copy_target(
                            si,
                            xx,
                            yi,
                            cc,
                        );
                        assert(exists|x2: int, y2: int, c2: int|
                            0 <= x2 < clip_width && 0 <= y2 < y && 0 <= c2 < 4 && i == offset + copy_target(
                                stride as int,
                                x2,
                                y2,
                                c2,
                            ));
                    }
                }
            }
        }
    }
}

/// Where rows do not overlap, or for the last row, a pixel's channel lands
/// in the row that holds it.
pub proof fn lemma_copy_row_pixel(stride: int, w: int, h: int, x: int, y: int, c: int)
    requires
        0 <= x < w,
        0 <= y < h,
        0 <= c < 4,
        stride >= 0,
        w * 4 <= stride || y == h - 1,
    ensures
        copy_row(stride, w, h, copy_target(stride, x, y, c)) == y,
        ({
            let d = copy_target(stride, x, y, c) - stride * y;
            d % 4 == c && d / 4 == x
        }),
    decreases h,
{
    let i = copy_target(stride, x, y, c);
    assert((4 * x + c) % 4 == c && (4 * x + c) / 4 == x) by (nonlinear_arith)
        requires
            0 <= c < 4,
    ;
    if y < h - 1 {
        assert(stride * y + 4 * w <= stride * (h - 1)) by (nonlinear_arith)
            requires
                w * 4 <= stride,
                y < h - 1,
                stride >= 0,
        ;
        lemma_copy_row_pixel(stride, w, h - 1, x, y, c);
    }
}

/// Every byte that a copy writes lies below `stride * (h - 1) + w * 4`.
pub(crate) proof fn lemma_target_bound(stride: int, w: int, h: int, x: int, y: int, c: int)
    requires
        0 <= x < w,
        0 <= y < h,
        0 <= c < 4,
        stride >= 0,
    ensures
        0 <= copy_target(stride, x, y, c) < stride * (h - 1) + w * 4,
{
    assert(0 <= stride * y <= stride * (h - 1)) by (nonlinear_arith)
        requires
            0 <= y < h,
            stride >= 0,
    ;
}

/// Different pixels and channels of a copy land on different bytes.
pub(crate) proof fn lemma_targets_distinct(stride: int, w: int, h: int, x1: int, y1: int, c1: int, x2: int, y2: int, c2: int)
    requires
        0 <= x1 < w,
        0 <= x2 < w,
        0 <= y1 < h,
        0 <= y2 < h,
        0 <= c1 < 4,
        0 <= c2 < 4,
        h > 1 ==> w * 4 <= stride,
        stride >= 0,
        (x1, y1, c1) != (x2, y2, c2),
    ensures
        copy_target(stride, x1, y1, c1) != copy_target(stride, x2, y2, c2),
{
    if y1 == y2 {
    } else {
        assert(stride * y1 + 4 * x1 + c1 != stride * y2 + 4 * x2 + c2) by (nonlinear_arith)
            requires
                0 <= x1 < w,
                0 <= x2 < w,
                0 <= c1 < 4,
                0 <= c2 < 4,
                w * 4 <= stride,
                y1 != y2,
                y1 >= 0,
                y2 >= 0,
        ;
    }
}

// ----------------------------------------------------------------------------
// Pixel arithmetic

/// Integrate `step(x)` over `x..x + CLIP_SUB`.
pub open spec fn istep(x: int) -> int {
    vstd::math::max(x + 256, 0) - vstd::math::max(x, 0)
}

/// Integrate `step(x)` over `x..x + CLIP_SUB`.
pub fn integrate_step(x: i32) -> (r: i32)
    requires
        x <= i32::MAX - CLIP_SUB,
    ensures
        r == istep(x as int),
        0 <= r <= 256,
{
    let a = if x + CLIP_SUB > 0 {
        x + CLIP_SUB
    } else {
        0
    };
    let b = if x > 0 {
        x
    } else {
        0
    };
    a - b
}

/// Linear interpolation between two channel values with a weight in
/// `1 / UV_SUB` units, rounded to the nearest.
pub open spec fn lerp(a: int, b: int, f: int) -> int {
    (a * (65536 - f) + b * f + 32768) / 65536
}

proof fn lemma_lerp_bound(a: int, b: int, f: int)
    requires
        0 <= a <= 255,
        0 <= b <= 255,
        0 <= f < 65536,
    ensures
        0 <= lerp(a, b, f) <= 255,
        0 <= a * (65536 - f) + b * f + 32768 <= 255 * 65536 + 32768,
{
    assert(0 <= a * (65536 - f) + b * f <= 255 * 65536) by (nonlinear_arith)
        requires
            0 <= a <= 255,
            0 <= b <= 255,
            0 <= f < 65536,
    ;
}

/// Interpolate each channel of two colors.
fn lerp_color(a: [u32; 4], b: [u32; 4], f: u32) -> (r: [u32; 4])
    requires
        forall|k: int| 0 <= k < 4 ==> a[k] <= 255 && b[k] <= 255,
        f < 65536,
    ensures
        forall|k: int| 0 <= k < 4 ==> r[k] == lerp(a[k] as int, b[k] as int, f as int) && r[k] <= 255,
{
    let mut r: [u32; 4] = [0; 4];
    let mut k: usize = 0;
    while k < 4
        invariant
            k <= 4,
            forall|j: int| 0 <= j < 4 ==> a[j] <= 255 && b[j] <= 255,
            f < 65536,
            forall|j: int| 0 <= j < k ==> r[j] == lerp(a[j] as int, b[j] as int, f as int) && r[j] <= 255,
        decreases 4 - k,
    {
        proof {
            lemma_lerp_bound(a[k as int] as int, b[k as int] as int, f as int);
        }
        r[k] = (a[k] * (UV_SUB as u32 - f) + b[k] * f + UV_SUB as u32 / 2) / UV_SUB as u32;
        k += 1;
    }
    r
}

/// `min(max(v, 0), n - 1)`.
pub open spec fn clamp_index(v: int, n: int) -> int {
    if v < 0 {
        0
    } else if v > n - 1 {
        n - 1
    } else {
        v
    }
}

/// Channel `k` of the pixel `(x, y)` of a bitmap whose rows are `stride`
/// pixels apart.
pub open spec fn texel(data: Seq<[u8; 4]>, stride: int, x: int, y: int, k: int) -> int {
    data[x + y * stride][k] as int
}

/// Channel `k` of the bilinear sample of a bitmap at `uv` (in `1 / UV_SUB`
/// pixel units, clamped to the edges).
pub open spec fn sample_chan(data: Seq<[u8; 4]>, size: [usize; 2], stride: int, uv: [i32; 2], k: int) -> int {
    let fx = (uv[0] as int) / 65536;
    let fy = (uv[1] as int) / 65536;
    let rx = (uv[0] as int) % 65536;
    let ry = (uv[1] as int) % 65536;
    let x1 = clamp_index(fx, size[0] as int);
    let x2 = clamp_index(fx + 1, size[0] as int);
    let y1 = clamp_index(fy, size[1] as int);
    let y2 = clamp_index(fy + 1, size[1] as int);
    lerp(
        lerp(texel(data, stride, x1, y1, k), texel(data, stride, x2, y1, k), rx),
        lerp(texel(data, stride, x1, y2, k), texel(data, stride, x2, y2, k), rx),
        ry,
    )
}

/// The bitmap parameters fit the pixel data.
pub open spec fn bitmap_ok(len: int, size: [usize; 2], stride: int) -> bool {
    &&& 1 <= size[0] <= i32::MAX
    &&& 1 <= size[1] <= i32::MAX
    &&& stride >= 0
    &&& (size[0] - 1) + (size[1] - 1) * stride < len
}

/// Split `x` into `x >> 16` and `x & 0xffff`: floor division and remainder.
proof fn lemma_shr16(x: i32)
    ensures
        (x >> 16u32) as int == (x as int) / 65536,
        (x & 0xffffi32) as int == (x as int) % 65536,
        -32768 <= (x >> 16u32) <= 32767,
{
    let q = x >> 16u32;
    let r = x & 0xffffi32;
    assert(q * 65536 + r == x && 0 <= r < 65536 && -32768 <= q <= 32767) by (bit_vector)
        requires
            q == x >> 16u32,
            r == x & 0xffffi32,
    ;
    assert(q as int == (x as int) / 65536 && r as int == (x as int) % 65536) by (nonlinear_arith)
        requires
            q * 65536 + r == x,
            0 <= r < 65536,
    ;
}

/// Sample a bitmap at `uv` with bilinear filtering.
pub fn sample_bilinear(data: &[[u8; 4]], size: [usize; 2], stride: usize, uv: [i32; 2]) -> (r: [u32; 4])
    requires
        bitmap_ok(data@.len() as int, size, stride as int),
    ensures
        forall|k: int| 0 <= k < 4 ==> r[k] == sample_chan(data@, size, stride as int, uv, k) && r[k] <= 255,
{
    proof {
        lemma_shr16(uv[0]);
        lemma_shr16(uv[1]);
    }
    let fx1 = uv[0] >> UV_SUB_SHIFT;
    let fy1 = uv[1] >> UV_SUB_SHIFT;
    let fx2 = fx1 + 1;
    let fy2 = fy1 + 1;
    let w = size[0] as i32 - 1;
    let h = size[1] as i32 - 1;
    let x1 = (if fx1 < 0 { 0 } else if fx1 > w { w } else { fx1 }) as usize;
    let x2 = (if fx2 < 0 { 0 } else if fx2 > w { w } else { fx2 }) as usize;
    let y1 = (if fy1 < 0 { 0 } else if fy1 > h { h } else { fy1 }) as usize;
    let y2 = (if fy2 < 0 { 0 } else if fy2 > h { h } else { fy2 }) as usize;
    proof {
        assert(y1 * stride <= (size[1] - 1) * stride) by (nonlinear_arith)
            requires
                y1 <= size[1] - 1,
        ;
        assert(y2 * stride <= (size[1] - 1) * stride) by (nonlinear_arith)
            requires
                y2 <= size[1] - 1,
        ;
    }
    let p0 = get_texel(data, stride, x1, y1);
    let p1 = get_texel(data, stride, x2, y1);
    let p2 = get_texel(data, stride, x1, y2);
    let p3 = get_texel(data, stride, x2, y2);
    let rx = (uv[0] & (UV_SUB - 1)) as u32;
    let ry = (uv[1] & (UV_SUB - 1)) as u32;
    let top = lerp_color(p0, p1, rx);
    let bottom = lerp_color(p2, p3, rx);
    lerp_color(top, bottom, ry)
}

/// The channels of pixel `(x, y)`.
fn get_texel(data: &[[u8; 4]], stride: usize, x: usize, y: usize) -> (r: [u32; 4])
    requires
        x + y * stride < data@.len(),
    ensures
        forall|k: int| 0 <= k < 4 ==> r[k] == texel(data@, stride as int, x as int, y as int, k) && r[k] <= 255,
{
    proof {
        assert(0 <= y * stride <= x + y * stride) by (nonlinear_arith)
            requires
                x >= 0,
                y >= 0,
                stride >= 0,
        ;
    }
    let n = data.len();
    assert(x + y * stride < n);
    let p = data[x + y * stride];
    [p[0] as u32, p[1] as u32, p[2] as u32, p[3] as u32]
}

// ----------------------------------------------------------------------------
// Element rasterization

/// The pixels of a byte buffer, four bytes each.
pub open spec fn pixels_of(bytes: Seq<u8>) -> Seq<[u8; 4]> {
    Seq::new(
        (bytes.len() / 4) as nat,
        |i: int| [bytes[4 * i], bytes[4 * i + 1], bytes[4 * i + 2], bytes[4 * i + 3]],
    )
}

/// Calls zerocopy's `LayoutVerified::new_slice_unaligned` followed by
/// `into_slice`, which reinterpret the bytes as pixels of four bytes: `None`
/// unless the length is a multiple of four.
#[verifier::external_body]
fn bytes_as_pixels(bytes: &[u8]) -> (r: Option<&[[u8; 4]]>)
    ensures
        r is Some == (bytes@.len() % 4 == 0),
        r matches Some(p) ==> p@ == pixels_of(bytes@),
{
    match LayoutVerified::<&[u8], [[u8; 4]]>::new_slice_unaligned(bytes) {
        Some(lv) => Some(lv.into_slice()),
        None => None,
    }
}

/// The point `(x, y)` lies in the scissor rectangle.
pub open spec fn in_scissor(sci: super::bin::Box2U16, x: int, y: int) -> bool {
    sci.min[0] <= x < sci.max[0] && sci.min[1] <= y < sci.max[1]
}

/// `n · (x, y)` for a clip plane.
pub open spec fn plane_dot(cp: ClipPlanes, x: int, y: int) -> int {
    cp.n[0] * x + cp.n[1] * y
}

/// The antialiased coverage of a clip plane pair, in `0..=256`.
pub open spec fn plane_coverage(cp: ClipPlanes, x: int, y: int) -> int {
    let cv = plane_dot(cp, x, y);
    istep(cv - cp.d.start) - istep(cv - cp.d.end)
}

/// `d.contains(n · (x, y))`.
pub open spec fn plane_contains(cp: ClipPlanes, x: int, y: int) -> bool {
    cp.d.start <= plane_dot(cp, x, y) < cp.d.end
}

/// The mask value of an element at the pixel `(x, y)`, in `0..=256`.
pub open spec fn mask_at<TBmp>(elem: Elem<TBmp>, x: int, y: int) -> int {
    if elem.flags.0 & ELEM_CLIP_PLANES != 0 {
        let m = if elem.flags.0 & ELEM_CLIP_PLANES_ANTIALIASED != 0 {
            (plane_coverage(elem.clip_planes[0], x, y) * plane_coverage(elem.clip_planes[1], x, y))
                / 256
        } else if plane_contains(elem.clip_planes[0], x, y) && plane_contains(
            elem.clip_planes[1],
            x,
            y,
        ) {
            256
        } else {
            0
        };
        (m * elem.opacity) / 256
    } else {
        elem.opacity as int
    }
}

/// Component `a` of the bitmap coordinates (in `1 / UV_SUB` units) of the
/// pixel `(x, y)`.
pub open spec fn uv_at(
    uv_origin: [i32; 2],
    duv_dx: [i32; 2],
    duv_dy: [i32; 2],
    sci: super::bin::Box2U16,
    x: int,
    y: int,
    a: int,
) -> int {
    uv_origin[a] + duv_dx[a] * (x - sci.min[0]) + duv_dy[a] * (y - sci.min[1])
}

/// Channel `k` of the content color of an element at the pixel `(x, y)`,
/// which is pixel `pix` of its bin; `layers` holds the layer buffers.
pub open spec fn color_at<TBmp: Bmp>(elem: Elem<TBmp>, layers: Seq<u8>, pix: int, x: int, y: int, k: int) -> int {
    match elem.content {
        Content::Solid(c) => if k == 3 {
            255
        } else {
            c[k] as int
        },
        Content::Bmp { bmp, uv_origin, duv_dx, duv_dy } => sample_chan(
            pixels_of(bmp.spec_data()),
            bmp.spec_size(),
            (bmp.spec_stride() / 4) as int,
            [
                uv_at(uv_origin, duv_dx, duv_dy, elem.scissor, x, y, 0) as i32,
                uv_at(uv_origin, duv_dx, duv_dy, elem.scissor, x, y, 1) as i32,
            ],
            k,
        ),
        Content::Layer(src) => layers[chan_index(src as int, k, pix)] as int,
    }
}

/// Blend a premultiplied color, scaled by `mask`, over the destination value
/// `d` of one channel.
pub open spec fn blend(d: int, ck: int, c3: int, mask: int) -> int {
    let cm = (ck * mask) / 256;
    let am = (c3 * mask) / 256;
    let alpha = am + am / 128;
    vstd::math::min(cm + (d * (256 - alpha)) / 256, 255)
}

/// The layer that a compositing element reads (and clears); `-1` for other
/// contents.
pub open spec fn src_layer<TBmp>(elem: Elem<TBmp>) -> int {
    match elem.content {
        Content::Layer(src) => src as int,
        _ => -1,
    }
}

/// The layer buffers after drawing `elem` into layer `layer` of the bin
/// `bin`. Inside the scissor rectangle, the content is blended over layer
/// `layer`, and a source layer that the element composites is cleared.
pub open spec fn rasterized<TBmp: Bmp>(old: Seq<u8>, bin: [usize; 2], elem: Elem<TBmp>, layer: int) -> Seq<u8> {
    Seq::new(
        old.len(),
        |idx: int|
            {
                let pix = idx % 256;
                let k = (idx % 1024) / 256;
                let x = bin[0] * 16 + pix % 16;
                let y = bin[1] * 16 + pix / 16;
                if idx / 1024 == layer && in_scissor(elem.scissor, x, y) {
                    blend(
                        old[idx] as int,
                        color_at(elem, old, pix, x, y, k),
                        color_at(elem, old, pix, x, y, 3),
                        mask_at(elem, x, y),
                    ) as u8
                } else if idx / 1024 == src_layer(elem) && in_scissor(elem.scissor, x, y) {
                    0u8
                } else {
                    old[idx]
                }
            },
    )
}

/// The element can be drawn into layer `layer` of the bin `bin`: its scissor
/// rectangle is ordered and meets the bin, its opacity is in `0..=256`, its
/// clip planes and bitmap coordinates stay in range, a bitmap fits its
/// parameters, and a source layer lies above `layer`.
pub open spec fn elem_ok<TBmp: Bmp>(elem: Elem<TBmp>, bin: [usize; 2], layer: int) -> bool {
    let sci = elem.scissor;
    &&& 0 <= layer < NUM_LAYERS
    &&& bin[0] < 4096 && bin[1] < 4096
    &&& sci.min[0] <= sci.max[0] && sci.min[1] <= sci.max[1]
    &&& sci.min[0] <= bin[0] * 16 + 16 && bin[0] * 16 <= sci.max[0]
    &&& sci.min[1] <= bin[1] * 16 + 16 && bin[1] * 16 <= sci.max[1]
    &&& elem.opacity <= 256
    &&& elem.flags.0 & ELEM_CLIP_PLANES != 0 ==> forall|p: int|
        0 <= p < 2 ==> -4096 <= #[trigger] elem.clip_planes[p].n[0] <= 4096 && -4096
            <= elem.clip_planes[p].n[1] <= 4096
    &&& elem.flags.0 & ELEM_CLIP_PLANES != 0 ==> forall|p: int|
        0 <= p < 2 ==> -0x2000_0000 <= #[trigger] elem.clip_planes[p].d.start
            <= elem.clip_planes[p].d.end <= 0x2000_0000
    &&& match elem.content {
        Content::Solid(_) => true,
        Content::Bmp { bmp, uv_origin, duv_dx, duv_dy } => {
            &&& bmp.spec_data().len() % 4 == 0
            &&& bitmap_ok((bmp.spec_data().len() / 4) as int, bmp.spec_size(), (bmp.spec_stride() / 4) as int)
            &&& forall|a: int|
                0 <= a < 2 ==> super::bin::abs(#[trigger] uv_origin[a] as int) + super::bin::abs(
                    duv_dx[a] as int,
                ) * (sci.max[0] - sci.min[0]) + super::bin::abs(duv_dy[a] as int) * (sci.max[1]
                    - sci.min[1]) <= i32::MAX
        },
        Content::Layer(src) => layer < src < NUM_LAYERS,
    }
}

/// The content of an element, prepared for drawing.
enum RastContent<'a> {
    Solid([u8; 4]),
    Bmp { data: &'a [[u8; 4]], size: [usize; 2], stride: usize },
    Layer(usize),
}

/// The prepared content matches the element's content.
spec fn rast_content_ok<TBmp: Bmp>(cont: RastContent, elem: Elem<TBmp>) -> bool {
    match (cont, elem.content) {
        (RastContent::Solid(a), Content::Solid(b)) => a == b,
        (RastContent::Bmp { data, size, stride }, Content::Bmp { bmp, .. }) => {
            &&& data@ == pixels_of(bmp.spec_data())
            &&& size == bmp.spec_size()
            &&& stride == bmp.spec_stride() / 4
        },
        (RastContent::Layer(a), Content::Layer(b)) => a == b,
        _ => false,
    }
}

/// The sums and products of the bitmap coordinate arithmetic stay within
/// the bound of their terms' magnitudes.
proof fn lemma_uv_terms(o: int, dx: int, dy: int, w: int, h: int, a: int, b: int, m: int)
    requires
        0 <= a <= w,
        0 <= b <= h,
        super::bin::abs(o) + super::bin::abs(dx) * w + super::bin::abs(dy) * h <= m,
    ensures
        -m <= dx * a <= m,
        -m <= dy * b <= m,
        -m <= o + dx * a <= m,
        -m <= o + dy * b <= m,
        -m <= o + dx * a + dy * b <= m,
{
    let adx = super::bin::abs(dx);
    let ady = super::bin::abs(dy);
    assert(-(adx * a) <= dx * a <= adx * a && adx * a <= adx * w) by (nonlinear_arith)
        requires
            adx == super::bin::abs(dx),
            0 <= a <= w,
    ;
    assert(-(ady * b) <= dy * b <= ady * b && ady * b <= ady * h) by (nonlinear_arith)
        requires
            ady == super::bin::abs(dy),
            0 <= b <= h,
    ;
}

impl BinRast {
    /// The new values of the four channels of the pixel `(lx, ly)` of the
    /// bin when `elem` is drawn over it.
    fn shade_pixel<TBmp: Bmp>(
        &self,
        elem: &Elem<TBmp>,
        cont: &RastContent,
        uv_base: [i32; 2],
        bin_index: [usize; 2],
        layer: usize,
        lx: usize,
        ly: usize,
        l0: usize,
        l1: usize,
    ) -> (r: [u8; 4])
        requires
            self.wf(),
            elem_ok(*elem, bin_index, layer as int),
            rast_content_ok(*cont, *elem),
            lx < 16,
            ly < 16,
            l0 <= lx,
            l1 <= ly,
            in_scissor(elem.scissor, bin_index[0] * 16 + lx, bin_index[1] * 16 + ly),
            bin_index[0] * 16 + l0 >= elem.scissor.min[0],
            bin_index[1] * 16 + l1 >= elem.scissor.min[1],
            elem.content matches Content::Bmp { uv_origin, duv_dx, duv_dy, .. } ==> forall|a: int|
                0 <= a < 2 ==> #[trigger] uv_base[a] == uv_at(
                    uv_origin,
                    duv_dx,
                    duv_dy,
                    elem.scissor,
                    bin_index[0] * 16 + l0,
                    bin_index[1] * 16 + l1,
                    a,
                ),
        ensures
            forall|k: int|
                0 <= k < 4 ==> {
                    let pix = ly * 16 + lx;
                    let x = bin_index[0] * 16 + lx;
                    let y = bin_index[1] * 16 + ly;
                    #[trigger] r[k] == blend(
                        self@[chan_index(layer as int, k, pix)] as int,
                        color_at(*elem, self@, pix, x, y, k),
                        color_at(*elem, self@, pix, x, y, 3),
                        mask_at(*elem, x, y),
                    ) as u8
                },
    {
        let pix = ly * TILE + lx;
        let xg = bin_index[0] * TILE + lx;
        let yg = bin_index[1] * TILE + ly;
        let ghost sci = elem.scissor;
        // Get the content color value
        let c: [u32; 4] = match cont {
            RastContent::Solid(sc) => [sc[0] as u32, sc[1] as u32, sc[2] as u32, 255],
            RastContent::Bmp { data, size, stride } => {
                let ghost (uvo, dx, dy) = match elem.content {
                    Content::Bmp { uv_origin, duv_dx, duv_dy, .. } => (uv_origin, duv_dx, duv_dy),
                    _ => ([0i32, 0i32], [0i32, 0i32], [0i32, 0i32]),
                };
                let ox = lx - l0;
                let oy = ly - l1;
                let ghost w = sci.max[0] - sci.min[0];
                let ghost h = sci.max[1] - sci.min[1];
                let ghost a0 = bin_index[0] * 16 + l0 - sci.min[0];
                let ghost b0 = bin_index[1] * 16 + l1 - sci.min[1];
                proof {
                    assert(0 <= a0 + ox < w);
                    assert(0 <= b0 + oy < h);
                    lemma_uv_terms(uvo[0] as int, dx[0] as int, dy[0] as int, w, h, a0 + ox, b0 + oy, i32::MAX as int);
                    lemma_uv_terms(uvo[0] as int, dx[0] as int, dy[0] as int, w, h, a0, b0 + oy, i32::MAX as int);
                    lemma_uv_terms(uvo[1] as int, dx[1] as int, dy[1] as int, w, h, a0 + ox, b0 + oy, i32::MAX as int);
                    lemma_uv_terms(uvo[1] as int, dx[1] as int, dy[1] as int, w, h, a0, b0 + oy, i32::MAX as int);
                    lemma_uv_terms(uvo[0] as int, dx[0] as int, dy[0] as int, w, h, ox as int, oy as int, i32::MAX as int);
                    lemma_uv_terms(uvo[1] as int, dx[1] as int, dy[1] as int, w, h, ox as int, oy as int, i32::MAX as int);
                    assert(dx[0] * a0 + dx[0] * ox == dx[0] * (a0 + ox) && dy[0] * b0 + dy[0] * oy == dy[0] * (b0 + oy)
                        && dx[1] * a0 + dx[1] * ox == dx[1] * (a0 + ox) && dy[1] * b0 + dy[1] * oy == dy[1] * (b0 + oy))
                        by (nonlinear_arith);
                }
                let u = uv_base[0] + duv_dy_of(elem)[0] * (oy as i32);
                let u = u + duv_dx_of(elem)[0] * (ox as i32);
                let v = uv_base[1] + duv_dy_of(elem)[1] * (oy as i32);
                let v = v + duv_dx_of(elem)[1] * (ox as i32);
                sample_bilinear(data, *size, *stride, [u, v])
            },
            RastContent::Layer(src) => [
                self.layers[(*src * 4) * 256 + pix] as u32,
                self.layers[(*src * 4 + 1) * 256 + pix] as u32,
                self.layers[(*src * 4 + 2) * 256 + pix] as u32,
                self.layers[(*src * 4 + 3) * 256 + pix] as u32,
            ],
        };
        proof {
            assert forall|k: int| 0 <= k < 4 implies #[trigger] c[k] == color_at(*elem, self@, pix as int, xg as int, yg as int, k)
                && c[k] <= 255 by {
                match elem.content {
                    Content::Bmp { uv_origin, duv_dx, duv_dy, .. } => {
                        assert(uv_at(uv_origin, duv_dx, duv_dy, sci, xg as int, yg as int, 0) == uv_base[0] + duv_dy[0] * (ly - l1) + duv_dx[0] * (lx - l0)) by (nonlinear_arith)
                            requires
                                uv_base[0] == uv_at(uv_origin, duv_dx, duv_dy, sci, bin_index[0] * 16 + l0, bin_index[1] * 16 + l1, 0),
                                xg == bin_index[0] * 16 + lx,
                                yg == bin_index[1] * 16 + ly,
                        ;
                        assert(uv_at(uv_origin, duv_dx, duv_dy, sci, xg as int, yg as int, 1) == uv_base[1] + duv_dy[1] * (ly - l1) + duv_dx[1] * (lx - l0)) by (nonlinear_arith)
                            requires
                                uv_base[1] == uv_at(uv_origin, duv_dx, duv_dy, sci, bin_index[0] * 16 + l0, bin_index[1] * 16 + l1, 1),
                                xg == bin_index[0] * 16 + lx,
                                yg == bin_index[1] * 16 + ly,
                        ;
                    },
                    _ => {},
                }
            }
        }
        // Mask
        let opacity = elem.opacity as u32;
        let mask: u32 = if elem.flags.0 & ELEM_CLIP_PLANES != 0 {
            let m = self.clip_mask(elem, xg, yg);
            (m * opacity) / 256
        } else {
            opacity
        };
        proof {
            assert(mask <= 256) by (nonlinear_arith)
                requires
                    elem.flags.0 & ELEM_CLIP_PLANES != 0 ==> mask == (mask_at(*elem, xg as int, yg as int)),
                    elem.flags.0 & ELEM_CLIP_PLANES == 0 ==> mask == opacity,
                    opacity <= 256,
                    mask_at(*elem, xg as int, yg as int) <= 256,
            ;
        }
        // Apply the mask
        proof {
            assert forall|k: int| 0 <= k < 4 implies #[trigger] c[k] * mask <= 255 * 256 by {
                assert(c[k] <= 255);
                assert(c[k] * mask <= 255 * 256) by (nonlinear_arith)
                    requires
                        c[k] <= 255,
                        mask <= 256,
                ;
            }
        }
        let c0 = (c[0] * mask) / 256;
        let c1 = (c[1] * mask) / 256;
        let c2 = (c[2] * mask) / 256;
        let c3 = (c[3] * mask) / 256;
        // Map the alpha value from `0..=255` to `0..=256`
        let alpha = c3 + c3 / 128;
        proof {
            assert(c3 <= 255) by (nonlinear_arith)
                requires
                    c3 == (c[3] * mask) / 256,
                    c[3] <= 255,
                    mask <= 256,
            ;
        }
        // Blend over (with premultiplied alpha)
        let d0 = blend_chan(self.layers[(layer * 4) * 256 + pix], c0, alpha);
        let d1 = blend_chan(self.layers[(layer * 4 + 1) * 256 + pix], c1, alpha);
        let d2 = blend_chan(self.layers[(layer * 4 + 2) * 256 + pix], c2, alpha);
        let d3 = blend_chan(self.layers[(layer * 4 + 3) * 256 + pix], c3, alpha);
        [d0, d1, d2, d3]
    }

    /// The coverage mask of the element's clip planes at the pixel `(x, y)`,
    /// before the opacity is applied.
    fn clip_mask<TBmp: Bmp>(&self, elem: &Elem<TBmp>, x: usize, y: usize) -> (r: u32)
        requires
            elem.flags.0 & ELEM_CLIP_PLANES != 0,
            forall|p: int|
                0 <= p < 2 ==> -4096 <= #[trigger] elem.clip_planes[p].n[0] <= 4096 && -4096
                    <= elem.clip_planes[p].n[1] <= 4096,
            forall|p: int|
                0 <= p < 2 ==> -0x2000_0000 <= #[trigger] elem.clip_planes[p].d.start
                    <= elem.clip_planes[p].d.end <= 0x2000_0000,
            x < 0x1_0000,
            y < 0x1_0000,
            elem.opacity <= 256,
        ensures
            (r * elem.opacity) / 256 == mask_at(*elem, x as int, y as int),
            r <= 256,
            mask_at(*elem, x as int, y as int) <= 256,
    {
        let cp0 = &elem.clip_planes[0];
        let cp1 = &elem.clip_planes[1];
        proof {
            let p0: int = 0;
            let p1: int = 1;
            assert(-4096 <= elem.clip_planes[p0].n[0] <= 4096);
            assert(-4096 <= elem.clip_planes[p1].n[0] <= 4096);
            assert(-0x2000_0000 <= elem.clip_planes[p0].d.start);
            assert(-0x2000_0000 <= elem.clip_planes[p1].d.start);
            assert(-4096 <= cp0.n[0] <= 4096 && -4096 <= cp0.n[1] <= 4096);
            assert(-4096 <= cp1.n[0] <= 4096 && -4096 <= cp1.n[1] <= 4096);
            assert(-0x2000_0000 <= cp0.d.start <= cp0.d.end <= 0x2000_0000);
            assert(-0x2000_0000 <= cp1.d.start <= cp1.d.end <= 0x2000_0000);
            lemma_dot_bound(cp0.n[0] as int, cp0.n[1] as int, x as int, y as int);
            lemma_dot_bound(cp1.n[0] as int, cp1.n[1] as int, x as int, y as int);
        }
        let xi = x as i32;
        let yi = y as i32;
        let cv0 = cp0.n[0] * xi + cp0.n[1] * yi;
        let cv1 = cp1.n[0] * xi + cp1.n[1] * yi;
        let m: u32 = if elem.flags.0 & ELEM_CLIP_PLANES_ANTIALIASED != 0 {
            let a0 = plane_cov(cv0, cp0.d.start, cp0.d.end);
            let a1 = plane_cov(cv1, cp1.d.start, cp1.d.end);
            // Fold the coverages, starting from full coverage
            let f0 = (256 * a0) / 256;
            proof {
                assert(f0 * a1 <= 256 * 256) by (nonlinear_arith)
                    requires
                        f0 <= 256,
                        a1 <= 256,
                ;
            }
            let f1 = (f0 * a1) / 256;
            proof {
                assert(f0 == a0);
                assert(f1 <= 256) by (nonlinear_arith)
                    requires
                        f1 == (f0 * a1) / 256,
                        0 <= f0 <= 256,
                        0 <= a1 <= 256,
                ;
            }
            f1
        } else {
            let in0 = cp0.d.start <= cv0 && cv0 < cp0.d.end;
            let in1 = cp1.d.start <= cv1 && cv1 < cp1.d.end;
            if in0 && in1 {
                256
            } else {
                0
            }
        };
        proof {
            assert((m * elem.opacity) / 256 <= 256) by (nonlinear_arith)
                requires
                    m <= 256,
                    elem.opacity <= 256,
            ;
        }
        m
    }
}

/// Pixel `pix` of the bin has been drawn when the clipped rows `l1..ly`
/// and, in row `ly`, the columns `l0..lx` are done.
spec fn drawn(l0: int, l1: int, l2: int, ly: int, lx: int, pix: int) -> bool {
    let px = pix % 16;
    let py = pix / 16;
    l0 <= px < l2 && (l1 <= py < ly || (py == ly && px < lx))
}

/// The parts of a position in the layer buffers.
proof fn lemma_index_parts(idx: int)
    requires
        0 <= idx,
    ensures
        idx == chan_index(idx / 1024, (idx % 1024) / 256, idx % 256),
        0 <= (idx % 1024) / 256 < 4,
        0 <= idx % 256 < 256,
        (idx % 1024) % 256 == idx % 256,
{
}

/// The parts of `chan_index(layer, k, pix)`.
proof fn lemma_chan_index(layer: int, k: int, pix: int)
    requires
        0 <= layer,
        0 <= k < 4,
        0 <= pix < 256,
    ensures
        chan_index(layer, k, pix) / 1024 == layer,
        (chan_index(layer, k, pix) % 1024) / 256 == k,
        chan_index(layer, k, pix) % 256 == pix,
{
}

/// What `rasterized` holds at a channel of a pixel inside the scissor
/// rectangle.
proof fn lemma_rasterized_at<TBmp: Bmp>(old: Seq<u8>, bin: [usize; 2], elem: Elem<TBmp>, layer: int, k: int, pix: int)
    requires
        old.len() == LAYERS_LEN,
        0 <= layer < NUM_LAYERS,
        0 <= k < 4,
        0 <= pix < 256,
        in_scissor(elem.scissor, bin[0] * 16 + pix % 16, bin[1] * 16 + pix / 16),
    ensures
        ({
            let x = bin[0] * 16 + pix % 16;
            let y = bin[1] * 16 + pix / 16;
            let idx = chan_index(layer, k, pix);
            rasterized(old, bin, elem, layer)[idx] == blend(
                old[idx] as int,
                color_at(elem, old, pix, x, y, k),
                color_at(elem, old, pix, x, y, 3),
                mask_at(elem, x, y),
            ) as u8
        }),
{
    lemma_chan_index(layer, k, pix);
}

/// The byte `idx` lies in the drawn layer or in the source layer.
spec fn touched(idx: int, layer: int, src: int) -> bool {
    idx / 1024 == layer || idx / 1024 == src
}

/// A compositing element clears the source layer inside the scissor
/// rectangle.
proof fn lemma_rasterized_src<TBmp: Bmp>(old: Seq<u8>, bin: [usize; 2], elem: Elem<TBmp>, layer: int, k: int, pix: int)
    requires
        old.len() == LAYERS_LEN,
        0 <= layer < NUM_LAYERS,
        layer < src_layer(elem) < NUM_LAYERS,
        0 <= k < 4,
        0 <= pix < 256,
        in_scissor(elem.scissor, bin[0] * 16 + pix % 16, bin[1] * 16 + pix / 16),
    ensures
        rasterized(old, bin, elem, layer)[chan_index(src_layer(elem), k, pix)] == 0,
{
    lemma_chan_index(src_layer(elem), k, pix);
}

/// `rasterized` keeps what lies outside the drawn and the source layer, or
/// outside the scissor rectangle.
proof fn lemma_rasterized_outside<TBmp: Bmp>(old: Seq<u8>, bin: [usize; 2], elem: Elem<TBmp>, layer: int, idx: int)
    requires
        old.len() == LAYERS_LEN,
        0 <= idx < LAYERS_LEN,
        !touched(idx, layer, src_layer(elem)) || !in_scissor(
            elem.scissor,
            bin[0] * 16 + (idx % 256) % 16,
            bin[1] * 16 + (idx % 256) / 16,
        ),
    ensures
        rasterized(old, bin, elem, layer)[idx] == old[idx],
{
}

/// The content colors of the pixel `pix` read the same from two buffers
/// that agree on that pixel outside layer `layer`.
proof fn lemma_color_stable<TBmp: Bmp>(elem: Elem<TBmp>, a: Seq<u8>, b: Seq<u8>, bin: [usize; 2], layer: int, pix: int, x: int, y: int, k: int)
    requires
        elem_ok(elem, bin, layer),
        a.len() == LAYERS_LEN,
        b.len() == LAYERS_LEN,
        0 <= pix < 256,
        0 <= k < 4,
        forall|idx: int|
            0 <= idx < LAYERS_LEN && idx % 256 == pix && idx / 1024 != layer ==> #[trigger] a[idx] == b[idx],
    ensures
        color_at(elem, a, pix, x, y, k) == color_at(elem, b, pix, x, y, k),
{
    match elem.content {
        Content::Layer(src) => {
            lemma_chan_index(src as int, k, pix);
            assert(a[chan_index(src as int, k, pix)] == b[chan_index(src as int, k, pix)]);
        },
        _ => {},
    }
}

/// The layer buffers after drawing each `(element, layer)` of `elems` in
/// turn into the bin `bin`.
pub open spec fn rasterized_all<TBmp: Bmp>(old: Seq<u8>, bin: [usize; 2], elems: Seq<(&Elem<TBmp>, u8)>) -> Seq<u8>
    decreases elems.len(),
{
    if elems.len() == 0 {
        old
    } else {
        let last = elems.last();
        rasterized(rasterized_all(old, bin, elems.drop_last()), bin, *last.0, last.1 as int)
    }
}

impl BinRast {
    /// Rasterize the bin `bin_index`, whose elements and destination layers
    /// are `elems`, in drawing order (back to front).
    pub fn rasterize<TBmp: Bmp>(&mut self, elems: &[(&Elem<TBmp>, u8)], bin_index: [usize; 2])
        requires
            old(self).wf(),
            forall|i: int| 0 <= i < elems@.len() ==> elem_ok(*(#[trigger] elems@[i]).0, bin_index, elems@[i].1 as int),
        ensures
            final(self).wf(),
            final(self)@ == rasterized_all(old(self)@, bin_index, elems@),
    {
        let ghost old_l = self@;
        let mut i: usize = 0;
        while i < elems.len()
            invariant
                self.wf(),
                i <= elems@.len(),
                forall|j: int| 0 <= j < elems@.len() ==> elem_ok(*(#[trigger] elems@[j]).0, bin_index, elems@[j].1 as int),
                self@ == rasterized_all(old_l, bin_index, elems@.subrange(0, i as int)),
            decreases elems@.len() - i,
        {
            let (elem, layer) = elems[i];
            proof {
                assert(elem_ok(*elems@[i as int].0, bin_index, elems@[i as int].1 as int));
            }
            self.rasterize_elem(bin_index, elem, layer as usize);
            proof {
                let s = elems@.subrange(0, i + 1);
                assert(s.drop_last() == elems@.subrange(0, i as int));
                assert(s.last() == elems@[i as int]);
            }
            i += 1;
        }
        proof {
            assert(elems@.subrange(0, elems@.len() as int) == elems@);
        }
    }

    /// Draw `elem` into layer `layer` of the bin `bin_index`: each pixel of
    /// the bin inside the element's scissor rectangle gets the element's
    /// content color, masked by its clip planes and opacity, blended over
    /// it.
    fn rasterize_elem<TBmp: Bmp>(&mut self, bin_index: [usize; 2], elem: &Elem<TBmp>, layer: usize)
        requires
            old(self).wf(),
            elem_ok(*elem, bin_index, layer as int),
        ensures
            final(self).wf(),
            final(self)@ == rasterized(old(self)@, bin_index, *elem, layer as int),
    {
        let ghost old_l = self@;
        let ghost target = rasterized(old_l, bin_index, *elem, layer as int);
        let sci = &elem.scissor;
        let bx = bin_index[0] * TILE;
        let by = bin_index[1] * TILE;
        // Clipped scissor rectangle (global)
        let g0 = if (sci.min[0] as usize) < bx { bx } else { sci.min[0] as usize };
        let g1 = if (sci.min[1] as usize) < by { by } else { sci.min[1] as usize };
        let g2 = if (sci.max[0] as usize) < bx + TILE { sci.max[0] as usize } else { bx + TILE };
        let g3 = if (sci.max[1] as usize) < by + TILE { sci.max[1] as usize } else { by + TILE };
        // Clipped scissor rectangle (local)
        let l0 = g0 - bx;
        let l1 = g1 - by;
        let l2 = g2 - bx;
        let l3 = g3 - by;
        // Content
        let (cont, uv_base): (RastContent, [i32; 2]) = match &elem.content {
            Content::Solid(c) => (RastContent::Solid(*c), [0, 0]),
            Content::Bmp { bmp, uv_origin, duv_dx, duv_dy } => {
                let size = bmp.size();
                let stride = bmp.stride() / 4;
                let data = match bytes_as_pixels(bmp.data()) {
                    Some(d) => d,
                    None => {
                        proof {
                            assert(false);
                        }
                        return ;
                    },
                };
                let ox = (g0 - sci.min[0] as usize) as i32;
                let oy = (g1 - sci.min[1] as usize) as i32;
                let ghost w = sci.max[0] - sci.min[0];
                let ghost h = sci.max[1] - sci.min[1];
                proof {
                    lemma_uv_terms(uv_origin[0] as int, duv_dx[0] as int, duv_dy[0] as int, w, h, ox as int, oy as int, i32::MAX as int);
                    lemma_uv_terms(uv_origin[1] as int, duv_dx[1] as int, duv_dy[1] as int, w, h, ox as int, oy as int, i32::MAX as int);
                }
                let u = uv_origin[0] + duv_dx[0] * ox + duv_dy[0] * oy;
                let v = uv_origin[1] + duv_dx[1] * ox + duv_dy[1] * oy;
                (RastContent::Bmp { data, size, stride }, [u, v])
            },
            Content::Layer(src) => (RastContent::Layer(*src as usize), [0, 0]),
        };
        proof {
            assert forall|pix: int| 0 <= pix < 256 implies #[trigger] in_scissor(
                elem.scissor,
                bin_index[0] * 16 + pix % 16,
                bin_index[1] * 16 + pix / 16,
            ) == (l0 <= pix % 16 < l2 && l1 <= pix / 16 < l3) by {}
        }
        // Draw pixels
        let mut ly = l1;
        while ly < l3
            invariant
                self.wf(),
                self@.len() == LAYERS_LEN,
                old_l.len() == LAYERS_LEN,
                target == rasterized(old_l, bin_index, *elem, layer as int),
                elem_ok(*elem, bin_index, layer as int),
                rast_content_ok(cont, *elem),
                sci == &elem.scissor,
                l0 <= l2 <= 16,
                l1 <= ly <= l3,
                l3 <= 16,
                bin_index[0] * 16 + l0 >= elem.scissor.min[0],
                bin_index[1] * 16 + l1 >= elem.scissor.min[1],
                forall|pix: int| 0 <= pix < 256 ==> #[trigger] in_scissor(
                    elem.scissor,
                    bin_index[0] * 16 + pix % 16,
                    bin_index[1] * 16 + pix / 16,
                ) == (l0 <= pix % 16 < l2 && l1 <= pix / 16 < l3),
                elem.content matches Content::Bmp { uv_origin, duv_dx, duv_dy, .. } ==> forall|a: int|
                    0 <= a < 2 ==> #[trigger] uv_base[a] == uv_at(
                        uv_origin,
                        duv_dx,
                        duv_dy,
                        elem.scissor,
                        bin_index[0] * 16 + l0,
                        bin_index[1] * 16 + l1,
                        a,
                    ),
                forall|idx: int| 0 <= idx < LAYERS_LEN ==> #[trigger] self@[idx] == if touched(idx, layer as int, src_layer(*elem))
                    && drawn(l0 as int, l1 as int, l2 as int, ly as int, l0 as int, idx % 256) {
                    target[idx]
                } else {
                    old_l[idx]
                },
            decreases l3 - ly,
        {
            let mut lx = l0;
            while lx < l2
                invariant
                    self.wf(),
                    self@.len() == LAYERS_LEN,
                    old_l.len() == LAYERS_LEN,
                    target == rasterized(old_l, bin_index, *elem, layer as int),
                    elem_ok(*elem, bin_index, layer as int),
                    rast_content_ok(cont, *elem),
                    l0 <= lx <= l2 <= 16,
                    l1 <= ly < l3 <= 16,
                    bin_index[0] * 16 + l0 >= elem.scissor.min[0],
                    bin_index[1] * 16 + l1 >= elem.scissor.min[1],
                    forall|pix: int| 0 <= pix < 256 ==> #[trigger] in_scissor(
                        elem.scissor,
                        bin_index[0] * 16 + pix % 16,
                        bin_index[1] * 16 + pix / 16,
                    ) == (l0 <= pix % 16 < l2 && l1 <= pix / 16 < l3),
                    elem.content matches Content::Bmp { uv_origin, duv_dx, duv_dy, .. } ==> forall|a: int|
                        0 <= a < 2 ==> #[trigger] uv_base[a] == uv_at(
                            uv_origin,
                            duv_dx,
                            duv_dy,
                            elem.scissor,
                            bin_index[0] * 16 + l0,
                            bin_index[1] * 16 + l1,
                            a,
                        ),
                    forall|idx: int| 0 <= idx < LAYERS_LEN ==> #[trigger] self@[idx] == if touched(idx, layer as int, src_layer(*elem))
                        && drawn(l0 as int, l1 as int, l2 as int, ly as int, lx as int, idx % 256) {
                        target[idx]
                    } else {
                        old_l[idx]
                    },
                decreases l2 - lx,
            {
                self.draw_pixel(elem, &cont, uv_base, bin_index, layer, lx, ly, l0, l1, l2, l3, Ghost(old_l));
                lx += 1;
            }
            proof {
                assert forall|idx: int| 0 <= idx < LAYERS_LEN implies #[trigger] self@[idx] == if touched(idx, layer as int, src_layer(*elem))
                    && drawn(l0 as int, l1 as int, l2 as int, ly + 1, l0 as int, idx % 256) {
                    target[idx]
                } else {
                    old_l[idx]
                } by {
                    assert(drawn(l0 as int, l1 as int, l2 as int, ly as int, l2 as int, idx % 256) == drawn(
                        l0 as int,
                        l1 as int,
                        l2 as int,
                        ly + 1,
                        l0 as int,
                        idx % 256,
                    ));
                }
            }
            ly += 1;
        }
        proof {
            assert forall|idx: int| 0 <= idx < LAYERS_LEN implies #[trigger] self@[idx] == target[idx] by {
                lemma_index_parts(idx);
                let pix = idx % 256;
                if !(touched(idx, layer as int, src_layer(*elem)) && drawn(l0 as int, l1 as int, l2 as int, l3 as int, l0 as int, pix)) {
                    assert(!(touched(idx, layer as int, src_layer(*elem)) && in_scissor(
                        elem.scissor,
                        bin_index[0] * 16 + pix % 16,
                        bin_index[1] * 16 + pix / 16,
                    )));
                    lemma_rasterized_outside(old_l, bin_index, *elem, layer as int, idx);
                }
            }
            assert(self@ == target);
        }
    }

    /// Draw the pixel `(lx, ly)` of the bin: its four channels in layer
    /// `layer` (and in a source layer) take their values in `rasterized`.
    #[verifier::spinoff_prover]
    #[verifier::rlimit(40)]
    fn draw_pixel<TBmp: Bmp>(
        &mut self,
        elem: &Elem<TBmp>,
        cont: &RastContent,
        uv_base: [i32; 2],
        bin_index: [usize; 2],
        layer: usize,
        lx: usize,
        ly: usize,
        l0: usize,
        l1: usize,
        l2: usize,
        l3: usize,
        Ghost(old_l): Ghost<Seq<u8>>,
    )
        requires
            old(self).wf(),
            old_l.len() == LAYERS_LEN,
            elem_ok(*elem, bin_index, layer as int),
            rast_content_ok(*cont, *elem),
            l0 <= lx < l2 <= 16,
            l1 <= ly < l3 <= 16,
            bin_index[0] * 16 + l0 >= elem.scissor.min[0],
            bin_index[1] * 16 + l1 >= elem.scissor.min[1],
            forall|pix: int| 0 <= pix < 256 ==> #[trigger] in_scissor(
                elem.scissor,
                bin_index[0] * 16 + pix % 16,
                bin_index[1] * 16 + pix / 16,
            ) == (l0 <= pix % 16 < l2 && l1 <= pix / 16 < l3),
            elem.content matches Content::Bmp { uv_origin, duv_dx, duv_dy, .. } ==> forall|a: int|
                0 <= a < 2 ==> #[trigger] uv_base[a] == uv_at(
                    uv_origin,
                    duv_dx,
                    duv_dy,
                    elem.scissor,
                    bin_index[0] * 16 + l0,
                    bin_index[1] * 16 + l1,
                    a,
                ),
            forall|idx: int| 0 <= idx < LAYERS_LEN ==> #[trigger] old(self)@[idx] == if touched(idx, layer as int, src_layer(*elem))
                && drawn(l0 as int, l1 as int, l2 as int, ly as int, lx as int, idx % 256) {
                rasterized(old_l, bin_index, *elem, layer as int)[idx]
            } else {
                old_l[idx]
            },
        ensures
            final(self).wf(),
            forall|idx: int| 0 <= idx < LAYERS_LEN ==> #[trigger] final(self)@[idx] == if touched(idx, layer as int, src_layer(*elem))
                && drawn(l0 as int, l1 as int, l2 as int, ly as int, lx + 1, idx % 256) {
                rasterized(old_l, bin_index, *elem, layer as int)[idx]
            } else {
                old_l[idx]
            },
    {
        let ghost target = rasterized(old_l, bin_index, *elem, layer as int);
        let ghost before = self@;
        let pix = ly * TILE + lx;
        let ghost x = bin_index[0] * 16 + lx;
        let ghost y = bin_index[1] * 16 + ly;
        proof {
            assert(pix % 16 == lx && pix / 16 == ly);
            assert(in_scissor(elem.scissor, bin_index[0] * 16 + pix % 16, bin_index[1] * 16 + pix / 16));
            assert forall|idx: int|
                0 <= idx < LAYERS_LEN && idx % 256 == pix && idx / 1024 != layer implies #[trigger] before[idx]
                == old_l[idx] by {
                assert(!drawn(l0 as int, l1 as int, l2 as int, ly as int, lx as int, pix as int));
            }
        }
        let r = self.shade_pixel(elem, cont, uv_base, bin_index, layer, lx, ly, l0, l1);
        proof {
            assert forall|k: int| 0 <= k < 4 implies #[trigger] r[k] == target[chan_index(layer as int, k, pix as int)] by {
                lemma_chan_index(layer as int, k, pix as int);
                lemma_color_stable(*elem, before, old_l, bin_index, layer as int, pix as int, x, y, k);
                lemma_color_stable(*elem, before, old_l, bin_index, layer as int, pix as int, x, y, 3);
                lemma_rasterized_at(old_l, bin_index, *elem, layer as int, k, pix as int);
                assert(before[chan_index(layer as int, k, pix as int)] == old_l[chan_index(layer as int, k, pix as int)]);
            }
        }
        let base = layer * 4 * 256 + pix;
        self.layers.set(base, r[0]);
        self.layers.set(base + 256, r[1]);
        self.layers.set(base + 512, r[2]);
        self.layers.set(base + 768, r[3]);
        let ghost mid = self@;
        proof {
            assert(mid == write_pixel(before, layer as int, pix as int, r));
        }
        // Compositing clears the source layer
        if let RastContent::Layer(src) = cont {
            let sbase = *src * 4 * 256 + pix;
            self.layers.set(sbase, 0);
            self.layers.set(sbase + 256, 0);
            self.layers.set(sbase + 512, 0);
            self.layers.set(sbase + 768, 0);
            proof {
                assert(self@ == write_pixel(mid, *src as int, pix as int, [0u8, 0u8, 0u8, 0u8]));
                assert forall|k: int| 0 <= k < 4 implies target[chan_index(src_layer(*elem), k, pix as int)] == 0 by {
                    lemma_rasterized_src(old_l, bin_index, *elem, layer as int, k, pix as int);
                }
            }
        }
        proof {
            lemma_pixel_written(
                before,
                self@,
                target,
                old_l,
                layer as int,
                src_layer(*elem),
                l0 as int,
                l1 as int,
                l2 as int,
                lx as int,
                ly as int,
                r,
            );
        }
    }
}

/// The buffers `s` with the four channels of the pixel `pix` of layer
/// `layer` set to `v`.
spec fn write_pixel(s: Seq<u8>, layer: int, pix: int, v: [u8; 4]) -> Seq<u8> {
    s.update(chan_index(layer, 0, pix), v[0]).update(chan_index(layer, 1, pix), v[1]).update(
        chan_index(layer, 2, pix),
        v[2],
    ).update(chan_index(layer, 3, pix), v[3])
}

/// Writing the four channels of the pixel `(lx, ly)` of layer `layer`, and
/// of the source layer `src` if there is one, with their target values moves
/// the drawn region one pixel on.
proof fn lemma_pixel_written(
    before: Seq<u8>,
    after: Seq<u8>,
    target: Seq<u8>,
    old_l: Seq<u8>,
    layer: int,
    src: int,
    l0: int,
    l1: int,
    l2: int,
    lx: int,
    ly: int,
    r: [u8; 4],
)
    requires
        before.len() == LAYERS_LEN,
        0 <= layer < NUM_LAYERS,
        src == -1 || layer < src < NUM_LAYERS,
        0 <= l0 <= lx < l2 <= 16,
        0 <= ly < 16,
        after == if src == -1 {
            write_pixel(before, layer, ly * 16 + lx, r)
        } else {
            write_pixel(write_pixel(before, layer, ly * 16 + lx, r), src, ly * 16 + lx, [0u8, 0u8, 0u8, 0u8])
        },
        forall|k: int| 0 <= k < 4 ==> #[trigger] r[k] == target[chan_index(layer, k, ly * 16 + lx)],
        src != -1 ==> forall|k: int| 0 <= k < 4 ==> #[trigger] target[chan_index(src, k, ly * 16 + lx)] == 0,
        forall|idx: int| 0 <= idx < LAYERS_LEN ==> #[trigger] before[idx] == if touched(idx, layer, src)
            && drawn(l0, l1, l2, ly, lx, idx % 256) {
            target[idx]
        } else {
            old_l[idx]
        },
    ensures
        forall|idx: int| 0 <= idx < LAYERS_LEN ==> #[trigger] after[idx] == if touched(idx, layer, src)
            && drawn(l0, l1, l2, ly, lx + 1, idx % 256) {
            target[idx]
        } else {
            old_l[idx]
        },
{
    let pix = ly * 16 + lx;
    assert(pix % 16 == lx && pix / 16 == ly);
    assert forall|idx: int| 0 <= idx < LAYERS_LEN implies #[trigger] after[idx] == if touched(idx, layer, src)
        && drawn(l0, l1, l2, ly, lx + 1, idx % 256) {
        target[idx]
    } else {
        old_l[idx]
    } by {
        lemma_index_parts(idx);
        let k = (idx % 1024) / 256;
        lemma_chan_index(layer, 0, pix);
        lemma_chan_index(layer, 1, pix);
        lemma_chan_index(layer, 2, pix);
        lemma_chan_index(layer, 3, pix);
        if src != -1 {
            lemma_chan_index(src, 0, pix);
            lemma_chan_index(src, 1, pix);
            lemma_chan_index(src, 2, pix);
            lemma_chan_index(src, 3, pix);
        }
        if idx / 1024 == layer && idx % 256 == pix {
            assert(idx == chan_index(layer, k, pix));
            assert(r[k] == target[chan_index(layer, k, pix)]);
        } else if src != -1 && idx / 1024 == src && idx % 256 == pix {
            assert(idx == chan_index(src, k, pix));
            assert(target[chan_index(src, k, pix)] == 0);
        } else {
            assert(after[idx] == before[idx]);
            let q = idx % 256;
            if touched(idx, layer, src) {
                assert(q == (q / 16) * 16 + q % 16);
                assert(drawn(l0, l1, l2, ly, lx + 1, q) == drawn(l0, l1, l2, ly, lx, q));
            }
        }
    }
}

/// `duv_dx` of a bitmap element; zero for other contents.
fn duv_dx_of<TBmp>(elem: &Elem<TBmp>) -> (r: [i32; 2])
    ensures
        elem.content matches Content::Bmp { duv_dx, .. } ==> r == duv_dx,
{
    match &elem.content {
        Content::Bmp { duv_dx, .. } => *duv_dx,
        _ => [0, 0],
    }
}

/// `duv_dy` of a bitmap element; zero for other contents.
fn duv_dy_of<TBmp>(elem: &Elem<TBmp>) -> (r: [i32; 2])
    ensures
        elem.content matches Content::Bmp { duv_dy, .. } ==> r == duv_dy,
{
    match &elem.content {
        Content::Bmp { duv_dy, .. } => *duv_dy,
        _ => [0, 0],
    }
}

/// Blend one channel: `min(c + d * (256 - alpha) / 256, 255)`.
fn blend_chan(d: u8, c: u32, alpha: u32) -> (r: u8)
    requires
        c <= 255,
        alpha <= 256,
    ensures
        r == vstd::math::min(c + (d * (256 - alpha)) / 256, 255),
{
    proof {
        assert((d as u32) * (256 - alpha) <= 255 * 256) by (nonlinear_arith)
            requires
                d <= 255,
                alpha <= 256,
        ;
    }
    let v = c + (d as u32) * (256 - alpha) / 256;
    if v < 255 {
        v as u8
    } else {
        255
    }
}

/// `n · (x, y)` stays far inside `i32`.
proof fn lemma_dot_bound(n0: int, n1: int, x: int, y: int)
    requires
        -4096 <= n0 <= 4096,
        -4096 <= n1 <= 4096,
        0 <= x < 0x1_0000,
        0 <= y < 0x1_0000,
    ensures
        -0x1000_0000 < n0 * x < 0x1000_0000,
        -0x1000_0000 < n1 * y < 0x1000_0000,
        -0x2000_0000 < n0 * x + n1 * y < 0x2000_0000,
{
    assert(-0x1000_0000 < n0 * x < 0x1000_0000) by (nonlinear_arith)
        requires
            -4096 <= n0 <= 4096,
            0 <= x < 0x1_0000,
    ;
    assert(-0x1000_0000 < n1 * y < 0x1000_0000) by (nonlinear_arith)
        requires
            -4096 <= n1 <= 4096,
            0 <= y < 0x1_0000,
    ;
}

/// The antialiased coverage of one clip plane pair at `cv = n · (x, y)`.
fn plane_cov(cv: i32, start: i32, end: i32) -> (r: u32)
    requires
        -0x2200_0000 < cv < 0x2200_0000,
        -0x2000_0000 <= start <= end <= 0x2000_0000,
    ensures
        r == istep(cv - start) - istep(cv - end),
        r <= 256,
{
    proof {
        lemma_istep_monotonic(cv - end, cv - start);
    }
    let a = integrate_step(cv - start) - integrate_step(cv - end);
    a as u32
}

/// `istep` is nondecreasing.
proof fn lemma_istep_monotonic(a: int, b: int)
    requires
        a <= b,
    ensures
        istep(a) <= istep(b),
        0 <= istep(b) - istep(a) <= 256,
{
}

/// An element with zero opacity that does not composite another layer (which
/// it would clear) leaves the layer buffers unchanged.
pub proof fn law_transparent_elem_noop<TBmp: Bmp>(old: Seq<u8>, bin: [usize; 2], elem: Elem<TBmp>, layer: int)
    requires
        elem.opacity == 0,
        !(elem.content is Layer),
    ensures
        rasterized(old, bin, elem, layer) == old,
{
    let r = rasterized(old, bin, elem, layer);
    assert forall|idx: int| 0 <= idx < old.len() implies r[idx] == old[idx] by {
        let pix = idx % 256;
        let x = bin[0] * 16 + pix % 16;
        let y = bin[1] * 16 + pix / 16;
        let k = (idx % 1024) / 256;
        assert(mask_at(elem, x, y) == 0) by {
            if elem.flags.0 & ELEM_CLIP_PLANES != 0 {
                let m = if elem.flags.0 & ELEM_CLIP_PLANES_ANTIALIASED != 0 {
                    (plane_coverage(elem.clip_planes[0], x, y) * plane_coverage(elem.clip_planes[1], x, y)) / 256
                } else if plane_contains(elem.clip_planes[0], x, y) && plane_contains(elem.clip_planes[1], x, y) {
                    256
                } else {
                    0
                };
                assert((m * 0) / 256 == 0) by (nonlinear_arith);
            }
        }
        let ck = color_at(elem, old, pix, x, y, k);
        let c3 = color_at(elem, old, pix, x, y, 3);
        assert((ck * 0) / 256 == 0 && (c3 * 0) / 256 == 0) by (nonlinear_arith);
        assert((old[idx] * 256) / 256 == old[idx]) by (nonlinear_arith);
        assert(blend(old[idx] as int, ck, c3, 0) == old[idx]);
    }
    assert(r =~= old);
}

/// A solid color's alpha channel is ignored: two elements that differ only
/// in it draw the same.
pub proof fn law_solid_alpha_ignored<TBmp: Bmp>(
    old: Seq<u8>,
    bin: [usize; 2],
    e1: Elem<TBmp>,
    e2: Elem<TBmp>,
    layer: int,
)
    requires
        e1.content matches Content::Solid(c1) && e2.content matches Content::Solid(c2) && c1[0] == c2[0]
            && c1[1] == c2[1] && c1[2] == c2[2],
        e1.flags == e2.flags,
        e1.opacity == e2.opacity,
        e1.scissor == e2.scissor,
        e1.clip_planes == e2.clip_planes,
    ensures
        rasterized(old, bin, e1, layer) == rasterized(old, bin, e2, layer),
{
    let r1 = rasterized(old, bin, e1, layer);
    let r2 = rasterized(old, bin, e2, layer);
    assert forall|idx: int| 0 <= idx < old.len() implies r1[idx] == r2[idx] by {
        let pix = idx % 256;
        let x = bin[0] * 16 + pix % 16;
        let y = bin[1] * 16 + pix / 16;
        let k = (idx % 1024) / 256;
        assert(color_at(e1, old, pix, x, y, k) == color_at(e2, old, pix, x, y, k));
        assert(color_at(e1, old, pix, x, y, 3) == color_at(e2, old, pix, x, y, 3));
        assert(mask_at(e1, x, y) == mask_at(e2, x, y));
    }
    assert(r1 =~= r2);
}

} // verus!

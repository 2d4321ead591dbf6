//! The elements that a bin rasterizer draws.
use std::ops::Range;
use vstd::prelude::*;

use super::CLIP_SUB;

verus! {

/// A clonable reference to a color-matched bitmap image: `data` holds rows
/// of `size[0]` pixels of four bytes, `stride` bytes apart.
pub trait Bmp: Sized {
    /// The bytes of the image.
    spec fn spec_data(&self) -> Seq<u8>;

    /// The width and height of the image.
    spec fn spec_size(&self) -> [usize; 2];

    /// The distance between rows, in bytes.
    spec fn spec_stride(&self) -> usize;

    fn data(&self) -> (r: &[u8])
        ensures
            r@ == self.spec_data(),
    ;

    fn size(&self) -> (r: [usize; 2])
        ensures
            r == self.spec_size(),
    ;

    fn stride(&self) -> (r: usize)
        ensures
            r == self.spec_stride(),
    ;
}

/// Element flags.
#[derive(Debug, Clone, Copy, PartialEq, Eq, Structural)]
pub struct ElemFlags(pub u8);

/// Enable clipping by clip planes.
pub const ELEM_CLIP_PLANES: u8 = 1;

/// Enable antialiased clipping by clip planes. Requires `ELEM_CLIP_PLANES`.
pub const ELEM_CLIP_PLANES_ANTIALIASED: u8 = 2;

/// A scissor rectangle `min ≤ p < max`.
#[derive(Debug, Clone, Copy)]
pub struct Box2U16 {
    pub min: [u16; 2],
    pub max: [u16; 2],
}

/// Clip planes (enabled by `ELEM_CLIP_PLANES`). Given window pixel
/// coordinates `p = (x, y)`, the pixel is considered included if
/// `d.contains(p.dot(n))`. The L1 norm of `n` must be close to `CLIP_SUB`
/// for edge antialiasing to work.
///
/// A parallelogram is an intersection of two thick straight lines, each of
/// which is in turn an intersection of two half planes sharing the same
/// normal vector. The coverage value of a pixel is approximated as the
/// product of the four half planes' coverage values, each a clamped linear
/// function of the sample coordinates with a transition zone one pixel wide.
#[derive(Debug)]
pub struct ClipPlanes {
    pub n: [i32; 2],
    pub d: Range<i32>,
}

impl ClipPlanes {
    /// The default clip planes: `n = (0, 0)`, `d = 0..0`.
    pub fn default_planes() -> (r: ClipPlanes)
        ensures
            r == (ClipPlanes { n: [0, 0], d: 0..0 }),
    {
        ClipPlanes { n: [0, 0], d: 0..0 }
    }
}

/// The content of an element.
#[derive(Debug)]
pub enum Content<TBmp> {
    /// A solid color. The alpha channel is ignored and taken from
    /// `Elem::opacity`.
    Solid([u8; 4]),
    /// A bitmap image, sampled at
    /// `uv = uv_origin + duv_dx * (x - scissor.min.x) + duv_dy * (y - scissor.min.y)`
    /// (in `1 / UV_SUB` units of unnormalized bitmap coordinates).
    Bmp { bmp: TBmp, uv_origin: [i32; 2], duv_dx: [i32; 2], duv_dy: [i32; 2] },
    /// Use the content of another layer.
    Layer(u8),
}

/// A rendered element.
#[derive(Debug)]
pub struct Elem<TBmp> {
    pub flags: ElemFlags,
    /// Opacity in range `0..=256`.
    pub opacity: u16,
    pub content: Content<TBmp>,
    /// The scissor rectangle.
    pub scissor: Box2U16,
    /// Clip planes (enabled by `ELEM_CLIP_PLANES`).
    pub clip_planes: [ClipPlanes; 2],
}

/// `|x|`.
pub open spec fn abs(x: int) -> int {
    if x < 0 {
        -x
    } else {
        x
    }
}

/// The clip planes exactly represent an axis-aligned region aligned to
/// pixels.
pub open spec fn aligned_to_pixel(cp: ClipPlanes) -> bool {
    let (a, b) = (abs(cp.n[0] as int), abs(cp.n[1] as int));
    if a == 0 && b == 0 {
        true
    } else if (a == 256 && b == 0) || (a == 0 && b == 256) {
        cp.d.start % 256 == 0 && cp.d.end % 256 == 0
    } else {
        false
    }
}

/// Check if `ClipPlanes` exactly represent an axis-aligned region aligned to
/// pixels.
pub fn is_clip_planes_aligned_to_pixel(clip_planes: &ClipPlanes) -> (r: bool)
    requires
        clip_planes.n[0] != i32::MIN,
        clip_planes.n[1] != i32::MIN,
    ensures
        r == aligned_to_pixel(*clip_planes),
{
    let nx = if clip_planes.n[0] < 0 {
        -clip_planes.n[0]
    } else {
        clip_planes.n[0]
    };
    let ny = if clip_planes.n[1] < 0 {
        -clip_planes.n[1]
    } else {
        clip_planes.n[1]
    };
    if nx == 0 && ny == 0 {
        true
    } else if (nx == CLIP_SUB && ny == 0) || (nx == 0 && ny == CLIP_SUB) {
        clip_planes.d.start % CLIP_SUB == 0 && clip_planes.d.end % CLIP_SUB == 0
    } else {
        false
    }
}

/// Check if `ClipPlanes` exactly represent an axis-aligned region.
pub fn is_clip_planes_aligned_to_axis(clip_planes: &ClipPlanes) -> (r: bool)
    ensures
        r == (clip_planes.n[0] == 0 || clip_planes.n[1] == 0),
{
    clip_planes.n[0] == 0 || clip_planes.n[1] == 0
}

/// The flags of the elements that draw a bitmap, and whether their clip
/// planes cut the 9-slice slices (rather than draw the element's
/// antialiased edge). Edges aligned to pixels need no clip planes; slices
/// of an element not aligned to the axes are cut by aliased clip planes,
/// while a proxy layer draws the outer edge; otherwise the elements draw
/// the antialiased edge themselves unless a proxy does.
pub fn slice_elem_flags(use_slicing: bool, aligned_to_pixel: bool, aligned_to_axis: bool, use_proxy: bool) -> (r: (
    u8,
    bool,
))
    requires
        aligned_to_pixel ==> aligned_to_axis,
        use_slicing && !aligned_to_axis ==> use_proxy,
    ensures
        r.1 == (use_slicing && !aligned_to_axis),
        r.0 == if aligned_to_pixel {
            0
        } else if r.1 {
            ELEM_CLIP_PLANES
        } else if use_proxy {
            0
        } else {
            ELEM_CLIP_PLANES | ELEM_CLIP_PLANES_ANTIALIASED
        },
{
    if aligned_to_pixel {
        (0, false)
    } else if aligned_to_axis {
        if use_proxy {
            (0, false)
        } else {
            (ELEM_CLIP_PLANES | ELEM_CLIP_PLANES_ANTIALIASED, false)
        }
    } else if use_slicing {
        (ELEM_CLIP_PLANES, true)
    } else if use_proxy {
        (0, false)
    } else {
        (ELEM_CLIP_PLANES | ELEM_CLIP_PLANES_ANTIALIASED, false)
    }
}

/// The row (or column) `t` of a 3×3 slicing is not empty according to the
/// three bits `valid`.
pub open spec fn slice_valid(valid: u8, t: int) -> bool {
    0 <= t < 3 && (valid as int / pow2_3(t)) % 2 == 1
}

/// `2^t` for `t` in `0..3`.
pub open spec fn pow2_3(t: int) -> int {
    if t == 0 {
        1
    } else if t == 1 {
        2
    } else {
        4
    }
}

/// The first non-empty row after the row `s` among the three rows whose
/// validity `valid` gives, or `3` if there is none.
pub fn next_valid_slice(valid: u8, s: usize) -> (r: usize)
    requires
        valid < 8,
        s < 3,
    ensures
        s < r <= 3,
        r < 3 ==> slice_valid(valid, r as int),
        forall|t: int| s < t < r ==> !slice_valid(valid, t),
{
    let mut t: usize = s + 1;
    while t < 3
        invariant
            s < t <= 3,
            valid < 8,
            forall|u: int| s < u < t ==> !slice_valid(valid, u),
        decreases 3 - t,
    {
        let bit = if t == 0 {
            valid % 2
        } else if t == 1 {
            (valid / 2) % 2
        } else {
            (valid / 4) % 2
        };
        if bit == 1 {
            return t;
        }
        t += 1;
    }
    t
}

/// The first non-empty row among the three rows whose validity `valid`
/// gives, or `0` if all are empty.
pub fn first_valid_slice(valid: u8) -> (r: usize)
    requires
        valid < 8,
    ensures
        r < 3,
        valid != 0 ==> slice_valid(valid, r as int) && forall|t: int| 0 <= t < r ==> !slice_valid(valid, t),
        valid == 0 ==> r == 0,
{
    if valid % 2 == 1 {
        0
    } else if (valid / 2) % 2 == 1 {
        1
    } else if (valid / 4) % 2 == 1 {
        2
    } else {
        0
    }
}

/// The last non-empty row among the three rows whose validity `valid`
/// gives, or `0` if all are empty.
pub fn last_valid_slice(valid: u8) -> (r: usize)
    requires
        valid < 8,
    ensures
        r < 3,
        valid != 0 ==> slice_valid(valid, r as int) && forall|t: int| r < t < 3 ==> !slice_valid(valid, t),
        valid == 0 ==> r == 0,
{
    if (valid / 4) % 2 == 1 {
        2
    } else if (valid / 2) % 2 == 1 {
        1
    } else {
        0
    }
}

} // verus!

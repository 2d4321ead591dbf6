//! Software-based compositor: the integer parts.
//!
//! # Restrictions
//!
//!  - The maximum render target size is 16384×16384.
//!  - The coordinates of all elements (including those clipped) must fit in
//!    range ±16384.
//!  - The only supported pixel format is ARGB8888.
//!  - There's some limit on the nesting level of layers.
pub mod bin;
pub mod binner;
pub mod binrast;
pub mod rast;
pub mod layers;
pub mod utils;

use vstd::prelude::*;

verus! {

/// `log2(TILE)`
pub const TILE_SHIFT: u32 = 4;

/// The tile size.
pub const TILE: usize = 16;

/// `log2(CLIP_SUB)`
pub const CLIP_SUB_SHIFT: u32 = 8;

/// See `bin::ClipPlanes`.
pub const CLIP_SUB: i32 = 256;

/// `log2(UV_SUB)`
pub const UV_SUB_SHIFT: u32 = 16;

/// The precision of UV coordinates.
pub const UV_SUB: i32 = 65536;

/// The number of internal layers.
pub const NUM_LAYERS: usize = 16;

} // verus!

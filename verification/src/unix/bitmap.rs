//! Bitmaps of the Unix backend.
use std::sync::Arc;
use vstd::prelude::*;

use crate::iface;
use crate::swrast;

verus! {

/// An immutable bitmap image in the ARGB8888 format, shared by reference.
#[derive(Debug, Clone)]
pub struct Bitmap {
    inner: Arc<BitmapInner>,
}

#[derive(Debug)]
struct BitmapInner {
    data: Vec<u8>,
    size: [u32; 2],
    stride: usize,
}

/// The row stride and the total byte count of a bitmap of `size`.
pub open spec fn layout_of(size: [u32; 2]) -> (int, int) {
    (size[0] * 4, size[0] * 4 * size[1])
}

/// A bitmap of `size` can be allocated and handed to Cairo: its byte count
/// fits in `usize`, and its dimensions and stride in `i32`.
pub open spec fn layout_fits(size: [u32; 2]) -> bool {
    &&& layout_of(size).0 <= usize::MAX
    &&& layout_of(size).1 <= usize::MAX
    &&& size[0] <= i32::MAX
    &&& size[1] <= i32::MAX
    &&& layout_of(size).0 <= i32::MAX
}

/// The row stride and the byte count of the backing store of a bitmap of
/// `size`, or `None` if the bitmap is too large.
pub fn bitmap_layout(size: [u32; 2]) -> (r: Option<(usize, usize)>)
    ensures
        r is Some <==> layout_fits(size),
        r matches Some((stride, num_bytes)) ==> stride == layout_of(size).0 && num_bytes
            == layout_of(size).1,
{
    let w = size[0] as usize;
    let h = size[1] as usize;
    let stride = match w.checked_mul(4) {
        Some(s) => s,
        None => return None,
    };
    let num_bytes = match stride.checked_mul(h) {
        Some(n) => n,
        None => return None,
    };
    if size[0] > 0x7fff_ffff || size[1] > 0x7fff_ffff || stride > 0x7fff_ffff {
        return None;
    }
    Some((stride, num_bytes))
}

impl Bitmap {
    /// A bitmap made of the backing store `data`, with the dimensions `size`
    /// and rows `stride` bytes apart.
    pub fn new(data: Vec<u8>, size: [u32; 2], stride: usize) -> (r: Bitmap)
        ensures
            r.bytes() == data@,
            r.dims() == size,
            r.row_stride() == stride,
    {
        Bitmap { inner: Arc::new(BitmapInner { data, size, stride }) }
    }

    /// The bytes of the image.
    pub closed spec fn bytes(&self) -> Seq<u8> {
        self.inner.data@
    }

    /// The dimensions of the image.
    pub closed spec fn dims(&self) -> [u32; 2] {
        self.inner.size
    }

    /// The distance between rows, in bytes.
    pub closed spec fn row_stride(&self) -> usize {
        self.inner.stride
    }
}

impl iface::Bitmap for Bitmap {
    open spec fn spec_size(&self) -> [u32; 2] {
        self.dims()
    }

    fn size(&self) -> (r: [u32; 2]) {
        self.inner.size
    }
}

impl swrast::bin::Bmp for Bitmap {
    open spec fn spec_data(&self) -> Seq<u8> {
        self.bytes()
    }

    open spec fn spec_size(&self) -> [usize; 2] {
        [self.dims()[0] as usize, self.dims()[1] as usize]
    }

    open spec fn spec_stride(&self) -> usize {
        self.row_stride()
    }

    fn data(&self) -> (r: &[u8]) {
        self.inner.data.as_slice()
    }

    fn size(&self) -> (r: [usize; 2]) {
        let size = self.inner.size;
        [size[0] as usize, size[1] as usize]
    }

    fn stride(&self) -> (r: usize) {
        self.inner.stride
    }
}

} // verus!

use tcw3_pal::swrast::bin::{
    first_valid_slice, is_clip_planes_aligned_to_axis, is_clip_planes_aligned_to_pixel,
    last_valid_slice, next_valid_slice, slice_elem_flags, Box2U16, ClipPlanes, Content, Elem,
    ElemFlags, ELEM_CLIP_PLANES, ELEM_CLIP_PLANES_ANTIALIASED,
};
use tcw3_pal::swrast::binrast::{integrate_step, sample_bilinear, BinRast};
use tcw3_pal::swrast::rast::rasterize_row;
use tcw3_pal::swrast::utils::{Box2UsizeUnion, UBox2};
use tcw3_pal::swrast::TILE;
use tcw3_pal::unix::bitmap::Bitmap;

fn planes_off() -> [ClipPlanes; 2] {
    [ClipPlanes::default_planes(), ClipPlanes::default_planes()]
}

fn full_scissor() -> Box2U16 {
    Box2U16 { min: [0, 0], max: [16, 16] }
}

fn solid(color: [u8; 4], opacity: u16, scissor: Box2U16) -> Elem<Bitmap> {
    Elem {
        flags: ElemFlags(0),
        opacity,
        content: Content::Solid(color),
        scissor,
        clip_planes: planes_off(),
    }
}

/// The result image of a bin, as `TILE`² pixels.
fn result_of(rast: &BinRast) -> Vec<[u8; 4]> {
    let mut out = vec![0u8; TILE * TILE * 4];
    rast.copy_to(&mut out, TILE * 4, TILE, TILE);
    out.chunks(4).map(|c| [c[0], c[1], c[2], c[3]]).collect()
}

#[test]
fn new_is_cleared() {
    let rast = BinRast::new();
    assert!(result_of(&rast).iter().all(|p| *p == [0, 0, 0, 0]));
}

#[test]
fn copy_to_writes_only_the_clip_rectangle() {
    let mut rast = BinRast::new();
    let e = solid([1, 2, 3, 0], 256, full_scissor());
    rast.rasterize(&[(&e, 0)], [0, 0]);
    let stride = 12;
    let mut out = vec![0xffu8; stride * 2 + 3 * 4];
    rast.copy_to(&mut out, stride, 2, 3);
    for y in 0..3 {
        for x in 0..3 {
            let p = &out[y * stride + x * 4..][..4];
            if x < 2 {
                assert_eq!(p, &[1, 2, 3, 255]);
            } else {
                assert_eq!(p, &[0xff; 4]);
            }
        }
    }
}

#[test]
fn solid_element_fills_its_scissor() {
    let mut rast = BinRast::new();
    let e = solid([10, 20, 30, 0], 256, Box2U16 { min: [2, 3], max: [5, 4] });
    rast.rasterize(&[(&e, 0)], [0, 0]);
    let img = result_of(&rast);
    for y in 0..TILE {
        for x in 0..TILE {
            let expected = if (2..5).contains(&x) && y == 3 { [10, 20, 30, 255] } else { [0; 4] };
            assert_eq!(img[y * TILE + x], expected, "pixel {:?}", (x, y));
        }
    }
}

#[test]
fn scissor_is_relative_to_the_bin() {
    let mut rast = BinRast::new();
    // Bin (1, 0) covers x in 16..32
    let e = solid([9, 9, 9, 0], 256, Box2U16 { min: [30, 0], max: [40, 1] });
    rast.rasterize(&[(&e, 0)], [1, 0]);
    let img = result_of(&rast);
    assert_eq!(img[13], [0; 4]);
    assert_eq!(img[14], [9, 9, 9, 255]);
    assert_eq!(img[15], [9, 9, 9, 255]);
    assert_eq!(img[TILE + 15], [0; 4]);
}

#[test]
fn opacity_and_blending() {
    let mut rast = BinRast::new();
    let bg = solid([200, 100, 50, 0], 256, full_scissor());
    let fg = solid([100, 100, 100, 0], 128, full_scissor());
    rast.rasterize(&[(&bg, 0), (&fg, 0)], [0, 0]);
    // c = [50, 50, 50, 127], alpha = 127
    // d = min(c + d * (256 - 127) / 256, 255)
    let img = result_of(&rast);
    assert_eq!(img[0], [150, 100, 75, 255]);
}

#[test]
fn clip_planes_without_antialiasing() {
    let mut rast = BinRast::new();
    let mut e = solid([7, 7, 7, 0], 256, full_scissor());
    e.flags = ElemFlags(ELEM_CLIP_PLANES);
    // 0 <= 256 x < 1024, i.e., x in 0..4
    e.clip_planes[0] = ClipPlanes { n: [256, 0], d: 0..1024 };
    // 0 <= 256 y < 512, i.e., y in 0..2
    e.clip_planes[1] = ClipPlanes { n: [0, 256], d: 0..512 };
    rast.rasterize(&[(&e, 0)], [0, 0]);
    let img = result_of(&rast);
    for y in 0..TILE {
        for x in 0..TILE {
            let expected = if x < 4 && y < 2 { [7, 7, 7, 255] } else { [0; 4] };
            assert_eq!(img[y * TILE + x], expected);
        }
    }
}

#[test]
fn clip_planes_with_antialiasing() {
    let mut rast = BinRast::new();
    let mut e = solid([200, 200, 200, 0], 256, full_scissor());
    e.flags = ElemFlags(ELEM_CLIP_PLANES | ELEM_CLIP_PLANES_ANTIALIASED);
    // The edge lies in the middle of column 2
    e.clip_planes[0] = ClipPlanes { n: [256, 0], d: 640..100000 };
    e.clip_planes[1] = ClipPlanes { n: [0, 0], d: -256..256 };
    rast.rasterize(&[(&e, 0)], [0, 0]);
    let img = result_of(&rast);
    assert_eq!(img[1], [0; 4]);
    // Half coverage: c = [100, 100, 100, 127]
    assert_eq!(img[2], [100, 100, 100, 127]);
    assert_eq!(img[3], [200, 200, 200, 255]);
}

#[test]
fn layer_content_composites_another_layer() {
    let mut rast = BinRast::new();
    let inner = solid([40, 80, 120, 0], 256, Box2U16 { min: [0, 0], max: [1, 1] });
    let comp = Elem {
        flags: ElemFlags(0),
        opacity: 256,
        content: Content::Layer(1),
        scissor: full_scissor(),
        clip_planes: planes_off(),
    };
    rast.rasterize(&[(&inner, 1), (&comp, 0)], [0, 0]);
    let img = result_of(&rast);
    assert_eq!(img[0], [40, 80, 120, 255]);
    assert_eq!(img[1], [0; 4]);
}

#[test]
fn bitmap_content_is_sampled() {
    // A 2×1 bitmap: black, then white
    let bmp = Bitmap::new(vec![0, 0, 0, 255, 255, 255, 255, 255], [2, 1], 8);
    let e = Elem {
        flags: ElemFlags(0),
        opacity: 256,
        content: Content::Bmp {
            bmp,
            uv_origin: [0, 0],
            duv_dx: [32768, 0],
            duv_dy: [0, 0],
        },
        scissor: Box2U16 { min: [0, 0], max: [4, 1] },
        clip_planes: planes_off(),
    };
    let mut rast = BinRast::new();
    rast.rasterize(&[(&e, 0)], [0, 0]);
    let img = result_of(&rast);
    assert_eq!(img[0], [0, 0, 0, 255]);
    assert_eq!(img[1], [128, 128, 128, 255]);
    assert_eq!(img[2], [255, 255, 255, 255]);
    assert_eq!(img[3], [255, 255, 255, 255]);
    assert_eq!(img[4], [0; 4]);
}

#[test]
fn integrate_step_values() {
    assert_eq!(integrate_step(-300), 0);
    assert_eq!(integrate_step(-256), 0);
    assert_eq!(integrate_step(-100), 156);
    assert_eq!(integrate_step(0), 256);
    assert_eq!(integrate_step(100), 256);
}

#[test]
fn sample_bilinear_values() {
    let data = [[0u8, 0, 0, 0], [255, 255, 255, 255]];
    assert_eq!(sample_bilinear(&data, [2, 1], 2, [32768, 0]), [128, 128, 128, 128]);
    assert_eq!(sample_bilinear(&data, [2, 1], 2, [0, 0]), [0, 0, 0, 0]);
    // Clamped to the edges
    assert_eq!(sample_bilinear(&data, [2, 1], 2, [-65536 * 3, 0]), [0, 0, 0, 0]);
    assert_eq!(sample_bilinear(&data, [2, 1], 2, [65536 * 9, -5]), [255, 255, 255, 255]);
}

#[test]
fn clip_plane_alignment() {
    let aligned = ClipPlanes { n: [-256, 0], d: -512..768 };
    assert!(is_clip_planes_aligned_to_pixel(&aligned));
    assert!(is_clip_planes_aligned_to_axis(&aligned));
    let off = ClipPlanes { n: [256, 0], d: 30..512 };
    assert!(!is_clip_planes_aligned_to_pixel(&off));
    let slanted = ClipPlanes { n: [181, 181], d: 0..10 };
    assert!(!is_clip_planes_aligned_to_pixel(&slanted));
    assert!(!is_clip_planes_aligned_to_axis(&slanted));
    assert!(is_clip_planes_aligned_to_pixel(&ClipPlanes::default_planes()));
}

#[test]
fn test_box2_usize_union() {
    let boxes = vec![
        Some(UBox2 { min: [3, 4], max: [5, 6] }),
        None,
        Some(UBox2 { min: [1, 5], max: [4, 9] }),
    ];
    let u = Box2UsizeUnion::from_boxes(&boxes);
    assert_eq!(u.into_box2(), Some(UBox2 { min: [1, 4], max: [5, 9] }));
    assert_eq!(Box2UsizeUnion::new().into_box2(), None);
    let mut u = Box2UsizeUnion::new();
    u.insert(None);
    assert_eq!(u.into_box2(), None);
    u.insert(Some(UBox2 { min: [0, 0], max: [1, 1] }));
    assert_eq!(u.into_box2(), Some(UBox2 { min: [0, 0], max: [1, 1] }));
    assert!(UBox2 { min: [2, 0], max: [2, 5] }.is_empty());
}

#[test]
fn transparent_element_changes_nothing() {
    let mut rast = BinRast::new();
    let bg = solid([1, 2, 3, 0], 256, full_scissor());
    rast.rasterize(&[(&bg, 0)], [0, 0]);
    let before = result_of(&rast);
    let mut e = solid([200, 200, 200, 0], 0, full_scissor());
    e.flags = ElemFlags(ELEM_CLIP_PLANES);
    e.clip_planes[0] = ClipPlanes { n: [0, 0], d: -1..1 };
    e.clip_planes[1] = ClipPlanes { n: [0, 0], d: -1..1 };
    rast.rasterize(&[(&e, 0)], [0, 0]);
    assert_eq!(result_of(&rast), before);
}

#[test]
fn solid_alpha_is_ignored() {
    let mut a = BinRast::new();
    let mut b = BinRast::new();
    let e1 = solid([10, 20, 30, 0], 100, full_scissor());
    let e2 = solid([10, 20, 30, 255], 100, full_scissor());
    a.rasterize(&[(&e1, 0)], [0, 0]);
    b.rasterize(&[(&e2, 0)], [0, 0]);
    assert_eq!(result_of(&a), result_of(&b));
    assert_eq!(result_of(&a)[0], [3, 7, 11, 99]);
}

#[test]
fn rasterize_row_fills_each_bin() {
    // A 20×3 target: two bins wide, one bin tall
    let left = solid([1, 1, 1, 0], 256, Box2U16 { min: [0, 0], max: [20, 3] });
    let right = solid([2, 2, 2, 0], 256, Box2U16 { min: [16, 1], max: [20, 2] });
    let row = vec![vec![(&left, 0u8)], vec![(&left, 0u8), (&right, 0u8)]];
    let stride = 20 * 4 + 4;
    let mut out = vec![0xaau8; stride * 2 + 20 * 4 + 4];
    let mut rast = BinRast::new();
    rasterize_row(&mut rast, &row, 0, [20, 3], &mut out, stride);
    for y in 0..3 {
        for x in 0..21 {
            let p = &out[y * stride + x * 4..][..4];
            let expected = if x >= 20 {
                [0xaa; 4]
            } else if x >= 16 && y == 1 {
                [2, 2, 2, 255]
            } else {
                [1, 1, 1, 255]
            };
            assert_eq!(p, &expected, "pixel {:?}", (x, y));
        }
    }
}

#[test]
fn compositing_clears_the_source_layer() {
    let mut rast = BinRast::new();
    let inner = solid([40, 80, 120, 0], 256, Box2U16 { min: [0, 0], max: [2, 1] });
    let layer1 = |scissor| Elem::<Bitmap> {
        flags: ElemFlags(0),
        opacity: 256,
        content: Content::Layer(1),
        scissor,
        clip_planes: planes_off(),
    };
    let comp_first = layer1(Box2U16 { min: [0, 0], max: [1, 1] });
    let bg = solid([0, 0, 0, 0], 256, full_scissor());
    let comp_all = layer1(full_scissor());
    rast.rasterize(&[(&inner, 1), (&comp_first, 0)], [0, 0]);
    assert_eq!(result_of(&rast)[0], [40, 80, 120, 255]);
    rast.rasterize(&[(&bg, 0), (&comp_all, 0)], [0, 0]);
    let img = result_of(&rast);
    // Pixel 0 of layer 1 was cleared by the first composite
    assert_eq!(img[0], [0, 0, 0, 255]);
    assert_eq!(img[1], [40, 80, 120, 255]);
    assert_eq!(img[2], [0, 0, 0, 255]);
}

#[test]
fn slice_flags_follow_edge_alignment() {
    let cp_aa = ELEM_CLIP_PLANES | ELEM_CLIP_PLANES_ANTIALIASED;
    // Aligned to pixels: no clip planes.
    assert_eq!(slice_elem_flags(true, true, true, false), (0, false));
    // Aligned to axes: the elements draw the antialiased edge, unless a
    // proxy does.
    assert_eq!(slice_elem_flags(true, false, true, false), (cp_aa, false));
    assert_eq!(slice_elem_flags(false, false, true, true), (0, false));
    // Slices of a rotated element are cut by aliased clip planes.
    assert_eq!(slice_elem_flags(true, false, false, true), (ELEM_CLIP_PLANES, true));
    assert_eq!(slice_elem_flags(false, false, false, false), (cp_aa, false));
}

#[test]
fn valid_slice_lookups() {
    // Rows 0 and 2 are not empty.
    assert_eq!(next_valid_slice(0b101, 0), 2);
    assert_eq!(next_valid_slice(0b101, 2), 3);
    assert_eq!(next_valid_slice(0b011, 0), 1);
    assert_eq!(first_valid_slice(0b110), 1);
    assert_eq!(first_valid_slice(0), 0);
    assert_eq!(last_valid_slice(0b011), 1);
    assert_eq!(last_valid_slice(0b100), 2);
}

#[test]
fn copy_to_overlapping_rows_keeps_the_last_row() {
    let mut rast = BinRast::new();
    let top = solid([1, 2, 3, 0], 256, Box2U16 { min: [0, 0], max: [16, 1] });
    let bottom = solid([7, 8, 9, 0], 256, Box2U16 { min: [0, 1], max: [16, 2] });
    rast.rasterize(&[(&top, 0), (&bottom, 0)], [0, 0]);
    // Rows one pixel apart, two pixels wide: the second row overwrites the
    // second pixel of the first.
    let mut out = vec![0u8; 12];
    rast.copy_to(&mut out, 4, 2, 2);
    assert_eq!(&out[0..4], &[1, 2, 3, 255]);
    assert_eq!(&out[4..8], &[7, 8, 9, 255]);
    assert_eq!(&out[8..12], &[7, 8, 9, 255]);
}

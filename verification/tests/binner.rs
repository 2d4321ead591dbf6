use tcw3_pal::swrast::bin::{Box2U16, ClipPlanes, Content, Elem, ElemFlags};
use tcw3_pal::swrast::binner::{box_intersection, Binner, GroupMask, NONE};
use tcw3_pal::unix::bitmap::Bitmap;

fn solid(color: [u8; 4], scissor: Box2U16) -> Elem<Bitmap> {
    Elem {
        flags: ElemFlags(0),
        opacity: 256,
        content: Content::Solid(color),
        scissor,
        clip_planes: [ClipPlanes::default_planes(), ClipPlanes::default_planes()],
    }
}

fn bx(min: [u16; 2], max: [u16; 2]) -> Box2U16 {
    Box2U16 { min, max }
}

/// The bin's elements as (color or layer, layer) pairs.
fn summary(binner: &Binner<Bitmap>, bin: [usize; 2]) -> Vec<(String, u8)> {
    binner
        .bin_elems(bin)
        .into_iter()
        .map(|(e, layer)| {
            let what = match &e.content {
                Content::Solid(c) => format!("solid{}", c[0]),
                Content::Layer(l) => format!("layer{}", l),
                Content::Bmp { .. } => "bmp".to_owned(),
            };
            (what, layer)
        })
        .collect()
}

#[test]
fn build_sizes_the_bins() {
    let binner = Binner::<Bitmap>::new();
    assert_eq!(binner.target_size(), [0, 0]);
    let builder = binner.build([40, 20]);
    let binner = builder.finish();
    assert_eq!(binner.target_size(), [40, 20]);
    assert_eq!(binner.bin_count(), [3, 2]);
    assert!(binner.bin_elems([2, 1]).is_empty());
}

#[test]
fn elements_go_to_the_bins_they_touch() {
    let mut builder = Binner::<Bitmap>::new().build([40, 20]);
    builder.insert_elem(solid([1, 0, 0, 0], bx([0, 0], [20, 10])));
    let binner = builder.finish();
    assert_eq!(summary(&binner, [0, 0]), vec![("solid1".to_owned(), 0)]);
    assert_eq!(summary(&binner, [1, 0]), vec![("solid1".to_owned(), 0)]);
    assert!(summary(&binner, [2, 0]).is_empty());
    assert!(summary(&binner, [0, 1]).is_empty());
}

#[test]
fn lists_come_out_back_to_front() {
    let mut builder = Binner::<Bitmap>::new().build([16, 16]);
    // Inserted front to back
    builder.insert_elem(solid([1, 0, 0, 0], bx([0, 0], [16, 16])));
    builder.insert_elem(solid([2, 0, 0, 0], bx([0, 0], [16, 16])));
    let binner = builder.finish();
    assert_eq!(
        summary(&binner, [0, 0]),
        vec![("solid2".to_owned(), 0), ("solid1".to_owned(), 0)]
    );
}

#[test]
fn translucent_groups_get_a_layer() {
    let mut builder = Binner::<Bitmap>::new().build([40, 20]);
    assert!(builder.group_needs_layer(&None, 128));
    assert!(!builder.group_needs_layer(&None, 256));
    builder.open_group(None, 128);
    assert_eq!(builder.layer(), 1);
    builder.insert_elem(solid([3, 0, 0, 0], bx([0, 0], [10, 10])));
    builder.close_group();
    assert_eq!(builder.layer(), 0);
    builder.insert_elem(solid([4, 0, 0, 0], bx([0, 0], [40, 20])));
    let binner = builder.finish();
    // Draw the group's content into layer 1, composite it onto layer 0, then
    // draw what lies in front of the group
    assert_eq!(
        summary(&binner, [0, 0]),
        vec![
            ("solid4".to_owned(), 0),
            ("solid3".to_owned(), 1),
            ("layer1".to_owned(), 0),
        ]
    );
    // A bin without content of the group gets no compositing fragment
    assert_eq!(summary(&binner, [2, 1]), vec![("solid4".to_owned(), 0)]);
}

#[test]
fn opaque_unmasked_groups_share_the_layer() {
    let mut builder = Binner::<Bitmap>::new().build([16, 16]);
    builder.open_group(None, 256);
    assert_eq!(builder.layer(), 0);
    builder.insert_elem(solid([5, 0, 0, 0], bx([0, 0], [16, 16])));
    builder.close_group();
    let binner = builder.finish();
    assert_eq!(summary(&binner, [0, 0]), vec![("solid5".to_owned(), 0)]);
}

#[test]
fn masked_groups_clip_the_scissor() {
    let mut builder = Binner::<Bitmap>::new().build([64, 64]);
    let aligned = [
        ClipPlanes { n: [256, 0], d: 0..(16 * 256) },
        ClipPlanes { n: [0, 256], d: 0..(16 * 256) },
    ];
    let mask = GroupMask { bbox: Some(bx([0, 0], [16, 16])), clip_planes: aligned };
    // Aligned to pixels and opaque: no layer
    assert!(!builder.group_needs_layer(&Some(mask), 256));
    let slanted = [
        ClipPlanes { n: [181, 181], d: 0..1000 },
        ClipPlanes { n: [-181, 181], d: 0..1000 },
    ];
    let mask = GroupMask { bbox: Some(bx([8, 8], [100, 100])), clip_planes: slanted };
    builder.open_group(Some(mask), 256);
    assert_eq!(builder.layer(), 1);
    builder.insert_elem(solid([6, 0, 0, 0], bx([8, 8], [20, 20])));
    builder.close_group();
    let binner = builder.finish();
    let elems = binner.bin_elems([0, 0]);
    assert_eq!(elems.len(), 2);
    let comp = elems[1].0;
    assert!(matches!(comp.content, Content::Layer(1)));
    // The group's scissor is the mask's box clipped to the target
    assert_eq!(comp.scissor.min, [8, 8]);
    assert_eq!(comp.scissor.max, [64, 64]);
    assert_eq!(comp.flags, ElemFlags(3));
}

#[test]
fn box_intersections() {
    assert_eq!(
        box_intersection(&bx([0, 0], [10, 10]), &bx([5, 2], [20, 8])).map(|b| (b.min, b.max)),
        Some(([5, 2], [10, 8]))
    );
    assert!(box_intersection(&bx([0, 0], [10, 10]), &bx([10, 0], [20, 10])).is_none());
}

#[test]
fn closing_a_group_restores_scissor_and_layer() {
    let binner: Binner<Bitmap> = Binner::new();
    let mut builder = binner.build([64, 64]);
    let mask = GroupMask {
        bbox: Some(bx([8, 8], [40, 40])),
        clip_planes: [
            ClipPlanes { n: [181, 181], d: 0..1000 },
            ClipPlanes { n: [-181, 181], d: 0..1000 },
        ],
    };
    let corners = |s: Option<Box2U16>| s.map(|b| (b.min, b.max));
    let scissor0 = corners(builder.scissor());
    let layer0 = builder.layer();
    builder.open_group(Some(mask), 128);
    assert_eq!(builder.layer(), layer0 + 1);
    assert_eq!(corners(builder.scissor()), Some(([8, 8], [40, 40])));
    builder.close_group();
    assert_eq!(corners(builder.scissor()), scissor0);
    assert_eq!(builder.layer(), layer0);
}

#[test]
fn an_element_adds_one_fragment_per_touched_bin() {
    let mut builder = Binner::<Bitmap>::new().build([32, 16]);
    builder.insert_elem(solid([40, 60, 80, 255], bx([0, 0], [16, 16])));
    let binner = builder.finish();
    assert_eq!(binner.bin_count(), [2, 1]);
    assert_eq!(binner.frag_count(), 1);
    assert_eq!(binner.bin_last_frag([0, 0]), 0);
    assert_eq!(binner.bin_last_frag([1, 0]), NONE);
    assert_eq!(summary(&binner, [0, 0]), vec![("solid40".to_owned(), 0)]);
}

#[test]
fn a_wide_element_touches_every_bin_it_spans() {
    let mut builder = Binner::<Bitmap>::new().build([40, 20]);
    builder.insert_elem(solid([1, 0, 0, 0], bx([0, 0], [40, 20])));
    builder.insert_elem(solid([2, 0, 0, 0], bx([17, 0], [20, 5])));
    let binner = builder.finish();
    // 3 x 2 bins for the first element, one for the second
    assert_eq!(binner.frag_count(), 7);
    // Each bin's last link names the first fragment pushed to it
    assert_eq!(binner.bin_last_frag([0, 0]), 0);
    assert_eq!(binner.bin_last_frag([0, 1]), 1);
    assert_eq!(binner.bin_last_frag([1, 0]), 2);
    assert_eq!(binner.bin_last_frag([2, 1]), 5);
}

#[test]
fn opening_and_closing_groups_adds_no_fragment() {
    let mut builder = Binner::<Bitmap>::new().build([16, 16]);
    builder.open_group(None, 128);
    builder.close_group();
    let binner = builder.finish();
    assert_eq!(binner.frag_count(), 0);
    assert_eq!(binner.bin_last_frag([0, 0]), NONE);

    let mut builder = Binner::<Bitmap>::new().build([16, 16]);
    builder.insert_elem(solid([1, 0, 0, 0], bx([0, 0], [16, 16])));
    builder.open_group(None, 128);
    builder.close_group();
    assert_eq!(builder.layer(), 0);
    let binner = builder.finish();
    assert_eq!(binner.frag_count(), 1);
}

#[test]
fn a_layered_group_adds_a_compositing_fragment_first() {
    let mut builder = Binner::<Bitmap>::new().build([16, 16]);
    builder.open_group(None, 128);
    builder.insert_elem(solid([3, 0, 0, 0], bx([0, 0], [8, 8])));
    builder.close_group();
    let binner = builder.finish();
    // The compositing fragment, then the element's own
    assert_eq!(binner.frag_count(), 2);
    assert_eq!(binner.bin_last_frag([0, 0]), 0);
    assert_eq!(
        summary(&binner, [0, 0]),
        vec![("solid3".to_owned(), 1), ("layer1".to_owned(), 0)]
    );
}

#[test]
fn nested_groups_restore_the_outer_state() {
    let mut builder = Binner::<Bitmap>::new().build([64, 64]);
    let corners = |s: Option<Box2U16>| s.map(|b| (b.min, b.max));
    let mask = GroupMask {
        bbox: Some(bx([8, 8], [40, 40])),
        clip_planes: [ClipPlanes::default_planes(), ClipPlanes::default_planes()],
    };
    let s0 = corners(builder.scissor());
    builder.open_group(None, 128);
    let s1 = corners(builder.scissor());
    builder.open_group(Some(mask), 64);
    assert_eq!(builder.layer(), 2);
    assert_eq!(corners(builder.scissor()), Some(([8, 8], [40, 40])));
    builder.insert_elem(solid([1, 0, 0, 0], bx([8, 8], [16, 16])));
    builder.close_group();
    assert_eq!(builder.layer(), 1);
    assert_eq!(corners(builder.scissor()), s1);
    builder.close_group();
    assert_eq!(builder.layer(), 0);
    assert_eq!(corners(builder.scissor()), s0);
}

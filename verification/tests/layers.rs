use tcw3_pal::swrast::layers::{
    layer_dirty_rect, HLayer, HWnd, LayerAttrs, LayerContent, Screen,
};
use tcw3_pal::swrast::utils::UBox2;

/// The attributes the tests give layers: an axis-aligned box, whether a
/// bitmap is attached, the background alpha, masking and opacity.
#[derive(Debug, Clone)]
struct TestAttrs {
    bounds: [[f32; 2]; 2],
    bitmap: bool,
    bg_alpha: f32,
    mask_to_bounds: bool,
    opacity: f32,
}

impl Default for TestAttrs {
    fn default() -> Self {
        TestAttrs {
            bounds: [[0.0; 2]; 2],
            bitmap: false,
            bg_alpha: 0.0,
            mask_to_bounds: false,
            opacity: 1.0,
        }
    }
}

/// The window attributes: the DPI scale.
type TestScreen = Screen<TestAttrs, f32>;

/// A change of attributes, each field optional.
#[derive(Default)]
struct Change {
    bounds: Option<[[f32; 2]; 2]>,
    bitmap: Option<bool>,
    bg_alpha: Option<f32>,
    mask_to_bounds: Option<bool>,
    opacity: Option<f32>,
    sublayers: Option<Vec<HLayer>>,
}

fn to_attrs(base: &TestAttrs, c: Change) -> LayerAttrs<TestAttrs> {
    let modified = c.bounds.is_some()
        || c.bitmap.is_some()
        || c.bg_alpha.is_some()
        || c.mask_to_bounds.is_some()
        || c.opacity.is_some();
    let content = if modified {
        let mut a = base.clone();
        if let Some(x) = c.bounds {
            a.bounds = x;
        }
        if let Some(x) = c.bitmap {
            a.bitmap = x;
        }
        if let Some(x) = c.bg_alpha {
            a.bg_alpha = x;
        }
        if let Some(x) = c.mask_to_bounds {
            a.mask_to_bounds = x;
        }
        if let Some(x) = c.opacity {
            a.opacity = x;
        }
        Some(LayerContent {
            has_content: a.bitmap || a.bg_alpha > 0.0,
            mask_to_bounds: a.mask_to_bounds,
            opacity_modified: c.opacity.is_some(),
            attrs: a,
        })
    } else {
        None
    };
    LayerAttrs {
        sublayers: c.sublayers,
        content,
    }
}

fn new_layer(screen: &mut TestScreen, c: Change) -> HLayer {
    let attrs = to_attrs(&TestAttrs::default(), c);
    screen.new_layer(TestAttrs::default(), attrs)
}

fn set_layer(screen: &mut TestScreen, h: HLayer, c: Change) {
    let attrs = to_attrs(screen.layer_attrs(h), c);
    screen.set_layer_attr(h, attrs);
}

fn bx(min: [usize; 2], max: [usize; 2]) -> UBox2 {
    UBox2 { min, max }
}

/// The window pixels that each layer's box covers, scaled by the window's
/// DPI scale and clipped to the window.
fn shapes(screen: &TestScreen, w: HWnd) -> Vec<Option<UBox2>> {
    let size = screen.wnd_size_of(w);
    let dpi = *screen.wnd_attrs_of(w);
    (0..screen.slot_count())
        .map(|i| {
            let h = screen.layer_at(i)?;
            let b = screen.layer_attrs(h).bounds;
            let min = [
                (b[0][0] * dpi).floor().max(0.0) as usize,
                (b[0][1] * dpi).floor().max(0.0) as usize,
            ];
            let max = [
                (b[1][0] * dpi).ceil().min(size[0] as f32) as usize,
                (b[1][1] * dpi).ceil().min(size[1] as f32) as usize,
            ];
            let r = bx(min, max);
            if r.is_empty() {
                None
            } else {
                Some(r)
            }
        })
        .collect()
}

fn update(screen: &mut TestScreen, w: HWnd) -> Option<UBox2> {
    let s = shapes(screen, w);
    screen.update_wnd(w, &s)
}

fn full(w: usize, h: usize) -> Option<UBox2> {
    Some(bx([0, 0], [w, h]))
}

#[test]
fn empty_wnds() {
    let mut screen = TestScreen::new();

    let wnd1 = screen.new_wnd(1.0);
    let wnd2 = screen.new_wnd(1.0);

    screen.set_wnd_size(wnd1, [20, 30]);
    screen.set_wnd_size(wnd2, [40, 50]);

    assert_eq!(update(&mut screen, wnd1), full(20, 30));
    assert_eq!(update(&mut screen, wnd2), full(40, 50));

    for _ in 0..2 {
        assert_eq!(update(&mut screen, wnd1), None);
        assert_eq!(update(&mut screen, wnd2), None);
    }

    screen.remove_wnd(wnd1);
    screen.remove_wnd(wnd2);
    assert!(!screen.contains_wnd(wnd1));
}

#[test]
fn layer_ref_counting1() {
    let mut screen = TestScreen::new();

    let layer1 = new_layer(&mut screen, Change::default());
    let layer2 = new_layer(&mut screen, Change::default());

    assert_eq!(screen.layer_count(), 2);

    set_layer(
        &mut screen,
        layer1,
        Change {
            sublayers: Some(vec![layer2]),
            ..Default::default()
        },
    );

    screen.remove_layer(layer2);
    assert_eq!(screen.layer_count(), 2);

    screen.remove_layer(layer1);
    assert_eq!(screen.layer_count(), 0);
}

#[test]
fn layer_ref_counting2() {
    let mut screen = TestScreen::new();

    let layer1 = new_layer(&mut screen, Change::default());
    let layer2 = new_layer(&mut screen, Change::default());

    assert_eq!(screen.layer_count(), 2);

    let wnd = screen.new_wnd(1.0);
    screen.set_wnd_layer(wnd, Some(layer1));

    screen.remove_layer(layer1);
    assert_eq!(screen.layer_count(), 2);

    screen.set_wnd_layer(wnd, Some(layer2));
    assert_eq!(screen.layer_count(), 1);

    screen.remove_layer(layer2);
    assert_eq!(screen.layer_count(), 1);

    screen.remove_wnd(wnd);
    assert_eq!(screen.layer_count(), 0);
}

#[test]
fn layer_ref_counting3() {
    let mut screen = TestScreen::new();

    let layer1 = new_layer(&mut screen, Change::default());
    let layer2 = new_layer(&mut screen, Change::default());
    let layer3 = new_layer(&mut screen, Change::default());

    assert_eq!(screen.layer_count(), 3);

    set_layer(
        &mut screen,
        layer1,
        Change {
            sublayers: Some(vec![layer2]),
            ..Default::default()
        },
    );

    let wnd = screen.new_wnd(1.0);
    screen.set_wnd_layer(wnd, Some(layer1));
    // wnd -> layer1 -> layer2

    update(&mut screen, wnd);

    set_layer(
        &mut screen,
        layer1,
        Change {
            sublayers: Some(vec![layer3]),
            ..Default::default()
        },
    );
    // wnd -> layer1 -> layer3

    screen.remove_layer(layer2);
    assert_eq!(screen.layer_count(), 3);

    update(&mut screen, wnd);
    assert_eq!(screen.layer_count(), 2);
}

#[test]
fn root_update_content() {
    let mut screen = TestScreen::new();

    let layer1 = new_layer(
        &mut screen,
        Change {
            bounds: Some([[20.0, 30.0], [80.0, 50.0]]),
            ..Default::default()
        },
    );

    let wnd = screen.new_wnd(1.0);
    screen.set_wnd_size(wnd, [100, 100]);
    screen.set_wnd_layer(wnd, Some(layer1));

    assert_eq!(update(&mut screen, wnd), full(100, 100));
    assert_eq!(update(&mut screen, wnd), None);

    set_layer(
        &mut screen,
        layer1,
        Change {
            bitmap: Some(true),
            ..Default::default()
        },
    );

    assert_eq!(update(&mut screen, wnd), Some(bx([20, 30], [80, 50])));
}

#[test]
fn root_update_position() {
    let mut screen = TestScreen::new();

    let layer1 = new_layer(
        &mut screen,
        Change {
            bounds: Some([[20.0, 30.0], [80.0, 50.0]]),
            bg_alpha: Some(0.8),
            ..Default::default()
        },
    );

    let wnd = screen.new_wnd(1.0);
    screen.set_wnd_size(wnd, [100, 100]);
    screen.set_wnd_layer(wnd, Some(layer1));

    assert_eq!(update(&mut screen, wnd), full(100, 100));
    assert_eq!(update(&mut screen, wnd), None);

    set_layer(
        &mut screen,
        layer1,
        Change {
            bounds: Some([[40.0, 70.0], [90.0, 80.0]]),
            ..Default::default()
        },
    );

    assert_eq!(update(&mut screen, wnd), Some(bx([20, 30], [90, 80])));
}

#[test]
fn sublayer_update_content() {
    let mut screen = TestScreen::new();

    let layer2 = new_layer(
        &mut screen,
        Change {
            bounds: Some([[20.0, 30.0], [80.0, 50.0]]),
            ..Default::default()
        },
    );
    let layer1 = new_layer(
        &mut screen,
        Change {
            bounds: Some([[30.0, 40.0], [60.0, 60.0]]),
            sublayers: Some(vec![layer2]),
            ..Default::default()
        },
    );

    let wnd = screen.new_wnd(1.0);
    screen.set_wnd_size(wnd, [100, 100]);
    screen.set_wnd_layer(wnd, Some(layer1));

    assert_eq!(update(&mut screen, wnd), full(100, 100));
    assert_eq!(update(&mut screen, wnd), None);

    set_layer(
        &mut screen,
        layer2,
        Change {
            bitmap: Some(true),
            ..Default::default()
        },
    );

    assert_eq!(update(&mut screen, wnd), Some(bx([20, 30], [80, 50])));
}

#[test]
fn sublayer_update_position() {
    let mut screen = TestScreen::new();

    let layer2 = new_layer(
        &mut screen,
        Change {
            bounds: Some([[20.0, 30.0], [80.0, 50.0]]),
            bg_alpha: Some(0.8),
            ..Default::default()
        },
    );
    let layer1 = new_layer(
        &mut screen,
        Change {
            bounds: Some([[30.0, 40.0], [60.0, 60.0]]),
            sublayers: Some(vec![layer2]),
            ..Default::default()
        },
    );

    let wnd = screen.new_wnd(1.0);
    screen.set_wnd_size(wnd, [100, 100]);
    screen.set_wnd_layer(wnd, Some(layer1));

    assert_eq!(update(&mut screen, wnd), full(100, 100));
    assert_eq!(update(&mut screen, wnd), None);

    set_layer(
        &mut screen,
        layer2,
        Change {
            bounds: Some([[40.0, 70.0], [90.0, 80.0]]),
            ..Default::default()
        },
    );

    assert_eq!(update(&mut screen, wnd), Some(bx([20, 30], [90, 80])));
}

#[test]
fn masked_sublayer_update_content() {
    let mut screen = TestScreen::new();

    let layer2 = new_layer(
        &mut screen,
        Change {
            bounds: Some([[20.0, 30.0], [80.0, 50.0]]),
            ..Default::default()
        },
    );
    let layer1 = new_layer(
        &mut screen,
        Change {
            bounds: Some([[30.0, 40.0], [60.0, 60.0]]),
            sublayers: Some(vec![layer2]),
            mask_to_bounds: Some(true),
            ..Default::default()
        },
    );

    let wnd = screen.new_wnd(1.0);
    screen.set_wnd_size(wnd, [100, 100]);
    screen.set_wnd_layer(wnd, Some(layer1));

    assert_eq!(update(&mut screen, wnd), full(100, 100));
    assert_eq!(update(&mut screen, wnd), None);

    set_layer(
        &mut screen,
        layer2,
        Change {
            bitmap: Some(true),
            ..Default::default()
        },
    );

    assert_eq!(update(&mut screen, wnd), Some(bx([30, 40], [60, 50])));
}

#[test]
fn masked_sublayer_update_position() {
    let mut screen = TestScreen::new();

    let layer2 = new_layer(
        &mut screen,
        Change {
            bounds: Some([[20.0, 30.0], [80.0, 50.0]]),
            bg_alpha: Some(0.8),
            ..Default::default()
        },
    );
    let layer1 = new_layer(
        &mut screen,
        Change {
            bounds: Some([[30.0, 40.0], [60.0, 60.0]]),
            sublayers: Some(vec![layer2]),
            mask_to_bounds: Some(true),
            ..Default::default()
        },
    );

    let wnd = screen.new_wnd(1.0);
    screen.set_wnd_size(wnd, [100, 100]);
    screen.set_wnd_layer(wnd, Some(layer1));

    assert_eq!(update(&mut screen, wnd), full(100, 100));
    assert_eq!(update(&mut screen, wnd), None);

    set_layer(
        &mut screen,
        layer2,
        Change {
            bounds: Some([[40.0, 50.0], [90.0, 80.0]]),
            ..Default::default()
        },
    );

    assert_eq!(update(&mut screen, wnd), Some(bx([30, 40], [60, 60])));
}

#[test]
fn masked_sublayer_update_position2() {
    let mut screen = TestScreen::new();

    let layer2 = new_layer(
        &mut screen,
        Change {
            bounds: Some([[20.0, 30.0], [80.0, 50.0]]),
            bg_alpha: Some(0.8),
            ..Default::default()
        },
    );
    let layer1 = new_layer(
        &mut screen,
        Change {
            bounds: Some([[10.0, 40.0], [60.0, 60.0]]),
            sublayers: Some(vec![layer2]),
            mask_to_bounds: Some(true),
            ..Default::default()
        },
    );

    let wnd = screen.new_wnd(1.0);
    screen.set_wnd_size(wnd, [100, 100]);
    screen.set_wnd_layer(wnd, Some(layer1));

    assert_eq!(update(&mut screen, wnd), full(100, 100));
    assert_eq!(update(&mut screen, wnd), None);

    set_layer(
        &mut screen,
        layer2,
        Change {
            bounds: Some([[40.0, 50.0], [90.0, 80.0]]),
            ..Default::default()
        },
    );

    assert_eq!(update(&mut screen, wnd), Some(bx([20, 40], [60, 60])));
}

#[test]
fn masked_sublayer_update_position2_dpi_scale() {
    let mut screen = TestScreen::new();

    let layer2 = new_layer(
        &mut screen,
        Change {
            bounds: Some([[20.0, 30.0], [80.0, 50.0]]),
            bg_alpha: Some(0.8),
            ..Default::default()
        },
    );
    let layer1 = new_layer(
        &mut screen,
        Change {
            bounds: Some([[10.0, 40.0], [60.0, 60.0]]),
            sublayers: Some(vec![layer2]),
            mask_to_bounds: Some(true),
            ..Default::default()
        },
    );

    let wnd = screen.new_wnd(1.0);
    screen.set_wnd_size(wnd, [200, 200]);
    screen.set_wnd_attrs(wnd, 2.0);
    screen.set_wnd_layer(wnd, Some(layer1));

    assert_eq!(update(&mut screen, wnd), full(200, 200));
    assert_eq!(update(&mut screen, wnd), None);

    set_layer(
        &mut screen,
        layer2,
        Change {
            bounds: Some([[40.0, 50.0], [90.0, 80.0]]),
            ..Default::default()
        },
    );

    assert_eq!(update(&mut screen, wnd), Some(bx([40, 80], [120, 120])));
}

#[test]
fn root_opacity() {
    let mut screen = TestScreen::new();

    let layer2 = new_layer(
        &mut screen,
        Change {
            bounds: Some([[20.0, 30.0], [80.0, 50.0]]),
            bitmap: Some(true),
            ..Default::default()
        },
    );
    let layer1 = new_layer(
        &mut screen,
        Change {
            bounds: Some([[30.0, 40.0], [60.0, 60.0]]),
            sublayers: Some(vec![layer2]),
            ..Default::default()
        },
    );

    let wnd = screen.new_wnd(1.0);
    screen.set_wnd_size(wnd, [100, 100]);
    screen.set_wnd_layer(wnd, Some(layer1));

    assert_eq!(update(&mut screen, wnd), full(100, 100));
    assert_eq!(update(&mut screen, wnd), None);

    set_layer(
        &mut screen,
        layer1,
        Change {
            opacity: Some(0.5),
            ..Default::default()
        },
    );

    assert_eq!(update(&mut screen, wnd), Some(bx([20, 30], [80, 50])));
}

// Tests of our own

#[test]
fn settled_window_reports_nothing() {
    let mut screen = TestScreen::new();
    let layer = new_layer(
        &mut screen,
        Change {
            bounds: Some([[1.0, 1.0], [5.0, 5.0]]),
            bitmap: Some(true),
            ..Default::default()
        },
    );
    let wnd = screen.new_wnd(1.0);
    screen.set_wnd_size(wnd, [10, 10]);
    screen.set_wnd_layer(wnd, Some(layer));
    assert_eq!(update(&mut screen, wnd), full(10, 10));
    for _ in 0..3 {
        assert_eq!(update(&mut screen, wnd), None);
    }
}

#[test]
fn resizing_updates_the_whole_window() {
    let mut screen = TestScreen::new();
    let wnd = screen.new_wnd(1.0);
    screen.set_wnd_size(wnd, [10, 10]);
    assert_eq!(update(&mut screen, wnd), full(10, 10));
    screen.set_wnd_size(wnd, [30, 20]);
    assert_eq!(update(&mut screen, wnd), full(30, 20));
    assert_eq!(update(&mut screen, wnd), None);
}

#[test]
fn removed_and_added_sublayers_are_dirty() {
    let mut screen = TestScreen::new();
    let a = new_layer(
        &mut screen,
        Change {
            bounds: Some([[0.0, 0.0], [10.0, 10.0]]),
            bitmap: Some(true),
            ..Default::default()
        },
    );
    let b = new_layer(
        &mut screen,
        Change {
            bounds: Some([[50.0, 50.0], [60.0, 60.0]]),
            bitmap: Some(true),
            ..Default::default()
        },
    );
    let root = new_layer(
        &mut screen,
        Change {
            sublayers: Some(vec![a]),
            ..Default::default()
        },
    );
    let wnd = screen.new_wnd(1.0);
    screen.set_wnd_size(wnd, [100, 100]);
    screen.set_wnd_layer(wnd, Some(root));
    assert_eq!(update(&mut screen, wnd), full(100, 100));

    // Replace `a` with `b`: both boxes change.
    set_layer(
        &mut screen,
        root,
        Change {
            sublayers: Some(vec![b]),
            ..Default::default()
        },
    );
    assert_eq!(update(&mut screen, wnd), Some(bx([0, 0], [60, 60])));

    // Keep `b` and add `a` after it: only `a`'s box changes.
    set_layer(
        &mut screen,
        root,
        Change {
            sublayers: Some(vec![b, a]),
            ..Default::default()
        },
    );
    assert_eq!(update(&mut screen, wnd), Some(bx([0, 0], [10, 10])));
    assert_eq!(update(&mut screen, wnd), None);
}

#[test]
fn masking_a_layer_without_content_counts_the_mask_change() {
    // Moving the mask of a layer that draws nothing itself changes which
    // part of its (unchanged) sublayers shows.
    let mut screen = TestScreen::new();
    let sub = new_layer(
        &mut screen,
        Change {
            bounds: Some([[0.0, 0.0], [100.0, 100.0]]),
            bitmap: Some(true),
            ..Default::default()
        },
    );
    let root = new_layer(
        &mut screen,
        Change {
            bounds: Some([[10.0, 10.0], [20.0, 20.0]]),
            mask_to_bounds: Some(true),
            sublayers: Some(vec![sub]),
            ..Default::default()
        },
    );
    let wnd = screen.new_wnd(1.0);
    screen.set_wnd_size(wnd, [100, 100]);
    screen.set_wnd_layer(wnd, Some(root));
    assert_eq!(update(&mut screen, wnd), full(100, 100));
    set_layer(
        &mut screen,
        root,
        Change {
            bounds: Some([[30.0, 10.0], [40.0, 20.0]]),
            ..Default::default()
        },
    );
    assert_eq!(update(&mut screen, wnd), Some(bx([10, 10], [40, 20])));
}

#[test]
fn dirty_rect_formula() {
    let a = Some(bx([0, 0], [10, 10]));
    let b = Some(bx([5, 5], [20, 20]));
    // Without masking: the union of the content's and sublayers' changes.
    assert_eq!(
        layer_dirty_rect(a, b, None, None, None, None, false, false),
        Some(bx([0, 0], [20, 20]))
    );
    // With masking, the sublayers' change is clipped by the mask.
    assert_eq!(
        layer_dirty_rect(None, b, None, None, None, a, true, false),
        Some(bx([5, 5], [10, 10]))
    );
    // An opacity change adds the content and the (masked) sublayers.
    assert_eq!(
        layer_dirty_rect(None, None, None, a, b, None, false, true),
        Some(bx([0, 0], [20, 20]))
    );
    assert_eq!(
        layer_dirty_rect(None, None, None, None, None, None, true, false),
        None
    );
}

#[test]
fn layers_are_reference_counted_through_pending_lists() {
    let mut screen = TestScreen::new();
    let child = new_layer(&mut screen, Change::default());
    let parent = new_layer(
        &mut screen,
        Change {
            sublayers: Some(vec![child]),
            ..Default::default()
        },
    );
    assert_eq!(screen.layer_ref_count(child), 2);
    screen.remove_layer(child);
    assert!(screen.contains_layer(child));
    screen.remove_layer(parent);
    assert!(!screen.contains_layer(parent));
    assert!(!screen.contains_layer(child));
    assert_eq!(screen.layer_count(), 0);
}

#[test]
fn removing_a_window_releases_its_root() {
    let mut screen = TestScreen::new();
    let child = new_layer(&mut screen, Change::default());
    let root = new_layer(
        &mut screen,
        Change {
            sublayers: Some(vec![child]),
            ..Default::default()
        },
    );
    screen.remove_layer(child);
    let wnd = screen.new_wnd(1.0);
    screen.set_wnd_layer(wnd, Some(root));
    assert_eq!(screen.layer_ref_count(root), 2);
    screen.remove_layer(root);
    assert_eq!(screen.layer_count(), 2);
    screen.remove_wnd(wnd);
    // The root goes, and with it its only reference to the child
    assert_eq!(screen.layer_count(), 0);
}

#[test]
fn updating_one_window_keeps_another_settled() {
    let mut screen = TestScreen::new();
    let l1 = new_layer(&mut screen, Change::default());
    let l2 = new_layer(&mut screen, Change::default());
    let wnd1 = screen.new_wnd(1.0);
    let wnd2 = screen.new_wnd(1.0);
    screen.set_wnd_size(wnd1, [10, 10]);
    screen.set_wnd_size(wnd2, [10, 10]);
    screen.set_wnd_layer(wnd1, Some(l1));
    screen.set_wnd_layer(wnd2, Some(l2));
    assert_eq!(update(&mut screen, wnd1), full(10, 10));
    assert_eq!(update(&mut screen, wnd2), full(10, 10));
    set_layer(
        &mut screen,
        l1,
        Change {
            bounds: Some([[1.0, 2.0], [3.0, 4.0]]),
            bg_alpha: Some(0.5),
            ..Default::default()
        },
    );
    assert_eq!(update(&mut screen, wnd1), Some(bx([1, 2], [3, 4])));
    assert_eq!(update(&mut screen, wnd2), None);
}

#[test]
fn grandchild_content_change_reaches_the_window() {
    let mut screen = TestScreen::new();
    let leaf = new_layer(
        &mut screen,
        Change {
            bounds: Some([[20.0, 30.0], [80.0, 50.0]]),
            ..Default::default()
        },
    );
    let middle = new_layer(
        &mut screen,
        Change {
            bounds: Some([[10.0, 10.0], [40.0, 40.0]]),
            mask_to_bounds: Some(true),
            sublayers: Some(vec![leaf]),
            ..Default::default()
        },
    );
    let root = new_layer(
        &mut screen,
        Change {
            sublayers: Some(vec![middle]),
            ..Default::default()
        },
    );
    let wnd = screen.new_wnd(1.0);
    screen.set_wnd_size(wnd, [100, 100]);
    screen.set_wnd_layer(wnd, Some(root));
    assert_eq!(update(&mut screen, wnd), full(100, 100));
    assert_eq!(update(&mut screen, wnd), None);

    set_layer(
        &mut screen,
        leaf,
        Change {
            bitmap: Some(true),
            ..Default::default()
        },
    );
    // The leaf's box, clipped to the middle layer's mask
    assert_eq!(update(&mut screen, wnd), Some(bx([20, 30], [40, 40])));
    assert_eq!(update(&mut screen, wnd), None);
}

#[test]
fn reordered_sublayers_count_the_moved_layer() {
    let mut screen = TestScreen::new();
    let a = new_layer(
        &mut screen,
        Change {
            bounds: Some([[0.0, 0.0], [10.0, 10.0]]),
            bitmap: Some(true),
            ..Default::default()
        },
    );
    let b = new_layer(
        &mut screen,
        Change {
            bounds: Some([[50.0, 50.0], [60.0, 60.0]]),
            bitmap: Some(true),
            ..Default::default()
        },
    );
    let root = new_layer(
        &mut screen,
        Change {
            sublayers: Some(vec![a, b]),
            ..Default::default()
        },
    );
    let wnd = screen.new_wnd(1.0);
    screen.set_wnd_size(wnd, [100, 100]);
    screen.set_wnd_layer(wnd, Some(root));
    assert_eq!(update(&mut screen, wnd), full(100, 100));

    // `b` is found after `a`'s place, so `a` counts as removed and added
    // again: only its box changes.
    set_layer(
        &mut screen,
        root,
        Change {
            sublayers: Some(vec![b, a]),
            ..Default::default()
        },
    );
    assert_eq!(update(&mut screen, wnd), Some(bx([0, 0], [10, 10])));
    assert_eq!(update(&mut screen, wnd), None);
}

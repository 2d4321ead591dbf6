//! A retained-mode layer tree for windows, which reports the region of a
//! window that changed since its last update.
//!
//! A layer's attributes are kept as an opaque value of the type `A`; the
//! library reads only what the bookkeeping needs: whether the layer has
//! content, whether it masks its sublayers to its bounds, and, at update
//! time, the box of window pixels that its shape covers.
//!
//! Layers refer to each other by handle. A handle whose layer is gone (which
//! only releasing a layer once too often, or a cycle of sublayers, brings
//! about) is passed over, and an update recurses no deeper than the number
//! of layer slots, which only a cycle of sublayers would exceed.
use vstd::prelude::*;

use super::utils::{union_opt, Box2UsizeUnion, UBox2};

verus! {

/// The index that marks "not in the old sublayer list".
pub const NONE: usize = usize::MAX;

/// The window handle type of [`Screen`].
#[derive(Debug, Clone, Copy, PartialEq, Eq, Structural)]
pub struct HWnd {
    index: usize,
}

/// The layer handle type of [`Screen`].
#[derive(Debug, Clone, Copy, PartialEq, Eq, Structural)]
pub struct HLayer {
    index: usize,
}

impl HWnd {
    /// The slot of the window.
    pub closed spec fn spec_slot(self) -> usize {
        self.index
    }
}

impl HLayer {
    /// The slot of the layer.
    pub closed spec fn spec_slot(self) -> usize {
        self.index
    }

    /// The slot of the layer: the index of its entry in a table indexed by
    /// layer slots, such as the shapes given to `Screen::update_wnd`.
    pub fn slot(&self) -> (r: usize)
        ensures
            r == self.spec_slot(),
    {
        self.index
    }
}

/// What holds a layer.
#[derive(Debug, Clone, Copy, PartialEq, Eq, Structural)]
pub enum Superlayer {
    Layer(HLayer),
    Wnd,
}

/// The uncommitted changes of a layer.
#[derive(Debug, Clone, Copy, PartialEq, Eq, Structural)]
pub struct LayerDirty {
    /// The layer content has uncommitted changes.
    pub content: bool,
    /// The layer opacity has uncommitted changes. This affects the layer
    /// content as well as the sublayers.
    pub opacity: bool,
    /// One or more sublayers may have uncommitted changes in their content,
    /// opacity and/or sublayers.
    pub descendant: bool,
}

/// The content of a layer as the bookkeeping sees it.
pub struct LayerContent<A> {
    /// The attributes, opaque to the bookkeeping.
    pub attrs: A,
    /// The layer draws a bitmap or a visible background.
    pub has_content: bool,
    /// The sublayers are clipped by the layer's bounds.
    pub mask_to_bounds: bool,
    /// The opacity is among the attributes that changed.
    pub opacity_modified: bool,
}

/// A change of a layer: its new sublayer list and its new content, each if
/// given.
pub struct LayerAttrs<A> {
    pub sublayers: Option<Vec<HLayer>>,
    pub content: Option<LayerContent<A>>,
}

struct Layer<A> {
    /// References: `Layer::sublayers`, `Layer::new_sublayers`, a window's
    /// root, and client-visible `HLayer`s.
    ref_count: u8,
    dirty: LayerDirty,
    attrs: A,
    has_content: bool,
    mask_to_bounds: bool,
    sublayers: Vec<HLayer>,
    /// The uncommitted sublayer list.
    new_sublayers: Option<Vec<HLayer>>,
    superlayer: Option<Superlayer>,
    // Derived values calculated during an update
    /// The bounding box.
    bbox: Option<UBox2>,
    /// The bounding box of the layer content (not sublayers).
    bbox_content: Option<UBox2>,
    /// The bounding box of the sublayers.
    bbox_sublayers: Option<UBox2>,
    /// The bounding box of the clipping mask for the sublayers.
    bbox_mask: Option<UBox2>,
    // Only used during an update
    sublayers_i: usize,
    dirty_rect: Option<UBox2>,
    old_bbox: Option<UBox2>,
}

struct Wnd<W> {
    /// An entire window needs to be updated. This does not reflect the root
    /// layer's dirty flags.
    dirty: bool,
    size: [usize; 2],
    attrs: W,
    root: Option<HLayer>,
}

/// Manages layers and windows.
pub struct Screen<A, W> {
    layers: Vec<Option<Layer<A>>>,
    free_layers: Vec<usize>,
    wnds: Vec<Option<Wnd<W>>>,
    free_wnds: Vec<usize>,
}

/// `None` or a box that is not empty.
pub open spec fn box_ok(b: Option<UBox2>) -> bool {
    b matches Some(x) ==> !x.spec_is_empty()
}

/// The number of `true`s in `s`.
pub open spec fn count_true(s: Seq<bool>) -> nat
    decreases s.len(),
{
    if s.len() == 0 {
        0
    } else {
        count_true(s.drop_last()) + if s.last() {
            1nat
        } else {
            0nat
        }
    }
}

proof fn lemma_count_true_update(s: Seq<bool>, i: int, b: bool)
    requires
        0 <= i < s.len(),
    ensures
        count_true(s.update(i, b)) + (if s[i] {
            1int
        } else {
            0int
        }) == count_true(s) + (if b {
            1int
        } else {
            0int
        }),
    decreases s.len(),
{
    if i < s.len() - 1 {
        assert(s.update(i, b).drop_last() =~= s.drop_last().update(i, b));
        lemma_count_true_update(s.drop_last(), i, b);
    } else {
        assert(s.update(i, b).drop_last() =~= s.drop_last());
    }
}

proof fn lemma_count_true_push(s: Seq<bool>, b: bool)
    ensures
        count_true(s.push(b)) == count_true(s) + if b {
            1nat
        } else {
            0nat
        },
{
    assert(s.push(b).drop_last() =~= s);
}

/// A sequence with no `true` counts none.
proof fn lemma_count_true_none(s: Seq<bool>)
    requires
        forall|i: int| 0 <= i < s.len() ==> !s[i],
    ensures
        count_true(s) == 0,
    decreases s.len(),
{
    if s.len() > 0 {
        lemma_count_true_none(s.drop_last());
    }
}

/// The occupied slots of a pool.
pub open spec fn occupied<T>(s: Seq<Option<T>>) -> Seq<bool> {
    s.map_values(|o: Option<T>| o is Some)
}

proof fn lemma_occupied_update<T>(s: Seq<Option<T>>, i: int, x: Option<T>)
    requires
        0 <= i < s.len(),
    ensures
        occupied(s.update(i, x)) == occupied(s).update(i, x is Some),
{
    assert(occupied(s.update(i, x)) =~= occupied(s).update(i, x is Some));
}

proof fn lemma_occupied_push<T>(s: Seq<Option<T>>, x: Option<T>)
    ensures
        occupied(s.push(x)) == occupied(s).push(x is Some),
{
    assert(occupied(s.push(x)) =~= occupied(s).push(x is Some));
}

/// The free list of a pool names distinct vacant slots.
pub open spec fn free_ok<T>(s: Seq<Option<T>>, free: Seq<usize>) -> bool {
    &&& forall|k: int| 0 <= k < free.len() ==> (#[trigger] free[k]) < s.len() && s[free[k] as int] is None
    &&& forall|k1: int, k2: int|
        0 <= k1 < free.len() && 0 <= k2 < free.len() && k1 != k2 ==> #[trigger] free[k1] != #[trigger] free[k2]
}

proof fn lemma_free_ok_fill<T>(s: Seq<Option<T>>, free: Seq<usize>, x: T)
    requires
        free_ok(s, free),
        free.len() > 0,
    ensures
        free_ok(s.update(free.last() as int, Some(x)), free.drop_last()),
{
    let s2 = s.update(free.last() as int, Some(x));
    let f2 = free.drop_last();
    assert forall|k: int| 0 <= k < f2.len() implies (#[trigger] f2[k]) < s2.len() && s2[f2[k] as int] is None by {
        assert(free[k] != free[free.len() - 1]);
    }
}

proof fn lemma_free_ok_vacate<T>(s: Seq<Option<T>>, free: Seq<usize>, i: usize)
    requires
        free_ok(s, free),
        i < s.len(),
        s[i as int] is Some,
    ensures
        free_ok(s.update(i as int, None), free.push(i)),
{
    let s2 = s.update(i as int, None);
    let f2 = free.push(i);
    assert forall|k: int| 0 <= k < f2.len() implies (#[trigger] f2[k]) < s2.len() && s2[f2[k] as int]
        is None by {
        if k < free.len() {
            assert(f2[k] == free[k]);
        }
    }
    assert forall|k1: int, k2: int|
        0 <= k1 < f2.len() && 0 <= k2 < f2.len() && k1 != k2 implies #[trigger] f2[k1] != #[trigger] f2[k2] by {
        if k1 < free.len() && k2 < free.len() {
            assert(f2[k1] == free[k1] && f2[k2] == free[k2]);
        } else if k1 < free.len() {
            assert(f2[k1] == free[k1]);
        } else if k2 < free.len() {
            assert(f2[k2] == free[k2]);
        }
    }
}

proof fn lemma_free_ok_keep<T>(s: Seq<Option<T>>, free: Seq<usize>, i: int, x: T)
    requires
        free_ok(s, free),
        0 <= i < s.len(),
        s[i] is Some,
    ensures
        free_ok(s.update(i, Some(x)), free),
{
    let s2 = s.update(i, Some(x));
    assert forall|k: int| 0 <= k < free.len() implies (#[trigger] free[k]) < s2.len() && s2[free[k] as int]
        is None by {
        assert(free[k] as int != i);
    }
}

proof fn lemma_free_ok_push<T>(s: Seq<Option<T>>, free: Seq<usize>, x: T)
    requires
        free_ok(s, free),
    ensures
        free_ok(s.push(Some(x)), free),
{
    let s2 = s.push(Some(x));
    assert forall|k: int| 0 <= k < free.len() implies (#[trigger] free[k]) < s2.len() && s2[free[k] as int]
        is None by {
        assert(s2[free[k] as int] == s[free[k] as int]);
    }
}

/// The invariant of a live layer: it is referenced, its boxes are `None` or
/// not empty, and it is not in the middle of an update.
spec fn layer_ok<A>(l: Layer<A>) -> bool {
    &&& l.ref_count >= 1
    &&& box_ok(l.bbox)
    &&& box_ok(l.bbox_content)
    &&& box_ok(l.bbox_sublayers)
    &&& box_ok(l.bbox_mask)
    &&& box_ok(l.dirty_rect)
    &&& box_ok(l.old_bbox)
    &&& l.sublayers_i == NONE
}

impl<A, W> Screen<A, W> {
    /// The layer `h` exists.
    pub closed spec fn layer_live(&self, h: HLayer) -> bool {
        h.index < self.layers@.len() && self.layers@[h.index as int] is Some
    }

    spec fn lay(&self, h: HLayer) -> Layer<A> {
        self.layers@[h.index as int].unwrap()
    }

    /// The number of references to the layer `h`.
    pub closed spec fn ref_count(&self, h: HLayer) -> u8 {
        self.lay(h).ref_count
    }

    /// The uncommitted changes of the layer `h`.
    pub closed spec fn dirty(&self, h: HLayer) -> LayerDirty {
        self.lay(h).dirty
    }

    /// The committed sublayers of the layer `h`, back to front.
    pub closed spec fn sublayers(&self, h: HLayer) -> Seq<HLayer> {
        self.lay(h).sublayers@
    }

    /// The uncommitted sublayer list of the layer `h`.
    pub closed spec fn pending_sublayers(&self, h: HLayer) -> Option<Seq<HLayer>> {
        match self.lay(h).new_sublayers {
            Some(v) => Some(v@),
            None => None,
        }
    }

    /// What holds the layer `h`.
    pub closed spec fn superlayer(&self, h: HLayer) -> Option<Superlayer> {
        self.lay(h).superlayer
    }

    /// The attributes of the layer `h`.
    pub closed spec fn attrs(&self, h: HLayer) -> A {
        self.lay(h).attrs
    }

    /// The layer `h` has content.
    pub closed spec fn has_content(&self, h: HLayer) -> bool {
        self.lay(h).has_content
    }

    /// The layer `h` masks its sublayers to its bounds.
    pub closed spec fn mask_to_bounds(&self, h: HLayer) -> bool {
        self.lay(h).mask_to_bounds
    }

    /// The region that the last update of the layer `h` changed.
    pub closed spec fn dirty_rect(&self, h: HLayer) -> Option<UBox2> {
        self.lay(h).dirty_rect
    }

    /// The number of layer slots; layer handles index them.
    pub closed spec fn layer_slots(&self) -> nat {
        self.layers@.len()
    }

    /// The number of layers.
    pub closed spec fn live_layers(&self) -> nat {
        count_true(occupied(self.layers@))
    }

    /// The window `w` exists.
    pub closed spec fn wnd_live(&self, w: HWnd) -> bool {
        w.index < self.wnds@.len() && self.wnds@[w.index as int] is Some
    }

    spec fn wn(&self, w: HWnd) -> Wnd<W> {
        self.wnds@[w.index as int].unwrap()
    }

    /// The whole window `w` needs to be updated.
    pub closed spec fn wnd_dirty(&self, w: HWnd) -> bool {
        self.wn(w).dirty
    }

    /// The size of the window `w`.
    pub closed spec fn wnd_size(&self, w: HWnd) -> [usize; 2] {
        self.wn(w).size
    }

    /// The attributes of the window `w`.
    pub closed spec fn wnd_attrs(&self, w: HWnd) -> W {
        self.wn(w).attrs
    }

    /// The root layer of the window `w`.
    pub closed spec fn wnd_root(&self, w: HWnd) -> Option<HLayer> {
        self.wn(w).root
    }

    /// The layer `h` is the same in `self` and `other`.
    pub closed spec fn same_layer(&self, other: &Self, h: HLayer) -> bool {
        &&& self.layer_live(h) == other.layer_live(h)
        &&& self.layer_live(h) ==> self.lay(h) == other.lay(h)
    }

    /// The layer `h` has the same attributes, sublayers, change flags and
    /// boxes in `self` and `other`; its references and superlayer aside.
    pub open spec fn same_content(&self, other: &Self, h: HLayer) -> bool {
        &&& self.dirty(h) == other.dirty(h)
        &&& self.sublayers(h) == other.sublayers(h)
        &&& self.pending_sublayers(h) == other.pending_sublayers(h)
        &&& self.attrs(h) == other.attrs(h)
        &&& self.has_content(h) == other.has_content(h)
        &&& self.mask_to_bounds(h) == other.mask_to_bounds(h)
        &&& self.content_box(h) == other.content_box(h)
        &&& self.mask_box(h) == other.mask_box(h)
        &&& self.sublayers_box(h) == other.sublayers_box(h)
    }

    /// The layer `h` is the same in `self` and `other` as in
    /// `same_content`, but for its changed-descendant flag.
    pub open spec fn same_content_but_descendant(&self, other: &Self, h: HLayer) -> bool {
        &&& self.dirty(h).content == other.dirty(h).content
        &&& self.dirty(h).opacity == other.dirty(h).opacity
        &&& self.sublayers(h) == other.sublayers(h)
        &&& self.pending_sublayers(h) == other.pending_sublayers(h)
        &&& self.attrs(h) == other.attrs(h)
        &&& self.has_content(h) == other.has_content(h)
        &&& self.mask_to_bounds(h) == other.mask_to_bounds(h)
        &&& self.content_box(h) == other.content_box(h)
        &&& self.mask_box(h) == other.mask_box(h)
        &&& self.sublayers_box(h) == other.sublayers_box(h)
    }

    /// The window `w` is the same in `self` and `other`.
    pub open spec fn same_wnd(&self, other: &Self, w: HWnd) -> bool {
        &&& self.wnd_live(w) == other.wnd_live(w)
        &&& self.wnd_live(w) ==> {
            &&& self.wnd_dirty(w) == other.wnd_dirty(w)
            &&& self.wnd_size(w) == other.wnd_size(w)
            &&& self.wnd_attrs(w) == other.wnd_attrs(w)
            &&& self.wnd_root(w) == other.wnd_root(w)
        }
    }

    /// All windows are the same in `self` and `other`.
    pub closed spec fn same_wnds(&self, other: &Self) -> bool {
        self.wnds@ == other.wnds@
    }

    /// All layers are the same in `self` and `other`.
    pub closed spec fn same_layers(&self, other: &Self) -> bool {
        self.layers@ == other.layers@
    }

    /// What `same_wnds` says of each window.
    pub proof fn lemma_same_wnds(a: &Self, b: &Self)
        requires
            a.same_wnds(b),
        ensures
            forall|w: HWnd| #[trigger] a.same_wnd(b, w),
    {
    }

    /// What `same_layers` says of the layers.
    pub proof fn lemma_same_layers(a: &Self, b: &Self)
        requires
            a.same_layers(b),
        ensures
            a.layer_slots() == b.layer_slots(),
            a.live_layers() == b.live_layers(),
            forall|h: HLayer| #[trigger] a.same_layer(b, h),
    {
    }

    /// What `same_layer` says of the layer `h`.
    pub proof fn lemma_same_layer(a: &Self, b: &Self, h: HLayer)
        requires
            a.same_layer(b, h),
        ensures
            a.layer_live(h) == b.layer_live(h),
            a.layer_live(h) ==> {
                &&& a.ref_count(h) == b.ref_count(h)
                &&& a.dirty(h) == b.dirty(h)
                &&& a.sublayers(h) == b.sublayers(h)
                &&& a.pending_sublayers(h) == b.pending_sublayers(h)
                &&& a.superlayer(h) == b.superlayer(h)
                &&& a.attrs(h) == b.attrs(h)
                &&& a.has_content(h) == b.has_content(h)
                &&& a.mask_to_bounds(h) == b.mask_to_bounds(h)
                &&& a.dirty_rect(h) == b.dirty_rect(h)
            },
    {
    }

    /// The pools are consistent and every layer satisfies its invariant.
    pub closed spec fn wf(&self) -> bool {
        &&& forall|i: int| 0 <= i < self.layers@.len() ==> (#[trigger] self.layers@[i] matches Some(l) ==> layer_ok(l))
        &&& free_ok(self.layers@, self.free_layers@)
        &&& free_ok(self.wnds@, self.free_wnds@)
    }

    /// A screen with no windows and no layers.
    pub fn new() -> (r: Self)
        ensures
            r.wf(),
            r.live_layers() == 0,
            r.layer_slots() == 0,
            forall|w: HWnd| !r.wnd_live(w),
            forall|h: HLayer| !r.layer_live(h),
    {
        let r = Screen { layers: Vec::new(), free_layers: Vec::new(), wnds: Vec::new(), free_wnds: Vec::new() };
        proof {
            assert(occupied(r.layers@) =~= Seq::<bool>::empty());
        }
        r
    }

    /// Create a window of size zero with no root layer, to be updated whole.
    pub fn new_wnd(&mut self, attrs: W) -> (r: HWnd)
        requires
            old(self).wf(),
        ensures
            final(self).wf(),
            !old(self).wnd_live(r),
            final(self).wnd_live(r),
            final(self).wnd_dirty(r),
            final(self).wnd_size(r) == [0usize, 0usize],
            final(self).wnd_attrs(r) == attrs,
            final(self).wnd_root(r) is None,
            forall|w: HWnd|
                #![trigger final(self).same_wnd(old(self), w)]
                #![trigger final(self).wnd_live(w)]
                #![trigger old(self).wnd_live(w)]
                w != r ==> final(self).same_wnd(old(self), w),
            final(self).same_layers(old(self)),
            final(self).layer_slots() == old(self).layer_slots(),
    {
        let wnd = Wnd { dirty: true, size: [0, 0], attrs, root: None };
        match self.free_wnds.pop() {
            Some(i) => {
                proof {
                    lemma_free_ok_fill(self.wnds@, old(self).free_wnds@, wnd);
                }
                self.wnds.set(i, Some(wnd));
                HWnd { index: i }
            },
            None => {
                proof {
                    lemma_free_ok_push(self.wnds@, self.free_wnds@, wnd);
                }
                self.wnds.push(Some(wnd));
                HWnd { index: self.wnds.len() - 1 }
            },
        }
    }

    /// Set the size of the window `w`, to be updated whole.
    pub fn set_wnd_size(&mut self, w: HWnd, size: [usize; 2])
        requires
            old(self).wf(),
            old(self).wnd_live(w),
        ensures
            final(self).wf(),
            final(self).wnd_live(w),
            final(self).wnd_dirty(w),
            final(self).wnd_size(w) == size,
            final(self).wnd_attrs(w) == old(self).wnd_attrs(w),
            final(self).wnd_root(w) == old(self).wnd_root(w),
            forall|w2: HWnd|
                #![trigger final(self).same_wnd(old(self), w2)]
                #![trigger final(self).wnd_live(w2)]
                #![trigger old(self).wnd_live(w2)]
                w2 != w ==> final(self).same_wnd(old(self), w2),
            final(self).same_layers(old(self)),
            final(self).layer_slots() == old(self).layer_slots(),
    {
        let mut wnd = self.wnds[w.index].take().unwrap();
        wnd.size = size;
        wnd.dirty = true;
        proof {
            lemma_free_ok_keep(old(self).wnds@, self.free_wnds@, w.index as int, wnd);
        }
        self.wnds.set(w.index, Some(wnd));
    }

    /// Set the attributes of the window `w` (such as its DPI scale), to be
    /// updated whole.
    pub fn set_wnd_attrs(&mut self, w: HWnd, attrs: W)
        requires
            old(self).wf(),
            old(self).wnd_live(w),
        ensures
            final(self).wf(),
            final(self).wnd_live(w),
            final(self).wnd_dirty(w),
            final(self).wnd_size(w) == old(self).wnd_size(w),
            final(self).wnd_attrs(w) == attrs,
            final(self).wnd_root(w) == old(self).wnd_root(w),
            forall|w2: HWnd|
                #![trigger final(self).same_wnd(old(self), w2)]
                #![trigger final(self).wnd_live(w2)]
                #![trigger old(self).wnd_live(w2)]
                w2 != w ==> final(self).same_wnd(old(self), w2),
            final(self).same_layers(old(self)),
            final(self).layer_slots() == old(self).layer_slots(),
    {
        let mut wnd = self.wnds[w.index].take().unwrap();
        wnd.attrs = attrs;
        wnd.dirty = true;
        proof {
            lemma_free_ok_keep(old(self).wnds@, self.free_wnds@, w.index as int, wnd);
        }
        self.wnds.set(w.index, Some(wnd));
    }
}

/// `new` is `old` with a reference count no greater.
spec fn survives<A>(old: Layer<A>, new: Layer<A>) -> bool {
    new.ref_count <= old.ref_count && new == (Layer { ref_count: new.ref_count, ..old })
}

impl<A, W> Screen<A, W> {
    /// Every layer of `self` was a layer of `old`, unchanged but for a
    /// reference count that is no greater.
    pub closed spec fn kept_from(&self, old: &Self) -> bool {
        forall|h: HLayer|
            #[trigger] self.layer_live(h) ==> old.layer_live(h) && survives(old.lay(h), self.lay(h))
    }

    proof fn lemma_kept_from_trans(a: &Self, b: &Self, c: &Self)
        requires
            b.kept_from(a),
            c.kept_from(b),
        ensures
            c.kept_from(a),
    {
        assert forall|h: HLayer| #[trigger] c.layer_live(h) implies a.layer_live(h) && survives(a.lay(h), c.lay(h)) by {
            assert(b.layer_live(h));
        }
    }

    /// What `kept_from` says of the layer `h`: a layer of `b` was a layer of
    /// `a`, unchanged but for a reference count that is no greater.
    pub proof fn lemma_kept_from(a: &Self, b: &Self, h: HLayer)
        requires
            b.kept_from(a),
            b.layer_live(h),
        ensures
            a.layer_live(h),
            b.ref_count(h) <= a.ref_count(h),
            b.dirty(h) == a.dirty(h),
            b.sublayers(h) == a.sublayers(h),
            b.pending_sublayers(h) == a.pending_sublayers(h),
            b.superlayer(h) == a.superlayer(h),
            b.attrs(h) == a.attrs(h),
            b.has_content(h) == a.has_content(h),
            b.mask_to_bounds(h) == a.mask_to_bounds(h),
            b.dirty_rect(h) == a.dirty_rect(h),
    {
    }

    /// The layers that deleting `h` releases: its committed sublayers, then
    /// its pending ones.
    pub open spec fn released_sublayers(&self, h: HLayer) -> Seq<HLayer> {
        self.sublayers(h) + match self.pending_sublayers(h) {
            Some(p) => p,
            None => Seq::empty(),
        }
    }

    /// Deleting `h` deletes no other layer: every other layer holds more
    /// references than `h` releases of it.
    pub open spec fn no_cascade(&self, h: HLayer) -> bool {
        forall|y: HLayer|
            y != h && #[trigger] self.layer_live(y) ==> occ(self.released_sublayers(h), y) < self.ref_count(y)
    }

    /// Drop a reference to the layer `h`; when none is left, the layer is
    /// deleted and its sublayers (committed and pending) are released in
    /// turn. Nothing happens to a layer that does not exist.
    fn release_layer(&mut self, h: HLayer)
        requires
            old(self).wf(),
        ensures
            final(self).wf(),
            final(self).same_wnds(old(self)),
            final(self).layer_slots() == old(self).layer_slots(),
            final(self).live_layers() <= old(self).live_layers(),
            final(self).kept_from(old(self)),
            !old(self).layer_live(h) ==> final(self).same_layers(old(self)),
            old(self).layer_live(h) && old(self).ref_count(h) > 1 ==> {
                &&& final(self).layer_live(h)
                &&& final(self).ref_count(h) == old(self).ref_count(h) - 1
                &&& forall|h2: HLayer| h2 != h ==> #[trigger] final(self).same_layer(old(self), h2)
                &&& final(self).live_layers() == old(self).live_layers()
            },
            old(self).layer_live(h) && old(self).ref_count(h) == 1 ==> released(
                old(self),
                final(self),
                h,
            ),
        decreases old(self).live_layers(),
    {
        if h.index >= self.layers.len() {
            return;
        }
        let ghost s0 = *self;
        let mut l = match self.layers[h.index].take() {
            Some(l) => l,
            None => {
                assert(self.layers@ =~= s0.layers@);
                return;
            },
        };
        if l.ref_count > 1 {
            l.ref_count = l.ref_count - 1;
            proof {
                lemma_free_ok_keep(s0.layers@, self.free_layers@, h.index as int, l);
            }
            self.layers.set(h.index, Some(l));
            proof {
                assert(self.layers@ =~= s0.layers@.update(h.index as int, Some(l)));
                lemma_occupied_update(s0.layers@, h.index as int, Some(l));
                assert(occupied(self.layers@) =~= occupied(s0.layers@));
                assert forall|h2: HLayer| h2 != h implies #[trigger] self.same_layer(&s0, h2) by {
                    if h2.index == h.index {
                        assert(h2 == h);
                    }
                }
            }
            return;
        }
        proof {
            lemma_free_ok_vacate(s0.layers@, self.free_layers@, h.index);
            lemma_occupied_update(s0.layers@, h.index as int, None);
            lemma_count_true_update(occupied(s0.layers@), h.index as int, false);
        }
        self.free_layers.push(h.index);
        let ghost s1 = *self;
        assert(s1.kept_from(&s0));
        let ghost all = s0.released_sublayers(h);
        proof {
            assert forall|y: HLayer| y != h implies #[trigger] s1.same_layer(&s0, y) by {
                if y.index == h.index {
                    assert(y == h);
                }
            }
            assert(all.take(0) =~= Seq::<HLayer>::empty());
        }
        let sublayers = l.sublayers;
        let ghost n1 = sublayers@.len();
        let mut i: usize = 0;
        while i < sublayers.len()
            invariant
                self.wf(),
                self.same_wnds(&s0),
                self.layer_slots() == s0.layer_slots(),
                self.live_layers() < s0.live_layers(),
                s0.live_layers() == old(self).live_layers(),
                self.kept_from(&s0),
                !self.layer_live(h),
                s0.layer_live(h),
                i <= sublayers@.len(),
                n1 == sublayers@.len(),
                all == s0.released_sublayers(h),
                sublayers@ == s0.sublayers(h),
                Self::releasing(&s0, self, h, all, i as int),
            decreases sublayers.len() - i,
        {
            let ghost s2 = *self;
            self.release_layer(sublayers[i]);
            proof {
                Self::lemma_kept_from_trans(&s0, &s2, self);
                assert(all[i as int] == sublayers@[i as int]);
                Self::lemma_releasing_step(&s0, &s2, self, h, all, i as int);
            }
            i += 1;
        }
        if let Some(pending) = l.new_sublayers {
            let mut j: usize = 0;
            while j < pending.len()
                invariant
                    self.wf(),
                    self.same_wnds(&s0),
                    self.layer_slots() == s0.layer_slots(),
                    self.live_layers() < s0.live_layers(),
                    s0.live_layers() == old(self).live_layers(),
                    self.kept_from(&s0),
                    !self.layer_live(h),
                    s0.layer_live(h),
                    j <= pending@.len(),
                    all == s0.released_sublayers(h),
                    all == s0.sublayers(h) + pending@,
                    n1 == s0.sublayers(h).len(),
                    Self::releasing(&s0, self, h, all, n1 + j),
                decreases pending.len() - j,
            {
                let ghost s2 = *self;
                self.release_layer(pending[j]);
                proof {
                    Self::lemma_kept_from_trans(&s0, &s2, self);
                    assert(all[n1 + j] == pending@[j as int]);
                    Self::lemma_releasing_step(&s0, &s2, self, h, all, n1 + j);
                }
                j += 1;
            }
            proof {
                assert(all.take(n1 + j) =~= all);
            }
        } else {
            proof {
                assert(all.take(i as int) =~= all);
            }
        }
    }

    /// `now` is `s0` with the layer `h` deleted and the first `m` layers of
    /// `all` released.
    spec fn releasing(s0: &Self, now: &Self, h: HLayer, all: Seq<HLayer>, m: int) -> bool {
        &&& 0 <= m <= all.len()
        &&& forall|y: HLayer|
            y != h && #[trigger] now.layer_live(y) ==> now.ref_count(y) + occ(all.take(m), y)
                <= s0.ref_count(y)
        &&& s0.no_cascade(h) && all == s0.released_sublayers(h) ==> Self::released_exactly(s0, now, h, all.take(m))
    }

    /// `now` is `s0` with the layer `h` deleted and every other layer
    /// unchanged but for the loss of one reference per occurrence in `subs`.
    pub open spec fn released_exactly(s0: &Self, now: &Self, h: HLayer, subs: Seq<HLayer>) -> bool {
        &&& forall|y: HLayer| #![trigger now.layer_live(y)] y != h ==> now.layer_live(y) == s0.layer_live(y)
        &&& forall|y: HLayer|
            #![trigger now.layer_live(y)]
            y != h && now.layer_live(y) ==> now.ref_count(y) == s0.ref_count(y) - occ(subs, y)
        &&& now.live_layers() == s0.live_layers() - 1
    }

    /// Releasing one more layer of `all` keeps `releasing`.
    proof fn lemma_releasing_step(s0: &Self, s2: &Self, s3: &Self, h: HLayer, all: Seq<HLayer>, m: int)
        requires
            Self::releasing(s0, s2, h, all, m),
            s2.wf(),
            m < all.len(),
            s3.kept_from(s2),
            s2.kept_from(s0),
            !s2.layer_live(h),
            !s2.layer_live(all[m]) ==> s3.same_layers(s2),
            s2.layer_live(all[m]) && s2.ref_count(all[m]) > 1 ==> {
                &&& s3.layer_live(all[m])
                &&& s3.ref_count(all[m]) == s2.ref_count(all[m]) - 1
                &&& forall|h2: HLayer| h2 != all[m] ==> #[trigger] s3.same_layer(s2, h2)
                &&& s3.live_layers() == s2.live_layers()
            },
            s2.layer_live(all[m]) && s2.ref_count(all[m]) == 1 ==> !s3.layer_live(all[m]),
        ensures
            Self::releasing(s0, s3, h, all, m + 1),
    {
        let x = all[m];
        assert(all.take(m + 1) =~= all.take(m).push(x));
        assert forall|y: HLayer| #[trigger] occ(all.take(m + 1), y) == occ(all.take(m), y) + (if x
            == y {
            1nat
        } else {
            0nat
        }) by {
            lemma_occ_push(all.take(m), x, y);
        }
        assert forall|y: HLayer|
            y != h && #[trigger] s3.layer_live(y) implies s3.ref_count(y) + occ(all.take(m + 1), y)
            <= s0.ref_count(y) by {
            assert(s2.layer_live(y));
            assert(s2.ref_count(y) + occ(all.take(m), y) <= s0.ref_count(y));
            assert(occ(all.take(m + 1), y) == occ(all.take(m), y) + (if x == y {
                1nat
            } else {
                0nat
            }));
            if y == x {
                assert(layer_ok(s2.layers@[x.index as int].unwrap()));
                assert(s2.ref_count(x) > 1);
                assert(s3.ref_count(y) == s2.ref_count(y) - 1);
            } else {
                assert(survives(s2.lay(y), s3.lay(y)));
                assert(s3.ref_count(y) <= s2.ref_count(y));
            }
        }
        if s0.no_cascade(h) && all == s0.released_sublayers(h) {
            lemma_occ_take_le(all, m + 1, x);
            if x != h && s0.layer_live(x) {
                assert(s2.layer_live(x) == s0.layer_live(x));
                assert(s2.layer_live(x));
                assert(occ(all, x) < s0.ref_count(x));
                assert(occ(all.take(m + 1), x) == occ(all.take(m), x) + 1);
                assert(s2.ref_count(x) > 1);
            } else {
                assert(!s2.layer_live(x));
                assert(s3.layers@ == s2.layers@);
            }
            assert forall|y: HLayer|
                #![trigger s3.layer_live(y)]
                y != h implies s3.layer_live(y) == s0.layer_live(y) && (s0.layer_live(y)
                ==> s3.ref_count(y) == s0.ref_count(y) - occ(all.take(m + 1), y)) by {
                assert(s2.layer_live(y) == s0.layer_live(y));
                assert(occ(all.take(m + 1), y) == occ(all.take(m), y) + (if x == y {
                    1nat
                } else {
                    0nat
                }));
                if y != x && x != h && s0.layer_live(x) {
                    assert(s3.same_layer(s2, y));
                }
            }
            assert(s3.live_layers() == s2.live_layers());
            assert(s3.live_layers() == s0.live_layers() - 1);
            assert(Self::released_exactly(s0, s3, h, all.take(m + 1)));
        }
        assert(0 <= m + 1 <= all.len());
    }
}

impl<A, W> Screen<A, W> {
    /// `released` depends on `old` only through what `b` shares with it.
    proof fn lemma_released_transfer(a: &Self, b: &Self, new: &Self, o: HLayer)
        requires
            forall|y: HLayer| y != o ==> #[trigger] a.same_layer(b, y),
            a.layer_live(o),
            b.layer_live(o),
            a.ref_count(o) == b.ref_count(o),
            a.sublayers(o) == b.sublayers(o),
            a.pending_sublayers(o) == b.pending_sublayers(o),
            a.live_layers() == b.live_layers(),
            released(a, new, o),
        ensures
            released(b, new, o),
    {
        assert(a.released_sublayers(o) == b.released_sublayers(o));
        assert forall|y: HLayer| #[trigger] new.layer_live(y) implies b.layer_live(y) by {
            assert(a.layer_live(y));
            if y != o {
                assert(a.same_layer(b, y));
            }
        }
        assert forall|y: HLayer|
            y != o && #[trigger] new.layer_live(y) implies new.ref_count(y) + occ(b.released_sublayers(o), y)
            <= b.ref_count(y) by {
            assert(a.layer_live(y));
            assert(a.same_layer(b, y));
        }
        if b.no_cascade(o) {
            assert forall|y: HLayer| y != o && #[trigger] a.layer_live(y) implies occ(a.released_sublayers(o), y)
                < a.ref_count(y) by {
                assert(a.same_layer(b, y));
                assert(b.layer_live(y));
            }
            assert(a.no_cascade(o));
            assert forall|y: HLayer| #![trigger new.layer_live(y)] y != o implies new.layer_live(y) == b.layer_live(y) by {
                assert(a.same_layer(b, y));
            }
            assert forall|y: HLayer|
                #![trigger new.layer_live(y)]
                y != o && new.layer_live(y) implies new.ref_count(y) == b.ref_count(y) - occ(b.released_sublayers(o), y) by {
                assert(a.same_layer(b, y));
                assert(a.layer_live(y));
            }
        }
    }
}

/// `new` is `old` after one reference to the layer `o`, a window's root,
/// was dropped and `o` detached from the window: a layer that does not
/// exist is left alone, one with more references loses one, and one with a
/// single reference is deleted (see `released`).
pub open spec fn dropped<A, W>(old: &Screen<A, W>, new: &Screen<A, W>, o: HLayer) -> bool {
    &&& !old.layer_live(o) ==> new.same_layers(old)
    &&& old.layer_live(o) && old.ref_count(o) > 1 ==> {
        &&& new.layer_live(o)
        &&& new.ref_count(o) == old.ref_count(o) - 1
        &&& new.superlayer(o) is None
        &&& new.same_content(old, o)
        &&& forall|y: HLayer| y != o ==> #[trigger] new.same_layer(old, y)
        &&& new.live_layers() == old.live_layers()
    }
    &&& old.layer_live(o) && old.ref_count(o) == 1 ==> released(old, new, o)
}

/// `new` is `mid` with `root` attached as a window's root, taking a
/// reference to it, where it exists.
pub open spec fn attached<A, W>(mid: &Screen<A, W>, new: &Screen<A, W>, root: Option<HLayer>) -> bool {
    match root {
        Some(h) => if mid.layer_live(h) {
            &&& new.layer_live(h)
            &&& new.ref_count(h) == mid.ref_count(h) + 1
            &&& new.superlayer(h) == Some(Superlayer::Wnd)
            &&& new.same_content(mid, h)
            &&& forall|y: HLayer| y != h ==> #[trigger] new.same_layer(mid, y)
            &&& new.live_layers() == mid.live_layers()
        } else {
            new.same_layers(mid)
        },
        None => new.same_layers(mid),
    }
}

/// `new` is `old` after the last reference to the layer `h` was dropped:
/// `h` is deleted, each layer that `h` released has lost at least one
/// reference per occurrence, and where no other layer is deleted (see
/// `no_cascade`), each has lost exactly that many and the rest is unchanged.
pub open spec fn released<A, W>(old: &Screen<A, W>, new: &Screen<A, W>, h: HLayer) -> bool {
    &&& !new.layer_live(h)
    &&& new.live_layers() < old.live_layers()
    &&& forall|y: HLayer| #[trigger] new.layer_live(y) ==> old.layer_live(y)
    &&& forall|y: HLayer|
        y != h && #[trigger] new.layer_live(y) ==> new.ref_count(y) + occ(old.released_sublayers(h), y)
            <= old.ref_count(y)
    &&& old.no_cascade(h) ==> Screen::released_exactly(old, new, h, old.released_sublayers(h))
}

/// Appending `x` adds one occurrence of `x`.
proof fn lemma_occ_push(s: Seq<HLayer>, x: HLayer, y: HLayer)
    ensures
        occ(s.push(x), y) == occ(s, y) + (if x == y {
            1nat
        } else {
            0nat
        }),
    decreases s.len(),
{
    let t = s.push(x);
    assert(t.len() > 0 && t[0] == (if s.len() == 0 {
        x
    } else {
        s[0]
    }));
    if s.len() == 0 {
        assert(t.drop_first() =~= Seq::<HLayer>::empty());
        assert(occ(t.drop_first(), y) == 0);
        assert(occ(s, y) == 0);
    } else {
        assert(t.drop_first() =~= s.drop_first().push(x));
        lemma_occ_push(s.drop_first(), x, y);
    }
}

/// A prefix has no more occurrences than the whole.
proof fn lemma_occ_take_le(s: Seq<HLayer>, m: int, y: HLayer)
    requires
        0 <= m <= s.len(),
    ensures
        occ(s.take(m), y) <= occ(s, y),
    decreases s.len() - m,
{
    if m < s.len() {
        assert(s.take(m + 1) =~= s.take(m).push(s[m]));
        lemma_occ_push(s.take(m), s[m], y);
        lemma_occ_take_le(s, m + 1, y);
    } else {
        assert(s.take(m) =~= s);
    }
}

/// The number of occurrences of `x` in `s`.
pub open spec fn occ(s: Seq<HLayer>, x: HLayer) -> nat
    decreases s.len(),
{
    if s.len() == 0 {
        0
    } else {
        (if s[0] == x {
            1nat
        } else {
            0nat
        }) + occ(s.drop_first(), x)
    }
}

proof fn lemma_occ_step(s: Seq<HLayer>, k: int, y: HLayer)
    requires
        0 <= k < s.len(),
    ensures
        occ(s.subrange(k, s.len() as int), y) == (if s[k] == y {
            1nat
        } else {
            0nat
        }) + occ(s.subrange(k + 1, s.len() as int), y),
{
    assert(s.subrange(k, s.len() as int).drop_first() =~= s.subrange(k + 1, s.len() as int));
}

/// The live layers without a pending descendant flag.
spec fn not_desc<A>(s: Seq<Option<Layer<A>>>) -> Seq<bool> {
    s.map_values(|o: Option<Layer<A>>| o matches Some(l) && !l.dirty.descendant)
}

proof fn lemma_not_desc_update<A>(s: Seq<Option<Layer<A>>>, i: int, x: Option<Layer<A>>)
    requires
        0 <= i < s.len(),
    ensures
        not_desc(s.update(i, x)) == not_desc(s).update(i, x matches Some(l) && !l.dirty.descendant),
{
    assert(not_desc(s.update(i, x)) =~= not_desc(s).update(i, x matches Some(l) && !l.dirty.descendant));
}

impl<A, W> Screen<A, W> {
    /// Put the layer `l` back in the slot `i`, which it was taken from.
    proof fn lemma_put_back(s0: &Self, s1: &Self, i: int, l: Layer<A>)
        requires
            s0.wf(),
            0 <= i < s0.layers@.len(),
            s0.layers@[i] is Some,
            layer_ok(l),
            s1.layers@ == s0.layers@.update(i, Some(l)),
            s1.free_layers@ == s0.free_layers@,
            s1.wnds@ == s0.wnds@,
            s1.free_wnds@ == s0.free_wnds@,
        ensures
            s1.wf(),
            s1.live_layers() == s0.live_layers(),
            s1.layer_slots() == s0.layer_slots(),
    {
        lemma_free_ok_keep(s0.layers@, s0.free_layers@, i, l);
        lemma_occupied_update(s0.layers@, i, Some(l));
        assert(occupied(s1.layers@) =~= occupied(s0.layers@));
    }

    /// Marking the one superlayer `p` of `h` as having a changed descendant
    /// changes nothing else.
    proof fn lemma_one_up(s0: &Self, s4: &Self, s: &Self, h: HLayer, p: HLayer)
        requires
            p != h,
            s4.layer_live(h),
            s4.layer_live(p),
            forall|y: HLayer| y != h ==> #[trigger] s4.same_layer(s0, y),
            s4.dirty(h).descendant == s0.dirty(h).descendant,
            forall|y: HLayer|
                #[trigger] s.layer_live(y) == s4.layer_live(y) && (s.layer_live(y) ==> s.lay(y) == (Layer {
                    dirty: LayerDirty { descendant: s.dirty(y).descendant, ..s4.dirty(y) },
                    ..s4.lay(y)
                })),
            forall|y: HLayer| y != p && #[trigger] s.layer_live(y) ==> s.dirty(y).descendant == s4.dirty(y).descendant,
            s.layer_live(p) ==> s.dirty(p).descendant,
        ensures
            s.layer_live(h) ==> s.dirty(h).descendant == s0.dirty(h).descendant,
            s.layer_live(p),
            s.dirty(p).descendant,
            s.same_content_but_descendant(s0, p),
            forall|y: HLayer|
                #![trigger s.layer_live(y)]
                y != h && y != p && s.layer_live(y) ==> s.same_content(s0, y),
    {
        assert(s.layer_live(p) == s4.layer_live(p));
        assert(s4.same_layer(s0, p));
        assert forall|y: HLayer|
            #![trigger s.layer_live(y)]
            y != h && y != p && s.layer_live(y) implies s.same_content(s0, y) by {
            assert(s.layer_live(y) == s4.layer_live(y));
            assert(s4.same_layer(s0, y));
        }
    }

    /// `new` has the layers of `old`, each holding one more reference per
    /// occurrence in `added`.
    pub open spec fn retained(before: &Self, after: &Self, added: Seq<HLayer>) -> bool {
        &&& forall|y: HLayer| #![trigger after.layer_live(y)] after.layer_live(y) == before.layer_live(y)
        &&& forall|y: HLayer|
            #![trigger after.layer_live(y)]
            after.layer_live(y) ==> after.ref_count(y) == before.ref_count(y) + occ(added, y)
    }

    proof fn lemma_retained_keep(a: &Self, b: &Self, c: &Self, added: Seq<HLayer>)
        requires
            Self::retained(a, b, added),
            forall|y: HLayer|
                #![trigger c.layer_live(y)]
                c.layer_live(y) == b.layer_live(y) && (b.layer_live(y) ==> c.ref_count(y) == b.ref_count(y)),
        ensures
            Self::retained(a, c, added),
    {
        assert forall|y: HLayer| #![trigger c.layer_live(y)] c.layer_live(y) == a.layer_live(y) by {
            assert(b.layer_live(y) == a.layer_live(y));
        }
        assert forall|y: HLayer|
            #![trigger c.layer_live(y)]
            c.layer_live(y) implies c.ref_count(y) == a.ref_count(y) + occ(added, y) by {
            assert(b.layer_live(y));
        }
    }

    /// Apply `attrs` to the layer `h`: replace its pending sublayer list
    /// (linking the new sublayers to it, releasing the old pending ones)
    /// and its content, mark what changed, and mark every ancestor up to the
    /// first one already marked as having a changed descendant.
    #[verifier::rlimit(60)]
    pub fn set_layer_attr(&mut self, h: HLayer, attrs: LayerAttrs<A>)
        requires
            old(self).wf(),
            old(self).layer_live(h),
            attrs.sublayers matches Some(v) ==> forall|k: int|
                0 <= k < v.len() ==> old(self).layer_live(#[trigger] v@[k]),
            attrs.sublayers matches Some(v) ==> forall|y: HLayer|
                #[trigger] old(self).layer_live(y) ==> old(self).ref_count(y) + occ(v@, y) <= 255,
        ensures
            final(self).wf(),
            final(self).same_wnds(old(self)),
            final(self).layer_slots() == old(self).layer_slots(),
            (attrs.sublayers is None || old(self).pending_sublayers(h) is None) ==> final(self).layer_live(h),
            final(self).layer_live(h) ==> {
                &&& (attrs.content matches Some(c) ==> {
                    &&& final(self).attrs(h) == c.attrs
                    &&& final(self).has_content(h) == c.has_content
                    &&& final(self).mask_to_bounds(h) == c.mask_to_bounds
                    &&& final(self).dirty(h).content
                    &&& c.opacity_modified ==> final(self).dirty(h).opacity
                })
                &&& (attrs.content is None ==> final(self).attrs(h) == old(self).attrs(h))
                &&& (attrs.content is None ==> final(self).has_content(h) == old(self).has_content(h))
                &&& (attrs.content is None ==> final(self).mask_to_bounds(h) == old(self).mask_to_bounds(h))
                &&& final(self).dirty(h).content == (old(self).dirty(h).content || attrs.content is Some)
                &&& final(self).dirty(h).opacity == (old(self).dirty(h).opacity || (attrs.content matches Some(c)
                    && c.opacity_modified))
                &&& (attrs.sublayers matches Some(v) ==> final(self).pending_sublayers(h) == Some(v@))
                &&& (attrs.sublayers is None ==> final(self).pending_sublayers(h) == old(self).pending_sublayers(h))
                &&& final(self).sublayers(h) == old(self).sublayers(h)
            },
            attrs.sublayers matches Some(v) ==> forall|k: int|
                0 <= k < v.len() && #[trigger] final(self).layer_live(v@[k]) ==> final(self).superlayer(v@[k])
                    == Some(Superlayer::Layer(h)),
            final(self).layer_live(h) && !(attrs.sublayers matches Some(v) && v@.contains(h)) ==> final(
                self).superlayer(h) == old(self).superlayer(h),
            final(self).layer_live(h) && (attrs.sublayers is None || (old(self).pending_sublayers(h) is None
                && !(attrs.sublayers matches Some(v) && v@.contains(h)))) ==> final(self).ref_count(h)
                == old(self).ref_count(h),
            (attrs.content is Some || attrs.sublayers is Some) && final(self).layer_live(h) ==> (
            final(self).superlayer(h) matches Some(Superlayer::Layer(p)) ==> (final(self).layer_live(p)
                ==> final(self).dirty(p).descendant)),
            final(self).layer_live(h) ==> {
                &&& final(self).content_box(h) == old(self).content_box(h)
                &&& final(self).mask_box(h) == old(self).mask_box(h)
                &&& final(self).sublayers_box(h) == old(self).sublayers_box(h)
            },
            attrs.sublayers is None && !(old(self).superlayer(h) matches Some(Superlayer::Layer(_)))
                && final(self).layer_live(h) ==> final(self).dirty(h).descendant == old(self).dirty(h).descendant,
            old(self).pending_sublayers(h) is None && !(old(self).superlayer(h) matches Some(Superlayer::Layer(_)))
                && !(attrs.sublayers matches Some(v) && v@.contains(h)) ==> forall|y: HLayer|
                #![trigger final(self).layer_live(y)]
                y != h && final(self).layer_live(y) ==> final(self).same_content(old(self), y),
            attrs.sublayers is None && attrs.content is Some ==> (old(self).superlayer(h) matches Some(Superlayer::Layer(p)) ==> (p != h
                && old(self).layer_live(p) && !(old(self).superlayer(p) matches Some(Superlayer::Layer(_)))
                ==> {
                &&& final(self).layer_live(h) ==> final(self).dirty(h).descendant == old(self).dirty(h).descendant
                &&& final(self).layer_live(p)
                &&& final(self).dirty(p).descendant
                &&& final(self).same_content_but_descendant(old(self), p)
                &&& forall|y: HLayer|
                    #![trigger final(self).layer_live(y)]
                    y != h && y != p && final(self).layer_live(y) ==> final(self).same_content(old(self), y)
            })),
            attrs.sublayers is None || old(self).pending_sublayers(h) is None ==> Self::retained(
                old(self),
                final(self),
                match attrs.sublayers {
                    Some(v) => v@,
                    None => Seq::empty(),
                },
            ),
    {
        let ghost s0 = *self;
        let ghost v0: Seq<HLayer> = match &attrs.sublayers {
            Some(v) => v@,
            None => Seq::empty(),
        };
        let ghost mut base = s0;
        let LayerAttrs { sublayers: new_list, content } = attrs;
        let sublayers_modified = new_list.is_some();
        let mut descendant_dirty = false;
        if let Some(list) = &new_list {
            // Detach the old pending sublayers
            let mut l = self.layers[h.index].take().unwrap();
            let old_pending = l.new_sublayers.take();
            self.layers.set(h.index, Some(l));
            proof {
                assert(self.layers@ =~= s0.layers@.update(h.index as int, Some(l)));
                Self::lemma_put_back(&s0, self, h.index as int, l);
            }
            let ghost s1 = *self;
            proof {
                assert forall|y: HLayer| #[trigger] s1.layer_live(y) implies s0.layer_live(y) && s1.ref_count(y)
                    == s0.ref_count(y) by {
                    if y.index == h.index {
                        assert(y == h);
                    }
                }
            }
            let ghost had_pending = old_pending.is_some();
            proof {
                assert(had_pending == (s0.pending_sublayers(h) is Some));
            }
            if let Some(old_list) = old_pending {
                let mut i: usize = 0;
                while i < old_list.len()
                    invariant
                        self.wf(),
                        self.same_wnds(&s0),
                        self.layer_slots() == s0.layer_slots(),
                        self.kept_from(&s1),
                    decreases old_list.len() - i,
                {
                    let ghost s2 = *self;
                    self.release_layer(old_list[i]);
                    proof {
                        Self::lemma_kept_from_trans(&s1, &s2, self);
                    }
                    i += 1;
                }
            }
            // Link the new sublayers
            let ghost s7 = *self;
            proof {
                base = s7;
                if !had_pending {
                    assert(self.layers@ == s1.layers@);
                    assert forall|y: HLayer| #![trigger s7.layer_live(y)] s7.layer_live(y) == s0.layer_live(y)
                        && (s0.layer_live(y) ==> s7.ref_count(y) == s0.ref_count(y)) by {
                        if y.index == h.index {
                            assert(y == h);
                        }
                    }
                }
                assert(v0.take(0) =~= Seq::<HLayer>::empty());
                if self.layer_live(h) {
                    assert(s1.layer_live(h));
                }
                assert(v0.subrange(0, v0.len() as int) =~= v0);
                assert forall|y: HLayer| #[trigger] self.layer_live(y) implies s1.layer_live(y) && self.ref_count(y)
                    + occ(v0.subrange(0, v0.len() as int), y) <= 255 by {
                    assert(s1.layer_live(y));
                    assert(s0.layer_live(y));
                }
            }
            let mut k: usize = 0;
            while k < list.len()
                invariant
                    self.wf(),
                    self.same_wnds(&s0),
                    self.layer_slots() == s0.layer_slots(),
                    list@ == v0,
                    k <= list.len(),
                    forall|y: HLayer|
                        #[trigger] self.layer_live(y) ==> s1.layer_live(y) && self.ref_count(y) + occ(
                            v0.subrange(k as int, v0.len() as int),
                            y,
                        ) <= 255,
                    forall|j: int|
                        0 <= j < k && #[trigger] self.layer_live(v0[j]) ==> self.superlayer(v0[j]) == Some(
                            Superlayer::Layer(h),
                        ),
                    self.layer_live(h) ==> self.content_box(h) == s0.content_box(h) && self.mask_box(h) == s0.mask_box(h)
                        && self.sublayers_box(h) == s0.sublayers_box(h),
                    self.layer_live(h) ==> self.has_content(h) == s0.has_content(h) && self.mask_to_bounds(h)
                        == s0.mask_to_bounds(h),
                    self.layer_live(h) ==> self.pending_sublayers(h) is None && self.sublayers(h) == s0.sublayers(h)
                        && self.attrs(h) == s0.attrs(h) && self.dirty(h) == s0.dirty(h),
                    forall|y: HLayer| #[trigger] s1.layer_live(y) ==> s0.layer_live(y) && s1.ref_count(y) == s0.ref_count(y),
                    forall|y: HLayer| #[trigger] self.layer_live(y) == s7.layer_live(y),
                    self.layer_live(h) && !v0.contains(h) ==> self.superlayer(h) == s0.superlayer(h),
                    self.layer_live(h) && !had_pending && !v0.contains(h) ==> self.ref_count(h) == s0.ref_count(h),
                    had_pending == (s0.pending_sublayers(h) is Some),
                    forall|y: HLayer|
                        #![trigger self.layer_live(y)]
                        self.layer_live(y) ==> self.ref_count(y) == s7.ref_count(y) + occ(v0.take(k as int), y),
                    forall|y: HLayer|
                        #![trigger self.layer_live(y)]
                        y != h && self.layer_live(y) ==> self.same_content(&s7, y),
                decreases list.len() - k,
            {
                let x = list[k];
                let ghost s6 = *self;
                proof {
                    assert(v0.take(k + 1) =~= v0.take(k as int).push(x));
                    assert forall|y: HLayer| #[trigger] occ(v0.take(k + 1), y) == occ(v0.take(k as int), y) + (if x
                        == y {
                        1nat
                    } else {
                        0nat
                    }) by {
                        lemma_occ_push(v0.take(k as int), x, y);
                    }
                }
                if x.index < self.layers.len() {
                    let ghost s2 = *self;
                    if let Some(mut sub) = self.layers[x.index].take() {
                        assert(s2.layer_live(x));
                        sub.superlayer = Some(Superlayer::Layer(h));
                        sub.ref_count = sub.ref_count + 1;
                        descendant_dirty = descendant_dirty || sub.dirty.content || sub.dirty.opacity
                            || sub.dirty.descendant || sub.new_sublayers.is_some();
                        self.layers.set(x.index, Some(sub));
                        proof {
                            assert(self.layers@ =~= s2.layers@.update(x.index as int, Some(sub)));
                            Self::lemma_put_back(&s2, self, x.index as int, sub);
                            assert forall|y: HLayer| #[trigger] self.layer_live(y) implies s1.layer_live(y)
                                && self.ref_count(y) + occ(v0.subrange(k + 1, v0.len() as int), y) <= 255 by {
                                assert(s2.layer_live(y));
                                lemma_occ_step(v0, k as int, y);
                                if y.index == x.index {
                                    assert(y == x);
                                }
                            }
                            assert forall|j: int|
                                0 <= j < k + 1 && #[trigger] self.layer_live(v0[j]) implies self.superlayer(v0[j])
                                == Some(Superlayer::Layer(h)) by {
                                if v0[j].index == x.index {
                                    assert(v0[j] == x);
                                } else {
                                    assert(s2.layer_live(v0[j]));
                                }
                            }
                            assert forall|y: HLayer| #[trigger] self.layer_live(y) == s7.layer_live(y) by {
                                assert(s2.layer_live(y) == s7.layer_live(y));
                            }
                            assert forall|y: HLayer|
                                #![trigger self.layer_live(y)]
                                self.layer_live(y) implies self.ref_count(y) == s7.ref_count(y) + occ(
                                v0.take(k + 1),
                                y,
                            ) by {
                                assert(s2.layer_live(y));
                                assert(occ(v0.take(k + 1), y) == occ(v0.take(k as int), y) + (if x == y {
                                    1nat
                                } else {
                                    0nat
                                }));
                                if y.index == x.index {
                                    assert(y == x);
                                }
                            }
                            assert forall|y: HLayer|
                                #![trigger self.layer_live(y)]
                                y != h && self.layer_live(y) implies self.same_content(&s7, y) by {
                                assert(s2.layer_live(y));
                                if y.index == x.index {
                                    assert(y == x);
                                }
                            }
                            if x == h {
                                assert(v0[k as int] == h);
                                assert(v0.contains(h));
                            } else if self.layer_live(h) {
                                assert(x.index != h.index);
                                assert(s2.layer_live(h));
                            }
                        }
                    } else {
                        assert(self.layers@ =~= s2.layers@);
                    }
                }
                proof {
                    if self.layers@ == s6.layers@ {
                        assert forall|y: HLayer| #[trigger] self.layer_live(y) implies s1.layer_live(y)
                            && self.ref_count(y) + occ(v0.subrange(k + 1, v0.len() as int), y) <= 255 by {
                            assert(s6.layer_live(y));
                            lemma_occ_step(v0, k as int, y);
                        }
                        assert forall|y: HLayer|
                            #![trigger self.layer_live(y)]
                            y != h && self.layer_live(y) implies self.same_content(&s7, y) by {
                            assert(s6.layer_live(y));
                        }
                        assert(!self.layer_live(x));
                        assert forall|y: HLayer| #[trigger] self.layer_live(y) == s7.layer_live(y) by {
                            assert(s6.layer_live(y) == s7.layer_live(y));
                        }
                        assert forall|y: HLayer|
                            #![trigger self.layer_live(y)]
                            self.layer_live(y) implies self.ref_count(y) == s7.ref_count(y) + occ(
                            v0.take(k + 1),
                            y,
                        ) by {
                            assert(s6.layer_live(y));
                            assert(occ(v0.take(k + 1), y) == occ(v0.take(k as int), y) + (if x == y {
                                1nat
                            } else {
                                0nat
                            }));
                        }
                        assert forall|j: int|
                            0 <= j < k + 1 && #[trigger] self.layer_live(v0[j]) implies self.superlayer(v0[j])
                            == Some(Superlayer::Layer(h)) by {
                            assert(s6.layer_live(v0[j]));
                        }
                    }
                }
                k += 1;
            }
            proof {
                if !had_pending {
                    assert forall|y: HLayer|
                        #![trigger self.layer_live(y)]
                        y != h && self.layer_live(y) implies self.same_content(&s0, y) by {
                        assert(s7.layer_live(y));
                        assert(s1.layer_live(y));
                        if y.index == h.index {
                            assert(y == h);
                        }
                    }
                }
            }
        }
        proof {
            if attrs.sublayers is None || s0.pending_sublayers(h) is None {
                if attrs.sublayers is Some {
                    assert(v0.take(v0.len() as int) =~= v0);
                } else {
                    assert(self.layers@ == s0.layers@);
                    assert forall|y: HLayer| occ(v0, y) == 0 by {
                        assert(v0.len() == 0);
                    }
                }
                assert(Self::retained(&s0, self, v0));
            }
            if s0.pending_sublayers(h) is None {
                assert forall|y: HLayer|
                    #![trigger self.layer_live(y)]
                    y != h && self.layer_live(y) implies self.same_content(&s0, y) by {
                    if attrs.sublayers is None {
                        assert(self.layers@ == s0.layers@);
                    }
                }
            }
        }
        if h.index >= self.layers.len() || self.layers[h.index].is_none() {
            return;
        }
        let ghost s3 = *self;
        let mut l = self.layers[h.index].take().unwrap();
        if let Some(list) = new_list {
            l.new_sublayers = Some(list);
        }
        let content_modified = content.is_some();
        let mut opacity_modified = false;
        if let Some(c) = content {
            opacity_modified = c.opacity_modified;
            l.attrs = c.attrs;
            l.has_content = c.has_content;
            l.mask_to_bounds = c.mask_to_bounds;
        }
        if content_modified {
            l.dirty.content = true;
        }
        if opacity_modified {
            l.dirty.opacity = true;
        }
        if descendant_dirty {
            l.dirty.descendant = true;
        }
        let mut sup = l.superlayer;
        self.layers.set(h.index, Some(l));
        proof {
            assert(self.layers@ =~= s3.layers@.update(h.index as int, Some(l)));
            Self::lemma_put_back(&s3, self, h.index as int, l);
            assert forall|j: int|
                0 <= j < v0.len() && #[trigger] self.layer_live(v0[j]) implies self.superlayer(v0[j]) == Some(
                Superlayer::Layer(h)) by {
                assert(s3.layer_live(v0[j]));
                if v0[j].index == h.index {
                    assert(v0[j] == h);
                }
            }
        }
        proof {
            if attrs.sublayers is None || s0.pending_sublayers(h) is None {
                Self::lemma_retained_keep(&s0, &s3, self, v0);
            }
            if s0.pending_sublayers(h) is None {
                assert forall|y: HLayer|
                    #![trigger self.layer_live(y)]
                    y != h && self.layer_live(y) implies self.same_content(&s0, y) by {
                    assert(s3.layer_live(y));
                    if y.index == h.index {
                        assert(y == h);
                    }
                }
            }
        }
        if !(content_modified || sublayers_modified || descendant_dirty) {
            return;
        }
        // Mark the ancestors
        let ghost s4 = *self;
        let ghost sup0 = sup;
        let ghost p0 = match sup0 {
            Some(Superlayer::Layer(p)) => p,
            _ => h,
        };
        let ghost one_up = sup0 == Some(Superlayer::Layer(p0)) && s4.layer_live(p0) && !(s4.superlayer(p0) matches Some(
            Superlayer::Layer(_),
        ));
        let ghost mut started = false;
        loop
            invariant
                self.wf(),
                self.same_wnds(&s4),
                self.layer_slots() == s4.layer_slots(),
                sup0 == s4.superlayer(h),
                !started ==> sup == sup0,
                started ==> (sup0 matches Some(Superlayer::Layer(p0)) ==> (self.layer_live(p0) ==> self.dirty(
                    p0,
                ).descendant)),
                forall|y: HLayer| #[trigger] self.layer_live(y) && s4.dirty(y).descendant ==> self.dirty(y).descendant,
                forall|y: HLayer|
                    #[trigger] self.layer_live(y) == s4.layer_live(y) && (self.layer_live(y) ==> self.lay(y)
                        == (Layer { dirty: LayerDirty { descendant: self.dirty(y).descendant, ..s4.dirty(y) }, ..s4.lay(y) })),
                self.layer_live(h) ==> self.dirty(h).content == s4.dirty(h).content && self.dirty(h).opacity == s4.dirty(h).opacity,
                !(sup0 matches Some(Superlayer::Layer(_))) ==> self.layers@ == s4.layers@ && sup == sup0,
                one_up == (sup0 == Some(Superlayer::Layer(p0)) && s4.layer_live(p0) && !(s4.superlayer(p0) matches Some(
                    Superlayer::Layer(_),
                ))),
                one_up ==> (forall|y: HLayer|
                    y != p0 && #[trigger] self.layer_live(y) ==> self.dirty(y).descendant == s4.dirty(y).descendant)
                    && (started ==> !(sup matches Some(Superlayer::Layer(_)))),
            ensures
                started,
            decreases count_true(not_desc(self.layers@)),
        {
            let p = match sup {
                Some(Superlayer::Layer(p)) => p,
                _ => {
                    proof {
                        started = true;
                    }
                    break;
                },
            };
            if p.index >= self.layers.len() {
                proof {
                    started = true;
                }
                break;
            }
            let ghost s5 = *self;
            proof {
                if one_up {
                    assert(!started);
                    assert(p == p0);
                    assert(s5.layer_live(p0));
                }
            }
            let mut pl = match self.layers[p.index].take() {
                Some(pl) => pl,
                None => {
                    assert(self.layers@ =~= s5.layers@);
                    assert forall|y: HLayer| #[trigger] self.layer_live(y) == s4.layer_live(y) && (self.layer_live(y)
                        ==> self.lay(y) == (Layer { dirty: LayerDirty { descendant: self.dirty(y).descendant, ..s4.dirty(y) }, ..s4.lay(y) })) by {
                        assert(s5.layer_live(y) == s4.layer_live(y));
                    }
                    assert forall|y: HLayer| #[trigger] self.layer_live(y) && s4.dirty(y).descendant implies self.dirty(
                        y).descendant by {
                        assert(s5.layer_live(y));
                    }
                    proof {
                        started = true;
                    }
                    break;
                },
            };
            sup = pl.superlayer;
            proof {
                if one_up {
                    assert(pl == s5.lay(p0));
                    assert(s5.lay(p0).superlayer == s4.lay(p0).superlayer);
                    assert(!(sup matches Some(Superlayer::Layer(_))));
                }
            }
            if pl.dirty.descendant {
                self.layers.set(p.index, Some(pl));
                proof {
                    assert(self.layers@ =~= s5.layers@);
                    assert forall|y: HLayer| #[trigger] self.layer_live(y) == s4.layer_live(y) && (self.layer_live(y)
                        ==> self.lay(y) == (Layer { dirty: LayerDirty { descendant: self.dirty(y).descendant, ..s4.dirty(y) }, ..s4.lay(y) })) by {
                        assert(s5.layer_live(y) == s4.layer_live(y));
                    }
                    assert forall|y: HLayer| #[trigger] self.layer_live(y) && s4.dirty(y).descendant implies self.dirty(
                        y).descendant by {
                        assert(s5.layer_live(y));
                    }
                    if one_up {
                        assert forall|y: HLayer|
                            y != p0 && #[trigger] self.layer_live(y) implies self.dirty(y).descendant == s4.dirty(
                            y,
                        ).descendant by {
                            assert(s5.layer_live(y));
                        }
                    }
                    started = true;
                }
                break;
            }
            pl.dirty.descendant = true;
            self.layers.set(p.index, Some(pl));
            proof {
                assert(self.layers@ =~= s5.layers@.update(p.index as int, Some(pl)));
                Self::lemma_put_back(&s5, self, p.index as int, pl);
                lemma_not_desc_update(s5.layers@, p.index as int, Some(pl));
                lemma_count_true_update(not_desc(s5.layers@), p.index as int, false);
                assert(s5.layer_live(p));
                assert forall|y: HLayer| #[trigger] self.layer_live(y) == s4.layer_live(y) && (self.layer_live(y)
                    ==> self.lay(y) == (Layer { dirty: LayerDirty { descendant: self.dirty(y).descendant, ..s4.dirty(y) }, ..s4.lay(y) })) by {
                    assert(s5.layer_live(y) == s4.layer_live(y));
                    if y.index == p.index {
                        assert(y == p);
                    }
                }
                assert forall|y: HLayer| #[trigger] self.layer_live(y) && s4.dirty(y).descendant implies self.dirty(
                    y).descendant by {
                    assert(s5.layer_live(y));
                    if y.index == p.index {
                        assert(y == p);
                    }
                }
                if let Some(Superlayer::Layer(p0)) = sup0 {
                    if self.layer_live(p0) && p0 != p {
                        assert(s5.layer_live(p0));
                        assert(p0.index != p.index);
                    }
                }
                if one_up {
                    assert forall|y: HLayer|
                        y != p0 && #[trigger] self.layer_live(y) implies self.dirty(y).descendant == s4.dirty(
                        y,
                    ).descendant by {
                        assert(s5.layer_live(y));
                        assert(p == p0);
                        if y.index == p.index {
                            assert(y == p);
                        }
                    }
                }
                started = true;
            }
        }
        proof {
            assert(self.layer_live(h) ==> self.superlayer(h) == sup0);
            if s0.pending_sublayers(h) is None && !(sup0 matches Some(Superlayer::Layer(_))) {
                assert(self.layers@ == s4.layers@);
            }
            assert forall|y: HLayer|
                #![trigger self.layer_live(y)]
                self.layer_live(y) == s4.layer_live(y) && (s4.layer_live(y) ==> self.ref_count(y) == s4.ref_count(y)) by {
                assert(self.layer_live(y) == s4.layer_live(y));
            }
            if attrs.sublayers is None || s0.pending_sublayers(h) is None {
                Self::lemma_retained_keep(&s0, &s4, self, v0);
            }
            if attrs.sublayers is None && one_up {
                assert(s3.layers@ == s0.layers@);
                Self::lemma_one_up(&s0, &s4, self, h, p0);
            }
        }
        proof {
            assert forall|j: int|
                0 <= j < v0.len() && #[trigger] self.layer_live(v0[j]) implies self.superlayer(v0[j]) == Some(
                Superlayer::Layer(h)) by {
                assert(s4.layer_live(v0[j]));
            }
        }
    }
}

proof fn lemma_occ_absent(s: Seq<HLayer>, x: HLayer)
    requires
        forall|k: int| 0 <= k < s.len() ==> s[k] != x,
    ensures
        occ(s, x) == 0,
    decreases s.len(),
{
    if s.len() > 0 {
        assert forall|k: int| 0 <= k < s.drop_first().len() implies s.drop_first()[k] != x by {
            assert(s.drop_first()[k] == s[k + 1]);
        }
        lemma_occ_absent(s.drop_first(), x);
    }
}

impl<A, W> Screen<A, W> {
    fn alloc_layer(&mut self, l: Layer<A>) -> (h: HLayer)
        requires
            old(self).wf(),
            layer_ok(l),
        ensures
            final(self).wf(),
            !old(self).layer_live(h),
            final(self).layer_live(h),
            final(self).lay(h) == l,
            forall|y: HLayer| y != h ==> #[trigger] final(self).same_layer(old(self), y),
            final(self).same_wnds(old(self)),
            final(self).live_layers() == old(self).live_layers() + 1,
            old(self).layer_slots() <= final(self).layer_slots() <= old(self).layer_slots() + 1,
    {
        let ghost s0 = *self;
        match self.free_layers.pop() {
            Some(i) => {
                proof {
                    lemma_free_ok_fill(s0.layers@, s0.free_layers@, l);
                    lemma_occupied_update(s0.layers@, i as int, Some(l));
                    lemma_count_true_update(occupied(s0.layers@), i as int, true);
                }
                self.layers.set(i, Some(l));
                let h = HLayer { index: i };
                proof {
                    assert forall|y: HLayer| y != h implies #[trigger] self.same_layer(&s0, y) by {
                        if y.index == i {
                            assert(y == h);
                        }
                    }
                }
                h
            },
            None => {
                proof {
                    lemma_free_ok_push(s0.layers@, s0.free_layers@, l);
                    lemma_occupied_push(s0.layers@, Some(l));
                    lemma_count_true_push(occupied(s0.layers@), true);
                }
                self.layers.push(Some(l));
                let h = HLayer { index: self.layers.len() - 1 };
                proof {
                    assert forall|y: HLayer| y != h implies #[trigger] self.same_layer(&s0, y) by {
                        if y.index < s0.layers@.len() {
                            assert(self.layers@[y.index as int] == s0.layers@[y.index as int]);
                        }
                    }
                }
                h
            },
        }
    }

    /// Create a layer with the attributes `default_attrs` (no content, no
    /// masking), then apply `attrs` to it.
    pub fn new_layer(&mut self, default_attrs: A, attrs: LayerAttrs<A>) -> (r: HLayer)
        requires
            old(self).wf(),
            attrs.sublayers matches Some(v) ==> forall|k: int|
                0 <= k < v.len() ==> old(self).layer_live(#[trigger] v@[k]),
            attrs.sublayers matches Some(v) ==> forall|y: HLayer|
                #[trigger] old(self).layer_live(y) ==> old(self).ref_count(y) + occ(v@, y) <= 255,
        ensures
            final(self).wf(),
            !old(self).layer_live(r),
            final(self).layer_live(r),
            final(self).same_wnds(old(self)),
            final(self).dirty(r).content,
            final(self).ref_count(r) == 1,
            final(self).superlayer(r) is None,
            final(self).sublayers(r).len() == 0,
            final(self).attrs(r) == (match attrs.content {
                Some(c) => c.attrs,
                None => default_attrs,
            }),
            final(self).pending_sublayers(r) == (match attrs.sublayers {
                Some(v) => Some(v@),
                None => None::<Seq<HLayer>>,
            }),
            old(self).layer_slots() <= final(self).layer_slots() <= old(self).layer_slots() + 1,
            final(self).live_layers() == old(self).live_layers() + 1,
            final(self).has_content(r) == (attrs.content matches Some(c) && c.has_content),
            final(self).mask_to_bounds(r) == (attrs.content matches Some(c) && c.mask_to_bounds),
            final(self).dirty(r).opacity == (attrs.content matches Some(c) && c.opacity_modified),
            final(self).content_box(r) is None,
            final(self).mask_box(r) is None,
            final(self).sublayers_box(r) is None,
            forall|y: HLayer|
                #![trigger final(self).layer_live(y)]
                y != r ==> final(self).layer_live(y) == old(self).layer_live(y),
            forall|y: HLayer|
                #![trigger final(self).layer_live(y)]
                y != r && final(self).layer_live(y) ==> final(self).same_content(old(self), y),
            forall|y: HLayer|
                #![trigger final(self).layer_live(y)]
                y != r && final(self).layer_live(y) ==> final(self).ref_count(y) == old(self).ref_count(y) + occ(
                    match attrs.sublayers {
                        Some(v) => v@,
                        None => Seq::empty(),
                    },
                    y,
                ),
    {
        let ghost v0: Seq<HLayer> = match &attrs.sublayers {
            Some(v) => v@,
            None => Seq::empty(),
        };
        let l = Layer {
            ref_count: 1,
            dirty: LayerDirty { content: true, opacity: false, descendant: false },
            attrs: default_attrs,
            has_content: false,
            mask_to_bounds: false,
            sublayers: Vec::new(),
            new_sublayers: None,
            superlayer: None,
            bbox: None,
            bbox_content: None,
            bbox_sublayers: None,
            bbox_mask: None,
            sublayers_i: NONE,
            dirty_rect: None,
            old_bbox: None,
        };
        let ghost s0 = *self;
        let h = self.alloc_layer(l);
        proof {
            if let Some(v) = &attrs.sublayers {
                assert forall|k: int| 0 <= k < v.len() implies self.layer_live(#[trigger] v@[k]) by {
                    assert(s0.layer_live(v@[k]));
                    assert(v@[k] != h);
                    assert(self.same_layer(&s0, v@[k]));
                }
                assert(!v@.contains(h)) by {
                    if v@.contains(h) {
                        let k = choose|k: int| 0 <= k < v@.len() && v@[k] == h;
                        assert(s0.layer_live(v@[k]));
                    }
                }
                assert forall|y: HLayer| #[trigger] self.layer_live(y) implies self.ref_count(y) + occ(v@, y)
                    <= 255 by {
                    if y == h {
                        assert forall|k: int| 0 <= k < v@.len() implies v@[k] != y by {
                            assert(s0.layer_live(v@[k]));
                        }
                        lemma_occ_absent(v@, y);
                    } else {
                        assert(self.same_layer(&s0, y));
                    }
                }
            }
        }
        let ghost s1 = *self;
        proof {
            assert(!v0.contains(h)) by {
                if v0.contains(h) {
                    let k = choose|k: int| 0 <= k < v0.len() && v0[k] == h;
                    assert(s0.layer_live(v0[k]));
                }
            }
        }
        self.set_layer_attr(h, attrs);
        proof {
            assert(Self::retained(&s1, self, v0));
            Self::lemma_live_layers_eq(&s1, self);
            assert forall|y: HLayer|
                #![trigger self.layer_live(y)]
                y != h && self.layer_live(y) implies self.ref_count(y) == s0.ref_count(y) + occ(v0, y) by {
                assert(s1.layer_live(y));
                assert(s1.same_layer(&s0, y));
            }
            assert forall|y: HLayer| #![trigger self.layer_live(y)] y != h implies self.layer_live(y) == s0.layer_live(
                y,
            ) by {
                assert(s1.same_layer(&s0, y));
            }
            assert forall|y: HLayer|
                #![trigger self.layer_live(y)]
                y != h && self.layer_live(y) implies self.same_content(&s0, y) by {
                assert(s1.same_layer(&s0, y));
                assert(self.same_content(&s1, y));
            }
        }
        h
    }

    /// Two screens whose layers are live at the same handles have as many
    /// layers.
    pub proof fn lemma_live_layers_eq(a: &Self, b: &Self)
        requires
            a.layer_slots() == b.layer_slots(),
            forall|y: HLayer| #[trigger] a.layer_live(y) == b.layer_live(y),
        ensures
            a.live_layers() == b.live_layers(),
    {
        assert forall|i: int| 0 <= i < a.layers@.len() implies occupied(a.layers@)[i] == occupied(
            b.layers@,
        )[i] by {
            assert(a.layers@.len() == a.layers.len());
            let y = HLayer { index: i as usize };
            assert(y.index == i);
            assert(a.layer_live(y) == b.layer_live(y));
        }
        assert(occupied(a.layers@) =~= occupied(b.layers@));
    }

    /// A screen with no live layer has no layers.
    pub proof fn lemma_no_live_layers(&self)
        requires
            forall|y: HLayer| !#[trigger] self.layer_live(y),
        ensures
            self.live_layers() == 0,
    {
        assert forall|i: int| 0 <= i < self.layers@.len() implies !occupied(self.layers@)[i] by {
            assert(self.layers@.len() == self.layers.len());
            let y = HLayer { index: i as usize };
            assert(y.index == i);
            assert(!self.layer_live(y));
        }
        lemma_count_true_none(occupied(self.layers@));
    }

    /// A live layer's slot is below the number of slots.
    pub proof fn lemma_live_slot(&self, h: HLayer)
        requires
            self.layer_live(h),
        ensures
            h.spec_slot() < self.layer_slots(),
    {
    }

    /// A live layer holds at least one reference.
    pub proof fn lemma_live_ref_count(&self, h: HLayer)
        requires
            self.wf(),
            self.layer_live(h),
        ensures
            self.ref_count(h) >= 1,
    {
        assert(layer_ok(self.layers@[h.index as int].unwrap()));
    }

    /// Drop the client's reference to the layer `h`.
    pub fn remove_layer(&mut self, h: HLayer)
        requires
            old(self).wf(),
            old(self).layer_live(h),
        ensures
            final(self).wf(),
            final(self).same_wnds(old(self)),
            final(self).layer_slots() == old(self).layer_slots(),
            final(self).kept_from(old(self)),
            old(self).ref_count(h) > 1 ==> {
                &&& final(self).layer_live(h)
                &&& final(self).ref_count(h) == old(self).ref_count(h) - 1
                &&& forall|h2: HLayer| h2 != h ==> #[trigger] final(self).same_layer(old(self), h2)
                &&& final(self).live_layers() == old(self).live_layers()
            },
            old(self).ref_count(h) == 1 ==> released(old(self), final(self), h),
    {
        self.release_layer(h);
    }

    /// Replace the root layer of the window `w`: the old root is detached
    /// and released, then `root` is attached (unless releasing the old root
    /// deleted it). The window is to be updated whole.
    pub fn set_wnd_layer(&mut self, w: HWnd, root: Option<HLayer>)
        requires
            old(self).wf(),
            old(self).wnd_live(w),
            root matches Some(h) ==> old(self).layer_live(h) && old(self).ref_count(h) < 255,
        ensures
            final(self).wf(),
            final(self).wnd_live(w),
            final(self).wnd_dirty(w),
            final(self).wnd_size(w) == old(self).wnd_size(w),
            final(self).wnd_attrs(w) == old(self).wnd_attrs(w),
            forall|w2: HWnd|
                #![trigger final(self).same_wnd(old(self), w2)]
                #![trigger final(self).wnd_live(w2)]
                #![trigger old(self).wnd_live(w2)]
                w2 != w ==> final(self).same_wnd(old(self), w2),
            final(self).layer_slots() == old(self).layer_slots(),
            final(self).wnd_root(w) == (match root {
                Some(h) => if final(self).layer_live(h) {
                    root
                } else {
                    None
                },
                None => None,
            }),
            root matches Some(h) ==> (final(self).layer_live(h) ==> final(self).superlayer(h) == Some(
                Superlayer::Wnd,
            )),
            old(self).wnd_root(w) is None ==> (root matches Some(h) ==> {
                &&& final(self).layer_live(h)
                &&& final(self).ref_count(h) == old(self).ref_count(h) + 1
                &&& forall|y: HLayer| y != h ==> #[trigger] final(self).same_layer(old(self), y)
            }),
            exists|mid: Self|
                #![trigger attached(&mid, final(self), root)]
                match old(self).wnd_root(w) {
                    Some(o) => dropped(old(self), &mid, o),
                    None => mid.same_layers(old(self)),
                } && attached(&mid, final(self), root),
    {
        let ghost s0 = *self;
        let mut wnd = self.wnds[w.index].take().unwrap();
        wnd.dirty = true;
        let old_root = wnd.root.take();
        proof {
            lemma_free_ok_keep(s0.wnds@, self.free_wnds@, w.index as int, wnd);
        }
        self.wnds.set(w.index, Some(wnd));
        let ghost s1 = *self;
        proof {
            assert forall|w2: HWnd| w2 != w implies #[trigger] s1.same_wnd(&s0, w2) by {
                if w2.index == w.index {
                    assert(w2 == w);
                }
            }
            assert(s1.layers@ =~= s0.layers@);
        }
        // Detach the old root
        if let Some(o) = old_root {
            if o.index < self.layers.len() {
                let ghost s2 = *self;
                if let Some(mut ol) = self.layers[o.index].take() {
                    ol.superlayer = None;
                    self.layers.set(o.index, Some(ol));
                    proof {
                        assert(self.layers@ =~= s2.layers@.update(o.index as int, Some(ol)));
                        Self::lemma_put_back(&s2, self, o.index as int, ol);
                    }
                } else {
                    assert(self.layers@ =~= s2.layers@);
                }
            }
            let ghost s3 = *self;
            proof {
                assert forall|y: HLayer| y != o implies #[trigger] s3.same_layer(&s0, y) by {
                    if y.index == o.index {
                        assert(y == o);
                    }
                }
                if !s0.layer_live(o) {
                    assert(s3.layers@ == s0.layers@);
                }
            }
            self.release_layer(o);
            proof {
                assert forall|y: HLayer| #[trigger] self.layer_live(y) implies s0.layer_live(y) && self.ref_count(y)
                    <= s0.ref_count(y) by {
                    assert(s3.layer_live(y));
                    if y.index == o.index {
                        assert(y == o);
                    }
                }
                if s0.layer_live(o) && s0.ref_count(o) > 1 {
                    assert(self.kept_from(&s3));
                    assert(self.layer_live(o));
                    assert forall|y: HLayer| y != o implies #[trigger] self.same_layer(&s0, y) by {
                        assert(self.same_layer(&s3, y));
                        assert(s3.same_layer(&s0, y));
                    }
                }
                if s0.layer_live(o) && s0.ref_count(o) == 1 {
                    Self::lemma_released_transfer(&s3, &s0, self, o);
                }
                assert(dropped(&s0, self, o));
            }
        }
        let ghost s4 = *self;
        proof {
            if old_root is None {
                assert(s4.layers@ == s0.layers@);
            }
        }
        // Attach the new root
        if let Some(h) = root {
            if h.index < self.layers.len() {
                if let Some(mut hl) = self.layers[h.index].take() {
                    assert(s4.layer_live(h));
                    hl.superlayer = Some(Superlayer::Wnd);
                    hl.ref_count = hl.ref_count + 1;
                    self.layers.set(h.index, Some(hl));
                    proof {
                        assert(self.layers@ =~= s4.layers@.update(h.index as int, Some(hl)));
                        Self::lemma_put_back(&s4, self, h.index as int, hl);
                        assert forall|y: HLayer| y != h implies #[trigger] self.same_layer(&s4, y) by {
                            if y.index == h.index {
                                assert(y == h);
                            }
                        }
                    }
                    let mut wnd = self.wnds[w.index].take().unwrap();
                    wnd.root = Some(h);
                    proof {
                        lemma_free_ok_keep(s4.wnds@, self.free_wnds@, w.index as int, wnd);
                    }
                    self.wnds.set(w.index, Some(wnd));
                    proof {
                        assert forall|w2: HWnd| w2 != w implies #[trigger] self.same_wnd(&s0, w2) by {
                            assert(s4.same_wnd(&s1, w2));
                            if w2.index == w.index {
                                assert(w2 == w);
                            }
                        }
                    }
                } else {
                    assert(self.layers@ =~= s4.layers@);
                }
            }
        }
        proof {
            assert(match s0.wnd_root(w) {
                Some(o) => dropped(&s0, &s4, o),
                None => s4.same_layers(&s0),
            });
            assert(attached(&s4, self, root));
        }
    }

    /// Delete the window `w`, releasing its root layer.
    pub fn remove_wnd(&mut self, w: HWnd)
        requires
            old(self).wf(),
            old(self).wnd_live(w),
        ensures
            final(self).wf(),
            !final(self).wnd_live(w),
            forall|w2: HWnd|
                #![trigger final(self).same_wnd(old(self), w2)]
                #![trigger final(self).wnd_live(w2)]
                #![trigger old(self).wnd_live(w2)]
                w2 != w ==> final(self).same_wnd(old(self), w2),
            final(self).layer_slots() == old(self).layer_slots(),
            exists|mid: Self|
                #![trigger final(self).same_layers(&mid)]
                match old(self).wnd_root(w) {
                    Some(o) => dropped(old(self), &mid, o),
                    None => mid.same_layers(old(self)),
                } && final(self).same_layers(&mid),
    {
        self.set_wnd_layer(w, None);
        let ghost s0 = *self;
        let ghost mid = choose|mid: Self|
            #![trigger attached(&mid, &s0, None)]
            match old(self).wnd_root(w) {
                Some(o) => dropped(old(self), &mid, o),
                None => mid.same_layers(old(self)),
            } && attached(&mid, &s0, None);
        let _ = self.wnds[w.index].take();
        proof {
            lemma_free_ok_vacate(s0.wnds@, self.free_wnds@, w.index);
        }
        self.free_wnds.push(w.index);
        proof {
            assert forall|w2: HWnd| w2 != w implies #[trigger] self.same_wnd(old(self), w2) by {
                assert(s0.same_wnd(old(self), w2));
                if w2.index == w.index {
                    assert(w2 == w);
                }
            }
            assert(self.same_layers(&mid));
        }
    }
}

/// The intersection of two optional boxes, `None` if it is empty.
#[verifier::opaque]
pub open spec fn intersect_opt(a: Option<UBox2>, b: Option<UBox2>) -> Option<UBox2> {
    match (a, b) {
        (Some(x), Some(y)) => {
            let r = UBox2 {
                min: [vstd::math::max(x.min[0] as int, y.min[0] as int) as usize, vstd::math::max(
                    x.min[1] as int,
                    y.min[1] as int,
                ) as usize],
                max: [vstd::math::min(x.max[0] as int, y.max[0] as int) as usize, vstd::math::min(
                    x.max[1] as int,
                    y.max[1] as int,
                ) as usize],
            };
            if r.spec_is_empty() {
                None
            } else {
                Some(r)
            }
        },
        _ => None,
    }
}

/// The intersection of two optional boxes, `None` if it is empty.
pub fn bbox2_intersect(x: Option<UBox2>, y: Option<UBox2>) -> (r: Option<UBox2>)
    ensures
        r == intersect_opt(x, y),
        box_ok(r),
{
    reveal(intersect_opt);
    match (x, y) {
        (Some(a), Some(b)) => {
            let min0 = if a.min[0] < b.min[0] {
                b.min[0]
            } else {
                a.min[0]
            };
            let min1 = if a.min[1] < b.min[1] {
                b.min[1]
            } else {
                a.min[1]
            };
            let max0 = if a.max[0] < b.max[0] {
                a.max[0]
            } else {
                b.max[0]
            };
            let max1 = if a.max[1] < b.max[1] {
                a.max[1]
            } else {
                b.max[1]
            };
            let r = UBox2 { min: [min0, min1], max: [max0, max1] };
            if r.is_empty() {
                None
            } else {
                proof {
                    assert(r.max =~= intersect_opt(x, y).unwrap().max);
                    assert(r.min =~= intersect_opt(x, y).unwrap().min);
                }
                Some(r)
            }
        },
        _ => None,
    }
}

/// The union of two optional boxes, each `None` or not empty.
pub fn bbox2_union(x: Option<UBox2>, y: Option<UBox2>) -> (r: Option<UBox2>)
    requires
        box_ok(x),
        box_ok(y),
    ensures
        r == union_opt(x, y),
        box_ok(r),
{
    let mut u = Box2UsizeUnion::new();
    u.insert(x);
    u.insert(y);
    u.into_box2()
}

/// The region that a layer's update changes, given what changed in its
/// content (`dirty_content`), in its composited sublayers
/// (`dirty_sublayers`) and in its mask (`dirty_mask`), its new boxes, and
/// whether its opacity changed. With `cₚ = c_content + c_sublayers * m_mask`
/// (the mask applies only with `mask_to_bounds`) and `cₒ = cₚ * m_opacity`,
/// it is the union of `dirty_content`, `dirty_sublayers * bbox_mask +
/// bbox_sublayers * dirty_mask + dirty_sublayers * dirty_mask` (just
/// `dirty_sublayers` without masking), and, if the opacity changed,
/// `bbox_content + bbox_sublayers * bbox_mask` (just `bbox_content +
/// bbox_sublayers` without masking), where `*` intersects.
pub open spec fn layer_dirty_spec(
    dirty_content: Option<UBox2>,
    dirty_sublayers: Option<UBox2>,
    dirty_mask: Option<UBox2>,
    bbox_content: Option<UBox2>,
    bbox_sublayers: Option<UBox2>,
    bbox_mask: Option<UBox2>,
    mask_to_bounds: bool,
    dirty_opacity: bool,
) -> Option<UBox2> {
    let with_sublayers = if mask_to_bounds {
        union_opt(
            union_opt(
                union_opt(dirty_content, intersect_opt(dirty_sublayers, bbox_mask)),
                intersect_opt(bbox_sublayers, dirty_mask),
            ),
            intersect_opt(dirty_mask, dirty_sublayers),
        )
    } else {
        union_opt(dirty_content, dirty_sublayers)
    };
    if dirty_opacity {
        union_opt(
            union_opt(with_sublayers, bbox_content),
            if mask_to_bounds {
                intersect_opt(bbox_mask, bbox_sublayers)
            } else {
                bbox_sublayers
            },
        )
    } else {
        with_sublayers
    }
}

/// The region that a layer's update changes (see `layer_dirty_spec`).
pub fn layer_dirty_rect(
    dirty_content: Option<UBox2>,
    dirty_sublayers: Option<UBox2>,
    dirty_mask: Option<UBox2>,
    bbox_content: Option<UBox2>,
    bbox_sublayers: Option<UBox2>,
    bbox_mask: Option<UBox2>,
    mask_to_bounds: bool,
    dirty_opacity: bool,
) -> (r: Option<UBox2>)
    requires
        box_ok(dirty_content),
        box_ok(dirty_sublayers),
        box_ok(bbox_content),
        box_ok(bbox_sublayers),
    ensures
        r == layer_dirty_spec(
            dirty_content,
            dirty_sublayers,
            dirty_mask,
            bbox_content,
            bbox_sublayers,
            bbox_mask,
            mask_to_bounds,
            dirty_opacity,
        ),
        box_ok(r),
{
    let mut uni = Box2UsizeUnion::new();
    uni.insert(dirty_content);
    assert(uni@ == dirty_content);
    if mask_to_bounds {
        let a = bbox2_intersect(dirty_sublayers, bbox_mask);
        let b = bbox2_intersect(bbox_sublayers, dirty_mask);
        let c = bbox2_intersect(dirty_mask, dirty_sublayers);
        uni.insert(a);
        uni.insert(b);
        uni.insert(c);
        assert(uni@ == union_opt(union_opt(union_opt(dirty_content, a), b), c));
    } else {
        uni.insert(dirty_sublayers);
    }
    let ghost with_sublayers = uni@;
    if dirty_opacity {
        uni.insert(bbox_content);
        let d = if mask_to_bounds {
            bbox2_intersect(bbox_mask, bbox_sublayers)
        } else {
            bbox_sublayers
        };
        uni.insert(d);
        assert(uni@ == union_opt(union_opt(with_sublayers, bbox_content), d));
    }
    uni.into_box2()
}

impl<A, W> Screen<A, W> {
    /// Every layer of `self` was a layer of `old`, and no layer got an
    /// uncommitted sublayer list or a change flag.
    pub closed spec fn settles(&self, old: &Self) -> bool {
        forall|y: HLayer|
            #[trigger] self.layer_live(y) ==> old.layer_live(y) && (old.pending_sublayers(y) is None
                ==> self.pending_sublayers(y) is None) && (old.dirty(y) == clean_flags() ==> self.dirty(y)
                == clean_flags()) && self.ref_count(y) <= old.ref_count(y) && self.has_content(y)
                == old.has_content(y) && self.superlayer(y) == old.superlayer(y)
    }

    /// No layer has an uncommitted sublayer list.
    pub open spec fn no_pending(&self) -> bool {
        forall|z: HLayer| #[trigger] self.layer_live(z) ==> self.pending_sublayers(z) is None
    }

    /// `b` has the layers of `a`, each with as many references.
    pub open spec fn same_refs(a: &Self, b: &Self) -> bool {
        forall|y: HLayer|
            #![trigger b.layer_live(y)]
            #![trigger a.layer_live(y)]
            b.layer_live(y) == a.layer_live(y) && (a.layer_live(y) ==> b.ref_count(y) == a.ref_count(y))
    }

    /// What `settles` says of the layer `y`.
    pub proof fn lemma_settles(a: &Self, b: &Self, y: HLayer)
        requires
            b.settles(a),
            b.layer_live(y),
        ensures
            a.layer_live(y),
            a.pending_sublayers(y) is None ==> b.pending_sublayers(y) is None,
            a.dirty(y) == clean_flags() ==> b.dirty(y) == clean_flags(),
            b.ref_count(y) <= a.ref_count(y),
            b.has_content(y) == a.has_content(y),
            b.superlayer(y) == a.superlayer(y),
    {
    }

    proof fn lemma_settles_trans(a: &Self, b: &Self, c: &Self)
        requires
            b.settles(a),
            c.settles(b),
        ensures
            c.settles(a),
    {
        assert forall|y: HLayer| #[trigger] c.layer_live(y) implies a.layer_live(y) && (a.pending_sublayers(y)
            is None ==> c.pending_sublayers(y) is None) && (a.dirty(y) == clean_flags() ==> c.dirty(y)
            == clean_flags()) && c.ref_count(y) <= a.ref_count(y) && c.has_content(y) == a.has_content(y) && c.superlayer(y) == a.superlayer(y) by {
            assert(b.layer_live(y));
        }
    }

    proof fn lemma_kept_settles(a: &Self, b: &Self)
        requires
            b.kept_from(a),
        ensures
            b.settles(a),
    {
        assert forall|y: HLayer| #[trigger] b.layer_live(y) implies a.layer_live(y) && (a.pending_sublayers(y)
            is None ==> b.pending_sublayers(y) is None) && (a.dirty(y) == clean_flags() ==> b.dirty(y)
            == clean_flags()) && b.ref_count(y) <= a.ref_count(y) && b.has_content(y) == a.has_content(y) && b.superlayer(y) == a.superlayer(y) by {
            assert(survives(a.lay(y), b.lay(y)));
        }
    }

    /// Save the bounding box of each layer of `list` as its old bounding
    /// box.
    fn mark_old_bboxes(&mut self, list: &Vec<HLayer>)
        requires
            old(self).wf(),
        ensures
            final(self).wf(),
            final(self).same_wnds(old(self)),
            final(self).layer_slots() == old(self).layer_slots(),
            final(self).settles(old(self)),
            forall|y: HLayer| #[trigger] final(self).layer_live(y) == old(self).layer_live(y),
            forall|y: HLayer|
                old(self).layer_live(y) ==> #[trigger] final(self).lay(y) == (if list@.contains(y) {
                    Layer { old_bbox: old(self).lay(y).bbox, ..old(self).lay(y) }
                } else {
                    old(self).lay(y)
                }),
    {
        let ghost s0 = *self;
        let mut i: usize = 0;
        while i < list.len()
            invariant
                i <= list.len(),
                self.wf(),
                self.same_wnds(&s0),
                self.layer_slots() == s0.layer_slots(),
                self.settles(&s0),
                forall|y: HLayer| #[trigger] self.layer_live(y) == s0.layer_live(y),
                forall|y: HLayer|
                    s0.layer_live(y) ==> #[trigger] self.lay(y) == (if exists|k: int| 0 <= k < i && list@[k] == y {
                        Layer { old_bbox: s0.lay(y).bbox, ..s0.lay(y) }
                    } else {
                        s0.lay(y)
                    }),
            decreases list.len() - i,
        {
            let y = list[i];
            let ghost s1 = *self;
            if y.index < self.layers.len() && self.layers[y.index].is_some() {
                let mut l = self.layers[y.index].take().unwrap();
                l.old_bbox = l.bbox;
                self.layers.set(y.index, Some(l));
                proof {
                    assert(self.layers@ =~= s1.layers@.update(y.index as int, Some(l)));
                    Self::lemma_put_back(&s1, self, y.index as int, l);
                    assert forall|z: HLayer| #[trigger] self.layer_live(z) implies s0.layer_live(z) && (
                    s0.pending_sublayers(z) is None ==> self.pending_sublayers(z) is None) by {
                        assert(s1.layer_live(z));
                        if z.index == y.index {
                            assert(z == y);
                        }
                    }
                    assert forall|z: HLayer| #[trigger] self.layer_live(z) == s0.layer_live(z) by {
                        assert(s1.layer_live(z) == s0.layer_live(z));
                    }
                    assert forall|z: HLayer|
                        s0.layer_live(z) implies #[trigger] self.lay(z) == (if exists|k: int| 0 <= k < i + 1 && list@[k] == z {
                            Layer { old_bbox: s0.lay(z).bbox, ..s0.lay(z) }
                        } else {
                            s0.lay(z)
                        }) by {
                        assert(s1.layer_live(z));
                        if z.index == y.index {
                            assert(z == y);
                            assert(list@[i as int] == z);
                        } else {
                            assert(z != y);
                            if exists|k: int| 0 <= k < i + 1 && list@[k] == z {
                                let k = choose|k: int| 0 <= k < i + 1 && list@[k] == z;
                                assert(k != i);
                            }
                        }
                    }
                }
            } else {
                proof {
                    assert(!self.layer_live(y));
                    assert(self.layer_live(y) == s0.layer_live(y));
                    assert forall|z: HLayer|
                        s0.layer_live(z) implies #[trigger] self.lay(z) == (if exists|k: int| 0 <= k < i + 1 && list@[k] == z {
                            Layer { old_bbox: s0.lay(z).bbox, ..s0.lay(z) }
                        } else {
                            s0.lay(z)
                        }) by {
                        if exists|k: int| 0 <= k < i + 1 && list@[k] == z {
                            let k = choose|k: int| 0 <= k < i + 1 && list@[k] == z;
                            assert(k != i);
                        }
                    }
                }
            }
            i += 1;
        }
    }

    /// The union of the dirty regions of the live layers of `list`.
    spec fn dirty_rects_union(&self, list: Seq<HLayer>) -> Option<UBox2>
        decreases list.len(),
    {
        if list.len() == 0 {
            None
        } else {
            union_opt(
                self.dirty_rects_union(list.drop_last()),
                if self.layer_live(list.last()) {
                    self.lay(list.last()).dirty_rect
                } else {
                    None
                },
            )
        }
    }

    /// The union of the bounding boxes of the live layers of `list`.
    spec fn bboxes_union(&self, list: Seq<HLayer>) -> Option<UBox2>
        decreases list.len(),
    {
        if list.len() == 0 {
            None
        } else {
            union_opt(
                self.bboxes_union(list.drop_last()),
                if self.layer_live(list.last()) {
                    self.lay(list.last()).bbox
                } else {
                    None
                },
            )
        }
    }

    /// The unions over a list agree in two states whose layers have the
    /// same bounding boxes and dirty regions.
    proof fn lemma_unions_same(a: &Self, b: &Self, list: Seq<HLayer>)
        requires
            forall|y: HLayer| #[trigger] a.layer_live(y) == b.layer_live(y),
            forall|y: HLayer|
                #[trigger] a.layer_live(y) ==> a.lay(y).bbox == b.lay(y).bbox && a.lay(y).dirty_rect == b.lay(
                    y,
                ).dirty_rect,
        ensures
            a.bboxes_union(list) == b.bboxes_union(list),
            a.dirty_rects_union(list) == b.dirty_rects_union(list),
        decreases list.len(),
    {
        if list.len() > 0 {
            Self::lemma_unions_same(a, b, list.drop_last());
            assert(a.layer_live(list.last()) == b.layer_live(list.last()));
        }
    }

    /// The union of the dirty regions of the layers of `list`.
    fn sum_dirty_rects(&self, list: &Vec<HLayer>) -> (r: Option<UBox2>)
        requires
            self.wf(),
        ensures
            box_ok(r),
            r == self.dirty_rects_union(list@),
    {
        let mut uni = Box2UsizeUnion::new();
        let mut i: usize = 0;
        while i < list.len()
            invariant
                i <= list.len(),
                self.wf(),
                uni.wf(),
                uni@ == self.dirty_rects_union(list@.take(i as int)),
            decreases list.len() - i,
        {
            let y = list[i];
            proof {
                assert(list@.take(i + 1).drop_last() =~= list@.take(i as int));
                assert(list@.take(i + 1).last() == y);
            }
            if y.index < self.layers.len() && self.layers[y.index].is_some() {
                let l = self.layers[y.index].as_ref().unwrap();
                assert(layer_ok(*l));
                uni.insert(l.dirty_rect);
            }
            i += 1;
        }
        proof {
            assert(list@.take(list.len() as int) =~= list@);
        }
        uni.into_box2()
    }

    /// The union of the bounding boxes of the layers of `list`.
    fn sum_bboxes(&self, list: &Vec<HLayer>) -> (r: Option<UBox2>)
        requires
            self.wf(),
        ensures
            box_ok(r),
            r == self.bboxes_union(list@),
    {
        let mut uni = Box2UsizeUnion::new();
        let mut i: usize = 0;
        while i < list.len()
            invariant
                i <= list.len(),
                self.wf(),
                uni.wf(),
                uni@ == self.bboxes_union(list@.take(i as int)),
            decreases list.len() - i,
        {
            let y = list[i];
            proof {
                assert(list@.take(i + 1).drop_last() =~= list@.take(i as int));
                assert(list@.take(i + 1).last() == y);
            }
            if y.index < self.layers.len() && self.layers[y.index].is_some() {
                let l = self.layers[y.index].as_ref().unwrap();
                assert(layer_ok(*l));
                uni.insert(l.bbox);
            }
            i += 1;
        }
        proof {
            assert(list@.take(list.len() as int) =~= list@);
        }
        uni.into_box2()
    }
}

/// The box `u` contains the box `b` (`None` is empty).
pub open spec fn covers(u: Option<UBox2>, b: Option<UBox2>) -> bool {
    match b {
        None => true,
        Some(x) => match u {
            Some(y) => y.min[0] <= x.min[0] && y.min[1] <= x.min[1] && x.max[0] <= y.max[0] && x.max[1] <= y.max[1],
            None => false,
        },
    }
}

proof fn lemma_covers_insert(u: Option<UBox2>, x: Option<UBox2>)
    ensures
        covers(union_opt(u, x), x),
        forall|y: Option<UBox2>| #[trigger] covers(u, y) ==> covers(union_opt(u, x), y),
{
}

/// The slots of `s` hold what those of `s0` hold, but for the diff index,
/// which names a position in `old` holding the slot's handle, from `from`
/// on, or is `NONE`.
/// The last place of `y` in `list`, or -1.
pub open spec fn last_pos(list: Seq<HLayer>, y: HLayer) -> int
    decreases list.len(),
{
    if list.len() == 0 {
        -1
    } else if list.last() == y {
        list.len() - 1
    } else {
        last_pos(list.drop_last(), y)
    }
}

/// `acc` with `ob` of the layers of `before[from..to]` that `live` admits,
/// in order.
pub open spec fn old_fold(
    before: Seq<HLayer>,
    from: int,
    to: int,
    acc: Option<UBox2>,
    live: spec_fn(HLayer) -> bool,
    ob: spec_fn(HLayer) -> Option<UBox2>,
) -> Option<UBox2>
    decreases to - from,
{
    if from >= to || from < 0 || from >= before.len() {
        acc
    } else {
        old_fold(
            before,
            from + 1,
            to,
            union_opt(
                acc,
                if live(before[from]) {
                    ob(before[from])
                } else {
                    None
                },
            ),
            live,
            ob,
        )
    }
}

/// The region that the diff from the list `before` to the list `after`
/// gives (see `Screen::diff_region`), folded into `acc` from `after[j]` on
/// with `before[..cursor]` passed over, where `live` tells the layers that
/// exist, `ob` gives a removed layer's old bounding box, and `bb` and `dr` an
/// added layer's bounding box and a kept layer's dirty region.
pub open spec fn diff_fold(
    before: Seq<HLayer>,
    after: Seq<HLayer>,
    j: int,
    cursor: int,
    acc: Option<UBox2>,
    live: spec_fn(HLayer) -> bool,
    ob: spec_fn(HLayer) -> Option<UBox2>,
    bb: spec_fn(HLayer) -> Option<UBox2>,
    dr: spec_fn(HLayer) -> Option<UBox2>,
) -> Option<UBox2>
    decreases after.len() - j,
{
    if j < 0 || j >= after.len() {
        old_fold(before, cursor, before.len() as int, acc, live, ob)
    } else {
        let y = after[j];
        let p = last_pos(before, y);
        if !live(y) {
            diff_fold(before, after, j + 1, cursor, acc, live, ob, bb, dr)
        } else if p < cursor {
            diff_fold(before, after, j + 1, cursor, union_opt(acc, bb(y)), live, ob, bb, dr)
        } else {
            diff_fold(
                before,
                after,
                j + 1,
                p + 1,
                union_opt(old_fold(before, cursor, p, acc, live, ob), dr(y)),
                live,
                ob,
                bb,
                dr,
            )
        }
    }
}

/// The last place of `y` in `list` is -1 or a place that holds `y`.
proof fn lemma_last_pos_range(list: Seq<HLayer>, y: HLayer)
    ensures
        -1 <= last_pos(list, y) < list.len(),
        last_pos(list, y) >= 0 ==> list[last_pos(list, y)] == y,
    decreases list.len(),
{
    if list.len() > 0 && list.last() != y {
        lemma_last_pos_range(list.drop_last(), y);
    }
}

/// Each layer of `s` records its last place in `before[..n]`, or `NONE`.
spec fn positions_upto<A>(s: Seq<Option<Layer<A>>>, before: Seq<HLayer>, n: int) -> bool {
    forall|k: int|
        0 <= k < s.len() && #[trigger] s[k] is Some ==> {
            let p = last_pos(before.take(n), HLayer { index: k as usize });
            s[k].unwrap().sublayers_i as int == if p < 0 {
                NONE as int
            } else {
                p
            }
        }
}

spec fn indexed_from<A>(s: Seq<Option<Layer<A>>>, s0: Seq<Option<Layer<A>>>, old: Seq<HLayer>, from: int) -> bool {
    &&& s.len() == s0.len()
    &&& forall|k: int| 0 <= k < s.len() ==> (#[trigger] s[k] is Some) == (s0[k] is Some)
    &&& forall|k: int|
        0 <= k < s.len() && #[trigger] s[k] is Some ==> {
            let l = s[k].unwrap();
            &&& l == Layer { sublayers_i: l.sublayers_i, ..s0[k].unwrap() }
            &&& (l.sublayers_i == NONE || (from <= l.sublayers_i < old.len() && old[l.sublayers_i as int].index == k))
        }
}

impl<A, W> Screen<A, W> {
    /// The bounding box that the layer `h` had when the sublayer list that
    /// held it was last replaced.
    pub closed spec fn old_bbox(&self, h: HLayer) -> Option<UBox2> {
        self.lay(h).old_bbox
    }

    /// `acc` with the old bounding boxes (`old_bbox`) of the live layers of
    /// `before[from..to]`, in order.
    pub open spec fn old_bboxes_from(&self, before: Seq<HLayer>, from: int, to: int, acc: Option<UBox2>) -> Option<UBox2>
        decreases to - from,
    {
        if from >= to || from < 0 || from >= before.len() {
            acc
        } else {
            self.old_bboxes_from(
                before,
                from + 1,
                to,
                union_opt(
                    acc,
                    if self.layer_live(before[from]) {
                        self.old_bbox(before[from])
                    } else {
                        None
                    },
                ),
            )
        }
    }

    /// The region that the diff from `before` to `after` gives, folded into
    /// `acc`, from `after[j]` on with `before[..cursor]` passed over. A live
    /// layer of `after` whose last place in `before` lies before `cursor`
    /// (or that `before` lacks) was added: its bounding box counts. Otherwise
    /// the layers of `before` from `cursor` up to its place were removed
    /// (their old bounding boxes count), it stayed (its dirty region counts),
    /// and the cursor moves past it. The layers of `before` left at the end
    /// were removed.
    pub open spec fn diff_region(
        &self,
        before: Seq<HLayer>,
        after: Seq<HLayer>,
        j: int,
        cursor: int,
        acc: Option<UBox2>,
    ) -> Option<UBox2>
        decreases after.len() - j,
    {
        if j < 0 || j >= after.len() {
            self.old_bboxes_from(before, cursor, before.len() as int, acc)
        } else {
            let y = after[j];
            let p = last_pos(before, y);
            if !self.layer_live(y) {
                self.diff_region(before, after, j + 1, cursor, acc)
            } else if p < cursor {
                self.diff_region(before, after, j + 1, cursor, union_opt(acc, self.bbox(y)))
            } else {
                self.diff_region(
                    before,
                    after,
                    j + 1,
                    p + 1,
                    union_opt(self.old_bboxes_from(before, cursor, p, acc), self.dirty_rect(y)),
                )
            }
        }
    }

    /// The region that replacing the committed sublayer list `before` of a
    /// layer by `after` changes, where the layers of `after` are committed
    /// without checking their own sublayers: the diff of the two lists over
    /// the bounding boxes that the layers had before and what `tree_res`
    /// gives them.
    pub open spec fn replaced_region(&self, before: Seq<HLayer>, after: Seq<HLayer>, shapes: Seq<Option<UBox2>>, fuel: int) -> Option<UBox2> {
        diff_fold(
            before,
            after,
            0,
            0,
            None,
            |y: HLayer| self.layer_live(y),
            |z: HLayer| self.bbox(z),
            |y: HLayer| self.tree_res(y, false, shapes, fuel).1,
            |y: HLayer| self.tree_res(y, false, shapes, fuel).0,
        )
    }

    /// The committed sublayer list of the layer `h` is replaced by its
    /// pending list, whose layers `children_ok` admits; the replaced layers
    /// have no sublayers or pending lists of their own, and `h` is not one
    /// of them.
    pub open spec fn replaces_leaves(&self, h: HLayer, full: bool, fuel: int) -> bool {
        &&& self.layer_live(h)
        &&& self.pending_sublayers(h) is Some
        &&& self.children_ok(h, self.new_list(h), full, fuel)
        &&& Self::leaves(self, self.sublayers(h))
        &&& !self.sublayers(h).contains(h)
    }

    /// The sublayer box of the layer `h` once its sublayer list is replaced
    /// as `replaces_leaves` says (and nothing is recalculated whole).
    pub open spec fn replaced_sub_box(&self, h: HLayer, shapes: Seq<Option<UBox2>>, fuel: int) -> Option<UBox2> {
        let d = self.replaced_region(self.sublayers(h), self.new_list(h), shapes, fuel - 1);
        if d is Some {
            self.list_res(self.new_list(h), false, shapes, fuel - 1).1
        } else {
            self.sublayers_box(h)
        }
    }

    /// The region that the update of the layer `h` changes where its
    /// sublayer list is replaced as `replaces_leaves` says (and nothing is
    /// recalculated whole).
    pub open spec fn replaced_dirty_rect(&self, h: HLayer, shapes: Seq<Option<UBox2>>, fuel: int) -> Option<UBox2> {
        self.committed_dirty_rect(
            h,
            false,
            shapes[h.spec_slot() as int],
            self.replaced_region(self.sublayers(h), self.new_list(h), shapes, fuel - 1),
            self.replaced_sub_box(h, shapes, fuel),
        )
    }

    /// `old_bboxes_from` is `old_fold` over functions that agree with the
    /// state on `before`.
    proof fn lemma_old_fold(
        &self,
        before: Seq<HLayer>,
        from: int,
        to: int,
        acc: Option<UBox2>,
        live: spec_fn(HLayer) -> bool,
        ob: spec_fn(HLayer) -> Option<UBox2>,
    )
        requires
            forall|k: int|
                0 <= k < before.len() ==> live(#[trigger] before[k]) == self.layer_live(before[k]) && (self.layer_live(
                    before[k],
                ) ==> ob(before[k]) == self.old_bbox(before[k])),
        ensures
            self.old_bboxes_from(before, from, to, acc) == old_fold(before, from, to, acc, live, ob),
        decreases to - from,
    {
        if !(from >= to || from < 0 || from >= before.len()) {
            assert(live(before[from]) == self.layer_live(before[from]));
            self.lemma_old_fold(
                before,
                from + 1,
                to,
                union_opt(
                    acc,
                    if live(before[from]) {
                        ob(before[from])
                    } else {
                        None
                    },
                ),
                live,
                ob,
            );
        }
    }

    /// `diff_region` is `diff_fold` over functions that agree with the state
    /// on the two lists.
    proof fn lemma_diff_fold(
        &self,
        before: Seq<HLayer>,
        after: Seq<HLayer>,
        j: int,
        cursor: int,
        acc: Option<UBox2>,
        live: spec_fn(HLayer) -> bool,
        ob: spec_fn(HLayer) -> Option<UBox2>,
        bb: spec_fn(HLayer) -> Option<UBox2>,
        dr: spec_fn(HLayer) -> Option<UBox2>,
    )
        requires
            forall|k: int|
                0 <= k < before.len() ==> live(#[trigger] before[k]) == self.layer_live(before[k]) && (self.layer_live(
                    before[k],
                ) ==> ob(before[k]) == self.old_bbox(before[k])),
            forall|k: int|
                0 <= k < after.len() ==> live(#[trigger] after[k]) == self.layer_live(after[k]) && (self.layer_live(
                    after[k],
                ) ==> bb(after[k]) == self.bbox(after[k]) && dr(after[k]) == self.dirty_rect(after[k])),
        ensures
            self.diff_region(before, after, j, cursor, acc) == diff_fold(before, after, j, cursor, acc, live, ob, bb, dr),
        decreases after.len() - j,
    {
        if j < 0 || j >= after.len() {
            self.lemma_old_fold(before, cursor, before.len() as int, acc, live, ob);
        } else {
            let y = after[j];
            let p = last_pos(before, y);
            assert(live(after[j]) == self.layer_live(after[j]));
            if !live(y) {
                self.lemma_diff_fold(before, after, j + 1, cursor, acc, live, ob, bb, dr);
            } else if p < cursor {
                self.lemma_diff_fold(before, after, j + 1, cursor, union_opt(acc, bb(y)), live, ob, bb, dr);
            } else {
                self.lemma_old_fold(before, cursor, p, acc, live, ob);
                self.lemma_diff_fold(
                    before,
                    after,
                    j + 1,
                    p + 1,
                    union_opt(old_fold(before, cursor, p, acc, live, ob), dr(y)),
                    live,
                    ob,
                    bb,
                    dr,
                );
            }
        }
    }

    /// The region that changed with the sublayer list going from `before`
    /// to `after`, in linear time. Each layer of `after` is either found in
    /// `before` past the last one found (it stayed: its own dirty region
    /// counts) or not (it was added: its bounding box counts); the layers of
    /// `before` passed over were removed (their old bounding boxes count).
    fn diff_dirty(&mut self, before: &Vec<HLayer>, after: &Vec<HLayer>) -> (r: Option<UBox2>)
        requires
            old(self).wf(),
        ensures
            final(self).wf(),
            final(self).same_layers(old(self)),
            final(self).same_wnds(old(self)),
            final(self).free_layers@ == old(self).free_layers@,
            box_ok(r),
            r == old(self).diff_region(before@, after@, 0, 0, None),
            forall|p: int|
                0 <= p < before.len() && #[trigger] old(self).layer_live(before@[p]) && !after@.contains(before@[p])
                    ==> covers(r, old(self).lay(before@[p]).old_bbox),
            forall|j: int|
                0 <= j < after.len() && #[trigger] old(self).layer_live(after@[j]) ==> {
                    &&& covers(r, old(self).lay(after@[j]).bbox) || covers(r, old(self).lay(after@[j]).dirty_rect)
                    &&& !before@.contains(after@[j]) ==> covers(r, old(self).lay(after@[j]).bbox)
                },
    {
        let ghost s0 = *self;
        proof {
            assert(before@.take(0) =~= Seq::<HLayer>::empty());
            assert forall|k: int| 0 <= k < self.layers@.len() && #[trigger] self.layers@[k] is Some implies {
                let p = last_pos(before@.take(0), HLayer { index: k as usize });
                self.layers@[k].unwrap().sublayers_i as int == if p < 0 {
                    NONE as int
                } else {
                    p
                }
            } by {
                assert(layer_ok(self.layers@[k].unwrap()));
            }
        }
        // Record the position of each layer in `before`
        let mut i: usize = 0;
        while i < before.len()
            invariant
                s0.wf(),
                i <= before.len(),
                self.free_layers@ == s0.free_layers@,
                self.wnds@ == s0.wnds@,
                self.free_wnds@ == s0.free_wnds@,
                indexed_from(self.layers@, s0.layers@, before@, 0),
                positions_upto(self.layers@, before@, i as int),
                self.layers.len() == self.layers@.len(),
            decreases before.len() - i,
        {
            let y = before[i];
            let ghost sb = *self;
            proof {
                assert(before@.take(i + 1) =~= before@.take(i as int).push(y));
                assert(before@.take(i + 1).drop_last() =~= before@.take(i as int));
            }
            if y.index < self.layers.len() {
                let ghost s1 = *self;
                if let Some(mut l) = self.layers[y.index].take() {
                    l.sublayers_i = i;
                    self.layers.set(y.index, Some(l));
                    proof {
                        assert(self.layers@ =~= s1.layers@.update(y.index as int, Some(l)));
                    }
                } else {
                    assert(self.layers@ =~= s1.layers@);
                }
            }
            proof {
                assert forall|k: int| 0 <= k < self.layers@.len() && #[trigger] self.layers@[k] is Some implies {
                    let p = last_pos(before@.take(i + 1), HLayer { index: k as usize });
                    self.layers@[k].unwrap().sublayers_i as int == if p < 0 {
                        NONE as int
                    } else {
                        p
                    }
                } by {
                    let hk = HLayer { index: k as usize };
                    assert(hk.index == k);
                    assert(before@.take(i + 1).last() == y);
                    if y == hk {
                        assert(self.layers@[k].unwrap().sublayers_i == i);
                    } else {
                        assert(y.index != k);
                        assert(self.layers@[k] == sb.layers@[k]);
                    }
                }
            }
            i += 1;
        }
        proof {
            assert(before@.take(before.len() as int) =~= before@);
        }
        let mut uni = Box2UsizeUnion::new();
        let mut cursor: usize = 0;
        let mut j: usize = 0;
        while j < after.len()
            invariant
                s0.wf(),
                indexed_from(self.layers@, s0.layers@, before@, 0),
                j <= after.len(),
                cursor <= before.len(),
                uni.wf(),
                positions_upto(self.layers@, before@, before.len() as int),
                before@.take(before.len() as int) == before@,
                s0.diff_region(before@, after@, 0, 0, None) == s0.diff_region(before@, after@, j as int, cursor as int, uni@),
                forall|p: int|
                    0 <= p < cursor && #[trigger] s0.layer_live(before@[p]) ==> covers(
                        uni@,
                        s0.lay(before@[p]).old_bbox,
                    ) || exists|j2: int| 0 <= j2 < j && after@[j2] == before@[p],
                forall|j2: int|
                    0 <= j2 < j && #[trigger] s0.layer_live(after@[j2]) ==> {
                        &&& covers(uni@, s0.lay(after@[j2]).bbox) || covers(uni@, s0.lay(after@[j2]).dirty_rect)
                        &&& !before@.contains(after@[j2]) ==> covers(uni@, s0.lay(after@[j2]).bbox)
                    },
            decreases after.len() - j,
        {
            let y = after[j];
            let ghost u0 = uni@;
            let ghost c0 = cursor;
            if y.index < self.layers.len() && self.layers[y.index].is_some() {
                let l = self.layers[y.index].as_ref().unwrap();
                assert(layer_ok(s0.layers@[y.index as int].unwrap()));
                assert(s0.layer_live(y));
                let si = l.sublayers_i;
                proof {
                    assert(HLayer { index: y.index as int as usize } == y);
                    assert(self.layers@[y.index as int] is Some);
                    let p = last_pos(before@, y);
                    assert(si as int == if p < 0 { NONE as int } else { p });
                    lemma_last_pos_range(before@, y);
                    assert(l == Layer { sublayers_i: l.sublayers_i, ..s0.lay(y) });
                }
                if si == NONE || si < cursor {
                    // `l` was added
                    uni.insert(l.bbox);
                    proof {
                        lemma_covers_insert(u0, l.bbox);
                    }
                } else {
                    // `before[cursor..si]` were removed; `l` stayed
                    let mut k: usize = cursor;
                    while k < si
                        invariant
                            s0.wf(),
                            indexed_from(self.layers@, s0.layers@, before@, 0),
                            s0.old_bboxes_from(before@, c0 as int, si as int, u0) == s0.old_bboxes_from(
                                before@,
                                k as int,
                                si as int,
                                uni@,
                            ),
                            c0 == cursor,
                            cursor <= k <= si,
                            si < before.len(),
                            j < after.len(),
                            uni.wf(),
                            forall|p: int|
                                0 <= p < k && #[trigger] s0.layer_live(before@[p]) ==> covers(
                                    uni@,
                                    s0.lay(before@[p]).old_bbox,
                                ) || exists|j2: int| 0 <= j2 < j && after@[j2] == before@[p],
                            forall|j2: int|
                                0 <= j2 < j && #[trigger] s0.layer_live(after@[j2]) ==> {
                                    &&& covers(uni@, s0.lay(after@[j2]).bbox) || covers(
                                        uni@,
                                        s0.lay(after@[j2]).dirty_rect,
                                    )
                                    &&& !before@.contains(after@[j2]) ==> covers(uni@, s0.lay(after@[j2]).bbox)
                                },
                        decreases si - k,
                    {
                        let z = before[k];
                        if z.index < self.layers.len() && self.layers[z.index].is_some() {
                            let zl = self.layers[z.index].as_ref().unwrap();
                            assert(layer_ok(s0.layers@[z.index as int].unwrap()));
                            let ghost u1 = uni@;
                            uni.insert(zl.old_bbox);
                            proof {
                                lemma_covers_insert(u1, zl.old_bbox);
                            }
                        } else {
                            assert(!s0.layer_live(z));
                        }
                        k += 1;
                    }
                    proof {
                        assert(before@[si as int] == y);
                        assert(before@.contains(y));
                    }
                    cursor = si + 1;
                    let ghost u2 = uni@;
                    uni.insert(l.dirty_rect);
                    proof {
                        lemma_covers_insert(u2, l.dirty_rect);
                    }
                }
            } else {
                assert(!s0.layer_live(y));
            }
            proof {
                assert forall|p: int|
                    0 <= p < cursor && #[trigger] s0.layer_live(before@[p]) implies covers(
                    uni@,
                    s0.lay(before@[p]).old_bbox,
                ) || exists|j2: int| 0 <= j2 < j + 1 && after@[j2] == before@[p] by {
                    if p < c0 {
                        if !covers(uni@, s0.lay(before@[p]).old_bbox) {
                            let j2 = choose|j2: int| 0 <= j2 < j && after@[j2] == before@[p];
                            assert(0 <= j2 < j + 1 && after@[j2] == before@[p]);
                        }
                    } else if before@[p] == y {
                        assert(after@[j as int] == before@[p]);
                    }
                }
            }
            j += 1;
        }
        // `before[cursor..]` were removed
        let mut k: usize = cursor;
        while k < before.len()
            invariant
                s0.wf(),
                indexed_from(self.layers@, s0.layers@, before@, 0),
                s0.diff_region(before@, after@, 0, 0, None) == s0.old_bboxes_from(
                    before@,
                    k as int,
                    before.len() as int,
                    uni@,
                ),
                cursor <= k <= before.len(),
                uni.wf(),
                forall|p: int|
                    0 <= p < k && #[trigger] s0.layer_live(before@[p]) ==> covers(
                        uni@,
                        s0.lay(before@[p]).old_bbox,
                    ) || exists|j2: int| 0 <= j2 < after.len() && after@[j2] == before@[p],
                forall|j2: int|
                    0 <= j2 < after.len() && #[trigger] s0.layer_live(after@[j2]) ==> {
                        &&& covers(uni@, s0.lay(after@[j2]).bbox) || covers(uni@, s0.lay(after@[j2]).dirty_rect)
                        &&& !before@.contains(after@[j2]) ==> covers(uni@, s0.lay(after@[j2]).bbox)
                    },
            decreases before.len() - k,
        {
            let z = before[k];
            if z.index < self.layers.len() && self.layers[z.index].is_some() {
                let zl = self.layers[z.index].as_ref().unwrap();
                assert(layer_ok(s0.layers@[z.index as int].unwrap()));
                let ghost u1 = uni@;
                uni.insert(zl.old_bbox);
                proof {
                    lemma_covers_insert(u1, zl.old_bbox);
                }
            } else {
                assert(!s0.layer_live(z));
            }
            k += 1;
        }
        let r = uni.into_box2();
        proof {
            assert forall|p: int|
                0 <= p < before.len() && #[trigger] s0.layer_live(before@[p]) && !after@.contains(before@[p])
                    implies covers(r, s0.lay(before@[p]).old_bbox) by {
                if !covers(r, s0.lay(before@[p]).old_bbox) {
                    let j2 = choose|j2: int| 0 <= j2 < after.len() && after@[j2] == before@[p];
                    assert(after@.contains(before@[p]));
                }
            }
        }
        // Clear the positions
        let mut i: usize = 0;
        while i < before.len()
            invariant
                s0.wf(),
                i <= before.len(),
                self.free_layers@ == s0.free_layers@,
                self.wnds@ == s0.wnds@,
                self.free_wnds@ == s0.free_wnds@,
                indexed_from(self.layers@, s0.layers@, before@, i as int),
            decreases before.len() - i,
        {
            let y = before[i];
            if y.index < self.layers.len() {
                let ghost s1 = *self;
                if let Some(mut l) = self.layers[y.index].take() {
                    l.sublayers_i = NONE;
                    self.layers.set(y.index, Some(l));
                    proof {
                        assert(self.layers@ =~= s1.layers@.update(y.index as int, Some(l)));
                    }
                } else {
                    assert(self.layers@ =~= s1.layers@);
                }
            }
            i += 1;
        }
        proof {
            assert forall|k: int| 0 <= k < self.layers@.len() implies self.layers@[k] == s0.layers@[k] by {
                if self.layers@[k] is Some {
                    assert(layer_ok(s0.layers@[k].unwrap()));
                }
            }
            assert(self.layers@ =~= s0.layers@);
        }
        r
    }
}

/// No uncommitted change.
pub open spec fn clean_flags() -> LayerDirty {
    LayerDirty { content: false, opacity: false, descendant: false }
}

/// The shapes given to an update: for each layer slot, `None` or a box that
/// is not empty.
pub open spec fn shapes_ok(shapes: Seq<Option<UBox2>>) -> bool {
    forall|i: int| 0 <= i < shapes.len() ==> box_ok(#[trigger] shapes[i])
}

impl<A, W> Screen<A, W> {
    /// The layer `h` has no uncommitted change.
    pub open spec fn layer_clean(&self, h: HLayer) -> bool {
        self.dirty(h) == clean_flags() && self.pending_sublayers(h) is None
    }

    /// The box that the content of the layer `h` covers, as of its last
    /// update.
    pub closed spec fn content_box(&self, h: HLayer) -> Option<UBox2> {
        self.lay(h).bbox_content
    }

    /// The box that the mask of the layer `h` covers, as of its last update.
    pub closed spec fn mask_box(&self, h: HLayer) -> Option<UBox2> {
        self.lay(h).bbox_mask
    }

    /// The box that the sublayers of the layer `h` cover, as of its last
    /// update.
    pub closed spec fn sublayers_box(&self, h: HLayer) -> Option<UBox2> {
        self.lay(h).bbox_sublayers
    }

    /// The content box of the layer `h` once committed: its shape (if it has
    /// content) where its content changed or `full`, else unchanged.
    pub open spec fn committed_content_box(&self, h: HLayer, full: bool, shape: Option<UBox2>) -> Option<UBox2> {
        if self.dirty(h).content || full {
            if self.has_content(h) {
                shape
            } else {
                None
            }
        } else {
            self.content_box(h)
        }
    }

    /// The mask box of the layer `h` once committed: its shape where its
    /// content changed or `full`, else unchanged.
    pub open spec fn committed_mask_box(&self, h: HLayer, full: bool, shape: Option<UBox2>) -> Option<UBox2> {
        if self.dirty(h).content || full {
            shape
        } else {
            self.mask_box(h)
        }
    }

    /// The region that committing the layer `h`, whose sublayers are not
    /// checked, changes: where its content changed (or `full`), the old and
    /// new content and mask boxes both count as changed; the rest follows
    /// `layer_dirty_spec`.
    pub open spec fn content_dirty_rect(&self, h: HLayer, full: bool, shape: Option<UBox2>) -> Option<UBox2> {
        self.committed_dirty_rect(h, full, shape, None, self.sublayers_box(h))
    }

    /// The region that committing the layer `h` changes, where `dsub` is the
    /// region that its sublayers changed and `sub_box` their new bounding
    /// box.
    pub open spec fn committed_dirty_rect(
        &self,
        h: HLayer,
        full: bool,
        shape: Option<UBox2>,
        dsub: Option<UBox2>,
        sub_box: Option<UBox2>,
    ) -> Option<UBox2> {
        let check = self.dirty(h).content || full;
        let new_content = self.committed_content_box(h, full, shape);
        let new_mask = self.committed_mask_box(h, full, shape);
        let dirty_content = if check {
            union_opt(new_content, self.content_box(h))
        } else {
            None
        };
        let dirty_mask = if check {
            union_opt(shape, self.mask_box(h))
        } else {
            None
        };
        layer_dirty_spec(
            dirty_content,
            dsub,
            dirty_mask,
            new_content,
            sub_box,
            new_mask,
            self.mask_to_bounds(h),
            self.dirty(h).opacity,
        )
    }

    /// The bounding box of the layer `h`, as of its last update.
    pub closed spec fn bbox(&self, h: HLayer) -> Option<UBox2> {
        self.lay(h).bbox
    }

    /// The bounding box of the layer `h` once committed, `sub_box` being its
    /// sublayers' new bounding box: its content box with its sublayers' box
    /// (clipped to its mask box if it masks), recalculated where its content
    /// changed, `full`, or its sublayers were checked.
    pub open spec fn committed_bbox(
        &self,
        h: HLayer,
        full: bool,
        shape: Option<UBox2>,
        checked: bool,
        sub_box: Option<UBox2>,
    ) -> Option<UBox2> {
        if self.dirty(h).content || full || checked {
            union_opt(
                self.committed_content_box(h, full, shape),
                if self.mask_to_bounds(h) {
                    intersect_opt(self.committed_mask_box(h, full, shape), sub_box)
                } else {
                    sub_box
                },
            )
        } else {
            self.bbox(h)
        }
    }

    /// The sublayer list that an update of the layer `h` commits: its
    /// pending list if it has one, else its committed one.
    pub open spec fn new_list(&self, h: HLayer) -> Seq<HLayer> {
        match self.pending_sublayers(h) {
            Some(p) => p,
            None => self.sublayers(h),
        }
    }

    /// The layer `y`, as a sublayer being updated, touches no other layer:
    /// it has no pending list, and either no sublayers (where everything is
    /// recalculated, `full`) or no changed descendant.
    pub open spec fn child_ok(&self, y: HLayer, full: bool) -> bool {
        &&& self.layer_live(y)
        &&& self.pending_sublayers(y) is None
        &&& if full {
            self.sublayers(y).len() == 0
        } else {
            !self.dirty(y).descendant
        }
    }

    /// The new sublayer box of a sublayer `y` that `child_ok` admits.
    pub open spec fn child_sub_box(&self, y: HLayer, full: bool) -> Option<UBox2> {
        if full {
            None
        } else {
            self.sublayers_box(y)
        }
    }

    /// `new` has the sublayer `y` of `old` committed: its boxes, bounding box
    /// and changed region recalculated, and its flags cleared.
    pub open spec fn child_updated(old: &Self, new: &Self, y: HLayer, full: bool, shape: Option<UBox2>) -> bool {
        &&& new.layer_live(y)
        &&& new.layer_clean(y)
        &&& new.ref_count(y) == old.ref_count(y)
        &&& new.sublayers(y) == old.sublayers(y)
        &&& new.dirty_rect(y) == old.committed_dirty_rect(y, full, shape, None, old.child_sub_box(y, full))
        &&& new.bbox(y) == old.committed_bbox(y, full, shape, full, old.child_sub_box(y, full))
        &&& new.sublayers_box(y) == old.child_sub_box(y, full)
        &&& new.content_box(y) == old.committed_content_box(y, full, shape)
        &&& new.mask_box(y) == old.committed_mask_box(y, full, shape)
        &&& new.old_bbox(y) == old.old_bbox(y)
    }

    /// The update of the layer `h` checks its sublayers: it is recalculated
    /// whole, has a changed descendant or has a pending list.
    pub open spec fn checks(&self, h: HLayer, full: bool) -> bool {
        full || self.dirty(h).descendant || self.pending_sublayers(h) is Some
    }

    /// `z` is `h` or, where the update of `h` checks its sublayers, lies in
    /// the tree of one of them; `fuel` levels deep at most.
    pub open spec fn in_tree(&self, z: HLayer, h: HLayer, full: bool, fuel: int) -> bool
        decreases fuel,
    {
        &&& fuel > 0
        &&& (z == h || (self.checks(h, full) && exists|k: int|
            0 <= k < self.new_list(h).len() && self.in_tree(z, #[trigger] self.new_list(h)[k], full, fuel - 1)))
    }

    /// `z` lies in the tree of one of the layers of `list`.
    pub open spec fn in_list(&self, z: HLayer, list: Seq<HLayer>, full: bool, fuel: int) -> bool {
        exists|k: int| 0 <= k < list.len() && #[trigger] self.in_tree(z, list[k], full, fuel)
    }

    /// The update of the layer `h` can be described layer by layer: every
    /// layer it reaches is live; no committed sublayer list is replaced (a
    /// pending list only where everything is recalculated, on a layer with
    /// no committed sublayers); and the trees of the sublayers of each layer
    /// are disjoint and do not hold it.
    pub open spec fn tree_ok(&self, h: HLayer, full: bool, fuel: int) -> bool
        decreases fuel, 1int,
    {
        &&& fuel > 0
        &&& self.layer_live(h)
        &&& self.checks(h, full) ==> {
            &&& !full ==> self.pending_sublayers(h) is None
            &&& self.pending_sublayers(h) is Some ==> self.sublayers(h).len() == 0
            &&& self.list_ok(h, self.new_list(h), full, fuel - 1)
        }
    }

    /// The sublayers `list` of the layer `h` satisfy `tree_ok`, and their
    /// trees are disjoint and do not hold `h`.
    pub open spec fn list_ok(&self, h: HLayer, list: Seq<HLayer>, full: bool, fuel: int) -> bool
        decreases fuel, 2int,
    {
        &&& list.no_duplicates()
        &&& forall|k: int| 0 <= k < list.len() ==> self.tree_ok(#[trigger] list[k], full, fuel)
        &&& forall|k: int| 0 <= k < list.len() ==> !self.in_tree(h, #[trigger] list[k], full, fuel)
        &&& forall|k1: int, k2: int, z: HLayer|
            0 <= k1 < list.len() && 0 <= k2 < list.len() && k1 != k2 && #[trigger] self.in_tree(z, list[k1], full, fuel)
                ==> !#[trigger] self.in_tree(z, list[k2], full, fuel)
    }

    /// What an update of the layer `h` gives it: the region its change
    /// affects, its bounding box and its sublayers' bounding box. Where the
    /// update checks the sublayers, their regions and bounding boxes come
    /// from their own updates (`list_res`).
    pub open spec fn tree_res(&self, h: HLayer, full: bool, shapes: Seq<Option<UBox2>>, fuel: int) -> (
        Option<UBox2>,
        Option<UBox2>,
        Option<UBox2>,
    )
        decreases fuel, 1int, 0int,
    {
        if fuel <= 0 {
            (None, None, None)
        } else {
            let shape = shapes[h.spec_slot() as int];
            let c = self.checks(h, full);
            let ch = self.list_res(self.new_list(h), full, shapes, fuel - 1);
            let sub_box = if c && (full || ch.0 is Some) {
                ch.1
            } else {
                self.sublayers_box(h)
            };
            let d = if c {
                ch.0
            } else {
                None
            };
            (
                self.committed_dirty_rect(h, full, shape, d, sub_box),
                self.committed_bbox(h, full, shape, c, sub_box),
                sub_box,
            )
        }
    }

    /// The unions of the regions and of the bounding boxes that updates of
    /// the layers of `list` give them.
    pub open spec fn list_res(&self, list: Seq<HLayer>, full: bool, shapes: Seq<Option<UBox2>>, fuel: int) -> (
        Option<UBox2>,
        Option<UBox2>,
    )
        decreases fuel, 2int, list.len(),
    {
        if list.len() == 0 || fuel < 0 {
            (None, None)
        } else {
            let a = self.list_res(list.drop_last(), full, shapes, fuel);
            let r = self.tree_res(list.last(), full, shapes, fuel);
            (union_opt(a.0, r.0), union_opt(a.1, r.1))
        }
    }

    /// `new` has the layer `h` of `old` and, where its update checks them,
    /// the trees of its sublayers updated: each layer committed with what
    /// `tree_res` gives it, its sublayer list committed and its flags
    /// cleared.
    pub open spec fn tree_updated(old: &Self, new: &Self, h: HLayer, full: bool, shapes: Seq<Option<UBox2>>, fuel: int) -> bool
        decreases fuel,
    {
        let r = old.tree_res(h, full, shapes, fuel);
        let shape = shapes[h.spec_slot() as int];
        &&& fuel > 0
        &&& new.layer_live(h)
        &&& new.layer_clean(h)
        &&& new.ref_count(h) == old.ref_count(h)
        &&& new.sublayers(h) == old.new_list(h)
        &&& new.dirty_rect(h) == r.0
        &&& new.bbox(h) == r.1
        &&& new.sublayers_box(h) == r.2
        &&& new.content_box(h) == old.committed_content_box(h, full, shape)
        &&& new.mask_box(h) == old.committed_mask_box(h, full, shape)
        &&& new.old_bbox(h) == old.old_bbox(h)
        &&& old.checks(h, full) ==> forall|k: int|
            0 <= k < old.new_list(h).len() ==> Self::tree_updated(
                old,
                new,
                #[trigger] old.new_list(h)[k],
                full,
                shapes,
                fuel - 1,
            )
    }

    /// A layer of the tree of a checked sublayer lies in the tree.
    proof fn lemma_in_tree_child(s: &Self, z: HLayer, y: HLayer, full: bool, fuel: int, k: int)
        requires
            fuel > 0,
            s.checks(y, full),
            0 <= k < s.new_list(y).len(),
            s.in_tree(z, s.new_list(y)[k], full, fuel - 1),
        ensures
            s.in_tree(z, y, full, fuel),
    {
        assert(exists|k2: int| 0 <= k2 < s.new_list(y).len() && s.in_tree(z, #[trigger] s.new_list(y)[k2], full, fuel - 1));
    }

    /// A layer of the tree other than its root lies in the tree of a checked
    /// sublayer.
    proof fn lemma_in_tree_unfold(s: &Self, z: HLayer, y: HLayer, full: bool, fuel: int) -> (k: int)
        requires
            s.in_tree(z, y, full, fuel),
            z != y,
        ensures
            fuel > 0,
            s.checks(y, full),
            0 <= k < s.new_list(y).len(),
            s.in_tree(z, s.new_list(y)[k], full, fuel - 1),
    {
        choose|k: int| 0 <= k < s.new_list(y).len() && s.in_tree(z, #[trigger] s.new_list(y)[k], full, fuel - 1)
    }

    /// A sublayer that `child_ok` admits is a tree of one layer, and its
    /// update as such commits it as `child_updated` says.
    proof fn lemma_child_tree(old: &Self, new: &Self, y: HLayer, full: bool, shapes: Seq<Option<UBox2>>, fuel: int)
        requires
            old.child_ok(y, full),
            fuel > 0,
        ensures
            old.tree_ok(y, full, fuel),
            forall|z: HLayer| #[trigger] old.in_tree(z, y, full, fuel) ==> z == y,
            Self::tree_updated(old, new, y, full, shapes, fuel) ==> Self::child_updated(
                old,
                new,
                y,
                full,
                shapes[y.spec_slot() as int],
            ),
    {
        let list = old.new_list(y);
        if full {
            assert(list.len() == 0);
            assert(list =~= Seq::<HLayer>::empty());
            assert(old.list_res(list, full, shapes, fuel - 1) == (None::<UBox2>, None::<UBox2>));
            assert(old.list_ok(y, list, full, fuel - 1));
        }
        assert forall|z: HLayer| #[trigger] old.in_tree(z, y, full, fuel) implies z == y by {
            if z != y {
                let k = Self::lemma_in_tree_unfold(old, z, y, full, fuel);
            }
        }
    }

    /// `list_res` depends only on what `tree_res` gives each layer.
    proof fn lemma_list_res_eq(a: &Self, b: &Self, list: Seq<HLayer>, full: bool, shapes: Seq<Option<UBox2>>, fuel: int)
        requires
            forall|k: int|
                0 <= k < list.len() ==> a.tree_res(#[trigger] list[k], full, shapes, fuel) == b.tree_res(
                    list[k],
                    full,
                    shapes,
                    fuel,
                ),
        ensures
            a.list_res(list, full, shapes, fuel) == b.list_res(list, full, shapes, fuel),
        decreases list.len(),
    {
        if list.len() > 0 && fuel >= 0 {
            let l2 = list.drop_last();
            assert forall|k: int| 0 <= k < l2.len() implies a.tree_res(#[trigger] l2[k], full, shapes, fuel) == b.tree_res(
                l2[k],
                full,
                shapes,
                fuel,
            ) by {
                assert(l2[k] == list[k]);
            }
            Self::lemma_list_res_eq(a, b, l2, full, shapes, fuel);
            assert(list.last() == list[list.len() - 1]);
        }
    }

    /// The update of `y` reads only the layers of its tree: a state that
    /// agrees there has the same tree, admits the update alike and gives the
    /// same results.
    proof fn lemma_tree_agree(a: &Self, b: &Self, y: HLayer, full: bool, shapes: Seq<Option<UBox2>>, fuel: int)
        requires
            a.tree_ok(y, full, fuel),
            forall|z: HLayer| #[trigger] a.in_tree(z, y, full, fuel) ==> b.same_layer(a, z),
        ensures
            b.tree_ok(y, full, fuel),
            forall|z: HLayer| #[trigger] b.in_tree(z, y, full, fuel) == a.in_tree(z, y, full, fuel),
            b.tree_res(y, full, shapes, fuel) == a.tree_res(y, full, shapes, fuel),
        decreases fuel,
    {
        assert(a.in_tree(y, y, full, fuel));
        assert(b.same_layer(a, y));
        assert(b.lay(y) == a.lay(y));
        let list = a.new_list(y);
        assert(b.new_list(y) == list);
        assert(b.checks(y, full) == a.checks(y, full));
        if a.checks(y, full) {
            assert forall|k: int| 0 <= k < list.len() implies {
                &&& b.tree_ok(#[trigger] list[k], full, fuel - 1)
                &&& forall|z: HLayer| #[trigger] b.in_tree(z, list[k], full, fuel - 1) == a.in_tree(z, list[k], full, fuel - 1)
                &&& b.tree_res(list[k], full, shapes, fuel - 1) == a.tree_res(list[k], full, shapes, fuel - 1)
            } by {
                assert(a.tree_ok(list[k], full, fuel - 1));
                assert forall|z: HLayer| #[trigger] a.in_tree(z, list[k], full, fuel - 1) implies b.same_layer(a, z) by {
                    Self::lemma_in_tree_child(a, z, y, full, fuel, k);
                }
                Self::lemma_tree_agree(a, b, list[k], full, shapes, fuel - 1);
            }
            assert forall|z: HLayer| #[trigger] b.in_tree(z, y, full, fuel) == a.in_tree(z, y, full, fuel) by {
                if z != y {
                    if a.in_tree(z, y, full, fuel) {
                        let k = Self::lemma_in_tree_unfold(a, z, y, full, fuel);
                        assert(b.in_tree(z, list[k], full, fuel - 1));
                        Self::lemma_in_tree_child(b, z, y, full, fuel, k);
                    }
                    if b.in_tree(z, y, full, fuel) {
                        let k = Self::lemma_in_tree_unfold(b, z, y, full, fuel);
                        assert(a.in_tree(z, list[k], full, fuel - 1));
                        Self::lemma_in_tree_child(a, z, y, full, fuel, k);
                    }
                }
            }
            assert(b.list_ok(y, list, full, fuel - 1));
            Self::lemma_list_res_eq(a, b, list, full, shapes, fuel - 1);
        } else {
            assert forall|z: HLayer| #[trigger] b.in_tree(z, y, full, fuel) == a.in_tree(z, y, full, fuel) by {}
        }
    }

    /// `tree_updated` reads the new state only at the layers of the tree.
    proof fn lemma_tree_new_agree(
        old: &Self,
        n1: &Self,
        n2: &Self,
        y: HLayer,
        full: bool,
        shapes: Seq<Option<UBox2>>,
        fuel: int,
    )
        requires
            Self::tree_updated(old, n1, y, full, shapes, fuel),
            forall|z: HLayer| #[trigger] old.in_tree(z, y, full, fuel) ==> n2.same_layer(n1, z),
        ensures
            Self::tree_updated(old, n2, y, full, shapes, fuel),
        decreases fuel,
    {
        assert(old.in_tree(y, y, full, fuel));
        assert(n2.lay(y) == n1.lay(y));
        let list = old.new_list(y);
        if old.checks(y, full) {
            assert forall|k: int| 0 <= k < list.len() implies Self::tree_updated(
                old,
                n2,
                #[trigger] list[k],
                full,
                shapes,
                fuel - 1,
            ) by {
                assert forall|z: HLayer| #[trigger] old.in_tree(z, list[k], full, fuel - 1) implies n2.same_layer(n1, z) by {
                    Self::lemma_in_tree_child(old, z, y, full, fuel, k);
                }
                Self::lemma_tree_new_agree(old, n1, n2, list[k], full, shapes, fuel - 1);
            }
        }
    }

    /// `tree_updated` reads the old state only at the layers of the tree.
    proof fn lemma_tree_old_agree(
        o1: &Self,
        o2: &Self,
        new: &Self,
        y: HLayer,
        full: bool,
        shapes: Seq<Option<UBox2>>,
        fuel: int,
    )
        requires
            Self::tree_updated(o1, new, y, full, shapes, fuel),
            o1.tree_ok(y, full, fuel),
            forall|z: HLayer| #[trigger] o1.in_tree(z, y, full, fuel) ==> o2.same_layer(o1, z),
        ensures
            Self::tree_updated(o2, new, y, full, shapes, fuel),
        decreases fuel,
    {
        Self::lemma_tree_agree(o1, o2, y, full, shapes, fuel);
        assert(o1.in_tree(y, y, full, fuel));
        assert(o2.lay(y) == o1.lay(y));
        let list = o1.new_list(y);
        assert(o2.new_list(y) == list);
        if o1.checks(y, full) {
            assert forall|k: int| 0 <= k < list.len() implies Self::tree_updated(
                o2,
                new,
                #[trigger] list[k],
                full,
                shapes,
                fuel - 1,
            ) by {
                assert(o1.tree_ok(list[k], full, fuel - 1));
                assert forall|z: HLayer| #[trigger] o1.in_tree(z, list[k], full, fuel - 1) implies o2.same_layer(o1, z) by {
                    Self::lemma_in_tree_child(o1, z, y, full, fuel, k);
                }
                Self::lemma_tree_old_agree(o1, o2, new, list[k], full, shapes, fuel - 1);
            }
        }
    }

    /// The unions over updated trees are what `list_res` gives.
    proof fn lemma_tree_unions(old: &Self, now: &Self, list: Seq<HLayer>, full: bool, shapes: Seq<Option<UBox2>>, fuel: int)
        requires
            forall|k: int| 0 <= k < list.len() ==> Self::tree_updated(old, now, #[trigger] list[k], full, shapes, fuel),
        ensures
            now.dirty_rects_union(list) == old.list_res(list, full, shapes, fuel).0,
            now.bboxes_union(list) == old.list_res(list, full, shapes, fuel).1,
        decreases list.len(),
    {
        if list.len() > 0 {
            let l2 = list.drop_last();
            assert forall|k: int| 0 <= k < l2.len() implies Self::tree_updated(old, now, #[trigger] l2[k], full, shapes, fuel) by {
                assert(l2[k] == list[k]);
            }
            Self::lemma_tree_unions(old, now, l2, full, shapes, fuel);
            assert(Self::tree_updated(old, now, list[list.len() - 1], full, shapes, fuel));
            assert(list.last() == list[list.len() - 1]);
        }
    }

    /// A state that differs from `a` only at `h` keeps `list_ok` of the
    /// sublayers `list` of `h`, their trees and their results.
    proof fn lemma_list_ok_transfer(a: &Self, b: &Self, h: HLayer, list: Seq<HLayer>, full: bool, shapes: Seq<Option<UBox2>>, fuel: int)
        requires
            a.list_ok(h, list, full, fuel),
            forall|y: HLayer| y != h ==> #[trigger] b.same_layer(a, y),
        ensures
            b.list_ok(h, list, full, fuel),
            forall|k: int, z: HLayer|
                0 <= k < list.len() ==> #[trigger] b.in_tree(z, list[k], full, fuel) == a.in_tree(z, list[k], full, fuel),
            forall|k: int| 0 <= k < list.len() ==> #[trigger] b.tree_res(list[k], full, shapes, fuel) == a.tree_res(list[k], full, shapes, fuel),
            b.list_res(list, full, shapes, fuel) == a.list_res(list, full, shapes, fuel),
    {
        assert forall|k: int| 0 <= k < list.len() implies {
            &&& b.tree_ok(#[trigger] list[k], full, fuel)
            &&& forall|z: HLayer| #[trigger] b.in_tree(z, list[k], full, fuel) == a.in_tree(z, list[k], full, fuel)
            &&& b.tree_res(list[k], full, shapes, fuel) == a.tree_res(list[k], full, shapes, fuel)
        } by {
            assert(a.tree_ok(list[k], full, fuel));
            assert forall|z: HLayer| #[trigger] a.in_tree(z, list[k], full, fuel) implies b.same_layer(a, z) by {
                if z == h {
                    assert(!a.in_tree(h, list[k], full, fuel));
                }
            }
            Self::lemma_tree_agree(a, b, list[k], full, shapes, fuel);
        }
        assert forall|k: int, z: HLayer| 0 <= k < list.len() implies #[trigger] b.in_tree(z, list[k], full, fuel) == a.in_tree(z, list[k], full, fuel) by {
            assert(b.tree_ok(list[k], full, fuel));
        }
        Self::lemma_list_res_eq(a, b, list, full, shapes, fuel);
    }

    /// The sublayers `list` of the layer `h` can be updated one by one,
    /// each touching only itself (see `child_ok`), with `fuel` left.
    pub open spec fn children_ok(&self, h: HLayer, list: Seq<HLayer>, full: bool, fuel: int) -> bool {
        &&& list.no_duplicates()
        &&& !list.contains(h)
        &&& list.len() > 0 ==> fuel > 1
        &&& forall|k: int| 0 <= k < list.len() ==> self.child_ok(#[trigger] list[k], full)
    }

    /// Putting together what checking the sublayers of `h` and committing
    /// `h` did.
    /// Putting together what checking the sublayers of `h` and committing
    /// `h` did, where `tree_ok` admits the update.
    proof fn lemma_tree_done(
        s0: &Self,
        s1: &Self,
        s2: &Self,
        s3: &Self,
        h: HLayer,
        full: bool,
        shapes: Seq<Option<UBox2>>,
        list: Seq<HLayer>,
        change: Option<(Option<UBox2>, Option<UBox2>)>,
        fuel: int,
    )
        requires
            s0.tree_ok(h, full, fuel),
            s0.checks(h, full),
            list == s0.new_list(h),
            s1.layer_live(h),
            s1.lay(h) == (Layer { sublayers: s1.lay(h).sublayers, new_sublayers: None, ..s0.lay(h) }),
            forall|y: HLayer| y != h ==> #[trigger] s1.same_layer(s0, y),
            forall|k: int| 0 <= k < list.len() ==> Self::tree_updated(s1, s2, #[trigger] list[k], full, shapes, fuel - 1),
            forall|z: HLayer| z != h && !s1.in_list(z, list, full, fuel - 1) ==> #[trigger] s2.same_layer(s1, z),
            s2.layer_live(h),
            s2.lay(h) == (Layer { sublayers: s2.lay(h).sublayers, ..s1.lay(h) }),
            s2.sublayers(h) == list,
            change == {
                let c = s1.list_res(list, full, shapes, fuel - 1);
                if full || c.0 is Some {
                    Some((c.1, c.0))
                } else {
                    None
                }
            },
            s3.layer_live(h),
            s3.layer_clean(h),
            s3.ref_count(h) == s2.ref_count(h),
            s3.sublayers(h) == s2.sublayers(h),
            forall|y: HLayer| y != h ==> #[trigger] s3.same_layer(s2, y),
            s3.dirty_rect(h) == s2.committed_dirty_rect(
                h,
                full,
                shapes[h.spec_slot() as int],
                match change {
                    Some((_, d)) => d,
                    None => None,
                },
                match change {
                    Some((b, _)) => b,
                    None => s2.sublayers_box(h),
                },
            ),
            s3.bbox(h) == s2.committed_bbox(
                h,
                full,
                shapes[h.spec_slot() as int],
                true,
                match change {
                    Some((b, _)) => b,
                    None => s2.sublayers_box(h),
                },
            ),
            s3.content_box(h) == s2.committed_content_box(h, full, shapes[h.spec_slot() as int]),
            s3.mask_box(h) == s2.committed_mask_box(h, full, shapes[h.spec_slot() as int]),
            s3.old_bbox(h) == s2.old_bbox(h),
            s3.sublayers_box(h) == match change {
                Some((b, _)) => b,
                None => s2.sublayers_box(h),
            },
        ensures
            Self::tree_updated(s0, s3, h, full, shapes, fuel),
            forall|z: HLayer| !s0.in_tree(z, h, full, fuel) ==> #[trigger] s3.same_layer(s0, z),
    {
        Self::lemma_list_ok_transfer(s0, s1, h, list, full, shapes, fuel - 1);
        assert forall|k: int| 0 <= k < list.len() implies Self::tree_updated(s0, s3, #[trigger] list[k], full, shapes, fuel - 1) by {
            assert(!s0.in_tree(h, list[k], full, fuel - 1));
            assert(s1.in_tree(h, list[k], full, fuel - 1) == s0.in_tree(h, list[k], full, fuel - 1));
            assert forall|z: HLayer| #[trigger] s1.in_tree(z, list[k], full, fuel - 1) implies s0.same_layer(s1, z) by {
                assert(s1.same_layer(s0, z));
            }
            Self::lemma_tree_old_agree(s1, s0, s2, list[k], full, shapes, fuel - 1);
            assert forall|z: HLayer| #[trigger] s0.in_tree(z, list[k], full, fuel - 1) implies s3.same_layer(s2, z) by {}
            Self::lemma_tree_new_agree(s0, s2, s3, list[k], full, shapes, fuel - 1);
        }
        assert forall|z: HLayer| !s0.in_tree(z, h, full, fuel) implies #[trigger] s3.same_layer(s0, z) by {
            assert(s0.in_tree(h, h, full, fuel));
            assert(z != h);
            if s1.in_list(z, list, full, fuel - 1) {
                let k = choose|k: int| 0 <= k < list.len() && #[trigger] s1.in_tree(z, list[k], full, fuel - 1);
                assert(s0.in_tree(z, list[k], full, fuel - 1));
                Self::lemma_in_tree_child(s0, z, h, full, fuel, k);
            }
            assert(s2.same_layer(s1, z));
            assert(s1.same_layer(s0, z));
            assert(s3.same_layer(s2, z));
        }
        let c = s0.list_res(list, full, shapes, fuel - 1);
        let sub_box = if full || c.0 is Some {
            c.1
        } else {
            s0.sublayers_box(h)
        };
        assert(match change {
            Some((_, dd)) => dd,
            None => None,
        } == c.0);
        assert(match change {
            Some((b, _)) => b,
            None => s2.sublayers_box(h),
        } == sub_box);
        assert(s2.lay(h) == (Layer { sublayers: s2.lay(h).sublayers, new_sublayers: None, ..s0.lay(h) }));
        assert(s3.dirty_rect(h) == s0.committed_dirty_rect(h, full, shapes[h.spec_slot() as int], c.0, sub_box));
        assert(s3.bbox(h) == s0.committed_bbox(h, full, shapes[h.spec_slot() as int], true, sub_box));
        assert(s3.sublayers_box(h) == sub_box);
        assert(s0.tree_res(h, full, shapes, fuel) == (
            s0.committed_dirty_rect(h, full, shapes[h.spec_slot() as int], c.0, sub_box),
            s0.committed_bbox(h, full, shapes[h.spec_slot() as int], true, sub_box),
            sub_box,
        ));
    }

    /// `old_fold` reads its functions only at the layers of `before`.
    proof fn lemma_old_fold_congr(
        before: Seq<HLayer>,
        from: int,
        to: int,
        acc: Option<UBox2>,
        live1: spec_fn(HLayer) -> bool,
        ob1: spec_fn(HLayer) -> Option<UBox2>,
        live2: spec_fn(HLayer) -> bool,
        ob2: spec_fn(HLayer) -> Option<UBox2>,
    )
        requires
            forall|k: int|
                0 <= k < before.len() ==> live1(#[trigger] before[k]) == live2(before[k]) && (live1(before[k]) ==> ob1(
                    before[k],
                ) == ob2(before[k])),
        ensures
            old_fold(before, from, to, acc, live1, ob1) == old_fold(before, from, to, acc, live2, ob2),
        decreases to - from,
    {
        if !(from >= to || from < 0 || from >= before.len()) {
            assert(live1(before[from]) == live2(before[from]));
            Self::lemma_old_fold_congr(
                before,
                from + 1,
                to,
                union_opt(
                    acc,
                    if live1(before[from]) {
                        ob1(before[from])
                    } else {
                        None
                    },
                ),
                live1,
                ob1,
                live2,
                ob2,
            );
        }
    }

    /// `diff_fold` reads its functions only at the layers of the two lists.
    proof fn lemma_diff_fold_congr(
        before: Seq<HLayer>,
        after: Seq<HLayer>,
        j: int,
        cursor: int,
        acc: Option<UBox2>,
        live1: spec_fn(HLayer) -> bool,
        ob1: spec_fn(HLayer) -> Option<UBox2>,
        bb1: spec_fn(HLayer) -> Option<UBox2>,
        dr1: spec_fn(HLayer) -> Option<UBox2>,
        live2: spec_fn(HLayer) -> bool,
        ob2: spec_fn(HLayer) -> Option<UBox2>,
        bb2: spec_fn(HLayer) -> Option<UBox2>,
        dr2: spec_fn(HLayer) -> Option<UBox2>,
    )
        requires
            forall|k: int|
                0 <= k < before.len() ==> live1(#[trigger] before[k]) == live2(before[k]) && (live1(before[k]) ==> ob1(
                    before[k],
                ) == ob2(before[k])),
            forall|k: int|
                0 <= k < after.len() ==> live1(#[trigger] after[k]) == live2(after[k]) && (live1(after[k]) ==> bb1(
                    after[k],
                ) == bb2(after[k]) && dr1(after[k]) == dr2(after[k])),
        ensures
            diff_fold(before, after, j, cursor, acc, live1, ob1, bb1, dr1) == diff_fold(
                before,
                after,
                j,
                cursor,
                acc,
                live2,
                ob2,
                bb2,
                dr2,
            ),
        decreases after.len() - j,
    {
        if j < 0 || j >= after.len() {
            Self::lemma_old_fold_congr(before, cursor, before.len() as int, acc, live1, ob1, live2, ob2);
        } else {
            let y = after[j];
            let p = last_pos(before, y);
            assert(live1(after[j]) == live2(after[j]));
            if !live1(y) {
                Self::lemma_diff_fold_congr(before, after, j + 1, cursor, acc, live1, ob1, bb1, dr1, live2, ob2, bb2, dr2);
            } else if p < cursor {
                Self::lemma_diff_fold_congr(
                    before,
                    after,
                    j + 1,
                    cursor,
                    union_opt(acc, bb1(y)),
                    live1,
                    ob1,
                    bb1,
                    dr1,
                    live2,
                    ob2,
                    bb2,
                    dr2,
                );
            } else {
                Self::lemma_old_fold_congr(before, cursor, p, acc, live1, ob1, live2, ob2);
                Self::lemma_diff_fold_congr(
                    before,
                    after,
                    j + 1,
                    p + 1,
                    union_opt(old_fold(before, cursor, p, acc, live1, ob1), dr1(y)),
                    live1,
                    ob1,
                    bb1,
                    dr1,
                    live2,
                    ob2,
                    bb2,
                    dr2,
                );
            }
        }
    }

    /// The unions over layers whose regions and bounding boxes are what
    /// `tree_res` gives are what `list_res` gives.
    proof fn lemma_unions_res(old: &Self, now: &Self, list: Seq<HLayer>, full: bool, shapes: Seq<Option<UBox2>>, fuel: int)
        requires
            fuel >= 0,
            forall|k: int|
                0 <= k < list.len() ==> {
                    &&& now.layer_live(#[trigger] list[k])
                    &&& now.dirty_rect(list[k]) == old.tree_res(list[k], full, shapes, fuel).0
                    &&& now.bbox(list[k]) == old.tree_res(list[k], full, shapes, fuel).1
                },
        ensures
            now.dirty_rects_union(list) == old.list_res(list, full, shapes, fuel).0,
            now.bboxes_union(list) == old.list_res(list, full, shapes, fuel).1,
        decreases list.len(),
    {
        if list.len() > 0 {
            let l2 = list.drop_last();
            assert forall|k: int| 0 <= k < l2.len() implies {
                &&& now.layer_live(#[trigger] l2[k])
                &&& now.dirty_rect(l2[k]) == old.tree_res(l2[k], full, shapes, fuel).0
                &&& now.bbox(l2[k]) == old.tree_res(l2[k], full, shapes, fuel).1
            } by {
                assert(l2[k] == list[k]);
            }
            Self::lemma_unions_res(old, now, l2, full, shapes, fuel);
            assert(list.last() == list[list.len() - 1]);
        }
    }

    /// After the sublayers `subs` that `children_ok` admits were updated in
    /// place of the list `b` (whose layers' bounding boxes were saved), the
    /// diff of the lists and the union of the new bounding boxes are what
    /// `replaced_region` and `list_res` give.
    proof fn lemma_replaced(
        s0: &Self,
        s0m: &Self,
        s1: &Self,
        h: HLayer,
        b: Seq<HLayer>,
        subs: Seq<HLayer>,
        shapes: Seq<Option<UBox2>>,
        fuel: int,
    )
        requires
            forall|y: HLayer|
                #![trigger s0m.layer_live(y)]
                s0m.layer_live(y) == s0.layer_live(y) && (s0.layer_live(y) ==> s0m.lay(y) == (if b.contains(y) {
                    Layer { old_bbox: s0.lay(y).bbox, ..s0.lay(y) }
                } else {
                    s0.lay(y)
                })),
            s0.children_ok(h, subs, false, fuel),
            forall|k: int|
                0 <= k < subs.len() ==> Self::child_updated(s0m, s1, #[trigger] subs[k], false, shapes[subs[k].spec_slot() as int]),
            forall|z: HLayer| !subs.contains(z) ==> #[trigger] s1.same_layer(s0m, z),
        ensures
            s1.diff_region(b, subs, 0, 0, None) == s0.replaced_region(b, subs, shapes, fuel - 1),
            s1.bboxes_union(subs) == s0.list_res(subs, false, shapes, fuel - 1).1,
    {
        let live0 = |y: HLayer| s0.layer_live(y);
        let ob0 = |z: HLayer| s0.bbox(z);
        let bb0 = |y: HLayer| s0.tree_res(y, false, shapes, fuel - 1).1;
        let dr0 = |y: HLayer| s0.tree_res(y, false, shapes, fuel - 1).0;
        assert forall|k: int| 0 <= k < subs.len() implies {
            &&& s1.layer_live(#[trigger] subs[k])
            &&& live0(subs[k])
            &&& s1.dirty_rect(subs[k]) == s0.tree_res(subs[k], false, shapes, fuel - 1).0
            &&& s1.bbox(subs[k]) == s0.tree_res(subs[k], false, shapes, fuel - 1).1
            &&& s1.old_bbox(subs[k]) == s0m.old_bbox(subs[k])
        } by {
            let y = subs[k];
            assert(s0.child_ok(y, false));
            assert(s0m.layer_live(y));
            assert(Self::child_updated(s0m, s1, y, false, shapes[y.spec_slot() as int]));
            assert(fuel - 1 > 0);
            assert(s0m.lay(y) == Layer { old_bbox: s0m.lay(y).old_bbox, ..s0.lay(y) });
            assert(!s0.checks(y, false));
        }
        assert forall|k: int|
            0 <= k < b.len() implies live0(#[trigger] b[k]) == s1.layer_live(b[k]) && (s1.layer_live(b[k]) ==> ob0(b[k])
                == s1.old_bbox(b[k])) by {
            let z = b[k];
            assert(b.contains(z));
            assert(s0m.layer_live(z) == s0.layer_live(z));
            if subs.contains(z) {
                let j = choose|j: int| 0 <= j < subs.len() && subs[j] == z;
                assert(s1.layer_live(subs[j]));
                assert(s0.layer_live(z));
            } else {
                assert(s1.same_layer(s0m, z));
            }
        }
        s1.lemma_diff_fold(b, subs, 0, 0, None, live0, ob0, bb0, dr0);
        assert(s1.diff_region(b, subs, 0, 0, None) == diff_fold(b, subs, 0, 0, None, live0, ob0, bb0, dr0));
        Self::lemma_diff_fold_congr(
            b,
            subs,
            0,
            0,
            None,
            live0,
            ob0,
            bb0,
            dr0,
            |y: HLayer| s0.layer_live(y),
            |z: HLayer| s0.bbox(z),
            |y: HLayer| s0.tree_res(y, false, shapes, fuel - 1).1,
            |y: HLayer| s0.tree_res(y, false, shapes, fuel - 1).0,
        );
        if subs.len() > 0 {
            assert(fuel > 1);
        }
        Self::lemma_unions_res(s0, s1, subs, false, shapes, if fuel >= 1 { fuel - 1 } else { 0 });
        if fuel < 1 {
            assert(subs.len() == 0);
        }
    }

    /// A state that differs from `s0` only at `h` gives the same diff and
    /// unions for a replacement of sublayers that `children_ok` admits.
    proof fn lemma_replaced_transfer(
        s0: &Self,
        s1: &Self,
        h: HLayer,
        b: Seq<HLayer>,
        list: Seq<HLayer>,
        shapes: Seq<Option<UBox2>>,
        fuel: int,
    )
        requires
            forall|y: HLayer| y != h ==> #[trigger] s1.same_layer(s0, y),
            !b.contains(h),
            s0.children_ok(h, list, false, fuel),
        ensures
            s1.replaced_region(b, list, shapes, fuel - 1) == s0.replaced_region(b, list, shapes, fuel - 1),
            s1.list_res(list, false, shapes, fuel - 1) == s0.list_res(list, false, shapes, fuel - 1),
    {
        assert forall|k: int| 0 <= k < list.len() implies {
            &&& s1.layer_live(#[trigger] list[k]) == s0.layer_live(list[k])
            &&& s1.tree_res(list[k], false, shapes, fuel - 1) == s0.tree_res(list[k], false, shapes, fuel - 1)
        } by {
            let y = list[k];
            assert(s0.child_ok(y, false));
            assert(y != h);
            assert(s1.same_layer(s0, y));
            assert(s1.lay(y) == s0.lay(y));
            assert(!s0.checks(y, false));
            assert(!s1.checks(y, false));
        }
        assert forall|k: int| 0 <= k < b.len() implies s1.layer_live(#[trigger] b[k]) == s0.layer_live(b[k]) && (s1.layer_live(
            b[k],
        ) ==> s1.bbox(b[k]) == s0.bbox(b[k])) by {
            assert(b.contains(b[k]));
            assert(b[k] != h);
            assert(s1.same_layer(s0, b[k]));
        }
        Self::lemma_diff_fold_congr(
            b,
            list,
            0,
            0,
            None,
            |y: HLayer| s1.layer_live(y),
            |z: HLayer| s1.bbox(z),
            |y: HLayer| s1.tree_res(y, false, shapes, fuel - 1).1,
            |y: HLayer| s1.tree_res(y, false, shapes, fuel - 1).0,
            |y: HLayer| s0.layer_live(y),
            |z: HLayer| s0.bbox(z),
            |y: HLayer| s0.tree_res(y, false, shapes, fuel - 1).1,
            |y: HLayer| s0.tree_res(y, false, shapes, fuel - 1).0,
        );
        Self::lemma_list_res_eq(s1, s0, list, false, shapes, fuel - 1);
    }

    /// `check_sublayers` gets sublayers that `children_ok` admits and
    /// replaces the list `before`, none of whose layers has sublayers or a
    /// pending list, and which does not hold `h`.
    spec fn rel_ok(s: &Self, h: HLayer, list: Seq<HLayer>, before: &Option<Vec<HLayer>>, full: bool, fuel: int) -> bool {
        &&& s.children_ok(h, list, full, fuel)
        &&& before matches Some(b) && Self::leaves(s, b@) && !b@.contains(h)
    }

    /// `new` is `old` after one reference to each layer of `list` was
    /// dropped, once per occurrence: a layer is left exactly when it held
    /// more references than that, and it lost that many.
    pub open spec fn released_list(old: &Self, new: &Self, list: Seq<HLayer>) -> bool {
        &&& forall|y: HLayer|
            #![trigger new.layer_live(y)]
            new.layer_live(y) == (old.layer_live(y) && occ(list, y) < old.ref_count(y))
        &&& forall|y: HLayer|
            #![trigger new.layer_live(y)]
            new.layer_live(y) ==> new.ref_count(y) == old.ref_count(y) - occ(list, y)
    }

    /// Updating sublayers that `children_ok` admits and putting the list back
    /// into `h` keeps every layer's presence and references, and keeps the
    /// layers of `b` leaves.
    proof fn lemma_mid_pres(
        s0: &Self,
        s0m: &Self,
        s1: &Self,
        mid: &Self,
        h: HLayer,
        subs: Seq<HLayer>,
        b: Seq<HLayer>,
        full: bool,
        shapes: Seq<Option<UBox2>>,
        fuel: int,
    )
        requires
            forall|y: HLayer|
                #![trigger s0m.layer_live(y)]
                s0m.layer_live(y) == s0.layer_live(y) && (s0.layer_live(y) ==> s0m.lay(y) == (Layer {
                    old_bbox: s0m.lay(y).old_bbox,
                    ..s0.lay(y)
                })),
            s0m.children_ok(h, subs, full, fuel),
            forall|k: int|
                0 <= k < subs.len() ==> Self::child_updated(s0m, s1, #[trigger] subs[k], full, shapes[subs[k].spec_slot() as int]),
            forall|z: HLayer| !subs.contains(z) ==> #[trigger] s1.same_layer(s0m, z),
            forall|y: HLayer| y != h ==> #[trigger] mid.same_layer(s1, y),
            mid.layer_live(h) == s1.layer_live(h),
            s1.layer_live(h) ==> mid.ref_count(h) == s1.ref_count(h),
            Self::leaves(s0, b),
            !b.contains(h),
        ensures
            forall|y: HLayer|
                #![trigger mid.layer_live(y)]
                mid.layer_live(y) == s0.layer_live(y) && (s0.layer_live(y) ==> mid.ref_count(y) == s0.ref_count(y)),
            Self::leaves(mid, b),
    {
        assert forall|y: HLayer|
            #![trigger mid.layer_live(y)]
            mid.layer_live(y) == s0.layer_live(y) && (s0.layer_live(y) ==> mid.ref_count(y) == s0.ref_count(y)) by {
            assert(s0m.layer_live(y) == s0.layer_live(y));
            if subs.contains(y) {
                let k = choose|k: int| 0 <= k < subs.len() && subs[k] == y;
                assert(Self::child_updated(s0m, s1, subs[k], full, shapes[subs[k].spec_slot() as int]));
                assert(s0m.child_ok(subs[k], full));
                assert(y != h);
            } else {
                assert(s1.same_layer(s0m, y));
            }
            if y != h {
                assert(mid.same_layer(s1, y));
            }
        }
        assert forall|k: int|
            0 <= k < b.len() && #[trigger] mid.layer_live(b[k]) implies mid.sublayers(b[k]).len() == 0
            && mid.pending_sublayers(b[k]) is None by {
            let y = b[k];
            assert(y != h);
            assert(mid.same_layer(s1, y));
            assert(s0m.layer_live(y) == s0.layer_live(y));
            if subs.contains(y) {
                let j = choose|j: int| 0 <= j < subs.len() && subs[j] == y;
                assert(Self::child_updated(s0m, s1, subs[j], full, shapes[subs[j].spec_slot() as int]));
            } else {
                assert(s1.same_layer(s0m, y));
            }
            assert(s0.layer_live(y));
        }
    }

    /// Releasing the next layer of a list of leaves keeps `released_list`.
    proof fn lemma_leaf_release_step(mid: &Self, s3: &Self, s4: &Self, b: Seq<HLayer>, k: int)
        requires
            0 <= k < b.len(),
            s3.wf(),
            Self::released_list(mid, s3, b.take(k)),
            s3.kept_from(mid),
            Self::leaves(mid, b),
            s4.kept_from(s3),
            !s3.layer_live(b[k]) ==> s4.same_layers(s3),
            s3.layer_live(b[k]) && s3.ref_count(b[k]) > 1 ==> {
                &&& s4.layer_live(b[k])
                &&& s4.ref_count(b[k]) == s3.ref_count(b[k]) - 1
                &&& forall|h2: HLayer| h2 != b[k] ==> #[trigger] s4.same_layer(s3, h2)
            },
            s3.layer_live(b[k]) && s3.ref_count(b[k]) == 1 ==> released(s3, s4, b[k]),
        ensures
            Self::released_list(mid, s4, b.take(k + 1)),
    {
        let x = b[k];
        assert(b.take(k + 1) =~= b.take(k).push(x));
        assert forall|y: HLayer| #[trigger] occ(b.take(k + 1), y) == occ(b.take(k), y) + (if x == y {
            1nat
        } else {
            0nat
        }) by {
            lemma_occ_push(b.take(k), x, y);
        }
        if s3.layer_live(x) {
            assert(layer_ok(s3.layers@[x.index as int].unwrap()));
            assert(mid.layer_live(x));
            assert(Self::leaves(mid, b));
            assert(mid.layer_live(b[k]));
            assert(s3.sublayers(x) == mid.sublayers(x));
            assert(s3.pending_sublayers(x) == mid.pending_sublayers(x));
            assert(s3.released_sublayers(x) =~= Seq::<HLayer>::empty());
            if s3.ref_count(x) == 1 {
                assert forall|y: HLayer| y != x && #[trigger] s3.layer_live(y) implies occ(
                    s3.released_sublayers(x),
                    y,
                ) < s3.ref_count(y) by {
                    assert(layer_ok(s3.layers@[y.index as int].unwrap()));
                }
                assert(s3.no_cascade(x));
            }
        }
        assert forall|y: HLayer|
            #![trigger s4.layer_live(y)]
            s4.layer_live(y) == (mid.layer_live(y) && occ(b.take(k + 1), y) < mid.ref_count(y)) by {
            assert(s3.layer_live(y) == (mid.layer_live(y) && occ(b.take(k), y) < mid.ref_count(y)));
            if s3.layer_live(x) && s3.ref_count(x) > 1 && y != x {
                assert(s4.same_layer(s3, y));
            }
        }
        assert forall|y: HLayer|
            #![trigger s4.layer_live(y)]
            s4.layer_live(y) implies s4.ref_count(y) == mid.ref_count(y) - occ(b.take(k + 1), y) by {
            assert(s3.layer_live(y));
            if s3.layer_live(x) && s3.ref_count(x) > 1 && y != x {
                assert(s4.same_layer(s3, y));
            }
        }
    }

    /// The live layers of `list` have no sublayers and no pending list.
    pub open spec fn leaves(s: &Self, list: Seq<HLayer>) -> bool {
        forall|k: int|
            0 <= k < list.len() && #[trigger] s.layer_live(list[k]) ==> s.sublayers(list[k]).len() == 0
                && s.pending_sublayers(list[k]) is None
    }

    /// `check_sublayers` gets sublayers whose trees `list_ok` admits, and
    /// releases nothing.
    spec fn kids_tree_ok(s: &Self, h: HLayer, list: Seq<HLayer>, before: &Option<Vec<HLayer>>, full: bool, fuel: int) -> bool {
        &&& s.list_ok(h, list, full, fuel - 1)
        &&& !full ==> before is None
        &&& before matches Some(b) ==> b@.len() == 0
    }

    /// Before the update of the next sublayer of a list, its tree is as it
    /// was and still admitted.
    proof fn lemma_tree_kid_pre(s0: &Self, s1: &Self, h: HLayer, subs: Seq<HLayer>, i: int, full: bool, shapes: Seq<Option<UBox2>>, fuel: int)
        requires
            s0.list_ok(h, subs, full, fuel),
            0 <= i < subs.len(),
            forall|z: HLayer| !s0.in_list(z, subs.take(i), full, fuel) ==> #[trigger] s1.same_layer(s0, z),
        ensures
            s1.tree_ok(subs[i], full, fuel),
            forall|z: HLayer| #[trigger] s1.in_tree(z, subs[i], full, fuel) == s0.in_tree(z, subs[i], full, fuel),
    {
        let x = subs[i];
        assert(s0.tree_ok(x, full, fuel));
        assert forall|z: HLayer| #[trigger] s0.in_tree(z, x, full, fuel) implies s1.same_layer(s0, z) by {
            if s0.in_list(z, subs.take(i), full, fuel) {
                let k = choose|k: int| 0 <= k < subs.take(i).len() && #[trigger] s0.in_tree(z, subs.take(i)[k], full, fuel);
                assert(subs.take(i)[k] == subs[k]);
                assert(s0.in_tree(z, subs[k], full, fuel));
            }
        }
        Self::lemma_tree_agree(s0, s1, x, full, shapes, fuel);
    }

    /// After the update of the next sublayer of a list, it and the ones
    /// before it are updated, and the rest is as it was.
    proof fn lemma_tree_kid_post(
        s0: &Self,
        s1: &Self,
        s2: &Self,
        h: HLayer,
        subs: Seq<HLayer>,
        i: int,
        full: bool,
        shapes: Seq<Option<UBox2>>,
        fuel: int,
    )
        requires
            s0.list_ok(h, subs, full, fuel),
            0 <= i < subs.len(),
            forall|k: int| 0 <= k < i ==> Self::tree_updated(s0, s1, #[trigger] subs[k], full, shapes, fuel),
            forall|z: HLayer| !s0.in_list(z, subs.take(i), full, fuel) ==> #[trigger] s1.same_layer(s0, z),
            s1.tree_ok(subs[i], full, fuel),
            forall|z: HLayer| #[trigger] s1.in_tree(z, subs[i], full, fuel) == s0.in_tree(z, subs[i], full, fuel),
            Self::tree_updated(s1, s2, subs[i], full, shapes, fuel),
            forall|z: HLayer| !s1.in_tree(z, subs[i], full, fuel) ==> #[trigger] s2.same_layer(s1, z),
        ensures
            forall|k: int| 0 <= k < i + 1 ==> Self::tree_updated(s0, s2, #[trigger] subs[k], full, shapes, fuel),
            forall|z: HLayer| !s0.in_list(z, subs.take(i + 1), full, fuel) ==> #[trigger] s2.same_layer(s0, z),
    {
        let x = subs[i];
        assert forall|z: HLayer| #[trigger] s1.in_tree(z, x, full, fuel) implies s0.same_layer(s1, z) by {
            assert(s0.in_tree(z, x, full, fuel));
            if s0.in_list(z, subs.take(i), full, fuel) {
                let k = choose|k: int| 0 <= k < subs.take(i).len() && #[trigger] s0.in_tree(z, subs.take(i)[k], full, fuel);
                assert(subs.take(i)[k] == subs[k]);
                assert(s0.in_tree(z, subs[k], full, fuel));
            }
            assert(s1.same_layer(s0, z));
        }
        Self::lemma_tree_old_agree(s1, s0, s2, x, full, shapes, fuel);
        assert forall|k: int| 0 <= k < i + 1 implies Self::tree_updated(s0, s2, #[trigger] subs[k], full, shapes, fuel) by {
            if k < i {
                assert forall|z: HLayer| #[trigger] s0.in_tree(z, subs[k], full, fuel) implies s2.same_layer(s1, z) by {
                    assert(!s0.in_tree(z, subs[i], full, fuel));
                    assert(!s1.in_tree(z, x, full, fuel));
                }
                Self::lemma_tree_new_agree(s0, s1, s2, subs[k], full, shapes, fuel);
            }
        }
        assert forall|z: HLayer| !s0.in_list(z, subs.take(i + 1), full, fuel) implies #[trigger] s2.same_layer(s0, z) by {
            if s0.in_list(z, subs.take(i), full, fuel) {
                let k = choose|k: int| 0 <= k < subs.take(i).len() && #[trigger] s0.in_tree(z, subs.take(i)[k], full, fuel);
                assert(subs.take(i)[k] == subs.take(i + 1)[k]);
                assert(s0.in_tree(z, subs.take(i + 1)[k], full, fuel));
            }
            if s0.in_tree(z, x, full, fuel) {
                assert(subs.take(i + 1)[i] == x);
                assert(s0.in_tree(z, subs.take(i + 1)[i], full, fuel));
            }
            assert(s1.same_layer(s0, z));
            assert(!s1.in_tree(z, x, full, fuel));
            assert(s2.same_layer(s1, z));
        }
    }

    /// Updating the next sublayer of a list keeps what holds of the ones
    /// before it and of the layers not yet reached.
    proof fn lemma_kid_step(s0: &Self, s1: &Self, s2: &Self, subs: Seq<HLayer>, i: int, full: bool, shapes: Seq<Option<UBox2>>)
        requires
            0 <= i < subs.len(),
            subs.no_duplicates(),
            forall|k: int|
                0 <= k < i ==> Self::child_updated(s0, s1, #[trigger] subs[k], full, shapes[subs[k].spec_slot() as int]),
            forall|z: HLayer| !subs.take(i).contains(z) ==> #[trigger] s1.same_layer(s0, z),
            s0.child_ok(subs[i], full),
            s1.child_ok(subs[i], full) && (full || true) ==> Self::child_updated(
                s1,
                s2,
                subs[i],
                full,
                shapes[subs[i].spec_slot() as int],
            ),
            forall|y: HLayer| y != subs[i] ==> #[trigger] s2.same_layer(s1, y),
        ensures
            forall|k: int|
                0 <= k < i + 1 ==> Self::child_updated(s0, s2, #[trigger] subs[k], full, shapes[subs[k].spec_slot() as int]),
            forall|z: HLayer| !subs.take(i + 1).contains(z) ==> #[trigger] s2.same_layer(s0, z),
    {
        let x = subs[i];
        assert(!subs.take(i).contains(x)) by {
            if subs.take(i).contains(x) {
                let k = choose|k: int| 0 <= k < i && subs.take(i)[k] == x;
                assert(subs[k] == subs[i]);
            }
        }
        assert(s1.same_layer(s0, x));
        assert(s1.lay(x) == s0.lay(x));
        assert forall|k: int|
            0 <= k < i + 1 implies Self::child_updated(s0, s2, #[trigger] subs[k], full, shapes[subs[k].spec_slot() as int]) by {
            if k < i {
                assert(subs[k] != x);
                assert(s2.same_layer(s1, subs[k]));
                assert(Self::child_updated(s0, s1, subs[k], full, shapes[subs[k].spec_slot() as int]));
            }
        }
        assert forall|z: HLayer| !subs.take(i + 1).contains(z) implies #[trigger] s2.same_layer(s0, z) by {
            assert(subs.take(i + 1)[i] == x);
            if z == x {
                assert(subs.take(i + 1).contains(x));
            }
            assert(!subs.take(i).contains(z)) by {
                if subs.take(i).contains(z) {
                    let k = choose|k: int| 0 <= k < i && subs.take(i)[k] == z;
                    assert(subs.take(i + 1)[k] == z);
                }
            }
            assert(s1.same_layer(s0, z));
            assert(s2.same_layer(s1, z));
        }
    }

    /// Commit the changes of the layer `h` and, where they may have changed,
    /// of its descendants, recalculating their bounding boxes and the
    /// regions their changes affect. `shapes[i]` is the box of window pixels
    /// that the shape of the layer in slot `i` covers; `full` recalculates
    /// everything regardless of the dirty flags. The recursion goes `fuel`
    /// levels deep at most.
    #[verifier::spinoff_prover]
    #[verifier::rlimit(60)]
    fn update_layer(&mut self, h: HLayer, full: bool, shapes: &Vec<Option<UBox2>>, fuel: usize)
        requires
            old(self).wf(),
            shapes.len() >= old(self).layer_slots(),
            shapes_ok(shapes@),
        ensures
            final(self).wf(),
            final(self).same_wnds(old(self)),
            final(self).layer_slots() == old(self).layer_slots(),
            final(self).settles(old(self)),
            fuel > 0 && final(self).layer_live(h) ==> final(self).layer_clean(h),
            fuel > 0 && !full && old(self).layer_live(h) && old(self).layer_clean(h) ==> {
                &&& final(self).layer_live(h)
                &&& final(self).dirty_rect(h) is None
            },
            fuel > 0 && old(self).child_ok(h, full) ==> {
                &&& Self::child_updated(old(self), final(self), h, full, shapes@[h.spec_slot() as int])
                &&& forall|y: HLayer| y != h ==> #[trigger] final(self).same_layer(old(self), y)
            },
            old(self).tree_ok(h, full, fuel as int) ==> {
                &&& Self::tree_updated(old(self), final(self), h, full, shapes@, fuel as int)
                &&& forall|z: HLayer|
                    !old(self).in_tree(z, h, full, fuel as int) ==> #[trigger] final(self).same_layer(old(self), z)
                &&& Self::same_refs(old(self), final(self))
            },
            old(self).no_pending() ==> Self::same_refs(old(self), final(self)),
            fuel > 0 && full && final(self).layer_live(h) ==> {
                &&& final(self).content_box(h) == if old(self).has_content(h) {
                    shapes@[h.spec_slot() as int]
                } else {
                    None
                }
                &&& final(self).mask_box(h) == shapes@[h.spec_slot() as int]
            },
            fuel > 0 && old(self).layer_live(h) && old(self).pending_sublayers(h) is Some ==> forall|y: HLayer|
                #![trigger final(self).layer_live(y)]
                final(self).layer_live(y) ==> final(self).ref_count(y) + occ(old(self).sublayers(h), y)
                    <= old(self).ref_count(y),
            fuel > 0 && old(self).layer_live(h) && old(self).pending_sublayers(h) is Some && old(self).children_ok(
                h,
                old(self).new_list(h),
                full,
                fuel as int,
            ) && Self::leaves(old(self), old(self).sublayers(h)) && !old(self).sublayers(h).contains(h)
                ==> Self::released_list(old(self), final(self), old(self).sublayers(h)),
            fuel > 0 && !full && old(self).replaces_leaves(h, full, fuel as int) ==> {
                &&& final(self).layer_live(h)
                &&& final(self).layer_clean(h)
                &&& final(self).sublayers(h) == old(self).new_list(h)
                &&& final(self).dirty_rect(h) == old(self).replaced_dirty_rect(h, shapes@, fuel as int)
                &&& final(self).sublayers_box(h) == old(self).replaced_sub_box(h, shapes@, fuel as int)
                &&& final(self).bbox(h) == old(self).committed_bbox(
                    h,
                    false,
                    shapes@[h.spec_slot() as int],
                    true,
                    old(self).replaced_sub_box(h, shapes@, fuel as int),
                )
            },
        decreases fuel, 1nat,
    {
        if fuel == 0 || h.index >= self.layers.len() || self.layers[h.index].is_none() {
            proof {
                assert(self.settles(old(self)));
            }
            return;
        }
        let ghost s0 = *self;
        let mut l = self.layers[h.index].take().unwrap();
        let should_check_sublayers = l.dirty.descendant || l.new_sublayers.is_some() || full;
        let old_sublayers = match l.new_sublayers.take() {
            Some(ns) => {
                let mut cur = ns;
                std::mem::swap(&mut cur, &mut l.sublayers);
                Some(cur)
            },
            None => None,
        };
        let mut sublayers = Vec::new();
        if should_check_sublayers {
            std::mem::swap(&mut sublayers, &mut l.sublayers);
        }
        let ghost list = sublayers@;
        let ghost lh = l;
        proof {
            if should_check_sublayers {
                assert(list == s0.new_list(h));
            }
            assert(lh == (Layer { sublayers: lh.sublayers, new_sublayers: None, ..s0.lay(h) }));
            assert(old_sublayers matches Some(b) ==> b@ == s0.sublayers(h));
        }
        self.layers.set(h.index, Some(l));
        proof {
            assert(self.layers@ =~= s0.layers@.update(h.index as int, Some(l)));
            Self::lemma_put_back(&s0, self, h.index as int, l);
            assert forall|y: HLayer| #[trigger] self.layer_live(y) implies s0.layer_live(y) && (
            s0.pending_sublayers(y) is None ==> self.pending_sublayers(y) is None) && (s0.dirty(y)
                == clean_flags() ==> self.dirty(y) == clean_flags()) && self.ref_count(y) <= s0.ref_count(y) && self.has_content(y) == s0.has_content(y) && self.superlayer(y) == s0.superlayer(y) by {
                if y.index == h.index {
                    assert(y == h);
                }
            }
            if !should_check_sublayers {
                assert(self.layers@ =~= s0.layers@);
            }
        }
        let ghost s1 = *self;
        proof {
            if s0.no_pending() {
                assert forall|y: HLayer| #![trigger s1.layer_live(y)] #![trigger s0.layer_live(y)]
                    s1.layer_live(y) == s0.layer_live(y) && (s0.layer_live(y) ==> s1.ref_count(y)
                    == s0.ref_count(y)) by {
                    if y.index == h.index {
                        assert(y == h);
                    }
                }
                assert forall|z: HLayer| #[trigger] s1.layer_live(z) implies s1.pending_sublayers(z) is None by {
                    assert(s0.layer_live(z));
                    if z.index == h.index {
                        assert(z == h);
                    }
                }
                assert(old_sublayers is None);
            }
        }
        proof {
            assert forall|y: HLayer| y != h implies #[trigger] s1.same_layer(&s0, y) by {
                assert(y.index != h.index);
            }
            if s0.tree_ok(h, full, fuel as int) && should_check_sublayers {
                assert(s0.checks(h, full));
                Self::lemma_list_ok_transfer(&s0, &s1, h, list, full, shapes@, fuel - 1);
                assert(Self::kids_tree_ok(&s1, h, list, &old_sublayers, full, fuel as int));
            }
            if s0.pending_sublayers(h) is Some && s0.children_ok(h, list, full, fuel as int) && Self::leaves(
                &s0,
                s0.sublayers(h),
            ) && !s0.sublayers(h).contains(h) {
                let b = s0.sublayers(h);
                assert forall|k: int| 0 <= k < list.len() implies s1.child_ok(#[trigger] list[k], full) by {
                    assert(s0.child_ok(list[k], full));
                    assert(list[k] != h);
                    assert(list[k].index != h.index);
                    assert(s1.same_layer(&s0, list[k]));
                }
                assert forall|k: int| 0 <= k < b.len() && #[trigger] s1.layer_live(b[k]) implies s1.sublayers(
                    b[k],
                ).len() == 0 && s1.pending_sublayers(b[k]) is None by {
                    assert(b[k] != h);
                    assert(s1.same_layer(&s0, b[k]));
                }
                assert(Self::rel_ok(&s1, h, list, &old_sublayers, full, fuel as int));
            }
        }
        let sublayers_change = if should_check_sublayers {
            self.check_sublayers(h, sublayers, old_sublayers, full, shapes, fuel)
        } else {
            None
        };
        proof {
            Self::lemma_settles_trans(&s0, &s1, self);
        }
        let ghost s2 = *self;
        self.commit_layer(h, full, should_check_sublayers, sublayers_change, shapes);
        proof {
            Self::lemma_settles_trans(&s0, &s2, self);
            if self.layer_live(h) {
                assert(s2.layer_live(h));
            }
            if !should_check_sublayers {
                assert(s2.layers@ == s0.layers@);
                assert forall|y: HLayer| y != h implies #[trigger] self.same_layer(&s0, y) by {
                    assert(self.same_layer(&s2, y));
                }
            }
            if s0.child_ok(h, full) {
                Self::lemma_child_tree(&s0, self, h, full, shapes@, fuel as int);
            }
            if !full && s0.replaces_leaves(h, full, fuel as int) {
                Self::lemma_replaced_transfer(&s0, &s1, h, s0.sublayers(h), list, shapes@, fuel as int);
                assert(s2.layer_live(h));
                assert(s2.lay(h) == (Layer { sublayers: s2.lay(h).sublayers, new_sublayers: None, ..s0.lay(h) }));
                let d = s0.replaced_region(s0.sublayers(h), list, shapes@, fuel - 1);
                let sb = s0.replaced_sub_box(h, shapes@, fuel as int);
                assert(match sublayers_change {
                    Some((_, dd)) => dd,
                    None => None,
                } == d);
                assert(match sublayers_change {
                    Some((bb, _)) => bb,
                    None => s2.sublayers_box(h),
                } == sb);
                assert(self.dirty_rect(h) == s0.committed_dirty_rect(h, false, shapes@[h.spec_slot() as int], d, sb));
                assert(self.bbox(h) == s0.committed_bbox(h, false, shapes@[h.spec_slot() as int], true, sb));
            }
            if s0.tree_ok(h, full, fuel as int) {
                if should_check_sublayers {
                    Self::lemma_tree_done(&s0, &s1, &s2, self, h, full, shapes@, list, sublayers_change, fuel as int);
                } else {
                    assert(s2.layers@ == s0.layers@);
                    assert(!s0.checks(h, full));
                    assert forall|z: HLayer| !s0.in_tree(z, h, full, fuel as int) implies #[trigger] self.same_layer(&s0, z) by {
                        assert(self.same_layer(&s2, z));
                    }
                    assert(s0.new_list(h) == s0.sublayers(h));
                }
                assert forall|y: HLayer| #![trigger self.layer_live(y)] #![trigger s0.layer_live(y)]
                    self.layer_live(y) == s0.layer_live(y) && (s0.layer_live(y) ==> self.ref_count(y)
                    == s0.ref_count(y)) by {
                    assert(s1.layer_live(y) == s0.layer_live(y));
                    assert(s2.layer_live(y) == s1.layer_live(y));
                    assert(self.layer_live(y) == s2.layer_live(y));
                }
            }
            if s0.child_ok(h, full) {
                assert forall|y: HLayer| y != h implies #[trigger] self.same_layer(&s0, y) by {
                    if s0.in_tree(y, h, full, fuel as int) {
                        assert(y == h);
                    }
                }
            }
            if s0.no_pending() {
                assert forall|y: HLayer| #![trigger self.layer_live(y)] #![trigger s0.layer_live(y)]
                    self.layer_live(y) == s0.layer_live(y) && (s0.layer_live(y) ==> self.ref_count(y)
                    == s0.ref_count(y)) by {
                    assert(s1.layer_live(y) == s0.layer_live(y));
                    assert(s2.layer_live(y) == s1.layer_live(y));
                    assert(self.layer_live(y) == s2.layer_live(y));
                }
            }
            if s0.pending_sublayers(h) is Some && s0.children_ok(h, list, full, fuel as int) && Self::leaves(
                &s0,
                s0.sublayers(h),
            ) && !s0.sublayers(h).contains(h) {
                let b = s0.sublayers(h);
                assert(Self::released_list(&s1, &s2, b));
                assert forall|y: HLayer| #![trigger self.layer_live(y)] self.layer_live(y) == (s0.layer_live(y) && occ(b, y) < s0.ref_count(y)) && (self.layer_live(y) ==> self.ref_count(y) == s0.ref_count(y) - occ(b, y)) by {
                    assert(self.layer_live(y) == s2.layer_live(y));
                    assert(s2.layer_live(y) == (s1.layer_live(y) && occ(b, y) < s1.ref_count(y)));
                    if y.index == h.index {
                        assert(s1.layer_live(y) == (y == h));
                    } else {
                        assert(s1.same_layer(&s0, y));
                    }
                    assert(s1.layer_live(y) == s0.layer_live(y));
                }
            }
            if s0.pending_sublayers(h) is Some {
                assert forall|y: HLayer|
                    #![trigger self.layer_live(y)]
                    self.layer_live(y) implies self.ref_count(y) + occ(s0.sublayers(h), y) <= s0.ref_count(y) by {
                    assert(s2.layer_live(y));
                    assert(s1.layer_live(y));
                    if y.index == h.index {
                        assert(y == h);
                    }
                }
            }
        }
    }

    /// Update the sublayers `sublayers` of the layer `h` (moved out of it
    /// for the time being) and put them back; return their new bounding box
    /// and the region their changes affect, unless nothing changed. The
    /// sublayers `before` that the list replaced are released.
    #[verifier::spinoff_prover]
    #[verifier::rlimit(100)]
    fn check_sublayers(
        &mut self,
        h: HLayer,
        sublayers: Vec<HLayer>,
        before: Option<Vec<HLayer>>,
        full: bool,
        shapes: &Vec<Option<UBox2>>,
        fuel: usize,
    ) -> (r: Option<(Option<UBox2>, Option<UBox2>)>)
        requires
            old(self).wf(),
            shapes.len() >= old(self).layer_slots(),
            shapes_ok(shapes@),
            fuel > 0,
            old(self).layer_live(h) ==> old(self).pending_sublayers(h) is None,
        ensures
            final(self).wf(),
            final(self).same_wnds(old(self)),
            final(self).layer_slots() == old(self).layer_slots(),
            final(self).settles(old(self)),
            final(self).layer_live(h) ==> final(self).pending_sublayers(h) is None,
            r matches Some((b, d)) ==> box_ok(b) && box_ok(d),
            before is None && old(self).no_pending() ==> Self::same_refs(old(self), final(self)),
            Self::rel_ok(old(self), h, sublayers@, &before, full, fuel as int) ==> (before matches Some(b)
                ==> Self::released_list(old(self), final(self), b@)),
            Self::kids_tree_ok(old(self), h, sublayers@, &before, full, fuel as int) ==> {
                &&& forall|k: int|
                    0 <= k < sublayers@.len() ==> Self::tree_updated(
                        old(self),
                        final(self),
                        #[trigger] sublayers@[k],
                        full,
                        shapes@,
                        fuel - 1,
                    )
                &&& forall|z: HLayer|
                    z != h && !old(self).in_list(z, sublayers@, full, fuel - 1) ==> #[trigger] final(self).same_layer(
                        old(self),
                        z,
                    )
                &&& Self::same_refs(old(self), final(self))
                &&& old(self).layer_live(h) ==> final(self).layer_live(h) && final(self).lay(h) == (Layer {
                    sublayers: final(self).lay(h).sublayers,
                    ..old(self).lay(h)
                }) && final(self).sublayers(h) == sublayers@
                &&& r == {
                    let c = old(self).list_res(sublayers@, full, shapes@, fuel - 1);
                    if full || c.0 is Some {
                        Some((c.1, c.0))
                    } else {
                        None
                    }
                }
            },
            Self::rel_ok(old(self), h, sublayers@, &before, full, fuel as int) && !full ==> {
                &&& old(self).layer_live(h) ==> final(self).layer_live(h) && final(self).lay(h) == (Layer {
                    sublayers: final(self).lay(h).sublayers,
                    ..old(self).lay(h)
                }) && final(self).sublayers(h) == sublayers@
                &&& r == {
                    let d = old(self).replaced_region(before->0@, sublayers@, shapes@, fuel - 1);
                    if d is Some {
                        Some((old(self).list_res(sublayers@, false, shapes@, fuel - 1).1, d))
                    } else {
                        None
                    }
                }
            },
            before matches Some(b) ==> forall|y: HLayer|
                #![trigger final(self).layer_live(y)]
                final(self).layer_live(y) ==> final(self).ref_count(y) + occ(b@, y) <= old(self).ref_count(y),
            exists|mid: Self|
                #[trigger] final(self).kept_from(&mid) && match r {
                    Some((b, d)) => {
                        &&& b == mid.bboxes_union(sublayers@)
                        &&& full || d is Some
                        &&& (full || before is None) ==> d == mid.dirty_rects_union(sublayers@)
                    },
                    None => !full && (before is None ==> mid.dirty_rects_union(sublayers@) is None),
                },
        decreases fuel, 0nat,
    {
        let ghost s0 = *self;
        let ghost subs = sublayers@;
        if !full {
            if let Some(b) = &before {
                self.mark_old_bboxes(b);
                proof {
                    assert forall|y: HLayer|
                        #![trigger self.layer_live(y)]
                        self.layer_live(y) == s0.layer_live(y) && (s0.layer_live(y) ==> self.lay(y) == (if b@.contains(y) {
                            Layer { old_bbox: s0.lay(y).bbox, ..s0.lay(y) }
                        } else {
                            s0.lay(y)
                        })) by {}
                }
            }
        }
        proof {
            assert forall|y: HLayer|
                #![trigger self.layer_live(y)]
                self.layer_live(y) == s0.layer_live(y) && (s0.layer_live(y) ==> self.lay(y) == (Layer {
                    old_bbox: self.lay(y).old_bbox,
                    ..s0.lay(y)
                })) by {}
        }
        let ghost keeps = before is None && s0.no_pending();
        let ghost kids = Self::kids_tree_ok(&s0, h, subs, &before, full, fuel as int);
        let ghost s0m = *self;
        let ghost kids2 = s0m.children_ok(h, subs, full, fuel as int);
        let ghost rk = Self::rel_ok(&s0, h, subs, &before, full, fuel as int);
        proof {
            assert(subs.take(0) =~= Seq::<HLayer>::empty());
            if kids {
                assert(s0m == s0);
            }
            if rk {
                assert forall|k: int| 0 <= k < subs.len() implies s0m.child_ok(#[trigger] subs[k], full) by {
                    assert(s0.child_ok(subs[k], full));
                    assert(s0m.layer_live(subs[k]) == s0.layer_live(subs[k]));
                }
                assert(kids2);
            }
        }
        let mut i: usize = 0;
        while i < sublayers.len()
            invariant
                subs == sublayers@,
                i <= sublayers@.len(),
                kids == Self::kids_tree_ok(&s0, h, subs, &before, full, fuel as int),
                kids ==> s0m == s0,
                kids ==> forall|k: int|
                    0 <= k < i ==> Self::tree_updated(&s0, self, #[trigger] subs[k], full, shapes@, fuel - 1),
                kids ==> forall|z: HLayer|
                    !s0.in_list(z, subs.take(i as int), full, fuel - 1) ==> #[trigger] self.same_layer(&s0, z),
                kids ==> Self::same_refs(&s0, self),
                kids2 == s0m.children_ok(h, subs, full, fuel as int),
                kids2 ==> forall|k: int|
                    0 <= k < i ==> Self::child_updated(
                        &s0m,
                        self,
                        #[trigger] subs[k],
                        full,
                        shapes@[subs[k].spec_slot() as int],
                    ),
                kids2 ==> forall|z: HLayer| !subs.take(i as int).contains(z) ==> #[trigger] self.same_layer(&s0m, z),
                self.wf(),
                self.same_wnds(&s0),
                self.layer_slots() == s0.layer_slots(),
                self.settles(&s0),
                shapes.len() >= s0.layer_slots(),
                shapes_ok(shapes@),
                fuel > 0,
                self.layer_live(h) ==> self.pending_sublayers(h) is None,
                keeps == (before is None && s0.no_pending()),
                keeps ==> Self::same_refs(&s0, self),
            decreases sublayers.len() - i,
        {
            let ghost s1 = *self;
            proof {
                if keeps {
                    assert forall|z: HLayer| #[trigger] s1.layer_live(z) implies s1.pending_sublayers(z) is None by {
                        assert(s0.layer_live(z));
                    }
                }
            }
            let x = sublayers[i];
            proof {
                if kids2 {
                    assert(subs[i as int] == x);
                    assert(!subs.take(i as int).contains(x)) by {
                        if subs.take(i as int).contains(x) {
                            let k = choose|k: int| 0 <= k < i && subs.take(i as int)[k] == x;
                            assert(subs[k] == subs[i as int]);
                        }
                    }
                    assert(s1.same_layer(&s0m, x));
                    assert(s0m.child_ok(subs[i as int], full));
                    assert(fuel > 1);
                }
                if kids {
                    assert(subs[i as int] == x);
                    Self::lemma_tree_kid_pre(&s0, &s1, h, subs, i as int, full, shapes@, fuel - 1);
                }
            }
            self.update_layer(x, full, shapes, fuel - 1);
            proof {
                Self::lemma_settles_trans(&s0, &s1, self);
                assert(self.layer_live(h) ==> s1.layer_live(h));
                if kids2 {
                    Self::lemma_kid_step(&s0m, &s1, self, subs, i as int, full, shapes@);
                }
                if kids {
                    Self::lemma_tree_kid_post(&s0, &s1, self, h, subs, i as int, full, shapes@, fuel - 1);
                    assert forall|y: HLayer| #![trigger self.layer_live(y)] #![trigger s0.layer_live(y)]
                        self.layer_live(y) == s0.layer_live(y) && (s0.layer_live(y) ==> self.ref_count(y)
                        == s0.ref_count(y)) by {
                        assert(s1.layer_live(y) == s0.layer_live(y));
                        assert(self.layer_live(y) == s1.layer_live(y));
                    }
                }
                if keeps {
                    assert forall|y: HLayer| #![trigger self.layer_live(y)] #![trigger s0.layer_live(y)]
                        self.layer_live(y) == s0.layer_live(y) && (s0.layer_live(y) ==> self.ref_count(y)
                        == s0.ref_count(y)) by {
                        assert(s1.layer_live(y) == s0.layer_live(y));
                        assert(self.layer_live(y) == s1.layer_live(y));
                    }
                }
            }
            i += 1;
        }
        let ghost s1 = *self;
        proof {
            if kids {
                assert(subs.take(i as int) =~= subs);
                Self::lemma_tree_unions(&s0, &s1, subs, full, shapes@, fuel - 1);
            }
        }
        let dirty = match (&before, full) {
            (Some(b), false) => self.diff_dirty(b, &sublayers),
            _ => self.sum_dirty_rects(&sublayers),
        };
        proof {
            assert(self.layers@ == s1.layers@);
            assert forall|y: HLayer| #[trigger] self.layer_live(y) implies s0.layer_live(y) && (
            s0.pending_sublayers(y) is None ==> self.pending_sublayers(y) is None) && (s0.dirty(y)
                == clean_flags() ==> self.dirty(y) == clean_flags()) && self.ref_count(y) <= s0.ref_count(y) && self.has_content(y) == s0.has_content(y) && self.superlayer(y) == s0.superlayer(y) by {
                assert(s1.layer_live(y));
            }
        }
        let ghost s1b = *self;
        proof {
            Self::lemma_unions_same(&s1, &s1b, subs);
            if rk && !full {
                assert(subs.take(i as int) =~= subs);
                Self::lemma_replaced(&s0, &s0m, &s1, h, before->0@, subs, shapes@, fuel as int);
            }
        }
        let mut change = None;
        if dirty.is_some() || full {
            let bbox = self.sum_bboxes(&sublayers);
            change = Some((bbox, dirty));
        }
        // Return `sublayers`
        if h.index < self.layers.len() {
            let ghost s2 = *self;
            if let Some(mut l) = self.layers[h.index].take() {
                l.sublayers = sublayers;
                self.layers.set(h.index, Some(l));
                proof {
                    assert(self.layers@ =~= s2.layers@.update(h.index as int, Some(l)));
                    Self::lemma_put_back(&s2, self, h.index as int, l);
                    assert forall|y: HLayer| #[trigger] self.layer_live(y) implies s0.layer_live(y) && (
                    s0.pending_sublayers(y) is None ==> self.pending_sublayers(y) is None) && (s0.dirty(y)
                        == clean_flags() ==> self.dirty(y) == clean_flags()) && self.ref_count(y) <= s0.ref_count(y) && self.has_content(y) == s0.has_content(y) && self.superlayer(y) == s0.superlayer(y) by {
                        assert(s2.layer_live(y));
                        if y.index == h.index {
                            assert(y == h);
                        }
                    }
                }
            } else {
                assert(self.layers@ =~= s2.layers@);
                assert forall|y: HLayer| #[trigger] self.layer_live(y) implies s0.layer_live(y) && (
                s0.pending_sublayers(y) is None ==> self.pending_sublayers(y) is None) && (s0.dirty(y)
                    == clean_flags() ==> self.dirty(y) == clean_flags()) && self.ref_count(y) <= s0.ref_count(y) && self.has_content(y) == s0.has_content(y) && self.superlayer(y) == s0.superlayer(y) by {
                    assert(s2.layer_live(y));
                }
            }
        }
        let ghost mid = *self;
        proof {
            assert forall|y: HLayer| #[trigger] mid.layer_live(y) == s1b.layer_live(y) by {
                if y.index == h.index {
                    assert(y == h);
                }
            }
            assert forall|y: HLayer|
                #[trigger] mid.layer_live(y) implies mid.lay(y).bbox == s1b.lay(y).bbox && mid.lay(y).dirty_rect
                    == s1b.lay(y).dirty_rect by {
                assert(s1b.layer_live(y));
            }
            Self::lemma_unions_same(&mid, &s1b, subs);
            assert forall|y: HLayer| #[trigger] mid.layer_live(y) implies mid.layer_live(y) && survives(
                mid.lay(y),
                mid.lay(y),
            ) by {}
            assert(mid.kept_from(&mid));
        }
        // Release the old sublayers
        proof {
            if rk {
                Self::lemma_mid_pres(&s0, &s0m, &s1, &mid, h, subs, before->0@, full, shapes@, fuel as int);
            }
        }
        if let Some(b) = before {
            proof {
                assert(b@.take(0) =~= Seq::<HLayer>::empty());
                if rk {
                    assert forall|y: HLayer| #[trigger] occ(b@.take(0), y) == 0 by {}
                }
            }
            let mut k: usize = 0;
            while k < b.len()
                invariant
                    self.wf(),
                    self.same_wnds(&s0),
                    self.layer_slots() == s0.layer_slots(),
                    self.settles(&s0),
                    self.layer_live(h) ==> self.pending_sublayers(h) is None,
                    self.kept_from(&mid),
                    mid.settles(&s0),
                    k <= b@.len(),
                    k == 0 ==> self.layers@ == mid.layers@,
                    rk ==> Self::leaves(&mid, b@),
                    rk ==> Self::released_list(&mid, self, b@.take(k as int)),
                    forall|y: HLayer|
                        #![trigger self.layer_live(y)]
                        self.layer_live(y) ==> self.ref_count(y) + occ(b@.take(k as int), y) <= mid.ref_count(y),
                decreases b.len() - k,
            {
                let ghost s3 = *self;
                let x = b[k];
                self.release_layer(x);
                proof {
                    Self::lemma_kept_settles(&s3, self);
                    Self::lemma_settles_trans(&s0, &s3, self);
                    Self::lemma_kept_from_trans(&mid, &s3, self);
                    assert(self.layer_live(h) ==> s3.layer_live(h));
                    assert(b@.take(k + 1) =~= b@.take(k as int).push(x));
                    if rk {
                        Self::lemma_leaf_release_step(&mid, &s3, self, b@, k as int);
                    }
                    assert forall|y: HLayer|
                        #![trigger self.layer_live(y)]
                        self.layer_live(y) implies self.ref_count(y) + occ(b@.take(k + 1), y) <= mid.ref_count(y) by {
                        lemma_occ_push(b@.take(k as int), x, y);
                        assert(s3.layer_live(y));
                        if y == x {
                            assert(layer_ok(s3.layers@[x.index as int].unwrap()));
                        } else {
                            assert(survives(s3.lay(y), self.lay(y)));
                        }
                    }
                }
                k += 1;
            }
            proof {
                assert(b@.take(k as int) =~= b@);
                assert forall|y: HLayer|
                    #![trigger self.layer_live(y)]
                    self.layer_live(y) implies self.ref_count(y) + occ(b@, y) <= s0.ref_count(y) by {
                    assert(mid.layer_live(y));
                }
                if rk {
                    assert forall|y: HLayer|
                        #![trigger self.layer_live(y)]
                        self.layer_live(y) == (s0.layer_live(y) && occ(b@, y) < s0.ref_count(y)) by {
                        assert(mid.layer_live(y) == s0.layer_live(y));
                    }
                    assert forall|y: HLayer|
                        #![trigger self.layer_live(y)]
                        self.layer_live(y) implies self.ref_count(y) == s0.ref_count(y) - occ(b@, y) by {
                        assert(mid.layer_live(y) == s0.layer_live(y));
                    }
                    if !full && s0.layer_live(h) {
                        lemma_occ_absent(b@, h);
                        assert(subs.take(i as int) =~= subs);
                        assert(!subs.contains(h));
                        assert(s1.same_layer(&s0m, h));
                        assert(mid.layer_live(h));
                        assert(self.layer_live(h));
                        assert(self.ref_count(h) == mid.ref_count(h));
                        assert(survives(mid.lay(h), self.lay(h)));
                        assert(self.lay(h) == mid.lay(h));
                    }
                }
            }
        }
        proof {
            assert(self.kept_from(&mid));
            if kids {
                assert(self.layers@ == mid.layers@);
                assert(!subs.contains(h));
                assert(s1b.layers@ == s1.layers@);
                assert(!s0.in_list(h, subs, full, fuel - 1)) by {
                    if s0.in_list(h, subs, full, fuel - 1) {
                        let k = choose|k: int| 0 <= k < subs.len() && #[trigger] s0.in_tree(h, subs[k], full, fuel - 1);
                    }
                }
                assert forall|z: HLayer| z != h implies #[trigger] self.same_layer(&s1, z) by {
                    assert(z.index != h.index);
                }
                assert forall|k: int|
                    0 <= k < subs.len() implies Self::tree_updated(&s0, self, #[trigger] subs[k], full, shapes@, fuel - 1) by {
                    assert forall|z: HLayer| #[trigger] s0.in_tree(z, subs[k], full, fuel - 1) implies self.same_layer(&s1, z) by {
                        if z == h {
                            assert(!s0.in_tree(h, subs[k], full, fuel - 1));
                        }
                    }
                    Self::lemma_tree_new_agree(&s0, &s1, self, subs[k], full, shapes@, fuel - 1);
                }
                assert(subs.take(subs.len() as int) =~= subs);
                assert forall|z: HLayer| z != h && !s0.in_list(z, subs, full, fuel - 1) implies #[trigger] self.same_layer(&s0, z) by {
                    assert(s1.same_layer(&s0, z));
                }
                if s0.layer_live(h) {
                    assert(s1.same_layer(&s0, h));
                }
                assert forall|y: HLayer| #![trigger self.layer_live(y)] #![trigger s0.layer_live(y)]
                    self.layer_live(y) == s0.layer_live(y) && (s0.layer_live(y) ==> self.ref_count(y)
                    == s0.ref_count(y)) by {
                    assert(s1.layer_live(y) == s0.layer_live(y));
                    if y.index == h.index {
                        assert(y == h);
                    } else {
                        assert(self.same_layer(&s1, y));
                    }
                }
            }
        }
        change
    }

    /// Commit the content of the layer `h`: recalculate its boxes from its
    /// shape (where the content may have changed), the region its update
    /// affects, and its bounding box, and clear its dirty flags.
    fn commit_layer(
        &mut self,
        h: HLayer,
        full: bool,
        checked_sublayers: bool,
        sublayers_change: Option<(Option<UBox2>, Option<UBox2>)>,
        shapes: &Vec<Option<UBox2>>,
    )
        requires
            old(self).wf(),
            shapes.len() >= old(self).layer_slots(),
            shapes_ok(shapes@),
            sublayers_change matches Some((b, d)) ==> box_ok(b) && box_ok(d),
            old(self).layer_live(h) ==> old(self).pending_sublayers(h) is None,
        ensures
            final(self).wf(),
            final(self).same_wnds(old(self)),
            final(self).layer_slots() == old(self).layer_slots(),
            final(self).settles(old(self)),
            final(self).layer_live(h) == old(self).layer_live(h),
            old(self).layer_live(h) ==> final(self).old_bbox(h) == old(self).old_bbox(h),
            final(self).layer_live(h) ==> final(self).layer_clean(h),
            old(self).layer_live(h) && !full && sublayers_change is None && old(self).dirty(h) == clean_flags()
                ==> final(self).dirty_rect(h) is None,
            old(self).layer_live(h) && sublayers_change is None ==> final(self).dirty_rect(h)
                == old(self).content_dirty_rect(h, full, shapes@[h.spec_slot() as int]),
            Self::same_refs(old(self), final(self)),
            forall|y: HLayer| y != h ==> #[trigger] final(self).same_layer(old(self), y),
            old(self).layer_live(h) ==> final(self).sublayers(h) == old(self).sublayers(h),
            old(self).layer_live(h) ==> final(self).dirty_rect(h) == old(self).committed_dirty_rect(
                h,
                full,
                shapes@[h.spec_slot() as int],
                match sublayers_change {
                    Some((_, d)) => d,
                    None => None,
                },
                match sublayers_change {
                    Some((b, _)) => b,
                    None => old(self).sublayers_box(h),
                },
            ),
            old(self).layer_live(h) ==> final(self).bbox(h) == old(self).committed_bbox(
                h,
                full,
                shapes@[h.spec_slot() as int],
                checked_sublayers,
                match sublayers_change {
                    Some((b, _)) => b,
                    None => old(self).sublayers_box(h),
                },
            ),
            old(self).layer_live(h) ==> {
                &&& final(self).content_box(h) == old(self).committed_content_box(h, full, shapes@[h.spec_slot() as int])
                &&& final(self).mask_box(h) == old(self).committed_mask_box(h, full, shapes@[h.spec_slot() as int])
                &&& final(self).sublayers_box(h) == match sublayers_change {
                    Some((b, _)) => b,
                    None => old(self).sublayers_box(h),
                }
            },
    {
        if h.index >= self.layers.len() || self.layers[h.index].is_none() {
            return;
        }
        let ghost s0 = *self;
        let mut l = self.layers[h.index].take().unwrap();
        let dirty_sublayers = match sublayers_change {
            Some((bbox, dirty)) => {
                l.bbox_sublayers = bbox;
                dirty
            },
            None => None,
        };
        let should_check_content = l.dirty.content || full;
        let mut dirty_content: Option<UBox2> = None;
        let mut dirty_mask: Option<UBox2> = None;
        if should_check_content {
            let bx = shapes[h.index];
            let new_bbox_content = if l.has_content {
                bx
            } else {
                None
            };
            dirty_content = bbox2_union(new_bbox_content, l.bbox_content);
            dirty_mask = bbox2_union(bx, l.bbox_mask);
            l.bbox_content = new_bbox_content;
            l.bbox_mask = bx;
        }
        proof {
            lemma_intersect_none(l.bbox_mask);
            lemma_intersect_none(l.bbox_sublayers);
            lemma_intersect_none(None);
        }
        l.dirty_rect = layer_dirty_rect(
            dirty_content,
            dirty_sublayers,
            dirty_mask,
            l.bbox_content,
            l.bbox_sublayers,
            l.bbox_mask,
            l.mask_to_bounds,
            l.dirty.opacity,
        );
        l.dirty = LayerDirty { content: false, opacity: false, descendant: false };
        if should_check_content || checked_sublayers {
            let sub = if l.mask_to_bounds {
                bbox2_intersect(l.bbox_mask, l.bbox_sublayers)
            } else {
                l.bbox_sublayers
            };
            l.bbox = bbox2_union(l.bbox_content, sub);
        }
        self.layers.set(h.index, Some(l));
        proof {
            assert(self.layers@ =~= s0.layers@.update(h.index as int, Some(l)));
            Self::lemma_put_back(&s0, self, h.index as int, l);
            assert forall|y: HLayer| #[trigger] self.layer_live(y) implies s0.layer_live(y) && (
            s0.pending_sublayers(y) is None ==> self.pending_sublayers(y) is None) && (s0.dirty(y)
                == clean_flags() ==> self.dirty(y) == clean_flags()) && self.ref_count(y) <= s0.ref_count(y) && self.has_content(y) == s0.has_content(y) && self.superlayer(y) == s0.superlayer(y) by {
                if y.index == h.index {
                    assert(y == h);
                }
            }
            assert forall|y: HLayer| #![trigger self.layer_live(y)] #![trigger s0.layer_live(y)]
                self.layer_live(y) == s0.layer_live(y) && (s0.layer_live(y) ==> self.ref_count(y)
                == s0.ref_count(y)) by {
                if y.index == h.index {
                    assert(y == h);
                }
            }
        }
    }
}

proof fn lemma_intersect_none(a: Option<UBox2>)
    ensures
        intersect_opt(None, a) is None,
        intersect_opt(a, None) is None,
{
    reveal(intersect_opt);
}

impl<A, W> Screen<A, W> {
    /// The window `w` has nothing left to update: it is not to be updated
    /// whole, and its root layer, if it has one that exists, has no
    /// uncommitted change.
    pub open spec fn wnd_settled(&self, w: HWnd) -> bool {
        &&& !self.wnd_dirty(w)
        &&& match self.wnd_root(w) {
            Some(h) => self.layer_live(h) ==> self.layer_clean(h),
            None => true,
        }
    }

    /// Commit the changes of the layers of the window `w` and calculate the
    /// portion of the window which has been updated since the last time
    /// `update_wnd` was called: the whole window if it was to be updated
    /// whole. `shapes[i]` is the box of window pixels that the shape of the
    /// layer in slot `i` covers in this window (`None` if none). Once
    /// updated, the window is settled, and updating a settled window reports
    /// nothing.
    pub fn update_wnd(&mut self, w: HWnd, shapes: &Vec<Option<UBox2>>) -> (r: Option<UBox2>)
        requires
            old(self).wf(),
            old(self).wnd_live(w),
            shapes.len() >= old(self).layer_slots(),
            shapes_ok(shapes@),
        ensures
            final(self).wf(),
            final(self).wnd_live(w),
            final(self).wnd_size(w) == old(self).wnd_size(w),
            final(self).wnd_attrs(w) == old(self).wnd_attrs(w),
            final(self).wnd_root(w) == old(self).wnd_root(w),
            forall|w2: HWnd|
                #![trigger final(self).same_wnd(old(self), w2)]
                #![trigger final(self).wnd_live(w2)]
                #![trigger old(self).wnd_live(w2)]
                w2 != w ==> final(self).same_wnd(old(self), w2),
            final(self).layer_slots() == old(self).layer_slots(),
            final(self).settles(old(self)),
            old(self).wnd_dirty(w) ==> r == Some(UBox2 { min: [0, 0], max: old(self).wnd_size(w) }),
            !old(self).wnd_dirty(w) && old(self).wnd_root(w) is None ==> r is None,
            final(self).wnd_settled(w),
            forall|w2: HWnd|
                w2 != w && old(self).wnd_live(w2) && #[trigger] old(self).wnd_settled(w2)
                    ==> final(self).wnd_settled(w2),
            old(self).wnd_settled(w) ==> r is None,
            old(self).no_pending() ==> Self::same_refs(old(self), final(self)),
            !old(self).wnd_dirty(w) ==> (old(self).wnd_root(w) matches Some(h) ==> (final(self).layer_live(h)
                ==> r == final(self).dirty_rect(h))),
            old(self).wnd_root(w) matches Some(h) ==> (old(self).tree_ok(
                h,
                old(self).wnd_dirty(w),
                old(self).layer_slots() as int,
            ) ==> {
                &&& Self::tree_updated(
                    old(self),
                    final(self),
                    h,
                    old(self).wnd_dirty(w),
                    shapes@,
                    old(self).layer_slots() as int,
                )
                &&& forall|z: HLayer|
                    !old(self).in_tree(z, h, old(self).wnd_dirty(w), old(self).layer_slots() as int)
                        ==> #[trigger] final(self).same_layer(old(self), z)
                &&& !old(self).wnd_dirty(w) ==> r == old(self).tree_res(
                    h,
                    false,
                    shapes@,
                    old(self).layer_slots() as int,
                ).0
            }),
            old(self).wnd_root(w) matches Some(h) ==> (!old(self).wnd_dirty(w) && old(self).child_ok(h, false) ==> {
                &&& Self::child_updated(old(self), final(self), h, false, shapes@[h.spec_slot() as int])
                &&& forall|y: HLayer| y != h ==> #[trigger] final(self).same_layer(old(self), y)
            }),
            old(self).wnd_root(w) matches Some(h) ==> (old(self).layer_live(h) && old(self).pending_sublayers(h)
                is Some ==> forall|y: HLayer|
                #![trigger final(self).layer_live(y)]
                final(self).layer_live(y) ==> final(self).ref_count(y) + occ(old(self).sublayers(h), y)
                    <= old(self).ref_count(y)),
            old(self).wnd_root(w) matches Some(h) ==> (old(self).layer_live(h) && old(self).pending_sublayers(h)
                is Some && old(self).children_ok(
                h,
                old(self).new_list(h),
                old(self).wnd_dirty(w),
                old(self).layer_slots() as int,
            ) && Self::leaves(old(self), old(self).sublayers(h)) && !old(self).sublayers(h).contains(h)
                ==> Self::released_list(old(self), final(self), old(self).sublayers(h))),
            !old(self).wnd_dirty(w) ==> (old(self).wnd_root(w) matches Some(h) ==> (old(self).replaces_leaves(
                h,
                false,
                old(self).layer_slots() as int,
            ) ==> r == old(self).replaced_dirty_rect(h, shapes@, old(self).layer_slots() as int))),
            old(self).wnd_dirty(w) ==> (old(self).wnd_root(w) matches Some(h) ==> (final(self).layer_live(h) ==> {
                &&& final(self).content_box(h) == if old(self).has_content(h) {
                    shapes@[h.spec_slot() as int]
                } else {
                    None
                }
                &&& final(self).mask_box(h) == shapes@[h.spec_slot() as int]
            })),
            !old(self).wnd_dirty(w) ==> (old(self).wnd_root(w) matches Some(h) ==> (old(self).layer_live(h)
                && !old(self).dirty(h).descendant && old(self).pending_sublayers(h) is None ==> {
                &&& r == old(self).content_dirty_rect(h, false, shapes@[h.spec_slot() as int])
                &&& final(self).layer_live(h)
                &&& final(self).content_box(h) == old(self).committed_content_box(h, false, shapes@[h.spec_slot() as int])
                &&& final(self).mask_box(h) == old(self).committed_mask_box(h, false, shapes@[h.spec_slot() as int])
                &&& final(self).sublayers_box(h) == old(self).sublayers_box(h)
            })),
    {
        let ghost s0 = *self;
        let (full, root) = match &self.wnds[w.index] {
            Some(wnd) => (wnd.dirty, wnd.root),
            None => (false, None),
        };
        let mut dirty_region: Option<UBox2> = None;
        if let Some(h) = root {
            let fuel = self.layers.len();
            let ghost s00 = *self;
            self.update_layer(h, full, shapes, fuel);
            proof {
                if s00.layer_live(h) && !full && s00.layer_clean(h) {
                    assert(fuel > 0);
                    assert(self.dirty_rect(h) is None);
                }
                if !full && s00.replaces_leaves(h, false, fuel as int) {
                    assert(fuel > 0);
                    assert(self.layer_live(h));
                    assert(self.dirty_rect(h) == s00.replaced_dirty_rect(h, shapes@, fuel as int));
                }
            }
            if h.index < self.layers.len() {
                if let Some(l) = &self.layers[h.index] {
                    dirty_region = l.dirty_rect;
                }
            }
        }
        let ghost s1 = *self;
        let mut wnd = self.wnds[w.index].take().unwrap();
        if wnd.dirty {
            wnd.dirty = false;
            dirty_region = Some(UBox2 { min: [0, 0], max: wnd.size });
        }
        proof {
            lemma_free_ok_keep(s1.wnds@, self.free_wnds@, w.index as int, wnd);
        }
        self.wnds.set(w.index, Some(wnd));
        proof {
            assert forall|w2: HWnd| w2 != w implies #[trigger] self.same_wnd(&s0, w2) by {
                if w2.index == w.index {
                    assert(w2 == w);
                }
            }
            assert(self.layers@ == s1.layers@);
            assert forall|y: HLayer| #[trigger] self.layer_live(y) implies s0.layer_live(y) && (
            s0.pending_sublayers(y) is None ==> self.pending_sublayers(y) is None) && (s0.dirty(y)
                == clean_flags() ==> self.dirty(y) == clean_flags()) && self.ref_count(y) <= s0.ref_count(y) && self.has_content(y) == s0.has_content(y) && self.superlayer(y) == s0.superlayer(y) by {
                assert(s1.layer_live(y));
            }
            if s0.no_pending() {
                assert forall|y: HLayer| #![trigger self.layer_live(y)] #![trigger s0.layer_live(y)]
                    self.layer_live(y) == s0.layer_live(y) && (s0.layer_live(y) ==> self.ref_count(y)
                    == s0.ref_count(y)) by {
                    assert(s1.layer_live(y) == s0.layer_live(y));
                }
            }
            if let Some(h) = s0.wnd_root(w) {
                if s0.layer_live(h) && s0.pending_sublayers(h) is Some {
                    assert forall|y: HLayer|
                        #![trigger self.layer_live(y)]
                        self.layer_live(y) implies self.ref_count(y) + occ(s0.sublayers(h), y) <= s0.ref_count(y) by {
                        assert(s1.layer_live(y));
                    }
                }
            }
            assert forall|w2: HWnd|
                w2 != w && s0.wnd_live(w2) && #[trigger] s0.wnd_settled(w2) implies self.wnd_settled(w2) by {
                assert(self.same_wnd(&s0, w2));
                if let Some(y) = s0.wnd_root(w2) {
                    if self.layer_live(y) {
                        assert(s0.layer_live(y));
                    }
                }
            }
            if let Some(h) = s0.wnd_root(w) {
                if s0.tree_ok(h, s0.wnd_dirty(w), s0.layer_slots() as int) {
                    assert forall|z: HLayer| #[trigger] s0.in_tree(z, h, s0.wnd_dirty(w), s0.layer_slots() as int) implies self.same_layer(&s1, z) by {}
                    Self::lemma_tree_new_agree(&s0, &s1, self, h, s0.wnd_dirty(w), shapes@, s0.layer_slots() as int);
                    assert forall|z: HLayer| !s0.in_tree(z, h, s0.wnd_dirty(w), s0.layer_slots() as int) implies #[trigger] self.same_layer(&s0, z) by {
                        assert(s1.same_layer(&s0, z));
                    }
                }
                if s0.layer_live(h) && s0.pending_sublayers(h) is Some && s0.children_ok(
                    h,
                    s0.new_list(h),
                    s0.wnd_dirty(w),
                    s0.layer_slots() as int,
                ) && Self::leaves(&s0, s0.sublayers(h)) && !s0.sublayers(h).contains(h) {
                    let b = s0.sublayers(h);
                    assert(Self::released_list(&s0, &s1, b));
                    assert forall|y: HLayer| #![trigger self.layer_live(y)] self.layer_live(y) == s1.layer_live(y) && (self.layer_live(y) ==> self.ref_count(y) == s1.ref_count(y)) by {}
                }
                if !s0.wnd_dirty(w) && s0.child_ok(h, false) {
                    assert(Self::child_updated(&s0, &s1, h, false, shapes@[h.spec_slot() as int]));
                    assert forall|y: HLayer| y != h implies #[trigger] self.same_layer(&s0, y) by {
                        assert(s1.same_layer(&s0, y));
                    }
                }
            }
        }
        dirty_region
    }

    /// Where exactly one layer `x` of `a` is gone in `b`, and every other
    /// layer is there in both or in neither, `b` holds one layer fewer.
    pub proof fn lemma_live_layers_one_gone(a: &Self, b: &Self, x: HLayer)
        requires
            a.layer_slots() == b.layer_slots(),
            a.layer_live(x),
            !b.layer_live(x),
            forall|y: HLayer| y != x ==> #[trigger] b.layer_live(y) == a.layer_live(y),
        ensures
            b.live_layers() + 1 == a.live_layers(),
    {
        let oa = occupied(a.layers@);
        let ob = occupied(b.layers@);
        assert forall|i: int| 0 <= i < ob.len() implies ob[i] == oa.update(x.index as int, false)[i] by {
            assert(b.layers.len() == b.layers@.len());
            let y = HLayer { index: i as usize };
            assert(y.index == i);
            if i != x.index {
                assert(y != x);
                assert(b.layer_live(y) == a.layer_live(y));
            }
        }
        assert(ob =~= oa.update(x.index as int, false));
        lemma_count_true_update(oa, x.index as int, false);
    }

}

impl<A, W> Screen<A, W> {
    /// The number of layers.
    pub fn layer_count(&self) -> (r: usize)
        ensures
            r == self.live_layers(),
    {
        let mut n: usize = 0;
        let mut i: usize = 0;
        while i < self.layers.len()
            invariant
                i <= self.layers.len(),
                n == count_true(occupied(self.layers@).take(i as int)),
                n <= i,
            decreases self.layers.len() - i,
        {
            proof {
                assert(occupied(self.layers@).take(i + 1).drop_last() =~= occupied(self.layers@).take(i as int));
            }
            if self.layers[i].is_some() {
                n += 1;
            }
            i += 1;
        }
        proof {
            assert(occupied(self.layers@).take(i as int) =~= occupied(self.layers@));
        }
        n
    }

    /// The number of layer slots; layer handles index them.
    pub fn slot_count(&self) -> (r: usize)
        ensures
            r == self.layer_slots(),
    {
        self.layers.len()
    }

    /// The layer in the slot `i`, if there is one.
    pub fn layer_at(&self, i: usize) -> (r: Option<HLayer>)
        ensures
            r matches Some(h) ==> h.spec_slot() == i && self.layer_live(h),
            r is None ==> forall|h: HLayer| h.spec_slot() == i ==> !self.layer_live(h),
    {
        if i < self.layers.len() && self.layers[i].is_some() {
            Some(HLayer { index: i })
        } else {
            None
        }
    }

    /// The layer `h` exists.
    pub fn contains_layer(&self, h: HLayer) -> (r: bool)
        ensures
            r == self.layer_live(h),
    {
        h.index < self.layers.len() && self.layers[h.index].is_some()
    }

    /// The window `w` exists.
    pub fn contains_wnd(&self, w: HWnd) -> (r: bool)
        ensures
            r == self.wnd_live(w),
    {
        w.index < self.wnds.len() && self.wnds[w.index].is_some()
    }

    /// The number of references to the layer `h`.
    pub fn layer_ref_count(&self, h: HLayer) -> (r: u8)
        requires
            self.layer_live(h),
        ensures
            r == self.ref_count(h),
    {
        self.layers[h.index].as_ref().unwrap().ref_count
    }

    /// The attributes of the layer `h`.
    pub fn layer_attrs(&self, h: HLayer) -> (r: &A)
        requires
            self.layer_live(h),
        ensures
            *r == self.attrs(h),
    {
        &self.layers[h.index].as_ref().unwrap().attrs
    }

    /// The committed sublayers of the layer `h`, back to front.
    pub fn layer_sublayers(&self, h: HLayer) -> (r: &Vec<HLayer>)
        requires
            self.layer_live(h),
        ensures
            r@ == self.sublayers(h),
    {
        &self.layers[h.index].as_ref().unwrap().sublayers
    }

    /// The size of the window `w`.
    pub fn wnd_size_of(&self, w: HWnd) -> (r: [usize; 2])
        requires
            self.wnd_live(w),
        ensures
            r == self.wnd_size(w),
    {
        self.wnds[w.index].as_ref().unwrap().size
    }

    /// The root layer of the window `w`.
    pub fn wnd_root_of(&self, w: HWnd) -> (r: Option<HLayer>)
        requires
            self.wnd_live(w),
        ensures
            r == self.wnd_root(w),
    {
        self.wnds[w.index].as_ref().unwrap().root
    }

    /// The attributes of the window `w`.
    pub fn wnd_attrs_of(&self, w: HWnd) -> (r: &W)
        requires
            self.wnd_live(w),
        ensures
            *r == self.wnd_attrs(w),
    {
        &self.wnds[w.index].as_ref().unwrap().attrs
    }
}


} // verus!

//! The binner: sorts rendered elements into the bins (tiles) they cover, as
//! per-bin lists of fragments in drawing order.
use vstd::prelude::*;

use super::bin::{
    aligned_to_pixel, is_clip_planes_aligned_to_pixel, Box2U16, ClipPlanes, Content, Elem, ElemFlags,
    ELEM_CLIP_PLANES, ELEM_CLIP_PLANES_ANTIALIASED,
};
use super::{NUM_LAYERS, TILE};

verus! {

/// The end of a fragment list.
pub const NONE: u32 = 0xffffffff;

/// A rendered fragment: a drawing command for a single bin.
#[derive(Debug, Clone, Copy)]
pub struct Frag {
    /// Index of `Elem`.
    pub elem_i: u32,
    /// The next index of `Frag`. `NONE` if there is none.
    pub next_frag_i: u32,
    /// The 0-based layer number. Layer 0 is used as output. The valid range
    /// is `0..NUM_LAYERS`.
    pub layer: u8,
}

/// A bin: the ends of its fragment list.
#[derive(Debug, Clone, Copy)]
pub struct Bin {
    /// The first fragment in the bin's fragment list, or `NONE`.
    ///
    /// The fragment list is processed in a drawing order (back to front).
    pub frag_first_i: u32,
    /// The last fragment in the bin's fragment list, or `NONE`.
    pub frag_last_i: u32,
    /// Used by `BinnerBuilder`: the bin has a compositing fragment for each
    /// layered group below this index.
    pub max_layered_group_i: u32,
}

/// The `(element, layer)` pairs of the fragment list starting at `i`, in
/// list order. A fragment links to an earlier fragment or to `NONE`.
pub open spec fn chain(frags: Seq<Frag>, i: u32) -> Seq<(u32, u8)>
    decreases i,
{
    if i >= frags.len() {
        Seq::empty()
    } else {
        let f = frags[i as int];
        if f.next_frag_i < i {
            seq![(f.elem_i, f.layer)] + chain(frags, f.next_frag_i)
        } else {
            seq![(f.elem_i, f.layer)]
        }
    }
}

/// The index of the last fragment of the list starting at `i` (the first
/// one that was pushed to it), or `NONE` for an empty list.
pub open spec fn chain_end(frags: Seq<Frag>, i: u32) -> u32
    decreases i,
{
    if i >= frags.len() {
        NONE
    } else if frags[i as int].next_frag_i < i {
        chain_end(frags, frags[i as int].next_frag_i)
    } else {
        i
    }
}

/// The list starting at an existing fragment ends at an existing fragment,
/// which holds the list's last pair.
proof fn lemma_chain_end(frags: Seq<Frag>, i: u32)
    requires
        i < frags.len(),
    ensures
        chain_end(frags, i) < frags.len(),
        chain(frags, i).len() > 0,
        chain(frags, i).last() == (frags[chain_end(frags, i) as int].elem_i, frags[chain_end(frags, i) as int].layer),
    decreases i,
{
    let next = frags[i as int].next_frag_i;
    if next < i {
        lemma_chain_end(frags, next);
    }
}

/// A temporary storage for binning.
pub struct Binner<TBmp> {
    bins: Vec<Bin>,
    elems: Vec<Elem<TBmp>>,
    frags: Vec<Frag>,
    target_size: [usize; 2],
    bin_count: [usize; 2],
    group_bins: Vec<Vec<u32>>,
}

/// `ceil(size / TILE)`.
pub open spec fn bins_along(size: int) -> int {
    (size + 15) / 16
}

impl<TBmp> Binner<TBmp> {
    /// The elements.
    pub closed spec fn elems_view(&self) -> Seq<Elem<TBmp>> {
        self.elems@
    }

    /// The fragment list of bin `b`: `(element index, layer)` pairs in
    /// drawing order.
    pub closed spec fn bin_list(&self, b: int) -> Seq<(u32, u8)> {
        chain(self.frags@, self.bins@[b].frag_first_i)
    }

    /// The number of bins along each axis.
    pub closed spec fn bin_count_spec(&self) -> [usize; 2] {
        self.bin_count
    }

    /// The render target size.
    pub closed spec fn target_size_spec(&self) -> [usize; 2] {
        self.target_size
    }

    /// The number of bins.
    pub closed spec fn num_bins(&self) -> int {
        self.bins@.len() as int
    }

    /// The number of fragments.
    pub closed spec fn num_frags(&self) -> int {
        self.frags@.len() as int
    }

    /// The last-fragment link of bin `b`.
    pub closed spec fn bin_last(&self, b: int) -> u32 {
        self.bins@[b].frag_last_i
    }

    /// The `(element index, layer)` pair of fragment `i`.
    pub closed spec fn frag_pair(&self, i: int) -> (u32, u8) {
        (self.frags@[i].elem_i, self.frags@[i].layer)
    }

    /// `new` holds the fragments of `old` in their places, and maybe more
    /// after them.
    pub open spec fn frags_kept(old: &Self, new: &Self) -> bool {
        &&& old.num_frags() <= new.num_frags()
        &&& forall|i: int| 0 <= i < old.num_frags() ==> #[trigger] new.frag_pair(i) == old.frag_pair(i)
    }

    /// The last-fragment link of a bin is `NONE` exactly when its list is
    /// empty; otherwise it names the fragment that holds the list's last
    /// pair, the first one pushed to the bin.
    pub proof fn law_last_frag(&self, b: int)
        requires
            self.wf(),
            0 <= b < self.num_bins(),
        ensures
            (self.bin_last(b) == NONE) == (self.bin_list(b).len() == 0),
            self.bin_last(b) != NONE ==> self.bin_last(b) < self.num_frags() && self.frag_pair(
                self.bin_last(b) as int,
            ) == self.bin_list(b).last(),
    {
        let fi = self.bins@[b].frag_first_i;
        if fi != NONE {
            lemma_chain_end(self.frags@, fi);
        } else {
            assert(chain(self.frags@, fi) =~= Seq::empty());
        }
    }

    /// The bins tile the target; every fragment links to an earlier one (or
    /// ends its list) and names an existing element and a valid layer; and
    /// each bin's list is empty or starts at an existing fragment.
    pub closed spec fn wf(&self) -> bool {
        &&& self.target_size[0] <= 0xffff && self.target_size[1] <= 0xffff
        &&& self.bin_count[0] == bins_along(self.target_size[0] as int)
        &&& self.bin_count[1] == bins_along(self.target_size[1] as int)
        &&& self.bins@.len() == self.bin_count[0] * self.bin_count[1]
        &&& self.bins@.len() <= 0x100_0000
        &&& self.frags@.len() < NONE
        &&& self.elems@.len() < NONE
        &&& forall|f: int|
            0 <= f < self.frags@.len() ==> {
                let fr = #[trigger] self.frags@[f];
                &&& (fr.next_frag_i == NONE || fr.next_frag_i < f)
                &&& fr.elem_i < self.elems@.len()
                &&& fr.layer < NUM_LAYERS
            }
        &&& forall|b: int|
            0 <= b < self.bins@.len() ==> {
                let bin = #[trigger] self.bins@[b];
                &&& (bin.frag_first_i == NONE || bin.frag_first_i < self.frags@.len())
                &&& (bin.frag_first_i == NONE <==> bin.frag_last_i == NONE)
                &&& (bin.frag_last_i == NONE || bin.frag_last_i < self.frags@.len())
                &&& bin.frag_last_i == chain_end(self.frags@, bin.frag_first_i)
            }
    }

    /// Construct a `Binner`.
    pub fn new() -> (r: Self)
        ensures
            r.wf(),
            r.target_size_spec() == [0usize, 0usize],
            r.num_bins() == 0,
            r.elems_view().len() == 0,
    {
        Binner {
            bins: Vec::new(),
            elems: Vec::new(),
            frags: Vec::new(),
            target_size: [0, 0],
            bin_count: [0, 0],
            group_bins: Vec::new(),
        }
    }

    /// The render target size.
    pub fn target_size(&self) -> (r: [usize; 2])
        ensures
            r == self.target_size_spec(),
    {
        self.target_size
    }

    /// The number of bins along each axis.
    pub fn bin_count(&self) -> (r: [usize; 2])
        ensures
            r == self.bin_count_spec(),
    {
        self.bin_count
    }

    /// The number of fragments in all bins' lists together.
    pub fn frag_count(&self) -> (r: usize)
        ensures
            r == self.num_frags(),
    {
        self.frags.len()
    }

    /// The last-fragment link of the bin `bin_index`: the index of the first
    /// fragment pushed to it, or `NONE`.
    pub fn bin_last_frag(&self, bin_index: [usize; 2]) -> (r: u32)
        requires
            self.wf(),
            bin_index[0] < self.bin_count_spec()[0],
            bin_index[1] < self.bin_count_spec()[1],
        ensures
            r == self.bin_last(bin_index[0] + bin_index[1] * self.bin_count_spec()[0]),
    {
        proof {
            assert(bin_index[0] + bin_index[1] * self.bin_count[0] < self.bin_count[0] * self.bin_count[1])
                by (nonlinear_arith)
                requires
                    bin_index[0] < self.bin_count[0],
                    bin_index[1] < self.bin_count[1],
            ;
        }
        assert(bin_index[1] * self.bin_count[0] <= bin_index[0] + bin_index[1] * self.bin_count[0]);
        self.bins[bin_index[0] + bin_index[1] * self.bin_count[0]].frag_last_i
    }

    /// The elements of the bin `bin_index` and their layers, in drawing
    /// order (back to front).
    pub fn bin_elems(&self, bin_index: [usize; 2]) -> (r: Vec<(&Elem<TBmp>, u8)>)
        requires
            self.wf(),
            bin_index[0] < self.bin_count_spec()[0],
            bin_index[1] < self.bin_count_spec()[1],
        ensures
            ({
                let list = self.bin_list(bin_index[0] + bin_index[1] * self.bin_count_spec()[0]);
                &&& r@.len() == list.len()
                &&& forall|k: int|
                    0 <= k < r@.len() ==> *(#[trigger] r@[k]).0 == self.elems_view()[list[k].0 as int]
                        && r@[k].1 == list[k].1
            }),
    {
        proof {
            assert(bin_index[0] + bin_index[1] * self.bin_count[0] < self.bin_count[0] * self.bin_count[1])
                by (nonlinear_arith)
                requires
                    bin_index[0] < self.bin_count[0],
                    bin_index[1] < self.bin_count[1],
            ;
        }
        let n = self.bins.len();
        assert(bin_index[1] * self.bin_count[0] <= bin_index[0] + bin_index[1] * self.bin_count[0] < n);
        let bin_i = bin_index[0] + bin_index[1] * self.bin_count[0];
        let ghost list = self.bin_list(bin_i as int);
        let mut out: Vec<(&Elem<TBmp>, u8)> = Vec::new();
        let mut i = self.bins[bin_i].frag_first_i;
        proof {
            assert(self.bins@[bin_i as int].frag_first_i == NONE || self.bins@[bin_i as int].frag_first_i
                < self.frags@.len());
        }
        while i != NONE
            invariant
                self.wf(),
                i == NONE || i < self.frags@.len(),
                out@.len() + chain(self.frags@, i).len() == list.len(),
                forall|k: int| 0 <= k < out@.len() ==> *(#[trigger] out@[k]).0 == self.elems_view()[list[k].0 as int]
                    && out@[k].1 == list[k].1,
                forall|k: int|
                    0 <= k < chain(self.frags@, i).len() ==> #[trigger] chain(self.frags@, i)[k] == list[out@.len()
                        + k],
            decreases (if i == NONE {
                0
            } else {
                i as int + 1
            }),
        {
            let f = self.frags[i as usize];
            proof {
                assert(self.frags@[i as int] == f);
                assert(chain(self.frags@, i)[0] == (f.elem_i, f.layer));
                if f.next_frag_i != NONE {
                    assert(chain(self.frags@, i) == seq![(f.elem_i, f.layer)] + chain(self.frags@, f.next_frag_i));
                } else {
                    assert(chain(self.frags@, i) == seq![(f.elem_i, f.layer)]);
                    assert(chain(self.frags@, NONE).len() == 0);
                }
            }
            let ghost old_out = out@;
            out.push((&self.elems[f.elem_i as usize], f.layer));
            proof {
                let c0 = chain(self.frags@, i);
                assert(c0[0] == list[old_out.len() as int]);
                assert forall|k: int| 0 <= k < chain(self.frags@, f.next_frag_i).len() implies #[trigger] chain(
                    self.frags@,
                    f.next_frag_i,
                )[k] == list[out@.len() + k] by {
                    assert(chain(self.frags@, f.next_frag_i)[k] == c0[k + 1]);
                }
            }
            i = f.next_frag_i;
        }
        proof {
            assert(chain(self.frags@, NONE).len() == 0);
        }
        out
    }
}

/// The layer of a group that has one.
#[derive(Debug, Clone, Copy)]
pub struct GrLayer {
    /// The element that composites this layer onto the parent layer
    /// (`layer - 1`).
    pub elem_i: u32,
    /// The layer number.
    pub layer: u8,
}

/// A builder group.
#[derive(Debug, Clone, Copy)]
pub struct BuilderGr {
    /// If the group has a layer, this stores the layer information.
    pub layer: Option<GrLayer>,
    /// The old scissor rectangle to be restored when this group is closed.
    pub old_scissor: Option<Box2U16>,
}

/// The last index + 1 in `groups` of a group having a layer, or 0.
pub open spec fn top_of(groups: Seq<BuilderGr>) -> int
    decreases groups.len(),
{
    if groups.len() == 0 {
        0
    } else if groups.last().layer is Some {
        groups.len() as int
    } else {
        top_of(groups.drop_last())
    }
}

/// The number of groups having a layer.
pub open spec fn layered_count(groups: Seq<BuilderGr>) -> int
    decreases groups.len(),
{
    if groups.len() == 0 {
        0
    } else {
        layered_count(groups.drop_last()) + if groups.last().layer is Some {
            1int
        } else {
            0int
        }
    }
}

/// The compositing fragments, in list order, that a bin gets for the
/// layered groups `from..to`: the innermost group comes first.
pub open spec fn comp_frags(groups: Seq<BuilderGr>, from: int, to: int) -> Seq<(u32, u8)>
    decreases to - from,
{
    if to <= from {
        Seq::empty()
    } else {
        let rest = comp_frags(groups, from, to - 1);
        match groups[to - 1].layer {
            Some(g) => seq![(g.elem_i, (g.layer - 1) as u8)] + rest,
            None => rest,
        }
    }
}

/// This type is used to add rendered elements to `Binner`.
///
/// The methods should be called in a reverse drawing order (front to back),
/// so that each bin's fragment list, built by prepending, comes out in
/// drawing order.
pub struct BinnerBuilder<TBmp> {
    binner: Binner<TBmp>,
    /// The stack of active groups.
    groups: Vec<BuilderGr>,
    /// The last element + 1 in `groups` having `GrLayer`.
    top_layered_group_i: u32,
    /// The current layer. It starts at `0`.
    layer: u8,
    /// The current scissor rectangle. `None` means empty.
    scissor: Option<Box2U16>,
}

impl<TBmp> BinnerBuilder<TBmp> {
    /// `b` is `a` after `open_group(mask, opacity)`, as far as the group
    /// stack, the scissor and the layer go.
    pub open spec fn opened_group(a: &Self, b: &Self, mask: Option<GroupMask>, opacity: u16) -> bool {
        let opens = opens_layer(a.scissor_spec(), mask, opacity);
        &&& b.groups_view() == a.groups_view().push(
            BuilderGr {
                layer: if opens {
                    Some(GrLayer { elem_i: a.binner_view().elems_view().len() as u32, layer: (a.layer_spec() + 1) as u8 })
                } else {
                    None
                },
                old_scissor: a.scissor_spec(),
            },
        )
        &&& b.layer_spec() == if opens {
            a.layer_spec() + 1
        } else {
            a.layer_spec() as int
        }
        &&& b.scissor_spec() == group_scissor(a.scissor_spec(), mask)
    }

    /// `b` is `a` after `close_group()`, as far as the group stack, the
    /// scissor and the layer go.
    pub open spec fn closed_group(a: &Self, b: &Self) -> bool {
        &&& b.groups_view() == a.groups_view().drop_last()
        &&& b.scissor_spec() == a.groups_view().last().old_scissor
        &&& b.layer_spec() == a.layer_spec() - if a.groups_view().last().layer is Some {
            1int
        } else {
            0int
        }
    }

    /// Closing a group restores the group stack, the scissor and the layer
    /// that were there before it was opened, whatever came in between that
    /// left the stack and the layer as the opening did (elements, nested
    /// groups that were closed again, or nothing).
    pub proof fn law_open_close_round_trip(
        a: &Self,
        b: &Self,
        b2: &Self,
        c: &Self,
        mask: Option<GroupMask>,
        opacity: u16,
    )
        requires
            Self::opened_group(a, b, mask, opacity),
            b2.groups_view() == b.groups_view(),
            b2.layer_spec() == b.layer_spec(),
            Self::closed_group(b2, c),
        ensures
            c.groups_view() == a.groups_view(),
            c.scissor_spec() == a.scissor_spec(),
            c.layer_spec() == a.layer_spec(),
    {
        assert(b.groups_view().drop_last() =~= a.groups_view());
    }

    /// The binner being built.
    pub closed spec fn binner_view(&self) -> &Binner<TBmp> {
        &self.binner
    }

    /// The stack of active groups.
    pub closed spec fn groups_view(&self) -> Seq<BuilderGr> {
        self.groups@
    }

    /// The current layer.
    pub closed spec fn layer_spec(&self) -> u8 {
        self.layer
    }

    /// The current scissor rectangle.
    pub closed spec fn scissor_spec(&self) -> Option<Box2U16> {
        self.scissor
    }

    /// The bin `b` has compositing fragments for the layered groups below
    /// this index.
    pub closed spec fn max_layered(&self, b: int) -> int {
        self.binner.bins@[b].max_layered_group_i as int
    }

    /// A bin has compositing fragments for the layered groups below a mark
    /// that lies between 0 and the top layered group, and is 0 or just above
    /// a layered group.
    pub proof fn law_max_layered_range(&self, b: int)
        requires
            self.wf(),
            0 <= b < self.binner_view().num_bins(),
        ensures
            0 <= self.max_layered(b) <= top_of(self.groups_view()),
            self.max_layered(b) == 0 || self.groups_view()[self.max_layered(b) - 1].layer is Some,
    {
        assert(self.max_ok(b));
        assert(self.binner.bins@[b].max_layered_group_i as int <= top_of(self.groups@));
    }

    /// The bin `b` has compositing fragments for the layered groups below a
    /// layered group (or for none).
    closed spec fn max_ok(&self, b: int) -> bool {
        let m = self.binner.bins@[b].max_layered_group_i as int;
        m == 0 || (m - 1 < self.groups@.len() && self.groups@[m - 1].layer is Some)
    }

    /// The bookkeeping of groups, layers and compositing fragments is
    /// consistent.
    pub closed spec fn wf(&self) -> bool {
        self.wf_but(-1)
    }

    /// `wf`, except that the bin `skip` may be partway through getting its
    /// compositing fragments.
    closed spec fn wf_but(&self, skip: int) -> bool {
        let groups = self.groups@;
        let gb = self.binner.group_bins@;
        let bins = self.binner.bins@;
        &&& self.binner.wf()
        &&& gb.len() == groups.len()
        &&& groups.len() < NONE
        &&& self.top_layered_group_i == top_of(groups)
        &&& self.layer == layered_count(groups)
        &&& self.layer < NUM_LAYERS
        &&& forall|j: int|
            0 <= j < groups.len() ==> ((#[trigger] groups[j]).layer matches Some(g) ==> {
                &&& g.elem_i < self.binner.elems@.len()
                &&& g.layer == layered_count(groups.take(j + 1))
            })
        &&& forall|b: int|
            0 <= b < bins.len() ==> (#[trigger] bins[b]).max_layered_group_i as int <= top_of(groups)
        &&& forall|b: int| 0 <= b < bins.len() && b != skip ==> #[trigger] self.max_ok(b)
        &&& forall|b: int, j: int|
            0 <= b < bins.len() && 0 <= j < groups.len() && (#[trigger] groups[j]).layer is Some && (
            #[trigger] bins[b]).max_layered_group_i > j ==> gb[j]@.contains(b as u32)
        &&& forall|j: int, k: int|
            0 <= j < groups.len() && 0 <= k < gb[j]@.len() ==> {
                let x = (#[trigger] gb[j]@[k]) as int;
                &&& x < bins.len()
                &&& groups[j].layer is Some
                &&& bins[x].max_layered_group_i > j
            }
        &&& forall|b: int| 0 <= b < bins.len() ==> #[trigger] self.has_comp_frags(b)
    }

    /// The compositing fragment of the layered group `g`.
    pub open spec fn comp_frag(g: GrLayer) -> (u32, u8) {
        (g.elem_i, (g.layer - 1) as u8)
    }

    /// For each layered group below its counter, the bin `b` has that
    /// group's compositing fragment.
    pub closed spec fn has_comp_frags(&self, b: int) -> bool {
        forall|j: int|
            0 <= j < self.binner.bins@[b].max_layered_group_i && (#[trigger] self.groups@[j]).layer is Some
                ==> self.binner.bin_list(b).contains(Self::comp_frag(self.groups@[j].layer.unwrap()))
    }

    /// Finish building.
    pub fn finish(self) -> (r: Binner<TBmp>)
        requires
            self.wf(),
            self.groups_view().len() == 0,
        ensures
            r.wf(),
            r == *self.binner_view(),
    {
        self.binner
    }
}

impl<TBmp> Binner<TBmp> {
    /// Initialize the storage to accomodate the specified render target size,
    /// and start filling bins.
    pub fn build(self, size: [usize; 2]) -> (r: BinnerBuilder<TBmp>)
        requires
            self.wf(),
            size[0] <= 0xffff,
            size[1] <= 0xffff,
        ensures
            r.wf(),
            r.binner_view().target_size_spec() == size,
            r.binner_view().bin_count_spec() == [
                bins_along(size[0] as int) as usize,
                bins_along(size[1] as int) as usize,
            ],
            r.binner_view().elems_view().len() == 0,
            r.binner_view().num_bins() == bins_along(size[0] as int) * bins_along(size[1] as int),
            r.binner_view().num_frags() == 0,
            forall|b: int| 0 <= b < r.binner_view().num_bins() ==> #[trigger] r.binner_view().bin_list(b).len() == 0,
            forall|b: int| 0 <= b < r.binner_view().num_bins() ==> #[trigger] r.max_layered(b) == 0,
            r.groups_view().len() == 0,
            r.layer_spec() == 0,
            r.scissor_spec() == Some(Box2U16 { min: [0, 0], max: [size[0] as u16, size[1] as u16] }),
    {
        let mut this = self;
        this.frags.clear();
        this.elems.clear();
        this.bins.clear();
        this.group_bins.clear();
        this.target_size = size;
        this.bin_count = [(size[0] + TILE - 1) / TILE, (size[1] + TILE - 1) / TILE];
        proof {
            assert(this.bin_count[0] * this.bin_count[1] <= 4096 * 4096) by (nonlinear_arith)
                requires
                    this.bin_count[0] <= 4096,
                    this.bin_count[1] <= 4096,
            ;
        }
        let n = this.bin_count[0] * this.bin_count[1];
        let mut i: usize = 0;
        while i < n
            invariant
                i <= n,
                n == this.bin_count[0] * this.bin_count[1],
                this.bin_count[0] == bins_along(size[0] as int),
                this.bin_count[1] == bins_along(size[1] as int),
                this.target_size == size,
                this.frags@.len() == 0,
                this.elems@.len() == 0,
                this.group_bins@.len() == 0,
                this.bins@.len() == i,
                forall|b: int|
                    0 <= b < i ==> #[trigger] this.bins@[b] == (Bin {
                        frag_first_i: NONE,
                        frag_last_i: NONE,
                        max_layered_group_i: 0,
                    }),
            decreases n - i,
        {
            this.bins.push(Bin { frag_first_i: NONE, frag_last_i: NONE, max_layered_group_i: 0 });
            i += 1;
        }
        let r = BinnerBuilder {
            binner: this,
            groups: Vec::new(),
            top_layered_group_i: 0,
            layer: 0,
            scissor: Some(Box2U16 { min: [0, 0], max: [size[0] as u16, size[1] as u16] }),
        };
        proof {
            assert(r.binner.frags@.len() == 0);
            assert(r.binner.elems@.len() == 0);
            assert forall|b: int| 0 <= b < r.binner.bins@.len() implies #[trigger] r.binner.bin_list(b).len() == 0 by {
                assert(r.binner.bins@[b].frag_first_i == NONE);
                assert(chain(r.binner.frags@, NONE) =~= Seq::empty());
            }
            assert(r.binner.wf());
            assert(r.groups@.len() == 0);
            assert(top_of(r.groups@) == 0);
            assert(layered_count(r.groups@) == 0);
        }
        r
    }
}

/// Appending a fragment keeps the lists that start at existing fragments.
proof fn lemma_chain_push(frags: Seq<Frag>, f: Frag, i: u32)
    requires
        i < frags.len() || i > frags.len(),
    ensures
        chain(frags.push(f), i) == chain(frags, i),
        chain_end(frags.push(f), i) == chain_end(frags, i),
    decreases i,
{
    if i < frags.len() {
        assert(frags.push(f)[i as int] == frags[i as int]);
        let next = frags[i as int].next_frag_i;
        if next < i {
            lemma_chain_push(frags, f, next);
        }
    }
}

/// The list that starts at a new fragment.
proof fn lemma_chain_new(frags: Seq<Frag>, f: Frag)
    requires
        frags.len() < NONE,
        f.next_frag_i == NONE || f.next_frag_i < frags.len(),
    ensures
        chain(frags.push(f), frags.len() as u32) == seq![(f.elem_i, f.layer)] + chain(frags, f.next_frag_i),
        chain_end(frags.push(f), frags.len() as u32) == if f.next_frag_i < frags.len() {
            chain_end(frags, f.next_frag_i)
        } else {
            frags.len() as u32
        },
        f.next_frag_i < frags.len() ==> chain_end(frags, f.next_frag_i) < frags.len(),
{
    let n = frags.len() as u32;
    assert(frags.push(f)[n as int] == f);
    if f.next_frag_i < n {
        lemma_chain_push(frags, f, f.next_frag_i);
        lemma_chain_end(frags, f.next_frag_i);
    } else {
        assert(chain(frags, NONE) =~= Seq::empty());
        assert(chain(frags.push(f), n) =~= seq![(f.elem_i, f.layer)]);
    }
}

/// `top_of` names the last group with a layer.
proof fn lemma_top(groups: Seq<BuilderGr>)
    ensures
        0 <= top_of(groups) <= groups.len(),
        top_of(groups) == 0 || groups[top_of(groups) - 1].layer is Some,
        forall|j: int| top_of(groups) <= j < groups.len() ==> (#[trigger] groups[j]).layer is None,
    decreases groups.len(),
{
    if groups.len() > 0 && groups.last().layer is None {
        lemma_top(groups.drop_last());
        assert forall|j: int| top_of(groups) <= j < groups.len() implies (#[trigger] groups[j]).layer is None by {
            if j < groups.len() - 1 {
                assert(groups.drop_last()[j] == groups[j]);
            }
        }
    }
}

impl<TBmp> BinnerBuilder<TBmp> {
    /// Prepare the bin `bin_i` for adding fragments to the current layer:
    /// give it the compositing fragments of the layered groups it does not
    /// have yet, innermost first.
    #[verifier::spinoff_prover]
    #[verifier::rlimit(40)]
    fn prepare_bin(&mut self, bin_i: usize)
        requires
            old(self).wf(),
            bin_i < old(self).binner_view().num_bins(),
            old(self).binner_view().num_frags() + old(self).groups_view().len() < NONE,
        ensures
            final(self).wf(),
            final(self).groups_view() == old(self).groups_view(),
            final(self).layer_spec() == old(self).layer_spec(),
            final(self).scissor_spec() == old(self).scissor_spec(),
            final(self).binner_view().elems_view() == old(self).binner_view().elems_view(),
            final(self).binner_view().target_size_spec() == old(self).binner_view().target_size_spec(),
            final(self).binner_view().bin_count_spec() == old(self).binner_view().bin_count_spec(),
            final(self).binner_view().num_bins() == old(self).binner_view().num_bins(),
            final(self).binner_view().num_frags() <= old(self).binner_view().num_frags() + old(self).groups_view().len(),
            Binner::frags_kept(old(self).binner_view(), final(self).binner_view()),
            final(self).binner_view().num_frags() == old(self).binner_view().num_frags() + comp_frags(
                old(self).groups_view(),
                old(self).max_layered(bin_i as int),
                top_of(old(self).groups_view()),
            ).len(),
            final(self).max_layered(bin_i as int) == top_of(old(self).groups_view()),
            final(self).binner_view().bin_list(bin_i as int) == comp_frags(
                old(self).groups_view(),
                old(self).max_layered(bin_i as int),
                top_of(old(self).groups_view()),
            ) + old(self).binner_view().bin_list(bin_i as int),
            forall|b: int|
                0 <= b < old(self).binner_view().num_bins() && b != bin_i ==> #[trigger] final(self).binner_view().bin_list(b) == old(self).binner_view().bin_list(b) && final(self).max_layered(b)
                    == old(self).max_layered(b),
    {
        let ghost old_self = *self;
        let ghost groups = self.groups@;
        let ghost m0 = self.binner.bins@[bin_i as int].max_layered_group_i as int;
        let ghost list0 = self.binner.bin_list(bin_i as int);
        let top = self.top_layered_group_i;
        proof {
            lemma_top(groups);
        }
        while self.binner.bins[bin_i].max_layered_group_i < top
            invariant
                self.wf_but(bin_i as int),
                self.groups@ == groups,
                self.layer == old_self.layer,
                self.scissor == old_self.scissor,
                self.binner.elems@ == old_self.binner.elems@,
                self.binner.target_size == old_self.binner.target_size,
                self.binner.bin_count == old_self.binner.bin_count,
                self.binner.bins@.len() == old_self.binner.bins@.len(),
                Binner::frags_kept(&old_self.binner, &self.binner),
                bin_i < self.binner.bins@.len(),
                top == top_of(groups),
                0 <= top_of(groups) <= groups.len(),
                top_of(groups) == 0 || groups[top_of(groups) - 1].layer is Some,
                m0 == old_self.binner.bins@[bin_i as int].max_layered_group_i,
                m0 <= self.binner.bins@[bin_i as int].max_layered_group_i <= top,
                self.binner.frags@.len() <= old_self.binner.frags@.len() + (
                self.binner.bins@[bin_i as int].max_layered_group_i - m0),
                self.binner.frags@.len() == old_self.binner.frags@.len() + comp_frags(
                    groups,
                    m0,
                    self.binner.bins@[bin_i as int].max_layered_group_i as int,
                ).len(),
                old_self.binner.frags@.len() + groups.len() < NONE,
                self.binner.bin_list(bin_i as int) == comp_frags(
                    groups,
                    m0,
                    self.binner.bins@[bin_i as int].max_layered_group_i as int,
                ) + list0,
                forall|b: int|
                    0 <= b < self.binner.bins@.len() && b != bin_i ==> #[trigger] self.binner.bin_list(b)
                        == old_self.binner.bin_list(b),
                forall|b: int|
                    0 <= b < self.binner.bins@.len() && b != bin_i ==> (#[trigger] self.binner.bins@[b]).max_layered_group_i
                        == old_self.binner.bins@[b].max_layered_group_i,
            decreases top - self.binner.bins@[bin_i as int].max_layered_group_i,
        {
            let mut bin = self.binner.bins[bin_i];
            let group_i = bin.max_layered_group_i as usize;
            let group = self.groups[group_i];
            let ghost before = *self;
            if let Some(gr_layer) = group.layer {
                // Found a layered group. Emit a compositing fragment
                proof {
                    assert(groups[group_i as int] == group);
                    lemma_layer_bounds(groups, group_i as int);
                }
                let frag_i = self.binner.frags.len() as u32;
                let dst_layer = gr_layer.layer - 1;
                let f = Frag { elem_i: gr_layer.elem_i, next_frag_i: bin.frag_first_i, layer: dst_layer };
                self.binner.frags.push(f);
                // Link the new fragment to the front of the fragment list
                bin.frag_first_i = frag_i;
                if bin.frag_last_i == NONE {
                    bin.frag_last_i = frag_i;
                }
                self.binner.group_bins[group_i].push(bin_i as u32);
                proof {
                    lemma_chain_new(before.binner.frags@, f);
                    assert forall|b: int| 0 <= b < self.binner.bins@.len() implies #[trigger] chain(
                        self.binner.frags@,
                        self.binner.bins@[b].frag_first_i,
                    ) == chain(before.binner.frags@, self.binner.bins@[b].frag_first_i) by {
                        let fi = self.binner.bins@[b].frag_first_i;
                        assert(fi == NONE || fi < before.binner.frags@.len());
                        lemma_chain_push(before.binner.frags@, f, fi);
                    }
                }
            }
            bin.max_layered_group_i = bin.max_layered_group_i + 1;
            self.binner.bins.set(bin_i, bin);
            proof {
                let g = self.binner.group_bins@;
                let g0 = before.binner.group_bins@;
                let bins = self.binner.bins@;
                let bins0 = before.binner.bins@;
                let old_max = bins0[bin_i as int].max_layered_group_i as int;
                assert(bins == bins0.update(bin_i as int, bin));
                assert(bin.max_layered_group_i == old_max + 1);
                assert(g.len() == g0.len());
                if group.layer is Some {
                    assert(g[group_i as int]@ == g0[group_i as int]@.push(bin_i as u32));
                    assert forall|j: int| 0 <= j < g.len() && j != group_i implies #[trigger] g[j] == g0[j] by {}
                } else {
                    assert(g == g0);
                }
                assert forall|b: int, j: int|
                    0 <= b < bins.len() && 0 <= j < groups.len() && (#[trigger] groups[j]).layer is Some && (
                    #[trigger] bins[b]).max_layered_group_i > j implies g[j]@.contains(b as u32) by {
                    if b == bin_i && j == old_max {
                        assert(g[j]@.last() == bin_i as u32);
                        assert(g[j]@[g[j]@.len() - 1] == bin_i as u32);
                    } else {
                        assert(bins0[b].max_layered_group_i > j);
                        assert(g0[j]@.contains(b as u32));
                        let k = choose|k: int| 0 <= k < g0[j]@.len() && g0[j]@[k] == b as u32;
                        assert(g[j]@[k] == b as u32);
                    }
                }
                assert forall|j: int, k: int| 0 <= j < groups.len() && 0 <= k < g[j]@.len() implies {
                    let x = (#[trigger] g[j]@[k]) as int;
                    &&& x < bins.len()
                    &&& groups[j].layer is Some
                    &&& bins[x].max_layered_group_i > j
                } by {
                    if group.layer is Some && j == old_max && k == g0[j]@.len() {
                        assert(g[j]@[k] == bin_i as u32);
                    } else {
                        assert(g[j]@[k] == g0[j]@[k]);
                        let x = g0[j]@[k] as int;
                        assert(bins0[x].max_layered_group_i > j);
                    }
                }
                assert forall|b: int| 0 <= b < bins.len() implies {
                    let bn = #[trigger] bins[b];
                    &&& (bn.frag_first_i == NONE || bn.frag_first_i < self.binner.frags@.len())
                    &&& (bn.frag_first_i == NONE <==> bn.frag_last_i == NONE)
                    &&& (bn.frag_last_i == NONE || bn.frag_last_i < self.binner.frags@.len())
                    &&& bn.frag_last_i == chain_end(self.binner.frags@, bn.frag_first_i)
                } by {
                    assert(bins0[b].frag_last_i == chain_end(before.binner.frags@, bins0[b].frag_first_i));
                    if group.layer is None {
                        assert(self.binner.frags@ == before.binner.frags@);
                    } else {
                        let gl = group.layer.unwrap();
                        let f = Frag {
                            elem_i: gl.elem_i,
                            next_frag_i: bins0[bin_i as int].frag_first_i,
                            layer: (gl.layer - 1) as u8,
                        };
                        assert(self.binner.frags@ == before.binner.frags@.push(f));
                        lemma_chain_new(before.binner.frags@, f);
                        lemma_chain_push(before.binner.frags@, f, bins0[b].frag_first_i);
                    }
                    if b != bin_i {
                        assert(bins[b] == bins0[b]);
                    }
                }
                assert forall|i: int| 0 <= i < old_self.binner.num_frags() implies #[trigger] self.binner.frag_pair(i)
                    == old_self.binner.frag_pair(i) by {
                    assert(before.binner.frag_pair(i) == old_self.binner.frag_pair(i));
                    assert(self.binner.frags@[i] == before.binner.frags@[i]);
                }
                assert forall|f: int| 0 <= f < self.binner.frags@.len() implies {
                    let fr = #[trigger] self.binner.frags@[f];
                    &&& (fr.next_frag_i == NONE || fr.next_frag_i < f)
                    &&& fr.elem_i < self.binner.elems@.len()
                    &&& fr.layer < NUM_LAYERS
                } by {
                    if f < before.binner.frags@.len() {
                        assert(self.binner.frags@[f] == before.binner.frags@[f]);
                    }
                }
                assert forall|b: int| 0 <= b < bins.len() && b != bin_i implies (#[trigger] bins[b]).max_layered_group_i
                    == old_self.binner.bins@[b].max_layered_group_i by {
                    assert(bins0[b].max_layered_group_i == old_self.binner.bins@[b].max_layered_group_i);
                    assert(bins[b] == bins0[b]);
                }
                assert forall|b: int| 0 <= b < bins.len() && b != bin_i implies #[trigger] self.binner.bin_list(b)
                    == old_self.binner.bin_list(b) && self.binner.bin_list(b) == before.binner.bin_list(b) by {
                    assert(before.binner.bin_list(b) == old_self.binner.bin_list(b));
                    assert(bins[b] == bins0[b]);
                    if group.layer is Some {
                        let fi = bins0[b].frag_first_i;
                        assert(fi == NONE || fi < before.binner.frags@.len());
                        assert(self.binner.frags@ == before.binner.frags@.push(
                            self.binner.frags@[before.binner.frags@.len() as int],
                        ));
                        lemma_chain_push(
                            before.binner.frags@,
                            self.binner.frags@[before.binner.frags@.len() as int],
                            fi,
                        );
                    }
                }
                assert forall|b: int| 0 <= b < bins.len() implies (#[trigger] bins[b]).max_layered_group_i as int
                    <= top_of(groups) by {
                    if b != bin_i {
                        assert(bins[b] == bins0[b]);
                    }
                }
                assert forall|b: int| 0 <= b < bins.len() && b != bin_i implies #[trigger] self.max_ok(b) by {
                    assert(bins[b] == bins0[b]);
                    assert(before.max_ok(b));
                }
                assert(old_max < top);
                assert(comp_frags(groups, m0, old_max + 1).len() == comp_frags(groups, m0, old_max).len() + if group.layer is Some {
                    1int
                } else {
                    0int
                });
                assert(before.binner.frags@.len() <= old_self.binner.frags@.len() + (old_max - m0));
                assert(self.binner.frags@.len() <= before.binner.frags@.len() + 1);
                assert(top <= groups.len());
                assert(m0 >= 0);
                assert(old_self.binner.frags@.len() + groups.len() < NONE);
                assert(self.binner.frags@.len() < NONE);
                assert(self.binner.elems@.len() < NONE);
                assert(self.binner.bins@.len() <= 0x100_0000);
                assert(self.binner.bins@.len() == self.binner.bin_count[0] * self.binner.bin_count[1]);
                assert forall|b: int| 0 <= b < bins.len() implies #[trigger] self.has_comp_frags(b) by {
                    assert(before.has_comp_frags(b));
                    if b == bin_i {
                        let l_old = before.binner.bin_list(b);
                        assert(l_old == comp_frags(groups, m0, old_max) + list0);
                        assert(self.binner.bin_list(b) == comp_frags(groups, m0, old_max + 1) + list0);
                        if group.layer is Some {
                            let cn = Self::comp_frag(group.layer.unwrap());
                            assert(comp_frags(groups, m0, old_max + 1) == seq![cn] + comp_frags(groups, m0, old_max));
                            assert(self.binner.bin_list(b) =~= seq![cn] + l_old);
                        } else {
                            assert(self.binner.bin_list(b) == l_old);
                        }
                        assert forall|j: int|
                            0 <= j < bins[b].max_layered_group_i && (#[trigger] groups[j]).layer is Some implies self.binner.bin_list(
                            b,
                        ).contains(Self::comp_frag(groups[j].layer.unwrap())) by {
                            let c = Self::comp_frag(groups[j].layer.unwrap());
                            if j < old_max {
                                assert(l_old.contains(c));
                                if group.layer is Some {
                                    lemma_contains_prepend(Self::comp_frag(group.layer.unwrap()), l_old, c);
                                }
                            } else {
                                assert(j == old_max);
                                assert(groups[j] == group);
                                lemma_contains_prepend(c, l_old, c);
                            }
                        }
                    } else {
                        assert(self.binner.bin_list(b) == before.binner.bin_list(b));
                        assert(bins[b] == bins0[b]);
                    }
                }
                assert(self.binner.wf());
            }
        }
    }
}

impl<TBmp> BinnerBuilder<TBmp> {
    /// Link a new fragment of the element `elem_i` on the current layer to the
    /// front of the fragment list of the bin `bin_i`.
    fn push_frag(&mut self, bin_i: usize, elem_i: u32)
        requires
            old(self).wf(),
            bin_i < old(self).binner_view().num_bins(),
            elem_i < old(self).binner_view().elems_view().len(),
            old(self).binner_view().num_frags() + 1 < NONE,
        ensures
            final(self).wf(),
            final(self).groups_view() == old(self).groups_view(),
            final(self).layer_spec() == old(self).layer_spec(),
            final(self).scissor_spec() == old(self).scissor_spec(),
            final(self).binner_view().elems_view() == old(self).binner_view().elems_view(),
            final(self).binner_view().target_size_spec() == old(self).binner_view().target_size_spec(),
            final(self).binner_view().bin_count_spec() == old(self).binner_view().bin_count_spec(),
            final(self).binner_view().num_bins() == old(self).binner_view().num_bins(),
            final(self).binner_view().num_frags() == old(self).binner_view().num_frags() + 1,
            Binner::frags_kept(old(self).binner_view(), final(self).binner_view()),
            final(self).binner_view().bin_list(bin_i as int) == seq![(elem_i, old(self).layer_spec())]
                + old(self).binner_view().bin_list(bin_i as int),
            forall|b: int|
                0 <= b < old(self).binner_view().num_bins() ==> final(self).max_layered(b) == old(self).max_layered(b),
            forall|b: int|
                0 <= b < old(self).binner_view().num_bins() && b != bin_i ==> #[trigger] final(self).binner_view().bin_list(b) == old(self).binner_view().bin_list(b),
    {
        let ghost before = *self;
        let frag_i = self.binner.frags.len() as u32;
        let mut bin = self.binner.bins[bin_i];
        proof {
            assert(before.binner.bins@[bin_i as int] == bin);
        }
        let f = Frag { elem_i, next_frag_i: bin.frag_first_i, layer: self.layer };
        self.binner.frags.push(f);
        // Link the new fragment to the front of the fragment list
        bin.frag_first_i = frag_i;
        if bin.frag_last_i == NONE {
            bin.frag_last_i = frag_i;
        }
        self.binner.bins.set(bin_i, bin);
        proof {
            let bins = self.binner.bins@;
            let bins0 = before.binner.bins@;
            let frags0 = before.binner.frags@;
            assert(bins == bins0.update(bin_i as int, bin));
            assert(self.binner.frags@ == frags0.push(f));
            lemma_chain_new(frags0, f);
            assert forall|b: int| 0 <= b < bins.len() && b != bin_i implies #[trigger] self.binner.bin_list(b)
                == before.binner.bin_list(b) by {
                assert(bins[b] == bins0[b]);
                let fi = bins0[b].frag_first_i;
                assert(fi == NONE || fi < frags0.len());
                lemma_chain_push(frags0, f, fi);
            }
            assert forall|b: int| 0 <= b < bins.len() implies {
                let bn = #[trigger] bins[b];
                &&& (bn.frag_first_i == NONE || bn.frag_first_i < self.binner.frags@.len())
                &&& (bn.frag_first_i == NONE <==> bn.frag_last_i == NONE)
                &&& (bn.frag_last_i == NONE || bn.frag_last_i < self.binner.frags@.len())
                &&& bn.frag_last_i == chain_end(self.binner.frags@, bn.frag_first_i)
            } by {
                if b != bin_i {
                    assert(bins[b] == bins0[b]);
                    let fi = bins0[b].frag_first_i;
                    assert(fi == NONE || fi < frags0.len());
                    lemma_chain_push(frags0, f, fi);
                } else {
                    assert(bins0[b].frag_last_i == chain_end(frags0, bins0[b].frag_first_i));
                }
            }
            assert forall|f2: int| 0 <= f2 < self.binner.frags@.len() implies {
                let fr = #[trigger] self.binner.frags@[f2];
                &&& (fr.next_frag_i == NONE || fr.next_frag_i < f2)
                &&& fr.elem_i < self.binner.elems@.len()
                &&& fr.layer < NUM_LAYERS
            } by {
                if f2 < frags0.len() {
                    assert(self.binner.frags@[f2] == frags0[f2]);
                }
            }
            assert forall|b: int| 0 <= b < bins.len() implies #[trigger] self.has_comp_frags(b) by {
                assert(before.has_comp_frags(b));
                if b == bin_i {
                    assert forall|j: int|
                        0 <= j < bins[b].max_layered_group_i && (#[trigger] self.groups@[j]).layer is Some implies self.binner.bin_list(
                        b,
                    ).contains(Self::comp_frag(self.groups@[j].layer.unwrap())) by {
                        let c = Self::comp_frag(self.groups@[j].layer.unwrap());
                        lemma_contains_prepend((elem_i, self.layer), before.binner.bin_list(b), c);
                    }
                } else {
                    assert(bins[b] == bins0[b]);
                }
            }
            assert(self.binner.wf());
            assert forall|b: int| 0 <= b < bins.len() implies (#[trigger] bins[b]).max_layered_group_i
                == bins0[b].max_layered_group_i by {}
            assert forall|b: int| 0 <= b < bins.len() implies #[trigger] self.max_ok(b) by {
                assert(before.max_ok(b));
            }
            assert forall|b: int, j: int|
                0 <= b < bins.len() && 0 <= j < self.groups@.len() && (#[trigger] self.groups@[j]).layer is Some && (
                #[trigger] bins[b]).max_layered_group_i > j implies self.binner.group_bins@[j]@.contains(b as u32) by {
                assert(bins0[b].max_layered_group_i > j);
            }
            assert forall|j: int, k: int|
                0 <= j < self.groups@.len() && 0 <= k < self.binner.group_bins@[j]@.len() implies {
                let x = (#[trigger] self.binner.group_bins@[j]@[k]) as int;
                &&& x < bins.len()
                &&& self.groups@[j].layer is Some
                &&& bins[x].max_layered_group_i > j
            } by {
                let x = self.binner.group_bins@[j]@[k] as int;
                assert(bins0[x].max_layered_group_i > j);
            }
        }
    }
}

/// The bin `b` (in a row-major grid `bc0` bins wide) is one of the bins that
/// the scissor rectangle `sci` touches.
pub open spec fn in_bins(sci: Box2U16, bc0: int, b: int) -> bool {
    let bx = b % bc0;
    let by = b / bc0;
    &&& sci.min[0] / 16 <= bx < (sci.max[0] + 15) / 16
    &&& sci.min[1] / 16 <= by < (sci.max[1] + 15) / 16
}

/// `f(0) + f(1) + ... + f(n - 1)`.
pub open spec fn bins_sum(n: int, f: spec_fn(int) -> int) -> int
    decreases n,
{
    if n <= 0 {
        0
    } else {
        bins_sum(n - 1, f) + f(n - 1)
    }
}

/// A sum of zeros is zero.
proof fn lemma_bins_sum_zero(n: int, f: spec_fn(int) -> int)
    requires
        forall|b: int| 0 <= b < n ==> #[trigger] f(b) == 0,
    ensures
        bins_sum(n, f) == 0,
    decreases n,
{
    if n > 0 {
        lemma_bins_sum_zero(n - 1, f);
    }
}

/// Sums of functions that agree below `n` agree.
proof fn lemma_bins_sum_ext(n: int, f: spec_fn(int) -> int, g: spec_fn(int) -> int)
    requires
        forall|b: int| 0 <= b < n ==> #[trigger] f(b) == g(b),
    ensures
        bins_sum(n, f) == bins_sum(n, g),
    decreases n,
{
    if n > 0 {
        lemma_bins_sum_ext(n - 1, f, g);
    }
}

/// Changing one term from zero to `g(k)` adds `g(k)` to the sum.
proof fn lemma_bins_sum_flip(n: int, f: spec_fn(int) -> int, g: spec_fn(int) -> int, k: int)
    requires
        0 <= k < n,
        f(k) == 0,
        forall|b: int| 0 <= b < n && b != k ==> #[trigger] f(b) == g(b),
    ensures
        bins_sum(n, g) == bins_sum(n, f) + g(k),
    decreases n,
{
    if n - 1 == k {
        lemma_bins_sum_ext(n - 1, f, g);
    } else {
        lemma_bins_sum_flip(n - 1, f, g, k);
    }
}

/// The fragment list of a bin after inserting the element `elem_i` on the
/// layer `layer` into it: its missing compositing fragments, then the new
/// fragment, in front of what it had.
pub open spec fn inserted_list(
    groups: Seq<BuilderGr>,
    max: int,
    list: Seq<(u32, u8)>,
    elem_i: u32,
    layer: u8,
) -> Seq<(u32, u8)> {
    seq![(elem_i, layer)] + comp_frags(groups, max, top_of(groups)) + list
}

impl<TBmp> BinnerBuilder<TBmp> {
    /// The number of fragments that inserting an element with the scissor
    /// `sci` adds to the bin `b`: its missing compositing fragments and one
    /// fragment of the element, if the scissor touches the bin.
    pub open spec fn frag_gain(&self, sci: Box2U16, b: int) -> int {
        if in_bins(sci, self.binner_view().bin_count_spec()[0] as int, b) {
            1 + comp_frags(self.groups_view(), self.max_layered(b), top_of(self.groups_view())).len() as int
        } else {
            0
        }
    }

    /// No bin of the column `x` above the row `y0 = sci.min[1] / 16` gains a
    /// fragment, so counting them changes no sum.
    proof fn lemma_sum_column_start(s0: &Self, sci: Box2U16, n: int, bc: int, x: int, y0: int)
        requires
            bc == s0.binner_view().bin_count_spec()[0],
            y0 == sci.min[1] / 16,
        ensures
            bins_sum(
                n,
                |b: int|
                    if b % bc < x {
                        s0.frag_gain(sci, b)
                    } else {
                        0int
                    },
            ) == bins_sum(
                n,
                |b: int|
                    if b % bc < x || (b % bc == x && b / bc < y0) {
                        s0.frag_gain(sci, b)
                    } else {
                        0int
                    },
            ),
    {
        let f1 = |b: int|
            if b % bc < x {
                s0.frag_gain(sci, b)
            } else {
                0int
            };
        let f2 = |b: int|
            if b % bc < x || (b % bc == x && b / bc < y0) {
                s0.frag_gain(sci, b)
            } else {
                0int
            };
        assert forall|b: int| 0 <= b < n implies #[trigger] f1(b) == f2(b) by {}
        lemma_bins_sum_ext(n, f1, f2);
    }

    /// Once every column that the scissor touches is counted, the sum is
    /// that of all the gains.
    proof fn lemma_sum_all_columns(s0: &Self, sci: Box2U16, n: int, bc: int, x: int)
        requires
            bc == s0.binner_view().bin_count_spec()[0],
            forall|b: int| 0 <= b < n && #[trigger] in_bins(sci, bc, b) ==> b % bc < x,
        ensures
            bins_sum(
                n,
                |b: int|
                    if b % bc < x {
                        s0.frag_gain(sci, b)
                    } else {
                        0int
                    },
            ) == bins_sum(n, |b: int| s0.frag_gain(sci, b)),
    {
        let f1 = |b: int|
            if b % bc < x {
                s0.frag_gain(sci, b)
            } else {
                0int
            };
        let f2 = |b: int| s0.frag_gain(sci, b);
        assert forall|b: int| 0 <= b < n implies #[trigger] f1(b) == f2(b) by {
            if b % bc >= x {
                assert(!in_bins(sci, bc, b));
            }
        }
        lemma_bins_sum_ext(n, f1, f2);
    }

    /// `after` is `before` after inserting an element with the scissor `sci`:
    /// each bin that the scissor touches gets the compositing fragments it
    /// lacks and a fragment of the element in front of its list, and has
    /// all the groups' compositing fragments; the other bins are unchanged.
    pub open spec fn binned(before: &Self, after: &Self, sci: Box2U16) -> bool {
        forall|b: int|
            0 <= b < before.binner_view().num_bins() ==> {
                let touched = in_bins(sci, before.binner_view().bin_count_spec()[0] as int, b);
                &&& #[trigger] after.binner_view().bin_list(b) == if touched {
                    inserted_list(
                        before.groups_view(),
                        before.max_layered(b),
                        before.binner_view().bin_list(b),
                        before.binner_view().elems_view().len() as u32,
                        before.layer_spec(),
                    )
                } else {
                    before.binner_view().bin_list(b)
                }
                &&& after.max_layered(b) == if touched {
                    top_of(before.groups_view())
                } else {
                    before.max_layered(b)
                }
            }
    }

    /// The number of fragments that inserting an element with the scissor
    /// `sci` adds, over all bins.
    pub open spec fn total_frag_gain(&self, sci: Box2U16) -> int {
        bins_sum(self.binner_view().num_bins(), |b: int| self.frag_gain(sci, b))
    }

    /// Insert a rendered element on the current layer: each bin that its
    /// scissor rectangle touches gets the compositing fragments it lacks and
    /// then a fragment of the element.
    #[verifier::spinoff_prover]
    #[verifier::rlimit(80)]
    pub fn insert_elem(&mut self, elem: Elem<TBmp>)
        requires
            old(self).wf(),
            elem.scissor.max[0] <= old(self).binner_view().target_size_spec()[0],
            elem.scissor.max[1] <= old(self).binner_view().target_size_spec()[1],
            old(self).binner_view().elems_view().len() + 1 < NONE,
            old(self).binner_view().num_frags() + old(self).binner_view().num_bins() * (
            old(self).groups_view().len() + 1) < NONE,
        ensures
            final(self).wf(),
            final(self).groups_view() == old(self).groups_view(),
            final(self).layer_spec() == old(self).layer_spec(),
            final(self).scissor_spec() == old(self).scissor_spec(),
            final(self).binner_view().elems_view() == old(self).binner_view().elems_view().push(elem),
            final(self).binner_view().target_size_spec() == old(self).binner_view().target_size_spec(),
            final(self).binner_view().bin_count_spec() == old(self).binner_view().bin_count_spec(),
            final(self).binner_view().num_bins() == old(self).binner_view().num_bins(),
            final(self).binner_view().num_frags() == old(self).binner_view().num_frags() + old(self).total_frag_gain(
                elem.scissor,
            ),
            Binner::frags_kept(old(self).binner_view(), final(self).binner_view()),
            Self::binned(old(self), final(self), elem.scissor),
    {
        let ghost s0 = *self;
        let ghost groups = self.groups@;
        let ghost n = self.binner.bins@.len() as int;
        let ghost gp1: int = groups.len() as int + 1;
        let elem_i = self.binner.elems.len() as u32;
        let sci = elem.scissor;
        self.binner.elems.push(elem);
        let bc0 = self.binner.bin_count[0];
        let bc1 = self.binner.bin_count[1];
        let x0 = sci.min[0] as usize / TILE;
        let x1 = (sci.max[0] as usize + TILE - 1) / TILE;
        let y0 = sci.min[1] as usize / TILE;
        let y1 = (sci.max[1] as usize + TILE - 1) / TILE;
        let ghost bc = bc0 as int;
        let ghost ylen: int = if y0 <= y1 {
            y1 - y0
        } else {
            0
        };
        proof {
            assert forall|b: int| 0 <= b < n implies #[trigger] self.max_ok(b) by {
                assert(s0.max_ok(b));
            }
            assert forall|b: int| 0 <= b < n implies #[trigger] self.has_comp_frags(b) by {
                assert(s0.has_comp_frags(b));
                assert(self.binner.bin_list(b) == s0.binner.bin_list(b));
            }
            assert(self.binner.wf()) by {
                assert forall|f: int| 0 <= f < self.binner.frags@.len() implies {
                    let fr = #[trigger] self.binner.frags@[f];
                    &&& (fr.next_frag_i == NONE || fr.next_frag_i < f)
                    &&& fr.elem_i < self.binner.elems@.len()
                    &&& fr.layer < NUM_LAYERS
                } by {
                    assert(s0.binner.frags@[f].elem_i < s0.binner.elems@.len());
                }
            }
            assert forall|j: int| 0 <= j < groups.len() implies ((#[trigger] groups[j]).layer matches Some(g) ==> {
                &&& g.elem_i < self.binner.elems@.len()
                &&& g.layer == layered_count(groups.take(j + 1))
            }) by {}
            assert(x1 <= bc0 && y1 <= bc1);
            assert(n == bc0 * bc1);
            assert forall|b: int| 0 <= b < n implies (if b % bc < x0 {
                s0.frag_gain(sci, b)
            } else {
                0int
            }) == 0 by {}
            lemma_bins_sum_zero(
                n,
                |b: int|
                    if b % bc < x0 {
                        s0.frag_gain(sci, b)
                    } else {
                        0int
                    },
            );
        }
        let mut bin_x = x0;
        while bin_x < x1
            invariant
                self.wf(),
                self.groups@ == groups,
                s0.groups@ == groups,
                self.layer == s0.layer,
                self.scissor == s0.scissor,
                self.binner.elems@ == s0.binner.elems@.push(elem),
                Binner::frags_kept(&s0.binner, &self.binner),
                self.binner.target_size == s0.binner.target_size,
                self.binner.bin_count == s0.binner.bin_count,
                self.binner.bins@.len() == n,
                bc0 == self.binner.bin_count[0],
                bc == bc0,
                bc1 == self.binner.bin_count[1],
                n == bc0 * bc1,
                x0 == sci.min[0] / 16,
                x1 == (sci.max[0] + 15) / 16,
                y0 == sci.min[1] / 16,
                y1 == (sci.max[1] + 15) / 16,
                sci == elem.scissor,
                x1 <= bc0,
                y1 <= bc1,
                x0 <= bin_x,
                x0 <= x1 ==> bin_x <= x1,
                ylen == if y0 <= y1 {
                    y1 - y0
                } else {
                    0int
                },
                elem_i == s0.binner.elems@.len(),
                gp1 == groups.len() + 1,
                s0.binner.frags@.len() + n * gp1 < NONE,
                self.binner.frags@.len() <= s0.binner.frags@.len() + ((bin_x - x0) * ylen) * gp1,
                self.binner.frags@.len() == s0.binner.frags@.len() + bins_sum(
                    n,
                    |b: int|
                        if b % bc < bin_x {
                            s0.frag_gain(sci, b)
                        } else {
                            0int
                        },
                ),
                forall|b: int|
                    0 <= b < n ==> {
                        let done = in_bins(sci, bc, b) && b % bc < bin_x;
                        &&& #[trigger] self.binner.bin_list(b) == if done {
                            inserted_list(groups, s0.max_layered(b), s0.binner.bin_list(b), elem_i, s0.layer)
                        } else {
                            s0.binner.bin_list(b)
                        }
                        &&& self.max_layered(b) == if done {
                            top_of(groups)
                        } else {
                            s0.max_layered(b)
                        }
                    },
            decreases x1 - bin_x,
        {
            let mut bin_y = y0;
            proof {
                Self::lemma_sum_column_start(&s0, sci, n, bc, bin_x as int, y0 as int);
                assert forall|b: int| 0 <= b < n implies {
                    let done = in_bins(sci, bc, b) && (b % bc < bin_x || (b % bc == bin_x && b / bc < bin_y));
                    &&& #[trigger] self.binner.bin_list(b) == if done {
                        inserted_list(groups, s0.max_layered(b), s0.binner.bin_list(b), elem_i, s0.layer)
                    } else {
                        s0.binner.bin_list(b)
                    }
                    &&& self.max_layered(b) == if done {
                        top_of(groups)
                    } else {
                        s0.max_layered(b)
                    }
                } by {
                    assert(self.binner.bin_list(b) == self.binner.bin_list(b));
                    assert((in_bins(sci, bc, b) && (b % bc < bin_x || (b % bc == bin_x && b / bc < bin_y))) == (
                    in_bins(sci, bc, b) && b % bc < bin_x));
                }
            }
            while bin_y < y1
                invariant
                    self.wf(),
                    self.groups@ == groups,
                    s0.groups@ == groups,
                    self.layer == s0.layer,
                    self.scissor == s0.scissor,
                    self.binner.elems@ == s0.binner.elems@.push(elem),
                    Binner::frags_kept(&s0.binner, &self.binner),
                    self.binner.target_size == s0.binner.target_size,
                    self.binner.bin_count == s0.binner.bin_count,
                    self.binner.bins@.len() == n,
                    bc0 == self.binner.bin_count[0],
                    bc == bc0,
                    bc1 == self.binner.bin_count[1],
                    n == bc0 * bc1,
                    x0 == sci.min[0] / 16,
                    x1 == (sci.max[0] + 15) / 16,
                    y0 == sci.min[1] / 16,
                    y1 == (sci.max[1] + 15) / 16,
                    sci == elem.scissor,
                    x1 <= bc0,
                    y1 <= bc1,
                    x0 <= bin_x < x1,
                    y0 <= bin_y,
                    y0 <= y1 ==> bin_y <= y1,
                    y0 > y1 ==> bin_y == y0,
                    ylen == if y0 <= y1 {
                        y1 - y0
                    } else {
                        0int
                    },
                    elem_i == s0.binner.elems@.len(),
                    gp1 == groups.len() + 1,
                    s0.binner.frags@.len() + n * gp1 < NONE,
                    self.binner.frags@.len() <= s0.binner.frags@.len() + ((bin_x - x0) * ylen + (bin_y - y0))
                        * gp1,
                    self.binner.frags@.len() == s0.binner.frags@.len() + bins_sum(
                        n,
                        |b: int|
                            if b % bc < bin_x || (b % bc == bin_x && b / bc < bin_y) {
                                s0.frag_gain(sci, b)
                            } else {
                                0int
                            },
                    ),
                    forall|b: int|
                        0 <= b < n ==> {
                            let done = in_bins(sci, bc, b) && (b % bc < bin_x || (b % bc == bin_x && b / bc
                                < bin_y));
                            &&& #[trigger] self.binner.bin_list(b) == if done {
                                inserted_list(groups, s0.max_layered(b), s0.binner.bin_list(b), elem_i, s0.layer)
                            } else {
                                s0.binner.bin_list(b)
                            }
                            &&& self.max_layered(b) == if done {
                                top_of(groups)
                            } else {
                                s0.max_layered(b)
                            }
                        },
                decreases y1 - bin_y,
            {
                proof {
                    lemma_cell_bound(bin_x as int, bin_y as int, bc0 as int, bc1 as int);
                    lemma_count_bound(
                        bin_x as int,
                        bin_y as int,
                        x0 as int,
                        x1 as int,
                        y0 as int,
                        y1 as int,
                        bc0 as int,
                        bc1 as int,
                        gp1,
                    );
                }
                let bin_i = bin_x + bin_y * bc0;
                let ghost before = *self;
                let ghost cnt = (bin_x - x0) * ylen + (bin_y - y0);
                proof {
                    assert(ylen == y1 - y0);
                    assert(cnt * gp1 + gp1 <= n * gp1);
                    assert(before.binner.frags@.len() + gp1 < NONE);
                    assert((cnt + 1) * gp1 == cnt * gp1 + gp1) by (nonlinear_arith);
                }
                proof {
                    vstd::arithmetic::div_mod::lemma_fundamental_div_mod_converse(
                        bin_i as int,
                        bc,
                        bin_y as int,
                        bin_x as int,
                    );
                    assert(!(bin_x < bin_x || (bin_x == bin_x && bin_y < bin_y)));
                    assert(before.binner.bin_list(bin_i as int) == s0.binner.bin_list(bin_i as int));
                    assert(before.max_layered(bin_i as int) == s0.max_layered(bin_i as int));
                }
                self.prepare_bin(bin_i);
                self.push_frag(bin_i, elem_i);
                proof {
                    assert(in_bins(sci, bc, bin_i as int));
                    assert forall|b: int| 0 <= b < n implies {
                        let done = in_bins(sci, bc, b) && (b % bc < bin_x || (b % bc == bin_x && b / bc
                            < bin_y + 1));
                        &&& #[trigger] self.binner.bin_list(b) == if done {
                            inserted_list(groups, s0.max_layered(b), s0.binner.bin_list(b), elem_i, s0.layer)
                        } else {
                            s0.binner.bin_list(b)
                        }
                        &&& self.max_layered(b) == if done {
                            top_of(groups)
                        } else {
                            s0.max_layered(b)
                        }
                    } by {
                        if b == bin_i {
                            assert(self.binner.bin_list(b) == inserted_list(
                                groups,
                                s0.max_layered(b),
                                s0.binner.bin_list(b),
                                elem_i,
                                s0.layer,
                            ));
                        } else {
                            assert(self.binner.bin_list(b) == before.binner.bin_list(b));
                            assert(self.max_layered(b) == before.max_layered(b));
                            if b % bc == bin_x && b / bc == bin_y {
                                vstd::arithmetic::div_mod::lemma_fundamental_div_mod(b, bc);
                                assert(b == bin_x + bin_y * bc) by (nonlinear_arith)
                                    requires
                                        b == bc * (b / bc) + b % bc,
                                        b % bc == bin_x,
                                        b / bc == bin_y,
                                ;
                                assert(b == bin_i);
                            }
                        }
                    }
                    let f = |b: int|
                        if b % bc < bin_x || (b % bc == bin_x && b / bc < bin_y) {
                            s0.frag_gain(sci, b)
                        } else {
                            0int
                        };
                    let g = |b: int|
                        if b % bc < bin_x || (b % bc == bin_x && b / bc < bin_y + 1) {
                            s0.frag_gain(sci, b)
                        } else {
                            0int
                        };
                    assert forall|b: int| 0 <= b < n && b != bin_i implies #[trigger] f(b) == g(b) by {
                        if b % bc == bin_x && b / bc == bin_y {
                            vstd::arithmetic::div_mod::lemma_fundamental_div_mod(b, bc);
                            assert(b == bin_x + bin_y * bc) by (nonlinear_arith)
                                requires
                                    b == bc * (b / bc) + b % bc,
                                    b % bc == bin_x,
                                    b / bc == bin_y,
                            ;
                        }
                    }
                    assert(f(bin_i as int) == 0);
                    lemma_bins_sum_flip(n, f, g, bin_i as int);
                    assert(g(bin_i as int) == s0.frag_gain(sci, bin_i as int));
                    assert(s0.groups_view() == groups);
                    assert(in_bins(sci, s0.binner_view().bin_count_spec()[0] as int, bin_i as int));
                    assert(s0.frag_gain(sci, bin_i as int) == 1 + comp_frags(
                        groups,
                        s0.max_layered(bin_i as int),
                        top_of(groups),
                    ).len());
                    assert(self.binner.frags@.len() == before.binner.frags@.len() + comp_frags(
                        groups,
                        s0.max_layered(bin_i as int),
                        top_of(groups),
                    ).len() + 1);
                    assert(before.binner.frags@.len() == s0.binner.frags@.len() + bins_sum(n, f));
                    assert(self.binner.frags@.len() == s0.binner.frags@.len() + bins_sum(n, g));
                }
                bin_y += 1;
            }
            proof {
                assert forall|b: int| 0 <= b < n implies {
                    let done = in_bins(sci, bc, b) && b % bc < bin_x + 1;
                    &&& #[trigger] self.binner.bin_list(b) == if done {
                        inserted_list(groups, s0.max_layered(b), s0.binner.bin_list(b), elem_i, s0.layer)
                    } else {
                        s0.binner.bin_list(b)
                    }
                    &&& self.max_layered(b) == if done {
                        top_of(groups)
                    } else {
                        s0.max_layered(b)
                    }
                } by {
                    assert(self.binner.bin_list(b) == self.binner.bin_list(b));
                    assert((in_bins(sci, bc, b) && b % bc < bin_x + 1) == (in_bins(sci, bc, b) && (b % bc < bin_x
                        || (b % bc == bin_x && b / bc < bin_y))));
                }
                assert(bin_y - y0 == ylen);
                assert((bin_x - x0) * ylen + ylen == (bin_x + 1 - x0) * ylen) by (nonlinear_arith);
                assert forall|b: int| 0 <= b < n implies #[trigger] s0.frag_gain(sci, b) == 0 || (
                b % bc != bin_x || b / bc < bin_y) by {}
                lemma_bins_sum_ext(
                    n,
                    |b: int|
                        if b % bc < bin_x || (b % bc == bin_x && b / bc < bin_y) {
                            s0.frag_gain(sci, b)
                        } else {
                            0int
                        },
                    |b: int|
                        if b % bc < bin_x + 1 {
                            s0.frag_gain(sci, b)
                        } else {
                            0int
                        },
                );
                if y0 > y1 {
                    assert((bin_x - x0) * ylen == 0 && (bin_x + 1 - x0) * ylen == 0) by (nonlinear_arith)
                        requires
                            ylen == 0,
                    ;
                }
            }
            bin_x += 1;
        }
        proof {
            assert forall|b: int| 0 <= b < n implies (in_bins(sci, bc, b) && b % bc < bin_x) == in_bins(
                sci,
                bc,
                b,
            ) by {}
            Self::lemma_sum_all_columns(&s0, sci, n, bc, bin_x as int);
            assert(s0.total_frag_gain(sci) == bins_sum(n, |b: int| s0.frag_gain(sci, b)));
            assert forall|b: int| 0 <= b < s0.binner_view().num_bins() implies {
                let touched = in_bins(elem.scissor, s0.binner_view().bin_count_spec()[0] as int, b);
                &&& #[trigger] self.binner_view().bin_list(b) == if touched {
                    inserted_list(
                        s0.groups_view(),
                        s0.max_layered(b),
                        s0.binner_view().bin_list(b),
                        s0.binner_view().elems_view().len() as u32,
                        s0.layer_spec(),
                    )
                } else {
                    s0.binner_view().bin_list(b)
                }
                &&& self.max_layered(b) == if touched {
                    top_of(s0.groups_view())
                } else {
                    s0.max_layered(b)
                }
            } by {
                assert(self.binner.bin_list(b) == self.binner_view().bin_list(b));
            }
            assert(Self::binned(&s0, self, sci));
        }
    }
}

/// The bin at column `x` and row `y` of a `w` × `h` grid lies in the grid.
proof fn lemma_cell_bound(x: int, y: int, w: int, h: int)
    requires
        0 <= x < w,
        0 <= y < h,
    ensures
        0 <= y * w <= x + y * w < w * h,
{
    assert(0 <= y * w && x + y * w < w * h) by (nonlinear_arith)
        requires
            0 <= x < w,
            0 <= y < h,
    ;
}

/// The fragments added for the bins before the bin `(x, y)` of the range
/// `x0..x1` × `y0..y1`, plus those of that bin, stay below the bound.
proof fn lemma_count_bound(x: int, y: int, x0: int, x1: int, y0: int, y1: int, w: int, h: int, g: int)
    requires
        0 <= x0 <= x < x1 <= w,
        0 <= y0 <= y < y1 <= h,
        g >= 1,
    ensures
        ((x - x0) * (y1 - y0) + (y - y0) + 1) * g <= w * h * g,
        ((x - x0) * (y1 - y0) + (y - y0)) * g + g <= w * h * g,
{
    assert(((x - x0) * (y1 - y0) + (y - y0) + 1) <= w * h) by (nonlinear_arith)
        requires
            0 <= x0 <= x < x1 <= w,
            0 <= y0 <= y < y1 <= h,
    ;
    assert(((x - x0) * (y1 - y0) + (y - y0) + 1) * g <= w * h * g) by (nonlinear_arith)
        requires
            ((x - x0) * (y1 - y0) + (y - y0) + 1) <= w * h,
            g >= 1,
    ;
    assert(((x - x0) * (y1 - y0) + (y - y0)) * g + g == ((x - x0) * (y1 - y0) + (y - y0) + 1) * g)
        by (nonlinear_arith);
}

/// The intersection of two boxes, or `None` if it is empty.
pub open spec fn intersect_spec(a: Box2U16, b: Box2U16) -> Option<Box2U16> {
    let min0 = if a.min[0] < b.min[0] { b.min[0] } else { a.min[0] };
    let min1 = if a.min[1] < b.min[1] { b.min[1] } else { a.min[1] };
    let max0 = if a.max[0] < b.max[0] { a.max[0] } else { b.max[0] };
    let max1 = if a.max[1] < b.max[1] { a.max[1] } else { b.max[1] };
    if min0 >= max0 || min1 >= max1 {
        None
    } else {
        Some(Box2U16 { min: [min0, min1], max: [max0, max1] })
    }
}

/// The intersection of two boxes, or `None` if it is empty.
pub fn box_intersection(a: &Box2U16, b: &Box2U16) -> (r: Option<Box2U16>)
    ensures
        r == intersect_spec(*a, *b),
{
    let min0 = if a.min[0] < b.min[0] { b.min[0] } else { a.min[0] };
    let min1 = if a.min[1] < b.min[1] { b.min[1] } else { a.min[1] };
    let max0 = if a.max[0] < b.max[0] { a.max[0] } else { b.max[0] };
    let max1 = if a.max[1] < b.max[1] { a.max[1] } else { b.max[1] };
    if min0 >= max0 || min1 >= max1 {
        None
    } else {
        Some(Box2U16 { min: [min0, min1], max: [max0, max1] })
    }
}

/// The mask of a composition group: the bounding box of the mask shape
/// (`None` if it does not fit the render target's coordinates) and the clip
/// planes that describe the shape.
pub struct GroupMask {
    pub bbox: Option<Box2U16>,
    pub clip_planes: [ClipPlanes; 2],
}

/// The scissor rectangle inside a group opened with `mask` under the
/// scissor rectangle `scissor`.
pub open spec fn group_scissor(scissor: Option<Box2U16>, mask: Option<GroupMask>) -> Option<Box2U16> {
    match scissor {
        None => None,
        Some(old) => match mask {
            Some(m) => match m.bbox {
                Some(bb) => intersect_spec(bb, old),
                None => None,
            },
            None => Some(old),
        },
    }
}

/// The mask shape is not an axis-aligned box aligned to pixels, so it needs
/// clip planes.
pub open spec fn needs_clip_planes(mask: Option<GroupMask>) -> bool {
    match mask {
        Some(m) => !(aligned_to_pixel(m.clip_planes[0]) && aligned_to_pixel(m.clip_planes[1])),
        None => false,
    }
}

/// A group opened with `mask` and `opacity` (in `1 / 256` units) under the
/// scissor rectangle `scissor` gets a layer of its own.
pub open spec fn opens_layer(scissor: Option<Box2U16>, mask: Option<GroupMask>, opacity: u16) -> bool {
    group_scissor(scissor, mask) is Some && (needs_clip_planes(mask) || opacity < 256)
}

/// The element that composites the layer `layer` of a group onto its parent
/// layer.
pub open spec fn composite_elem<TBmp>(
    scissor: Option<Box2U16>,
    mask: Option<GroupMask>,
    opacity: u16,
    layer: u8,
) -> Elem<TBmp> {
    Elem {
        flags: ElemFlags(
            if needs_clip_planes(mask) {
                ELEM_CLIP_PLANES | ELEM_CLIP_PLANES_ANTIALIASED
            } else {
                0
            },
        ),
        opacity,
        content: Content::Layer(layer),
        scissor: group_scissor(scissor, mask).unwrap(),
        clip_planes: match mask {
            Some(m) => m.clip_planes,
            None => [
                ClipPlanes { n: [0, 0], d: 0..0 },
                ClipPlanes { n: [0, 0], d: 0..0 },
            ],
        },
    }
}

impl<TBmp> BinnerBuilder<TBmp> {
    /// The current layer.
    pub fn layer(&self) -> (r: u8)
        ensures
            r == self.layer_spec(),
    {
        self.layer
    }

    /// The current scissor rectangle (`None` if it is empty).
    pub fn scissor(&self) -> (r: Option<Box2U16>)
        ensures
            r == self.scissor_spec(),
    {
        self.scissor
    }

    /// The render target size.
    pub fn target_size(&self) -> (r: [usize; 2])
        ensures
            r == self.binner_view().target_size_spec(),
    {
        self.binner.target_size
    }

    /// Whether the element, fragment and group indices leave room for
    /// inserting one more element.
    pub fn has_room_for_elem(&self) -> (r: bool)
        requires
            self.wf(),
        ensures
            r == (self.binner_view().elems_view().len() + 1 < NONE && self.binner_view().num_frags()
                + self.binner_view().num_bins() * (self.groups_view().len() + 1) < NONE),
    {
        let n_bins = self.binner.bins.len() as u64;
        let n_groups = self.groups.len() as u64;
        proof {
            assert(n_bins * (n_groups + 1) <= 0x100_0000 * 0x1_0000_0000) by (nonlinear_arith)
                requires
                    n_bins <= 0x100_0000,
                    n_groups < 0xffff_ffff,
            ;
        }
        self.binner.elems.len() + 1 < NONE as usize && (self.binner.frags.len() as u64) + n_bins * (
        n_groups + 1) < NONE as u64
    }

    /// Whether the element and group indices leave room for opening one
    /// more group.
    pub fn has_room_for_group(&self) -> (r: bool)
        requires
            self.wf(),
        ensures
            r == (self.binner_view().elems_view().len() + 1 < NONE && self.groups_view().len() + 1
                < NONE),
    {
        self.binner.elems.len() + 1 < NONE as usize && self.groups.len() + 1 < NONE as usize
    }

    /// Whether a group opened with `mask` and `opacity` gets a layer.
    pub fn group_needs_layer(&self, mask: &Option<GroupMask>, opacity: u16) -> (r: bool)
        requires
            mask matches Some(m) ==> m.clip_planes[0].n[0] != i32::MIN && m.clip_planes[0].n[1] != i32::MIN
                && m.clip_planes[1].n[0] != i32::MIN && m.clip_planes[1].n[1] != i32::MIN,
        ensures
            r == opens_layer(self.scissor_spec(), *mask, opacity),
    {
        let new_scissor = self.new_group_scissor(mask);
        if new_scissor.is_none() {
            return false;
        }
        let needs_cp = match mask {
            Some(m) => !(is_clip_planes_aligned_to_pixel(&m.clip_planes[0])
                && is_clip_planes_aligned_to_pixel(&m.clip_planes[1])),
            None => false,
        };
        needs_cp || opacity < 256
    }

    fn new_group_scissor(&self, mask: &Option<GroupMask>) -> (r: Option<Box2U16>)
        ensures
            r == group_scissor(self.scissor_spec(), *mask),
    {
        match self.scissor {
            None => None,
            Some(old) => match mask {
                Some(m) => match m.bbox {
                    Some(bb) => box_intersection(&bb, &old),
                    None => None,
                },
                None => Some(old),
            },
        }
    }

    /// Open a composition group.
    ///
    /// `mask` describes the mask shape of the group; masking is not applied
    /// if it's `None`. `opacity` is the opacity of the group in `1 / 256`
    /// units, applied after all elements in the group are flattened into a
    /// single image. The group gets a layer if its mask needs clip planes or
    /// it is translucent (and its scissor rectangle is not empty).
    #[verifier::spinoff_prover]
    pub fn open_group(&mut self, mask: Option<GroupMask>, opacity: u16)
        requires
            old(self).wf(),
            mask matches Some(m) ==> m.clip_planes[0].n[0] != i32::MIN && m.clip_planes[0].n[1] != i32::MIN
                && m.clip_planes[1].n[0] != i32::MIN && m.clip_planes[1].n[1] != i32::MIN,
            opens_layer(old(self).scissor_spec(), mask, opacity) ==> old(self).layer_spec() + 1 < NUM_LAYERS,
            old(self).binner_view().elems_view().len() + 1 < NONE,
            old(self).groups_view().len() + 1 < NONE,
        ensures
            final(self).wf(),
            ({
                let opens = opens_layer(old(self).scissor_spec(), mask, opacity);
                &&& final(self).groups_view() == old(self).groups_view().push(
                    BuilderGr {
                        layer: if opens {
                            Some(
                                GrLayer {
                                    elem_i: old(self).binner_view().elems_view().len() as u32,
                                    layer: (old(self).layer_spec() + 1) as u8,
                                },
                            )
                        } else {
                            None
                        },
                        old_scissor: old(self).scissor_spec(),
                    },
                )
                &&& final(self).layer_spec() == if opens {
                    old(self).layer_spec() + 1
                } else {
                    old(self).layer_spec() as int
                }
                &&& final(self).binner_view().elems_view() == if opens {
                    old(self).binner_view().elems_view().push(
                        composite_elem(old(self).scissor_spec(), mask, opacity, (old(self).layer_spec() + 1) as u8),
                    )
                } else {
                    old(self).binner_view().elems_view()
                }
            }),
            final(self).scissor_spec() == group_scissor(old(self).scissor_spec(), mask),
            Self::opened_group(old(self), final(self), mask, opacity),
            final(self).binner_view().num_frags() == old(self).binner_view().num_frags(),
            Binner::frags_kept(old(self).binner_view(), final(self).binner_view()),
            final(self).binner_view().target_size_spec() == old(self).binner_view().target_size_spec(),
            final(self).binner_view().bin_count_spec() == old(self).binner_view().bin_count_spec(),
            final(self).binner_view().num_bins() == old(self).binner_view().num_bins(),
            forall|b: int|
                0 <= b < old(self).binner_view().num_bins() ==> #[trigger] final(self).binner_view().bin_list(b)
                    == old(self).binner_view().bin_list(b) && final(self).max_layered(b) == old(self).max_layered(b),
    {
        let ghost s0 = *self;
        let ghost opens = opens_layer(self.scissor, mask, opacity);
        let new_scissor = self.new_group_scissor(&mask);
        let needs_layer = self.group_needs_layer(&mask, opacity);
        let old_scissor = self.scissor;
        let layer = if needs_layer {
            let needs_cp = match &mask {
                Some(m) => !(is_clip_planes_aligned_to_pixel(&m.clip_planes[0])
                    && is_clip_planes_aligned_to_pixel(&m.clip_planes[1])),
                None => false,
            };
            let elem_i = self.binner.elems.len() as u32;
            self.layer = self.layer + 1;
            let scissor = match new_scissor {
                Some(s) => s,
                None => {
                    proof {
                        assert(false);
                    }
                    Box2U16 { min: [0, 0], max: [0, 0] }
                },
            };
            let clip_planes = match mask {
                Some(m) => m.clip_planes,
                None => [ClipPlanes::default_planes(), ClipPlanes::default_planes()],
            };
            self.binner.elems.push(
                Elem {
                    flags: ElemFlags(
                        if needs_cp {
                            ELEM_CLIP_PLANES | ELEM_CLIP_PLANES_ANTIALIASED
                        } else {
                            0
                        },
                    ),
                    opacity,
                    content: Content::Layer(self.layer),
                    scissor,
                    clip_planes,
                },
            );
            self.top_layered_group_i = self.groups.len() as u32 + 1;
            Some(GrLayer { elem_i, layer: self.layer })
        } else {
            None
        };
        self.groups.push(BuilderGr { layer, old_scissor });
        self.binner.group_bins.push(Vec::new());
        self.scissor = new_scissor;
        proof {
            let groups0 = s0.groups@;
            let groups = self.groups@;
            assert(groups.drop_last() == groups0);
            assert forall|j: int| 0 <= j < groups0.len() implies #[trigger] groups.take(j + 1) == groups0.take(j + 1)
                by {}
            assert(groups.take(groups.len() as int) == groups);
            lemma_top(groups0);
            assert forall|j: int| 0 <= j < groups.len() implies ((#[trigger] groups[j]).layer matches Some(g) ==> {
                &&& g.elem_i < self.binner.elems@.len()
                &&& g.layer == layered_count(groups.take(j + 1))
            }) by {
                if j < groups0.len() {
                    assert(groups[j] == groups0[j]);
                    assert(groups.take(j + 1) == groups0.take(j + 1));
                }
            }
            assert forall|f: int| 0 <= f < self.binner.frags@.len() implies {
                let fr = #[trigger] self.binner.frags@[f];
                &&& (fr.next_frag_i == NONE || fr.next_frag_i < f)
                &&& fr.elem_i < self.binner.elems@.len()
                &&& fr.layer < NUM_LAYERS
            } by {
                assert(s0.binner.frags@[f].elem_i < s0.binner.elems@.len());
            }
            assert forall|b: int| 0 <= b < self.binner.bins@.len() implies #[trigger] self.has_comp_frags(b) by {
                assert(s0.has_comp_frags(b));
                assert(self.binner.bin_list(b) == s0.binner.bin_list(b));
                assert forall|j: int|
                    0 <= j < self.binner.bins@[b].max_layered_group_i && (#[trigger] groups[j]).layer is Some implies self.binner.bin_list(
                    b,
                ).contains(Self::comp_frag(groups[j].layer.unwrap())) by {
                    assert(j < groups0.len());
                    assert(groups[j] == groups0[j]);
                }
            }
            assert(self.binner.wf());
            let bins = self.binner.bins@;
            let gb = self.binner.group_bins@;
            let gb0 = s0.binner.group_bins@;
            assert forall|j: int| 0 <= j < gb0.len() implies #[trigger] gb[j] == gb0[j] by {}
            assert forall|b: int| 0 <= b < bins.len() implies #[trigger] self.max_ok(b) by {
                assert(s0.max_ok(b));
            }
            assert forall|b: int, j: int|
                0 <= b < bins.len() && 0 <= j < groups.len() && (#[trigger] groups[j]).layer is Some && (
                #[trigger] bins[b]).max_layered_group_i > j implies gb[j]@.contains(b as u32) by {
                assert(j < groups0.len());
                assert(groups0[j] == groups[j]);
            }
            assert forall|j: int, k: int| 0 <= j < groups.len() && 0 <= k < gb[j]@.len() implies {
                let x = (#[trigger] gb[j]@[k]) as int;
                &&& x < bins.len()
                &&& groups[j].layer is Some
                &&& bins[x].max_layered_group_i > j
            } by {
                assert(j < groups0.len());
                assert(groups0[j] == groups[j]);
            }
            if opens {
                let e = self.binner.elems@.last();
                let c = composite_elem::<TBmp>(s0.scissor, mask, opacity, (s0.layer + 1) as u8);
                assert(e.flags == c.flags);
                assert(e.opacity == c.opacity);
                assert(e.content == c.content);
                assert(e.scissor == c.scissor);
                assert(e.clip_planes[0] == c.clip_planes[0]);
                assert(e.clip_planes[1] == c.clip_planes[1]);
                assert(e.clip_planes =~= c.clip_planes);
                assert(self.binner.elems@.last() == composite_elem::<TBmp>(
                    s0.scissor,
                    mask,
                    opacity,
                    (s0.layer + 1) as u8,
                ));
            }
        }
    }
}

/// Without layered groups at or after `i`, `top_of` is that of the prefix
/// `..i`.
proof fn lemma_top_prefix(groups: Seq<BuilderGr>, i: int)
    requires
        0 <= i <= groups.len(),
        forall|j: int| i <= j < groups.len() ==> (#[trigger] groups[j]).layer is None,
    ensures
        top_of(groups) == top_of(groups.take(i)),
    decreases groups.len(),
{
    if i == groups.len() {
        assert(groups.take(i) == groups);
    } else {
        let d = groups.drop_last();
        assert forall|j: int| i <= j < d.len() implies (#[trigger] d[j]).layer is None by {
            assert(d[j] == groups[j]);
        }
        lemma_top_prefix(d, i);
        assert(d.take(i) == groups.take(i));
    }
}

/// A prefix that ends with a layered group has its length as `top_of`.
proof fn lemma_top_at(groups: Seq<BuilderGr>, i: int)
    requires
        1 <= i <= groups.len(),
        groups[i - 1].layer is Some,
    ensures
        top_of(groups.take(i)) == i,
{
    assert(groups.take(i).last() == groups[i - 1]);
}

impl<TBmp> BinnerBuilder<TBmp> {
    /// The last index + 1 of a group having a layer, or 0.
    fn find_top(&self) -> (r: u32)
        requires
            self.groups@.len() < NONE,
        ensures
            r == top_of(self.groups@),
    {
        let mut i = self.groups.len();
        proof {
            assert(self.groups@.take(i as int) == self.groups@);
        }
        while i > 0
            invariant
                i <= self.groups@.len() < NONE,
                forall|j: int| i <= j < self.groups@.len() ==> (#[trigger] self.groups@[j]).layer is None,
            decreases i,
        {
            if self.groups[i - 1].layer.is_some() {
                proof {
                    lemma_top_prefix(self.groups@, i as int);
                    lemma_top_at(self.groups@, i as int);
                }
                return i as u32;
            }
            i -= 1;
        }
        proof {
            lemma_top_prefix(self.groups@, 0);
        }
        0
    }

    /// Close a composition group and insert it to the parent group.
    #[verifier::spinoff_prover]
    pub fn close_group(&mut self)
        requires
            old(self).wf(),
            old(self).groups_view().len() > 0,
        ensures
            final(self).wf(),
            final(self).groups_view() == old(self).groups_view().drop_last(),
            final(self).scissor_spec() == old(self).groups_view().last().old_scissor,
            Self::closed_group(old(self), final(self)),
            final(self).binner_view().num_frags() == old(self).binner_view().num_frags(),
            Binner::frags_kept(old(self).binner_view(), final(self).binner_view()),
            final(self).layer_spec() == old(self).layer_spec() - if old(self).groups_view().last().layer is Some {
                1int
            } else {
                0int
            },
            final(self).binner_view().elems_view() == old(self).binner_view().elems_view(),
            final(self).binner_view().target_size_spec() == old(self).binner_view().target_size_spec(),
            final(self).binner_view().bin_count_spec() == old(self).binner_view().bin_count_spec(),
            final(self).binner_view().num_bins() == old(self).binner_view().num_bins(),
            forall|b: int|
                0 <= b < old(self).binner_view().num_bins() ==> #[trigger] final(self).binner_view().bin_list(b)
                    == old(self).binner_view().bin_list(b) && final(self).max_layered(b) == if old(self).groups_view().last().layer is Some && old(self).max_layered(b) == old(self).groups_view().len() {
                    top_of(old(self).groups_view().drop_last())
                } else {
                    old(self).max_layered(b)
                },
    {
        let ghost s0 = *self;
        let ghost groups0 = self.groups@;
        let group = match self.groups.pop() {
            Some(g) => g,
            None => {
                proof {
                    assert(false);
                }
                return ;
            },
        };
        let group_bins = match self.binner.group_bins.pop() {
            Some(v) => v,
            None => {
                proof {
                    assert(false);
                }
                return ;
            },
        };
        let ghost groups = self.groups@;
        let ghost group_i = groups.len() as int;
        let ghost gbp = self.binner.group_bins@;
        proof {
            assert(groups == groups0.drop_last());
            assert(group == groups0[group_i]);
            assert(group_bins == s0.binner.group_bins@[group_i]);
            lemma_top(groups0);
            lemma_top(groups);
        }
        if group.layer.is_some() {
            // This group has a layer: recalculate `top_layered_group_i` and
            // `layer`
            let new_top = self.find_top();
            self.top_layered_group_i = new_top;
            proof {
                assert(layered_count(groups0) == layered_count(groups) + 1);
                lemma_count_nonneg(groups);
            }
            self.layer = self.layer - 1;
            // Pop `Bin::max_layered_group_i`
            let mut k: usize = 0;
            while k < group_bins.len()
                invariant
                    k <= group_bins@.len(),
                    group_bins == s0.binner.group_bins@[group_i],
                    self.binner.bins@.len() == s0.binner.bins@.len(),
                    self.binner.bins@.len() <= 0x100_0000,
                    self.binner.group_bins@ == gbp,
                    self.groups@ == groups,
                    self.binner.frags@ == s0.binner.frags@,
                    self.binner.elems@ == s0.binner.elems@,
                    self.binner.target_size == s0.binner.target_size,
                    self.binner.bin_count == s0.binner.bin_count,
                    self.layer == s0.layer - 1,
                    self.top_layered_group_i == new_top,
                    new_top == top_of(groups),
                    forall|q: int| 0 <= q < group_bins@.len() ==> (#[trigger] group_bins@[q]) < s0.binner.bins@.len()
                        && s0.binner.bins@[group_bins@[q] as int].max_layered_group_i > group_i,
                    forall|b: int|
                        0 <= b < self.binner.bins@.len() ==> {
                            let bn = #[trigger] self.binner.bins@[b];
                            let bn0 = s0.binner.bins@[b];
                            &&& bn.frag_first_i == bn0.frag_first_i
                            &&& bn.frag_last_i == bn0.frag_last_i
                            &&& bn.max_layered_group_i == if (exists|q: int|
                                0 <= q < k && group_bins@[q] == b as u32) {
                                new_top
                            } else {
                                bn0.max_layered_group_i
                            }
                        },
                decreases group_bins@.len() - k,
            {
                let bin_i = group_bins[k] as usize;
                let mut bin = self.binner.bins[bin_i];
                bin.max_layered_group_i = new_top;
                self.binner.bins.set(bin_i, bin);
                proof {
                    assert forall|b: int| 0 <= b < self.binner.bins@.len() implies {
                        let bn = #[trigger] self.binner.bins@[b];
                        let bn0 = s0.binner.bins@[b];
                        &&& bn.frag_first_i == bn0.frag_first_i
                        &&& bn.frag_last_i == bn0.frag_last_i
                        &&& bn.max_layered_group_i == if (exists|q: int|
                            0 <= q < k + 1 && group_bins@[q] == b as u32) {
                            new_top
                        } else {
                            bn0.max_layered_group_i
                        }
                    } by {
                        if b == bin_i {
                            assert(group_bins@[k as int] == b as u32);
                        } else {
                            if exists|q: int| 0 <= q < k + 1 && group_bins@[q] == b as u32 {
                                let q = choose|q: int| 0 <= q < k + 1 && group_bins@[q] == b as u32;
                                assert(q != k);
                            }
                        }
                    }
                }
                k += 1;
            }
        }
        self.scissor = group.old_scissor;
        proof {
            let bins = self.binner.bins@;
            let bins0 = s0.binner.bins@;
            let gb = self.binner.group_bins@;
            let gb0 = s0.binner.group_bins@;
            let layered = group.layer is Some;
            let new_top = top_of(groups);
            assert(gb == gb0.drop_last());
            assert forall|j: int| 0 <= j < gb.len() implies #[trigger] gb[j] == gb0[j] by {}
            assert forall|j: int| 0 <= j < groups.len() implies #[trigger] groups[j] == groups0[j] by {}
            assert(layered ==> top_of(groups0) == group_i + 1);
            assert(!layered ==> top_of(groups0) == new_top);
            assert(!layered ==> layered_count(groups0) == layered_count(groups));
            assert(!layered ==> bins == bins0);
            // How the bins' counters changed
            assert forall|b: int| 0 <= b < bins.len() implies {
                let m0 = (#[trigger] bins0[b]).max_layered_group_i;
                &&& bins[b].frag_first_i == bins0[b].frag_first_i
                &&& bins[b].frag_last_i == bins0[b].frag_last_i
                &&& bins[b].max_layered_group_i == if layered && m0 == group_i + 1 {
                    new_top
                } else {
                    m0 as int
                }
            } by {
                let m0 = bins0[b].max_layered_group_i;
                assert(s0.max_ok(b));
                if layered {
                    let bn = bins[b];
                    assert(bn == self.binner.bins@[b]);
                    if m0 == group_i + 1 {
                        assert(groups0[group_i].layer is Some);
                        assert(gb0[group_i]@.contains(b as u32));
                        let q = choose|q: int| 0 <= q < gb0[group_i]@.len() && gb0[group_i]@[q] == b as u32;
                        assert(group_bins@[q] == b as u32);
                    } else {
                        if exists|q: int| 0 <= q < group_bins@.len() && group_bins@[q] == b as u32 {
                            let q = choose|q: int| 0 <= q < group_bins@.len() && group_bins@[q] == b as u32;
                            assert(gb0[group_i]@[q] == b as u32);
                        }
                    }
                }
            }
            assert forall|b: int| 0 <= b < bins.len() implies #[trigger] self.binner.bin_list(b) == s0.binner.bin_list(
                b,
            ) by {
                assert(bins[b].frag_first_i == bins0[b].frag_first_i);
            }
            // Counters stay below the new top and point at layered groups
            assert forall|b: int| 0 <= b < bins.len() implies (#[trigger] bins[b]).max_layered_group_i as int
                <= top_of(groups) && self.max_ok(b) by {
                let m0 = bins0[b].max_layered_group_i as int;
                assert(s0.max_ok(b));
                if !(layered && m0 == group_i + 1) {
                    if m0 > 0 {
                        assert(groups0[m0 - 1].layer is Some);
                        assert(m0 - 1 != group_i || layered);
                        assert(m0 - 1 < group_i);
                        assert(groups[m0 - 1].layer is Some);
                    }
                }
            }
            assert forall|b: int, j: int|
                0 <= b < bins.len() && 0 <= j < groups.len() && (#[trigger] groups[j]).layer is Some && (
                #[trigger] bins[b]).max_layered_group_i > j implies gb[j]@.contains(b as u32) by {
                assert(groups0[j].layer is Some);
                assert(bins0[b].max_layered_group_i > j);
            }
            assert forall|j: int, k: int| 0 <= j < groups.len() && 0 <= k < gb[j]@.len() implies {
                let x = (#[trigger] gb[j]@[k]) as int;
                &&& x < bins.len()
                &&& groups[j].layer is Some
                &&& bins[x].max_layered_group_i > j
            } by {
                assert(gb0[j]@[k] == gb[j]@[k]);
                let x = gb[j]@[k] as int;
                assert(bins0[x].max_layered_group_i > j);
                assert(j < new_top);
            }
            assert forall|j: int| 0 <= j < groups.len() implies ((#[trigger] groups[j]).layer matches Some(g) ==> {
                &&& g.elem_i < self.binner.elems@.len()
                &&& g.layer == layered_count(groups.take(j + 1))
            }) by {
                assert(groups.take(j + 1) == groups0.take(j + 1));
            }
            assert forall|b: int| 0 <= b < bins.len() implies {
                let bn = #[trigger] bins[b];
                &&& (bn.frag_first_i == NONE || bn.frag_first_i < self.binner.frags@.len())
                &&& (bn.frag_first_i == NONE <==> bn.frag_last_i == NONE)
                &&& (bn.frag_last_i == NONE || bn.frag_last_i < self.binner.frags@.len())
                &&& bn.frag_last_i == chain_end(self.binner.frags@, bn.frag_first_i)
            } by {
                assert(bins[b].frag_first_i == bins0[b].frag_first_i);
            }
            assert forall|b: int| 0 <= b < bins.len() implies #[trigger] self.has_comp_frags(b) by {
                assert(s0.has_comp_frags(b));
                assert forall|j: int|
                    0 <= j < bins[b].max_layered_group_i && (#[trigger] groups[j]).layer is Some implies self.binner.bin_list(
                    b,
                ).contains(Self::comp_frag(groups[j].layer.unwrap())) by {
                    assert(groups[j] == groups0[j]);
                    assert(j < bins0[b].max_layered_group_i);
                    assert(groups0[j].layer is Some);
                }
            }
            assert(self.binner.wf());
        }
    }
}

/// Prepending keeps what a list contains.
proof fn lemma_contains_prepend(x: (u32, u8), l: Seq<(u32, u8)>, c: (u32, u8))
    requires
        l.contains(c) || c == x,
    ensures
        (seq![x] + l).contains(c),
{
    let s = seq![x] + l;
    if c == x {
        assert(s[0] == c);
    } else {
        let q = choose|q: int| 0 <= q < l.len() && l[q] == c;
        assert(s[q + 1] == c);
    }
}

/// Without layered groups at or after `i`, the prefix `..i` has all the
/// layered groups.
proof fn lemma_count_prefix_none(groups: Seq<BuilderGr>, i: int)
    requires
        0 <= i <= groups.len(),
        forall|j: int| i <= j < groups.len() ==> (#[trigger] groups[j]).layer is None,
    ensures
        layered_count(groups) == layered_count(groups.take(i)),
    decreases groups.len(),
{
    if i == groups.len() {
        assert(groups.take(i) == groups);
    } else {
        let d = groups.drop_last();
        assert forall|j: int| i <= j < d.len() implies (#[trigger] d[j]).layer is None by {
            assert(d[j] == groups[j]);
        }
        lemma_count_prefix_none(d, i);
        assert(d.take(i) == groups.take(i));
    }
}

/// Each bin has the compositing fragment of every layered group below its
/// counter.
pub proof fn law_comp_frags_present<TBmp>(builder: &BinnerBuilder<TBmp>, b: int, j: int)
    requires
        builder.wf(),
        0 <= b < builder.binner_view().num_bins(),
        0 <= j < builder.max_layered(b),
        builder.groups_view()[j].layer is Some,
    ensures
        builder.binner_view().bin_list(b).contains(
            BinnerBuilder::<TBmp>::comp_frag(builder.groups_view()[j].layer.unwrap()),
        ),
{
    assert(builder.has_comp_frags(b));
}

/// The current layer is the number of groups having a layer, and the layer
/// of the innermost such group.
pub proof fn law_current_layer<TBmp>(builder: &BinnerBuilder<TBmp>)
    requires
        builder.wf(),
    ensures
        builder.layer_spec() == layered_count(builder.groups_view()),
        top_of(builder.groups_view()) != 0 ==> (builder.groups_view()[top_of(builder.groups_view()) - 1].layer
            matches Some(g) && g.layer == builder.layer_spec()),
{
    let groups = builder.groups_view();
    lemma_top(groups);
    let t = top_of(groups);
    if t != 0 {
        lemma_count_prefix_none(groups, t);
        assert(groups[t - 1].layer is Some);
    }
}

/// The layer number of a layered group is between 1 and the current layer.
proof fn lemma_layer_bounds(groups: Seq<BuilderGr>, j: int)
    requires
        0 <= j < groups.len(),
        groups[j].layer is Some,
    ensures
        1 <= layered_count(groups.take(j + 1)) <= layered_count(groups),
{
    let t = groups.take(j + 1);
    assert(t.drop_last() == groups.take(j));
    assert(t.last() == groups[j]);
    lemma_count_nonneg(groups.take(j));
    lemma_count_prefix(groups, j + 1);
}

/// `layered_count` is nonnegative.
proof fn lemma_count_nonneg(groups: Seq<BuilderGr>)
    ensures
        layered_count(groups) >= 0,
    decreases groups.len(),
{
    if groups.len() > 0 {
        lemma_count_nonneg(groups.drop_last());
    }
}

/// A prefix has no more layered groups.
proof fn lemma_count_prefix(groups: Seq<BuilderGr>, k: int)
    requires
        0 <= k <= groups.len(),
    ensures
        layered_count(groups.take(k)) <= layered_count(groups),
    decreases groups.len(),
{
    if k == groups.len() {
        assert(groups.take(k) == groups);
    } else {
        lemma_count_prefix(groups.drop_last(), k);
        assert(groups.drop_last().take(k) == groups.take(k));
    }
}

} // verus!

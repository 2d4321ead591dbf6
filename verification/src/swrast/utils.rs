//! Bounding-box helpers.
use vstd::prelude::*;

verus! {

/// An axis-aligned box `min.0 ≤ x < max.0`, `min.1 ≤ y < max.1`.
#[derive(Debug, Clone, Copy, PartialEq, Eq)]
pub struct UBox2 {
    pub min: [usize; 2],
    pub max: [usize; 2],
}

impl UBox2 {
    /// The box contains no point.
    pub open spec fn spec_is_empty(self) -> bool {
        self.min[0] >= self.max[0] || self.min[1] >= self.max[1]
    }

    /// The box contains no point.
    pub fn is_empty(&self) -> (r: bool)
        ensures
            r == self.spec_is_empty(),
    {
        self.min[0] >= self.max[0] || self.min[1] >= self.max[1]
    }
}

/// The smallest box containing both boxes.
pub open spec fn union_box(a: UBox2, b: UBox2) -> UBox2 {
    UBox2 {
        min: [vstd::math::min(a.min[0] as int, b.min[0] as int) as usize, vstd::math::min(
            a.min[1] as int,
            b.min[1] as int,
        ) as usize],
        max: [vstd::math::max(a.max[0] as int, b.max[0] as int) as usize, vstd::math::max(
            a.max[1] as int,
            b.max[1] as int,
        ) as usize],
    }
}

/// The union of two optional boxes, where `None` is the empty set.
pub open spec fn union_opt(a: Option<UBox2>, b: Option<UBox2>) -> Option<UBox2> {
    match (a, b) {
        (Some(x), Some(y)) => Some(union_box(x, y)),
        (x, None) => x,
        (None, y) => y,
    }
}

/// The union of the boxes of `s`, folded from the left.
pub open spec fn union_all(s: Seq<Option<UBox2>>) -> Option<UBox2>
    decreases s.len(),
{
    if s.len() == 0 {
        None
    } else {
        union_opt(union_all(s.drop_last()), s.last())
    }
}

/// Efficiently computes the union of a set of boxes.
#[derive(Debug, Clone, Copy)]
pub struct Box2UsizeUnion {
    min: [usize; 2],
    max: [usize; 2],
}

impl View for Box2UsizeUnion {
    type V = Option<UBox2>;

    /// The union of the inserted boxes; `None` if nothing was inserted.
    closed spec fn view(&self) -> Option<UBox2> {
        if self.min[0] >= self.max[0] || self.min[1] >= self.max[1] {
            None
        } else {
            Some(UBox2 { min: self.min, max: self.max })
        }
    }
}

impl Box2UsizeUnion {
    /// Either nothing was inserted, or the union is not empty.
    pub closed spec fn wf(&self) -> bool {
        (self.min == [usize::MAX, usize::MAX] && self.max == [0usize, 0usize]) || (self.min[0]
            < self.max[0] && self.min[1] < self.max[1])
    }

    /// The union of no box.
    pub fn new() -> (r: Self)
        ensures
            r.wf(),
            r@ is None,
    {
        Box2UsizeUnion { min: [usize::MAX, usize::MAX], max: [0, 0] }
    }

    /// Insert a box `x` to the input set. `None` leaves the set unchanged;
    /// `Some(bx)` must not be empty.
    pub fn insert(&mut self, x: Option<UBox2>)
        requires
            old(self).wf(),
            x matches Some(b) ==> !b.spec_is_empty(),
        ensures
            final(self).wf(),
            final(self)@ == union_opt(old(self)@, x),
    {
        if let Some(b) = x {
            let min0 = if b.min[0] < self.min[0] {
                b.min[0]
            } else {
                self.min[0]
            };
            let min1 = if b.min[1] < self.min[1] {
                b.min[1]
            } else {
                self.min[1]
            };
            let max0 = if b.max[0] > self.max[0] {
                b.max[0]
            } else {
                self.max[0]
            };
            let max1 = if b.max[1] > self.max[1] {
                b.max[1]
            } else {
                self.max[1]
            };
            self.min = [min0, min1];
            self.max = [max0, max1];
            proof {
                let nb = union_opt(old(self)@, x).unwrap();
                assert(self.min =~= nb.min);
                assert(self.max =~= nb.max);
            }
        }
    }

    /// The union, or `None` if it is empty.
    pub fn into_box2(&self) -> (r: Option<UBox2>)
        ensures
            r == self@,
            r matches Some(b) ==> !b.spec_is_empty(),
    {
        if self.min[0] >= self.max[0] || self.min[1] >= self.max[1] {
            None
        } else {
            Some(UBox2 { min: self.min, max: self.max })
        }
    }

    /// The union of the boxes `xs`, each of which is `None` or not empty.
    pub fn from_boxes(xs: &Vec<Option<UBox2>>) -> (r: Self)
        requires
            forall|i: int| 0 <= i < xs.len() ==> (#[trigger] xs@[i] matches Some(b) ==> !b.spec_is_empty()),
        ensures
            r.wf(),
            r@ == union_all(xs@),
    {
        let mut u = Self::new();
        let mut i: usize = 0;
        while i < xs.len()
            invariant
                i <= xs.len(),
                u.wf(),
                u@ == union_all(xs@.take(i as int)),
                forall|j: int| 0 <= j < xs.len() ==> (#[trigger] xs@[j] matches Some(b) ==> !b.spec_is_empty()),
            decreases xs.len() - i,
        {
            proof {
                assert(xs@.take(i + 1).drop_last() =~= xs@.take(i as int));
                assert(xs@.take(i + 1).last() == xs@[i as int]);
            }
            u.insert(xs[i]);
            i += 1;
        }
        proof {
            assert(xs@.take(xs.len() as int) =~= xs@);
        }
        u
    }
}

} // verus!

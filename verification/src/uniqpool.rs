//! A pool of values whose pointers are never reused: a pointer carries the
//! token its value was allocated with, and a pointer whose value is gone
//! matches no later value as long as tokens are not given twice.
use vstd::prelude::*;

verus! {

/// A pointer to a value of a `UniqPool`.
#[derive(Debug, Clone, Copy, PartialEq, Eq, Structural)]
pub struct PoolPtr {
    token: usize,
    index: usize,
}

impl PoolPtr {
    /// The token the value was allocated with.
    pub closed spec fn spec_token(self) -> usize {
        self.token
    }

    /// The slot of the value.
    pub closed spec fn spec_slot(self) -> usize {
        self.index
    }

    /// The token the value was allocated with.
    pub fn token(&self) -> (r: usize)
        ensures
            r == self.spec_token(),
    {
        self.token
    }
}

struct Entry<T> {
    token: usize,
    data: T,
}

/// Like a pool of values, but a `PoolPtr` is unique: it stops matching
/// anything once its value is deallocated.
pub struct UniqPool<T> {
    entries: Vec<Option<Entry<T>>>,
    free: Vec<usize>,
}

impl<T> View for UniqPool<T> {
    type V = Map<PoolPtr, T>;

    /// The valid pointers and their values.
    closed spec fn view(&self) -> Map<PoolPtr, T> {
        Map::new(
            |p: PoolPtr| self.valid(p),
            |p: PoolPtr| self.entries@[p.index as int].unwrap().data,
        )
    }
}

impl<T> UniqPool<T> {
    spec fn valid(&self, p: PoolPtr) -> bool {
        &&& p.index < self.entries@.len()
        &&& self.entries@[p.index as int] is Some
        &&& self.entries@[p.index as int].unwrap().token == p.token
    }

    /// The free list names distinct vacant slots.
    pub closed spec fn wf(&self) -> bool {
        &&& forall|k: int|
            0 <= k < self.free@.len() ==> (#[trigger] self.free@[k]) < self.entries@.len()
                && self.entries@[self.free@[k] as int] is None
        &&& forall|k1: int, k2: int|
            0 <= k1 < self.free@.len() && 0 <= k2 < self.free@.len() && k1 != k2 ==> #[trigger] self.free@[k1]
                != #[trigger] self.free@[k2]
    }

    /// An empty pool.
    pub fn new() -> (r: Self)
        ensures
            r.wf(),
            r@ == Map::<PoolPtr, T>::empty(),
    {
        let r = UniqPool { entries: Vec::new(), free: Vec::new() };
        assert(r@ =~= Map::<PoolPtr, T>::empty());
        r
    }

    /// An empty pool with room for `capacity` values.
    pub fn with_capacity(capacity: usize) -> (r: Self)
        ensures
            r.wf(),
            r@ == Map::<PoolPtr, T>::empty(),
    {
        let r = UniqPool { entries: Vec::with_capacity(capacity), free: Vec::new() };
        assert(r@ =~= Map::<PoolPtr, T>::empty());
        r
    }

    /// Make room for `additional` more values.
    pub fn reserve(&mut self, additional: usize)
        requires
            old(self).wf(),
        ensures
            final(self).wf(),
            final(self)@ == old(self)@,
    {
        self.entries.reserve(additional);
        assert(self@ =~= old(self)@);
    }

    /// Add the value `x` under the token `token`, which must not be zero.
    /// The pointer returned is unique if `token` was never given before.
    pub fn allocate(&mut self, x: T, token: usize) -> (r: PoolPtr)
        requires
            old(self).wf(),
            token != 0,
        ensures
            final(self).wf(),
            r.spec_token() == token,
            !old(self)@.contains_key(r),
            final(self)@ == old(self)@.insert(r, x),
    {
        let ghost s0 = *self;
        let e = Entry { token, data: x };
        let r = match self.free.pop() {
            Some(i) => {
                self.entries.set(i, Some(e));
                PoolPtr { token, index: i }
            },
            None => {
                self.entries.push(Some(e));
                PoolPtr { token, index: self.entries.len() - 1 }
            },
        };
        proof {
            assert forall|k: int| 0 <= k < self.free@.len() implies (#[trigger] self.free@[k]) < self.entries@.len()
                && self.entries@[self.free@[k] as int] is None by {
                assert(self.free@[k] == s0.free@[k]);
                if s0.free@.len() > 0 {
                    assert(s0.free@[k] != s0.free@[s0.free@.len() - 1]);
                }
            }
            assert forall|p: PoolPtr| #[trigger] self.valid(p) == (s0.valid(p) || p == r) by {
                if p.index == r.index {
                    if p.token == r.token {
                        assert(p == r);
                    }
                } else if p.index < s0.entries@.len() {
                    assert(self.entries@[p.index as int] == s0.entries@[p.index as int]);
                }
            }
            assert(self@ =~= s0@.insert(r, x));
        }
        r
    }

    /// Check `ptr` and return the slot of its value.
    fn check_ptr(&self, ptr: PoolPtr) -> (r: Option<usize>)
        ensures
            r is Some == self@.contains_key(ptr),
            r matches Some(i) ==> i == ptr.index && i < self.entries@.len(),
    {
        if ptr.index < self.entries.len() {
            match &self.entries[ptr.index] {
                Some(e) => if e.token == ptr.token {
                    Some(ptr.index)
                } else {
                    None
                },
                None => None,
            }
        } else {
            None
        }
    }

    /// Remove the value of `ptr`, if it is valid.
    pub fn deallocate(&mut self, ptr: PoolPtr) -> (r: Option<T>)
        requires
            old(self).wf(),
        ensures
            final(self).wf(),
            r == (if old(self)@.contains_key(ptr) {
                Some(old(self)@[ptr])
            } else {
                None
            }),
            final(self)@ == old(self)@.remove(ptr),
    {
        let ghost s0 = *self;
        match self.check_ptr(ptr) {
            Some(i) => {
                let e = self.entries[i].take();
                self.free.push(i);
                proof {
                    assert forall|k: int| 0 <= k < self.free@.len() implies (#[trigger] self.free@[k])
                        < self.entries@.len() && self.entries@[self.free@[k] as int] is None by {
                        if k < s0.free@.len() {
                            assert(self.free@[k] == s0.free@[k]);
                        }
                    }
                    assert forall|k1: int, k2: int|
                        0 <= k1 < self.free@.len() && 0 <= k2 < self.free@.len() && k1 != k2 implies #[trigger] self.free@[k1]
                        != #[trigger] self.free@[k2] by {
                        if k1 < s0.free@.len() {
                            assert(self.free@[k1] == s0.free@[k1]);
                        }
                        if k2 < s0.free@.len() {
                            assert(self.free@[k2] == s0.free@[k2]);
                        }
                    }
                    assert forall|p: PoolPtr| #[trigger] self.valid(p) == (s0.valid(p) && p != ptr) by {
                        if p.index == i {
                            if s0.valid(p) {
                                assert(p == ptr);
                            }
                        }
                    }
                    assert(self@ =~= s0@.remove(ptr));
                }
                match e {
                    Some(e) => Some(e.data),
                    None => None,
                }
            },
            None => {
                assert(self@ =~= s0@.remove(ptr));
                None
            },
        }
    }

    /// The value of `ptr`, if it is valid.
    pub fn get(&self, ptr: PoolPtr) -> (r: Option<&T>)
        ensures
            r == (if self@.contains_key(ptr) {
                Some(&self@[ptr])
            } else {
                None
            }),
    {
        match self.check_ptr(ptr) {
            Some(i) => match &self.entries[i] {
                Some(e) => Some(&e.data),
                None => None,
            },
            None => None,
        }
    }

    /// The value of `ptr`, if it is valid, to be changed in place.
    pub fn get_mut(&mut self, ptr: PoolPtr) -> (r: Option<&mut T>)
        requires
            old(self).wf(),
        ensures
            final(self).wf(),
            r is Some == old(self)@.contains_key(ptr),
            r matches Some(x) ==> *x == old(self)@[ptr] && final(self)@ == old(self)@.insert(ptr, *final(x)),
            r is None ==> final(self)@ == old(self)@,
    {
        match self.check_ptr(ptr) {
            Some(i) => match &mut self.entries[i] {
                Some(e) => Some(&mut e.data),
                None => None,
            },
            None => None,
        }
    }

    /// The values in the pool, in the order of their slots.
    pub fn iter(&self) -> (r: Vec<&T>)
        ensures
            r.len() == self@.dom().len(),
            forall|k: int| 0 <= k < r.len() ==> self.holds(#[trigger] *r@[k]),
    {
        let pairs = self.ptr_iter();
        let mut out: Vec<&T> = Vec::new();
        let mut k: usize = 0;
        while k < pairs.len()
            invariant
                k <= pairs.len(),
                out.len() == k,
                forall|m: int| 0 <= m < k ==> *out@[m] == *pairs@[m].1,
                forall|m: int| 0 <= m < pairs.len() ==> self@.contains_key(#[trigger] pairs@[m].0) && *pairs@[m].1 == self@[pairs@[m].0],
            decreases pairs.len() - k,
        {
            proof {
                assert(self@.contains_key(pairs@[k as int].0));
            }
            out.push(pairs[k].1);
            k += 1;
        }
        proof {
            assert forall|m: int| 0 <= m < out.len() implies self.holds(#[trigger] *out@[m]) by {
                assert(self@.contains_key(pairs@[m].0));
            }
        }
        out
    }

    /// The pool holds the value `x`.
    pub open spec fn holds(&self, x: T) -> bool {
        exists|p: PoolPtr| self@.contains_key(p) && self@[p] == x
    }

    /// The valid pointers and their values, in the order of their slots.
    pub fn ptr_iter(&self) -> (r: Vec<(PoolPtr, &T)>)
        ensures
            forall|k: int| 0 <= k < r.len() ==> self@.contains_key(#[trigger] r@[k].0) && *r@[k].1 == self@[r@[k].0],
            forall|k1: int, k2: int| 0 <= k1 < k2 < r.len() ==> (#[trigger] r@[k1].0).spec_slot() < (#[trigger] r@[k2].0).spec_slot(),
            forall|p: PoolPtr| self@.contains_key(p) ==> exists|k: int| 0 <= k < r.len() && #[trigger] r@[k].0 == p,
            r.len() == self@.dom().len(),
    {
        let mut out: Vec<(PoolPtr, &T)> = Vec::new();
        let mut i: usize = 0;
        while i < self.entries.len()
            invariant
                i <= self.entries.len(),
                forall|k: int| 0 <= k < out.len() ==> self.valid(#[trigger] out@[k].0) && out@[k].0.index < i && *out@[k].1
                    == self.entries@[out@[k].0.index as int].unwrap().data,
                forall|k1: int, k2: int| 0 <= k1 < k2 < out.len() ==> (#[trigger] out@[k1].0).index < (#[trigger] out@[k2].0).index,
                forall|p: PoolPtr| self.valid(p) && p.index < i ==> exists|k: int| 0 <= k < out.len() && #[trigger] out@[k].0 == p,
            decreases self.entries.len() - i,
        {
            if let Some(e) = &self.entries[i] {
                let p = PoolPtr { token: e.token, index: i };
                let ghost out0 = out@;
                out.push((p, &e.data));
                proof {
                    assert forall|q: PoolPtr| self.valid(q) && q.index < i + 1 implies exists|k: int|
                        0 <= k < out.len() && #[trigger] out@[k].0 == q by {
                        if q.index == i {
                            assert(out@[out.len() - 1].0 == q);
                        } else {
                            let k = choose|k: int| 0 <= k < out0.len() && #[trigger] out0[k].0 == q;
                            assert(out@[k].0 == q);
                        }
                    }
                }
            }
            i += 1;
        }
        proof {
            let ptrs = out@.map_values(|e: (PoolPtr, &T)| e.0);
            assert(self@.dom() =~= ptrs.to_set()) by {
                assert forall|p: PoolPtr| self@.dom().contains(p) implies ptrs.to_set().contains(p) by {
                    let k = choose|k: int| 0 <= k < out.len() && #[trigger] out@[k].0 == p;
                    assert(ptrs[k] == p);
                }
                assert forall|p: PoolPtr| ptrs.to_set().contains(p) implies self@.dom().contains(p) by {
                    let k = choose|k: int| 0 <= k < ptrs.len() && ptrs[k] == p;
                    assert(out@[k].0 == p);
                }
            }
            assert(ptrs.no_duplicates()) by {
                assert forall|k1: int, k2: int| 0 <= k1 < ptrs.len() && 0 <= k2 < ptrs.len() && k1 != k2 implies ptrs[k1]
                    != ptrs[k2] by {
                    if k1 < k2 {
                        assert(out@[k1].0.index < out@[k2].0.index);
                    } else {
                        assert(out@[k2].0.index < out@[k1].0.index);
                    }
                }
            }
            ptrs.unique_seq_to_set();
        }
        out
    }
}

/// A pointer that matches no value keeps matching none when a value is
/// added under another token: pointers are never reused as long as tokens
/// are not given twice.
pub proof fn law_stale_pointer_stays_invalid<T>(pool: Map<PoolPtr, T>, stale: PoolPtr, added: PoolPtr, x: T)
    requires
        !pool.contains_key(stale),
        added.spec_token() != stale.spec_token(),
    ensures
        !pool.insert(added, x).contains_key(stale),
{
}

} // verus!

//! A specialized, light-weight priority queue for deferred invocations.
//!
//! Invocations are referred to as *tasks*. Each task comprises of a start
//! time, an end time (deadline), and a payload of type `T`. The task must
//! execute between the start time and the deadline. Waking up a CPU incurs an
//! energy cost, so the queue suggests wake-up times that let as many tasks as
//! possible execute at the same time.
//!
//! The queue holds at most `SIZE` tasks. Tasks live in numbered slots, and a
//! bitmap records which slots are occupied. Searches are linear over groups of
//! four slots.
//!
//! # Time values
//!
//! Time values (`FixTime`) are fixed-point numbers of seconds with 20
//! fractional bits, kept in `0..=TIME_MAX`. A vacant slot holds `VACANT` as
//! its start and end time, which is above every time value, so comparing a
//! vacant slot's start time with a time value never makes it runnable and a
//! vacant slot's end time never wins a minimum.
use std::ops::Range;
use std::time::{Duration, Instant};
use vstd::arithmetic::power2::lemma2_to64;
use vstd::bits::{lemma_u64_shl_is_mul, lemma_u64_shr_is_div};
use vstd::prelude::*;

use crate::bits::{
    bit, group_any, lemma_bit_clear, lemma_bit_mask, lemma_bit_not, lemma_bit_set, lemma_clear_lowest,
    lemma_groups4, lemma_no_bits_zero, lemma_tz_low, lemma_zero_and_full,
};

verus! {

/// `log2(SIZE)`
pub const SIZE_BITS: u32 = 6;

/// The capacity of a queue.
pub const SIZE: usize = 64;

/// The smallest positive normal `f64`, as bits.
pub const F64_MIN_NORMAL: u64 = 0x0010_0000_0000_0000;

/// The largest finite `f64`, as bits.
pub const F64_MAX_NORMAL: u64 = 0x7fef_ffff_ffff_ffff;

/// The largest time value.
pub const TIME_MAX: u64 = F64_MAX_NORMAL - F64_MIN_NORMAL;

/// The start and end time of a vacant slot.
pub const VACANT: u64 = 0xffff_ffff_ffff_ffff;

/// One second in `FixTime` units.
pub const FIX_ONE_SEC: u64 = 0x10_0000;

// ============================================================================
// Durations and time values

/// A span of time: whole seconds and the nanoseconds beyond them.
#[derive(Debug, Clone, Copy, PartialEq, Eq, Structural)]
pub struct Dur {
    pub secs: u64,
    pub nanos: u32,
}

impl Dur {
    /// The nanosecond part is below one second.
    pub open spec fn wf(self) -> bool {
        self.nanos < 1_000_000_000
    }

    /// The span in nanoseconds.
    pub open spec fn total_nanos(self) -> int {
        self.secs * 1_000_000_000 + self.nanos
    }

    /// The span `secs` seconds plus `nanos` nanoseconds, where `nanos` may
    /// exceed one second.
    pub fn new(secs: u64, nanos: u32) -> (d: Dur)
        requires
            secs + nanos / 1_000_000_000 <= u64::MAX,
        ensures
            d.wf(),
            d.total_nanos() == secs * 1_000_000_000 + nanos,
    {
        let extra = nanos / 1_000_000_000;
        Dur { secs: secs + extra as u64, nanos: nanos % 1_000_000_000 }
    }

    /// The sum of two spans, or `None` where it does not fit.
    pub fn checked_add(self, other: Dur) -> (r: Option<Dur>)
        requires
            self.wf(),
            other.wf(),
        ensures
            match r {
                Some(d) => d.wf() && d.total_nanos() == self.total_nanos() + other.total_nanos(),
                None => self.secs + other.secs + (if self.nanos + other.nanos >= 1_000_000_000 {
                    1int
                } else {
                    0int
                }) > u64::MAX,
            },
    {
        let nanos = self.nanos + other.nanos;
        let carry: u64 = if nanos >= 1_000_000_000 {
            1
        } else {
            0
        };
        let nanos = if nanos >= 1_000_000_000 {
            nanos - 1_000_000_000
        } else {
            nanos
        };
        match self.secs.checked_add(other.secs) {
            None => None,
            Some(s) => match s.checked_add(carry) {
                None => None,
                Some(secs) => Some(Dur { secs, nanos }),
            },
        }
    }
}

/// A time value: seconds as a fixed-point number with 20 fractional bits.
#[derive(Debug, Clone, Copy, PartialEq, Eq, Structural, PartialOrd)]
pub struct FixTime(pub u64);

/// The `FixTime` of a span, `secs * 2^20 + nanos / 1024`.
pub open spec fn fix_of_dur(d: Dur) -> u64 {
    (d.secs * 0x10_0000 + d.nanos / 1024) as u64
}

impl FixTime {
    /// Convert a span to a time value, truncating below `1024` nanoseconds.
    pub fn from_dur(d: Dur) -> (t: FixTime)
        requires
            d.wf(),
            d.secs <= u64::MAX >> 20u64,
        ensures
            t.0 == d.secs * 0x10_0000 + d.nanos / 1024,
            t.0 == fix_of_dur(d),
    {
        let secs = d.secs;
        let nanos = d.nanos as u64;
        proof {
            assert(0xffff_ffff_ffff_ffffu64 >> 20u64 == 0xfff_ffff_ffffu64) by (bit_vector);
            lemma2_to64();
            assert(secs * 0x10_0000 <= 0xffff_ffff_fff0_0000) by (nonlinear_arith)
                requires
                    secs <= 0xfff_ffff_ffffu64,
            ;
            lemma_u64_shl_is_mul(secs, 20);
            lemma_u64_shr_is_div(nanos, 10);
        }
        FixTime((secs << 20) + (nanos >> 10))
    }

    /// The span of a time value.
    pub open spec fn to_dur_spec(self) -> Dur {
        let total = (self.0 / 0x10_0000) * 1_000_000_000 + (self.0 % 0x10_0000) * 1024;
        Dur { secs: (total / 1_000_000_000) as u64, nanos: (total % 1_000_000_000) as u32 }
    }

    /// The span of a time value is well formed, and its nanoseconds are the
    /// whole seconds and the fraction (in units of 1024 ns) of the value.
    pub proof fn lemma_to_dur_total(a: FixTime)
        ensures
            a.to_dur_spec().wf(),
            a.to_dur_spec().total_nanos() == (a.0 / 0x10_0000) * 1_000_000_000 + (a.0
                % 0x10_0000) * 1024,
    {
        let t = (a.0 / 0x10_0000) * 1_000_000_000 + (a.0 % 0x10_0000) * 1024;
        assert(0 <= t / 1_000_000_000 <= u64::MAX && t == (t / 1_000_000_000) * 1_000_000_000 + t
            % 1_000_000_000) by (nonlinear_arith)
            requires
                t == (a.0 / 0x10_0000) * 1_000_000_000 + (a.0 % 0x10_0000) * 1024,
                0 <= a.0 <= u64::MAX,
        ;
    }

    /// Convert a time value to a span.
    pub fn to_dur(self) -> (d: Dur)
        ensures
            d.wf(),
            d == self.to_dur_spec(),
            d.total_nanos() == (self.0 / 0x10_0000) * 1_000_000_000 + (self.0 % 0x10_0000) * 1024,
    {
        let v = self.0;
        let secs = v >> 20;
        let frac = v & 0xfffff;
        let nanos = frac << 10;
        proof {
            lemma2_to64();
            lemma_u64_shr_is_div(v, 20);
            assert(frac == v % 0x10_0000u64 && frac < 0x10_0000u64) by (bit_vector)
                requires
                    frac == v & 0xfffffu64,
            ;
            assert(frac * 1024 < 0x4000_0000) by (nonlinear_arith)
                requires
                    frac < 0x10_0000u64,
            ;
            lemma_u64_shl_is_mul(frac, 10);
            assert(secs <= 0xfff_ffff_ffffu64) by (bit_vector)
                requires
                    secs == v >> 20u64,
            ;
        }
        Dur::new(secs, nanos as u32)
    }
}

// ============================================================================
// Task handles

/// Represents a slot of `TimerQueueCore`. Note that the same value may be
/// reused for multiple tasks with disjoint lifetimes.
#[derive(Debug, Clone, Copy, PartialEq, Eq, Hash, Default, Structural)]
pub struct HTaskCore(u8);

impl HTaskCore {
    #[verifier::type_invariant]
    spec fn inv(self) -> bool {
        self.0 < 64
    }

    /// The slot number.
    pub closed spec fn index(self) -> int {
        self.0 as int
    }

    /// The handle of slot `x`.
    pub fn new(x: usize) -> (h: HTaskCore)
        requires
            x < SIZE,
        ensures
            h.index() == x,
    {
        HTaskCore(x as u8)
    }

    /// The slot number.
    pub fn get(self) -> (r: usize)
        ensures
            r == self.index(),
            r < SIZE,
    {
        proof {
            use_type_invariant(&self);
        }
        self.0 as usize
    }

    /// `1 << self.get()`.
    pub fn mask(self) -> (r: u64)
        ensures
            r == 1u64 << (self.index() as u64),
            self.index() < 64,
    {
        proof {
            use_type_invariant(&self);
        }
        1u64 << self.0
    }
}

/// Represents a group of four consecutive `HTaskCore`s. `HTaskGroup4(i)`
/// (where `i % 4 == 0`) represents `HTaskCore(i)` … `HTaskCore(i + 3)`.
#[derive(Clone, Copy)]
pub struct HTaskGroup4(u8);

impl HTaskGroup4 {
    #[verifier::type_invariant]
    spec fn inv(self) -> bool {
        self.0 < 64 && self.0 % 4 == 0
    }

    /// The first slot number of the group.
    pub closed spec fn first(self) -> int {
        self.0 as int
    }

    /// The group starting at slot `x`.
    pub fn new(x: usize) -> (g: HTaskGroup4)
        requires
            x < SIZE,
            x % 4 == 0,
        ensures
            g.first() == x,
    {
        HTaskGroup4(x as u8)
    }

    /// The first slot of the group.
    pub fn start(self) -> (h: HTaskCore)
        ensures
            h.index() == self.first(),
            self.first() < 64,
            self.first() % 4 == 0,
    {
        proof {
            use_type_invariant(&self);
        }
        HTaskCore(self.0)
    }
}

/// Represents a task in `TimerQueue`: the slot number in the low `SIZE_BITS`
/// bits and the task's unique ID (a multiple of `SIZE`) in the rest.
#[derive(Debug, Clone, Copy, PartialEq, Eq, Hash, Structural)]
pub struct HTask(u64);

impl HTask {
    /// The raw value.
    pub closed spec fn value(self) -> u64 {
        self.0
    }

    /// The slot number held by a raw value.
    pub open spec fn slot_of(v: u64) -> int {
        (v % 64) as int
    }

    /// The ID held by a raw value.
    pub open spec fn id_of(v: u64) -> int {
        v - v % 64
    }

    /// Combine a slot and a task ID.
    pub fn new(slot: HTaskCore, id: u64) -> (h: HTask)
        requires
            id % 64 == 0,
        ensures
            h.value() == id + slot.index(),
            Self::slot_of(h.value()) == slot.index(),
            Self::id_of(h.value()) == id,
    {
        let c = slot.get() as u64;
        assert(c | id == (c + id) as u64 && ((c + id) as u64) % 64 == c && (c + id) as u64
            >= id) by (bit_vector)
            requires
                c < 64,
                id % 64 == 0,
        ;
        HTask(c | id)
    }

    /// The slot of the task.
    pub fn task_core(self) -> (h: HTaskCore)
        ensures
            h.index() == Self::slot_of(self.value()),
    {
        HTaskCore::new((self.0 % 64) as usize)
    }

    /// The ID of the task.
    pub fn id(self) -> (r: u64)
        ensures
            r == Self::id_of(self.value()),
            r % 64 == 0,
    {
        let v = self.0;
        assert(v & !63u64 == (v - v % 64) as u64 && ((v - v % 64) as u64) % 64 == 0 && v % 64
            <= v) by (bit_vector);
        v & !(SIZE as u64 - 1)
    }
}

/// The error returned when a queue is full.
#[derive(Debug, Clone, Copy, PartialEq, Eq, Structural)]
pub struct CapacityError;

// ============================================================================
// Bit iteration

/// `v` lists, in increasing order, exactly the set bits of `x`.
pub open spec fn lists_bits(v: Seq<HTaskCore>, x: u64) -> bool {
    &&& forall|i: int, j: int| 0 <= i < j < v.len() ==> v[i].index() < v[j].index()
    &&& forall|i: int| 0 <= i < v.len() ==> #[trigger] bit(x, v[i].index())
    &&& forall|k: int|
        0 <= k < 64 && #[trigger] bit(x, k) ==> exists|i: int| 0 <= i < v.len() && v[i].index() == k
}

/// Calculate `x.trailing_zeros()` and wrap it in `HTaskCore`.
pub fn trailing_zeros_as_htask(x: u64) -> (h: HTaskCore)
    requires
        x != 0,
    ensures
        bit(x, h.index()),
        forall|j: int| 0 <= j < h.index() ==> !#[trigger] bit(x, j),
        h.index() == x.trailing_zeros(),
{
    proof {
        lemma_tz_low(x);
        let t = x.trailing_zeros() as u64;
        assert forall|j: int| 0 <= j < t implies !#[trigger] bit(x, j) by {
            lemma_clear_lowest(x, t, j as u64);
        }
    }
    HTaskCore::new(x.trailing_zeros() as usize)
}

/// The set bits of `x`, in increasing order.
pub fn iter_bits(x: u64) -> (r: Vec<HTaskCore>)
    ensures
        lists_bits(r@, x),
{
    let mut rest = x;
    let mut out: Vec<HTaskCore> = Vec::new();
    while rest != 0
        invariant
            forall|k: int| 0 <= k < 64 ==> (bit(x, k) <==> (bit(rest, k) || exists|i: int|
                0 <= i < out.len() && out[i].index() == k)),
            forall|i: int, j: int| 0 <= i < j < out.len() ==> out[i].index() < out[j].index(),
            forall|i: int, k: int|
                0 <= i < out.len() && 0 <= k < 64 && bit(rest, k) ==> out[i].index() < k,
            forall|i: int| 0 <= i < out.len() ==> bit(x, #[trigger] out[i].index()),
            forall|i: int| 0 <= i < out.len() ==> 0 <= #[trigger] out[i].index() < 64,
        decreases rest,
    {
        let h = trailing_zeros_as_htask(rest);
        let ghost t = h.index();
        let ghost old_out = out@;
        let ghost old_rest = rest;
        proof {
            lemma_tz_low(rest);
        }
        out.push(h);
        rest = ((rest - 1) as u64) & rest;
        proof {
            assert forall|k: int| 0 <= k < 64 implies (bit(rest, k) == (bit(old_rest, k) && k
                != t)) && (k < t ==> !bit(old_rest, k)) by {
                lemma_clear_lowest(old_rest, t as u64, k as u64);
            }
            lemma_clear_lowest(old_rest, t as u64, 0);
            assert forall|k: int| 0 <= k < 64 implies (bit(x, k) <==> (bit(rest, k) || exists|
                i: int,
            | 0 <= i < out.len() && out[i].index() == k)) by {
                if bit(x, k) && !bit(rest, k) {
                    if k == t {
                        assert(out[old_out.len() as int].index() == k);
                    } else {
                        let i = choose|i: int| 0 <= i < old_out.len() && old_out[i].index() == k;
                        assert(out[i].index() == k);
                    }
                }
                if exists|i: int| 0 <= i < out.len() && out[i].index() == k {
                    let i = choose|i: int| 0 <= i < out.len() && out[i].index() == k;
                    if i < old_out.len() {
                        assert(old_out[i].index() == k);
                    }
                }
            }
        }
    }
    proof {
        assert forall|k: int| 0 <= k < 64 implies !bit(0u64, k) by {
            lemma_zero_and_full(k as u64);
        }
    }
    out
}

/// Like `iter_bits`, but returns the first slot of each group of four slots
/// any of whose bits are set.
pub fn iter_bit_groups4_any(x: u64) -> (r: Vec<HTaskGroup4>)
    ensures
        forall|i: int, j: int| 0 <= i < j < r.len() ==> r[i].first() < r[j].first(),
        forall|i: int|
            0 <= i < r.len() ==> 0 <= #[trigger] r[i].first() < 64 && r[i].first() % 4 == 0,
        forall|g: int|
            0 <= g < 64 && g % 4 == 0 && #[trigger] group_any(x, g) ==> exists|i: int|
                0 <= i < r.len() && r[i].first() == g,
{
    let mut y = x;
    y = y | (y >> 1);
    y = y | (y >> 2);
    y = y & 0x1111_1111_1111_1111u64;
    proof {
        assert forall|j: int| 0 <= j < 64 implies #[trigger] bit(y, j) == (j % 4 == 0 && (bit(
            x,
            j,
        ) || bit(x, j + 1) || bit(x, j + 2) || bit(x, j + 3))) by {
            lemma_groups4(x, j as u64);
        }
    }
    let starts = iter_bits(y);
    let mut out: Vec<HTaskGroup4> = Vec::new();
    let mut i: usize = 0;
    while i < starts.len()
        invariant
            i <= starts.len(),
            out.len() == i,
            lists_bits(starts@, y),
            forall|j: int| 0 <= j < 64 ==> #[trigger] bit(y, j) == (j % 4 == 0 && (bit(x, j)
                || bit(x, j + 1) || bit(x, j + 2) || bit(x, j + 3))),
            forall|k: int| 0 <= k < i ==> out[k].first() == #[trigger] starts[k].index(),
        decreases starts.len() - i,
    {
        let h = starts[i];
        let v = h.get();
        assert(bit(y, v as int));
        out.push(HTaskGroup4::new(v));
        i += 1;
    }
    proof {
        assert forall|g: int|
            0 <= g < 64 && g % 4 == 0 && #[trigger] group_any(x, g) implies exists|i: int|
                0 <= i < out.len() && out[i].first() == g by {
            assert(bit(y, g));
            let i = choose|i: int| 0 <= i < starts.len() && starts[i].index() == g;
            assert(out[i].first() == g);
        }
        assert forall|i: int, j: int| 0 <= i < j < out.len() implies out[i].first()
            < out[j].first() by {
            assert(out[i].first() == starts[i].index());
            assert(out[j].first() == starts[j].index());
        }
        assert forall|i: int| 0 <= i < out.len() implies 0 <= #[trigger] out[i].first() < 64
            && out[i].first() % 4 == 0 by {
            assert(bit(y, starts[i].index()));
        }
    }
    out
}

// ============================================================================
// The slot table

/// A slot-indexed table.
#[derive(Debug)]
pub struct Array<T>(pub T);

impl Array<Vec<u64>> {
    /// The table `[x; SIZE]`.
    pub fn filled(x: u64) -> (a: Array<Vec<u64>>)
        ensures
            a.0@ == Seq::new(64, |i: int| x),
    {
        let mut v: Vec<u64> = Vec::new();
        let mut i: usize = 0;
        while i < SIZE
            invariant
                i <= SIZE,
                v@ == Seq::new(i as nat, |k: int| x),
            decreases SIZE - i,
        {
            v.push(x);
            i += 1;
        }
        Array(v)
    }

    /// The entry of slot `h`.
    pub fn at(&self, h: HTaskCore) -> (r: u64)
        requires
            self.0.len() == SIZE,
        ensures
            r == self.0@[h.index()],
    {
        self.0[h.get()]
    }

    /// Replace the entry of slot `h`.
    pub fn put(&mut self, h: HTaskCore, x: u64)
        requires
            old(self).0.len() == SIZE,
        ensures
            final(self).0@ == old(self).0@.update(h.index(), x),
    {
        self.0.set(h.get(), x);
    }
}

/// The number of occupied entries of `s`.
pub open spec fn count_some<X>(s: Seq<Option<X>>) -> nat
    decreases s.len(),
{
    if s.len() == 0 {
        0
    } else {
        count_some(s.drop_last()) + if s.last() is Some {
            1nat
        } else {
            0nat
        }
    }
}

/// The start time, end time and payload of a task.
pub type Slot<T> = (u64, u64, T);

/// The slot holds a task whose start time is not after `time`.
pub open spec fn runnable_at<T>(s: Option<Slot<T>>, time: u64) -> bool {
    s is Some && s.unwrap().0 <= time
}

/// `v` lists, in increasing order, exactly the slots of `q` that are
/// runnable at `time`.
pub open spec fn lists_runnable<T>(v: Seq<HTaskCore>, q: Seq<Option<Slot<T>>>, time: u64) -> bool {
    &&& forall|i: int, j: int| 0 <= i < j < v.len() ==> v[i].index() < v[j].index()
    &&& forall|i: int|
        0 <= i < v.len() ==> #[trigger] runnable_at(q[v[i].index()], time) && 0 <= v[i].index()
            < 64
    &&& forall|k: int|
        0 <= k < 64 && #[trigger] runnable_at(q[k], time) ==> exists|i: int|
            0 <= i < v.len() && v[i].index() == k
}

/// `v` lists, in increasing order, exactly the occupied slots of `q`.
pub open spec fn lists_occupied<T>(v: Seq<HTaskCore>, q: Seq<Option<Slot<T>>>) -> bool {
    &&& forall|i: int, j: int| 0 <= i < j < v.len() ==> v[i].index() < v[j].index()
    &&& forall|i: int|
        0 <= i < v.len() ==> #[trigger] q[v[i].index()] is Some && 0 <= v[i].index() < 64
    &&& forall|k: int|
        0 <= k < 64 && #[trigger] q[k] is Some ==> exists|i: int|
            0 <= i < v.len() && v[i].index() == k
}

/// The fixed-capacity task table.
pub struct TimerQueueCore<T> {
    /// The start time of each task; `VACANT` for a vacant slot.
    start: Array<Vec<u64>>,
    /// The end time (deadline) of each task; `VACANT` for a vacant slot.
    end: Array<Vec<u64>>,
    /// The payload of each task; `Some` iff the slot is occupied.
    payloads: Vec<Option<T>>,
    /// Bit `i` is set iff slot `i` is occupied.
    bitmap: u64,
}

impl<T> View for TimerQueueCore<T> {
    type V = Seq<Option<Slot<T>>>;

    /// Slot `i` holds `Some((start, end, payload))` iff it is occupied.
    closed spec fn view(&self) -> Seq<Option<Slot<T>>> {
        Seq::new(
            64,
            |i: int|
                if bit(self.bitmap, i) {
                    Some((self.start.0@[i], self.end.0@[i], self.payloads@[i].unwrap()))
                } else {
                    None
                },
        )
    }
}

impl<T> TimerQueueCore<T> {
    /// Slot `i` is consistent with the bitmap.
    closed spec fn slot_ok(&self, i: int) -> bool {
        if bit(self.bitmap, i) {
            &&& self.payloads@[i] is Some
            &&& self.start.0@[i] <= TIME_MAX
            &&& self.end.0@[i] <= TIME_MAX
        } else {
            &&& self.payloads@[i] is None
            &&& self.start.0@[i] == VACANT
            &&& self.end.0@[i] == VACANT
        }
    }

    /// The table holds `SIZE` slots, each consistent with the bitmap.
    pub closed spec fn wf(&self) -> bool {
        &&& self.start.0.len() == SIZE
        &&& self.end.0.len() == SIZE
        &&& self.payloads.len() == SIZE
        &&& forall|i: int| 0 <= i < 64 ==> #[trigger] self.slot_ok(i)
    }

    proof fn lemma_view(&self)
        requires
            self.wf(),
        ensures
            self@.len() == 64,
            forall|i: int|
                0 <= i < 64 ==> (#[trigger] self@[i] is Some) == bit(self.bitmap, i),
            forall|i: int|
                0 <= i < 64 && bit(self.bitmap, i) ==> (#[trigger] self@[i]).unwrap().0
                    <= TIME_MAX && self@[i].unwrap().1 <= TIME_MAX,
    {
        assert forall|i: int| 0 <= i < 64 implies (#[trigger] self@[i] is Some) == bit(
            self.bitmap,
            i,
        ) by {
            assert(self.slot_ok(i));
        }
        assert forall|i: int| 0 <= i < 64 && bit(self.bitmap, i) implies (#[trigger] self@[
            i]).unwrap().0 <= TIME_MAX && self@[i].unwrap().1 <= TIME_MAX by {
            assert(self.slot_ok(i));
        }
    }

    proof fn lemma_view_len(&self)
        ensures
            self@.len() == 64,
    {
    }

    /// An empty queue.
    pub fn new() -> (q: Self)
        ensures
            q.wf(),
            q@ == Seq::new(64, |i: int| None::<Slot<T>>),
    {
        let mut payloads: Vec<Option<T>> = Vec::new();
        let mut i: usize = 0;
        while i < SIZE
            invariant
                i <= SIZE,
                payloads.len() == i,
                forall|k: int| 0 <= k < i ==> payloads@[k] is None,
            decreases SIZE - i,
        {
            payloads.push(None);
            i += 1;
        }
        let q = TimerQueueCore {
            start: Array::filled(VACANT),
            end: Array::filled(VACANT),
            payloads,
            bitmap: 0,
        };
        proof {
            assert forall|k: int| 0 <= k < 64 implies #[trigger] q.slot_ok(k) by {
                lemma_zero_and_full(k as u64);
            }
            assert forall|k: int| 0 <= k < 64 implies q@[k] == None::<Slot<T>> by {
                lemma_zero_and_full(k as u64);
            }
            assert(q@ =~= Seq::new(64, |i: int| None::<Slot<T>>));
        }
        q
    }

    /// The number of tasks.
    pub fn len(&self) -> (r: usize)
        requires
            self.wf(),
        ensures
            r == count_some(self@),
    {
        proof {
            self.lemma_view();
        }
        let mut n: usize = 0;
        let mut i: u64 = 0;
        while i < 64
            invariant
                i <= 64,
                self.wf(),
                n == count_some(self@.take(i as int)),
                n <= i,
            decreases 64 - i,
        {
            proof {
                assert(self@.take(i + 1).drop_last() =~= self@.take(i as int));
                assert(self@.take(i + 1).last() == self@[i as int]);
                self.lemma_view();
            }
            if (self.bitmap >> i) & 1 == 1 {
                n += 1;
            }
            i += 1;
        }
        proof {
            assert(self@.take(64) =~= self@);
        }
        n
    }

    /// Whether the queue has no task.
    pub fn is_empty(&self) -> (r: bool)
        requires
            self.wf(),
        ensures
            r == (forall|i: int| 0 <= i < 64 ==> #[trigger] self@[i] is None),
    {
        proof {
            self.lemma_view();
            if self.bitmap == 0 {
                assert forall|i: int| 0 <= i < 64 implies #[trigger] self@[i] is None by {
                    lemma_zero_and_full(i as u64);
                }
            } else if forall|i: int| 0 <= i < 64 ==> #[trigger] self@[i] is None {
                assert forall|j: int| 0 <= j < 64 implies !#[trigger] bit(self.bitmap, j) by {
                    assert(self@[j] is None);
                }
                lemma_no_bits_zero(self.bitmap);
            }
        }
        self.bitmap == 0
    }

    /// Put a task in the lowest vacant slot.
    pub fn insert(&mut self, time: Range<FixTime>, payload: T) -> (r: Result<HTaskCore, CapacityError>)
        requires
            old(self).wf(),
            time.start.0 <= TIME_MAX,
            time.end.0 <= TIME_MAX,
        ensures
            final(self).wf(),
            match r {
                Ok(h) => {
                    &&& old(self)@[h.index()] is None
                    &&& forall|j: int| 0 <= j < h.index() ==> old(self)@[j] is Some
                    &&& final(self)@ == old(self)@.update(
                        h.index(),
                        Some((time.start.0, time.end.0, payload)),
                    )
                },
                Err(_) => {
                    &&& forall|j: int| 0 <= j < 64 ==> #[trigger] old(self)@[j] is Some
                    &&& final(self)@ == old(self)@
                },
            },
    {
        proof {
            self.lemma_view();
        }
        let free_bitmap = !self.bitmap;
        if free_bitmap == 0 {
            proof {
                assert forall|j: int| 0 <= j < 64 implies #[trigger] self@[j] is Some by {
                    lemma_bit_not(self.bitmap, j as u64);
                    lemma_zero_and_full(j as u64);
                }
            }
            return Err(CapacityError);
        }
        let htask = trailing_zeros_as_htask(free_bitmap);
        let ghost old_self = *self;
        proof {
            use_type_invariant(&htask);
            lemma_bit_not(self.bitmap, htask.index() as u64);
            assert forall|j: int| 0 <= j < htask.index() implies old_self@[j] is Some by {
                lemma_bit_not(old_self.bitmap, j as u64);
            }
        }
        self.start.put(htask, time.start.0);
        self.end.put(htask, time.end.0);
        self.bitmap = self.bitmap | htask.mask();
        self.payloads.set(htask.get(), Some(payload));
        proof {
            assert forall|j: int|
                #![trigger self.slot_ok(j)]
                #![trigger self@[j]]
                0 <= j < 64 implies self.slot_ok(j) && self@[j] == (
            if j == htask.index() {
                Some((time.start.0, time.end.0, payload))
            } else {
                old_self@[j]
            }) by {
                lemma_bit_set(old_self.bitmap, htask.index() as u64, j as u64);
                assert(old_self.slot_ok(j));
            }
            assert(self@ =~= old_self@.update(
                htask.index(),
                Some((time.start.0, time.end.0, payload)),
            ));
        }
        Ok(htask)
    }

    /// Whether slot `htask` is occupied.
    fn occupied(&self, htask: HTaskCore) -> (r: bool)
        requires
            self.wf(),
        ensures
            r == self@[htask.index()] is Some,
    {
        let mask = htask.mask();
        proof {
            use_type_invariant(&htask);
            self.lemma_view();
            lemma_bit_mask(self.bitmap, htask.index() as u64);
        }
        (self.bitmap & mask) != 0
    }

    /// The payload of the task in slot `htask`, if any.
    pub fn get(&self, htask: HTaskCore) -> (r: Option<&T>)
        requires
            self.wf(),
        ensures
            r is Some == self@[htask.index()] is Some,
            r is Some ==> *r.unwrap() == self@[htask.index()].unwrap().2,
    {
        proof {
            use_type_invariant(&htask);
        }
        if !self.occupied(htask) {
            return None;
        }
        proof {
            assert(self.slot_ok(htask.index()));
        }
        self.payloads[htask.get()].as_ref()
    }

    /// Remove the task in slot `htask`, returning its payload.
    pub fn remove(&mut self, htask: HTaskCore) -> (r: Option<T>)
        requires
            old(self).wf(),
        ensures
            final(self).wf(),
            final(self)@ == old(self)@.update(htask.index(), None),
            r is Some == old(self)@[htask.index()] is Some,
            r is Some ==> r.unwrap() == old(self)@[htask.index()].unwrap().2,
    {
        proof {
            use_type_invariant(&htask);
            self.lemma_view();
        }
        if !self.occupied(htask) {
            proof {
                assert(self@ =~= self@.update(htask.index(), None));
            }
            return None;
        }
        Some(self.remove_unchecked(htask))
    }

    /// Remove the task in the occupied slot `htask`, returning its payload.
    fn remove_unchecked(&mut self, htask: HTaskCore) -> (r: T)
        requires
            old(self).wf(),
            old(self)@[htask.index()] is Some,
        ensures
            final(self).wf(),
            final(self)@ == old(self)@.update(htask.index(), None),
            r == old(self)@[htask.index()].unwrap().2,
    {
        let ghost old_self = *self;
        let mask = htask.mask();
        proof {
            use_type_invariant(&htask);
            old_self.lemma_view();
            assert(old_self.slot_ok(htask.index()));
            lemma_bit_mask(self.bitmap, htask.index() as u64);
        }
        self.start.put(htask, VACANT);
        self.end.put(htask, VACANT);
        self.bitmap = self.bitmap & !mask;
        let mut taken: Option<T> = None;
        self.payloads.set_and_swap(htask.get(), &mut taken);
        proof {
            assert forall|j: int|
                #![trigger self.slot_ok(j)]
                #![trigger self@[j]]
                0 <= j < 64 implies self.slot_ok(j) && self@[j] == (
            if j == htask.index() {
                None
            } else {
                old_self@[j]
            }) by {
                lemma_bit_clear(old_self.bitmap, htask.index() as u64, j as u64);
                assert(old_self.slot_ok(j));
            }
            assert(self@ =~= old_self@.update(htask.index(), None));
        }
        taken.unwrap()
    }

    /// The slots runnable at `time`, in increasing order.
    #[verifier::spinoff_prover]
    pub fn runnable_tasks(&self, time: FixTime) -> (r: Vec<HTaskCore>)
        requires
            self.wf(),
            time.0 <= TIME_MAX,
        ensures
            lists_runnable(r@, self@, time.0),
    {
        proof {
            self.lemma_view();
        }
        let groups = iter_bit_groups4_any(self.bitmap);
        let mut runnable: u64 = 0;
        let mut gi: usize = 0;
        proof {
            assert forall|k: int| 0 <= k < 64 implies !#[trigger] bit(0u64, k) by {
                lemma_zero_and_full(k as u64);
            }
        }
        while gi < groups.len()
            invariant
                self.wf(),
                time.0 <= TIME_MAX,
                gi <= groups.len(),
                forall|i: int|
                    0 <= i < groups.len() ==> 0 <= #[trigger] groups[i].first() < 64
                        && groups[i].first() % 4 == 0,
                forall|k: int| 0 <= k < 64 && #[trigger] bit(runnable, k) ==> runnable_at(self@[k], time.0),
                forall|i: int, k: int|
                    #![trigger groups[i].first(), self@[k]]
                    0 <= i < gi && groups[i].first() <= k < groups[i].first() + 4 && runnable_at(
                        self@[k],
                        time.0,
                    ) ==> bit(runnable, k),
            decreases groups.len() - gi,
        {
            let g = groups[gi].start().get();
            let mut lane: usize = 0;
            while lane < 4
                invariant
                    self.wf(),
                    time.0 <= TIME_MAX,
                    gi < groups.len(),
                    g == groups[gi as int].first(),
                    g < 64,
                    g % 4 == 0,
                    lane <= 4,
                    forall|i: int|
                        0 <= i < groups.len() ==> 0 <= #[trigger] groups[i].first() < 64
                            && groups[i].first() % 4 == 0,
                    forall|k: int|
                        0 <= k < 64 && #[trigger] bit(runnable, k) ==> runnable_at(self@[k], time.0),
                    forall|i: int, k: int|
                        #![trigger groups[i].first(), self@[k]]
                        0 <= i < gi && groups[i].first() <= k < groups[i].first() + 4
                            && runnable_at(self@[k], time.0) ==> bit(runnable, k),
                    forall|k: int|
                        g <= k < g + lane && runnable_at(#[trigger] self@[k], time.0) ==> bit(
                            runnable,
                            k,
                        ),
                decreases 4 - lane,
            {
                let h = HTaskCore::new(g + lane);
                let ghost old_runnable = runnable;
                proof {
                    self.lemma_view();
                    assert(self.slot_ok(h.index()));
                }
                if self.start.at(h) <= time.0 {
                    runnable = runnable | (1u64 << ((g + lane) as u64));
                }
                proof {
                    assert forall|k: int| 0 <= k < 64 implies #[trigger] bit(runnable, k) == (bit(
                        old_runnable,
                        k,
                    ) || (k == g + lane && self.start.0@[h.index()] <= time.0)) by {
                        lemma_bit_set(old_runnable, (g + lane) as u64, k as u64);
                    }
                }
                lane += 1;
            }
            gi += 1;
        }
        let r = iter_bits(runnable);
        proof {
            assert forall|k: int| 0 <= k < 64 && #[trigger] runnable_at(self@[k], time.0) implies bit(
                runnable,
                k,
            ) by {
                let g = k - k % 4;
                assert(bit(self.bitmap, k));
                assert(group_any(self.bitmap, g));
                let i = choose|i: int| 0 <= i < groups.len() && groups[i].first() == g;
            }
            assert forall|i: int| 0 <= i < r.len() implies #[trigger] runnable_at(
                self@[r[i].index()],
                time.0,
            ) && 0 <= r[i].index() < 64 by {
                assert(bit(runnable, r[i].index()));
            }
            assert forall|k: int| 0 <= k < 64 && #[trigger] runnable_at(self@[k], time.0) implies exists|
                i: int,
            | 0 <= i < r.len() && r[i].index() == k by {
                assert(bit(runnable, k));
            }
        }
        r
    }

    /// Remove every task runnable at `time`, returning them in increasing
    /// slot order.
    pub fn drain_runnable_tasks(&mut self, time: FixTime) -> (r: Vec<(HTaskCore, T)>)
        requires
            old(self).wf(),
            time.0 <= TIME_MAX,
        ensures
            final(self).wf(),
            lists_runnable(r@.map_values(|e: (HTaskCore, T)| e.0), old(self)@, time.0),
            forall|i: int|
                0 <= i < r.len() ==> r[i].1 == #[trigger] old(self)@[r[i].0.index()].unwrap().2,
            final(self)@ == Seq::new(
                64,
                |k: int|
                    if runnable_at(old(self)@[k], time.0) {
                        None
                    } else {
                        old(self)@[k]
                    },
            ),
    {
        let ghost old_q = self@;
        let hs = self.runnable_tasks(time);
        let mut out: Vec<(HTaskCore, T)> = Vec::new();
        let mut i: usize = 0;
        while i < hs.len()
            invariant
                self.wf(),
                i <= hs.len(),
                out.len() == i,
                lists_runnable(hs@, old_q, time.0),
                forall|j: int| 0 <= j < i ==> (#[trigger] out[j]).0 == hs[j],
                forall|j: int| 0 <= j < i ==> (#[trigger] out[j]).1 == old_q[hs[j].index()].unwrap().2,
                self@.len() == 64,
                forall|k: int|
                    0 <= k < 64 ==> #[trigger] self@[k] == if exists|j: int|
                        0 <= j < i && hs[j].index() == k {
                        None
                    } else {
                        old_q[k]
                    },
            decreases hs.len() - i,
        {
            let h = hs[i];
            proof {
                use_type_invariant(&h);
                assert(runnable_at(old_q[h.index()], time.0));
                assert forall|j: int| 0 <= j < i implies hs[j].index() != h.index() by {}
                assert(self@[h.index()] == old_q[h.index()]);
            }
            let ghost before = self@;
            let p = self.remove_unchecked(h);
            out.push((h, p));
            i += 1;
            proof {
                assert forall|k: int| 0 <= k < 64 implies #[trigger] self@[k] == if exists|j: int|
                    0 <= j < i && hs[j].index() == k {
                    None
                } else {
                    old_q[k]
                } by {
                    if k == h.index() {
                        assert(hs[i - 1].index() == k);
                    } else {
                        assert(self@[k] == before[k]);
                        if exists|j: int| 0 <= j < i && hs[j].index() == k {
                            let j = choose|j: int| 0 <= j < i && hs[j].index() == k;
                            assert(j != i - 1);
                            assert(exists|j2: int| 0 <= j2 < i - 1 && hs[j2].index() == k);
                        }
                    }
                }
            }
        }
        proof {
            let keys = out@.map_values(|e: (HTaskCore, T)| e.0);
            assert(keys =~= hs@);
            assert forall|k: int| 0 <= k < 64 implies self@[k] == (if runnable_at(old_q[k], time.0) {
                None
            } else {
                old_q[k]
            }) by {
                if runnable_at(old_q[k], time.0) {
                    let j = choose|j: int| 0 <= j < hs.len() && hs[j].index() == k;
                    assert(exists|j: int| 0 <= j < i && hs[j].index() == k);
                } else {
                    if exists|j: int| 0 <= j < i && hs[j].index() == k {
                        let j = choose|j: int| 0 <= j < i && hs[j].index() == k;
                        assert(runnable_at(old_q[hs[j].index()], time.0));
                    }
                }
            }
            assert(self@ =~= Seq::new(
                64,
                |k: int|
                    if runnable_at(old_q[k], time.0) {
                        None
                    } else {
                        old_q[k]
                    },
            ));
        }
        out
    }

    /// The earliest deadline among the tasks, or `None` if there is no task.
    pub fn suggest_next_wakeup(&self) -> (r: Option<FixTime>)
        requires
            self.wf(),
        ensures
            r is None == (forall|k: int| 0 <= k < 64 ==> #[trigger] self@[k] is None),
            r is Some ==> exists|k: int|
                0 <= k < 64 && #[trigger] self@[k] is Some && self@[k].unwrap().1 == r.unwrap().0,
            r is Some ==> forall|k: int|
                0 <= k < 64 && #[trigger] self@[k] is Some ==> r.unwrap().0 <= self@[k].unwrap().1,
    {
        proof {
            self.lemma_view();
        }
        if self.bitmap == 0 {
            proof {
                assert forall|k: int| 0 <= k < 64 implies #[trigger] self@[k] is None by {
                    lemma_zero_and_full(k as u64);
                }
            }
            return None;
        }
        let groups = iter_bit_groups4_any(self.bitmap);
        let mut min_end: u64 = VACANT;
        let mut gi: usize = 0;
        while gi < groups.len()
            invariant
                self.wf(),
                gi <= groups.len(),
                forall|i: int|
                    0 <= i < groups.len() ==> 0 <= #[trigger] groups[i].first() < 64
                        && groups[i].first() % 4 == 0,
                min_end == VACANT || exists|k: int|
                    0 <= k < 64 && #[trigger] self@[k] is Some && self@[k].unwrap().1 == min_end,
                forall|i: int, k: int|
                    #![trigger groups[i].first(), self@[k]]
                    0 <= i < gi && groups[i].first() <= k < groups[i].first() + 4 && self@[k] is Some
                        ==> min_end <= self@[k].unwrap().1,
            decreases groups.len() - gi,
        {
            let g = groups[gi].start().get();
            let mut lane: usize = 0;
            while lane < 4
                invariant
                    self.wf(),
                    gi < groups.len(),
                    g == groups[gi as int].first(),
                    g < 64,
                    g % 4 == 0,
                    lane <= 4,
                    forall|i: int|
                        0 <= i < groups.len() ==> 0 <= #[trigger] groups[i].first() < 64
                            && groups[i].first() % 4 == 0,
                    min_end == VACANT || exists|k: int|
                        0 <= k < 64 && #[trigger] self@[k] is Some && self@[k].unwrap().1
                            == min_end,
                    forall|i: int, k: int|
                        #![trigger groups[i].first(), self@[k]]
                        0 <= i < gi && groups[i].first() <= k < groups[i].first() + 4
                            && self@[k] is Some ==> min_end <= self@[k].unwrap().1,
                    forall|k: int|
                        g <= k < g + lane && (#[trigger] self@[k]) is Some ==> min_end
                            <= self@[k].unwrap().1,
                decreases 4 - lane,
            {
                let h = HTaskCore::new(g + lane);
                proof {
                    self.lemma_view();
                    assert(self.slot_ok(h.index()));
                }
                let e = self.end.at(h);
                if e < min_end {
                    min_end = e;
                    proof {
                        assert(self@[h.index()] is Some);
                    }
                }
                lane += 1;
            }
            gi += 1;
        }
        proof {
            let k0 = choose|k: int| 0 <= k < 64 && bit(self.bitmap, k);
            if !(exists|k: int| 0 <= k < 64 && bit(self.bitmap, k)) {
                lemma_no_bits_zero(self.bitmap);
            }
            let k0 = choose|k: int| 0 <= k < 64 && bit(self.bitmap, k);
            assert(group_any(self.bitmap, k0 - k0 % 4));
            let i0 = choose|i: int| 0 <= i < groups.len() && groups[i].first() == k0 - k0 % 4;
            assert(self@[k0] is Some);
            assert(min_end <= self@[k0].unwrap().1);
            assert forall|k: int| 0 <= k < 64 && #[trigger] self@[k] is Some implies min_end
                <= self@[k].unwrap().1 by {
                assert(group_any(self.bitmap, k - k % 4));
                let i = choose|i: int| 0 <= i < groups.len() && groups[i].first() == k - k % 4;
            }
        }
        Some(FixTime(min_end))
    }

    /// The tasks in increasing slot order.
    pub fn iter(&self) -> (r: Vec<(HTaskCore, Range<FixTime>, &T)>)
        requires
            self.wf(),
        ensures
            lists_occupied(r@.map_values(|e: (HTaskCore, Range<FixTime>, &T)| e.0), self@),
            forall|i: int|
                0 <= i < r.len() ==> {
                    let s = #[trigger] self@[r[i].0.index()].unwrap();
                    r[i].1.start.0 == s.0 && r[i].1.end.0 == s.1 && *r[i].2 == s.2
                },
    {
        proof {
            self.lemma_view();
        }
        let hs = iter_bits(self.bitmap);
        let mut out: Vec<(HTaskCore, Range<FixTime>, &T)> = Vec::new();
        let mut i: usize = 0;
        while i < hs.len()
            invariant
                self.wf(),
                i <= hs.len(),
                out.len() == i,
                lists_bits(hs@, self.bitmap),
                forall|j: int| 0 <= j < i ==> (#[trigger] out[j]).0 == hs[j],
                forall|j: int|
                    0 <= j < i ==> {
                        let s = #[trigger] self@[out[j].0.index()].unwrap();
                        out[j].1.start.0 == s.0 && out[j].1.end.0 == s.1 && *out[j].2 == s.2
                    },
            decreases hs.len() - i,
        {
            let h = hs[i];
            proof {
                self.lemma_view();
                assert(bit(self.bitmap, h.index()));
                assert(self.slot_ok(h.index()));
            }
            let p = self.payloads[h.get()].as_ref().unwrap();
            out.push((h, FixTime(self.start.at(h))..FixTime(self.end.at(h)), p));
            i += 1;
        }
        proof {
            let keys = out@.map_values(|e: (HTaskCore, Range<FixTime>, &T)| e.0);
            assert(keys =~= hs@);
            self.lemma_view();
            assert forall|k: int| 0 <= k < 64 && #[trigger] self@[k] is Some implies exists|j: int|
                0 <= j < keys.len() && keys[j].index() == k by {
                assert(bit(self.bitmap, k));
            }
            assert forall|j: int| 0 <= j < keys.len() implies #[trigger] self@[keys[j].index()] is Some
                && 0 <= keys[j].index() < 64 by {
                assert(bit(self.bitmap, hs[j].index()));
            }
        }
        out
    }
}

// ============================================================================
// The queue with task IDs and a clock origin

#[verifier::external_type_specification]
#[verifier::external_body]
pub struct ExInstant(Instant);

/// Calls `std::time::Instant::now`. Nothing is stated of the result: it
/// is the clock's current reading.
#[verifier::external_body]
fn instant_now() -> Instant {
    Instant::now()
}

/// Calls `std::time::Instant::elapsed` on `origin` and returns the span as
/// whole seconds and subsecond nanoseconds. The span depends on the clock;
/// only that the nanosecond part is below one second (as `Duration`
/// documents for `subsec_nanos`) is stated.
#[verifier::external_body]
fn instant_elapsed(origin: &Instant) -> (d: Dur)
    ensures
        d.wf(),
{
    let e = origin.elapsed();
    Dur { secs: e.as_secs(), nanos: e.subsec_nanos() }
}

/// Calls `std::time::Instant::checked_add` with the span `d`, built by
/// `Duration::new`, which cannot overflow here since the nanosecond part is
/// below one second. The result depends on the platform's representation of
/// instants; nothing is stated of it.
#[verifier::external_body]
fn instant_checked_add(origin: &Instant, d: Dur) -> Option<Instant>
    requires
        d.wf(),
{
    origin.checked_add(Duration::new(d.secs, d.nanos))
}

/// The time value `offset + delay`, or `None` where it exceeds `TIME_MAX`
/// (or the range of a span).
pub open spec fn fix_after_spec(delay: Dur, offset: Dur) -> Option<FixTime> {
    let total = delay.total_nanos() + offset.total_nanos();
    let secs = total / 1_000_000_000;
    let nanos = total % 1_000_000_000;
    if secs <= u64::MAX >> 20u64 && secs * 0x10_0000 + nanos / 1024 <= TIME_MAX {
        Some(FixTime((secs * 0x10_0000 + nanos / 1024) as u64))
    } else {
        None
    }
}

/// Convert `delay` measured from `offset` into a time value.
pub fn fix_time_after(delay: Dur, offset: Dur) -> (r: Option<FixTime>)
    requires
        delay.wf(),
        offset.wf(),
    ensures
        r == fix_after_spec(delay, offset),
{
    match delay.checked_add(offset) {
        None => {
            proof {
                assert(0xffff_ffff_ffff_ffffu64 >> 20u64 == 0xfff_ffff_ffffu64) by (bit_vector);
                let total = delay.total_nanos() + offset.total_nanos();
                assert(total / 1_000_000_000 > u64::MAX >> 20u64) by (nonlinear_arith)
                    requires
                        total == delay.secs * 1_000_000_000 + delay.nanos + offset.secs
                            * 1_000_000_000 + offset.nanos,
                        delay.nanos < 1_000_000_000,
                        offset.nanos < 1_000_000_000,
                        delay.secs + offset.secs + (if delay.nanos + offset.nanos
                            >= 1_000_000_000 {
                            1int
                        } else {
                            0int
                        }) > u64::MAX,
                        u64::MAX >> 20u64 < u64::MAX,
                ;
            }
            None
        },
        Some(d) => {
            proof {
                let total = delay.total_nanos() + offset.total_nanos();
                assert(total / 1_000_000_000 == d.secs && total % 1_000_000_000 == d.nanos)
                    by (nonlinear_arith)
                    requires
                        total == d.secs * 1_000_000_000 + d.nanos,
                        d.nanos < 1_000_000_000,
                ;
            }
            if d.secs > (u64::MAX >> 20) {
                return None;
            }
            let t = FixTime::from_dur(d);
            if t.0 > TIME_MAX {
                None
            } else {
                Some(t)
            }
        },
    }
}

/// `r` lists the tasks of `before` whose start time is not after `time`,
/// each once with its payload, and `after` holds the others.
pub open spec fn drained<T>(
    before: Map<u64, Slot<T>>,
    after: Map<u64, Slot<T>>,
    r: Seq<(HTask, T)>,
    time: u64,
) -> bool {
    &&& forall|i: int|
        0 <= i < r.len() ==> {
            let v = (#[trigger] r[i]).0.value();
            &&& before.contains_key(v)
            &&& before[v].0 <= time
            &&& r[i].1 == before[v].2
        }
    &&& forall|i: int, j: int| 0 <= i < j < r.len() ==> r[i].0.value() != r[j].0.value()
    &&& forall|i: int, j: int|
        0 <= i < j < r.len() ==> HTask::slot_of(#[trigger] r[i].0.value()) < HTask::slot_of(
            #[trigger] r[j].0.value(),
        )
    &&& forall|v: u64|
        #[trigger] before.contains_key(v) && before[v].0 <= time ==> exists|i: int|
            0 <= i < r.len() && r[i].0.value() == v
    &&& after == Map::new(|v: u64| before.contains_key(v) && time < before[v].0, |v: u64| before[v])
}

/// `after` holds the tasks of `before` and a new task under the handle
/// value `v` (which `before` does not hold) with the payload `payload`.
pub open spec fn inserted<T>(before: Map<u64, Slot<T>>, after: Map<u64, Slot<T>>, v: u64, payload: T) -> bool {
    &&& !before.contains_key(v)
    &&& after.dom() == before.dom().insert(v)
    &&& after[v].2 == payload
    &&& after.remove(v) == before
}

/// `r` is the payload of the task under the handle value `v` in `before`, if
/// there is one, and `after` holds the other tasks of `before`.
pub open spec fn removed<T>(before: Map<u64, Slot<T>>, after: Map<u64, Slot<T>>, v: u64, r: Option<T>) -> bool {
    &&& r is Some == before.contains_key(v)
    &&& r is Some ==> r.unwrap() == before[v].2
    &&& after == before.remove(v)
}

/// A timer queue that hands out task handles which are never reused.
pub struct TimerQueue<T> {
    core: TimerQueueCore<(u64, T)>,
    origin: Instant,
    next_id: u64,
}

impl<T> View for TimerQueue<T> {
    type V = Map<u64, Slot<T>>;

    /// Maps the raw value of each live `HTask` to its start time, end time
    /// and payload.
    closed spec fn view(&self) -> Map<u64, Slot<T>> {
        Map::new(
            |v: u64| self.holds(v),
            |v: u64|
                {
                    let s = self.core@[HTask::slot_of(v)].unwrap();
                    (s.0, s.1, s.2.1)
                },
        )
    }
}

impl<T> TimerQueue<T> {
    /// The task in slot `slot_of(v)` carries the ID `id_of(v)`.
    closed spec fn holds(&self, v: u64) -> bool {
        &&& self.core@[HTask::slot_of(v)] is Some
        &&& self.core@[HTask::slot_of(v)].unwrap().2.0 == HTask::id_of(v)
    }

    /// The table is well formed, the next ID is a multiple of `SIZE`, and
    /// every stored ID is a multiple of `SIZE` below it.
    pub closed spec fn wf(&self) -> bool {
        &&& self.core.wf()
        &&& self.next_id % 64 == 0
        &&& forall|k: int|
            0 <= k < 64 && (#[trigger] self.core@[k]) is Some ==> self.core@[k].unwrap().2.0 % 64
                == 0 && self.core@[k].unwrap().2.0 < self.next_id
    }

    /// The ID that the next insertion uses.
    pub closed spec fn next_id_spec(&self) -> u64 {
        self.next_id
    }

    /// Every live handle carries an ID below the next one.
    pub proof fn lemma_ids_below_next(&self, v: u64)
        requires
            self.wf(),
            self@.contains_key(v),
        ensures
            HTask::id_of(v) < self.next_id_spec(),
    {
        assert(self.core@[HTask::slot_of(v)] is Some);
    }

    /// Task IDs are left for another insertion.
    pub open spec fn has_ids_left(&self) -> bool {
        self.next_id_spec() <= u64::MAX - 64
    }

    /// Whether task IDs are left for another insertion.
    pub fn ids_left(&self) -> (r: bool)
        ensures
            r == self.has_ids_left(),
    {
        self.next_id <= u64::MAX - 64
    }

    /// An empty queue whose clock origin is now.
    pub fn new() -> (q: Self)
        ensures
            q.wf(),
            q.has_ids_left(),
            q.next_id_spec() == 0,
            q@ == Map::<u64, Slot<T>>::empty(),
    {
        let q = TimerQueue { core: TimerQueueCore::new(), origin: instant_now(), next_id: 0 };
        proof {
            assert(q@ =~= Map::<u64, Slot<T>>::empty());
        }
        q
    }

    /// The clock origin that the time values count from.
    pub closed spec fn origin_spec(&self) -> Instant {
        self.origin
    }

    /// The clock origin that the time values count from.
    pub fn origin(&self) -> (r: &Instant)
        ensures
            *r == self.origin_spec(),
    {
        &self.origin
    }

    /// The number of tasks.
    pub fn len(&self) -> (r: usize)
        requires
            self.wf(),
        ensures
            r == self@.len(),
    {
        let n = self.core.len();
        proof {
            self.lemma_len();
        }
        n
    }

    /// Whether the queue has no task.
    pub fn is_empty(&self) -> (r: bool)
        requires
            self.wf(),
        ensures
            r == (self@ == Map::<u64, Slot<T>>::empty()),
    {
        let r = self.core.is_empty();
        proof {
            if r {
                assert(self@ =~= Map::<u64, Slot<T>>::empty());
            } else {
                let k = choose|k: int| 0 <= k < 64 && !(#[trigger] self.core@[k] is None);
                let v = (self.core@[k].unwrap().2.0 + k) as u64;
                assert(HTask::slot_of(v) == k);
                assert(self@.contains_key(v));
            }
        }
        r
    }

    /// The queue holds finitely many tasks, so its view has a length.
    pub proof fn lemma_view_finite(&self)
        requires
            self.wf(),
        ensures
            self@.dom().finite(),
    {
        self.lemma_len();
    }

    /// Each occupied slot holds exactly one key of the view, and the view has
    /// `count_some` keys.
    proof fn lemma_len(&self)
        requires
            self.wf(),
        ensures
            self@.dom().finite(),
            self@.len() == count_some(self.core@),
    {
        let q = self.core@;
        assert(q.len() == 64) by {
            self.core.lemma_view_len();
        }
        self.lemma_len_prefix(64);
        assert(q.take(64) =~= q);
        assert(self@.dom() =~= self.keys_below(64));
    }

    /// The keys of the view whose slot is below `n`.
    closed spec fn keys_below(&self, n: int) -> Set<u64> {
        Set::new(|v: u64| self.holds(v) && HTask::slot_of(v) < n)
    }

    /// The keys below slot `n` are those below slot `n - 1`, plus the key of
    /// slot `n - 1` where that slot is occupied.
    proof fn lemma_keys_below_step(&self, n: int)
        requires
            self.wf(),
            1 <= n <= 64,
        ensures
            self.core@[n - 1] is None ==> self.keys_below(n) == self.keys_below(n - 1),
            self.core@[n - 1] is Some ==> {
                let v = (self.core@[n - 1].unwrap().2.0 + (n - 1)) as u64;
                &&& !self.keys_below(n - 1).contains(v)
                &&& self.keys_below(n) == self.keys_below(n - 1).insert(v)
            },
    {
        self.core.lemma_view_len();
        let q = self.core@;
        if q[n - 1] is Some {
            let id = q[n - 1].unwrap().2.0;
            let v = (id + (n - 1)) as u64;
            assert(id % 64 == 0 && id < self.next_id);
            assert(HTask::slot_of(v) == n - 1 && HTask::id_of(v) == id);
            assert(self.keys_below(n) =~= self.keys_below(n - 1).insert(v));
        } else {
            assert(self.keys_below(n) =~= self.keys_below(n - 1));
        }
    }

    proof fn lemma_len_prefix(&self, n: int)
        requires
            self.wf(),
            0 <= n <= 64,
        ensures
            self.keys_below(n).finite(),
            self.keys_below(n).len() == count_some(self.core@.take(n)),
        decreases n,
    {
        self.core.lemma_view_len();
        let q = self.core@;
        if n == 0 {
            assert(self.keys_below(0) =~= Set::empty());
            assert(q.take(0) =~= Seq::empty());
        } else {
            self.lemma_len_prefix(n - 1);
            self.lemma_keys_below_step(n);
            assert(q.take(n).drop_last() =~= q.take(n - 1));
            assert(q.take(n).last() == q[n - 1]);
        }
    }

    /// Add a task with the given start time and deadline.
    ///
    /// A task ID is used up even when the queue is full.
    pub fn insert_fix(&mut self, time: Range<FixTime>, payload: T) -> (r: Result<HTask, CapacityError>)
        requires
            old(self).wf(),
            old(self).has_ids_left(),
            time.start.0 <= TIME_MAX,
            time.end.0 <= TIME_MAX,
        ensures
            final(self).wf(),
            final(self).next_id_spec() == old(self).next_id_spec() + SIZE,
            r is Err <==> old(self)@.len() == SIZE,
            final(self)@.len() == old(self)@.len() + if r is Ok {
                1int
            } else {
                0int
            },
            match r {
                Ok(h) => {
                    &&& HTask::id_of(h.value()) == old(self).next_id_spec()
                    &&& !old(self)@.contains_key(h.value())
                    &&& final(self)@ == old(self)@.insert(
                        h.value(),
                        (time.start.0, time.end.0, payload),
                    )
                },
                Err(_) => {
                    &&& old(self)@.len() == SIZE
                    &&& final(self)@ == old(self)@
                },
            },
    {
        let id = self.next_id;
        self.next_id = id + SIZE as u64;
        let ghost old_core = self.core@;
        let ghost old_view = old(self)@;
        match self.core.insert(time, (id, payload)) {
            Ok(hc) => {
                let h = HTask::new(hc, id);
                proof {
                    use_type_invariant(&hc);
                    assert forall|k: int|
                        0 <= k < 64 && (#[trigger] self.core@[k]) is Some implies self.core@[
                        k].unwrap().2.0 % 64 == 0 && self.core@[k].unwrap().2.0
                        < self.next_id by {
                        if k != hc.index() {
                            assert(self.core@[k] == old_core[k]);
                        }
                    }
                    assert(!old_view.contains_key(h.value()));
                    assert forall|v: u64| #[trigger] self@.contains_key(v) == old_view.insert(
                        h.value(),
                        (time.start.0, time.end.0, payload),
                    ).contains_key(v) by {
                        if HTask::slot_of(v) == hc.index() && self.holds(v) {
                            assert(v == h.value());
                        }
                        if HTask::slot_of(v) != hc.index() {
                            assert(self.core@[HTask::slot_of(v)] == old_core[HTask::slot_of(v)]);
                        }
                    }
                    assert(self@ =~= old_view.insert(
                        h.value(),
                        (time.start.0, time.end.0, payload),
                    ));
                    old(self).lemma_len();
                    lemma_count_vacant(old_core, hc.index());
                }
                Ok(h)
            },
            Err(e) => {
                proof {
                    old(self).lemma_len();
                    self.core.lemma_view_len();
                    lemma_count_all(old_core);
                    assert(self@ =~= old_view);
                }
                Err(e)
            },
        }
    }

    /// Add a task that must run between `delay.start` and `delay.end` from
    /// now.
    ///
    /// Returns `Err(CapacityError)` if the queue is full, and also if a time
    /// of the task lies beyond `TIME_MAX`, which no time value represents.
    pub fn insert(&mut self, delay: Range<Dur>, payload: T) -> (r: Result<HTask, CapacityError>)
        requires
            old(self).wf(),
            old(self).has_ids_left(),
            delay.start.wf(),
            delay.end.wf(),
        ensures
            final(self).wf(),
            final(self).next_id_spec() == old(self).next_id_spec() + SIZE,
            old(self)@.len() == SIZE ==> r is Err,
            final(self)@.len() == old(self)@.len() + if r is Ok {
                1int
            } else {
                0int
            },
            match r {
                Ok(h) => {
                    &&& HTask::id_of(h.value()) == old(self).next_id_spec()
                    &&& inserted(old(self)@, final(self)@, h.value(), payload)
                    &&& exists|offset: Dur|
                        offset.wf() && fix_after_spec(delay.start, offset) == Some(
                            FixTime(final(self)@[h.value()].0),
                        ) && fix_after_spec(delay.end, offset) == Some(
                            FixTime(final(self)@[h.value()].1),
                        )
                },
                Err(_) => final(self)@ == old(self)@,
            },
            exists|offset: Dur|
                offset.wf() && (r is Ok <==> (old(self)@.len() < SIZE && fix_after_spec(delay.start, offset) is Some
                    && fix_after_spec(delay.end, offset) is Some)),
    {
        let offset = instant_elapsed(&self.origin);
        let start = fix_time_after(delay.start, offset);
        let end = fix_time_after(delay.end, offset);
        proof {
            old(self).lemma_len();
            assert(old(self).core@.len() == 64) by {
                old(self).core.lemma_view_len();
            }
            lemma_count_bound(old(self).core@);
        }
        match (start, end) {
            (Some(s), Some(e)) => {
                let r = self.insert_fix(s..e, payload);
                proof {
                    assert(r is Ok <==> (old(self)@.len() < SIZE && fix_after_spec(delay.start, offset) is Some
                        && fix_after_spec(delay.end, offset) is Some));
                    if let Ok(h) = r {
                        assert(self@.dom() =~= old(self)@.dom().insert(h.value()));
                        assert(self@.remove(h.value()) =~= old(self)@);
                        assert(fix_after_spec(delay.start, offset) == Some(
                            FixTime(self@[h.value()].0),
                        ));
                    }
                }
                r
            },
            _ => {
                let ghost v0 = self@;
                self.next_id = self.next_id + SIZE as u64;
                proof {
                    assert(self@ =~= v0);
                    assert(!(fix_after_spec(delay.start, offset) is Some && fix_after_spec(delay.end, offset) is Some));
                }
                Err(CapacityError)
            },
        }
    }

    /// Remove the task `htask`, returning its payload; `None` if the queue
    /// does not hold it.
    pub fn remove(&mut self, htask: HTask) -> (r: Option<T>)
        requires
            old(self).wf(),
        ensures
            final(self).wf(),
            final(self).next_id_spec() == old(self).next_id_spec(),
            removed(old(self)@, final(self)@, htask.value(), r),
            final(self)@.len() == old(self)@.len() - if r is Some {
                1int
            } else {
                0int
            },
    {
        let hc = htask.task_core();
        let id = htask.id();
        let ghost old_core = self.core@;
        let ghost old_view = self@;
        proof {
            self.lemma_view_finite();
        }
        let matches = match self.core.get(hc) {
            Some(p) => p.0 == id,
            None => false,
        };
        proof {
            use_type_invariant(&hc);
        }
        if !matches {
            proof {
                assert(self@ =~= old_view.remove(htask.value()));
            }
            return None;
        }
        let r = match self.core.remove(hc) {
            Some(x) => Some(x.1),
            None => None,
        };
        proof {
            assert forall|k: int|
                0 <= k < 64 && (#[trigger] self.core@[k]) is Some implies self.core@[
                k].unwrap().2.0 % 64 == 0 && self.core@[k].unwrap().2.0 < self.next_id by {
                assert(self.core@[k] == old_core[k]);
            }
            assert forall|v: u64| #[trigger] self@.contains_key(v) == old_view.remove(
                htask.value(),
            ).contains_key(v) by {
                if HTask::slot_of(v) == hc.index() && old_view.contains_key(v) {
                    assert(v == htask.value());
                }
                if HTask::slot_of(v) != hc.index() {
                    assert(self.core@[HTask::slot_of(v)] == old_core[HTask::slot_of(v)]);
                }
            }
            assert(self@ =~= old_view.remove(htask.value()));
            assert(r is Some == old_view.contains_key(htask.value()));
            assert(self@.dom() =~= old_view.dom().remove(htask.value()));
        }
        r
    }

    /// Remove every task whose start time is not after `time`.
    pub fn drain_runnable_tasks_at(&mut self, time: FixTime) -> (r: Vec<(HTask, T)>)
        requires
            old(self).wf(),
            time.0 <= TIME_MAX,
        ensures
            final(self).wf(),
            final(self).next_id_spec() == old(self).next_id_spec(),
            drained(old(self)@, final(self)@, r@, time.0),
    {
        let ghost old_core = self.core@;
        let ghost old_view = self@;
        let mut items = self.core.drain_runnable_tasks(time);
        let ghost all_items = items@;
        let ghost hcs = all_items.map_values(|e: (HTaskCore, (u64, T))| e.0);
        proof {
            assert forall|k: int|
                0 <= k < 64 && (#[trigger] self.core@[k]) is Some implies self.core@[
                k].unwrap().2.0 % 64 == 0 && self.core@[k].unwrap().2.0 < self.next_id by {
                assert(self.core@[k] == old_core[k]);
            }
        }
        let mut out: Vec<(HTask, T)> = Vec::new();
        while items.len() > 0
            invariant
                hcs == all_items.map_values(|e: (HTaskCore, (u64, T))| e.0),
                lists_runnable(hcs, old_core, time.0),
                forall|i: int|
                    0 <= i < all_items.len() ==> all_items[i].1 == #[trigger] old_core[all_items[i].0.index()].unwrap().2,
                forall|k: int|
                    0 <= k < 64 && (#[trigger] old_core[k]) is Some ==> old_core[k].unwrap().2.0 % 64 == 0,
                out.len() + items.len() == all_items.len(),
                items@ == all_items.subrange(out.len() as int, all_items.len() as int),
                forall|i: int|
                    0 <= i < out.len() ==> (#[trigger] out[i]).0.value() == all_items[i].1.0
                        + all_items[i].0.index() && out[i].1 == all_items[i].1.1,
            decreases items.len(),
        {
            let ghost i = out.len() as int;
            let (hc, (id, p)) = items.remove(0);
            proof {
                use_type_invariant(&hc);
                assert(all_items[i] == (hc, (id, p)));
                assert(hcs[i] == hc);
                assert(runnable_at(old_core[hcs[i].index()], time.0));
                assert(old_core[hc.index()] is Some);
            }
            out.push((HTask::new(hc, id), p));
            proof {
                assert(items@ =~= all_items.subrange(out.len() as int, all_items.len() as int));
            }
        }
        proof {
            assert(hcs.len() == all_items.len());
            assert forall|i: int| 0 <= i < out.len() implies {
                let v = (#[trigger] out[i]).0.value();
                &&& HTask::slot_of(v) == hcs[i].index()
                &&& old_view.contains_key(v)
                &&& old_view[v].0 <= time.0
                &&& out[i].1 == old_view[v].2
            } by {
                let hc = hcs[i];
                assert(runnable_at(old_core[hc.index()], time.0));
                assert(all_items[i].1 == old_core[hc.index()].unwrap().2);
            }
            assert forall|i: int, j: int| 0 <= i < j < out.len() implies out[i].0.value()
                != out[j].0.value() && HTask::slot_of(out[i].0.value()) < HTask::slot_of(
                out[j].0.value(),
            ) by {
                assert(HTask::slot_of(out[i].0.value()) == hcs[i].index());
                assert(HTask::slot_of(out[j].0.value()) == hcs[j].index());
            }
            assert forall|v: u64|
                #[trigger] old_view.contains_key(v) && old_view[v].0 <= time.0 implies exists|i: int|
                0 <= i < out.len() && out[i].0.value() == v by {
                let k = HTask::slot_of(v);
                assert(runnable_at(old_core[k], time.0));
                let i = choose|i: int| 0 <= i < hcs.len() && hcs[i].index() == k;
                assert(HTask::slot_of(out[i].0.value()) == k);
                assert(out[i].0.value() == v);
            }
            assert forall|v: u64| #[trigger] self@.contains_key(v) == (old_view.contains_key(v)
                && time.0 < old_view[v].0) by {
                let k = HTask::slot_of(v);
                assert(self.core@[k] == (if runnable_at(old_core[k], time.0) {
                    None
                } else {
                    old_core[k]
                }));
            }
            assert(self@ =~= Map::new(
                |v: u64| old_view.contains_key(v) && time.0 < old_view[v].0,
                |v: u64| old_view[v],
            ));
        }
        out
    }

    /// Remove every task whose start time has come.
    ///
    /// If the current time lies beyond `TIME_MAX`, every task has come.
    pub fn drain_runnable_tasks(&mut self) -> (r: Vec<(HTask, T)>)
        requires
            old(self).wf(),
        ensures
            final(self).wf(),
            final(self).next_id_spec() == old(self).next_id_spec(),
            exists|t: u64| t <= TIME_MAX && #[trigger] drained(old(self)@, final(self)@, r@, t),
    {
        let now = instant_elapsed(&self.origin);
        let zero = Dur { secs: 0, nanos: 0 };
        let time = match fix_time_after(now, zero) {
            Some(t) => t,
            None => FixTime(TIME_MAX),
        };
        self.drain_runnable_tasks_at(time)
    }

    /// The tasks, as their handles, their times as spans from the clock
    /// origin, and their payloads.
    pub fn iter(&self) -> (r: Vec<(HTask, Range<Dur>, &T)>)
        requires
            self.wf(),
        ensures
            forall|i: int|
                0 <= i < r.len() ==> {
                    let v = (#[trigger] r[i]).0.value();
                    &&& self@.contains_key(v)
                    &&& r[i].1.start == FixTime(self@[v].0).to_dur_spec()
                    &&& r[i].1.end == FixTime(self@[v].1).to_dur_spec()
                    &&& *r[i].2 == self@[v].2
                },
            forall|i: int, j: int| 0 <= i < j < r.len() ==> r[i].0.value() != r[j].0.value(),
            forall|v: u64|
                #[trigger] self@.contains_key(v) ==> exists|i: int|
                    0 <= i < r.len() && r[i].0.value() == v,
    {
        let items = self.core.iter();
        let ghost keys = items@.map_values(|e: (HTaskCore, Range<FixTime>, &(u64, T))| e.0);
        let mut out: Vec<(HTask, Range<Dur>, &T)> = Vec::new();
        let mut i: usize = 0;
        while i < items.len()
            invariant
                self.wf(),
                i <= items.len(),
                out.len() == i,
                keys == items@.map_values(|e: (HTaskCore, Range<FixTime>, &(u64, T))| e.0),
                lists_occupied(keys, self.core@),
                forall|j: int|
                    0 <= j < items.len() ==> {
                        let s = #[trigger] self.core@[items[j].0.index()].unwrap();
                        items[j].1.start.0 == s.0 && items[j].1.end.0 == s.1 && *items[j].2
                            == s.2
                    },
                forall|j: int|
                    0 <= j < i ==> {
                        let s = self.core@[items[j].0.index()].unwrap();
                        &&& (#[trigger] out[j]).0.value() == s.2.0 + items[j].0.index()
                        &&& HTask::slot_of(out[j].0.value()) == items[j].0.index()
                        &&& out[j].1.start == FixTime(s.0).to_dur_spec()
                        &&& out[j].1.end == FixTime(s.1).to_dur_spec()
                        &&& *out[j].2 == s.2.1
                    },
            decreases items.len() - i,
        {
            let hc = items[i].0;
            let range_start = items[i].1.start;
            let range_end = items[i].1.end;
            let payload: &(u64, T) = items[i].2;
            proof {
                assert(keys[i as int] == hc);
                assert(self.core@[hc.index()] is Some);
                use_type_invariant(&hc);
            }
            let h = HTask::new(hc, payload.0);
            let start = range_start.to_dur();
            let end = range_end.to_dur();
            out.push((h, start..end, &payload.1));
            i += 1;
        }
        proof {
            assert forall|j: int| 0 <= j < out.len() implies {
                let v = (#[trigger] out[j]).0.value();
                &&& self@.contains_key(v)
                &&& out[j].1.start == FixTime(self@[v].0).to_dur_spec()
                &&& out[j].1.end == FixTime(self@[v].1).to_dur_spec()
                &&& *out[j].2 == self@[v].2
            } by {
                assert(keys[j] == items[j].0);
                assert(self.core@[items[j].0.index()] is Some);
            }
            assert forall|a: int, b: int| 0 <= a < b < out.len() implies out[a].0.value()
                != out[b].0.value() by {
                assert(keys[a] == items[a].0);
                assert(keys[b] == items[b].0);
            }
            assert forall|v: u64| #[trigger] self@.contains_key(v) implies exists|j: int|
                0 <= j < out.len() && out[j].0.value() == v by {
                let k = HTask::slot_of(v);
                assert(self.core@[k] is Some);
                let j = choose|j: int| 0 <= j < keys.len() && keys[j].index() == k;
                assert(keys[j] == items[j].0);
                assert(out[j].0.value() == v);
            }
        }
        out
    }

    /// The earliest deadline among the tasks, as a span from the clock origin.
    pub fn suggest_next_wakeup_offset(&self) -> (r: Option<Dur>)
        requires
            self.wf(),
        ensures
            r is None == (self@ == Map::<u64, Slot<T>>::empty()),
            r is Some ==> r.unwrap().wf(),
            r is Some ==> exists|t: u64|
                #![trigger FixTime(t).to_dur_spec()]
                r.unwrap() == FixTime(t).to_dur_spec() && (exists|v: u64|
                    #[trigger] self@.contains_key(v) && self@[v].1 == t) && (forall|v: u64|
                    #[trigger] self@.contains_key(v) ==> t <= self@[v].1),
    {
        let t = self.core.suggest_next_wakeup();
        let ghost view = self@;
        match t {
            None => {
                proof {
                    assert(view =~= Map::<u64, Slot<T>>::empty());
                }
                None
            },
            Some(t) => {
                let d = t.to_dur();
                proof {
                    let k = choose|k: int|
                        0 <= k < 64 && #[trigger] self.core@[k] is Some && self.core@[k].unwrap().1
                            == t.0;
                    let v = (self.core@[k].unwrap().2.0 + k) as u64;
                    assert(HTask::slot_of(v) == k);
                    assert(view.contains_key(v));
                    assert(view != Map::<u64, Slot<T>>::empty());
                    assert forall|w: u64| #[trigger] view.contains_key(w) implies t.0 <= view[w].1 by {
                        let kw = HTask::slot_of(w);
                        assert(self.core@[kw] is Some);
                    }
                    assert(d == FixTime(t.0).to_dur_spec());
                }
                Some(d)
            },
        }
    }

    /// The earliest deadline among the tasks, or `None` if there is no task
    /// (or if the instant is out of the platform's range).
    pub fn suggest_next_wakeup(&self) -> (r: Option<Instant>)
        requires
            self.wf(),
        ensures
            r is Some ==> self@ != Map::<u64, Slot<T>>::empty(),
    {
        match self.suggest_next_wakeup_offset() {
            None => None,
            Some(d) => instant_checked_add(&self.origin, d),
        }
    }
}

/// A sequence with a vacant entry has fewer occupied entries than entries.
proof fn lemma_count_vacant<X>(s: Seq<Option<X>>, k: int)
    requires
        0 <= k < s.len(),
        s[k] is None,
    ensures
        count_some(s) < s.len(),
    decreases s.len(),
{
    if k == s.len() - 1 {
        lemma_count_bound(s.drop_last());
    } else {
        assert(s.drop_last()[k] == s[k]);
        lemma_count_vacant(s.drop_last(), k);
    }
}

/// When every one of the `SIZE` slots is occupied, `count_some` is `SIZE`,
/// and conversely.
proof fn lemma_count_all<X>(s: Seq<Option<X>>)
    requires
        s.len() == 64,
    ensures
        (forall|j: int| 0 <= j < 64 ==> #[trigger] s[j] is Some) ==> count_some(s) == 64,
        count_some(s) <= s.len(),
{
    lemma_count_bound(s);
    if forall|j: int| 0 <= j < 64 ==> #[trigger] s[j] is Some {
        lemma_count_full(s);
    }
}

proof fn lemma_count_bound<X>(s: Seq<Option<X>>)
    ensures
        count_some(s) <= s.len(),
    decreases s.len(),
{
    if s.len() > 0 {
        lemma_count_bound(s.drop_last());
    }
}

proof fn lemma_count_full<X>(s: Seq<Option<X>>)
    requires
        forall|j: int| 0 <= j < s.len() ==> #[trigger] s[j] is Some,
    ensures
        count_some(s) == s.len(),
    decreases s.len(),
{
    if s.len() > 0 {
        assert forall|j: int| 0 <= j < s.drop_last().len() implies #[trigger] s.drop_last()[j] is Some by {
            assert(s.drop_last()[j] == s[j]);
        }
        lemma_count_full(s.drop_last());
    }
}

// ============================================================================
// Laws

/// Handles are never reused: every live handle of a queue carries an ID below
/// the queue's next ID, so it differs from any handle that a later insertion
/// issues.
pub proof fn law_fresh_handles<T>(q: TimerQueue<T>, live: u64, issued: HTask)
    requires
        q.wf(),
        q@.contains_key(live),
        HTask::id_of(issued.value()) >= q.next_id_spec(),
    ensures
        live != issued.value(),
{
    q.lemma_ids_below_next(live);
}

/// Removing a task right after inserting it gives back its payload and
/// leaves the queue as it was before the insertion.
pub proof fn law_remove_undoes_insert<T>(
    q0: Map<u64, Slot<T>>,
    q1: Map<u64, Slot<T>>,
    q2: Map<u64, Slot<T>>,
    v: u64,
    payload: T,
    r: Option<T>,
)
    requires
        inserted(q0, q1, v, payload),
        removed(q1, q2, v, r),
    ensures
        r == Some(payload),
        q2 == q0,
{
    assert(q1.dom().contains(v));
}

/// Draining at the earliest deadline runs every drained task within its
/// window, and, when no task starts after its deadline, runs at least one
/// task.
pub proof fn law_wakeup_runs_in_window<T>(
    before: Map<u64, Slot<T>>,
    after: Map<u64, Slot<T>>,
    r: Seq<(HTask, T)>,
    t: u64,
)
    requires
        drained(before, after, r, t),
        exists|v: u64| #[trigger] before.contains_key(v) && before[v].1 == t,
        forall|v: u64| #[trigger] before.contains_key(v) ==> t <= before[v].1,
    ensures
        forall|i: int|
            0 <= i < r.len() ==> before[(#[trigger] r[i]).0.value()].0 <= t <= before[r[i].0.value()].1,
        (forall|v: u64| #[trigger] before.contains_key(v) ==> before[v].0 <= before[v].1) ==> r.len()
            > 0,
{
    assert forall|i: int| 0 <= i < r.len() implies before[(#[trigger] r[i]).0.value()].0 <= t
        <= before[r[i].0.value()].1 by {
        assert(before.contains_key(r[i].0.value()));
    }
    if forall|v: u64| #[trigger] before.contains_key(v) ==> before[v].0 <= before[v].1 {
        let v = choose|v: u64| #[trigger] before.contains_key(v) && before[v].1 == t;
        assert(before[v].0 <= t);
        let i = choose|i: int| 0 <= i < r.len() && r[i].0.value() == v;
    }
}

/// Converting a span to a time value and back never adds time and loses less
/// than 1024 nanoseconds.
pub proof fn law_fix_time_precision(d: Dur)
    requires
        d.wf(),
        d.secs <= u64::MAX >> 20u64,
    ensures
        0 <= d.total_nanos() - FixTime(fix_of_dur(d)).to_dur_spec().total_nanos() < 1024,
        FixTime(fix_of_dur(d)).to_dur_spec().secs == d.secs,
{
    lemma_fix_of_dur_parts(d);
    FixTime::lemma_to_dur_total(FixTime(fix_of_dur(d)));
    let q = (d.nanos / 1024) as int;
    assert(q * 1024 <= d.nanos < q * 1024 + 1024) by (nonlinear_arith)
        requires
            q == d.nanos / 1024,
    ;
    let total = d.secs * 1_000_000_000 + q * 1024;
    assert(total / 1_000_000_000 == d.secs) by (nonlinear_arith)
        requires
            total == d.secs * 1_000_000_000 + q * 1024,
            0 <= q * 1024 <= d.nanos < 1_000_000_000,
    ;
}

/// A time value made from a span survives a trip through spans.
pub proof fn law_fix_time_stable(d: Dur)
    requires
        d.wf(),
        d.secs <= u64::MAX >> 20u64,
    ensures
        fix_of_dur(FixTime(fix_of_dur(d)).to_dur_spec()) == fix_of_dur(d),
{
    lemma_fix_of_dur_parts(d);
    let t = FixTime(fix_of_dur(d));
    FixTime::lemma_to_dur_total(t);
    let q = (d.nanos / 1024) as int;
    assert(0 <= q * 1024 < 1_000_000_000) by (nonlinear_arith)
        requires
            q == d.nanos / 1024,
            d.nanos < 1_000_000_000,
    ;
    let total = d.secs * 1_000_000_000 + q * 1024;
    assert(total / 1_000_000_000 == d.secs && total % 1_000_000_000 == q * 1024)
        by (nonlinear_arith)
        requires
            total == d.secs * 1_000_000_000 + q * 1024,
            0 <= q * 1024 < 1_000_000_000,
    ;
    let d2 = t.to_dur_spec();
    assert(d2.secs == d.secs);
    assert(d2.nanos == q * 1024);
    assert((q * 1024) / 1024 == q) by (nonlinear_arith);
}

/// The fixed-point parts of `fix_of_dur(d)`: whole seconds and the
/// fraction `nanos / 1024`.
proof fn lemma_fix_of_dur_parts(d: Dur)
    requires
        d.wf(),
        d.secs <= u64::MAX >> 20u64,
    ensures
        fix_of_dur(d) == d.secs * 0x10_0000 + d.nanos / 1024,
        fix_of_dur(d) / 0x10_0000 == d.secs,
        fix_of_dur(d) % 0x10_0000 == d.nanos / 1024,
{
    assert(0xffff_ffff_ffff_ffffu64 >> 20u64 == 0xfff_ffff_ffffu64) by (bit_vector);
    let q = d.nanos / 1024;
    assert(q < 0x10_0000) by (nonlinear_arith)
        requires
            q == d.nanos / 1024,
            d.nanos < 1_000_000_000,
    ;
    let t = d.secs * 0x10_0000 + q;
    assert(t <= u64::MAX && t / 0x10_0000 == d.secs && t % 0x10_0000 == q) by (nonlinear_arith)
        requires
            t == d.secs * 0x10_0000 + q,
            0 <= q < 0x10_0000,
            d.secs <= 0xfff_ffff_ffff,
    ;
}

/// Apply `f` to both ends of a range.
pub fn map_range<A, B, F: Fn(A) -> B>(x: Range<A>, f: F) -> (r: Range<B>)
    requires
        f.requires((x.start,)),
        f.requires((x.end,)),
    ensures
        f.ensures((x.start,), r.start),
        f.ensures((x.end,), r.end),
{
    let s = f(x.start);
    let e = f(x.end);
    s..e
}

} // verus!

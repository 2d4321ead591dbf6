//! Index arithmetic of text layouts.
use std::ops::Range;
use vstd::prelude::*;

verus! {

/// The line start offsets are nondecreasing and the first line starts at 0.
pub open spec fn starts_ok(starts: Seq<usize>) -> bool {
    &&& starts.len() >= 1
    &&& starts[0] == 0
    &&& forall|a: int, b: int| 0 <= a <= b < starts.len() ==> starts[a] <= starts[b]
}

/// Get the line containing the UTF-8 offset `i`, given the start offset of
/// each line: the last line that starts at or before `i`.
///
/// Takes `O(log(starts.len()))` steps.
pub fn line_from_index(starts: &[usize], i: usize) -> (r: usize)
    requires
        starts_ok(starts@),
    ensures
        r < starts@.len(),
        starts@[r as int] <= i,
        forall|j: int| r < j < starts@.len() ==> i < #[trigger] starts@[j],
        (forall|j: int| 0 <= j < starts@.len() ==> #[trigger] starts@[j] <= i) ==> r == starts@.len() - 1,
{
    let mut base: usize = 0;
    let mut size: usize = starts.len();
    while size > 1
        invariant
            starts_ok(starts@),
            1 <= size,
            base + size <= starts.len(),
            starts@[base as int] <= i,
            forall|j: int| base + size <= j < starts@.len() ==> i < #[trigger] starts@[j],
        decreases size,
    {
        let half = size / 2;
        let mid = base + half;
        base = if i >= starts[mid] {
            mid
        } else {
            base
        };
        size -= half;
    }
    proof {
        if forall|j: int| 0 <= j < starts@.len() ==> #[trigger] starts@[j] <= i {
            if base + 1 < starts@.len() {
                assert(starts@[base + 1] <= i);
            }
        }
    }
    base
}

/// The UTF-8 offset range of the line `i`: from its start to the start of
/// the next line, or to the end of the text for the last line.
pub open spec fn line_range(starts: Seq<usize>, text_len: int, i: int) -> (int, int) {
    (starts[i] as int, if i + 1 < starts.len() {
        starts[i + 1] as int
    } else {
        text_len
    })
}

/// Get the UTF-8 offset range for the line `i`, given the start offset of
/// each line and the length of the text.
pub fn line_index_range(starts: &[usize], text_len: usize, i: usize) -> (r: Range<usize>)
    requires
        i < starts@.len(),
    ensures
        (r.start as int, r.end as int) == line_range(starts@, text_len as int, i as int),
{
    let start = starts[i];
    let end = if i + 1 < starts.len() {
        starts[i + 1]
    } else {
        text_len
    };
    start..end
}

/// The line ranges are a partition of the source string: the first starts
/// at 0, each ends where the next starts, and the last ends at the end of the
/// text.
pub proof fn law_line_ranges_partition(starts: Seq<usize>, text_len: int)
    requires
        starts_ok(starts),
        forall|j: int| 0 <= j < starts.len() ==> #[trigger] starts[j] <= text_len,
    ensures
        line_range(starts, text_len, 0).0 == 0,
        line_range(starts, text_len, starts.len() - 1).1 == text_len,
        forall|i: int|
            0 <= i < starts.len() - 1 ==> #[trigger] line_range(starts, text_len, i).1 == line_range(
                starts,
                text_len,
                i + 1,
            ).0,
        forall|i: int|
            0 <= i < starts.len() ==> #[trigger] line_range(starts, text_len, i).0 <= line_range(
                starts,
                text_len,
                i,
            ).1,
{
    assert forall|i: int| 0 <= i < starts.len() implies #[trigger] line_range(starts, text_len, i).0
        <= line_range(starts, text_len, i).1 by {
        if i + 1 < starts.len() {
            assert(starts[i] <= starts[i + 1]);
        }
    }
}

/// Swap the ends of a reversed range.
pub fn sort_range(r: Range<usize>) -> (s: Range<usize>)
    ensures
        s.start == if r.end < r.start {
            r.end
        } else {
            r.start
        },
        s.end == if r.end < r.start {
            r.start
        } else {
            r.end
        },
{
    if r.end < r.start {
        r.end..r.start
    } else {
        r
    }
}

/// `PangoLogAttr::is_mandatory_break` (little-endian bitfield layout).
pub const LOG_ATTR_MANDATORY_BREAK: u32 = 1 << 1;

/// `PangoLogAttr::is_cursor_position`.
pub const LOG_ATTR_CURSOR_POSITION: u32 = 1 << 4;

/// `PangoLogAttr::is_word_start`.
pub const LOG_ATTR_WORD_START: u32 = 1 << 5;

/// `PangoLogAttr::is_word_end`.
pub const LOG_ATTR_WORD_END: u32 = 1 << 6;

/// The flags that stop a move by one character.
pub fn next_char_flags() -> (r: u32)
    ensures
        r == LOG_ATTR_MANDATORY_BREAK | LOG_ATTR_CURSOR_POSITION | LOG_ATTR_WORD_START
            | LOG_ATTR_WORD_END,
{
    LOG_ATTR_MANDATORY_BREAK | LOG_ATTR_CURSOR_POSITION | LOG_ATTR_WORD_START | LOG_ATTR_WORD_END
}

/// The flags that stop a move by one word in the given direction.
pub fn next_word_flags(forward: bool) -> (r: u32)
    ensures
        r == if forward {
            LOG_ATTR_MANDATORY_BREAK | LOG_ATTR_WORD_END
        } else {
            LOG_ATTR_MANDATORY_BREAK | LOG_ATTR_WORD_START
        },
{
    if forward {
        LOG_ATTR_MANDATORY_BREAK | LOG_ATTR_WORD_END
    } else {
        LOG_ATTR_MANDATORY_BREAK | LOG_ATTR_WORD_START
    }
}

/// The offsets of the Unicode scalars of a text, followed by the text's
/// length: strictly increasing from 0.
pub open spec fn bounds_ok(bounds: Seq<usize>) -> bool {
    &&& bounds.len() >= 1
    &&& bounds[0] == 0
    &&& forall|a: int, b: int| 0 <= a < b < bounds.len() ==> bounds[a] < bounds[b]
}

/// Scalar `j` stops a move: it is the end of the text or its attributes
/// intersect `flag`.
pub open spec fn stops(log_attrs: Seq<u32>, j: int, flag: u32) -> bool {
    j >= log_attrs.len() || log_attrs[j] & flag != 0
}

/// Find the first character after (`forward`) or before the scalar at the
/// offset `bounds[k]` whose log attributes intersect `flag`; the end (or the
/// start) of the text if there is none. `log_attrs` has one entry for each
/// scalar.
pub fn next_char_with_log_attr(
    bounds: &[usize],
    log_attrs: &[u32],
    k: usize,
    forward: bool,
    flag: u32,
) -> (r: usize)
    requires
        bounds_ok(bounds@),
        log_attrs@.len() + 1 == bounds@.len(),
        k < bounds@.len(),
    ensures
        forward ==> exists|j: int|
            k <= j < bounds@.len() && r == bounds@[j] && (j == k ==> k + 1 == bounds@.len()) && (j > k
                ==> stops(log_attrs@, j, flag)) && forall|m: int|
                k < m < j ==> !#[trigger] stops(log_attrs@, m, flag),
        !forward ==> exists|j: int|
            0 <= j <= k && r == bounds@[j] && (j == k ==> k == 0) && (j < k ==> (j == 0 || log_attrs@[j]
                & flag != 0)) && forall|m: int|
                j < m < k ==> !(#[trigger] log_attrs@[m] & flag != 0),
{
    let n = log_attrs.len();
    if forward {
        if k >= n {
            return bounds[k];
        }
        let mut j = k + 1;
        while j < n && log_attrs[j] & flag == 0
            invariant
                bounds_ok(bounds@),
                log_attrs@.len() + 1 == bounds@.len(),
                n == log_attrs@.len(),
                k < j <= n,
                forall|m: int| k < m < j ==> !#[trigger] stops(log_attrs@, m, flag),
            decreases n - j,
        {
            j += 1;
        }
        bounds[j]
    } else {
        if k == 0 {
            return bounds[0];
        }
        let mut j = k - 1;
        while j > 0 && log_attrs[j] & flag == 0
            invariant
                bounds_ok(bounds@),
                log_attrs@.len() + 1 == bounds@.len(),
                n == log_attrs@.len(),
                j < k < bounds@.len(),
                forall|m: int| j < m < k ==> !(#[trigger] log_attrs@[m] & flag != 0),
            decreases j,
        {
            j -= 1;
        }
        bounds[j]
    }
}

} // verus!

use std::sync::Arc;

use tcw3_pal::eventloop::{
    after_wait, dur_min, dur_sub, next_source, plan_wait, EventSource, StepAction, WaitOutcome,
};
use tcw3_pal::iface::{BadThread, Bitmap as _, CursorShape, LineCap, LineJoin, SysFontType};
use tcw3_pal::iface::gtk_cursor_name;
use tcw3_pal::logging::{delegate_outcome, Logger};
use tcw3_pal::swrast::rast::output_fits;
use tcw3_pal::swrast::bin::Bmp as _;
use tcw3_pal::text::{
    line_from_index, line_index_range, next_char_flags, next_char_with_log_attr, next_word_flags, sort_range,
    LOG_ATTR_CURSOR_POSITION, LOG_ATTR_MANDATORY_BREAK, LOG_ATTR_WORD_END, LOG_ATTR_WORD_START,
};
use tcw3_pal::timerqueue::Dur;
use tcw3_pal::unix::bitmap::{bitmap_layout, Bitmap};

fn d(secs: u64, nanos: u32) -> Dur {
    Dur { secs, nanos }
}

#[test]
fn wait_plan_takes_the_earlier_deadline() {
    let p = plan_wait(Some(d(5, 0)), Some(d(2, 500_000_000)));
    assert_eq!(p.recv_timeout, Some(d(2, 500_000_000)));
    assert_eq!(p.timeout, Some(d(2, 500_000_000)));
    let p = plan_wait(Some(d(1, 0)), Some(d(2, 0)));
    assert_eq!(p.recv_timeout, Some(d(1, 0)));
    assert_eq!(p.timeout, Some(d(0, 0)));
    let p = plan_wait(None, Some(d(3, 0)));
    assert_eq!(p.recv_timeout, Some(d(3, 0)));
    assert_eq!(p.timeout, None);
    let p = plan_wait(Some(d(3, 0)), None);
    assert_eq!(p.recv_timeout, Some(d(3, 0)));
    assert_eq!(p.timeout, Some(d(0, 0)));
    let p = plan_wait(None, None);
    assert_eq!(p.recv_timeout, None);
    assert_eq!(p.timeout, None);
}

#[test]
fn after_wait_actions() {
    let spent = plan_wait(Some(d(1, 0)), None);
    let open = plan_wait(Some(d(5, 0)), Some(d(1, 0)));
    let forever = plan_wait(None, None);
    assert_eq!(after_wait(spent, WaitOutcome::Dispatched), StepAction::RunAndReturn);
    assert_eq!(after_wait(spent, WaitOutcome::TimedOut), StepAction::Return);
    assert_eq!(after_wait(open, WaitOutcome::TimedOut), StepAction::Continue);
    assert_eq!(after_wait(spent, WaitOutcome::Disconnected), StepAction::SleepThenReturn(d(1, 0)));
    assert_eq!(after_wait(open, WaitOutcome::Disconnected), StepAction::SleepThenContinue(d(1, 0)));
    assert_eq!(after_wait(forever, WaitOutcome::Disconnected), StepAction::SleepForever);
}

#[test]
fn dur_arithmetic() {
    assert_eq!(dur_min(d(1, 5), d(1, 4)), d(1, 4));
    assert_eq!(dur_min(d(0, 999_999_999), d(1, 0)), d(0, 999_999_999));
    assert_eq!(dur_sub(d(3, 100), d(1, 200)), d(1, 999_999_900));
    assert_eq!(dur_sub(d(3, 300), d(1, 200)), d(2, 100));
}

#[test]
fn line_lookup() {
    let starts = [0usize, 5, 5, 12];
    assert_eq!(line_from_index(&starts, 0), 0);
    assert_eq!(line_from_index(&starts, 4), 0);
    assert_eq!(line_from_index(&starts, 5), 2);
    assert_eq!(line_from_index(&starts, 11), 2);
    assert_eq!(line_from_index(&starts, 12), 3);
    assert_eq!(line_from_index(&starts, 100), 3);
    assert_eq!(line_from_index(&[0], 7), 0);
}

#[test]
fn line_ranges_partition_the_text() {
    let starts = [0usize, 5, 5, 12];
    let ranges: Vec<_> = (0..4).map(|i| line_index_range(&starts, 20, i)).collect();
    assert_eq!(ranges, vec![0..5, 5..5, 5..12, 12..20]);
    // The end of the text is on the last line
    assert_eq!(line_from_index(&starts, 20), 3);
}

#[test]
fn sort_range_orders_ends() {
    assert_eq!(sort_range(5..2), 2..5);
    assert_eq!(sort_range(2..5), 2..5);
    assert_eq!(sort_range(3..3), 3..3);
}

#[test]
fn log_attr_moves() {
    assert_eq!(
        next_char_flags(),
        LOG_ATTR_MANDATORY_BREAK | LOG_ATTR_CURSOR_POSITION | LOG_ATTR_WORD_START | LOG_ATTR_WORD_END
    );
    assert_eq!(next_word_flags(true), LOG_ATTR_MANDATORY_BREAK | LOG_ATTR_WORD_END);
    assert_eq!(next_word_flags(false), LOG_ATTR_MANDATORY_BREAK | LOG_ATTR_WORD_START);
    // "aé b": scalar offsets 0, 1, 3, 4 and the end at 5
    let bounds = [0usize, 1, 3, 4, 5];
    let w = LOG_ATTR_WORD_START;
    let attrs = [w, 0, 0, w];
    assert_eq!(next_char_with_log_attr(&bounds, &attrs, 0, true, w), 4);
    assert_eq!(next_char_with_log_attr(&bounds, &attrs, 3, true, w), 5);
    assert_eq!(next_char_with_log_attr(&bounds, &attrs, 4, true, w), 5);
    assert_eq!(next_char_with_log_attr(&bounds, &attrs, 3, false, w), 0);
    assert_eq!(next_char_with_log_attr(&bounds, &attrs, 4, false, w), 4);
    assert_eq!(next_char_with_log_attr(&bounds, &attrs, 0, false, w), 0);
    let c = LOG_ATTR_CURSOR_POSITION;
    let attrs = [c, c, c, c];
    assert_eq!(next_char_with_log_attr(&bounds, &attrs, 1, true, c), 3);
    assert_eq!(next_char_with_log_attr(&bounds, &attrs, 2, false, c), 1);
}

#[test]
fn iface_types() {
    assert_eq!(CursorShape::default(), CursorShape::Default);
    assert_eq!(BadThread.message(), "the operation is invalid for the current thread");
    assert_ne!(LineCap::Butt, LineCap::Round);
    assert_ne!(LineJoin::Miter, LineJoin::Bevel);
    assert_ne!(SysFontType::User, SysFontType::UserMonospace);
}

#[test]
fn bitmap_layouts() {
    assert_eq!(bitmap_layout([3, 5]), Some((12, 60)));
    assert_eq!(bitmap_layout([0, 0]), Some((0, 0)));
    assert_eq!(bitmap_layout([0x2000_0000, 1]), None);
    assert_eq!(bitmap_layout([1, 0x8000_0000]), None);
}

#[test]
fn unix_bitmap_parts() {
    let b = Bitmap::new(vec![1, 2, 3, 4, 5, 6, 7, 8], [1, 2], 4);
    assert_eq!(tcw3_pal::iface::Bitmap::size(&b), [1, 2]);
    assert_eq!(tcw3_pal::swrast::bin::Bmp::size(&b), [1usize, 2]);
    assert_eq!(b.stride(), 4);
    assert_eq!(b.data(), &[1, 2, 3, 4, 5, 6, 7, 8]);
    let c = b.clone();
    assert_eq!(c.data(), b.data());
}

#[test]
fn logger_keeps_inner() {
    let l = Logger::new(Arc::new(3));
    assert_eq!(*l.inner, 3);
}

#[test]
fn main_thread_queue_comes_first() {
    assert_eq!(next_source(true, true), EventSource::Unsend);
    assert_eq!(next_source(false, true), EventSource::DueTimers);
    assert_eq!(next_source(false, false), EventSource::Dispatch);
}

#[test]
fn delegate_outcomes() {
    let took = delegate_outcome(Some(true));
    assert!(took.handled && !took.drop_delegate);
    let refused = delegate_outcome(Some(false));
    assert!(!refused.handled && refused.drop_delegate);
    let none = delegate_outcome(None);
    assert!(!none.handled && !none.drop_delegate);
}

#[test]
fn output_buffer_checks() {
    // 10 x 3 pixels: rows of 40 bytes
    assert!(output_fits([10, 3], 40 * 2 + 40, 40));
    assert!(!output_fits([10, 3], 40 * 2 + 39, 40));
    assert!(output_fits([10, 3], 64 * 2 + 40, 64));
    // A stride shorter than a row
    assert!(!output_fits([10, 3], 1000, 39));
    // An empty target fits anything
    assert!(output_fits([0, 3], 0, 0));
    assert!(output_fits([10, 0], 0, 0));
    // Overflowing sizes never fit
    assert!(!output_fits([usize::MAX / 2, 1], usize::MAX, usize::MAX));
    assert!(!output_fits([1, 3], usize::MAX, usize::MAX / 2 + 1));
}

#[test]
fn gtk_cursor_names() {
    assert_eq!(gtk_cursor_name(CursorShape::Default), "default");
    assert_eq!(gtk_cursor_name(CursorShape::Arrow), "default");
    assert_eq!(gtk_cursor_name(CursorShape::Hand), "pointer");
    assert_eq!(gtk_cursor_name(CursorShape::NotAllowed), "not-allowed");
    assert_eq!(gtk_cursor_name(CursorShape::NwResize), "ne-resize");
    assert_eq!(gtk_cursor_name(CursorShape::RowResize), "row-resize");
}

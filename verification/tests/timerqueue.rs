use std::time::Duration;

use tcw3_pal::timerqueue::{
    iter_bit_groups4_any, iter_bits, map_range, trailing_zeros_as_htask, Array, CapacityError, Dur,
    FixTime, HTask, HTaskCore, HTaskGroup4, TimerQueue, TimerQueueCore, FIX_ONE_SEC, SIZE,
};

fn dur(d: Duration) -> Dur {
    Dur { secs: d.as_secs(), nanos: d.subsec_nanos() }
}

fn duration(d: Dur) -> Duration {
    Duration::new(d.secs, d.nanos)
}

#[test]
fn fix_time_cvt() {
    for &d in &[
        Duration::from_nanos(0),
        Duration::from_nanos(300),
        Duration::from_micros(1),
        Duration::from_micros(10),
        Duration::from_millis(1),
        Duration::from_secs(1),
        Duration::from_secs(5),
        Duration::from_secs(60),
        Duration::from_secs(86400),
        Duration::from_secs(86400 * 12),
        Duration::from_secs_f64(86400.0 * 87.9691),
        Duration::from_secs(86400 * 365 * 4),
        Duration::from_secs(86400 * 365 * 1000),
        Duration::from_secs(86400 * 365 * 1849),
    ] {
        let ft = FixTime::from_dur(dur(d));
        let d2 = duration(ft.to_dur());

        // Should have a microsecond precision
        assert!((d2.as_secs_f64() - d.as_secs_f64()).abs() <= 2.0e-6);
    }
}

#[test]
fn capacity_error() {
    let mut queue = TimerQueueCore::new();
    for _ in 0..SIZE {
        queue.insert(FixTime(0)..FixTime(100), ()).unwrap();
    }
    assert_eq!(
        queue.insert(FixTime(0)..FixTime(100), ()),
        Err(CapacityError)
    );
}

#[test]
fn htask_identity() {
    let d = dur(Duration::from_secs(1));
    let mut queue = TimerQueue::new();

    let htask1 = queue.insert(d..d, ()).unwrap();
    queue.remove(htask1).unwrap();

    let htask2 = queue.insert(d..d, ()).unwrap();

    // The two tasks are stored to the same slot in `TimerQueueCore`, but
    // the returned `HTask`s must be distinct
    assert_ne!(htask1, htask2);
    assert!(queue.remove(htask1).is_none());
}

#[test]
fn fix_time_exact_values() {
    assert_eq!(FixTime::from_dur(Dur { secs: 1, nanos: 0 }).0, FIX_ONE_SEC);
    assert_eq!(FixTime::from_dur(Dur { secs: 2, nanos: 2048 }).0, 2 * FIX_ONE_SEC + 2);
    assert_eq!(FixTime::from_dur(Dur { secs: 0, nanos: 1023 }).0, 0);
    assert_eq!(FixTime(FIX_ONE_SEC + 1).to_dur(), Dur { secs: 1, nanos: 1024 });
}

#[test]
fn fix_time_round_trip_is_stable() {
    for &(secs, nanos) in &[(0u64, 0u32), (3, 999_999_999), (12345, 1024), (7, 1023)] {
        let t = FixTime::from_dur(Dur { secs, nanos });
        let back = t.to_dur();
        assert_eq!(back.secs, secs);
        assert!(nanos - back.nanos < 1024);
        assert_eq!(FixTime::from_dur(back), t);
    }
}

#[test]
fn dur_new_and_checked_add() {
    assert_eq!(Dur::new(1, 2_500_000_000), Dur { secs: 3, nanos: 500_000_000 });
    let a = Dur { secs: 1, nanos: 600_000_000 };
    let b = Dur { secs: 2, nanos: 700_000_000 };
    assert_eq!(a.checked_add(b), Some(Dur { secs: 4, nanos: 300_000_000 }));
    let big = Dur { secs: u64::MAX, nanos: 999_999_999 };
    assert_eq!(big.checked_add(Dur { secs: 0, nanos: 1 }), None);
}

#[test]
fn htask_parts() {
    let h = HTask::new(HTaskCore::new(5), 128);
    assert_eq!(h.task_core().get(), 5);
    assert_eq!(h.id(), 128);
    assert_eq!(HTaskCore::new(37).mask(), 1u64 << 37);
    assert_eq!(HTaskGroup4::new(12).start().get(), 12);
}

#[test]
fn iter_bits_lists_set_bits() {
    let got: Vec<usize> = iter_bits(0b1011_0000_0001).into_iter().map(|h| h.get()).collect();
    assert_eq!(got, vec![0, 8, 9, 11]);
    assert!(iter_bits(0).is_empty());
    let got: Vec<usize> = iter_bits(u64::MAX).into_iter().map(|h| h.get()).collect();
    assert_eq!(got, (0..64).collect::<Vec<_>>());
    assert_eq!(trailing_zeros_as_htask(0b1000).get(), 3);
}

#[test]
fn iter_bit_groups_lists_groups() {
    let got: Vec<usize> = iter_bit_groups4_any((1 << 5) | (1 << 7) | (1 << 63))
        .into_iter()
        .map(|g| g.start().get())
        .collect();
    assert_eq!(got, vec![4, 60]);
}

#[test]
fn array_put_and_at() {
    let mut a = Array::filled(7);
    a.put(HTaskCore::new(3), 42);
    assert_eq!(a.at(HTaskCore::new(3)), 42);
    assert_eq!(a.at(HTaskCore::new(4)), 7);
    assert_eq!(a.0.len(), SIZE);
}

#[test]
fn core_insert_get_remove() {
    let mut q = TimerQueueCore::new();
    assert!(q.is_empty());
    let h1 = q.insert(FixTime(10)..FixTime(20), 'a').unwrap();
    let h2 = q.insert(FixTime(5)..FixTime(30), 'b').unwrap();
    assert_eq!(h1.get(), 0);
    assert_eq!(h2.get(), 1);
    assert_eq!(q.len(), 2);
    assert_eq!(q.get(h1), Some(&'a'));
    assert_eq!(q.remove(h1), Some('a'));
    assert_eq!(q.remove(h1), None);
    assert_eq!(q.get(h1), None);
    assert_eq!(q.len(), 1);
    // The lowest vacant slot is reused
    let h3 = q.insert(FixTime(0)..FixTime(1), 'c').unwrap();
    assert_eq!(h3.get(), 0);
}

#[test]
fn core_wakeup_runs_in_window() {
    let mut q = TimerQueueCore::new();
    q.insert(FixTime(10)..FixTime(40), 1).unwrap();
    q.insert(FixTime(20)..FixTime(25), 2).unwrap();
    q.insert(FixTime(30)..FixTime(50), 3).unwrap();
    // The earliest deadline
    let t = q.suggest_next_wakeup().unwrap();
    assert_eq!(t, FixTime(25));
    let mut ran: Vec<i32> = q.drain_runnable_tasks(t).into_iter().map(|(_, p)| p).collect();
    ran.sort();
    assert_eq!(ran, vec![1, 2]);
    assert_eq!(q.len(), 1);
    assert_eq!(q.suggest_next_wakeup(), Some(FixTime(50)));
    let ran: Vec<i32> = q.drain_runnable_tasks(FixTime(50)).into_iter().map(|(_, p)| p).collect();
    assert_eq!(ran, vec![3]);
    assert_eq!(q.suggest_next_wakeup(), None);
}

#[test]
fn core_runnable_tasks_and_iter() {
    let mut q = TimerQueueCore::new();
    let a = q.insert(FixTime(1)..FixTime(2), ()).unwrap();
    let _b = q.insert(FixTime(5)..FixTime(6), ()).unwrap();
    let r: Vec<usize> = q.runnable_tasks(FixTime(3)).into_iter().map(|h| h.get()).collect();
    assert_eq!(r, vec![a.get()]);
    let items: Vec<(usize, u64, u64)> =
        q.iter().into_iter().map(|(h, t, _)| (h.get(), t.start.0, t.end.0)).collect();
    assert_eq!(items, vec![(0, 1, 2), (1, 5, 6)]);
}

#[test]
fn queue_wakeup_and_drain() {
    let mut queue = TimerQueue::new();
    assert!(queue.is_empty());
    assert!(queue.suggest_next_wakeup_offset().is_none());
    let far = dur(Duration::from_secs(3600));
    let h = queue.insert(far..far, 5).unwrap();
    assert_eq!(queue.len(), 1);
    let next = queue.suggest_next_wakeup_offset().unwrap();
    assert!(next.secs >= 3599 && next.secs <= 3601);
    assert!(queue.suggest_next_wakeup().is_some());
    // Nothing is due yet
    assert!(queue.drain_runnable_tasks().is_empty());
    let items = queue.iter();
    assert_eq!(items.len(), 1);
    assert_eq!(items[0].0, h);
    assert_eq!(*items[0].2, 5);
    let zero = dur(Duration::from_secs(0));
    let h2 = queue.insert(zero..zero, 6).unwrap();
    let drained = queue.drain_runnable_tasks();
    assert_eq!(drained.len(), 1);
    assert_eq!(drained[0].0, h2);
    assert_eq!(drained[0].1, 6);
    assert_eq!(queue.remove(h), Some(5));
    assert!(queue.is_empty());
}

#[test]
fn queue_capacity_error() {
    let mut queue = TimerQueue::new();
    let d = dur(Duration::from_secs(10));
    for i in 0..SIZE {
        queue.insert(d..d, i).unwrap();
    }
    assert_eq!(queue.insert(d..d, 99), Err(CapacityError));
    assert_eq!(queue.len(), SIZE);
}

#[test]
fn map_range_maps_both_ends() {
    let r = map_range(3u32..7u32, |x: u32| x as u64 * 10);
    assert_eq!(r, 30u64..70u64);
}

fn run_schedule(data: &[u64], use_tolerance: bool) -> bool {
    struct Task {
        time: std::ops::Range<FixTime>,
        did_run: bool,
    }

    let mut tasks: Vec<_> = data
        .chunks_exact(2)
        .map(|chunk| Task {
            time: if use_tolerance {
                FixTime(chunk[0])..FixTime(chunk[0] + chunk[1])
            } else {
                FixTime(chunk[0])..FixTime(chunk[0])
            },
            did_run: false,
        })
        .take(SIZE)
        .collect();

    let mut queue = TimerQueueCore::new();
    for (i, task) in tasks.iter().enumerate() {
        queue.insert(task.time.clone(), i).unwrap();
    }

    let mut limit = SIZE;
    while let Some(t) = queue.suggest_next_wakeup() {
        let runnable = queue.runnable_tasks(t);
        if runnable.is_empty() {
            return false;
        }
        for htask in runnable {
            let i = queue.remove(htask).unwrap();
            let time_constraint = &tasks[i].time;
            if t < time_constraint.start || t > time_constraint.end {
                return false;
            }
            tasks[i].did_run = true;
        }

        limit -= 1;
        if limit == 0 {
            return false;
        }
    }

    tasks.iter().all(|task| task.did_run)
}

#[test]
fn schedules_correctly() {
    let data: Vec<u64> = vec![
        100, 50, 20, 5, 300, 0, 20, 100, 90, 10, 1000, 1, 5, 500, 250, 30, 77, 77, 0, 0,
    ];
    assert!(run_schedule(&data, true));
    assert!(run_schedule(&data, false));
    let many: Vec<u64> = (0..120u64).map(|i| (i * 7919) % 1000).collect();
    assert!(run_schedule(&many, true));
    assert!(run_schedule(&many, false));
}

#[test]
fn queue_handles_carry_fresh_ids() {
    let mut queue = TimerQueue::new();
    assert!(queue.ids_left());
    let d = dur(Duration::from_secs(10));
    let h1 = queue.insert(d..d, 1).unwrap();
    assert_eq!(queue.remove(h1), Some(1));
    let h2 = queue.insert(d..d, 2).unwrap();
    // Same slot, new ID: the old handle no longer names a task
    assert_ne!(h1, h2);
    assert_eq!(queue.remove(h1), None);
    assert_eq!(queue.remove(h2), Some(2));
    assert!(queue.ids_left());
}

#[test]
fn queue_len_follows_inserts_and_removals() {
    let mut queue = TimerQueue::new();
    let d = dur(Duration::from_secs(10));
    let a = queue.insert(d..d, 1).unwrap();
    let b = queue.insert(d..d, 2).unwrap();
    assert_eq!(queue.len(), 2);
    assert_eq!(queue.remove(a), Some(1));
    assert_eq!(queue.len(), 1);
    // A stale handle removes nothing
    assert_eq!(queue.remove(a), None);
    assert_eq!(queue.len(), 1);
    assert_eq!(queue.remove(b), Some(2));
    assert_eq!(queue.len(), 0);
}

#[test]
fn drained_tasks_come_in_slot_order() {
    let mut queue = TimerQueue::new();
    let zero = dur(Duration::from_secs(0));
    let mut hs = Vec::new();
    for i in 0..5u32 {
        hs.push(queue.insert(zero..zero, i).unwrap());
    }
    assert_eq!(queue.remove(hs[1]), Some(1));
    assert_eq!(queue.remove(hs[3]), Some(3));
    let late = queue.insert(zero..zero, 7).unwrap();
    let drained = queue.drain_runnable_tasks();
    assert_eq!(drained.len(), 4);
    let slots: Vec<usize> = drained.iter().map(|(h, _)| h.task_core().get()).collect();
    for w in slots.windows(2) {
        assert!(w[0] < w[1]);
    }
    let mut payloads: Vec<u32> = drained.iter().map(|(_, p)| *p).collect();
    payloads.sort();
    assert_eq!(payloads, vec![0, 2, 4, 7]);
    assert!(drained.iter().any(|(h, _)| *h == late));
    assert!(queue.is_empty());
}

#[test]
fn queue_refuses_times_beyond_the_range() {
    let mut queue = TimerQueue::new();
    let far = Dur { secs: u64::MAX / 2, nanos: 0 };
    assert_eq!(queue.insert(far..far, 1), Err(CapacityError));
    assert_eq!(queue.len(), 0);
    // The queue still takes a task that fits
    let d = dur(Duration::from_secs(1));
    assert!(queue.insert(d..d, 2).is_ok());
    assert_eq!(queue.len(), 1);
}

use os_core::scheduler::{RRScheduler, Scheduler, StrideScheduler, BIG_STRIDE};

#[test]
fn rr_pops_in_push_order() {
    let mut s = RRScheduler::new(1);
    for t in 1..=5usize {
        s.push(t);
    }
    for t in 1..=5usize {
        assert_eq!(s.pop(), Some(t));
    }
    assert_eq!(s.pop(), None);
}

#[test]
fn rr_pop_on_empty_is_none() {
    let mut s = RRScheduler::new(4);
    assert_eq!(s.pop(), None);
}

#[test]
fn rr_preempts_on_last_tick_of_quantum() {
    let mut s = RRScheduler::new(3);
    s.push(7);
    assert_eq!(s.pop(), Some(7));
    assert!(!s.tick());
    assert!(!s.tick());
    assert!(s.tick());
}

#[test]
fn rr_unused_quantum_carries_over() {
    let mut s = RRScheduler::new(3);
    s.push(1);
    assert_eq!(s.pop(), Some(1));
    assert!(!s.tick());
    s.push(1);
    assert_eq!(s.pop(), Some(1));
    assert!(!s.tick());
    assert!(s.tick());
    s.push(1);
    assert_eq!(s.pop(), Some(1));
    assert!(!s.tick());
    assert!(!s.tick());
    assert!(s.tick());
}

#[test]
fn rr_tick_without_current_asks_for_switch() {
    let mut s = RRScheduler::new(5);
    assert!(s.tick());
    s.push(2);
    assert_eq!(s.pop(), Some(2));
    s.exit(2);
    assert!(s.tick());
}

#[test]
fn rr_interleaves_requeued_threads() {
    let mut s = RRScheduler::new(1);
    s.push(1);
    s.push(2);
    assert_eq!(s.pop(), Some(1));
    s.push(1);
    assert_eq!(s.pop(), Some(2));
    s.push(2);
    assert_eq!(s.pop(), Some(1));
}

fn stride_counts(s: &mut StrideScheduler, rounds: usize, a: usize, b: usize) -> (usize, usize) {
    let mut ca = 0;
    let mut cb = 0;
    for _ in 0..rounds {
        let t = s.pop().unwrap();
        if t == a {
            ca += 1;
        } else if t == b {
            cb += 1;
        }
        s.push(t);
    }
    (ca, cb)
}

#[test]
fn stride_equal_priorities_share_evenly() {
    let mut s = StrideScheduler::new();
    s.push(1);
    s.push(2);
    let k = 50;
    let (ca, cb) = stride_counts(&mut s, 2 * k, 1, 2);
    assert_eq!(ca + cb, 2 * k);
    assert!(ca + 1 >= k && ca <= k + 1);
    assert!(cb + 1 >= k && cb <= k + 1);
}

#[test]
fn stride_least_served_thread_goes_next() {
    let mut s = StrideScheduler::new();
    s.push(1);
    s.push(2);
    let mut c1: i64 = 0;
    let mut c2: i64 = 0;
    for _ in 0..40 {
        let t = s.pop().unwrap();
        if t == 1 {
            c1 += 1;
        } else {
            c2 += 1;
        }
        assert!((c1 - c2).abs() <= 1);
        s.push(t);
    }
}

#[test]
fn stride_double_priority_runs_twice_as_often() {
    let mut s = StrideScheduler::new();
    s.set_priority(1, 1);
    s.set_priority(2, 2);
    s.push(1);
    s.push(2);
    let (c1, c2) = stride_counts(&mut s, 300, 1, 2);
    assert_eq!(c1 + c2, 300);
    assert!(c2 >= 2 * c1 - 2 && c2 <= 2 * c1 + 2);
}

#[test]
fn stride_exit_then_push_starts_afresh() {
    let mut s = StrideScheduler::new();
    s.push(1);
    s.push(2);
    let (c1, c2) = stride_counts(&mut s, 10, 1, 2);
    assert_eq!((c1, c2), (5, 5));
    // both now stand at 5 * BIG_STRIDE; thread 1 runs once more, then exits
    assert_eq!(s.pop(), Some(1));
    s.exit(1);
    s.push(1);
    // back at stride 0, it runs until it catches up with thread 2
    for _ in 0..6 {
        assert_eq!(s.pop(), Some(1));
        s.push(1);
    }
    assert_eq!(s.pop(), Some(2));
}

#[test]
fn stride_without_exit_keeps_history() {
    let mut s = StrideScheduler::new();
    s.push(1);
    s.push(2);
    let (_, _) = stride_counts(&mut s, 10, 1, 2);
    assert_eq!(s.pop(), Some(1));
    s.push(1);
    assert_eq!(s.pop(), Some(2));
}

#[test]
fn stride_new_thread_goes_first() {
    let mut s = StrideScheduler::new();
    s.push(3);
    assert_eq!(s.pop(), Some(3));
    s.push(3);
    s.push(4);
    assert_eq!(s.pop(), Some(4));
}

#[test]
fn stride_pop_on_empty_is_none() {
    let mut s = StrideScheduler::new();
    assert_eq!(s.pop(), None);
    assert!(s.tick());
}

#[test]
fn stride_tick_keeps_running_while_not_ahead() {
    let mut s = StrideScheduler::new();
    s.push(1);
    assert_eq!(s.pop(), Some(1));
    // nobody else waits: keep running
    assert!(!s.tick());
    s.push(2);
    // 1 has stride BIG_STRIDE, 2 has 0: 1 is ahead
    assert!(s.tick());
}

#[test]
fn stride_tick_charges_a_pass_when_level() {
    let mut s = StrideScheduler::new();
    s.push(1);
    s.push(2);
    // equal strides: the later push goes first
    assert_eq!(s.pop(), Some(2));
    s.push(2);
    assert_eq!(s.pop(), Some(1));
    // both at BIG_STRIDE: 1 keeps running and is charged again
    assert!(!s.tick());
    assert!(s.tick());
    s.push(1);
    assert_eq!(s.pop(), Some(2));
}

#[test]
fn stride_pass_follows_priority() {
    assert_eq!(BIG_STRIDE, 40320);
    let mut s = StrideScheduler::new();
    s.set_priority(4, 1);
    s.push(1);
    s.push(2);
    assert_eq!(s.pop(), Some(2));
    s.push(2);
    // 1 pays BIG_STRIDE / 4 per run: it runs five times (strides 0 up to
    // BIG_STRIDE, ties going its way) before 2 runs again
    for _ in 0..5 {
        assert_eq!(s.pop(), Some(1));
        s.push(1);
    }
    assert_eq!(s.pop(), Some(2));
}

use os_core::page_replace::{ClockPageReplace, FifoPageReplace, PageReplace};

const A: usize = 0x1000;
const B: usize = 0x2000;
const C: usize = 0x3000;

#[test]
fn fifo_evicts_in_arrival_order() {
    let mut p: FifoPageReplace<u32> = FifoPageReplace::new();
    p.push_frame(A, 1);
    p.push_frame(B, 1);
    p.push_frame(C, 2);
    let mut acc = vec![true, false, true];
    assert_eq!(p.choose_victim(&mut acc), Some((A, 1)));
    assert_eq!(acc, vec![false, true]);
    assert_eq!(p.choose_victim(&mut acc), Some((B, 1)));
    assert_eq!(p.choose_victim(&mut acc), Some((C, 2)));
    assert_eq!(p.choose_victim(&mut acc), None);
    assert!(acc.is_empty());
}

#[test]
fn fifo_keeps_duplicate_records() {
    let mut p: FifoPageReplace<u32> = FifoPageReplace::new();
    p.push_frame(A, 0);
    p.push_frame(A, 0);
    p.tick();
    let mut acc = vec![false, false];
    assert_eq!(p.choose_victim(&mut acc), Some((A, 0)));
    assert_eq!(p.choose_victim(&mut acc), Some((A, 0)));
    assert_eq!(p.choose_victim(&mut acc), None);
}

#[test]
fn clock_gives_accessed_pages_a_second_chance() {
    let mut p: ClockPageReplace<u32> = ClockPageReplace::new();
    p.push_frame(A, 7);
    p.push_frame(B, 7);
    p.push_frame(C, 7);
    let mut acc = vec![true, true, false];
    assert_eq!(p.choose_victim(&mut acc), Some((C, 7)));
    assert_eq!(acc, vec![false, false]);
    assert_eq!(p.choose_victim(&mut acc), Some((A, 7)));
    assert_eq!(acc, vec![false]);
    assert_eq!(p.choose_victim(&mut acc), Some((B, 7)));
    assert_eq!(p.choose_victim(&mut acc), None);
}

#[test]
fn clock_with_all_accessed_evicts_at_the_hand() {
    let mut p: ClockPageReplace<u32> = ClockPageReplace::new();
    p.push_frame(A, 0);
    p.push_frame(B, 0);
    p.push_frame(C, 0);
    let mut acc = vec![true, true, true];
    assert_eq!(p.choose_victim(&mut acc), Some((A, 0)));
    assert_eq!(acc, vec![false, false]);
}

#[test]
fn clock_scan_starts_from_the_hand() {
    let mut p: ClockPageReplace<u32> = ClockPageReplace::new();
    p.push_frame(A, 0);
    p.push_frame(B, 0);
    p.push_frame(C, 0);
    let mut acc = vec![true, false, true];
    // A is spared, B goes; the hand stays at index 1, now C
    assert_eq!(p.choose_victim(&mut acc), Some((B, 0)));
    assert_eq!(acc, vec![false, true]);
    p.push_frame(0x4000, 0);
    acc.push(false);
    // from C: C is spared and cleared, the new page goes
    assert_eq!(p.choose_victim(&mut acc), Some((0x4000, 0)));
    assert_eq!(acc, vec![false, false]);
}

#[test]
fn clock_on_empty_is_none() {
    let mut p: ClockPageReplace<u32> = ClockPageReplace::new();
    let mut acc: Vec<bool> = Vec::new();
    assert_eq!(p.choose_victim(&mut acc), None);
}

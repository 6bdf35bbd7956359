use os_core::condvar::Condvar;
use os_core::processor::{
    current_tid, exit, park, run, tick, wake_up, yield_now, Processor, Status,
};
use os_core::scheduler::{RRScheduler, StrideScheduler};

fn three_threads() -> Processor<RRScheduler> {
    let mut cpu = Processor::new(RRScheduler::new(2));
    assert_eq!(cpu.add_thread(), Some(0));
    assert_eq!(cpu.add_thread(), Some(1));
    assert_eq!(cpu.add_thread(), Some(2));
    cpu
}

#[test]
fn waiters_wake_in_wait_order() {
    let mut cpu = three_threads();
    let mut cv = Condvar::new();
    assert_eq!(run(&mut cpu), Some(0));
    cv.wait(&mut cpu);
    assert_eq!(cpu.status(0), Some(Status::Sleeping));
    assert_eq!(run(&mut cpu), Some(1));
    cv.wait(&mut cpu);
    assert_eq!(run(&mut cpu), Some(2));
    cv.notify(&mut cpu);
    assert_eq!(cpu.status(0), Some(Status::Ready));
    assert_eq!(cpu.status(1), Some(Status::Sleeping));
    cv.notify(&mut cpu);
    assert_eq!(cpu.status(1), Some(Status::Ready));
    yield_now(&mut cpu);
    assert_eq!(run(&mut cpu), Some(0));
    yield_now(&mut cpu);
    assert_eq!(run(&mut cpu), Some(1));
    yield_now(&mut cpu);
    assert_eq!(run(&mut cpu), Some(2));
}

#[test]
fn waiter_stays_asleep_until_notified() {
    let mut cpu = Processor::new(RRScheduler::new(1));
    assert_eq!(cpu.add_thread(), Some(0));
    let mut cv = Condvar::new();
    assert_eq!(run(&mut cpu), Some(0));
    cv.wait(&mut cpu);
    assert_eq!(run(&mut cpu), None);
    assert!(!tick(&mut cpu));
    assert_eq!(run(&mut cpu), None);
    cv.notify(&mut cpu);
    assert_eq!(run(&mut cpu), Some(0));
}

#[test]
fn notify_without_waiters_is_a_no_op() {
    let mut cpu = three_threads();
    let mut cv = Condvar::new();
    cv.notify(&mut cpu);
    assert_eq!(run(&mut cpu), Some(0));
    cv.wait(&mut cpu);
    assert_eq!(cpu.status(0), Some(Status::Sleeping));
    assert_eq!(run(&mut cpu), Some(1));
    assert_eq!(run(&mut cpu), None);
    assert_eq!(current_tid(&cpu), 1);
}

#[test]
fn tick_preempts_after_quantum() {
    let mut cpu = three_threads();
    assert_eq!(run(&mut cpu), Some(0));
    assert!(!tick(&mut cpu));
    assert!(tick(&mut cpu));
    assert_eq!(cpu.status(0), Some(Status::Ready));
    assert_eq!(run(&mut cpu), Some(1));
}

#[test]
fn exit_records_code_and_frees_processor() {
    let mut cpu = Processor::new(StrideScheduler::new());
    assert_eq!(cpu.add_thread(), Some(0));
    assert_eq!(cpu.add_thread(), Some(1));
    let first = run(&mut cpu).unwrap();
    exit(&mut cpu, 42);
    assert_eq!(cpu.status(first), Some(Status::Exited(42)));
    let second = run(&mut cpu).unwrap();
    assert_ne!(first, second);
    exit(&mut cpu, 0);
    assert_eq!(run(&mut cpu), None);
    assert_eq!(cpu.status(9), None);
}

#[test]
fn wake_up_only_touches_sleeping_threads() {
    let mut cpu = three_threads();
    wake_up(&mut cpu, 1);
    assert_eq!(cpu.status(1), Some(Status::Ready));
    assert_eq!(run(&mut cpu), Some(0));
    park(&mut cpu);
    assert_eq!(cpu.status(0), Some(Status::Sleeping));
    wake_up(&mut cpu, 0);
    assert_eq!(cpu.status(0), Some(Status::Ready));
    assert_eq!(run(&mut cpu), Some(1));
    assert_eq!(current_tid(&cpu), 1);
}

use runroutines::queue::LocalQueue;
use runroutines::timers::{get_ready_timers, TimerTask, Timers};
use std::cmp::Ordering;

fn timers_of(entries: &[(u128, usize)]) -> Timers {
    let mut timers = Timers::new();
    for &(when, task) in entries {
        timers.push(TimerTask { when, task });
    }
    timers
}

fn drain(local: &mut LocalQueue) -> Vec<usize> {
    let mut tasks = Vec::new();
    while let Some(task) = local.pop() {
        tasks.push(task);
    }
    tasks
}

#[test]
fn earlier_deadline_is_greater() {
    let early = TimerTask { when: 1, task: 10 };
    let late = TimerTask { when: 2, task: 20 };
    assert_eq!(early.cmp(&late), Ordering::Greater);
    assert_eq!(late.cmp(&early), Ordering::Less);
    assert_eq!(early.partial_cmp(&late), Some(Ordering::Greater));
    assert!(early > late);
    assert!(early != late);
}

#[test]
fn equality_ignores_the_task() {
    let a = TimerTask { when: 5, task: 1 };
    let b = TimerTask { when: 5, task: 2 };
    assert!(a == b);
    assert_eq!(a.cmp(&b), Ordering::Equal);
}

#[test]
fn pops_in_order_of_deadlines() {
    let mut timers = timers_of(&[(50, 5), (10, 1), (40, 4), (20, 2), (30, 3), (60, 6), (15, 9)]);
    let mut order = Vec::new();
    while let Some(first) = timers.peek() {
        let popped = timers.pop().unwrap();
        assert_eq!(first.when, popped.when);
        order.push((popped.when, popped.task));
    }
    assert_eq!(
        order,
        vec![(10, 1), (15, 9), (20, 2), (30, 3), (40, 4), (50, 5), (60, 6)]
    );
    assert!(timers.pop().is_none());
    assert!(timers.peek().is_none());
}

#[test]
fn due_timers_move_to_the_queue() {
    let mut local = LocalQueue::new();
    local.push(7);
    let mut timers = timers_of(&[(3_000_000, 30), (1_000_000, 10), (2_000_000, 20), (9_500_000, 90)]);
    let millis = get_ready_timers(&mut timers, 3_000_000, &mut local);
    assert_eq!(millis, 6);
    assert_eq!(drain(&mut local), vec![7, 10, 20, 30]);
    assert_eq!(timers.pop().unwrap().task, 90);
    assert!(timers.pop().is_none());
}

#[test]
fn no_timer_means_no_sleep_time() {
    let mut local = LocalQueue::new();
    let mut timers = Timers::new();
    assert_eq!(get_ready_timers(&mut timers, 5, &mut local), 0);
    let mut timers = timers_of(&[(5, 1)]);
    assert_eq!(get_ready_timers(&mut timers, 5, &mut local), 0);
    assert_eq!(drain(&mut local), vec![1]);
}

#[test]
fn sleep_time_is_at_least_a_millisecond() {
    let mut local = LocalQueue::new();
    let mut timers = timers_of(&[(101, 1)]);
    assert_eq!(get_ready_timers(&mut timers, 100, &mut local), 1);
    assert!(local.pop().is_none());
    let mut timers = timers_of(&[(1_999_999, 1)]);
    assert_eq!(get_ready_timers(&mut timers, 0, &mut local), 1);
    let mut timers = timers_of(&[(2_000_000, 1)]);
    assert_eq!(get_ready_timers(&mut timers, 0, &mut local), 2);
}

#[test]
fn sleep_time_keeps_its_low_bits() {
    let mut local = LocalQueue::new();
    let millis: u128 = (1u128 << 64) + 5;
    let mut timers = timers_of(&[(millis * 1_000_000, 1)]);
    assert_eq!(get_ready_timers(&mut timers, 0, &mut local), 5);
    let mut timers = timers_of(&[((1u128 << 64) * 1_000_000, 1)]);
    assert_eq!(get_ready_timers(&mut timers, 0, &mut local), 0);
}

#[test]
fn a_timer_fires_at_its_deadline_and_not_before() {
    let mut local = LocalQueue::new();
    let mut timers = timers_of(&[(1_000, 1), (1_000, 2)]);
    get_ready_timers(&mut timers, 999, &mut local);
    assert!(local.pop().is_none());
    get_ready_timers(&mut timers, 1_000, &mut local);
    let mut fired = drain(&mut local);
    fired.sort();
    assert_eq!(fired, vec![1, 2]);
    get_ready_timers(&mut timers, 2_000, &mut local);
    assert!(local.pop().is_none());
}

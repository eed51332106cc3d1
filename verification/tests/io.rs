use runroutines::io::{async_read, handle_event, wait_for_fd, ReadStep, WaitEvent, WaitStep};
use runroutines::io::{EAGAIN, EPOLLIN, EPOLL_CTL_ADD, EPOLL_CTL_MOD};
use runroutines::queue::LocalQueue;
use runroutines::yields::Yield;

#[test]
fn numbers_are_those_of_the_system() {
    assert_eq!(EAGAIN, libc::EAGAIN);
    assert_eq!(EPOLLIN, libc::EPOLLIN);
    assert_eq!(EPOLL_CTL_ADD, libc::EPOLL_CTL_ADD);
    assert_eq!(EPOLL_CTL_MOD, libc::EPOLL_CTL_MOD);
}

#[test]
fn a_count_is_handed_on() {
    assert_eq!(async_read(0, None), ReadStep::Return(0));
    assert_eq!(async_read(17, Some(libc::EAGAIN)), ReadStep::Return(17));
}

#[test]
fn a_read_that_would_block_is_tried_again() {
    assert_eq!(async_read(-1, Some(libc::EAGAIN)), ReadStep::Wait);
}

#[test]
fn any_other_failure_is_minus_one() {
    assert_eq!(async_read(-1, Some(libc::EBADF)), ReadStep::Return(-1));
    assert_eq!(async_read(-1, None), ReadStep::Return(-1));
    assert_eq!(async_read(-7, Some(0)), ReadStep::Return(-1));
}

#[test]
fn an_interest_is_changed_or_else_registered() {
    let modify = WaitStep::Ctl {
        epfd: 5,
        op: libc::EPOLL_CTL_MOD,
        fd: 8,
        events: libc::EPOLLIN,
        data: 99,
    };
    let register = WaitStep::Ctl {
        epfd: 5,
        op: libc::EPOLL_CTL_ADD,
        fd: 8,
        events: libc::EPOLLIN,
        data: 99,
    };
    let leave = WaitStep::Leave(Yield::Switch { task: 99, sched: 64 });
    assert_eq!(wait_for_fd(99, 64, 5, 8, WaitEvent::Start), modify);
    assert_eq!(wait_for_fd(99, 64, 5, 8, WaitEvent::Modified(0)), leave);
    assert_eq!(wait_for_fd(99, 64, 5, 8, WaitEvent::Modified(-1)), register);
    assert_eq!(wait_for_fd(99, 64, 5, 8, WaitEvent::Registered(0)), leave);
    assert_eq!(wait_for_fd(99, 64, 5, 8, WaitEvent::Registered(-1)), leave);
}

#[test]
fn a_wait_ends_after_two_calls() {
    let once = WaitEvent::Start.answer(-1);
    assert_eq!(once, WaitEvent::Modified(-1));
    let twice = once.answer(-1);
    assert_eq!(twice, WaitEvent::Registered(-1));
    assert_eq!(
        wait_for_fd(99, 64, 5, 8, twice),
        WaitStep::Leave(Yield::Switch { task: 99, sched: 64 })
    );
}

#[test]
fn waiting_needs_a_task_and_a_scheduler() {
    assert_eq!(wait_for_fd(0, 64, 5, 8, WaitEvent::Start), WaitStep::Leave(Yield::Stay));
    assert_eq!(wait_for_fd(99, 0, 5, 8, WaitEvent::Modified(0)), WaitStep::Leave(Yield::Stay));
}

#[test]
fn the_tasks_of_events_become_runnable() {
    let mut local = LocalQueue::new();
    local.push(1);
    handle_event(&[10, 20, 30, 40], 2, &mut local);
    assert_eq!(local.pop(), Some(1));
    assert_eq!(local.pop(), Some(10));
    assert_eq!(local.pop(), Some(20));
    assert_eq!(local.pop(), None);
}

#[test]
fn a_failed_poll_has_no_events() {
    let mut local = LocalQueue::new();
    handle_event(&[10, 20], -1, &mut local);
    assert!(local.is_empty());
    handle_event(&[10, 20], 0, &mut local);
    assert!(local.is_empty());
    handle_event(&[10, 20], 9, &mut local);
    assert_eq!(local.pop(), Some(10));
    assert_eq!(local.pop(), Some(20));
    assert_eq!(local.pop(), None);
}

#[test]
fn a_reader_waits_until_a_read_does_not_block() {
    let outcomes = [(-1, Some(libc::EAGAIN)), (-1, Some(libc::EAGAIN)), (12, None), (99, None)];
    let mut waits = 0;
    let mut result = None;
    for (n, errno) in outcomes {
        match async_read(n, errno) {
            ReadStep::Wait => waits += 1,
            ReadStep::Return(n) => {
                result = Some(n);
                break;
            }
        }
    }
    assert_eq!((waits, result), (2, Some(12)));
}

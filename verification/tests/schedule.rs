use crossbeam_deque::Injector;
use runroutines::registry::Registry;
use runroutines::runtime::build_runtime;
use runroutines::schedule::{Action, Event, Phase, Scheduler, RR_TICK_COUNT};
use runroutines::shared::SharedState;
use runroutines::yields::{arbit_yield, sleep_yield, Yield};
use std::sync::atomic::{AtomicU64, Ordering};

const SLOT: usize = 64;

const POLL: Action = Action::Poll { epfd: 5, events: 64, timeout: 0 };

fn registry(mask: u64) -> Registry {
    Registry { idle_mask: AtomicU64::new(mask) }
}

fn mask_of(registry: &Registry) -> u64 {
    registry.idle_mask.load(Ordering::SeqCst)
}

fn scheduler<'a>(injector: &'a Injector<usize>, registry: &'a Registry) -> Scheduler<'a> {
    let mut runtime = build_runtime(2, None);
    let local = runtime.workers.remove(0);
    Scheduler::new(0, SLOT, 5, local, SharedState::new(injector, registry), &runtime.shared)
}

#[test]
fn a_worker_starts_with_a_full_quota() {
    let injector = Injector::new();
    let registry = registry(0);
    let s = scheduler(&injector, &registry);
    assert_eq!((s.id, s.current, s.sched, s.slot), (0, 0, 0, SLOT));
    assert_eq!((s.quota, s.ep_fd, s.epoll_fd), (61, 5, 5));
    assert_eq!(s.phase, Phase::Start);
    assert_eq!(s.peers.len(), 1);
}

#[test]
fn without_a_poll_descriptor_tasks_wait_by_minus_one() {
    let injector: Injector<usize> = Injector::new();
    let mut runtime = build_runtime(1, None);
    let local = runtime.workers.remove(0);
    let registry = registry(0);
    let shared = SharedState::new(&injector, &registry);
    let s = Scheduler::new(0, SLOT, -3, local, shared, &runtime.shared);
    assert_eq!(s.ep_fd, -3);
    assert_eq!(s.epoll_fd, -1);
}

#[test]
fn a_task_runs_and_is_freed_when_it_has_ended() {
    let injector = Injector::new();
    let registry = registry(0);
    let mut s = scheduler(&injector, &registry);
    s.local.push(7);
    assert_eq!(s.schedule(Event::Go), Action::Run(7));
    assert_eq!((s.current, s.sched, s.phase), (7, SLOT, Phase::Running));
    assert_eq!(s.schedule(Event::Returned { rsp: 0 }), Action::Free(7));
    assert_eq!((s.current, s.phase), (0, Phase::Start));
    assert_eq!(s.schedule(Event::Go), Action::ReadClock);
}

#[test]
fn a_task_that_gave_up_the_thread_is_kept() {
    let injector = Injector::new();
    let registry = registry(0);
    let mut s = scheduler(&injector, &registry);
    s.local.push(7);
    assert_eq!(s.schedule(Event::Go), Action::Run(7));
    assert_eq!(s.schedule(Event::Returned { rsp: 4096 }), Action::Again);
    assert_eq!(s.current, 0);
}

#[test]
fn an_idle_worker_parks_until_it_is_woken() {
    let injector = Injector::new();
    let registry = registry(0);
    let mut s = scheduler(&injector, &registry);
    assert_eq!(s.schedule(Event::Go), Action::ReadClock);
    assert_eq!(s.phase, Phase::Timing);
    assert_eq!(s.schedule(Event::Clock { now: 0 }), Action::Park);
    assert_eq!(s.phase, Phase::Parked);
    assert_eq!(s.schedule(Event::Woken), Action::Again);
    assert_eq!(s.phase, Phase::Start);
}

#[test]
fn an_idle_worker_with_a_timer_parks_for_a_time() {
    let injector = Injector::new();
    let registry = registry(0);
    let mut s = scheduler(&injector, &registry);
    s.local.push(3);
    assert_eq!(s.schedule(Event::Go), Action::Run(3));
    let action = sleep_yield(s.current, s.sched, &mut s.timers, 0, 30_000_000);
    assert_eq!(action, Yield::Switch { task: 3, sched: SLOT });
    assert_eq!(s.schedule(Event::Returned { rsp: 4096 }), Action::Again);
    assert_eq!(s.schedule(Event::Go), Action::ReadClock);
    assert_eq!(s.schedule(Event::Clock { now: 10_000_000 }), Action::ParkTimeout(20));
    assert_eq!(s.schedule(Event::Woken), Action::Again);
    assert_eq!(s.schedule(Event::Go), Action::ReadClock);
    assert_eq!(s.schedule(Event::Clock { now: 30_000_000 }), Action::Again);
    assert_eq!(s.schedule(Event::Go), Action::Run(3));
}

#[test]
fn a_worker_polls_when_its_quota_is_used_up() {
    let injector = Injector::new();
    let registry = registry(0);
    let mut s = scheduler(&injector, &registry);
    s.local.push(1);
    for left in (0..RR_TICK_COUNT).rev() {
        assert_eq!(s.schedule(Event::Go), Action::Run(1));
        assert_eq!(s.quota, left);
        s.local.push(1);
        assert_eq!(s.schedule(Event::Returned { rsp: 8 }), Action::Again);
    }
    assert_eq!(s.schedule(Event::Go), POLL);
    assert_eq!((s.phase, s.quota), (Phase::Polling, 0));
    injector.push(9);
    let polled = Event::Polled { events: vec![20, 30, 40], n: 2, now: 0 };
    assert_eq!(s.schedule(polled), Action::Run(9));
    assert_eq!(s.quota, RR_TICK_COUNT);
    for task in [1, 20, 30] {
        assert_eq!(s.schedule(Event::Returned { rsp: 8 }), Action::Again);
        assert_eq!(s.schedule(Event::Go), Action::Run(task));
    }
    assert_eq!(s.schedule(Event::Returned { rsp: 8 }), Action::Again);
    assert_eq!(s.schedule(Event::Go), Action::ReadClock);
}

#[test]
fn a_poll_looks_at_the_timers_too() {
    let injector = Injector::new();
    let registry = registry(0);
    let mut s = scheduler(&injector, &registry);
    s.quota = 0;
    let _ = sleep_yield(6, SLOT, &mut s.timers, 0, 100);
    let _ = sleep_yield(7, SLOT, &mut s.timers, 0, 200);
    assert_eq!(s.schedule(Event::Go), POLL);
    assert_eq!(s.schedule(Event::Polled { events: vec![5], n: 1, now: 150 }), Action::Run(5));
    assert_eq!(s.schedule(Event::Returned { rsp: 0 }), Action::Free(5));
    assert_eq!(s.schedule(Event::Go), Action::Run(6));
    assert_eq!(s.timers.peek().unwrap().task, 7);
}

#[test]
fn an_idle_worker_steals() {
    let injector = Injector::new();
    let mut runtime = build_runtime(2, None);
    runtime.workers[1].push(42);
    let local = runtime.workers.remove(0);
    let registry = registry(0);
    let shared = SharedState::new(&injector, &registry);
    let mut s = Scheduler::new(0, SLOT, 5, local, shared, &runtime.shared);
    assert_eq!(s.schedule(Event::Go), Action::Run(42));
    assert_eq!(runtime.workers[0].pop(), None);
}

#[test]
fn two_tasks_take_turns() {
    let injector = Injector::new();
    injector.push(1);
    injector.push(2);
    let registry = registry(0);
    let mut s = scheduler(&injector, &registry);
    let mut trace = Vec::new();
    let mut left = vec![0, 9, 9];
    let mut event = Event::Go;
    loop {
        event = match s.schedule(event) {
            Action::Again | Action::Free(_) => Event::Go,
            Action::Run(task) => {
                trace.push(task);
                if left[task] == 0 {
                    Event::Returned { rsp: 0 }
                } else {
                    left[task] -= 1;
                    let action = arbit_yield(s.current, s.sched, Some(&mut s.local), &mut s.shared);
                    assert_eq!(action, Yield::Switch { task, sched: SLOT });
                    Event::Returned { rsp: 8 }
                }
            }
            Action::ReadClock => Event::Clock { now: 0 },
            Action::Poll { .. } => Event::Polled { events: Vec::new(), n: 0, now: 0 },
            Action::Park => break,
            Action::ParkTimeout(_) => unreachable!(),
        };
    }
    assert_eq!(trace.len(), 20);
    assert_eq!(trace.iter().filter(|&&t| t == 1).count(), 10);
    assert_eq!(trace.iter().filter(|&&t| t == 2).count(), 10);
    assert_eq!(left, vec![0, 0, 0]);
}

#[test]
fn a_later_deadline_decides_how_long_an_idle_worker_parks() {
    let injector = Injector::new();
    let registry = registry(0);
    let mut s = scheduler(&injector, &registry);
    let _ = sleep_yield(6, SLOT, &mut s.timers, 0, 10_000_000);
    let _ = sleep_yield(7, SLOT, &mut s.timers, 0, 25_000_000);
    assert_eq!(s.schedule(Event::Go), Action::ReadClock);
    assert_eq!(s.schedule(Event::Clock { now: 10_000_000 }), Action::ParkTimeout(15));
    assert_eq!(s.schedule(Event::Woken), Action::Again);
    assert_eq!(s.schedule(Event::Go), Action::Run(6));
}

#[test]
fn a_worker_is_marked_as_idle_only_while_it_has_nothing_to_run() {
    let injector = Injector::new();
    let registry = registry(0b110);
    let mut s = scheduler(&injector, &registry);
    s.local.push(3);
    assert_eq!(s.schedule(Event::Go), Action::Run(3));
    assert_eq!(mask_of(&registry), 0b110);
    let _ = sleep_yield(s.current, s.sched, &mut s.timers, 0, 30_000_000);
    assert_eq!(s.schedule(Event::Returned { rsp: 8 }), Action::Again);
    assert_eq!(s.schedule(Event::Go), Action::ReadClock);
    assert_eq!(mask_of(&registry), 0b111);
    assert_eq!(s.schedule(Event::Clock { now: 0 }), Action::ParkTimeout(30));
    assert_eq!(mask_of(&registry), 0b111);
    assert_eq!(s.schedule(Event::Woken), Action::Again);
    assert_eq!(mask_of(&registry), 0b110);
    assert_eq!(s.schedule(Event::Go), Action::ReadClock);
    assert_eq!(mask_of(&registry), 0b111);
    assert_eq!(s.schedule(Event::Clock { now: 30_000_000 }), Action::Again);
    assert_eq!(mask_of(&registry), 0b110);
    assert_eq!(s.schedule(Event::Go), Action::Run(3));
    assert_eq!(s.schedule(Event::Returned { rsp: 0 }), Action::Free(3));
    assert_eq!(s.schedule(Event::Go), Action::ReadClock);
    assert_eq!(s.schedule(Event::Clock { now: 30_000_000 }), Action::Park);
    assert_eq!(mask_of(&registry), 0b111);
    assert_eq!(s.schedule(Event::Woken), Action::Again);
    assert_eq!(mask_of(&registry), 0b110);
}

#[test]
fn a_worker_that_was_claimed_stays_off_the_mask() {
    let injector = Injector::new();
    let registry = registry(0);
    let mut s = scheduler(&injector, &registry);
    assert_eq!(s.schedule(Event::Go), Action::ReadClock);
    assert_eq!(mask_of(&registry), 0b1);
    registry.idle_mask.fetch_and(!1, Ordering::SeqCst);
    assert_eq!(s.schedule(Event::Clock { now: 0 }), Action::Park);
    assert_eq!(mask_of(&registry), 0);
}

#[test]
fn polls_come_at_even_distances() {
    let injector = Injector::new();
    let registry = registry(0);
    let mut s = scheduler(&injector, &registry);
    s.local.push(1);
    for round in 1..=200 {
        let action = s.schedule(Event::Go);
        assert_eq!(action == POLL, round % 62 == 0);
        if action == POLL {
            let polled = Event::Polled { events: Vec::new(), n: 0, now: 0 };
            assert_eq!(s.schedule(polled), Action::Run(1));
        }
        assert_eq!((s.current, s.sched), (1, SLOT));
        s.local.push(1);
        assert_eq!(s.schedule(Event::Returned { rsp: 8 }), Action::Again);
        assert_eq!(s.current, 0);
    }
}

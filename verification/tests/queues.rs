use crossbeam_deque::Injector;
use runroutines::queue::{LocalQueue, Peers, SharedP, Stolen};
use runroutines::registry::Registry;
use runroutines::runtime::{asks_the_machine, build_runtime};
use runroutines::search::{first_source, next_source, next_task, Source};
use runroutines::shared::SharedState;
use std::sync::atomic::AtomicU64;

fn nobody_idle() -> Registry {
    Registry { idle_mask: AtomicU64::new(0) }
}

fn contents(queue: &mut LocalQueue) -> Vec<usize> {
    let mut tasks = Vec::new();
    while let Some(task) = queue.pop() {
        tasks.push(task);
    }
    tasks
}

#[test]
fn local_queue_is_first_in_first_out() {
    let mut queue = LocalQueue::new();
    assert!(queue.is_empty());
    queue.push(1);
    queue.push(2);
    queue.push(3);
    assert!(!queue.is_empty());
    assert_eq!(queue.pop(), Some(1));
    queue.push(4);
    assert_eq!(contents(&mut queue), vec![2, 3, 4]);
    assert_eq!(queue.pop(), None);
    assert!(queue.is_empty());
}

#[test]
fn thieves_take_the_oldest() {
    let mut runtime = build_runtime(2, None);
    runtime.workers[0].push(11);
    runtime.workers[0].push(12);
    runtime.workers[0].push(13);
    let mut peers = Peers::new(1, &runtime.shared);
    assert_eq!(peers.len(), 1);
    assert_eq!(peers.steal(0), Some(11));
    assert_eq!(runtime.workers[0].pop(), Some(12));
    assert_eq!(peers.steal(0), Some(13));
    assert_eq!(peers.steal(0), None);
    assert_eq!(runtime.workers[0].pop(), None);
}

#[test]
fn a_stealer_reaches_its_own_queue() {
    let mut queue = LocalQueue::new();
    queue.push(5);
    let shared = vec![SharedP { id: 3, stealer: queue.stealer() }];
    let mut mine = Peers::new(3, &shared);
    assert_eq!(mine.len(), 0);
    let mut other = Peers::new(0, &shared);
    assert_eq!(other.len(), 1);
    assert_eq!(other.steal(0), Some(5));
    assert!(queue.is_empty());
    mine = Peers::new(4, &shared);
    assert_eq!(mine.steal(0), None);
}

#[test]
fn drawing_hands_out_the_first_and_queues_the_rest() {
    let injector: Injector<usize> = Injector::new();
    let registry = nobody_idle();
    let mut shared = SharedState::new(&injector, &registry);
    for task in 1..=4 {
        shared.push(task);
    }
    let mut local = LocalQueue::new();
    local.push(100);
    assert_eq!(shared.draw(&mut local), Some(1));
    let mut all = contents(&mut local);
    assert_eq!(all.remove(0), 100);
    while let Some(task) = shared.draw(&mut local) {
        all.push(task);
        all.extend(contents(&mut local));
    }
    assert_eq!(all, vec![2, 3, 4]);
    assert_eq!(shared.draw(&mut local), None);
    assert!(local.is_empty());
}

#[test]
fn only_success_carries_a_task() {
    assert_eq!(Stolen::Success(9).success(), Some(9));
    assert_eq!(Stolen::Empty.success(), None);
    assert_eq!(Stolen::Retry.success(), None);
}

#[test]
fn sources_in_order() {
    let mut order = vec![first_source(false)];
    while let Some(next) = next_source(false, 3, order[order.len() - 1]) {
        order.push(next);
    }
    assert_eq!(
        order,
        vec![Source::Local, Source::Global, Source::Peer(2), Source::Peer(1), Source::Peer(0)]
    );
    let mut order = vec![first_source(true)];
    while let Some(next) = next_source(true, 1, order[order.len() - 1]) {
        order.push(next);
    }
    assert_eq!(order, vec![Source::Global, Source::Local, Source::Peer(0)]);
    assert_eq!(next_source(true, 0, Source::Local), None);
    assert_eq!(next_source(false, 0, Source::Global), None);
}

#[test]
fn own_queue_comes_first_between_polls() {
    let injector: Injector<usize> = Injector::new();
    let registry = nobody_idle();
    let mut shared = SharedState::new(&injector, &registry);
    let mut local = LocalQueue::new();
    let mut peers = Peers::new(0, &Vec::new());
    shared.push(50);
    local.push(1);
    assert_eq!(next_task(false, &mut local, &mut shared, &mut peers), Some(1));
    assert_eq!(next_task(false, &mut local, &mut shared, &mut peers), Some(50));
    assert_eq!(next_task(false, &mut local, &mut shared, &mut peers), None);
}

#[test]
fn shared_queue_comes_first_after_a_poll() {
    let injector: Injector<usize> = Injector::new();
    let registry = nobody_idle();
    let mut shared = SharedState::new(&injector, &registry);
    let mut local = LocalQueue::new();
    let mut peers = Peers::new(0, &Vec::new());
    shared.push(50);
    local.push(1);
    assert_eq!(next_task(true, &mut local, &mut shared, &mut peers), Some(50));
    assert_eq!(next_task(true, &mut local, &mut shared, &mut peers), Some(1));
    assert_eq!(next_task(true, &mut local, &mut shared, &mut peers), None);
}

#[test]
fn other_workers_come_last_and_the_last_one_first() {
    let injector: Injector<usize> = Injector::new();
    let registry = nobody_idle();
    let mut shared = SharedState::new(&injector, &registry);
    let mut runtime = build_runtime(3, None);
    runtime.workers[1].push(21);
    runtime.workers[2].push(31);
    runtime.workers[2].push(32);
    let mut local = runtime.workers.remove(0);
    let mut peers = Peers::new(0, &runtime.shared);
    shared.push(50);
    let mut order = Vec::new();
    while let Some(task) = next_task(false, &mut local, &mut shared, &mut peers) {
        order.push(task);
    }
    assert_eq!(order, vec![50, 31, 32, 21]);
}

#[test]
fn worker_counts() {
    assert_eq!(build_runtime(1, Some(16)).workers.len(), 1);
    assert_eq!(build_runtime(2, None).workers.len(), 2);
    assert_eq!(build_runtime(4, Some(16)).workers.len(), 4);
    assert_eq!(build_runtime(0, Some(7)).workers.len(), 7);
    assert_eq!(build_runtime(5, Some(7)).workers.len(), 7);
    assert_eq!(build_runtime(0, None).workers.len(), 4);
    assert_eq!(build_runtime(100, None).workers.len(), 4);
}

#[test]
fn each_worker_has_the_others_as_peers() {
    let mut runtime = build_runtime(3, None);
    for id in 0..3 {
        assert_eq!(runtime.shared[id].id, id);
        runtime.workers[id].push(id + 10);
    }
    let mut peers = Peers::new(1, &runtime.shared);
    assert_eq!(peers.len(), 2);
    assert_eq!(peers.steal(0), Some(10));
    assert_eq!(peers.steal(1), Some(12));
    assert_eq!(runtime.workers[1].pop(), Some(11));
}

#[test]
fn the_front_of_the_own_queue_runs_and_the_others_stay() {
    let injector: Injector<usize> = Injector::new();
    let registry = nobody_idle();
    let mut shared = SharedState::new(&injector, &registry);
    let mut local = LocalQueue::new();
    let mut peers = Peers::new(0, &Vec::new());
    for task in 1..=3 {
        local.push(task);
    }
    assert_eq!(next_task(false, &mut local, &mut shared, &mut peers), Some(1));
    assert_eq!(next_task(true, &mut local, &mut shared, &mut peers), Some(2));
    assert_eq!(contents(&mut local), vec![3]);
}

#[test]
fn a_draw_moves_each_task_once() {
    let injector: Injector<usize> = Injector::new();
    let registry = nobody_idle();
    let mut shared = SharedState::new(&injector, &registry);
    let mut local = LocalQueue::new();
    let mut peers = Peers::new(0, &Vec::new());
    for task in 1..=100 {
        shared.push(task);
    }
    let mut order = Vec::new();
    while let Some(task) = next_task(false, &mut local, &mut shared, &mut peers) {
        order.push(task);
    }
    assert_eq!(order, (1..=100).collect::<Vec<usize>>());
}

#[test]
fn steals_and_pops_take_the_oldest_in_turn() {
    let mut queue = LocalQueue::new();
    for task in 1..=6 {
        queue.push(task);
    }
    let shared = vec![SharedP { id: 1, stealer: queue.stealer() }];
    let mut thief = Peers::new(0, &shared);
    let mut other = Peers::new(2, &shared);
    let mut order = Vec::new();
    for _ in 0..2 {
        order.push(thief.steal(0));
        order.push(queue.pop());
        order.push(other.steal(0));
    }
    assert_eq!(order, (1..=6).map(Some).collect::<Vec<Option<usize>>>());
}

#[test]
fn the_machine_is_asked_only_where_it_decides() {
    for (thcount, asks) in [(0, true), (1, false), (4, false), (5, true)] {
        assert_eq!(asks_the_machine(thcount), asks);
    }
}

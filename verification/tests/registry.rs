use crossbeam_deque::Injector;
use runroutines::queue::LocalQueue;
use runroutines::registry::{
    claim_idle, lowest_idle, set_thread_busy, set_thread_idle, was_idle, with_busy, with_idle, Claim,
    MaskChange, Registry,
};
use runroutines::shared::SharedState;
use runroutines::task::RunroutineStruct;
use std::sync::atomic::{AtomicU64, Ordering};

fn registry(mask: u64) -> Registry {
    Registry { idle_mask: AtomicU64::new(mask) }
}

fn mask_of(registry: &Registry) -> u64 {
    registry.idle_mask.load(Ordering::SeqCst)
}

#[test]
fn marks_set_and_clear_one_bit() {
    assert_eq!(with_idle(0b100, 0), 0b101);
    assert_eq!(with_idle(0b101, 0), 0b101);
    assert_eq!(with_idle(0, 63), 1 << 63);
    assert_eq!(with_busy(0b101, 2), 0b001);
    assert_eq!(with_busy(0b001, 2), 0b001);
    assert_eq!(with_busy(with_idle(0b1010, 2), 2), 0b1010);
    assert!(was_idle(0b100, 2));
    assert!(!was_idle(0b100, 1));
}

#[test]
fn lowest_idle_worker() {
    assert_eq!(lowest_idle(0), None);
    assert_eq!(lowest_idle(0b1100), Some(2));
    assert_eq!(lowest_idle(1 << 63), Some(63));
    assert_eq!(lowest_idle(u64::MAX), Some(0));
}

#[test]
fn idle_and_busy_change_the_shared_mask() {
    let injector: Injector<usize> = Injector::new();
    let registry = registry(0b1000);
    let mut shared = SharedState::new(&injector, &registry);
    assert_eq!(set_thread_idle(&mut shared, 1), Some(MaskChange { before: 0b1000, after: 0b1010 }));
    assert_eq!(mask_of(&registry), 0b1010);
    assert_eq!(set_thread_busy(&mut shared, 3), Some(MaskChange { before: 0b1010, after: 0b0010 }));
    assert_eq!(mask_of(&registry), 0b0010);
    assert_eq!(set_thread_busy(&mut shared, 1), Some(MaskChange { before: 0b0010, after: 0 }));
    assert_eq!(mask_of(&registry), 0);
}

#[test]
fn the_last_worker_has_the_highest_bit() {
    let injector: Injector<usize> = Injector::new();
    let registry = registry(0b0101);
    let mut shared = SharedState::new(&injector, &registry);
    set_thread_idle(&mut shared, 63);
    assert_eq!(mask_of(&registry), 0x8000_0000_0000_0005);
    set_thread_idle(&mut shared, 63);
    assert_eq!(mask_of(&registry), 0x8000_0000_0000_0005);
}

#[test]
fn busy_undoes_idle() {
    let injector: Injector<usize> = Injector::new();
    let registry = registry(0b1010);
    let mut shared = SharedState::new(&injector, &registry);
    set_thread_idle(&mut shared, 2);
    assert_eq!(mask_of(&registry), 0b1110);
    set_thread_busy(&mut shared, 2);
    assert_eq!(mask_of(&registry), 0b1010);
    set_thread_busy(&mut shared, 2);
    assert_eq!(mask_of(&registry), 0b1010);
}

#[test]
fn workers_without_a_bit_are_not_marked() {
    let injector: Injector<usize> = Injector::new();
    let registry = registry(0b11);
    let mut shared = SharedState::new(&injector, &registry);
    assert_eq!(set_thread_idle(&mut shared, 64), None);
    assert_eq!(set_thread_busy(&mut shared, usize::MAX), None);
    assert_eq!(mask_of(&registry), 0b11);
}

#[test]
fn a_claim_takes_the_lowest_idle_worker_off_the_mask() {
    let injector: Injector<usize> = Injector::new();
    let registry = registry(0b110);
    let mut shared = SharedState::new(&injector, &registry);
    let claim = claim_idle(&mut shared);
    assert_eq!(claim, Claim { seen: 0b110, picked: Some(1), found: Some(0b110) });
    assert_eq!(claim.woken(), Some(1));
    assert_eq!(mask_of(&registry), 0b100);
    assert_eq!(claim_idle(&mut shared).woken(), Some(2));
    let nobody = claim_idle(&mut shared);
    assert_eq!(nobody, Claim { seen: 0, picked: None, found: None });
    assert_eq!(nobody.woken(), None);
}

#[test]
fn a_claim_that_came_late_wins_nobody() {
    let late = Claim { seen: 0b110, picked: Some(1), found: Some(0b100) };
    assert_eq!(late.woken(), None);
}

#[test]
fn adding_a_task_queues_it_and_claims_a_worker() {
    let injector: Injector<usize> = Injector::new();
    let registry = registry(0b1000);
    let mut shared = SharedState::new(&injector, &registry);
    assert_eq!(RunroutineStruct::add(77, &mut shared).woken(), Some(3));
    assert_eq!(RunroutineStruct::add(78, &mut shared).woken(), None);
    assert_eq!(mask_of(&registry), 0);
    let mut local = LocalQueue::new();
    assert_eq!(shared.draw(&mut local), Some(77));
    assert_eq!(shared.draw(&mut local), Some(78));
    assert_eq!(shared.draw(&mut local), None);
}

#[test]
fn adding_a_task_clears_the_lowest_bit_alone() {
    let injector: Injector<usize> = Injector::new();
    let registry = registry(0b1100);
    let mut shared = SharedState::new(&injector, &registry);
    assert_eq!(RunroutineStruct::add(77, &mut shared).woken(), Some(2));
    assert_eq!(mask_of(&registry), 0b1000);
    assert_eq!(injector.len(), 1);
}

#[test]
fn adding_tasks_while_nobody_is_idle_wakes_nobody() {
    let injector: Injector<usize> = Injector::new();
    let registry = registry(0);
    let mut shared = SharedState::new(&injector, &registry);
    assert_eq!(RunroutineStruct::add(1, &mut shared).woken(), None);
    assert_eq!(RunroutineStruct::add(2, &mut shared).woken(), None);
    assert_eq!(mask_of(&registry), 0);
    assert_eq!(injector.steal().success(), Some(1));
    assert_eq!(injector.steal().success(), Some(2));
    assert!(injector.is_empty());
}

#[test]
fn a_claimed_worker_is_claimed_again_only_after_it_was_idle() {
    let injector: Injector<usize> = Injector::new();
    let registry = registry(0b1);
    let mut shared = SharedState::new(&injector, &registry);
    let mut other = SharedState::new(&injector, &registry);
    assert_eq!(claim_idle(&mut shared).woken(), Some(0));
    assert_eq!(claim_idle(&mut other).woken(), None);
    set_thread_busy(&mut other, 0);
    set_thread_idle(&mut other, 5);
    assert_eq!(claim_idle(&mut shared).woken(), Some(5));
    assert_eq!(claim_idle(&mut other).woken(), None);
    set_thread_idle(&mut shared, 0);
    assert_eq!(claim_idle(&mut other).woken(), Some(0));
}

use crossbeam_deque::Injector;
use runroutines::compliant::{rr_compliant, Callee};
use runroutines::queue::LocalQueue;
use runroutines::registry::Registry;
use runroutines::shared::SharedState;
use runroutines::task::{new_stack, Entry, RunroutineStruct, FRAME_SIZE, STACK_SIZE};
use runroutines::timers::{get_ready_timers, Timers};
use runroutines::yields::{arbit_yield, ret_to_sched, sleep_yield, Yield};
use std::sync::atomic::AtomicU64;

fn nobody_idle() -> Registry {
    Registry { idle_mask: AtomicU64::new(0) }
}

fn word(stack: &[u8], at: usize) -> u64 {
    let mut bytes = [0u8; 8];
    bytes.copy_from_slice(&stack[at..at + 8]);
    u64::from_le_bytes(bytes)
}

fn entry() -> Entry {
    Entry { shim: 0x1122_3344_5566, ret: 0x77, func: 0x8899, data: 0xaabb_ccdd }
}

#[test]
fn a_new_stack_is_a_mebibyte_of_zeros() {
    let stack = new_stack();
    assert_eq!(stack.len(), 1024 * 1024);
    assert!(stack.iter().all(|&b| b == 0));
}

#[test]
fn first_frame_of_a_task() {
    let base = 0x7000_0000;
    let task = RunroutineStruct::new(new_stack(), base, entry());
    let offset = STACK_SIZE - FRAME_SIZE;
    assert_eq!(task.rsp, base + STACK_SIZE - 96);
    let words: Vec<u64> = (0..12).map(|i| word(&task.stack, offset + 8 * i)).collect();
    assert_eq!(
        words,
        vec![0, 0, 0, 0, 0, 0, 0x1122_3344_5566, 0x77, 0x8899, 0xaabb_ccdd, 0, 0]
    );
    assert!(task.stack[..offset].iter().all(|&b| b == 0));
    assert_eq!(task.rsp % 16, 0);
    assert_eq!((task.rsp + 56) % 16, 8);
}

#[test]
fn the_frame_leaves_the_rest_of_the_stack_alone() {
    let task = RunroutineStruct::new(vec![7u8; 100], 1000, entry());
    assert_eq!(task.rsp, 1004);
    assert_eq!(&task.stack[..4], &[7, 7, 7, 7]);
    assert_eq!(word(&task.stack, 4), 0);
    assert_eq!(word(&task.stack, 4 + 48), 0x1122_3344_5566);
}

#[test]
fn a_yield_goes_to_the_back_of_the_own_queue() {
    let injector: Injector<usize> = Injector::new();
    let registry = nobody_idle();
    let mut shared = SharedState::new(&injector, &registry);
    let mut local = LocalQueue::new();
    local.push(1);
    assert_eq!(
        arbit_yield(2, 64, Some(&mut local), &mut shared),
        Yield::Switch { task: 2, sched: 64 }
    );
    assert_eq!(local.pop(), Some(1));
    assert_eq!(local.pop(), Some(2));
    assert!(injector.is_empty());
}

#[test]
fn a_yield_without_a_queue_goes_to_the_shared_one() {
    let injector: Injector<usize> = Injector::new();
    let registry = nobody_idle();
    let mut shared = SharedState::new(&injector, &registry);
    assert_eq!(arbit_yield(2, 64, None, &mut shared), Yield::Switch { task: 2, sched: 64 });
    assert_eq!(injector.steal().success(), Some(2));
}

#[test]
fn a_yield_without_a_scheduler_only_queues() {
    let injector: Injector<usize> = Injector::new();
    let registry = nobody_idle();
    let mut shared = SharedState::new(&injector, &registry);
    let mut local = LocalQueue::new();
    assert_eq!(arbit_yield(2, 0, Some(&mut local), &mut shared), Yield::Stay);
    assert_eq!(local.pop(), Some(2));
}

#[test]
fn outside_a_task_nothing_yields() {
    let injector: Injector<usize> = Injector::new();
    let registry = nobody_idle();
    let mut shared = SharedState::new(&injector, &registry);
    let mut local = LocalQueue::new();
    let mut timers = Timers::new();
    assert_eq!(arbit_yield(0, 64, Some(&mut local), &mut shared), Yield::Stay);
    assert_eq!(arbit_yield(0, 64, None, &mut shared), Yield::Stay);
    assert_eq!(sleep_yield(0, 64, &mut timers, u128::MAX, u128::MAX), Yield::Stay);
    assert!(local.is_empty());
    assert!(injector.is_empty());
    assert!(timers.peek().is_none());
}

#[test]
fn a_sleeping_task_wakes_when_its_time_has_come() {
    let mut local = LocalQueue::new();
    let mut timers = Timers::new();
    assert_eq!(
        sleep_yield(9, 64, &mut timers, 1_000, 5_000_000),
        Yield::Switch { task: 9, sched: 64 }
    );
    assert_eq!(timers.peek().unwrap().when, 5_001_000);
    assert_eq!(get_ready_timers(&mut timers, 5_000_999, &mut local), 1);
    assert!(local.is_empty());
    assert_eq!(get_ready_timers(&mut timers, 5_001_000, &mut local), 0);
    assert_eq!(local.pop(), Some(9));
}

#[test]
fn a_sleep_without_a_scheduler_only_sets_the_timer() {
    let mut timers = Timers::new();
    assert_eq!(sleep_yield(9, 0, &mut timers, 3, 4), Yield::Stay);
    assert_eq!(timers.pop().unwrap().when, 7);
}

#[test]
fn a_task_that_ends_is_marked() {
    let mut task = RunroutineStruct::new(new_stack(), 0x1000, entry());
    assert_eq!(ret_to_sched(64, Some(&mut task)), Some(64));
    assert_eq!(task.rsp, 0);
    let mut task = RunroutineStruct::new(new_stack(), 0x1000, entry());
    let rsp = task.rsp;
    assert_eq!(ret_to_sched(0, Some(&mut task)), None);
    assert_eq!(task.rsp, rsp);
    assert_eq!(ret_to_sched(64, None), None);
}

fn path(segments: &[&str]) -> Callee {
    Callee::Path(segments.iter().map(|s| s.to_string()).collect())
}

#[test]
fn sleeps_are_redirected() {
    let to = Some(vec!["sleep_yield".to_string()]);
    assert_eq!(rr_compliant(&path(&["sleep"])), to);
    assert_eq!(rr_compliant(&path(&["std", "thread", "sleep"])), to);
}

#[test]
fn other_calls_are_left_alone() {
    assert_eq!(rr_compliant(&path(&["sleep", "now"])), None);
    assert_eq!(rr_compliant(&path(&["asleep"])), None);
    assert_eq!(rr_compliant(&path(&["sleep_yield"])), None);
    assert_eq!(rr_compliant(&path(&[])), None);
    assert_eq!(rr_compliant(&Callee::Other), None);
}

#[test]
fn redirected_paths_are_final() {
    let to = rr_compliant(&path(&["thread", "sleep"])).unwrap();
    assert_eq!(rr_compliant(&Callee::Path(to)), None);
}

#[test]
fn rewriting_all_calls_twice_changes_nothing_more() {
    let rewrite = |callee: &Callee| match rr_compliant(callee) {
        Some(to) => Some(to),
        None => match callee {
            Callee::Path(segments) => Some(segments.clone()),
            Callee::Other => None,
        },
    };
    let calls = [path(&["thread", "sleep"]), path(&["print"]), Callee::Other, path(&["sleep"])];
    let once: Vec<Option<Vec<String>>> = calls.iter().map(rewrite).collect();
    let again: Vec<Callee> = once
        .iter()
        .map(|to| match to {
            Some(segments) => Callee::Path(segments.clone()),
            None => Callee::Other,
        })
        .collect();
    let twice: Vec<Option<Vec<String>>> = again.iter().map(rewrite).collect();
    assert_eq!(once[0], Some(vec!["sleep_yield".to_string()]));
    assert_eq!(once[1], Some(vec!["print".to_string()]));
    assert_eq!(once[2], None);
    assert_eq!(once, twice);
}

#[test]
fn redirected_paths_parse() {
    let to = rr_compliant(&path(&["thread", "sleep"])).unwrap();
    let parsed: syn::Path = syn::parse_str(&to.join("::")).unwrap();
    assert!(parsed.is_ident("sleep_yield"));
}

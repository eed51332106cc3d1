//! Waiting for file descriptors.
use crate::queue::{GPtr, LocalQueue};
use crate::yields::{switch_from, Yield};
use vstd::prelude::*;

verus! {

/// How many events one poll asks for.
pub const EVENTS_COUNT_MAX: usize = 64;

/// How long one poll waits, in milliseconds.
pub const DEFAULT_TIMEOUT: i32 = 0;

/// The error number of a read that would have to wait.
pub const EAGAIN: i32 = 11;

/// The interest in reading.
pub const EPOLLIN: i32 = 1;

/// The operation that registers an interest.
pub const EPOLL_CTL_ADD: i32 = 1;

/// The operation that changes an interest.
pub const EPOLL_CTL_MOD: i32 = 3;

/// Reads `libc::EAGAIN`, the error number of a read that would have to wait. The number
/// is that of Linux, the system whose `epoll` this runtime is built on.
#[verifier::external_body]
fn again() -> (errno: i32)
    ensures
        errno == EAGAIN,
{
    libc::EAGAIN
}

/// Reads `libc::EPOLLIN`, the interest in reading, as Linux numbers it.
#[verifier::external_body]
fn readable() -> (events: i32)
    ensures
        events == EPOLLIN,
{
    libc::EPOLLIN
}

/// Reads `libc::EPOLL_CTL_MOD`, the operation that changes an interest, as Linux
/// numbers it.
#[verifier::external_body]
fn modify() -> (op: i32)
    ensures
        op == EPOLL_CTL_MOD,
{
    libc::EPOLL_CTL_MOD
}

/// Reads `libc::EPOLL_CTL_ADD`, the operation that registers an interest, as Linux
/// numbers it.
#[verifier::external_body]
fn register() -> (op: i32)
    ensures
        op == EPOLL_CTL_ADD,
{
    libc::EPOLL_CTL_ADD
}

/// What a reader does after one call of `read`.
#[derive(Clone, Copy, Debug, PartialEq, Eq, Structural)]
pub enum ReadStep {
    /// Hand the number to the caller.
    Return(isize),
    /// Wait for the descriptor and read again.
    Wait,
}

/// What follows a call of `read` that returned `n` and left `errno`: a count is handed
/// on, a read that would block is tried again, any other failure is minus one.
pub open spec fn read_step(n: isize, errno: Option<i32>) -> ReadStep {
    if n >= 0 {
        ReadStep::Return(n)
    } else if errno == Some(EAGAIN) {
        ReadStep::Wait
    } else {
        ReadStep::Return(-1isize)
    }
}

/// What a reader does after a call of `read` that returned `n` and left `errno`.
pub fn async_read(n: isize, errno: Option<i32>) -> (step: ReadStep)
    ensures
        step == read_step(n, errno),
{
    if n >= 0 {
        return ReadStep::Return(n);
    }
    match errno {
        Some(code) => if code == again() {
            ReadStep::Wait
        } else {
            ReadStep::Return(-1)
        },
        None => ReadStep::Return(-1),
    }
}

/// How far a task has come in waiting for a descriptor.
#[derive(Clone, Copy, Debug, PartialEq, Eq, Structural)]
pub enum WaitEvent {
    /// Nothing has been done.
    Start,
    /// The attempt to change the interest returned this.
    Modified(i32),
    /// The attempt to register the interest returned this.
    Registered(i32),
}

/// How far a task has come after its next call returned `rc`.
pub open spec fn answered(event: WaitEvent, rc: i32) -> WaitEvent {
    match event {
        WaitEvent::Start => WaitEvent::Modified(rc),
        _ => WaitEvent::Registered(rc),
    }
}

impl WaitEvent {
    /// How far a task has come after its next call returned `rc`.
    pub fn answer(self, rc: i32) -> (event: WaitEvent)
        ensures
            event == answered(self, rc),
    {
        match self {
            WaitEvent::Start => WaitEvent::Modified(rc),
            _ => WaitEvent::Registered(rc),
        }
    }
}

/// What a task that waits for a descriptor does next.
#[derive(Clone, Copy, Debug, PartialEq, Eq, Structural)]
pub enum WaitStep {
    /// Call `epoll_ctl` with these arguments; `data` comes back with the event.
    Ctl { epfd: i32, op: i32, fd: i32, events: i32, data: GPtr },
    /// Give up the thread.
    Leave(Yield),
}

/// The running task waits until `fd` is readable: its interest in `fd` is changed, or
/// registered where there is none to change, and then it goes back to its scheduler.
/// Outside a task nothing happens.
pub open spec fn wait_step(
    current: GPtr,
    sched: usize,
    epfd: i32,
    fd: i32,
    event: WaitEvent,
) -> WaitStep {
    if current == 0 {
        WaitStep::Leave(Yield::Stay)
    } else {
        match event {
            WaitEvent::Start => WaitStep::Ctl {
                epfd,
                op: EPOLL_CTL_MOD,
                fd,
                events: EPOLLIN,
                data: current,
            },
            WaitEvent::Modified(rc) => if rc < 0 {
                WaitStep::Ctl { epfd, op: EPOLL_CTL_ADD, fd, events: EPOLLIN, data: current }
            } else {
                WaitStep::Leave(switch_from(current, sched))
            },
            WaitEvent::Registered(rc) => WaitStep::Leave(switch_from(current, sched)),
        }
    }
}

/// What a task that waits until `fd` is readable does next.
pub fn wait_for_fd(current: GPtr, sched: usize, epfd: i32, fd: i32, event: WaitEvent) -> (step:
    WaitStep)
    ensures
        step == wait_step(current, sched, epfd, fd, event),
{
    if current == 0 {
        return WaitStep::Leave(Yield::Stay);
    }
    let leave: WaitStep = WaitStep::Leave(crate::yields::switch(current, sched));
    match event {
        WaitEvent::Start => WaitStep::Ctl {
            epfd,
            op: modify(),
            fd,
            events: readable(),
            data: current,
        },
        WaitEvent::Modified(rc) => if rc < 0 {
            WaitStep::Ctl { epfd, op: register(), fd, events: readable(), data: current }
        } else {
            leave
        },
        WaitEvent::Registered(rc) => leave,
    }
}

/// How many of `len` events a poll that returned `n` has filled in.
pub open spec fn event_count(n: i32, len: nat) -> int {
    if n < 0 {
        0
    } else if n < len {
        n as int
    } else {
        len as int
    }
}

/// The tasks of the first `n` events become runnable, in their order. A poll that failed
/// has none.
pub fn handle_event(events: &[GPtr], n: i32, local: &mut LocalQueue)
    requires
        old(local).wf(),
    ensures
        final(local).wf(),
        final(local).order() == old(local).order(),
        final(local).pops() == old(local).pops(),
        final(local).looks() == old(local).looks(),
        final(local).pending() == old(local).pending() + events@.take(
            event_count(n, events@.len()),
        ),
        final(local).put() == old(local).put() + events@.take(event_count(n, events@.len())),
{
    let mut i: usize = 0;
    let count: usize = if n < 0 {
        0
    } else {
        n as usize
    };
    assert(local.pending() + events@.take(0) =~= local.pending());
    assert(local.put() + events@.take(0) =~= local.put());
    while i < count && i < events.len()
        invariant
            i <= count,
            i <= events.len(),
            n < 0 ==> count == 0,
            n >= 0 ==> count == n,
            local.wf(),
            local.order() == old(local).order(),
            local.pops() == old(local).pops(),
            local.looks() == old(local).looks(),
            local.pending() == old(local).pending() + events@.take(i as int),
            local.put() == old(local).put() + events@.take(i as int),
        decreases count - i,
    {
        local.push(events[i]);
        assert(old(local).pending() + events@.take(i + 1) =~= (old(local).pending() + events@.take(
            i as int,
        )).push(events@[i as int]));
        assert(old(local).put() + events@.take(i + 1) =~= (old(local).put() + events@.take(
            i as int,
        )).push(events@[i as int]));
        i = i + 1;
    }
}

/// What a reader hands to its caller when its calls of `read` come out one after the other as
/// in `outcomes`, or none if it still waits after the last.
pub open spec fn read_result(outcomes: Seq<(isize, Option<i32>)>) -> Option<isize>
    decreases outcomes.len(),
{
    if outcomes.len() == 0 {
        None
    } else {
        match read_step(outcomes[0].0, outcomes[0].1) {
            ReadStep::Return(n) => Some(n),
            ReadStep::Wait => read_result(outcomes.skip(1)),
        }
    }
}

/// A reader waits as long as its reads would block, and hands on what the first other one
/// gives: the count, or minus one if it failed.
pub proof fn law_read_ends_with_the_first_that_does_not_block(
    outcomes: Seq<(isize, Option<i32>)>,
    k: int,
)
    requires
        0 <= k < outcomes.len(),
        forall|i: int|
            0 <= i < k ==> (#[trigger] outcomes[i]).0 < 0 && outcomes[i].1 == Some(EAGAIN),
        !(outcomes[k].0 < 0 && outcomes[k].1 == Some(EAGAIN)),
    ensures
        read_result(outcomes) == Some(
            if outcomes[k].0 >= 0 {
                outcomes[k].0
            } else {
                -1isize
            },
        ),
    decreases k,
{
    if k > 0 {
        assert(outcomes[0].1 == Some(EAGAIN));
        let rest = outcomes.skip(1);
        assert forall|i: int| 0 <= i < k - 1 implies (#[trigger] rest[i]).0 < 0
            && rest[i].1 == Some(
            EAGAIN,
        ) by {
            assert(rest[i] == outcomes[i + 1]);
        }
        assert(rest[k - 1] == outcomes[k]);
        law_read_ends_with_the_first_that_does_not_block(rest, k - 1);
    }
}

/// Whatever the system answers, a task leaves its thread after at most two calls. The second
/// call is made only if the first one failed, and it registers what the first one could not
/// change.
pub proof fn law_wait_leaves_after_two_calls(
    current: GPtr,
    sched: usize,
    epfd: i32,
    fd: i32,
    first: i32,
    second: i32,
)
    requires
        current != 0,
    ensures
        ({
            let once = answered(WaitEvent::Start, first);
            let twice = answered(once, second);
            let leave = WaitStep::Leave(switch_from(current, sched));
            &&& first >= 0 ==> wait_step(current, sched, epfd, fd, once) == leave
            &&& first < 0 ==> wait_step(current, sched, epfd, fd, once) == (WaitStep::Ctl {
                epfd,
                op: EPOLL_CTL_ADD,
                fd,
                events: EPOLLIN,
                data: current,
            })
            &&& wait_step(current, sched, epfd, fd, twice) == leave
        }),
{
}

/// A reader hands on every count as it is, waits exactly if the read failed because it would
/// block, and hands on minus one for every other failure.
pub proof fn law_a_read_is_handed_on(n: isize, errno: Option<i32>, step: ReadStep)
    requires
        call_ensures(async_read, (n, errno), step),
    ensures
        call_requires(async_read, (n, errno)),
        n >= 0 ==> step == ReadStep::Return(n),
        step == ReadStep::Wait <==> n < 0 && errno == Some(11i32),
        n < 0 && errno != Some(11i32) ==> step == ReadStep::Return(-1isize),
{
}

/// The answer to the first call of a wait is that of the change, and the answer to any later one
/// is that of the registration. It is kept as it is.
pub proof fn law_answers_are_kept(event: WaitEvent, rc: i32, next: WaitEvent)
    requires
        call_ensures(WaitEvent::answer, (event, rc), next),
    ensures
        call_requires(WaitEvent::answer, (event, rc)),
        event == WaitEvent::Start ==> next == WaitEvent::Modified(rc),
        event != WaitEvent::Start ==> next == WaitEvent::Registered(rc),
{
}

/// For every running task, every descriptor and every scheduler: a wait first asks to change the
/// task's interest in that very descriptor; only if that fails, it asks to register the interest
/// instead; and only then the task gives up its thread, to its scheduler if there is one. Outside
/// a task nothing is asked for.
pub proof fn law_a_wait_asks_for_its_descriptor(
    current: GPtr,
    sched: usize,
    epfd: i32,
    fd: i32,
    event: WaitEvent,
    step: WaitStep,
)
    requires
        call_ensures(wait_for_fd, (current, sched, epfd, fd, event), step),
    ensures
        call_requires(wait_for_fd, (current, sched, epfd, fd, event)),
        current == 0 ==> step == WaitStep::Leave(Yield::Stay),
        current != 0 && event == WaitEvent::Start ==> step == (WaitStep::Ctl {
            epfd,
            op: 3,
            fd,
            events: 1,
            data: current,
        }),
        current != 0 ==> (event matches WaitEvent::Modified(rc) && rc < 0 ==> step == (
        WaitStep::Ctl { epfd, op: 1, fd, events: 1, data: current })),
        current != 0 && (event is Registered || (event matches WaitEvent::Modified(rc) && rc >= 0))
            ==> {
            &&& sched != 0 ==> step == WaitStep::Leave(Yield::Switch { task: current, sched })
            &&& sched == 0 ==> step == WaitStep::Leave(Yield::Stay)
        },
{
}

/// No task leaves its thread unregistered: when a wait, whose calls are answered by `first` and
/// `second`, comes to leave, the call that came last was for the task's descriptor and the task,
/// and it was the change, which did not fail, or else the registration.
pub proof fn law_no_task_leaves_unregistered(
    current: GPtr,
    sched: usize,
    epfd: i32,
    fd: i32,
    first: i32,
    second: i32,
    once: WaitEvent,
    twice: WaitEvent,
    steps: Seq<WaitStep>,
)
    requires
        current != 0,
        steps.len() == 3,
        call_ensures(wait_for_fd, (current, sched, epfd, fd, WaitEvent::Start), steps[0]),
        call_ensures(WaitEvent::answer, (WaitEvent::Start, first), once),
        call_ensures(wait_for_fd, (current, sched, epfd, fd, once), steps[1]),
        call_ensures(WaitEvent::answer, (once, second), twice),
        call_ensures(wait_for_fd, (current, sched, epfd, fd, twice), steps[2]),
    ensures
        steps[0] is Ctl,
        steps[1] is Leave <==> first >= 0,
        steps[2] is Leave,
        forall|i: int|
            0 <= i < 3 && #[trigger] steps[i] is Ctl ==> steps[i]->fd == fd && steps[i]->data
                == current && steps[i]->epfd == epfd && steps[i]->events == 1,
        steps[1] is Leave ==> steps[1] == steps[2],
{
    law_a_wait_asks_for_its_descriptor(current, sched, epfd, fd, WaitEvent::Start, steps[0]);
    law_answers_are_kept(WaitEvent::Start, first, once);
    law_a_wait_asks_for_its_descriptor(current, sched, epfd, fd, once, steps[1]);
    law_answers_are_kept(once, second, twice);
    law_a_wait_asks_for_its_descriptor(current, sched, epfd, fd, twice, steps[2]);
}

/// The tasks of the events that a poll has filled in, all of them and no others, go to the back
/// of the queue in their order; a poll that failed has filled in none.
pub proof fn law_every_event_becomes_runnable(events: &[GPtr], n: i32, local: &mut LocalQueue)
    requires
        call_ensures(handle_event, (events, n, local), ()),
    ensures
        old(local).wf() ==> call_requires(handle_event, (events, n, local)),
        n <= 0 ==> final(local).pending() == old(local).pending(),
        n > 0 && n <= events@.len() ==> final(local).pending() == old(local).pending()
            + events@.subrange(0, n as int),
        n > 0 && n > events@.len() ==> final(local).pending() == old(local).pending() + events@,
        final(local).wf(),
        final(local).pops() == old(local).pops(),
        final(local).looks() == old(local).looks(),
{
    if n <= 0 {
        assert(final(local).pending() =~= old(local).pending());
    } else if n <= events@.len() {
        assert(events@.take(n as int) =~= events@.subrange(0, n as int));
    } else {
        assert(events@.take(events@.len() as int) =~= events@);
    }
}

}

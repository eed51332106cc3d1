//! How a running task gives up its thread.
use crate::queue::{GPtr, LocalQueue};
use crate::shared::{injector_order, pushed, SharedOp, SharedState};
use crate::task::RunroutineStruct;
use crate::timers::{fires, law_fires_exactly_when_due, timer_tasks, TimerTask, Timers};
use vstd::multiset::Multiset;
use vstd::prelude::*;

verus! {

/// What a task that wants to give up its thread is to do.
#[derive(Clone, Copy, Debug, PartialEq, Eq, Structural)]
pub enum Yield {
    /// Go on running.
    Stay,
    /// Save the stack pointer in `task` and load the one that stands at address `sched`.
    Switch { task: GPtr, sched: usize },
}

/// A task goes back to its scheduler if there is one.
pub open spec fn switch_from(task: GPtr, sched: usize) -> Yield {
    if sched == 0 {
        Yield::Stay
    } else {
        Yield::Switch { task, sched }
    }
}

/// Goes back to the scheduler whose stack pointer stands at address `sched`.
pub(crate) fn switch(task: GPtr, sched: usize) -> (action: Yield)
    ensures
        action == switch_from(task, sched),
{
    if sched == 0 {
        Yield::Stay
    } else {
        Yield::Switch { task, sched }
    }
}

/// The running task sleeps for `duration` from `now` on, both in nanoseconds. Outside a
/// task nothing happens.
pub fn sleep_yield(
    current: GPtr,
    sched: usize,
    timers: &mut Timers,
    now: u128,
    duration: u128,
) -> (action: Yield)
    requires
        old(timers).wf(),
        current != 0 ==> now + duration <= u128::MAX,
    ensures
        final(timers).wf(),
        current == 0 ==> final(timers)@ == old(timers)@ && action == Yield::Stay,
        current != 0 ==> final(timers)@ == old(timers)@.insert(
            (TimerTask { when: (now + duration) as u128, task: current }),
        ) && action == switch_from(current, sched),
{
    if current == 0 {
        return Yield::Stay;
    }
    timers.push(TimerTask { when: now + duration, task: current });
    switch(current, sched)
}

/// The running task lets others run: it goes to the back of the thread's own queue, or
/// to the shared queue where the thread has none. Outside a task nothing happens.
pub fn arbit_yield(
    current: GPtr,
    sched: usize,
    local: Option<&mut LocalQueue>,
    shared: &mut SharedState<'_>,
) -> (action: Yield)
    requires
        local matches Some(queue) ==> queue.wf(),
    ensures
        action == (if current == 0 {
            Yield::Stay
        } else {
            switch_from(current, sched)
        }),
        local matches Some(queue) ==> final(queue).wf() && final(queue).order() == queue.order()
            && final(queue).pops() == queue.pops() && final(queue).looks() == queue.looks()
            && final(queue).pending() == (if current == 0 {
            queue.pending()
        } else {
            queue.pending().push(current)
        }) && final(queue).put() == (if current == 0 {
            queue.put()
        } else {
            queue.put().push(current)
        }),
        final(shared).injector() == old(shared).injector(),
        final(shared).registry() == old(shared).registry(),
        if current == 0 || local is Some {
            final(shared).ops() == old(shared).ops()
        } else {
            pushed(
                injector_order(old(shared).injector()),
                old(shared).ops(),
                final(shared).ops(),
                current,
            )
        },
{
    if current == 0 {
        return Yield::Stay;
    }
    match local {
        Some(queue) => {
            queue.push(current);
        },
        None => {
            shared.push(current);
        },
    }
    switch(current, sched)
}

/// A task has come to its end: it is marked so, and its thread goes back to the
/// scheduler whose stack pointer stands at the address returned. Where there is no
/// task or no scheduler nothing happens.
pub fn ret_to_sched(sched: usize, task: Option<&mut RunroutineStruct>) -> (to: Option<usize>)
    ensures
        to == (if task is None || sched == 0 {
            None
        } else {
            Some(sched)
        }),
        task matches Some(t) ==> final(t).stack == t.stack && final(t).rsp == (if sched == 0 {
            t.rsp
        } else {
            0
        }),
{
    match task {
        Some(t) => {
            if sched == 0 {
                return None;
            }
            t.rsp = 0;
            Some(sched)
        },
        None => None,
    }
}

/// A task that sleeps from `start` for `duration` does not become runnable before its sleep is
/// over, and becomes runnable at the first look at the clock after that.
pub proof fn law_sleeps_its_time(
    current: GPtr,
    start: u128,
    duration: u128,
    others: Multiset<TimerTask>,
    after: Multiset<TimerTask>,
    fired: Seq<TimerTask>,
    now: u128,
)
    requires
        start + duration <= u128::MAX,
        fires(
            others.insert((TimerTask { when: (start + duration) as u128, task: current })),
            after,
            fired,
            now,
        ),
    ensures
        ({
            let timer = TimerTask { when: (start + duration) as u128, task: current };
            &&& now >= start + duration ==> fired.contains(timer) && timer_tasks(fired).contains(
                current,
            )
            &&& now < start + duration ==> !fired.contains(timer) && after.count(timer) > 0
        }),
{
    broadcast use vstd::seq_lib::group_to_multiset_ensures;

    let timer = TimerTask { when: (start + duration) as u128, task: current };
    let before = others.insert(timer);
    law_fires_exactly_when_due(before, after, fired, now, timer);
    assert(before.count(timer) > 0);
    if now >= start + duration {
        assert(fired.contains(timer));
        let i = choose|i: int| 0 <= i < fired.len() && fired[i] == timer;
        assert(timer_tasks(fired)[i] == current);
    }
}

/// A running task that sleeps gives up its thread to its scheduler, whatever their addresses are,
/// and stays only if there is no task or no scheduler. It gets one timer, at the end of its sleep;
/// all other timers stay, and outside a task all do.
pub proof fn law_a_sleep_gives_up_the_thread(
    current: GPtr,
    sched: usize,
    timers: &mut Timers,
    now: u128,
    duration: u128,
    action: Yield,
)
    requires
        call_ensures(sleep_yield, (current, sched, timers, now, duration), action),
        now + duration <= u128::MAX,
    ensures
        old(timers).wf() ==> call_requires(sleep_yield, (current, sched, timers, now, duration)),
        current != 0 && sched != 0 ==> action == (Yield::Switch { task: current, sched }),
        action == Yield::Stay <==> current == 0 || sched == 0,
        final(timers).wf(),
        forall|t: TimerTask| #[trigger]
            final(timers)@.count(t) == old(timers)@.count(t) + (if current != 0 && t.task == current
                && t.when == now + duration {
                1int
            } else {
                0int
            }),
{
    let timer = TimerTask { when: (now + duration) as u128, task: current };
    assert forall|t: TimerTask| #[trigger]
        final(timers)@.count(t) == old(timers)@.count(t) + (if current != 0 && t.task == current
            && t.when == now + duration {
            1int
        } else {
            0int
        }) by {
        if t.task == current && t.when == now + duration {
            assert(t == timer);
        }
    }
}

/// A running task that lets others run gives up its thread to its scheduler, whatever their
/// addresses are, and stays only if there is no task or no scheduler. It is put, once, at the back
/// of its thread's own queue, or into the shared queue if the thread has none; outside a task
/// nothing is put anywhere.
pub proof fn law_a_yield_gives_up_the_thread(
    current: GPtr,
    sched: usize,
    local: Option<&mut LocalQueue>,
    shared: &mut SharedState<'_>,
    action: Yield,
)
    requires
        call_ensures(arbit_yield, (current, sched, local, shared), action),
    ensures
        (local matches Some(queue) ==> queue.wf()) ==> call_requires(
            arbit_yield,
            (current, sched, local, shared),
        ),
        current != 0 && sched != 0 ==> action == (Yield::Switch { task: current, sched }),
        action == Yield::Stay <==> current == 0 || sched == 0,
        local matches Some(queue) ==> {
            &&& final(queue).pops() == queue.pops()
            &&& final(queue).looks() == queue.looks()
            &&& current == 0 ==> final(queue).pending() == queue.pending()
            &&& current != 0 ==> final(queue).pending() == queue.pending().push(current)
        },
        current == 0 || local is Some ==> final(shared).ops() == old(shared).ops(),
        current != 0 && local is None ==> {
            &&& final(shared).ops().len() == old(shared).ops().len() + 1
            &&& final(shared).ops().drop_last() == old(shared).ops()
            &&& final(shared).ops().last() matches SharedOp::Push { task, .. } && task == current
        },
{
    if current != 0 && local is None {
        assert(final(shared).ops().drop_last() =~= old(shared).ops());
    }
}

/// A task that has come to its end goes back to its scheduler, wherever that is, and is marked by
/// a stack pointer of zero. Where there is no task or no scheduler nothing is marked.
pub proof fn law_an_ended_task_is_marked(
    sched: usize,
    task: Option<&mut RunroutineStruct>,
    to: Option<usize>,
)
    requires
        call_ensures(ret_to_sched, (sched, task), to),
    ensures
        call_requires(ret_to_sched, (sched, task)),
        to is Some <==> task is Some && sched != 0,
        to matches Some(address) ==> address == sched,
        task matches Some(t) ==> {
            &&& final(t).stack == t.stack
            &&& sched != 0 ==> final(t).rsp == 0
            &&& sched == 0 ==> final(t).rsp == t.rsp
        },
{
}

}

//! The loop of a worker thread, as a state machine: what the thread does between two
//! steps, such as switching stacks, polling or sleeping, is an action, and what came of
//! it is an event.
use crate::io::{event_count, handle_event, DEFAULT_TIMEOUT, EVENTS_COUNT_MAX};
use crate::queue::{
    forward, other_stealers, stealer_order, thefts_of, Batch, GPtr, LocalQueue, Peers, SharedP,
};
use crate::registry::{
    is_idle, law_marks_one_bit, mask_after, replay, set_thread_busy, set_thread_idle,
    WORKERS_COUNT_MAX,
};
use crate::search::{
    front_runs_unless_stolen, known, law_front_runs_unless_stolen, law_no_task_from_nowhere,
    law_own_queue_is_asked_first, law_searches_go_forward, law_shared_queue_is_asked_first,
    lemma_search_only_draws, next_task, places, search_order, searched, Places,
};
use crate::shared::{draws_of, injector_order, MaskOrder, SharedOp, SharedState};
use crate::timers::{
    fires, get_ready_timers, is_sleep_time, law_sleeps_no_longer_than_it_may, lemma_fired_counts,
    lemma_sleep_time, timer_tasks, wait_millis, TimerTask, Timers,
};
use vstd::multiset::Multiset;
use vstd::prelude::*;

verus! {

/// How many times a worker looks for a task between two polls.
pub const RR_TICK_COUNT: i32 = 61;

/// What a worker waits for.
#[derive(Clone, Copy, Debug, PartialEq, Eq, Structural)]
pub enum Phase {
    /// Nothing: it is about to look for a task.
    Start,
    /// The outcome of a poll.
    Polling,
    /// The task that it runs.
    Running,
    /// The time.
    Timing,
    /// Being woken up.
    Parked,
}

/// What has happened.
pub enum Event {
    /// The last action is done; nothing came of it.
    Go,
    /// A poll returned `n` and these events, at this time.
    Polled { events: Vec<GPtr>, n: i32, now: u128 },
    /// The task that was run gave up the thread and left this stack pointer.
    Returned { rsp: usize },
    /// It is this time.
    Clock { now: u128 },
    /// The thread was woken up, or has slept long enough.
    Woken,
}

/// What the thread is to do.
#[derive(Clone, Copy, Debug, PartialEq, Eq, Structural)]
pub enum Action {
    /// Nothing.
    Again,
    /// Poll for events, then read the clock.
    Poll { epfd: i32, events: usize, timeout: i32 },
    /// Switch to the task's stack.
    Run(GPtr),
    /// Free the task, which has ended.
    Free(GPtr),
    /// Read the clock.
    ReadClock,
    /// Sleep until woken up, but no longer than this many milliseconds.
    ParkTimeout(u64),
    /// Sleep until woken up.
    Park,
}

/// The state of one worker thread.
pub struct Scheduler<'a> {
    /// The worker's number.
    pub id: usize,
    /// The task that runs on the thread, or zero.
    pub current: GPtr,
    /// Where a task that gives up the thread finds the stack pointer to go on at, or zero.
    pub sched: usize,
    /// Where the worker keeps its own stack pointer while a task runs.
    pub slot: usize,
    /// How many times the worker looks for a task before it polls.
    pub quota: i32,
    /// The descriptor that the worker polls.
    pub ep_fd: i32,
    /// The descriptor by which its tasks wait, or minus one.
    pub epoll_fd: i32,
    pub timers: Timers,
    pub local: LocalQueue,
    pub shared: SharedState<'a>,
    pub peers: Peers,
    pub phase: Phase,
}

/// Whether `event` is one that a worker in this phase waits for.
pub open spec fn awaits(phase: Phase, event: Event) -> bool {
    match phase {
        Phase::Start => event is Go,
        Phase::Polling => event is Polled,
        Phase::Running => event is Returned,
        Phase::Timing => event is Clock,
        Phase::Parked => event is Woken,
    }
}

/// What no step changes.
pub open spec fn keeps(before: Scheduler<'_>, after: Scheduler<'_>) -> bool {
    &&& after.id == before.id
    &&& after.slot == before.slot
    &&& after.ep_fd == before.ep_fd
    &&& after.epoll_fd == before.epoll_fd
    &&& after.local.order() == before.local.order()
    &&& after.shared.injector() == before.shared.injector()
    &&& after.shared.registry() == before.shared.registry()
    &&& after.peers.stealers() == before.peers.stealers()
}

/// What a worker's queues show.
pub open spec fn places_of(scheduler: Scheduler<'_>) -> Places {
    places(scheduler.local, scheduler.shared, scheduler.peers)
}

/// The worker's queues are as they were.
pub open spec fn same_places(before: Scheduler<'_>, after: Scheduler<'_>) -> bool {
    &&& after.local.looks() == before.local.looks()
    &&& places_of(after) == places_of(before)
}

/// `op` marks worker `id` as idle.
pub open spec fn marks_idle(op: SharedOp, id: usize) -> bool {
    op matches SharedOp::Or { bits, .. } && bits == 1u64 << id
}

/// `op` marks worker `id` as busy.
pub open spec fn marks_busy(op: SharedOp, id: usize) -> bool {
    op matches SharedOp::And { bits, order, .. } && bits == !(1u64 << id) && order
        == MaskOrder::Release
}

/// `after` is `before` with one more access, which marks worker `id` as busy.
pub open spec fn then_busy(before: Seq<SharedOp>, after: Seq<SharedOp>, id: usize) -> bool {
    &&& after.len() == before.len() + 1
    &&& after.drop_last() == before
    &&& marks_busy(after.last(), id)
}

/// The task that an action runs.
pub open spec fn task_of(action: Action) -> Option<GPtr> {
    match action {
        Action::Run(task) => Some(task),
        _ => None,
    }
}

/// The worker looked for a task, starting from `start`, and does what the search calls for:
/// it marks itself as busy and runs the task that was found, or it marks itself as idle and asks
/// for the time.
pub open spec fn dispatches(
    before: Scheduler<'_>,
    after: Scheduler<'_>,
    start: Places,
    polled: bool,
    action: Action,
) -> bool {
    let found = task_of(action);
    let ops = after.shared.ops();
    &&& after.local.looks() == before.local.looks()
    &&& ops.len() > 0
    &&& searched(
        search_order(polled, before.peers.stealers().len()),
        start,
        Places { ops: ops.drop_last(), ..places_of(after) },
        found,
        injector_order(before.shared.injector()),
        before.peers.stealers(),
    )
    &&& match found {
        Some(task) => {
            &&& marks_busy(ops.last(), before.id)
            &&& after.phase == Phase::Running
            &&& after.current == task
            &&& after.sched == before.slot
        },
        None => {
            &&& marks_idle(ops.last(), before.id)
            &&& action == Action::ReadClock
            &&& after.phase == Phase::Timing
            &&& after.current == before.current
            &&& after.sched == before.sched
        },
    }
}

/// The worker begins a round: it looks for a task, or polls first when its quota is used up.
pub open spec fn begins(before: Scheduler<'_>, after: Scheduler<'_>, action: Action) -> bool {
    &&& after.timers@ == before.timers@
    &&& if before.quota > 0 {
        &&& after.quota == before.quota - 1
        &&& dispatches(before, after, places_of(before), false, action)
    } else {
        &&& after.quota == before.quota
        &&& after.current == before.current
        &&& after.sched == before.sched
        &&& same_places(before, after)
        &&& after.phase == Phase::Polling
        &&& action == Action::Poll {
            epfd: before.ep_fd,
            events: EVENTS_COUNT_MAX,
            timeout: DEFAULT_TIMEOUT,
        }
    }
}

/// What a worker's queues show once it has polled: the tasks of the events and then the tasks
/// whose deadline has come are at the back of its own queue.
pub open spec fn places_polled(
    before: Scheduler<'_>,
    events: Seq<GPtr>,
    n: i32,
    fired: Seq<TimerTask>,
) -> Places {
    Places {
        pending: before.local.pending() + events.take(event_count(n, events.len())) + timer_tasks(
            fired,
        ),
        put: before.local.put() + events.take(event_count(n, events.len())) + timer_tasks(fired),
        ..places_of(before)
    }
}

/// The worker has polled: the tasks of the events and then the tasks whose deadline has come
/// go to the back of its queue, its quota is full again, and it looks for a task.
pub open spec fn polls(
    before: Scheduler<'_>,
    after: Scheduler<'_>,
    events: Seq<GPtr>,
    n: i32,
    now: u128,
    fired: Seq<TimerTask>,
    action: Action,
) -> bool {
    &&& after.quota == RR_TICK_COUNT
    &&& fires(before.timers@, after.timers@, fired, now)
    &&& dispatches(before, after, places_polled(before, events, n, fired), true, action)
}

/// The task that ran is off the thread. It is freed if it has ended.
pub open spec fn comes_back(
    before: Scheduler<'_>,
    after: Scheduler<'_>,
    rsp: usize,
    action: Action,
) -> bool {
    &&& after.current == 0
    &&& after.sched == before.sched
    &&& after.quota == before.quota
    &&& after.timers@ == before.timers@
    &&& same_places(before, after)
    &&& after.phase == Phase::Start
    &&& action == (if rsp == 0 {
        Action::Free(before.current)
    } else {
        Action::Again
    })
}

/// An idle worker knows the time: the tasks whose deadline has come go to the back of its
/// queue, and it sleeps until the next deadline. Without one it sleeps until it is woken up,
/// unless its queue is seen to hold a task: then it marks itself as busy and goes on.
pub open spec fn idles(
    before: Scheduler<'_>,
    after: Scheduler<'_>,
    now: u128,
    fired: Seq<TimerTask>,
    millis: u64,
    action: Action,
) -> bool {
    &&& after.current == before.current
    &&& after.sched == before.sched
    &&& after.quota == before.quota
    &&& fires(before.timers@, after.timers@, fired, now)
    &&& is_sleep_time(after.timers@, now, millis)
    &&& after.local.pending() == before.local.pending() + timer_tasks(fired)
    &&& after.local.put() == before.local.put() + timer_tasks(fired)
    &&& after.local.pops() == before.local.pops()
    &&& after.peers.probes() == before.peers.probes()
    &&& if millis > 0 {
        &&& after.local.looks() == before.local.looks()
        &&& after.shared.ops() == before.shared.ops()
        &&& action == Action::ParkTimeout(millis)
        &&& after.phase == Phase::Parked
    } else {
        ||| {
            &&& after.local.looks() == before.local.looks().push(true)
            &&& after.shared.ops() == before.shared.ops()
            &&& action == Action::Park
            &&& after.phase == Phase::Parked
        }
        ||| {
            &&& after.local.looks() == before.local.looks().push(false)
            &&& after.local.pending().len() > 0
            &&& then_busy(before.shared.ops(), after.shared.ops(), before.id)
            &&& action == Action::Again
            &&& after.phase == Phase::Start
        }
    }
}

/// The worker is awake again, and marks itself as busy.
pub open spec fn wakes(before: Scheduler<'_>, after: Scheduler<'_>, action: Action) -> bool {
    &&& after.current == before.current
    &&& after.sched == before.sched
    &&& after.quota == before.quota
    &&& after.timers@ == before.timers@
    &&& after.local.looks() == before.local.looks()
    &&& after.local.pending() == before.local.pending()
    &&& after.local.put() == before.local.put()
    &&& after.local.pops() == before.local.pops()
    &&& after.peers.probes() == before.peers.probes()
    &&& then_busy(before.shared.ops(), after.shared.ops(), before.id)
    &&& after.phase == Phase::Start
    &&& action == Action::Again
}

/// The phase in which a worker waits for what comes of an action.
pub open spec fn phase_after(action: Action) -> Phase {
    match action {
        Action::Again | Action::Free(_) => Phase::Start,
        Action::Poll { .. } => Phase::Polling,
        Action::Run(_) => Phase::Running,
        Action::ReadClock => Phase::Timing,
        Action::ParkTimeout(_) | Action::Park => Phase::Parked,
    }
}

/// Whether a worker in this phase has nothing to run.
pub open spec fn is_idle_phase(phase: Phase) -> bool {
    phase == Phase::Timing || phase == Phase::Parked
}

/// What one step of the worker's loop does.
pub open spec fn steps(
    before: Scheduler<'_>,
    event: Event,
    after: Scheduler<'_>,
    action: Action,
) -> bool {
    &&& keeps(before, after)
    &&& match event {
        Event::Go => begins(before, after, action),
        Event::Polled { events, n, now } => exists|fired: Seq<TimerTask>| #[trigger]
            polls(before, after, events@, n, now, fired, action),
        Event::Returned { rsp } => comes_back(before, after, rsp, action),
        Event::Clock { now } => exists|fired: Seq<TimerTask>, millis: u64| #[trigger]
            idles(before, after, now, fired, millis, action),
        Event::Woken => wakes(before, after, action),
    }
}

impl<'a> Scheduler<'a> {
    /// The queues are in order, the quota is between none and a full one, and the mask has room
    /// for the worker. A task is current only while one runs, and while one runs it can find its
    /// way back.
    pub open spec fn wf(&self) -> bool {
        &&& self.local.wf()
        &&& self.peers.wf()
        &&& self.timers.wf()
        &&& 0 <= self.quota <= RR_TICK_COUNT
        &&& self.id < WORKERS_COUNT_MAX
        &&& self.phase != Phase::Running ==> self.current == 0
        &&& self.phase == Phase::Running ==> self.sched == self.slot
    }

    /// The state in which worker `id` starts. `ep_fd` is what the attempt to open a
    /// descriptor for polling returned, `slot` is where the worker will keep its stack pointer,
    /// and `table` holds the handles of all workers.
    pub fn new(
        id: usize,
        slot: usize,
        ep_fd: i32,
        local: LocalQueue,
        shared: SharedState<'a>,
        table: &Vec<SharedP>,
    ) -> (scheduler: Self)
        requires
            id < WORKERS_COUNT_MAX,
            local.wf(),
            forall|i: int| 0 <= i < table.len() ==> (#[trigger] table[i]).wf(),
        ensures
            scheduler.wf(),
            scheduler.id == id,
            scheduler.current == 0,
            scheduler.sched == 0,
            scheduler.slot == slot,
            scheduler.quota == RR_TICK_COUNT,
            scheduler.ep_fd == ep_fd,
            scheduler.epoll_fd == (if ep_fd < 0 {
                -1
            } else {
                ep_fd as int
            }),
            scheduler.timers@ == Multiset::<TimerTask>::empty(),
            scheduler.local == local,
            scheduler.shared == shared,
            scheduler.peers.stealers() == other_stealers(table@, id),
            scheduler.peers.probes() == Seq::<(int, Option<Batch>)>::empty(),
            scheduler.phase == Phase::Start,
    {
        let epoll_fd: i32 = if ep_fd < 0 {
            -1
        } else {
            ep_fd
        };
        Scheduler {
            id,
            current: 0,
            sched: 0,
            slot,
            quota: RR_TICK_COUNT,
            ep_fd,
            epoll_fd,
            timers: Timers::new(),
            local,
            shared,
            peers: Peers::new(id, table),
            phase: Phase::Start,
        }
    }

    /// Uses up one unit of the quota and returns what the quota was.
    fn take_tick(&mut self) -> (tick: i32)
        requires
            old(self).wf(),
        ensures
            tick == old(self).quota,
            *final(self) == (Scheduler {
                quota: (if old(self).quota > 0 {
                    (old(self).quota - 1) as i32
                } else {
                    old(self).quota
                }),
                ..*old(self)
            }),
    {
        let tick: i32 = self.quota;
        if tick > 0 {
            self.quota = tick - 1;
        }
        tick
    }

    /// Looks for a task and does what the search calls for.
    fn dispatch(&mut self, polled: bool) -> (action: Action)
        requires
            old(self).wf(),
            old(self).phase != Phase::Running,
        ensures
            final(self).wf(),
            keeps(*old(self), *final(self)),
            final(self).quota == old(self).quota,
            final(self).timers == old(self).timers,
            dispatches(*old(self), *final(self), places_of(*old(self)), polled, action),
    {
        let found: Option<GPtr> = next_task(
            polled,
            &mut self.local,
            &mut self.shared,
            &mut self.peers,
        );
        let ghost searched_ops = self.shared.ops();
        let action: Action = match found {
            Some(task) => {
                let _ = set_thread_busy(&mut self.shared, self.id);
                self.current = task;
                self.sched = self.slot;
                self.phase = Phase::Running;
                Action::Run(task)
            },
            None => {
                let _ = set_thread_idle(&mut self.shared, self.id);
                self.phase = Phase::Timing;
                Action::ReadClock
            },
        };
        assert(self.shared.ops().drop_last() =~= searched_ops);
        action
    }

    /// Goes back to looking for a task.
    fn go_on(&mut self) -> (action: Action)
        requires
            old(self).wf(),
            old(self).phase != Phase::Running,
        ensures
            final(self).wf(),
            keeps(*old(self), *final(self)),
            wakes(*old(self), *final(self), action),
            final(self).timers == old(self).timers,
    {
        let _ = set_thread_busy(&mut self.shared, self.id);
        assert(self.shared.ops().drop_last() =~= old(self).shared.ops());
        self.phase = Phase::Start;
        Action::Again
    }

    /// One step of the worker's loop.
    pub fn schedule(&mut self, event: Event) -> (action: Action)
        requires
            old(self).wf(),
            awaits(old(self).phase, event),
        ensures
            final(self).wf(),
            steps(*old(self), event, *final(self), action),
    {
        match event {
            Event::Go => {
                let tick: i32 = self.take_tick();
                if 0 == tick {
                    self.phase = Phase::Polling;
                    Action::Poll {
                        epfd: self.ep_fd,
                        events: EVENTS_COUNT_MAX,
                        timeout: DEFAULT_TIMEOUT,
                    }
                } else {
                    self.dispatch(false)
                }
            },
            Event::Polled { events, n, now } => {
                handle_event(events.as_slice(), n, &mut self.local);
                let _ = get_ready_timers(&mut self.timers, now, &mut self.local);
                self.quota = RR_TICK_COUNT;
                let ghost fired = choose|fired: Seq<TimerTask>| #[trigger]
                    fires(old(self).timers@, self.timers@, fired, now) && self.local.pending()
                        == old(self).local.pending() + events@.take(event_count(n, events@.len()))
                        + timer_tasks(fired) && self.local.put() == old(self).local.put()
                        + events@.take(event_count(n, events@.len())) + timer_tasks(fired);
                assert(places_of(*self) == places_polled(*old(self), events@, n, fired));
                let action: Action = self.dispatch(true);
                assert(polls(*old(self), *self, events@, n, now, fired, action));
                action
            },
            Event::Returned { rsp } => {
                let task: GPtr = self.current;
                self.current = 0;
                self.phase = Phase::Start;
                if 0 == rsp {
                    Action::Free(task)
                } else {
                    Action::Again
                }
            },
            Event::Clock { now } => {
                let millis: u64 = get_ready_timers(&mut self.timers, now, &mut self.local);
                let ghost fired = choose|fired: Seq<TimerTask>| #[trigger]
                    fires(old(self).timers@, self.timers@, fired, now) && self.local.pending()
                        == old(self).local.pending() + timer_tasks(fired) && self.local.put()
                        == old(self).local.put() + timer_tasks(fired);
                let action: Action = if millis > 0 {
                    self.phase = Phase::Parked;
                    Action::ParkTimeout(millis)
                } else if self.local.is_empty() {
                    self.phase = Phase::Parked;
                    Action::Park
                } else {
                    self.go_on()
                };
                assert(idles(*old(self), *self, now, fired, millis, action));
                action
            },
            Event::Woken => self.go_on(),
        }
    }
}

/// One step of a worker's loop.
pub struct Turn<'a> {
    pub before: Scheduler<'a>,
    pub event: Event,
    pub after: Scheduler<'a>,
    pub action: Action,
}

impl<'a> Turn<'a> {
    /// The step is one that the worker takes.
    pub open spec fn wf(&self) -> bool {
        &&& self.before.wf()
        &&& awaits(self.before.phase, self.event)
        &&& steps(self.before, self.event, self.after, self.action)
    }

    /// The accesses of the step to what all threads share.
    pub open spec fn ops(&self) -> Seq<SharedOp> {
        self.after.shared.ops().skip(self.before.shared.ops().len() as int)
    }
}

/// Steps that follow each other. In between, the tasks that run on the thread may use its
/// queues and timers; the rest they leave alone.
pub open spec fn is_run(turns: Seq<Turn<'_>>) -> bool {
    &&& forall|i: int| 0 <= i < turns.len() ==> (#[trigger] turns[i]).wf()
    &&& forall|i: int, j: int|
        0 <= i < turns.len() && j == i + 1 && j < turns.len() ==> follows(
            #[trigger] turns[i],
            #[trigger] turns[j],
        )
}

/// The second step starts where the first one ended, but for queues and timers.
pub open spec fn follows(first: Turn<'_>, second: Turn<'_>) -> bool {
    &&& second.before.id == first.after.id
    &&& second.before.current == first.after.current
    &&& second.before.sched == first.after.sched
    &&& second.before.slot == first.after.slot
    &&& second.before.quota == first.after.quota
    &&& second.before.phase == first.after.phase
}

/// How often the worker began a round.
pub open spec fn rounds(turns: Seq<Turn<'_>>) -> nat
    decreases turns.len(),
{
    if turns.len() == 0 {
        0
    } else if turns.last().event is Go {
        rounds(turns.drop_last()) + 1
    } else {
        rounds(turns.drop_last())
    }
}

/// After each step the worker waits for what comes of the action that it asked for.
pub proof fn law_waits_for_its_action(turn: Turn<'_>)
    requires
        turn.wf(),
    ensures
        turn.after.phase == phase_after(turn.action),
{
}

/// The current task is the one that runs: it is set when the worker asks for a task to be run,
/// together with the way back, it is the one that is freed when it has ended, and there is none
/// whenever no task runs.
pub proof fn law_current_is_the_running_task(turn: Turn<'_>)
    requires
        turn.wf(),
    ensures
        turn.action matches Action::Run(task) ==> turn.after.current == task && turn.after.sched
            == turn.after.slot,
        turn.action matches Action::Free(task) ==> turn.before.current == task,
        !(turn.action is Run) ==> turn.after.current == 0,
        turn.after.sched == turn.before.sched || turn.after.sched == turn.after.slot,
{
}

/// In a run, a worker frees a task only if it is the one that it has just run.
pub proof fn law_frees_only_the_task_that_ran(turns: Seq<Turn<'_>>, k: int, task: GPtr)
    requires
        is_run(turns),
        0 < k < turns.len(),
        turns[k].action == Action::Free(task),
    ensures
        turns[k - 1].action == Action::Run(task),
{
    assert(turns[k].wf());
    assert(turns[k - 1].wf());
    assert(follows(turns[k - 1], turns[k]));
}

/// What a step does to the mask, read off the last of its accesses: all others are draws from the
/// shared queue.
proof fn lemma_ops_of(turn: Turn<'_>, mask: u64)
    requires
        turn.wf(),
    ensures
        turn.before.shared.ops().len() <= turn.after.shared.ops().len(),
        turn.before.shared.ops() == turn.after.shared.ops().take(
            turn.before.shared.ops().len() as int,
        ),
        turn.ops().len() > 0 ==> replay(mask, turn.ops()) == mask_after(mask, turn.ops().last()),
        turn.ops().len() == 0 ==> replay(mask, turn.ops()) == mask,
        turn.ops().len() > 0 ==> turn.ops().last() == turn.after.shared.ops().last(),
        turn.ops().len() == 0 <==> turn.action is Poll || turn.event is Returned || turn.action
            is Park || turn.action is ParkTimeout,
{
    let before = turn.before;
    let was = before.shared.ops();
    let now = turn.after.shared.ops();
    let searched_to = Places { ops: now.drop_last(), ..places_of(turn.after) };
    let offered = injector_order(before.shared.injector());
    let stealers = before.peers.stealers();
    match turn.event {
        Event::Go => {
            if before.quota > 0 {
                lemma_search_only_draws(
                    search_order(false, stealers.len()),
                    places_of(before),
                    searched_to,
                    task_of(turn.action),
                    offered,
                    stealers,
                );
            }
        },
        Event::Polled { events, n, now: time } => {
            let fired = choose|fired: Seq<TimerTask>| #[trigger]
                polls(before, turn.after, events@, n, time, fired, turn.action);
            lemma_search_only_draws(
                search_order(true, stealers.len()),
                places_polled(before, events@, n, fired),
                searched_to,
                task_of(turn.action),
                offered,
                stealers,
            );
        },
        _ => {},
    }
    assert(was =~= now.take(was.len() as int)) by {
        if now.len() > was.len() {
            assert(now.drop_last().take(was.len() as int) =~= now.take(was.len() as int));
        }
    }
    let ops = turn.ops();
    if ops.len() > 0 {
        assert forall|i: int| 0 <= i < ops.len() - 1 implies #[trigger] ops[i] is Draw by {
            assert(now.drop_last()[was.len() + i] == ops[i]);
        }
        lemma_replay_draws(mask, ops.drop_last());
    }
}

/// Draws leave the mask alone.
proof fn lemma_replay_draws(mask: u64, ops: Seq<SharedOp>)
    requires
        forall|i: int| 0 <= i < ops.len() ==> #[trigger] ops[i] is Draw,
    ensures
        replay(mask, ops) == mask,
    decreases ops.len(),
{
    if ops.len() > 0 {
        assert(ops.last() == ops[ops.len() - 1]);
        lemma_replay_draws(mask, ops.drop_last());
    }
}

/// A worker's bit in the mask follows its phase. A step sets it when the worker runs out of
/// tasks, and clears it when the worker has a task to run, wakes up or goes on without sleeping;
/// while the worker has nothing to run the bit stays as it is, so that it remains clear once
/// another thread has claimed the worker. The bits of the other workers stay as they are.
pub proof fn law_own_bit_follows_the_phase(turn: Turn<'_>, mask: u64, other: usize)
    requires
        turn.wf(),
        is_idle(mask, turn.before.id) ==> is_idle_phase(turn.before.phase),
    ensures
        is_idle(replay(mask, turn.ops()), turn.before.id) <==> is_idle_phase(turn.after.phase) && (
        is_idle_phase(turn.before.phase) ==> is_idle(mask, turn.before.id)),
        other != turn.before.id ==> is_idle(replay(mask, turn.ops()), other) == is_idle(
            mask,
            other,
        ),
{
    lemma_ops_of(turn, mask);
    let id = turn.before.id;
    if turn.ops().len() > 0 {
        let op = turn.ops().last();
        let found = match op {
            SharedOp::Or { found, .. } => found,
            SharedOp::And { found, .. } => found,
            _ => 0,
        };
        law_marks_one_bit(mask, id, id, found, MaskOrder::Release);
        law_marks_one_bit(mask, id, other, found, MaskOrder::Release);
    }
}

/// In a run of a worker that starts out busy, `masks` holding the shared mask at the start of
/// each step, and whatever other threads do to the mask as long as none of them sets the worker's
/// bit: the bit is set when the worker has run out of tasks, nothing but a claim by another
/// thread clears it before the worker sleeps, and it is clear whenever a task runs and whenever
/// the worker looks for one or polls.
pub proof fn law_marked_while_idle(turns: Seq<Turn<'_>>, masks: Seq<u64>, id: usize, k: int)
    requires
        is_run(turns),
        masks.len() == turns.len(),
        0 <= k < turns.len(),
        turns[0].before.id == id,
        turns[0].before.phase == Phase::Start,
        !is_idle(masks[0], id),
        forall|i: int, j: int|
            0 <= i < turns.len() && j == i + 1 && j < turns.len() && is_idle(
                #[trigger] masks[j],
                id,
            ) ==> is_idle(replay(masks[i], (#[trigger] turns[i]).ops()), id),
    ensures
        turns[k].after.id == id,
        !is_idle_phase(turns[k].after.phase) ==> !is_idle(replay(masks[k], turns[k].ops()), id),
        turns[k].after.phase == Phase::Timing ==> is_idle(replay(masks[k], turns[k].ops()), id),
        turns[k].after.phase == Phase::Parked ==> is_idle(replay(masks[k], turns[k].ops()), id)
            == is_idle(masks[k], id),
    decreases k,
{
    let turn = turns[k];
    assert(turn.wf());
    if k > 0 {
        law_marked_while_idle(turns, masks, id, k - 1);
        assert(follows(turns[k - 1], turn));
        assert(is_idle(masks[k], id) ==> is_idle(replay(masks[k - 1], turns[k - 1].ops()), id));
    }
    law_own_bit_follows_the_phase(turn, masks[k], id);
}

/// No step drops a task of the worker's own queue. A task leaves the queue only by being run or
/// stolen: of a search's attempts at the queue only the last can have taken a task, and that is
/// the one that the worker runs. Unless tasks were stolen, it is the front of the queue. What a
/// step puts into the queue itself goes to the back.
pub proof fn law_own_tasks_are_run_or_stolen(turn: Turn<'_>)
    requires
        turn.wf(),
    ensures
        match turn.event {
            Event::Go => exists|gone: int|
                front_runs_unless_stolen(
                    places_of(turn.before),
                    places_of(turn.after),
                    task_of(turn.action),
                    gone,
                ),
            Event::Polled { events, n, now } => exists|fired: Seq<TimerTask>, gone: int|
                #[trigger] fires(turn.before.timers@, turn.after.timers@, fired, now)
                    && #[trigger] front_runs_unless_stolen(
                    places_polled(turn.before, events@, n, fired),
                    places_of(turn.after),
                    task_of(turn.action),
                    gone,
                ),
            _ => turn.after.local.pops() == turn.before.local.pops()
                && turn.before.local.pending().len() <= turn.after.local.pending().len()
                && turn.before.local.pending() == turn.after.local.pending().take(
                turn.before.local.pending().len() as int,
            ),
        },
{
    let before = turn.before;
    let offered = injector_order(before.shared.injector());
    let stealers = before.peers.stealers();
    let found = task_of(turn.action);
    let searched_to = Places {
        ops: turn.after.shared.ops().drop_last(),
        ..places_of(turn.after)
    };
    let ops = turn.after.shared.ops();
    if task_of(turn.action) is Some || turn.action is ReadClock {
        assert(draws_of(ops) == draws_of(ops.drop_last()));
    }
    match turn.event {
        Event::Go => {
            if before.quota > 0 {
                law_front_runs_unless_stolen(
                    false,
                    places_of(before),
                    searched_to,
                    found,
                    offered,
                    stealers,
                );
                let gone = choose|gone: int|
                    front_runs_unless_stolen(places_of(before), searched_to, found, gone);
                assert(front_runs_unless_stolen(
                    places_of(before),
                    places_of(turn.after),
                    found,
                    gone,
                ));
            } else {
                let pending = before.local.pending();
                assert(pending.skip(0) =~= pending);
                assert(pending.take(pending.len() as int) =~= pending);
                let pops = before.local.pops();
                assert(pops.take(pops.len() as int) =~= pops);
                assert(front_runs_unless_stolen(
                    places_of(before),
                    places_of(turn.after),
                    found,
                    0,
                ));
            }
        },
        Event::Polled { events, n, now } => {
            let fired = choose|fired: Seq<TimerTask>| #[trigger]
                polls(before, turn.after, events@, n, now, fired, turn.action);
            let start = places_polled(before, events@, n, fired);
            law_front_runs_unless_stolen(
                true,
                start,
                searched_to,
                found,
                offered,
                stealers,
            );
            let gone = choose|gone: int|
                front_runs_unless_stolen(start, searched_to, found, gone);
            assert(front_runs_unless_stolen(start, places_of(turn.after), found, gone));
        },
        _ => {
            assert(before.local.pending() =~= turn.after.local.pending().take(
                before.local.pending().len() as int,
            ));
        },
    }
}

/// A worker takes what stands further in front first: as long as what it drew from the shared
/// queue and what it stole from another worker was taken in the order in which it was put in,
/// so it is after one more step.
pub proof fn law_takes_in_order(turn: Turn<'_>, index: int)
    requires
        turn.wf(),
        forward(injector_order(turn.before.shared.injector()), draws_of(turn.before.shared.ops())),
        forward(
            stealer_order(turn.before.peers.stealers()[index]),
            thefts_of(turn.before.peers.probes(), index),
        ),
    ensures
        forward(injector_order(turn.after.shared.injector()), draws_of(turn.after.shared.ops())),
        forward(
            stealer_order(turn.after.peers.stealers()[index]),
            thefts_of(turn.after.peers.probes(), index),
        ),
{
    let before = turn.before;
    let offered = injector_order(before.shared.injector());
    let stealers = before.peers.stealers();
    let ops = turn.after.shared.ops();
    let searched_to = Places { ops: ops.drop_last(), ..places_of(turn.after) };
    match turn.event {
        Event::Go => {
            if before.quota > 0 {
                law_searches_go_forward(
                    search_order(false, stealers.len()),
                    places_of(before),
                    searched_to,
                    task_of(turn.action),
                    offered,
                    stealers,
                    index,
                );
            }
        },
        Event::Polled { events, n, now } => {
            let fired = choose|fired: Seq<TimerTask>| #[trigger]
                polls(before, turn.after, events@, n, now, fired, turn.action);
            law_searches_go_forward(
                search_order(true, stealers.len()),
                places_polled(before, events@, n, fired),
                searched_to,
                task_of(turn.action),
                offered,
                stealers,
                index,
            );
        },
        _ => {},
    }
}

/// A worker that sleeps until it is woken up has no sleeping task, and one that sleeps for a
/// time oversleeps no deadline by a millisecond or more, as long as no deadline is more
/// milliseconds away than 64 bits hold.
pub proof fn law_parks_for_its_timers(turn: Turn<'_>, now: u128)
    requires
        turn.wf(),
        turn.event == (Event::Clock { now }),
        forall|t: TimerTask| #[trigger]
            turn.after.timers@.count(t) > 0 ==> wait_millis(t.when, now) < 0x1_0000_0000_0000_0000,
    ensures
        turn.action is Park ==> turn.after.timers@ == Multiset::<TimerTask>::empty(),
        turn.action matches Action::ParkTimeout(millis) ==> forall|t: TimerTask| #[trigger]
            turn.after.timers@.count(t) > 0 ==> now + millis * 1_000_000 < t.when + 1_000_000,
{
    let (fired, millis) = choose|fired: Seq<TimerTask>, millis: u64| #[trigger]
        idles(turn.before, turn.after, now, fired, millis, turn.action);
    law_sleeps_no_longer_than_it_may(turn.after.timers@, now, millis);
}

/// A task that a worker runs was in its queue, or belongs to an event or a deadline that the
/// worker has just learned of, or comes from the shared queue or another worker.
pub proof fn law_runs_no_unknown_task(turn: Turn<'_>, task: GPtr)
    requires
        turn.wf(),
        turn.action == Action::Run(task),
    ensures
        ({
            ||| known(
                task,
                turn.before.local.pending(),
                injector_order(turn.before.shared.injector()),
                turn.before.peers.stealers(),
            )
            ||| turn.event matches Event::Polled { events, n, now } && (events@.take(
                event_count(n, events@.len()),
            ).contains(task) || exists|t: TimerTask| #[trigger]
                turn.before.timers@.count(t) > 0 && t.task == task && t.when <= now)
        }),
{
    let before = turn.before;
    let offered = injector_order(before.shared.injector());
    let stealers = before.peers.stealers();
    let after = Places { ops: turn.after.shared.ops().drop_last(), ..places_of(turn.after) };
    match turn.event {
        Event::Go => {
            law_no_task_from_nowhere(
                search_order(false, stealers.len()),
                places_of(before),
                after,
                Some(task),
                offered,
                stealers,
            );
        },
        Event::Polled { events, n, now } => {
            let fired = choose|fired: Seq<TimerTask>| #[trigger]
                polls(before, turn.after, events@, n, now, fired, turn.action);
            let seen = events@.take(event_count(n, events@.len()));
            let start = places_polled(before, events@, n, fired);
            law_no_task_from_nowhere(
                search_order(true, stealers.len()),
                start,
                after,
                Some(task),
                offered,
                stealers,
            );
            if start.pending.contains(task) {
                let i = choose|i: int| 0 <= i < start.pending.len() && start.pending[i] == task;
                let own = before.local.pending().len();
                if i < own {
                    assert(before.local.pending()[i] == task);
                } else if i < own + seen.len() {
                    assert(seen[i - own] == task);
                } else {
                    let timer = fired[i - own - seen.len()];
                    broadcast use vstd::seq_lib::group_to_multiset_ensures;

                    assert(fired.contains(timer));
                    assert(before.timers@.count(timer) > 0);
                    assert(timer.task == task && timer.when <= now);
                }
            }
        },
        _ => {},
    }
}

/// However much there is to run, a worker polls in every round that follows as many others as a
/// full quota has, counted from the start of the worker, and in no other.
pub proof fn law_polls_in_time(turns: Seq<Turn<'_>>, k: int)
    requires
        is_run(turns),
        0 <= k < turns.len(),
        turns[0].before.phase == Phase::Start,
        turns[0].before.quota == RR_TICK_COUNT,
    ensures
        turns[k].action is Poll <==> turns[k].event is Go && rounds(turns.take(k + 1)) % (
        RR_TICK_COUNT as nat + 1) == 0,
{
    lemma_quota_counts_the_rounds(turns, k);
    if k > 0 {
        lemma_quota_counts_the_rounds(turns, k - 1);
    }
}

proof fn lemma_quota_counts_the_rounds(turns: Seq<Turn<'_>>, k: int)
    requires
        is_run(turns),
        0 <= k < turns.len(),
        turns[0].before.phase == Phase::Start,
        turns[0].before.quota == RR_TICK_COUNT,
    ensures
        turns[k].action is Poll <==> turns[k].after.phase == Phase::Polling,
        ({
            let rest = rounds(turns.take(k + 1)) % (RR_TICK_COUNT as nat + 1);
            &&& turns[k].after.phase == Phase::Polling ==> turns[k].after.quota == 0 && rest == 0
                && turns[k].event is Go
            &&& turns[k].after.phase != Phase::Polling ==> turns[k].after.quota == RR_TICK_COUNT
                - rest
            &&& turns[k].event is Go && rest == 0 ==> turns[k].after.phase == Phase::Polling
        }),
    decreases k,
{
    let turn = turns[k];
    assert(turn.wf());
    assert(turns.take(k + 1).drop_last() =~= turns.take(k));
    assert(turns.take(k + 1).last() == turn);
    let earlier = rounds(turns.take(k));
    let now = rounds(turns.take(k + 1));
    assert(earlier % (RR_TICK_COUNT as nat + 1) == earlier % 62);
    assert(now % (RR_TICK_COUNT as nat + 1) == now % 62);
    if k > 0 {
        lemma_quota_counts_the_rounds(turns, k - 1);
        assert(follows(turns[k - 1], turn));
    }
}

/// A worker takes every event that it waits for, whatever the event carries: what came of the
/// action that it asked for last.
pub proof fn law_takes_what_it_waits_for<'a>(s: &mut Scheduler<'a>, event: Event)
    requires
        old(s).wf(),
        match event {
            Event::Go => old(s).phase == Phase::Start,
            Event::Polled { .. } => old(s).phase == Phase::Polling,
            Event::Returned { .. } => old(s).phase == Phase::Running,
            Event::Clock { .. } => old(s).phase == Phase::Timing,
            Event::Woken => old(s).phase == Phase::Parked,
        },
    ensures
        call_requires(Scheduler::<'a>::schedule, (s, event)),
{
}

/// A worker starts with no task, a full quota, no timers and the queues that it is given. The
/// descriptor by which its tasks wait is the one that it polls, or minus one if there is none.
pub proof fn law_a_worker_starts_out<'a>(
    id: usize,
    slot: usize,
    ep_fd: i32,
    local: LocalQueue,
    shared: SharedState<'a>,
    table: &Vec<SharedP>,
    worker: Scheduler<'a>,
)
    requires
        call_ensures(Scheduler::<'a>::new, (id, slot, ep_fd, local, shared, table), worker),
    ensures
        id < 64 && local.wf() && (forall|i: int|
            0 <= i < table@.len() ==> (#[trigger] table@[i]).wf()) ==> call_requires(
            Scheduler::<'a>::new,
            (id, slot, ep_fd, local, shared, table),
        ),
        worker.wf(),
        worker.id == id && worker.slot == slot && worker.ep_fd == ep_fd,
        worker.current == 0 && worker.sched == 0 && worker.phase == Phase::Start,
        worker.quota == 61,
        ep_fd >= 0 ==> worker.epoll_fd == ep_fd,
        ep_fd < 0 ==> worker.epoll_fd == -1,
        forall|t: TimerTask| #[trigger] worker.timers@.count(t) == 0,
        worker.local == local && worker.shared == shared,
        worker.peers.probes().len() == 0,
        worker.peers.stealers() == table@.filter(|entry: SharedP| entry.id != id).map_values(
            |entry: SharedP| entry.stealer,
        ),
{
}

/// What no step changes: the worker's number, where it keeps its stack pointer, its descriptors,
/// and which queues, which mask and which handles it works with.
pub proof fn law_a_step_keeps_the_worker<'a>(s: &mut Scheduler<'a>, event: Event, action: Action)
    requires
        call_ensures(Scheduler::<'a>::schedule, (s, event), action),
    ensures
        final(s).wf(),
        final(s).id == old(s).id,
        final(s).slot == old(s).slot,
        final(s).ep_fd == old(s).ep_fd,
        final(s).epoll_fd == old(s).epoll_fd,
        final(s).local.order() == old(s).local.order(),
        final(s).shared.injector() == old(s).shared.injector(),
        final(s).shared.registry() == old(s).shared.registry(),
        final(s).peers.stealers() == old(s).peers.stealers(),
{
}

/// A task that is off the thread is freed exactly if it left a stack pointer of zero. For every
/// other stack pointer, wherever it points, nothing is freed and the worker just goes on. Queues,
/// timers, mask and quota stay as they are.
pub proof fn law_frees_exactly_what_has_ended<'a>(
    s: &mut Scheduler<'a>,
    event: Event,
    rsp: usize,
    action: Action,
)
    requires
        call_ensures(Scheduler::<'a>::schedule, (s, event), action),
        event == (Event::Returned { rsp }),
    ensures
        action is Free <==> rsp == 0,
        action matches Action::Free(task) ==> task == old(s).current,
        rsp != 0 ==> action == Action::Again,
        final(s).phase == Phase::Start,
        final(s).current == 0,
        final(s).sched == old(s).sched,
        final(s).quota == old(s).quota,
        final(s).timers@ == old(s).timers@,
        final(s).local.pending() == old(s).local.pending(),
        final(s).local.order().take(final(s).local.placed() as int) == old(s).local.order().take(
            old(s).local.placed() as int,
        ),
        final(s).local.pops() == old(s).local.pops(),
        final(s).local.looks() == old(s).local.looks(),
        final(s).shared.ops() == old(s).shared.ops(),
        final(s).peers.probes() == old(s).peers.probes(),
{
}

/// A worker that is awake again clears its bit in the mask, in one access, and goes on; nothing
/// else changes.
pub proof fn law_goes_on_when_awake<'a>(s: &mut Scheduler<'a>, event: Event, action: Action)
    requires
        call_ensures(Scheduler::<'a>::schedule, (s, event), action),
        event is Woken,
    ensures
        action == Action::Again,
        final(s).phase == Phase::Start,
        final(s).current == old(s).current,
        final(s).sched == old(s).sched,
        final(s).quota == old(s).quota,
        final(s).timers@ == old(s).timers@,
        final(s).local.pending() == old(s).local.pending(),
        final(s).local.order().take(final(s).local.placed() as int) == old(s).local.order().take(
            old(s).local.placed() as int,
        ),
        final(s).local.pops() == old(s).local.pops(),
        final(s).local.looks() == old(s).local.looks(),
        final(s).peers.probes() == old(s).peers.probes(),
        final(s).shared.ops().len() == old(s).shared.ops().len() + 1,
        final(s).shared.ops().drop_last() == old(s).shared.ops(),
        final(s).shared.ops().last() matches SharedOp::And { bits, order, .. } && bits == !(1u64
            << old(s).id) && order == MaskOrder::Release,
{
}

/// A worker whose quota is used up polls its descriptor, for up to 64 events and without waiting,
/// and nothing else changes. With any quota left it does not poll.
pub proof fn law_polls_when_the_quota_is_used_up<'a>(
    s: &mut Scheduler<'a>,
    event: Event,
    action: Action,
)
    requires
        old(s).wf(),
        call_ensures(Scheduler::<'a>::schedule, (s, event), action),
        event is Go,
    ensures
        action is Poll <==> old(s).quota == 0,
        action is Poll ==> action == (Action::Poll {
            epfd: old(s).ep_fd,
            events: 64,
            timeout: 0,
        }),
        action is Poll ==> {
            &&& final(s).phase == Phase::Polling
            &&& final(s).current == old(s).current
            &&& final(s).sched == old(s).sched
            &&& final(s).quota == 0
            &&& final(s).timers@ == old(s).timers@
            &&& final(s).local.pending() == old(s).local.pending()
            &&& final(s).local.order().take(final(s).local.placed() as int)
                == old(s).local.order().take(old(s).local.placed() as int)
            &&& final(s).local.pops() == old(s).local.pops()
            &&& final(s).local.looks() == old(s).local.looks()
            &&& final(s).shared.ops() == old(s).shared.ops()
            &&& final(s).peers.probes() == old(s).peers.probes()
        },
{
}

/// A round that does not poll takes one from the quota and looks for a task: first in the worker's
/// own queue, then in the shared queue, then with the other workers from the last to the first. The
/// first task that turns up is run, with the worker's bit in the mask cleared; only if none turns
/// up anywhere the worker sets its bit and asks for the time.
pub proof fn law_a_round_runs_what_it_finds<'a>(
    s: &mut Scheduler<'a>,
    event: Event,
    action: Action,
)
    requires
        old(s).wf(),
        old(s).quota > 0,
        old(s).phase == Phase::Start,
        call_ensures(Scheduler::<'a>::schedule, (s, event), action),
        event is Go,
    ensures
        final(s).quota == old(s).quota - 1,
        final(s).timers@ == old(s).timers@,
        final(s).local.looks() == old(s).local.looks(),
        action is Run || action == Action::ReadClock,
        action is Run ==> (final(s).shared.ops().last() matches SharedOp::And { bits, order, .. }
            && bits == !(1u64 << old(s).id) && order == MaskOrder::Release),
        action == Action::ReadClock ==> (final(s).shared.ops().last() matches SharedOp::Or {
            bits,
            ..
        } && bits == 1u64 << old(s).id),
        action matches Action::Run(task) ==> final(s).current == task
            && final(s).sched == old(s).slot && final(s).phase == Phase::Running,
        action == Action::ReadClock ==> final(s).current == 0 && final(s).sched == old(s).sched
            && final(s).phase == Phase::Timing,
        final(s).local.pops().len() == old(s).local.pops().len() + 1,
        final(s).local.pops().drop_last() == old(s).local.pops(),
        // What is put into the worker's own queue: what was drawn besides the task that is run.
        final(s).local.order().take(final(s).local.placed() as int) == old(s).local.order().take(
            old(s).local.placed() as int,
        ) + (match final(s).shared.ops()[old(s).shared.ops().len() as int] {
            SharedOp::Draw(Some(batch)) => batch.tasks.subrange(1, batch.tasks.len() as int),
            _ => Seq::<GPtr>::empty(),
        }),
        // The worker's own queue has a task.
        final(s).local.pops().last() matches Some(task) ==> {
            &&& action == Action::Run(task)
            &&& exists|i: int|
                0 <= i < old(s).local.pending().len() && #[trigger] old(s).local.pending()[i]
                    == task && final(s).local.pending() == old(s).local.pending().subrange(
                    i + 1,
                    old(s).local.pending().len() as int,
                )
            &&& final(s).shared.ops().len() == old(s).shared.ops().len() + 1
            &&& final(s).shared.ops().drop_last() == old(s).shared.ops()
            &&& final(s).peers.probes() == old(s).peers.probes()
        },
        // It has none, and the shared queue is asked.
        final(s).local.pops().last() is None ==> {
            &&& final(s).shared.ops().len() == old(s).shared.ops().len() + 2
            &&& final(s).shared.ops().take(old(s).shared.ops().len() as int) == old(s).shared.ops()
            &&& final(s).shared.ops()[old(s).shared.ops().len() as int] is Draw
            &&& final(s).shared.ops()[old(s).shared.ops().len() as int] matches SharedOp::Draw(
                Some(batch),
            ) ==> {
                &&& action == Action::Run(batch.tasks[0])
                &&& final(s).local.pending() == batch.tasks.subrange(1, batch.tasks.len() as int)
                &&& final(s).peers.probes() == old(s).peers.probes()
            }
        },
        // Neither has one, and the other workers are asked.
        final(s).local.pops().last() is None
            && final(s).shared.ops()[old(s).shared.ops().len() as int] == SharedOp::Draw(None) ==> {
            let was = old(s).peers.probes();
            let now = final(s).peers.probes();
            let count = old(s).peers.stealers().len();
            &&& final(s).local.pending().len() == 0
            &&& was.len() <= now.len()
            &&& now.take(was.len() as int) == was
            &&& forall|k: int|
                was.len() <= k < now.len() ==> (#[trigger] now[k]).0 == count - 1 - (k - was.len())
                    && (k < now.len() - 1 ==> now[k].1 is None)
            &&& action matches Action::Run(task) ==> now.len() > was.len() && (
            now.last().1 matches Some(batch) && batch.tasks == seq![task])
            &&& !(action is Run) ==> now.len() == was.len() + count && (count > 0
                ==> now.last().1 is None)
        },
{
    let before = places_of(*old(s));
    let ops = final(s).shared.ops();
    let after = Places { ops: ops.drop_last(), ..places_of(*final(s)) };
    let offered = injector_order(old(s).shared.injector());
    let was = old(s).shared.ops();
    law_own_queue_is_asked_first(
        before,
        after,
        task_of(action),
        offered,
        old(s).peers.stealers(),
    );
    if final(s).local.pops().last() is None {
        assert(ops.drop_last().drop_last() =~= ops.take(was.len() as int));
        assert(ops.drop_last().last() == ops[was.len() as int]);
    }
}

/// After a poll the quota is full again, and the tasks of the events and then every task whose
/// deadline has come, each as often as it has such a timer, are at the back of the worker's own
/// queue, whatever the poll returned. Then the worker looks for a task: first in the shared queue,
/// then in its own, then with the other workers from the last to the first. The first task that
/// turns up is run, with the worker's bit in the mask cleared; only if none turns up anywhere the
/// worker sets its bit and asks for the time.
pub proof fn law_a_poll_queues_what_is_due<'a>(
    s: &mut Scheduler<'a>,
    event: Event,
    events: Vec<GPtr>,
    n: i32,
    now: u128,
    action: Action,
)
    requires
        old(s).wf(),
        old(s).phase == Phase::Polling,
        call_ensures(Scheduler::<'a>::schedule, (s, event), action),
        event == (Event::Polled { events, n, now }),
    ensures
        final(s).quota == 61,
        final(s).local.looks() == old(s).local.looks(),
        forall|t: TimerTask| #[trigger]
            final(s).timers@.count(t) == (if t.when <= now {
                0
            } else {
                old(s).timers@.count(t)
            }),
        action is Run || action == Action::ReadClock,
        action is Run ==> (final(s).shared.ops().last() matches SharedOp::And { bits, order, .. }
            && bits == !(1u64 << old(s).id) && order == MaskOrder::Release),
        action == Action::ReadClock ==> (final(s).shared.ops().last() matches SharedOp::Or {
            bits,
            ..
        } && bits == 1u64 << old(s).id),
        action matches Action::Run(task) ==> final(s).current == task
            && final(s).sched == old(s).slot && final(s).phase == Phase::Running,
        action == Action::ReadClock ==> final(s).current == 0 && final(s).sched == old(s).sched
            && final(s).phase == Phase::Timing,
        final(s).shared.ops().len() == old(s).shared.ops().len() + 2,
        final(s).shared.ops().take(old(s).shared.ops().len() as int) == old(s).shared.ops(),
        final(s).shared.ops()[old(s).shared.ops().len() as int] is Draw,
        exists|fired: Seq<TimerTask>, queue: Seq<GPtr>|
            #![trigger fired.to_multiset(), queue.len()]
            {
                &&& forall|t: TimerTask| #[trigger]
                    fired.to_multiset().count(t) == (if t.when <= now {
                        old(s).timers@.count(t)
                    } else {
                        0
                    })
                &&& forall|i: int, j: int| 0 <= i <= j < fired.len()
                    ==> fired[i].when <= fired[j].when
                &&& queue == old(s).local.pending() + (if n <= 0 {
                    Seq::<GPtr>::empty()
                } else if n <= events@.len() {
                    events@.subrange(0, n as int)
                } else {
                    events@
                }) + Seq::new(fired.len(), |i: int| fired[i].task)
                // All of that, and what is drawn besides the task that is run, is put into the
                // worker's own queue.
                &&& final(s).local.order().take(final(s).local.placed() as int)
                    == old(s).local.order().take(old(s).local.placed() as int) + queue.skip(
                    old(s).local.pending().len() as int,
                ) + (match final(s).shared.ops()[old(s).shared.ops().len() as int] {
                    SharedOp::Draw(Some(batch)) => batch.tasks.subrange(
                        1,
                        batch.tasks.len() as int,
                    ),
                    _ => Seq::<GPtr>::empty(),
                })
                // The shared queue has a batch.
                &&& final(s).shared.ops()[old(s).shared.ops().len() as int] matches SharedOp::Draw(
                    Some(batch),
                ) ==> {
                    &&& action == Action::Run(batch.tasks[0])
                    &&& final(s).local.pending() == queue + batch.tasks.subrange(
                        1,
                        batch.tasks.len() as int,
                    )
                    &&& final(s).local.pops() == old(s).local.pops()
                    &&& final(s).peers.probes() == old(s).peers.probes()
                }
                // It has none, and the worker's own queue has a task.
                &&& final(s).shared.ops()[old(s).shared.ops().len() as int] == SharedOp::Draw(
                    None,
                ) ==> {
                    &&& final(s).local.pops().len() == old(s).local.pops().len() + 1
                    &&& final(s).local.pops().drop_last() == old(s).local.pops()
                    &&& final(s).local.pops().last() matches Some(task) ==> {
                        &&& action == Action::Run(task)
                        &&& exists|i: int|
                            0 <= i < queue.len() && #[trigger] queue[i] == task
                                && final(s).local.pending() == queue.subrange(i
                                + 1, queue.len() as int)
                        &&& final(s).peers.probes() == old(s).peers.probes()
                    }
                }
            },
        // Neither has one, and the other workers are asked.
        final(s).shared.ops()[old(s).shared.ops().len() as int] == SharedOp::Draw(None)
            && final(s).local.pops().last() is None ==> {
            let was = old(s).peers.probes();
            let now = final(s).peers.probes();
            let count = old(s).peers.stealers().len();
            &&& final(s).local.pending().len() == 0
            &&& was.len() <= now.len()
            &&& now.take(was.len() as int) == was
            &&& forall|k: int|
                was.len() <= k < now.len() ==> (#[trigger] now[k]).0 == count - 1 - (k - was.len())
                    && (k < now.len() - 1 ==> now[k].1 is None)
            &&& action matches Action::Run(task) ==> now.len() > was.len() && (
            now.last().1 matches Some(batch) && batch.tasks == seq![task])
            &&& !(action is Run) ==> now.len() == was.len() + count && (count > 0
                ==> now.last().1 is None)
        },
{
    let fired = choose|fired: Seq<TimerTask>| #[trigger]
        polls(*old(s), *final(s), events@, n, now, fired, action);
    let before = places_polled(*old(s), events@, n, fired);
    let ops = final(s).shared.ops();
    let after = Places { ops: ops.drop_last(), ..places_of(*final(s)) };
    let offered = injector_order(old(s).shared.injector());
    let was = old(s).shared.ops();
    law_shared_queue_is_asked_first(
        before,
        after,
        task_of(action),
        offered,
        old(s).peers.stealers(),
    );
    lemma_fired_counts(old(s).timers@, final(s).timers@, fired, now);
    let all = fired.to_multiset();
    assert(ops.drop_last().drop_last() =~= ops.take(was.len() as int));
    assert(ops.drop_last().last() == ops[was.len() as int]);
    let filled = if n <= 0 {
        Seq::<GPtr>::empty()
    } else if n <= events@.len() {
        events@.subrange(0, n as int)
    } else {
        events@
    };
    assert(events@.take(event_count(n, events@.len())) =~= filled);
    let queue = old(s).local.pending() + filled + Seq::new(fired.len(), |i: int| fired[i].task);
    assert(before.pending == queue);
    assert(queue.len() == before.pending.len());
    assert(old(s).local.put() + queue.skip(old(s).local.pending().len() as int) =~= before.put);
}

/// An idle worker that learns the time queues every task whose deadline has come, each as often as
/// it has such a timer. Then it sleeps: for the whole milliseconds to the earliest deadline that is
/// left, but at least one, as far as 64 bits hold them; without one, until it is woken up, if it
/// sees its own queue to be empty. If it sees a task there it clears its bit in the mask and goes
/// on.
pub proof fn law_an_idle_worker_sleeps_until_it_is_due<'a>(
    s: &mut Scheduler<'a>,
    event: Event,
    now: u128,
    action: Action,
)
    requires
        call_ensures(Scheduler::<'a>::schedule, (s, event), action),
        event == (Event::Clock { now }),
    ensures
        forall|t: TimerTask| #[trigger]
            final(s).timers@.count(t) == (if t.when <= now {
                0
            } else {
                old(s).timers@.count(t)
            }),
        exists|fired: Seq<TimerTask>|
            {
                &&& forall|t: TimerTask|
                    (#[trigger] fired.to_multiset()).count(t) == (if t.when <= now {
                        old(s).timers@.count(t)
                    } else {
                        0
                    })
                &&& forall|i: int, j: int| 0 <= i <= j < fired.len()
                    ==> fired[i].when <= fired[j].when
                &&& final(s).local.pending() == old(s).local.pending() + Seq::new(
                    fired.len(),
                    |i: int| fired[i].task,
                )
                &&& final(s).local.order().take(final(s).local.placed() as int)
                    == old(s).local.order().take(old(s).local.placed() as int) + Seq::new(
                    fired.len(),
                    |i: int| fired[i].task,
                )
            },
        final(s).current == old(s).current,
        final(s).sched == old(s).sched,
        final(s).quota == old(s).quota,
        final(s).local.pops() == old(s).local.pops(),
        final(s).peers.probes() == old(s).peers.probes(),
        (forall|t: TimerTask| #[trigger] final(s).timers@.count(t) == 0) ==> !(action
            is ParkTimeout),
        forall|first: TimerTask| #[trigger]
            final(s).timers@.count(first) > 0 && (forall|t: TimerTask| #[trigger]
                final(s).timers@.count(t) > 0 ==> first.when <= t.when) ==> ({
                let millis = (if (first.when - now) / 1_000_000 < 1 {
                    1
                } else {
                    (first.when - now) / 1_000_000
                }) % 0x1_0000_0000_0000_0000;
                &&& action is ParkTimeout <==> millis > 0
                &&& action matches Action::ParkTimeout(time) ==> time == millis
            }),
        action is ParkTimeout ==> final(s).local.looks() == old(s).local.looks(),
        !(action is ParkTimeout) ==> final(s).local.looks().len() == old(s).local.looks().len() + 1
            && final(s).local.looks().drop_last() == old(s).local.looks()
                && action == (if final(s).local.looks().last() {
            Action::Park
        } else {
            Action::Again
        }),
        action == Action::Again ==> {
            &&& final(s).phase == Phase::Start
            &&& final(s).local.pending().len() > 0
            &&& final(s).shared.ops().len() == old(s).shared.ops().len() + 1
            &&& final(s).shared.ops().drop_last() == old(s).shared.ops()
            &&& final(s).shared.ops().last() matches SharedOp::And { bits, order, .. } && bits == !(
            1u64 << old(s).id) && order == MaskOrder::Release
        },
        action != Action::Again ==> final(s).phase == Phase::Parked
            && final(s).shared.ops() == old(s).shared.ops(),
{
    let (fired, millis) = choose|fired: Seq<TimerTask>, millis: u64| #[trigger]
        idles(*old(s), *final(s), now, fired, millis, action);
    lemma_fired_counts(old(s).timers@, final(s).timers@, fired, now);
    let all = fired.to_multiset();
    assert forall|first: TimerTask| #[trigger]
        final(s).timers@.count(first) > 0 && (forall|t: TimerTask| #[trigger]
            final(s).timers@.count(t) > 0 ==> first.when <= t.when) implies ({
        let millis = (if (first.when - now) / 1_000_000 < 1 {
            1
        } else {
            (first.when - now) / 1_000_000
        }) % 0x1_0000_0000_0000_0000;
        &&& action is ParkTimeout <==> millis > 0
        &&& action matches Action::ParkTimeout(time) ==> time == millis
    }) by {
        lemma_sleep_time(final(s).timers@, now, millis, first);
    }
    if forall|t: TimerTask| #[trigger] final(s).timers@.count(t) == 0 {
        assert(final(s).timers@ =~= Multiset::<TimerTask>::empty());
    }
    if !(action is ParkTimeout) {
        assert(final(s).local.looks().drop_last() =~= old(s).local.looks());
    }
}

/// The steps that the laws on runs speak of are the steps that a worker takes.
pub proof fn law_every_step_is_a_turn<'a>(
    s: &mut Scheduler<'a>,
    event: Event,
    action: Action,
    turn: Turn<'a>,
)
    requires
        old(s).wf(),
        match event {
            Event::Go => old(s).phase == Phase::Start,
            Event::Polled { .. } => old(s).phase == Phase::Polling,
            Event::Returned { .. } => old(s).phase == Phase::Running,
            Event::Clock { .. } => old(s).phase == Phase::Timing,
            Event::Woken => old(s).phase == Phase::Parked,
        },
        call_ensures(Scheduler::<'a>::schedule, (s, event), action),
        turn == (Turn { before: *old(s), event, after: *final(s), action }),
    ensures
        turn.wf(),
{
}

}

//! Where a worker looks for its next task, and in which order.
use crate::queue::{
    forward, lemma_forward_push, stealer_order, steals, taken, thefts_of, Batch, GPtr, LocalQueue,
    Peers,
};
use crate::shared::{draws, draws_of, injector_order, SharedOp, SharedState};
use crossbeam_deque::Stealer;
use vstd::prelude::*;

verus! {

/// A place that may hold a runnable task.
#[derive(Clone, Copy, Debug, PartialEq, Eq, Structural)]
pub enum Source {
    /// The worker's own queue.
    Local,
    /// The queue that all threads share.
    Global,
    /// Another worker's queue, by its place in the list of handles.
    Peer(usize),
}

/// The order in which the places are tried. A worker that has just polled asks the
/// shared queue before its own; otherwise its own comes first. The other workers
/// come after both, the last in the list first.
pub open spec fn search_order(polled: bool, peers: nat) -> Seq<Source> {
    let own: Seq<Source> = if polled {
        seq![Source::Global, Source::Local]
    } else {
        seq![Source::Local, Source::Global]
    };
    own + Seq::new(peers, |i: int| Source::Peer((peers - 1 - i) as usize))
}

/// The place to try first.
pub fn first_source(polled: bool) -> (source: Source)
    ensures
        forall|peers: nat| source == #[trigger] search_order(polled, peers)[0],
        polled ==> source == Source::Global,
        !polled ==> source == Source::Local,
{
    if polled {
        Source::Global
    } else {
        Source::Local
    }
}

/// The place to try after `source`, until every place has been tried.
pub fn next_source(polled: bool, peers: usize, source: Source) -> (next: Option<Source>)
    requires
        search_order(polled, peers as nat).contains(source),
    ensures
        forall|i: int|
            0 <= i < search_order(polled, peers as nat).len() && #[trigger] search_order(
                polled,
                peers as nat,
            )[i] == source ==> next == (if i + 1 < search_order(polled, peers as nat).len() {
                Some(search_order(polled, peers as nat)[i + 1])
            } else {
                None
            }),
        match source {
            Source::Peer(index) => next == (if index == 0 {
                None
            } else {
                Some(Source::Peer((index - 1) as usize))
            }),
            _ => if polled && source == Source::Global {
                next == Some(Source::Local)
            } else if !polled && source == Source::Local {
                next == Some(Source::Global)
            } else if peers == 0 {
                next is None
            } else {
                next == Some(Source::Peer((peers - 1) as usize))
            },
        },
{
    let own_next: Option<Source> = match source {
        Source::Local => if polled {
            None
        } else {
            Some(Source::Global)
        },
        Source::Global => if polled {
            Some(Source::Local)
        } else {
            None
        },
        Source::Peer(index) => {
            return if index == 0 {
                None
            } else {
                Some(Source::Peer(index - 1))
            };
        },
    };
    if own_next.is_some() {
        own_next
    } else if peers == 0 {
        None
    } else {
        Some(Source::Peer(peers - 1))
    }
}

/// What a search reads and leaves behind: the tasks of the worker's own queue, all that was ever
/// put into it, and the records of the attempts at all places.
#[verifier::ext_equal]
pub struct Places {
    pub pending: Seq<GPtr>,
    pub put: Seq<GPtr>,
    pub pops: Seq<Option<GPtr>>,
    pub ops: Seq<SharedOp>,
    pub probes: Seq<(int, Option<Batch>)>,
}

/// The places as three queues show them.
pub open spec fn places(local: LocalQueue, shared: SharedState<'_>, peers: Peers) -> Places {
    Places {
        pending: local.pending(),
        put: local.put(),
        pops: local.pops(),
        ops: shared.ops(),
        probes: peers.probes(),
    }
}

/// The attempt at `source` found nothing.
pub open spec fn missed(source: Source, before: Places) -> Places {
    match source {
        Source::Local => Places {
            pending: Seq::empty(),
            pops: before.pops.push(None),
            ..before
        },
        Source::Global => Places { ops: before.ops.push(SharedOp::Draw(None)), ..before },
        Source::Peer(index) => Places { probes: before.probes.push((index as int, None)), ..before },
    }
}

/// The attempt at `source` found `task`. The tasks of the shared queue are put in in the order
/// `offered`. What is drawn from it besides `task` goes to the back of the worker's own queue, and
/// nothing else does.
pub open spec fn hit(
    source: Source,
    before: Places,
    after: Places,
    task: GPtr,
    offered: Seq<GPtr>,
    stealers: Seq<Stealer<usize>>,
) -> bool {
    match source {
        Source::Local => {
            &&& taken(before.pending, after.pending, task)
            &&& after.put == before.put
            &&& after.pops == before.pops.push(Some(task))
            &&& after.ops == before.ops
            &&& after.probes == before.probes
        },
        Source::Global => {
            &&& exists|batch: Batch| #[trigger]
                draws(offered, before.ops, task, before.pending, after.pending, batch) && after.ops
                    == before.ops.push(SharedOp::Draw(Some(batch))) && after.put == before.put
                    + batch.tasks.skip(1)
            &&& after.pops == before.pops
            &&& after.probes == before.probes
        },
        Source::Peer(index) => {
            &&& exists|batch: Batch| #[trigger]
                steals(
                    stealer_order(stealers[index as int]),
                    before.probes,
                    index as int,
                    task,
                    batch,
                ) && after.probes == before.probes.push((index as int, Some(batch)))
            &&& after.pending == before.pending
            &&& after.put == before.put
            &&& after.pops == before.pops
            &&& after.ops == before.ops
        },
    }
}

/// The places in `order`, tried one after the other, led from `before` to `after`, and
/// `found` is the task of the first attempt that found one. The search ends there, or
/// when every place has been tried.
pub open spec fn searched(
    order: Seq<Source>,
    before: Places,
    after: Places,
    found: Option<GPtr>,
    offered: Seq<GPtr>,
    stealers: Seq<Stealer<usize>>,
) -> bool
    decreases order.len(),
{
    if order.len() == 0 {
        found is None && after == before
    } else {
        ||| (found matches Some(task) && hit(order[0], before, after, task, offered, stealers))
        ||| searched(order.skip(1), missed(order[0], before), after, found, offered, stealers)
    }
}

/// Looks for the next task to run.
pub fn next_task(
    polled: bool,
    local: &mut LocalQueue,
    shared: &mut SharedState<'_>,
    peers: &mut Peers,
) -> (found: Option<GPtr>)
    requires
        old(local).wf(),
        old(peers).wf(),
    ensures
        final(local).wf(),
        final(peers).wf(),
        final(local).order() == old(local).order(),
        final(local).looks() == old(local).looks(),
        final(shared).injector() == old(shared).injector(),
        final(shared).registry() == old(shared).registry(),
        final(peers).stealers() == old(peers).stealers(),
        searched(
            search_order(polled, old(peers).stealers().len()),
            places(*old(local), *old(shared), *old(peers)),
            places(*final(local), *final(shared), *final(peers)),
            found,
            injector_order(old(shared).injector()),
            old(peers).stealers(),
        ),
{
    let count: usize = peers.len();
    let ghost order = search_order(polled, count as nat);
    let ghost offered = injector_order(shared.injector());
    let ghost stealers = peers.stealers();
    let ghost start = places(*local, *shared, *peers);
    let ghost mut i: int = 0;
    let mut source: Source = first_source(polled);
    assert(order.skip(0) == order);
    loop
        invariant
            0 <= i < order.len(),
            order == search_order(polled, count as nat),
            count == stealers.len(),
            order[i] == source,
            local.wf(),
            peers.wf(),
            local.order() == old(local).order(),
            local.looks() == old(local).looks(),
            shared.injector() == old(shared).injector(),
            shared.registry() == old(shared).registry(),
            peers.stealers() == old(peers).stealers(),
            stealers == old(peers).stealers(),
            offered == injector_order(old(shared).injector()),
            start == places(*old(local), *old(shared), *old(peers)),
            forall|after: Places, found: Option<GPtr>|
                #[trigger] searched(
                    order.skip(i),
                    places(*local, *shared, *peers),
                    after,
                    found,
                    offered,
                    stealers,
                ) ==> searched(order, start, after, found, offered, stealers),
        decreases order.len() - i,
    {
        let ghost before = places(*local, *shared, *peers);
        assert(order.skip(i)[0] == source);
        let found: Option<GPtr> = match source {
            Source::Local => local.pop(),
            Source::Global => shared.draw(local),
            Source::Peer(index) => peers.steal(index),
        };
        let ghost now = places(*local, *shared, *peers);
        if found.is_some() {
            proof {
                if source == Source::Global {
                    let batch = choose|batch: Batch| #[trigger]
                        draws(offered, before.ops, found->0, before.pending, now.pending, batch)
                            && now.ops == before.ops.push(SharedOp::Draw(Some(batch)));
                    assert(now.ops == before.ops.push(SharedOp::Draw(Some(batch))));
                    assert(now.pending.skip(before.pending.len() as int) =~= batch.tasks.skip(1));
                }
            }
            assert(hit(source, before, now, found->0, offered, stealers));
            assert(searched(order.skip(i), before, now, found, offered, stealers));
            return found;
        }
        assert(now =~= missed(source, before));
        assert(order.skip(i).skip(1) =~= order.skip(i + 1));
        assert forall|after: Places, found: Option<GPtr>|
            #[trigger] searched(order.skip(i
                + 1), now, after, found, offered, stealers) implies searched(
            order,
            start,
            after,
            found,
            offered,
            stealers,
        ) by {
            assert(searched(order.skip(i), before, after, found, offered, stealers));
        }
        match next_source(polled, count, source) {
            Some(next) => {
                source = next;
                proof {
                    i = i + 1;
                }
            },
            None => {
                assert(searched(order.skip(i + 1), now, now, None, offered, stealers));
                assert(searched(order.skip(i), before, now, None, offered, stealers));
                return None;
            },
        }
    }
}

/// Every place is tried once.
pub proof fn law_every_place_is_tried_once(polled: bool, peers: usize)
    ensures
        search_order(polled, peers as nat).no_duplicates(),
        search_order(polled, peers as nat).contains(Source::Local),
        search_order(polled, peers as nat).contains(Source::Global),
        forall|index: usize|
            index < peers <==> #[trigger] search_order(polled, peers as nat).contains(
                Source::Peer(index),
            ),
{
    let order = search_order(polled, peers as nat);
    assert(order[0] == Source::Local || order[1] == Source::Local);
    assert(order[0] == Source::Global || order[1] == Source::Global);
    assert forall|index: usize| index < peers <==> #[trigger] order.contains(Source::Peer(index)) by {
        if index < peers {
            assert(order[2 + (peers - 1 - index)] == Source::Peer(index));
        }
    }
}

/// The places after a search of all of `order` that found nothing.
pub open spec fn all_missed(order: Seq<Source>, before: Places) -> Places
    decreases order.len(),
{
    if order.len() == 0 {
        before
    } else {
        all_missed(order.skip(1), missed(order[0], before))
    }
}

/// A search finds nothing only after it has tried every place.
pub proof fn law_gives_up_last(
    order: Seq<Source>,
    before: Places,
    after: Places,
    offered: Seq<GPtr>,
    stealers: Seq<Stealer<usize>>,
)
    ensures
        searched(order, before, after, None, offered, stealers) <==> after == all_missed(
            order,
            before,
        ),
    decreases order.len(),
{
    if order.len() > 0 {
        law_gives_up_last(order.skip(1), missed(order[0], before), after, offered, stealers);
    }
}

/// A search makes up no task: the task that it finds, and every task that it leaves in the
/// worker's own queue, was there before, or comes from the shared queue or another worker.
pub proof fn law_no_task_from_nowhere(
    order: Seq<Source>,
    before: Places,
    after: Places,
    found: Option<GPtr>,
    offered: Seq<GPtr>,
    stealers: Seq<Stealer<usize>>,
)
    requires
        searched(order, before, after, found, offered, stealers),
        forall|i: int|
            0 <= i < order.len() ==> (#[trigger] order[i] matches Source::Peer(index) ==> index
                < stealers.len()),
    ensures
        found matches Some(task) ==> known(task, before.pending, offered, stealers),
        forall|task: GPtr| #[trigger]
            after.pending.contains(task)
                ==> before.pending.contains(task) || offered.contains(task),
    decreases order.len(),
{
    if order.len() > 0 {
        let rest = order.skip(1);
        assert(forall|i: int| 0 <= i < rest.len() ==> rest[i] == order[i + 1]);
        if found is Some && hit(order[0], before, after, found->0, offered, stealers) {
            let task = found->0;
            match order[0] {
                Source::Local => {
                    let i = choose|i: int|
                        0 <= i < before.pending.len() && #[trigger] before.pending[i] == task
                            && after.pending == before.pending.skip(i + 1);
                    assert(before.pending.contains(task));
                    assert forall|t: GPtr| #[trigger]
                        after.pending.contains(t) implies before.pending.contains(t) by {
                        let k = choose|k: int| 0 <= k < after.pending.len()
                            && after.pending[k] == t;
                        assert(before.pending[i + 1 + k] == t);
                    }
                },
                Source::Global => {
                    let batch = choose|batch: Batch| #[trigger]
                        draws(offered, before.ops, task, before.pending, after.pending, batch);
                    assert(batch.tasks[0] == offered[batch.at]);
                    assert forall|t: GPtr| #[trigger]
                        after.pending.contains(t) implies before.pending.contains(t)
                        || offered.contains(t) by {
                        let k = choose|k: int| 0 <= k < after.pending.len()
                            && after.pending[k] == t;
                        if k < before.pending.len() {
                            assert(before.pending[k] == t);
                        } else {
                            assert(offered[batch.at + 1 + k - before.pending.len()] == t);
                        }
                    }
                },
                Source::Peer(index) => {
                    let order = stealer_order(stealers[index as int]);
                    let batch = choose|batch: Batch| #[trigger]
                        steals(order, before.probes, index as int, task, batch);
                    assert(batch.tasks[0] == order[batch.at]);
                    assert(order.contains(task));
                },
            }
        } else {
            law_no_task_from_nowhere(
                rest,
                missed(order[0], before),
                after,
                found,
                offered,
                stealers,
            );
        }
    }
}

/// A task leaves the worker's own queue only by being run or stolen. Either the worker took none
/// from it: then the first `gone` tasks, none or all of them, were stolen, and the others stay.
/// If the worker drew a batch from the shared queue, it found the first task of the batch, and
/// the others of the batch join its own at the back; otherwise nothing joins them. Or the worker
/// took a task from its own queue, and that is the task it found: then the `gone` tasks before it
/// were stolen, those behind it stay, and nothing was drawn.
pub open spec fn run_stolen_or_left(
    before: Places,
    after: Places,
    found: Option<GPtr>,
    gone: int,
) -> bool {
    let drawn = draws_of(before.ops);
    let then_drawn = draws_of(after.ops);
    &&& before.pops.len() <= after.pops.len()
    &&& before.pops == after.pops.take(before.pops.len() as int)
    &&& {
        ||| {
            &&& gone == 0 || gone == before.pending.len()
            &&& forall|i: int| before.pops.len() <= i < after.pops.len() ==> #[trigger]
                after.pops[i] is None
            &&& {
                ||| then_drawn == drawn && after.pending == before.pending.skip(gone)
                    && after.put == before.put
                ||| {
                    &&& then_drawn.len() > 0
                    &&& then_drawn.drop_last() == drawn
                    &&& found == Some(then_drawn.last().tasks[0])
                    &&& after.pending == before.pending.skip(gone) + then_drawn.last().tasks.skip(1)
                    &&& after.put == before.put + then_drawn.last().tasks.skip(1)
                }
            }
        }
        ||| {
            &&& 0 <= gone < before.pending.len()
            &&& found == Some(before.pending[gone])
            &&& then_drawn == drawn
            &&& after.pending == before.pending.skip(gone + 1)
            &&& after.put == before.put
            &&& after.pops.len() > before.pops.len()
            &&& after.pops.last() == found
            &&& forall|i: int| before.pops.len() <= i < after.pops.len() - 1 ==> #[trigger]
                after.pops[i] is None
        }
    }
}

/// A draw that found nothing, and one that found a batch.
proof fn lemma_draws_of_push(ops: Seq<SharedOp>, batch: Batch)
    ensures
        draws_of(ops.push(SharedOp::Draw(None))) == draws_of(ops),
        draws_of(ops.push(SharedOp::Draw(Some(batch)))) == draws_of(ops).push(batch),
{
    assert(ops.push(SharedOp::Draw(None)).drop_last() =~= ops);
    assert(ops.push(SharedOp::Draw(Some(batch))).drop_last() =~= ops);
}

/// In a search, a task leaves the worker's own queue only by being run or stolen.
pub proof fn law_own_tasks_are_run_stolen_or_left(
    order: Seq<Source>,
    before: Places,
    after: Places,
    found: Option<GPtr>,
    offered: Seq<GPtr>,
    stealers: Seq<Stealer<usize>>,
)
    requires
        searched(order, before, after, found, offered, stealers),
    ensures
        exists|gone: int| run_stolen_or_left(before, after, found, gone),
    decreases order.len(),
{
    let pending = before.pending;
    if order.len() == 0 {
        assert(pending.skip(0) =~= pending);
        assert(after.pops.take(before.pops.len() as int) =~= before.pops);
        assert(run_stolen_or_left(before, after, found, 0));
    } else if found is Some && hit(order[0], before, after, found->0, offered, stealers) {
        assert(after.pops.take(before.pops.len() as int) =~= before.pops);
        match order[0] {
            Source::Local => {
                let i = choose|i: int|
                    0 <= i < pending.len() && #[trigger] pending[i] == found->0 && after.pending
                        == pending.skip(i + 1);
                assert(run_stolen_or_left(before, after, found, i));
            },
            Source::Global => {
                let batch = choose|batch: Batch| #[trigger]
                    draws(offered, before.ops, found->0, pending, after.pending, batch)
                        && after.ops == before.ops.push(SharedOp::Draw(Some(batch)));
                lemma_draws_of_push(before.ops, batch);
                assert(draws_of(after.ops).drop_last() =~= draws_of(before.ops));
                assert(pending.skip(0) =~= pending);
                assert(run_stolen_or_left(before, after, found, 0));
            },
            Source::Peer(_) => {
                assert(pending.skip(0) =~= pending);
                assert(run_stolen_or_left(before, after, found, 0));
            },
        }
    } else {
        let next = missed(order[0], before);
        lemma_draws_of_push(before.ops, arbitrary());
        law_own_tasks_are_run_stolen_or_left(
            order.skip(1),
            next,
            after,
            found,
            offered,
            stealers,
        );
        let gone = choose|gone: int| run_stolen_or_left(next, after, found, gone);
        assert(before.pops =~= after.pops.take(before.pops.len() as int));
        if order[0] == Source::Local {
            assert(after.pops[before.pops.len() as int] == next.pops.last());
            assert(next.pending.skip(gone) =~= pending.skip(pending.len() as int));
            assert(run_stolen_or_left(before, after, found, pending.len() as int));
        } else {
            assert(run_stolen_or_left(before, after, found, gone));
        }
    }
}

/// The place that comes first is asked first, and what it gives is run: between polls the
/// worker's own queue, after a poll the shared queue and, if that gives nothing, the worker's own.
pub proof fn law_first_place_comes_first(
    polled: bool,
    before: Places,
    after: Places,
    found: Option<GPtr>,
    offered: Seq<GPtr>,
    stealers: Seq<Stealer<usize>>,
)
    requires
        searched(search_order(polled, stealers.len()), before, after, found, offered, stealers),
    ensures
        !polled ==> {
            &&& after.pops.len() == before.pops.len() + 1
            &&& after.pops.last() matches Some(task) ==> found == Some(task)
                && after.ops == before.ops
                && after.probes == before.probes
        },
        polled ==> {
            &&& after.ops.len() == before.ops.len() + 1
            &&& after.ops.last() is Draw
            &&& after.ops.last() matches SharedOp::Draw(Some(batch)) ==> {
                &&& found == Some(batch.tasks[0])
                &&& after.pending == before.pending + batch.tasks.skip(1)
                &&& after.pops == before.pops
                &&& after.probes == before.probes
            }
            &&& after.ops.last() == SharedOp::Draw(None) ==> {
                &&& after.pops.len() == before.pops.len() + 1
                &&& after.pops.last() matches Some(task) ==> found == Some(task) && after.probes
                    == before.probes
            }
        },
{
    let order = search_order(polled, stealers.len());
    let first = missed(order[0], before);
    if !(found is Some && hit(order[0], before, after, found->0, offered, stealers)) {
        let second = missed(order[1], first);
        assert(searched(order.skip(1), first, after, found, offered, stealers));
        assert(order.skip(1)[0] == order[1]);
        assert(order.skip(1).skip(1) =~= order.skip(2));
        if !(found is Some && hit(order[1], first, after, found->0, offered, stealers)) {
            assert(searched(order.skip(2), second, after, found, offered, stealers));
            lemma_peers_only(order.skip(2), second, after, found, offered, stealers);
        }
    }
}

/// `gone` of the worker's own tasks were stolen in a search. If none was, and the search asked the
/// worker's own queue while it held a task, then the front of the queue is what was found, and the
/// others stay in their order.
pub open spec fn front_runs_unless_stolen(
    before: Places,
    after: Places,
    found: Option<GPtr>,
    gone: int,
) -> bool {
    &&& run_stolen_or_left(before, after, found, gone)
    &&& gone == 0 && before.pending.len() > 0 && after.pops.len() > before.pops.len() ==> {
        &&& found == Some(before.pending[0])
        &&& after.pending == before.pending.skip(1)
    }
}

/// The front of the worker's own queue runs, unless thieves were there first: a search that asks
/// the worker's own queue while it holds a task and none of its tasks is stolen finds the oldest.
pub proof fn law_front_runs_unless_stolen(
    polled: bool,
    before: Places,
    after: Places,
    found: Option<GPtr>,
    offered: Seq<GPtr>,
    stealers: Seq<Stealer<usize>>,
)
    requires
        searched(search_order(polled, stealers.len()), before, after, found, offered, stealers),
    ensures
        exists|gone: int| front_runs_unless_stolen(before, after, found, gone),
{
    let order = search_order(polled, stealers.len());
    if before.pending.len() == 0 {
        law_own_tasks_are_run_stolen_or_left(order, before, after, found, offered, stealers);
        let gone = choose|gone: int| run_stolen_or_left(before, after, found, gone);
        assert(front_runs_unless_stolen(before, after, found, gone));
    } else if !polled {
        lemma_asks_its_own_queue(order, before, after, found, offered, stealers);
    } else if found is Some && hit(order[0], before, after, found->0, offered, stealers) {
        let batch = choose|batch: Batch| #[trigger]
            draws(offered, before.ops, found->0, before.pending, after.pending, batch) && after.ops
                == before.ops.push(SharedOp::Draw(Some(batch)));
        lemma_draws_of_push(before.ops, batch);
        assert(draws_of(after.ops).drop_last() =~= draws_of(before.ops));
        assert(before.pending.skip(0) =~= before.pending);
        assert(after.pops.take(before.pops.len() as int) =~= before.pops);
        assert(front_runs_unless_stolen(before, after, found, 0));
    } else {
        let next = missed(order[0], before);
        assert(order.skip(1)[0] == Source::Local);
        lemma_draws_of_push(before.ops, arbitrary());
        lemma_asks_its_own_queue(order.skip(1), next, after, found, offered, stealers);
        let gone = choose|gone: int| front_runs_unless_stolen(next, after, found, gone);
        assert(front_runs_unless_stolen(before, after, found, gone));
    }
}

/// A search that begins with the worker's own queue.
proof fn lemma_asks_its_own_queue(
    order: Seq<Source>,
    before: Places,
    after: Places,
    found: Option<GPtr>,
    offered: Seq<GPtr>,
    stealers: Seq<Stealer<usize>>,
)
    requires
        order.len() > 0,
        order[0] == Source::Local,
        searched(order, before, after, found, offered, stealers),
        before.pending.len() > 0,
    ensures
        exists|gone: int| front_runs_unless_stolen(before, after, found, gone),
{
    let pending = before.pending;
    if found is Some && hit(order[0], before, after, found->0, offered, stealers) {
        let i = choose|i: int|
            0 <= i < pending.len() && #[trigger] pending[i] == found->0 && after.pending
                == pending.skip(i + 1);
        assert(after.pops.take(before.pops.len() as int) =~= before.pops);
        assert(front_runs_unless_stolen(before, after, found, i));
    } else {
        let next = missed(order[0], before);
        law_own_tasks_are_run_stolen_or_left(
            order.skip(1),
            next,
            after,
            found,
            offered,
            stealers,
        );
        let gone = choose|gone: int| run_stolen_or_left(next, after, found, gone);
        assert(before.pops =~= after.pops.take(before.pops.len() as int));
        assert(after.pops[before.pops.len() as int] == next.pops.last());
        assert(next.pending.skip(gone) =~= pending.skip(pending.len() as int));
        assert(front_runs_unless_stolen(before, after, found, pending.len() as int));
    }
}

/// `task` is among `pending`, or among the tasks that the shared queue or a worker ever holds.
pub open spec fn known(
    task: GPtr,
    pending: Seq<GPtr>,
    offered: Seq<GPtr>,
    stealers: Seq<Stealer<usize>>,
) -> bool {
    ||| pending.contains(task)
    ||| offered.contains(task)
    ||| exists|k: int|
        0 <= k < stealers.len() && #[trigger] stealer_order(stealers[k]).contains(task)
}

/// A worker turns to the others only when its own queue and the shared queue have nothing for
/// it: if a search has asked another worker, the worker's own queue is empty and the shared
/// queue was asked, once and in vain.
pub proof fn law_others_come_last(
    polled: bool,
    before: Places,
    after: Places,
    found: Option<GPtr>,
    offered: Seq<GPtr>,
    stealers: Seq<Stealer<usize>>,
)
    requires
        searched(
            search_order(polled, stealers.len()),
            before,
            after,
            found,
            offered,
            stealers,
        ),
        after.probes != before.probes,
    ensures
        after.pending == Seq::<GPtr>::empty(),
        after.ops == before.ops.push(SharedOp::Draw(None)),
{
    let order = search_order(polled, stealers.len());
    let first = missed(order[0], before);
    let second = missed(order[1], first);
    assert(order.skip(1)[0] == order[1]);
    assert(order.skip(1).skip(1) =~= order.skip(2));
    assert(searched(order.skip(1), first, after, found, offered, stealers));
    assert(searched(order.skip(2), second, after, found, offered, stealers));
    lemma_peers_only(order.skip(2), second, after, found, offered, stealers);
}

/// A search among other workers alone leaves the two queues as they were.
proof fn lemma_peers_only(
    order: Seq<Source>,
    before: Places,
    after: Places,
    found: Option<GPtr>,
    offered: Seq<GPtr>,
    stealers: Seq<Stealer<usize>>,
)
    requires
        searched(order, before, after, found, offered, stealers),
        forall|i: int| 0 <= i < order.len() ==> #[trigger] order[i] is Peer,
    ensures
        after.pending == before.pending,
        after.put == before.put,
        after.pops == before.pops,
        after.ops == before.ops,
    decreases order.len(),
{
    if order.len() > 0 {
        let rest = order.skip(1);
        assert(forall|i: int| 0 <= i < rest.len() ==> rest[i] == order[i + 1]);
        assert(order[0] is Peer);
        if !(found is Some && hit(order[0], before, after, found->0, offered, stealers)) {
            lemma_peers_only(rest, missed(order[0], before), after, found, offered, stealers);
        }
    }
}

/// A search accesses what all threads share only by drawing.
pub(crate) proof fn lemma_search_only_draws(
    order: Seq<Source>,
    before: Places,
    after: Places,
    found: Option<GPtr>,
    offered: Seq<GPtr>,
    stealers: Seq<Stealer<usize>>,
)
    requires
        searched(order, before, after, found, offered, stealers),
    ensures
        before.ops.len() <= after.ops.len(),
        before.ops == after.ops.take(before.ops.len() as int),
        forall|i: int| before.ops.len() <= i < after.ops.len() ==> #[trigger] after.ops[i] is Draw,
    decreases order.len(),
{
    if order.len() == 0 || (found is Some && hit(
        order[0],
        before,
        after,
        found->0,
        offered,
        stealers,
    )) {
        assert(after.ops.take(before.ops.len() as int) =~= before.ops);
    } else {
        let next = missed(order[0], before);
        lemma_search_only_draws(order.skip(1), next, after, found, offered, stealers);
        assert forall|i: int| before.ops.len() <= i < after.ops.len() implies #[trigger]
            after.ops[i] is Draw by {
            if i < next.ops.len() {
                assert(after.ops.take(next.ops.len() as int)[i] == next.ops[i]);
            }
        }
        assert(before.ops =~= after.ops.take(before.ops.len() as int)) by {
            assert forall|i: int| 0 <= i < before.ops.len() implies before.ops[i]
                == after.ops[i] by {
                assert(after.ops.take(next.ops.len() as int)[i] == next.ops[i]);
            }
        }
    }
}

/// A search takes what stands further in front first: what it draws from the shared queue is
/// behind all that was drawn from it through the same handle before, and what it steals from
/// another worker is behind all that was stolen from that worker before.
pub proof fn law_searches_go_forward(
    order: Seq<Source>,
    before: Places,
    after: Places,
    found: Option<GPtr>,
    offered: Seq<GPtr>,
    stealers: Seq<Stealer<usize>>,
    index: int,
)
    requires
        searched(order, before, after, found, offered, stealers),
        forward(offered, draws_of(before.ops)),
        forward(stealer_order(stealers[index]), thefts_of(before.probes, index)),
    ensures
        forward(offered, draws_of(after.ops)),
        forward(stealer_order(stealers[index]), thefts_of(after.probes, index)),
    decreases order.len(),
{
    if order.len() > 0 {
        if found is Some && hit(order[0], before, after, found->0, offered, stealers) {
            match order[0] {
                Source::Local => {},
                Source::Global => {
                    let batch = choose|batch: Batch| #[trigger]
                        draws(
                            offered,
                            before.ops,
                            found->0,
                            before.pending,
                            after.pending,
                            batch,
                        ) && after.ops == before.ops.push(SharedOp::Draw(Some(batch)));
                    lemma_draws_of_push(before.ops, batch);
                    lemma_forward_push(offered, draws_of(before.ops), batch);
                },
                Source::Peer(i) => {
                    let put_in = stealer_order(stealers[i as int]);
                    let batch = choose|batch: Batch| #[trigger]
                        steals(put_in, before.probes, i as int, found->0, batch) && after.probes
                            == before.probes.push((i as int, Some(batch)));
                    assert(after.probes.drop_last() =~= before.probes);
                    if i == index {
                        lemma_forward_push(put_in, thefts_of(before.probes, index), batch);
                    }
                },
            }
        } else {
            let next = missed(order[0], before);
            lemma_draws_of_push(before.ops, arbitrary());
            if order[0] is Peer {
                assert(next.probes.drop_last() =~= before.probes);
            }
            law_searches_go_forward(
                order.skip(1),
                next,
                after,
                found,
                offered,
                stealers,
                index,
            );
        }
    }
}

/// Which places are tried, and in which order: the worker's own queue and the shared queue, which
/// comes first after a poll, and then all other workers, from the last to the first.
pub proof fn law_the_places_in_order(polled: bool, peers: usize, i: int)
    ensures
        search_order(polled, peers as nat).len() == peers + 2,
        search_order(polled, peers as nat)[0] == (if polled {
            Source::Global
        } else {
            Source::Local
        }),
        search_order(polled, peers as nat)[1] == (if polled {
            Source::Local
        } else {
            Source::Global
        }),
        0 <= i < peers ==> search_order(polled, peers as nat)[peers + 1 - i] == Source::Peer(
            i as usize,
        ),
{
}

/// The first place is the shared queue after a poll and the worker's own queue otherwise. The
/// other of the two comes next, then the other workers from the last to the first, and after the
/// first of them, or where there is none, the search is at its end.
pub proof fn law_one_place_after_the_other(
    polled: bool,
    peers: usize,
    source: Source,
    first: Source,
    next: Option<Source>,
)
    requires
        source matches Source::Peer(index) ==> index < peers,
        call_ensures(first_source, (polled,), first),
        call_ensures(next_source, (polled, peers, source), next),
    ensures
        call_requires(first_source, (polled,)),
        call_requires(next_source, (polled, peers, source)),
        polled ==> first == Source::Global,
        !polled ==> first == Source::Local,
        source == first ==> next == Some(
            if polled {
                Source::Local
            } else {
                Source::Global
            },
        ),
        source != first && !(source is Peer) ==> next == (if peers == 0 {
            None
        } else {
            Some(Source::Peer((peers - 1) as usize))
        }),
        source matches Source::Peer(index) ==> next == (if index == 0 {
            None
        } else {
            Some(Source::Peer((index - 1) as usize))
        }),
{
    let order = search_order(polled, peers as nat);
    let at = match source {
        Source::Peer(index) => peers + 1 - index,
        _ => if source == first {
            0
        } else {
            1
        },
    };
    assert(order[at] == source);
    assert(order.contains(source));
}

/// What came of asking the last `count` of the other workers one after the other, from the last to
/// the first, until one had a task.
spec fn asked(
    before: Seq<(int, Option<Batch>)>,
    after: Seq<(int, Option<Batch>)>,
    count: nat,
    found: Option<GPtr>,
    stealers: Seq<Stealer<usize>>,
) -> bool {
    &&& before.len() <= after.len() <= before.len() + count
    &&& after.take(before.len() as int) == before
    &&& forall|k: int|
        before.len() <= k < after.len() ==> (#[trigger] after[k]).0 == count - 1 - (k
            - before.len()) && (k < after.len() - 1 ==> after[k].1 is None)
    &&& match found {
        Some(task) => after.len() > before.len() && (after.last().1 matches Some(batch)
            && batch.tasks == seq![task] && batch.fits(stealer_order(stealers[after.last().0]))),
        None => after.len() == before.len() + count && (count > 0 ==> after.last().1 is None),
    }
}

proof fn lemma_asked(
    count: nat,
    before: Places,
    after: Places,
    found: Option<GPtr>,
    offered: Seq<GPtr>,
    stealers: Seq<Stealer<usize>>,
)
    requires
        count <= usize::MAX,
        searched(
            Seq::new(count, |i: int| Source::Peer((count - 1 - i) as usize)),
            before,
            after,
            found,
            offered,
            stealers,
        ),
    ensures
        asked(before.probes, after.probes, count, found, stealers),
        after.pending == before.pending,
        after.put == before.put,
        after.pops == before.pops,
        after.ops == before.ops,
    decreases count,
{
    let order = Seq::new(count, |i: int| Source::Peer((count - 1 - i) as usize));
    lemma_peers_only(order, before, after, found, offered, stealers);
    if count == 0 {
        assert(after.probes.take(before.probes.len() as int) =~= before.probes);
    } else if found is Some && hit(order[0], before, after, found->0, offered, stealers) {
        let index = (count - 1) as usize;
        let batch = choose|batch: Batch| #[trigger]
            steals(
                stealer_order(stealers[index as int]),
                before.probes,
                index as int,
                found->0,
                batch,
            ) && after.probes == before.probes.push((index as int, Some(batch)));
        assert(after.probes.take(before.probes.len() as int) =~= before.probes);
    } else {
        let fewer = (count - 1) as nat;
        let rest = Seq::new(fewer, |i: int| Source::Peer((fewer - 1 - i) as usize));
        let next = missed(order[0], before);
        assert(order.skip(1) =~= rest);
        lemma_asked(fewer, next, after, found, offered, stealers);
        let was = before.probes.len() as int;
        assert(after.probes.take(was) =~= before.probes) by {
            assert(after.probes.take(was) =~= after.probes.take(was + 1).take(was));
        }
        assert(after.probes[was] == after.probes.take(was + 1)[was]);
    }
}

/// All that a search does, told by what it left behind.
proof fn lemma_search_outcome(
    polled: bool,
    before: Places,
    after: Places,
    found: Option<GPtr>,
    offered: Seq<GPtr>,
    stealers: Seq<Stealer<usize>>,
)
    requires
        stealers.len() <= usize::MAX,
        searched(search_order(polled, stealers.len()), before, after, found, offered, stealers),
    ensures
        !polled ==> {
            &&& after.pops.len() == before.pops.len() + 1
            &&& after.pops.drop_last() == before.pops
            &&& after.pops.last() matches Some(task) ==> {
                &&& found == Some(task)
                &&& taken(before.pending, after.pending, task)
                &&& after.put == before.put
                &&& after.ops == before.ops
                &&& after.probes == before.probes
            }
            &&& after.pops.last() is None ==> {
                &&& after.ops.len() == before.ops.len() + 1
                &&& after.ops.drop_last() == before.ops
                &&& after.ops.last() is Draw
                &&& after.ops.last() matches SharedOp::Draw(Some(batch)) ==> {
                    &&& batch.fits(offered)
                    &&& found == Some(batch.tasks[0])
                    &&& after.pending == batch.tasks.skip(1)
                    &&& after.put == before.put + batch.tasks.skip(1)
                    &&& after.probes == before.probes
                }
                &&& after.ops.last() == SharedOp::Draw(None) ==> {
                    &&& after.pending == Seq::<GPtr>::empty()
                    &&& after.put == before.put
                    &&& asked(before.probes, after.probes, stealers.len(), found, stealers)
                }
            }
        },
        polled ==> {
            &&& after.ops.len() == before.ops.len() + 1
            &&& after.ops.drop_last() == before.ops
            &&& after.ops.last() is Draw
            &&& after.ops.last() matches SharedOp::Draw(Some(batch)) ==> {
                &&& batch.fits(offered)
                &&& found == Some(batch.tasks[0])
                &&& after.pending == before.pending + batch.tasks.skip(1)
                &&& after.put == before.put + batch.tasks.skip(1)
                &&& after.pops == before.pops
                &&& after.probes == before.probes
            }
            &&& after.ops.last() == SharedOp::Draw(None) ==> {
                &&& after.pops.len() == before.pops.len() + 1
                &&& after.pops.drop_last() == before.pops
                &&& after.pops.last() matches Some(task) ==> {
                    &&& found == Some(task)
                    &&& taken(before.pending, after.pending, task)
                &&& after.put == before.put
                    &&& after.probes == before.probes
                }
                &&& after.pops.last() is None ==> {
                    &&& after.pending == Seq::<GPtr>::empty()
                    &&& after.put == before.put
                    &&& asked(before.probes, after.probes, stealers.len(), found, stealers)
                }
            }
        },
{
    let order = search_order(polled, stealers.len());
    let first = missed(order[0], before);
    let second = missed(order[1], first);
    let others = Seq::new(
        stealers.len(),
        |i: int| Source::Peer((stealers.len() - 1 - i) as usize),
    );
    assert(order.skip(1)[0] == order[1]);
    assert(order.skip(1).skip(1) =~= others);
    if found is Some && hit(order[0], before, after, found->0, offered, stealers) {
        if polled {
            assert(after.ops.drop_last() =~= before.ops);
        } else {
            assert(after.pops.drop_last() =~= before.pops);
        }
    } else {
        assert(searched(order.skip(1), first, after, found, offered, stealers));
        assert(first.ops.drop_last() =~= before.ops || !polled);
        assert(first.pops.drop_last() =~= before.pops || polled);
        if found is Some && hit(order[1], first, after, found->0, offered, stealers) {
            if polled {
                assert(after.pops.drop_last() =~= before.pops);
            } else {
                assert(after.ops.drop_last() =~= before.ops);
                let batch = choose|batch: Batch| #[trigger]
                    draws(offered, first.ops, found->0, first.pending, after.pending, batch)
                        && after.ops == first.ops.push(SharedOp::Draw(Some(batch)));
                assert(first.pending + batch.tasks.skip(1) =~= batch.tasks.skip(1));
            }
        } else {
            assert(searched(others, second, after, found, offered, stealers));
            lemma_asked(stealers.len(), second, after, found, offered, stealers);
            assert(second.ops.drop_last() =~= before.ops);
            assert(second.pops.drop_last() =~= before.pops);
        }
    }
}

/// A search between two polls, told by what it leaves behind. It asks the worker's own queue
/// first. If that gives a task, the task is found, and nobody else is asked. If not, it draws from
/// the shared queue; if that gives a batch, the first task of the batch is found, the others are
/// queued, and nobody else is asked. If not, it asks the other workers, each once and from the last
/// to the first, until one gives a task, which is found. Nothing is found only if all were asked
/// and none had a task.
pub proof fn law_own_queue_is_asked_first(
    before: Places,
    after: Places,
    found: Option<GPtr>,
    offered: Seq<GPtr>,
    stealers: Seq<Stealer<usize>>,
)
    requires
        stealers.len() <= usize::MAX,
        searched(search_order(false, stealers.len()), before, after, found, offered, stealers),
    ensures
        after.pops.len() == before.pops.len() + 1,
        after.pops.drop_last() == before.pops,
        after.pops.last() matches Some(task) ==> {
            &&& found == Some(task)
            &&& exists|i: int|
                0 <= i < before.pending.len() && #[trigger] before.pending[i] == task
                    && after.pending == before.pending.subrange(
                    i + 1,
                    before.pending.len() as int,
                )
            &&& after.put == before.put
            &&& after.ops == before.ops
            &&& after.probes == before.probes
        },
        after.pops.last() is None ==> {
            &&& after.ops.len() == before.ops.len() + 1
            &&& after.ops.drop_last() == before.ops
            &&& after.ops.last() is Draw
            &&& after.ops.last() matches SharedOp::Draw(Some(batch)) ==> {
                &&& batch.fits(offered)
                &&& found == Some(batch.tasks[0])
                &&& after.pending == batch.tasks.subrange(1, batch.tasks.len() as int)
                &&& after.put == before.put + batch.tasks.subrange(1, batch.tasks.len() as int)
                &&& after.probes == before.probes
            }
            &&& after.ops.last() == SharedOp::Draw(None) ==> {
                &&& after.pending.len() == 0
                &&& after.put == before.put
                &&& before.probes.len() <= after.probes.len()
                &&& after.probes.take(before.probes.len() as int) == before.probes
                &&& forall|k: int|
                    before.probes.len() <= k < after.probes.len() ==> (
                    #[trigger] after.probes[k]).0 == stealers.len() - 1 - (k - before.probes.len())
                        && (k < after.probes.len() - 1 ==> after.probes[k].1 is None)
                &&& found matches Some(task) ==> after.probes.len() > before.probes.len() && (
                after.probes.last().1 matches Some(batch) && batch.tasks == seq![task]
                    && batch.fits(stealer_order(stealers[after.probes.last().0])))
                &&& found is None ==> after.probes.len() == before.probes.len()
                    + stealers.len() && (
                stealers.len() > 0 ==> after.probes.last().1 is None)
            }
        },
{
    lemma_search_outcome(false, before, after, found, offered, stealers);
    if after.pops.last() is Some {
        lemma_taken(before.pending, after.pending, after.pops.last()->0);
    } else if after.ops.last() is Draw && after.ops.last()->Draw_0 is Some {
        let batch = after.ops.last()->Draw_0->0;
        assert(batch.tasks.skip(1) =~= batch.tasks.subrange(1, batch.tasks.len() as int));
    }
}

/// A search after a poll, told by what it leaves behind. It draws from the shared queue first. If
/// that gives a batch, the first task of the batch is found, the others are queued, and nobody else
/// is asked. If not, it asks the worker's own queue; if that gives a task, the task is found, and
/// nobody else is asked. If not, it asks the other workers, each once and from the last to the
/// first, until one gives a task, which is found. Nothing is found only if all were asked and none
/// had a task.
pub proof fn law_shared_queue_is_asked_first(
    before: Places,
    after: Places,
    found: Option<GPtr>,
    offered: Seq<GPtr>,
    stealers: Seq<Stealer<usize>>,
)
    requires
        stealers.len() <= usize::MAX,
        searched(search_order(true, stealers.len()), before, after, found, offered, stealers),
    ensures
        after.ops.len() == before.ops.len() + 1,
        after.ops.drop_last() == before.ops,
        after.ops.last() is Draw,
        after.ops.last() matches SharedOp::Draw(Some(batch)) ==> {
            &&& batch.fits(offered)
            &&& found == Some(batch.tasks[0])
            &&& after.pending == before.pending + batch.tasks.subrange(1, batch.tasks.len() as int)
            &&& after.put == before.put + batch.tasks.subrange(1, batch.tasks.len() as int)
            &&& after.pops == before.pops
            &&& after.probes == before.probes
        },
        after.ops.last() == SharedOp::Draw(None) ==> {
            &&& after.pops.len() == before.pops.len() + 1
            &&& after.pops.drop_last() == before.pops
            &&& after.pops.last() matches Some(task) ==> {
                &&& found == Some(task)
                &&& exists|i: int|
                    0 <= i < before.pending.len() && #[trigger] before.pending[i] == task
                        && after.pending == before.pending.subrange(
                        i + 1,
                        before.pending.len() as int,
                    )
                &&& after.put == before.put
                &&& after.probes == before.probes
            }
            &&& after.pops.last() is None ==> {
                &&& after.pending.len() == 0
                &&& after.put == before.put
                &&& before.probes.len() <= after.probes.len()
                &&& after.probes.take(before.probes.len() as int) == before.probes
                &&& forall|k: int|
                    before.probes.len() <= k < after.probes.len() ==> (
                    #[trigger] after.probes[k]).0 == stealers.len() - 1 - (k - before.probes.len())
                        && (k < after.probes.len() - 1 ==> after.probes[k].1 is None)
                &&& found matches Some(task) ==> after.probes.len() > before.probes.len() && (
                after.probes.last().1 matches Some(batch) && batch.tasks == seq![task]
                    && batch.fits(stealer_order(stealers[after.probes.last().0])))
                &&& found is None ==> after.probes.len() == before.probes.len()
                    + stealers.len() && (
                stealers.len() > 0 ==> after.probes.last().1 is None)
            }
        },
{
    lemma_search_outcome(true, before, after, found, offered, stealers);
    if after.ops.last()->Draw_0 is Some {
        let batch = after.ops.last()->Draw_0->0;
        assert(batch.tasks.skip(1) =~= batch.tasks.subrange(1, batch.tasks.len() as int));
    } else if after.pops.last() is Some {
        lemma_taken(before.pending, after.pending, after.pops.last()->0);
    }
}

proof fn lemma_taken(before: Seq<GPtr>, after: Seq<GPtr>, task: GPtr)
    requires
        taken(before, after, task),
    ensures
        exists|i: int|
            0 <= i < before.len() && #[trigger] before[i] == task && after == before.subrange(
                i + 1,
                before.len() as int,
            ),
{
    let i = choose|i: int|
        0 <= i < before.len() && #[trigger] before[i] == task && after == before.skip(i + 1);
    assert(before.skip(i + 1) =~= before.subrange(i + 1, before.len() as int));
    assert(before[i] == task);
}

/// What is found next, and where it was looked for: see the two laws on searches. Here it is said
/// of the function that searches, for the case between two polls and for the case after one.
pub proof fn law_next_task_is_found_in_order(
    polled: bool,
    local: &mut LocalQueue,
    shared: &mut SharedState<'_>,
    peers: &mut Peers,
    found: Option<GPtr>,
)
    requires
        old(peers).wf(),
        call_ensures(next_task, (polled, local, shared, peers), found),
    ensures
        old(local).wf() ==> call_requires(next_task, (polled, local, shared, peers)),
        final(local).wf(),
        final(local).looks() == old(local).looks(),
        final(shared).injector() == old(shared).injector(),
        final(shared).registry() == old(shared).registry(),
        final(peers).stealers() == old(peers).stealers(),
        // Only what is drawn besides the task that is found is put into the worker's own queue.
        final(local).order() == old(local).order(),
        final(local).order().take(final(local).placed() as int) == old(local).order().take(
            old(local).placed() as int,
        ) + (if final(shared).ops().len() > old(shared).ops().len() && final(shared).ops().last()
            != SharedOp::Draw(None) {
            final(shared).ops().last()->Draw_0->0.tasks.subrange(
                1,
                final(shared).ops().last()->Draw_0->0.tasks.len() as int,
            )
        } else {
            Seq::<GPtr>::empty()
        }),
        // The first place.
        !polled ==> final(local).pops().len() == old(local).pops().len() + 1,
        !polled && final(local).pops().last() is Some ==> found == final(local).pops().last()
            && final(shared).ops() == old(shared).ops()
                && final(peers).probes() == old(peers).probes(),
        polled ==> final(shared).ops().len() == old(shared).ops().len() + 1
            && final(shared).ops().drop_last() == old(shared).ops(),
        polled ==> (final(shared).ops().last() matches SharedOp::Draw(Some(batch)) ==> found
            == Some(batch.tasks[0]) && final(local).pending() == old(local).pending()
            + batch.tasks.subrange(1, batch.tasks.len() as int)
                && final(local).pops() == old(local).pops()
                && final(peers).probes() == old(peers).probes()),
        // The second place.
        !polled && final(local).pops().last() is None ==> final(shared).ops().len()
            == old(shared).ops().len() + 1 && final(shared).ops().drop_last()
            == old(shared).ops()
            && (final(shared).ops().last() matches SharedOp::Draw(Some(batch)) ==> found
            == Some(batch.tasks[0])
            && final(local).pending() == batch.tasks.subrange(1, batch.tasks.len() as int)
                && final(peers).probes() == old(peers).probes()),
        polled && final(shared).ops().last() == SharedOp::Draw(None) ==> final(local).pops().len()
            == old(local).pops().len() + 1 && (final(local).pops().last() is Some ==> found
            == final(local).pops().last() && final(peers).probes() == old(peers).probes()),
        // What is taken from the worker's own queue.
        final(local).pops().len() > old(local).pops().len() ==> {
            &&& final(local).pops().drop_last() == old(local).pops()
            &&& final(local).pops().last() matches Some(task) ==> exists|i: int|
                0 <= i < old(local).pending().len() && #[trigger] old(local).pending()[i] == task
                    && final(local).pending() == old(local).pending().subrange(
                    i + 1,
                    old(local).pending().len() as int,
                )
        },
        // The other places.
        final(local).pops().len() > old(local).pops().len() && final(local).pops().last() is None
            && final(shared).ops().len() > old(shared).ops().len() && final(shared).ops().last()
            == SharedOp::Draw(None) ==> {
            let was = old(peers).probes();
            let now = final(peers).probes();
            let count = old(peers).stealers().len();
            &&& final(local).pending().len() == 0
            &&& was.len() <= now.len()
            &&& now.take(was.len() as int) == was
            &&& forall|k: int|
                was.len() <= k < now.len() ==> (#[trigger] now[k]).0 == count - 1 - (k - was.len())
                    && (k < now.len() - 1 ==> now[k].1 is None)
            &&& found matches Some(task) ==> now.len() > was.len() && (now.last().1 matches Some(
                batch,
            ) && batch.tasks == seq![task])
            &&& found is None ==> now.len() == was.len() + count
                && (count > 0 ==> now.last().1 is None)
        },
        found is None ==> final(local).pops().len() > old(local).pops().len()
            && final(local).pops().last() is None
            && final(shared).ops().len() > old(shared).ops().len()
            && final(shared).ops().last() == SharedOp::Draw(None),
{
    let before = places(*old(local), *old(shared), *old(peers));
    let after = places(*final(local), *final(shared), *final(peers));
    let offered = injector_order(old(shared).injector());
    let stealers = old(peers).stealers();
    if polled {
        law_shared_queue_is_asked_first(before, after, found, offered, stealers);
    } else {
        law_own_queue_is_asked_first(before, after, found, offered, stealers);
    }
}

}

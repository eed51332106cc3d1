//! Setting up the worker threads.
use crate::queue::{lemma_other_stealers, other_stealers, stealer_order, GPtr, LocalQueue, SharedP};
use crossbeam_deque::Stealer;
use vstd::prelude::*;

verus! {

/// The largest number of workers that can be asked for, and the number of workers where
/// the machine does not say how many it can run at once.
pub const RR_THREADS_COUNT: usize = 4;

/// How many workers there are when `thcount` are asked for: that many, if it is a number
/// from one to the largest, else as many as the machine can run at once.
pub open spec fn worker_count(thcount: usize, parallelism: Option<usize>) -> usize {
    if 0 < thcount <= RR_THREADS_COUNT {
        thcount
    } else {
        match parallelism {
            Some(count) => count,
            None => RR_THREADS_COUNT,
        }
    }
}

/// Whether it takes the machine's word to tell how many workers there are when `thcount` are
/// asked for.
pub fn asks_the_machine(thcount: usize) -> (asks: bool)
    ensures
        asks == !(0 < thcount <= RR_THREADS_COUNT),
{
    0 == thcount || thcount > RR_THREADS_COUNT
}

/// The queues of a runtime: the one of each worker, and the table by which the workers
/// steal from each other.
pub struct Runtime {
    pub workers: Vec<LocalQueue>,
    pub shared: Vec<SharedP>,
}

/// Entry `i` of the table is numbered `i` and steals from the queue of worker `i`, which is
/// first-in first-out.
pub open spec fn is_table(shared: Seq<SharedP>, workers: Seq<LocalQueue>) -> bool {
    &&& shared.len() == workers.len()
    &&& forall|i: int|
        0 <= i < shared.len() ==> {
            &&& (#[trigger] shared[i]).id == i
            &&& shared[i].wf()
            &&& stealer_order(shared[i].stealer) == workers[i].order()
        }
}

/// The queues for a runtime of `thcount` workers on a machine that can run `parallelism`
/// threads at once.
pub fn build_runtime(thcount: usize, parallelism: Option<usize>) -> (runtime: Runtime)
    ensures
        runtime.workers.len() == worker_count(thcount, parallelism),
        is_table(runtime.shared@, runtime.workers@),
        forall|i: int|
            0 <= i < runtime.workers.len() ==> (#[trigger] runtime.workers[i]).wf()
                && runtime.workers[i].placed() == 0 && runtime.workers[i].pending() == Seq::<
                GPtr,
            >::empty() && runtime.workers[i].pops() == Seq::<Option<GPtr>>::empty()
                && runtime.workers[i].looks() == Seq::<bool>::empty(),
{
    let count: usize = if asks_the_machine(thcount) {
        match parallelism {
            Some(count) => count,
            None => RR_THREADS_COUNT,
        }
    } else {
        thcount
    };
    let mut workers: Vec<LocalQueue> = Vec::new();
    let mut shared: Vec<SharedP> = Vec::new();
    let mut id: usize = 0;
    while id < count
        invariant
            id <= count,
            workers.len() == id,
            is_table(shared@, workers@),
            forall|i: int|
                0 <= i < id ==> (#[trigger] workers[i]).wf() && workers[i].placed() == 0
                    && workers[i].pending() == Seq::<GPtr>::empty() && workers[i].pops() == Seq::<
                    Option<GPtr>,
                >::empty() && workers[i].looks() == Seq::<bool>::empty(),
        decreases count - id,
    {
        let worker = LocalQueue::new();
        shared.push(SharedP { id, stealer: worker.stealer() });
        workers.push(worker);
        id = id + 1;
    }
    Runtime { workers, shared }
}

/// The handles of a table in order.
pub open spec fn table_stealers(shared: Seq<SharedP>) -> Seq<Stealer<usize>> {
    shared.map_values(|entry: SharedP| entry.stealer)
}

/// Each worker can steal from all the others and not from itself: its handles are those of
/// the table, in order, without its own.
pub proof fn law_peers_are_all_others(
    shared: Seq<SharedP>,
    workers: Seq<LocalQueue>,
    id: usize,
)
    requires
        is_table(shared, workers),
        id < workers.len(),
    ensures
        other_stealers(shared, id) == table_stealers(shared).remove(id as int),
{
    lemma_others_up_to(shared, id, shared.len() as int);
    assert(shared.take(shared.len() as int) == shared);
    let kept = table_stealers(shared);
    assert(kept.take(id as int) + kept.subrange(id + 1, shared.len() as int) =~= kept.remove(
        id as int,
    ));
}

proof fn lemma_others_up_to(shared: Seq<SharedP>, id: usize, n: int)
    requires
        0 <= n <= shared.len(),
        id < shared.len(),
        forall|i: int| 0 <= i < shared.len() ==> (#[trigger] shared[i]).id == i,
    ensures
        other_stealers(shared.take(n), id) == (if n <= id {
            table_stealers(shared).take(n)
        } else {
            table_stealers(shared).take(id as int) + table_stealers(shared).subrange(id + 1, n)
        }),
    decreases n,
{
    let kept = table_stealers(shared);
    if n == 0 {
        reveal(Seq::filter);
        assert(other_stealers(shared.take(0), id) =~= kept.take(0));
    } else {
        lemma_others_up_to(shared, id, n - 1);
        lemma_other_stealers(shared, id, n - 1);
        assert(kept[n - 1] == shared[n - 1].stealer);
        if n <= id {
            assert(other_stealers(shared.take(n), id) =~= kept.take(n));
        } else {
            assert(other_stealers(shared.take(n), id) =~= kept.take(id as int) + kept.subrange(
                id + 1,
                n,
            ));
        }
    }
}

/// A runtime has as many workers as asked for if that is one to four, else as many as the machine
/// can run at once, else four. Each worker has an empty first-in first-out queue, and the entry of
/// the table with its number steals from that queue. The machine's word counts exactly where the
/// number asked for does not.
pub proof fn law_every_worker_has_its_queue(
    thcount: usize,
    parallelism: Option<usize>,
    runtime: Runtime,
    asks: bool,
)
    requires
        call_ensures(build_runtime, (thcount, parallelism), runtime),
        call_ensures(asks_the_machine, (thcount,), asks),
    ensures
        call_requires(build_runtime, (thcount, parallelism)),
        call_requires(asks_the_machine, (thcount,)),
        1 <= thcount <= 4 ==> runtime.workers@.len() == thcount && !asks,
        thcount == 0 || thcount > 4 ==> asks && runtime.workers@.len() == (match parallelism {
            Some(count) => count,
            None => 4,
        }),
        runtime.shared@.len() == runtime.workers@.len(),
        forall|i: int|
            #![trigger runtime.workers@[i]]
            #![trigger runtime.shared@[i]]
            0 <= i < runtime.workers@.len() ==> {
                &&& runtime.workers@[i].wf()
                &&& runtime.workers@[i].placed() == 0
                &&& runtime.workers@[i].pending().len() == 0
                &&& runtime.shared@[i].id == i
                &&& runtime.shared@[i].wf()
                &&& stealer_order(runtime.shared@[i].stealer) == runtime.workers@[i].order()
            },
{
}

}

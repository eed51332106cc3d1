//! The queues that carry runnable tasks: one deque per worker thread, and the handles by which
//! workers steal from each other.
//!
//! A deque is used by several threads at once, so what an attempt to take a task comes back with
//! is not known before. The contracts say what the thread that makes the attempt can rely on, and
//! they keep a record of its attempts. The records exist for the proofs alone.
use crossbeam_deque::{Steal, Stealer, Worker};
use vstd::prelude::*;

verus! {

/// A task handle: the address of the task's control block. Zero is no task.
pub type GPtr = usize;

/// Declares `crossbeam_deque::Worker`, the owner's end of a deque.
#[verifier::external_type_specification]
#[verifier::external_body]
#[verifier::reject_recursive_types(T)]
pub struct ExWorker<T>(crossbeam_deque::Worker<T>);

/// Declares `crossbeam_deque::Stealer`, a thief's end of a deque.
#[verifier::external_type_specification]
#[verifier::external_body]
#[verifier::reject_recursive_types(T)]
pub struct ExStealer<T>(crossbeam_deque::Stealer<T>);

/// The tasks that the owner of a deque has put in and has not seen leave, the
/// oldest first. Thieves take from the front without telling the owner, so
/// what the deque holds at any moment is a suffix of this sequence.
pub uninterp spec fn worker_pending(worker: Worker<usize>) -> Seq<usize>;

/// Whether the deque was made as a first-in first-out queue.
pub uninterp spec fn worker_fifo(worker: Worker<usize>) -> bool;

/// Every task that is ever put into the deque behind this worker, in the order in which they
/// are put in.
pub uninterp spec fn worker_order(worker: Worker<usize>) -> Seq<usize>;

/// How many tasks have been put into the deque so far.
pub uninterp spec fn worker_placed(worker: Worker<usize>) -> nat;

/// Every task that is ever put into the deque behind this stealer, in the order in which they
/// are put in.
pub uninterp spec fn stealer_order(stealer: Stealer<usize>) -> Seq<usize>;

/// Whether the deque behind this stealer was made as a first-in first-out queue.
pub uninterp spec fn stealer_fifo(stealer: Stealer<usize>) -> bool;

/// Tasks that stand next to each other in the order in which a queue's tasks are put in, the
/// first of them at position `at`.
#[verifier::ext_equal]
pub struct Batch {
    pub at: int,
    pub tasks: Seq<GPtr>,
}

impl Batch {
    /// The position behind the last task.
    pub open spec fn end(self) -> int {
        self.at + self.tasks.len()
    }

    /// There is a task, and the tasks stand in `order` where the batch says.
    pub open spec fn fits(self, order: Seq<GPtr>) -> bool {
        &&& self.tasks.len() > 0
        &&& 0 <= self.at
        &&& self.end() <= order.len()
        &&& self.tasks == order.subrange(self.at, self.end())
    }
}

/// The position behind the last of several batches.
pub open spec fn end_of(batches: Seq<Batch>) -> int {
    if batches.len() == 0 {
        0
    } else {
        batches.last().end()
    }
}

/// The batches stand in `order` one behind the other.
pub open spec fn forward(order: Seq<GPtr>, batches: Seq<Batch>) -> bool {
    forall|i: int|
        0 <= i < batches.len() ==> (#[trigger] batches[i]).fits(order) && end_of(batches.take(i))
            <= batches[i].at
}

/// One more batch behind the others.
pub(crate) proof fn lemma_forward_push(order: Seq<GPtr>, batches: Seq<Batch>, batch: Batch)
    requires
        forward(order, batches),
        batch.fits(order),
        end_of(batches) <= batch.at,
    ensures
        forward(order, batches.push(batch)),
{
    let all = batches.push(batch);
    assert forall|i: int| 0 <= i < all.len() implies (#[trigger] all[i]).fits(order) && end_of(
        all.take(i),
    ) <= all[i].at by {
        if i < batches.len() {
            assert(batches[i] == all[i]);
            assert(all.take(i) =~= batches.take(i));
        } else {
            assert(all.take(i) =~= batches);
        }
    }
}

/// What stands further in front was taken, or put in, earlier: of two batches of one thread the
/// earlier one is wholly in front of the later one.
pub proof fn law_earlier_is_in_front(order: Seq<GPtr>, batches: Seq<Batch>, i: int, j: int)
    requires
        forward(order, batches),
        0 <= i < j < batches.len(),
    ensures
        batches[i].end() <= batches[j].at,
    decreases j - i,
{
    assert(batches[j].fits(order));
    assert(batches.take(j).last() == batches[j - 1]);
    if i < j - 1 {
        law_earlier_is_in_front(order, batches, i, j - 1);
        assert(batches[j - 1].fits(order));
    }
}

/// The tasks of several batches, one batch after the other.
pub open spec fn all_tasks(batches: Seq<Batch>) -> Seq<GPtr>
    decreases batches.len(),
{
    if batches.len() == 0 {
        Seq::empty()
    } else {
        all_tasks(batches.drop_last()) + batches.last().tasks
    }
}

/// Whether `takes` is all that is taken from a queue, by its owner and by thieves, in the order in
/// which it happens: each begins with the oldest task that those before it have left.
pub open spec fn is_take_history(order: Seq<GPtr>, takes: Seq<Batch>) -> bool {
    forall|i: int|
        0 <= i < takes.len() ==> (#[trigger] takes[i]).fits(order) && takes[i].at == all_tasks(
            takes.take(i),
        ).len()
}

/// Tasks leave a queue in the order in which they were put in, none of them twice and none left
/// out, whichever threads take them: what has been taken is the front of what has been put in.
pub proof fn law_leave_in_the_order_they_came(order: Seq<GPtr>, takes: Seq<Batch>)
    requires
        is_take_history(order, takes),
    ensures
        all_tasks(takes).len() <= order.len(),
        all_tasks(takes) == order.take(all_tasks(takes).len() as int),
    decreases takes.len(),
{
    if takes.len() > 0 {
        let earlier = takes.drop_last();
        let last = takes[takes.len() - 1];
        assert(last.fits(order));
        assert(takes.take(takes.len() - 1) =~= earlier);
        assert forall|i: int| 0 <= i < earlier.len() implies (#[trigger] earlier[i]).fits(order)
            && earlier[i].at == all_tasks(earlier.take(i)).len() by {
            assert(takes[i].fits(order));
            assert(earlier.take(i) =~= takes.take(i));
        }
        law_leave_in_the_order_they_came(order, earlier);
        assert(all_tasks(takes) =~= order.take(all_tasks(takes).len() as int));
    }
}

/// What one attempt to steal came back with.
#[derive(Clone, Copy, Debug, PartialEq, Eq, Structural)]
pub enum Stolen {
    /// The queue was empty.
    Empty,
    /// A task was taken.
    Success(GPtr),
    /// Another thread interfered; nothing was taken.
    Retry,
}

impl Stolen {
    /// The task taken, if one was. An attempt that would have to be retried
    /// counts as having found nothing.
    pub open spec fn task(self) -> Option<GPtr> {
        match self {
            Stolen::Success(task) => Some(task),
            _ => None,
        }
    }

    /// The task taken, if one was.
    pub fn success(self) -> (task: Option<GPtr>)
        ensures
            task == self.task(),
    {
        match self {
            Stolen::Success(task) => Some(task),
            _ => None,
        }
    }
}

/// Wraps `Worker::new_fifo`: the new deque is first-in first-out and its owner
/// has put nothing in.
#[verifier::external_body]
fn worker_new() -> (worker: Worker<usize>)
    ensures
        worker_fifo(worker),
        worker_placed(worker) == 0,
        worker_pending(worker) == Seq::<usize>::empty(),
{
    Worker::new_fifo()
}

/// Wraps `Worker::push`: the task goes to the back.
#[verifier::external_body]
fn worker_push(queue: &mut LocalQueue, task: usize)
    requires
        old(queue).wf(),
    ensures
        final(queue).wf(),
        final(queue).order() == old(queue).order(),
        final(queue).placed() == old(queue).placed() + 1,
        final(queue).pops() == old(queue).pops(),
        final(queue).looks() == old(queue).looks(),
        final(queue).pending() == old(queue).pending().push(task),
{
    queue.worker.push(task)
}

/// Wraps `Worker::pop` on a first-in first-out deque. The task that comes out is
/// the oldest one that no thief has taken, so everything older has left too.
/// When nothing comes out, thieves have taken all that the owner had put in.
/// What came out is entered in the record of pops.
#[verifier::external_body]
fn worker_pop(queue: &mut LocalQueue) -> (task: Option<usize>)
    requires
        old(queue).wf(),
    ensures
        final(queue).wf(),
        final(queue).order() == old(queue).order(),
        final(queue).placed() == old(queue).placed(),
        final(queue).looks() == old(queue).looks(),
        final(queue).pops() == old(queue).pops().push(task),
        match task {
            Some(t) => taken(old(queue).pending(), final(queue).pending(), t),
            None => final(queue).pending() == Seq::<usize>::empty(),
        },
{
    queue.worker.pop()
}

/// Wraps `Worker::is_empty`. A deque into which the owner has put nothing that it has not seen
/// leave is empty; one with such tasks may be, if thieves took them. The answer is entered in
/// the record of looks.
#[verifier::external_body]
fn worker_is_empty(queue: &mut LocalQueue) -> (empty: bool)
    ensures
        final(queue).wf() == old(queue).wf(),
        final(queue).order() == old(queue).order(),
        final(queue).placed() == old(queue).placed(),
        final(queue).pending() == old(queue).pending(),
        final(queue).pops() == old(queue).pops(),
        final(queue).looks() == old(queue).looks().push(empty),
        old(queue).pending().len() == 0 ==> empty,
{
    queue.worker.is_empty()
}

/// Wraps `Worker::stealer`: the handle steals from this deque.
#[verifier::external_body]
fn worker_stealer(worker: &Worker<usize>) -> (stealer: Stealer<usize>)
    ensures
        stealer_order(stealer) == worker_order(*worker),
        stealer_fifo(stealer) == worker_fifo(*worker),
{
    worker.stealer()
}

/// Wraps `Stealer::clone`: the clone is a handle to the same deque.
#[verifier::external_body]
fn stealer_clone(stealer: &Stealer<usize>) -> (copy: Stealer<usize>)
    ensures
        copy == *stealer,
{
    stealer.clone()
}

/// Wraps `Stealer::steal` on the handle at `index`, of a first-in first-out deque. A task that is
/// taken is the one at the front of that deque: it is entered in the record of attempts with its
/// position among all tasks that are ever put in, and later attempts through this handle get
/// tasks further back. Whether the deque holds a task at that moment, and how many have left
/// before, is up to the other threads.
#[verifier::external_body]
fn stealer_steal(peers: &mut Peers, index: usize) -> (stolen: Stolen)
    requires
        old(peers).wf(),
        index < old(peers).stealers().len(),
    ensures
        final(peers).stealers() == old(peers).stealers(),
        match stolen.task() {
            Some(task) => exists|batch: Batch| #[trigger]
                steals(
                    stealer_order(old(peers).stealers()[index as int]),
                    old(peers).probes(),
                    index as int,
                    task,
                    batch,
                ) && final(peers).probes() == old(peers).probes().push((index as int, Some(batch))),
            None => final(peers).probes() == old(peers).probes().push((index as int, None)),
        },
{
    match peers.stealers[index].steal() {
        Steal::Empty => Stolen::Empty,
        Steal::Success(task) => Stolen::Success(task),
        Steal::Retry => Stolen::Retry,
    }
}

/// What was stolen through the handle at `index`, oldest first.
pub open spec fn thefts_of(probes: Seq<(int, Option<Batch>)>, index: int) -> Seq<Batch>
    decreases probes.len(),
{
    if probes.len() == 0 {
        Seq::empty()
    } else {
        let earlier = thefts_of(probes.drop_last(), index);
        match probes.last() {
            (i, Some(batch)) => if i == index {
                earlier.push(batch)
            } else {
                earlier
            },
            _ => earlier,
        }
    }
}

/// `batch` is one task, `task`, of a queue whose tasks are put in in this order, and it stands
/// behind all that was stolen through the handle at `index` before.
pub open spec fn steals(
    order: Seq<GPtr>,
    probes: Seq<(int, Option<Batch>)>,
    index: int,
    task: GPtr,
    batch: Batch,
) -> bool {
    &&& batch.tasks == seq![task]
    &&& batch.fits(order)
    &&& end_of(thefts_of(probes, index)) <= batch.at
}

/// `task` was the oldest task left of `before`, and `after` is what followed it.
pub open spec fn taken(before: Seq<GPtr>, after: Seq<GPtr>, task: GPtr) -> bool {
    exists|i: int| 0 <= i < before.len() && #[trigger] before[i] == task
        && after == before.skip(i + 1)
}

/// The run queue of one worker thread.
pub struct LocalQueue {
    pub(crate) worker: Worker<usize>,
    pops: Ghost<Seq<Option<GPtr>>>,
    looks: Ghost<Seq<bool>>,
}

impl LocalQueue {
    /// The queue is first-in first-out, and what may be left in it is the end of what was put in.
    pub open spec fn wf(&self) -> bool {
        &&& self.fifo()
        &&& self.pending().len() <= self.placed() <= self.order().len()
        &&& self.pending() == self.order().subrange(
            self.placed() - self.pending().len(),
            self.placed() as int,
        )
    }

    /// Whether the queue was made as a first-in first-out queue.
    pub closed spec fn fifo(&self) -> bool {
        worker_fifo(self.worker)
    }

    /// The tasks that this thread has put in and has not seen leave, oldest first.
    pub closed spec fn pending(&self) -> Seq<GPtr> {
        worker_pending(self.worker)
    }

    /// Every task that is ever put into the queue, in this order.
    pub closed spec fn order(&self) -> Seq<GPtr> {
        worker_order(self.worker)
    }

    /// How many tasks have been put into the queue so far.
    pub closed spec fn placed(&self) -> nat {
        worker_placed(self.worker)
    }

    /// The tasks that have been put into the queue so far, oldest first.
    pub open spec fn put(&self) -> Seq<GPtr> {
        self.order().take(self.placed() as int)
    }

    /// What each attempt of the owner to take a task came back with, oldest first.
    pub closed spec fn pops(&self) -> Seq<Option<GPtr>> {
        self.pops@
    }

    /// What each look whether the queue is empty has seen, oldest first.
    pub closed spec fn looks(&self) -> Seq<bool> {
        self.looks@
    }

    /// An empty queue.
    pub fn new() -> (queue: Self)
        ensures
            queue.wf(),
            queue.placed() == 0,
            queue.pending() == Seq::<GPtr>::empty(),
            queue.pops() == Seq::<Option<GPtr>>::empty(),
            queue.looks() == Seq::<bool>::empty(),
    {
        let queue = LocalQueue {
            worker: worker_new(),
            pops: Ghost(Seq::empty()),
            looks: Ghost(Seq::empty()),
        };
        assert(queue.pending() =~= queue.order().subrange(0, 0));
        queue
    }

    /// Puts a task at the back.
    pub fn push(&mut self, task: GPtr)
        requires
            old(self).wf(),
        ensures
            final(self).wf(),
            final(self).order() == old(self).order(),
            final(self).placed() == old(self).placed() + 1,
            final(self).pops() == old(self).pops(),
            final(self).looks() == old(self).looks(),
            final(self).pending() == old(self).pending().push(task),
            final(self).order()[old(self).placed() as int] == task,
            final(self).put() == old(self).put().push(task),
    {
        worker_push(self, task);
        assert(self.pending().last() == task);
        assert(self.put() =~= old(self).put().push(task));
    }

    /// Takes the oldest task that is left.
    pub fn pop(&mut self) -> (task: Option<GPtr>)
        requires
            old(self).wf(),
        ensures
            final(self).wf(),
            final(self).order() == old(self).order(),
            final(self).placed() == old(self).placed(),
            final(self).looks() == old(self).looks(),
            final(self).pops() == old(self).pops().push(task),
            match task {
                Some(t) => taken(old(self).pending(), final(self).pending(), t)
                    && final(self).order()[final(self).placed() - final(self).pending().len() - 1]
                    == t,
                None => final(self).pending() == Seq::<GPtr>::empty(),
            },
    {
        worker_pop(self)
    }

    /// Looks whether the queue is empty.
    pub fn is_empty(&mut self) -> (empty: bool)
        ensures
            final(self).wf() == old(self).wf(),
            final(self).order() == old(self).order(),
            final(self).placed() == old(self).placed(),
            final(self).pending() == old(self).pending(),
            final(self).pops() == old(self).pops(),
            final(self).looks() == old(self).looks().push(empty),
            old(self).pending().len() == 0 ==> empty,
    {
        worker_is_empty(self)
    }

    /// A handle by which other threads steal from this queue.
    pub fn stealer(&self) -> (stealer: Stealer<usize>)
        ensures
            stealer_order(stealer) == self.order(),
            stealer_fifo(stealer) == self.fifo(),
    {
        worker_stealer(&self.worker)
    }
}

/// One worker's entry in the table that all workers share.
pub struct SharedP {
    pub id: usize,
    pub stealer: Stealer<usize>,
}

impl SharedP {
    /// The handle steals from a first-in first-out queue.
    pub open spec fn wf(&self) -> bool {
        stealer_fifo(self.stealer)
    }
}

/// The handles by which one worker steals from the others.
pub struct Peers {
    stealers: Vec<Stealer<usize>>,
    probes: Ghost<Seq<(int, Option<Batch>)>>,
}

/// The entries of `shared` that belong to other workers than `id`, in order.
pub open spec fn other_stealers(shared: Seq<SharedP>, id: usize) -> Seq<Stealer<usize>> {
    shared.filter(|entry: SharedP| entry.id != id).map_values(|entry: SharedP| entry.stealer)
}

/// The handles up to entry `i` of a table, by those before it.
pub(crate) proof fn lemma_other_stealers(shared: Seq<SharedP>, id: usize, i: int)
    requires
        0 <= i < shared.len(),
    ensures
        other_stealers(shared.take(i + 1), id) == (if shared[i].id != id {
            other_stealers(shared.take(i), id).push(shared[i].stealer)
        } else {
            other_stealers(shared.take(i), id)
        }),
{
    reveal(Seq::filter);
    assert(shared.take(i + 1).drop_last() == shared.take(i));
    assert(shared.take(i + 1).last() == shared[i]);
    let others = other_stealers(shared.take(i + 1), id);
    if shared[i].id != id {
        assert(others =~= other_stealers(shared.take(i), id).push(shared[i].stealer));
    }
}

impl Peers {
    /// The handles steal from first-in first-out queues, and there are no more of them than a
    /// vector holds.
    pub open spec fn wf(&self) -> bool {
        &&& self.stealers().len() <= usize::MAX
        &&& forall|i: int|
            0 <= i < self.stealers().len() ==> stealer_fifo(#[trigger] self.stealers()[i])
    }

    /// The handles.
    pub closed spec fn stealers(&self) -> Seq<Stealer<usize>> {
        self.stealers@
    }

    /// Which handle each attempt to steal went to and what came back, oldest first.
    pub closed spec fn probes(&self) -> Seq<(int, Option<Batch>)> {
        self.probes@
    }

    /// Clones the handles of every worker but `id`, in the order of the table.
    pub fn new(id: usize, shared: &Vec<SharedP>) -> (peers: Self)
        requires
            forall|i: int| 0 <= i < shared.len() ==> (#[trigger] shared[i]).wf(),
        ensures
            peers.wf(),
            peers.stealers() == other_stealers(shared@, id),
            peers.probes() == Seq::<(int, Option<Batch>)>::empty(),
    {
        let mut stealers: Vec<Stealer<usize>> = Vec::new();
        let mut i: usize = 0;
        while i < shared.len()
            invariant
                i <= shared.len(),
                stealers@ == other_stealers(shared@.take(i as int), id),
                forall|k: int| 0 <= k < shared.len() ==> (#[trigger] shared[k]).wf(),
                forall|k: int| 0 <= k < stealers.len() ==> stealer_fifo(#[trigger] stealers[k]),
            decreases shared.len() - i,
        {
            proof {
                lemma_other_stealers(shared@, id, i as int);
            }
            if shared[i].id != id {
                stealers.push(stealer_clone(&shared[i].stealer));
            }
            i = i + 1;
        }
        assert(shared@.take(i as int) == shared@);
        Peers { stealers, probes: Ghost(Seq::empty()) }
    }

    /// The number of handles.
    pub fn len(&self) -> (len: usize)
        ensures
            len == self.stealers().len(),
    {
        self.stealers.len()
    }

    /// Tries to steal one task through the handle at `index`.
    pub fn steal(&mut self, index: usize) -> (task: Option<GPtr>)
        requires
            old(self).wf(),
            index < old(self).stealers().len(),
        ensures
            final(self).wf(),
            final(self).stealers() == old(self).stealers(),
            match task {
                Some(t) => exists|batch: Batch| #[trigger]
                    steals(
                        stealer_order(old(self).stealers()[index as int]),
                        old(self).probes(),
                        index as int,
                        t,
                        batch,
                    ) && final(self).probes() == old(self).probes().push(
                        (index as int, Some(batch)),
                    ),
                None => final(self).probes() == old(self).probes().push((index as int, None)),
            },
    {
        stealer_steal(self, index).success()
    }
}

/// A task that goes to the back of a queue comes out after all that were waiting: what is
/// taken next is one of those, and the task keeps its place behind the others; or they have
/// all left, and it is the task itself.
pub proof fn law_waits_its_turn(waiting: Seq<GPtr>, task: GPtr, after: Seq<GPtr>, next: GPtr)
    requires
        taken(waiting.push(task), after, next),
    ensures
        ({
            ||| after.len() > 0 && after.last() == task && taken(waiting, after.drop_last(), next)
            ||| next == task && after.len() == 0
        }),
{
    let all = waiting.push(task);
    let i = choose|i: int| 0 <= i < all.len() && #[trigger] all[i] == next
        && after == all.skip(i + 1);
    if i < waiting.len() {
        assert(after.drop_last() =~= waiting.skip(i + 1));
        assert(waiting[i] == next);
    }
}

/// What is left in a queue after a task was taken is what was behind it, in the same order.
pub proof fn law_order_is_kept(before: Seq<GPtr>, after: Seq<GPtr>, task: GPtr)
    requires
        taken(before, after, task),
    ensures
        after.len() < before.len(),
        after == before.skip(before.len() - after.len()),
        before[before.len() - after.len() - 1] == task,
{
}

/// Only a success carries a task.
pub proof fn law_only_a_success_carries_a_task(stolen: Stolen, task: Option<GPtr>)
    requires
        call_ensures(Stolen::success, (stolen,), task),
    ensures
        call_requires(Stolen::success, (stolen,)),
        task is Some <==> stolen is Success,
        task matches Some(t) ==> stolen == Stolen::Success(t),
{
}

/// A new queue is empty. A task that is put in goes to the back, once, and nothing else changes.
pub proof fn law_a_task_is_put_at_the_back(made: LocalQueue, queue: &mut LocalQueue, task: GPtr)
    requires
        call_ensures(LocalQueue::new, (), made),
        call_ensures(LocalQueue::push, (queue, task), ()),
    ensures
        made.wf() && made.pending().len() == 0 && made.placed() == 0,
        old(queue).wf() ==> call_requires(LocalQueue::push, (queue, task)),
        final(queue).wf(),
        final(queue).pending() == old(queue).pending().push(task),
        final(queue).placed() == old(queue).placed() + 1,
        final(queue).order() == old(queue).order(),
        final(queue).order()[old(queue).placed() as int] == task,
        final(queue).pops() == old(queue).pops(),
        final(queue).looks() == old(queue).looks(),
{
}

/// The owner takes the oldest task that is left, and those behind it stay in their order; none
/// comes only if all have left. What came out is entered in the record of pops.
pub proof fn law_the_oldest_task_is_taken(queue: &mut LocalQueue, task: Option<GPtr>)
    requires
        call_ensures(LocalQueue::pop, (queue,), task),
    ensures
        old(queue).wf() ==> call_requires(LocalQueue::pop, (queue,)),
        final(queue).wf(),
        final(queue).pops() == old(queue).pops().push(task),
        final(queue).looks() == old(queue).looks(),
        final(queue).placed() == old(queue).placed(),
        task is None ==> final(queue).pending().len() == 0,
        task matches Some(t) ==> ({
            let left = final(queue).pending().len();
            let all = old(queue).pending();
            &&& left < all.len()
            &&& all[all.len() - left - 1] == t
            &&& final(queue).pending() == all.subrange(all.len() - left, all.len() as int)
        }),
{
    if task is Some {
        let all = old(queue).pending();
        law_order_is_kept(all, final(queue).pending(), task->0);
        assert(all.skip(all.len() - final(queue).pending().len()) =~= all.subrange(
            all.len() - final(queue).pending().len(),
            all.len() as int,
        ));
    }
}

/// A look changes nothing but the record of looks, and sees no task where none can be left.
pub proof fn law_a_look_takes_nothing(queue: &mut LocalQueue, empty: bool)
    requires
        call_ensures(LocalQueue::is_empty, (queue,), empty),
    ensures
        call_requires(LocalQueue::is_empty, (queue,)),
        final(queue).pending() == old(queue).pending(),
        final(queue).pops() == old(queue).pops(),
        final(queue).placed() == old(queue).placed(),
        final(queue).looks() == old(queue).looks().push(empty),
        old(queue).pending().len() == 0 ==> empty,
{
}

/// A worker's handles are those of the entries with another number than its own, in the order of
/// the table.
pub proof fn law_handles_are_those_of_the_others(id: usize, shared: &Vec<SharedP>, peers: Peers)
    requires
        call_ensures(Peers::new, (id, shared), peers),
    ensures
        (forall|i: int| 0 <= i < shared@.len() ==> (#[trigger] shared@[i]).wf()) ==> call_requires(
            Peers::new,
            (id, shared),
        ),
        peers.probes().len() == 0,
        peers.stealers() == shared@.filter(|entry: SharedP| entry.id != id).map_values(
            |entry: SharedP| entry.stealer,
        ),
{
}

/// An attempt to steal goes to the handle that was asked for, and to no other. A task that comes
/// is one that was put into that handle's queue, and it stands behind all that came from there
/// before.
pub proof fn law_steals_where_it_is_told(peers: &mut Peers, index: usize, task: Option<GPtr>)
    requires
        call_ensures(Peers::steal, (peers, index), task),
    ensures
        old(peers).wf() && index < old(peers).stealers().len() ==> call_requires(
            Peers::steal,
            (peers, index),
        ),
        final(peers).stealers() == old(peers).stealers(),
        final(peers).probes().len() == old(peers).probes().len() + 1,
        final(peers).probes().drop_last() == old(peers).probes(),
        final(peers).probes().last().0 == index,
        task is None <==> final(peers).probes().last().1 is None,
        task matches Some(t) ==> ({
            let batch = final(peers).probes().last().1->0;
            let order = stealer_order(old(peers).stealers()[index as int]);
            &&& batch.tasks == seq![t]
            &&& 0 <= batch.at < order.len()
            &&& order[batch.at] == t
            &&& end_of(thefts_of(old(peers).probes(), index as int)) <= batch.at
        }),
{
    assert(final(peers).probes().drop_last() =~= old(peers).probes());
    if task is Some {
        let batch = final(peers).probes().last().1->0;
        let order = stealer_order(old(peers).stealers()[index as int]);
        assert(batch.tasks[0] == order.subrange(batch.at, batch.end())[0]);
    }
}

/// A handle steals from the queue that it was made from, and a worker has as many handles as it
/// says.
pub proof fn law_a_handle_belongs_to_its_queue(
    queue: &LocalQueue,
    stealer: Stealer<usize>,
    peers: &Peers,
    len: usize,
)
    requires
        call_ensures(LocalQueue::stealer, (queue,), stealer),
        call_ensures(Peers::len, (peers,), len),
    ensures
        call_requires(LocalQueue::stealer, (queue,)),
        call_requires(Peers::len, (peers,)),
        stealer_order(stealer) == queue.order(),
        queue.wf() ==> stealer_fifo(stealer),
        len == peers.stealers().len(),
{
}

}

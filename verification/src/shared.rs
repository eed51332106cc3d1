//! What all threads share: the queue of new tasks and the mask of idle workers.
use crate::queue::{end_of, Batch, GPtr, LocalQueue, Stolen};
use crate::registry::Registry;
use crossbeam_deque::{Injector, Steal};
use std::sync::atomic::Ordering;
use vstd::prelude::*;

verus! {

/// Declares `crossbeam_deque::Injector`, the queue that all threads share.
#[verifier::external_type_specification]
#[verifier::external_body]
#[verifier::reject_recursive_types(T)]
pub struct ExInjector<T>(crossbeam_deque::Injector<T>);

/// Every task that is ever put into this injector, in the order in which they are put in.
pub uninterp spec fn injector_order(injector: Injector<usize>) -> Seq<usize>;

/// How strictly an access to the mask is ordered among the other accesses to memory.
#[derive(Clone, Copy, Debug, PartialEq, Eq, Structural)]
pub enum MaskOrder {
    Release,
    SeqCst,
}

/// One access to what all threads share. Those to the mask are single atomic steps, and
/// `found` is the mask that the step found in place.
pub enum SharedOp {
    /// A task was put into the queue, at this position in the order of all its tasks.
    Push { task: GPtr, at: int },
    /// An attempt to draw from the queue took these tasks out of it.
    Draw(Option<Batch>),
    /// The mask was read.
    Load(u64),
    /// The mask was joined with `bits`.
    Or { bits: u64, found: u64 },
    /// The mask was cut down to `bits`.
    And { bits: u64, found: u64, order: MaskOrder },
}

/// One thread's handle to what all threads share.
pub struct SharedState<'a> {
    injector: &'a Injector<usize>,
    registry: &'a Registry,
    ops: Ghost<Seq<SharedOp>>,
}

/// What was put into the queue, oldest first.
pub open spec fn pushes_of(ops: Seq<SharedOp>) -> Seq<Batch>
    decreases ops.len(),
{
    if ops.len() == 0 {
        Seq::empty()
    } else {
        let earlier = pushes_of(ops.drop_last());
        match ops.last() {
            SharedOp::Push { task, at } => earlier.push(Batch { at, tasks: seq![task] }),
            _ => earlier,
        }
    }
}

/// What was drawn from the queue, oldest first.
pub open spec fn draws_of(ops: Seq<SharedOp>) -> Seq<Batch>
    decreases ops.len(),
{
    if ops.len() == 0 {
        Seq::empty()
    } else {
        let earlier = draws_of(ops.drop_last());
        match ops.last() {
            SharedOp::Draw(Some(batch)) => earlier.push(batch),
            _ => earlier,
        }
    }
}

/// `task` stands at position `at` in the order of all tasks of the queue, behind all that was
/// put in through the same handle before.
pub open spec fn pushes_at(order: Seq<GPtr>, ops: Seq<SharedOp>, task: GPtr, at: int) -> bool {
    &&& (Batch { at, tasks: seq![task] }).fits(order)
    &&& end_of(pushes_of(ops)) <= at
}

/// One access, which puts `task` into the queue, leads from `before` to `after`.
pub open spec fn pushed(
    order: Seq<GPtr>,
    before: Seq<SharedOp>,
    after: Seq<SharedOp>,
    task: GPtr,
) -> bool {
    exists|at: int| #[trigger]
        pushes_at(order, before, task, at) && after == before.push(SharedOp::Push { task, at })
}

/// `batch` stands in the queue behind all that was drawn through the same handle before. Its
/// first task is `task`, and the others, in their order, are all that was added to the queue that
/// was `pending` and is `then_pending`.
pub open spec fn draws(
    order: Seq<GPtr>,
    ops: Seq<SharedOp>,
    task: GPtr,
    pending: Seq<GPtr>,
    then_pending: Seq<GPtr>,
    batch: Batch,
) -> bool {
    &&& batch.fits(order)
    &&& end_of(draws_of(ops)) <= batch.at
    &&& batch.tasks[0] == task
    &&& then_pending == pending + batch.tasks.skip(1)
}

/// Wraps `Injector::push`. The task goes to the back: it is entered in the record with its
/// position among all tasks that are ever put in, and later tasks through this handle come
/// further back. How many tasks other threads put in before it is up to them, and so is when it
/// comes out again, and where.
#[verifier::external_body]
fn injector_push(shared: &mut SharedState<'_>, task: usize)
    ensures
        final(shared).injector() == old(shared).injector(),
        final(shared).registry() == old(shared).registry(),
        pushed(
            injector_order(old(shared).injector()),
            old(shared).ops(),
            final(shared).ops(),
            task,
        ),
{
    shared.injector.push(task)
}

/// Wraps `Injector::steal_batch_and_pop` into a first-in first-out deque. On success the tasks
/// at the front of the shared queue are taken, some number of them: the first is handed out, and
/// the others go to the back of the deque in their order. They are entered in the record with
/// their position among all tasks that are ever put in, and later draws through this handle get
/// tasks further back. Without success the deque is left alone. How many tasks are taken, and how
/// many have left before, is up to the other threads.
#[verifier::external_body]
fn injector_steal_batch_and_pop(shared: &mut SharedState<'_>, dest: &mut LocalQueue) -> (stolen:
    Stolen)
    requires
        old(dest).wf(),
    ensures
        final(shared).injector() == old(shared).injector(),
        final(shared).registry() == old(shared).registry(),
        final(dest).wf(),
        final(dest).order() == old(dest).order(),
        final(dest).placed() == old(dest).placed()
            + final(dest).pending().len() - old(dest).pending().len(),
        final(dest).pops() == old(dest).pops(),
        final(dest).looks() == old(dest).looks(),
        match stolen.task() {
            Some(task) => exists|batch: Batch| #[trigger]
                draws(
                    injector_order(old(shared).injector()),
                    old(shared).ops(),
                    task,
                    old(dest).pending(),
                    final(dest).pending(),
                    batch,
                ) && final(shared).ops() == old(shared).ops().push(SharedOp::Draw(Some(batch))),
            None => final(dest).pending() == old(dest).pending()
                && final(shared).ops() == old(shared).ops().push(SharedOp::Draw(None)),
        },
{
    match shared.injector.steal_batch_and_pop(&dest.worker) {
        Steal::Empty => Stolen::Empty,
        Steal::Success(task) => Stolen::Success(task),
        Steal::Retry => Stolen::Retry,
    }
}

/// Wraps `AtomicU64::load` on the mask of idle workers, with acquire ordering. What it reads is
/// up to the other threads too; it is entered in the record.
#[verifier::external_body]
pub(crate) fn mask_load(shared: &mut SharedState<'_>) -> (found: u64)
    ensures
        final(shared).injector() == old(shared).injector(),
        final(shared).registry() == old(shared).registry(),
        final(shared).ops() == old(shared).ops().push(SharedOp::Load(found)),
{
    shared.registry.idle_mask.load(Ordering::Acquire)
}

/// Wraps `AtomicU64::fetch_or` on the mask of idle workers, with release ordering. It joins the
/// mask with `bits` in one step and returns the mask that it found, which is up to the other
/// threads too. The step is entered in the record.
#[verifier::external_body]
pub(crate) fn mask_or(shared: &mut SharedState<'_>, bits: u64) -> (found: u64)
    ensures
        final(shared).injector() == old(shared).injector(),
        final(shared).registry() == old(shared).registry(),
        final(shared).ops() == old(shared).ops().push(SharedOp::Or { bits, found }),
{
    shared.registry.idle_mask.fetch_or(bits, Ordering::Release)
}

/// Wraps `AtomicU64::fetch_and` on the mask of idle workers. It cuts the mask down to `bits` in
/// one step and returns the mask that it found, which is up to the other threads too. The step
/// is entered in the record.
#[verifier::external_body]
pub(crate) fn mask_and(shared: &mut SharedState<'_>, bits: u64, order: MaskOrder) -> (found: u64)
    ensures
        final(shared).injector() == old(shared).injector(),
        final(shared).registry() == old(shared).registry(),
        final(shared).ops() == old(shared).ops().push(SharedOp::And { bits, found, order }),
{
    let order = match order {
        MaskOrder::Release => Ordering::Release,
        MaskOrder::SeqCst => Ordering::SeqCst,
    };
    shared.registry.idle_mask.fetch_and(bits, order)
}

impl<'a> SharedState<'a> {
    /// The shared queue.
    pub closed spec fn injector(&self) -> Injector<usize> {
        *self.injector
    }

    /// The shared mask.
    pub closed spec fn registry(&self) -> Registry {
        *self.registry
    }

    /// What has been done through this handle, oldest first.
    pub closed spec fn ops(&self) -> Seq<SharedOp> {
        self.ops@
    }

    /// A handle that has not been used.
    pub fn new(injector: &'a Injector<usize>, registry: &'a Registry) -> (shared: Self)
        ensures
            shared.injector() == *injector,
            shared.registry() == *registry,
            shared.ops() == Seq::<SharedOp>::empty(),
    {
        SharedState { injector, registry, ops: Ghost(Seq::empty()) }
    }

    /// Puts a task at the back of the shared queue.
    pub fn push(&mut self, task: GPtr)
        ensures
            final(self).injector() == old(self).injector(),
            final(self).registry() == old(self).registry(),
            pushed(
                injector_order(old(self).injector()),
                old(self).ops(),
                final(self).ops(),
                task,
            ),
    {
        injector_push(self, task);
    }

    /// Draws a batch of tasks from the front of the shared queue: the first is handed out, the
    /// others go to the back of `local`. Without success nothing moves.
    pub fn draw(&mut self, local: &mut LocalQueue) -> (task: Option<GPtr>)
        requires
            old(local).wf(),
        ensures
            final(self).injector() == old(self).injector(),
            final(self).registry() == old(self).registry(),
            final(local).wf(),
            final(local).order() == old(local).order(),
            final(local).placed() == old(local).placed()
                + final(local).pending().len() - old(local).pending().len(),
            final(local).put() == old(local).put() + final(local).pending().skip(
                old(local).pending().len() as int,
            ),
            final(local).pops() == old(local).pops(),
            final(local).looks() == old(local).looks(),
            match task {
                Some(t) => exists|batch: Batch| #[trigger]
                    draws(
                        injector_order(old(self).injector()),
                        old(self).ops(),
                        t,
                        old(local).pending(),
                        final(local).pending(),
                        batch,
                    ) && final(self).ops() == old(self).ops().push(SharedOp::Draw(Some(batch))),
                None => final(local).pending() == old(local).pending()
                    && final(self).ops() == old(self).ops().push(SharedOp::Draw(None)),
            },
    {
        let task: Option<GPtr> = injector_steal_batch_and_pop(self, local).success();
        proof {
            let was = old(local).placed() as int;
            let now = local.placed() as int;
            let added = local.pending().skip(old(local).pending().len() as int);
            assert forall|i: int| was <= i < now implies local.put()[i] == added[i - was] by {
                assert(local.pending()[i - (now - local.pending().len())] == local.order()[i]);
            }
            assert(local.put() =~= old(local).put() + added);
        }
        task
    }
}

/// A task that is put into the shared queue is put in once, and stands behind all that was put in
/// through the same handle before.
pub proof fn law_a_task_is_shared_once(shared: &mut SharedState<'_>, task: GPtr)
    requires
        call_ensures(SharedState::push, (shared, task), ()),
    ensures
        call_requires(SharedState::push, (shared, task)),
        final(shared).injector() == old(shared).injector(),
        final(shared).registry() == old(shared).registry(),
        final(shared).ops().len() == old(shared).ops().len() + 1,
        final(shared).ops().drop_last() == old(shared).ops(),
        final(shared).ops().last() matches SharedOp::Push { task: added, at } && added == task && 0
            <= at < injector_order(old(shared).injector()).len() && injector_order(
            old(shared).injector(),
        )[at] == task && end_of(pushes_of(old(shared).ops())) <= at,
{
    let order = injector_order(old(shared).injector());
    let at = choose|at: int| #[trigger]
        pushes_at(order, old(shared).ops(), task, at)
            && final(shared).ops() == old(shared).ops().push(SharedOp::Push { task, at });
    let batch = Batch { at, tasks: seq![task] };
    assert(batch.tasks[0] == order.subrange(at, at + 1)[0]);
    assert(final(shared).ops().drop_last() =~= old(shared).ops());
}

/// A draw is one attempt at the shared queue. Either it takes neighbouring tasks out of it, the
/// first of which is handed out while the others, and nothing else, go to the back of the thread's
/// own queue in their order; or it takes none, and nothing moves.
pub proof fn law_a_draw_moves_a_batch(
    shared: &mut SharedState<'_>,
    local: &mut LocalQueue,
    task: Option<GPtr>,
)
    requires
        call_ensures(SharedState::draw, (shared, local), task),
    ensures
        old(local).wf() ==> call_requires(SharedState::draw, (shared, local)),
        final(shared).injector() == old(shared).injector(),
        final(shared).registry() == old(shared).registry(),
        final(local).wf(),
        final(local).pops() == old(local).pops(),
        final(local).looks() == old(local).looks(),
        final(shared).ops().len() == old(shared).ops().len() + 1,
        final(shared).ops().drop_last() == old(shared).ops(),
        final(shared).ops().last() is Draw,
        task is None <==> final(shared).ops().last() == SharedOp::Draw(None),
        task is None ==> final(local).pending() == old(local).pending(),
        task matches Some(t) ==> (final(shared).ops().last() matches SharedOp::Draw(Some(batch))
            && ({
            let order = injector_order(old(shared).injector());
            &&& batch.tasks.len() > 0
            &&& batch.tasks[0] == t
            &&& 0 <= batch.at && batch.at + batch.tasks.len() <= order.len()
            &&& batch.tasks == order.subrange(batch.at, batch.at + batch.tasks.len())
            &&& end_of(draws_of(old(shared).ops())) <= batch.at
            &&& final(local).pending() == old(local).pending() + batch.tasks.subrange(
                1,
                batch.tasks.len() as int,
            )
            &&& final(local).order() == old(local).order()
            &&& final(local).order().take(final(local).placed() as int) == old(local).order().take(
                old(local).placed() as int,
            ) + batch.tasks.subrange(1, batch.tasks.len() as int)
        })),
        task is None ==> final(local).placed() == old(local).placed(),
{
    assert(final(shared).ops().drop_last() =~= old(shared).ops());
    if task is Some {
        let batch = choose|batch: Batch| #[trigger]
            draws(
                injector_order(old(shared).injector()),
                old(shared).ops(),
                task->0,
                old(local).pending(),
                final(local).pending(),
                batch,
            ) && final(shared).ops() == old(shared).ops().push(SharedOp::Draw(Some(batch)));
        assert(batch.tasks.skip(1) =~= batch.tasks.subrange(1, batch.tasks.len() as int));
        assert(final(local).pending().skip(old(local).pending().len() as int) =~= batch.tasks.skip(
            1,
        ));
    }
}

/// A new handle works with the queue and the mask that it is given, and has not been used.
pub proof fn law_a_new_handle_is_unused<'a>(
    injector: &'a Injector<usize>,
    registry: &'a Registry,
    shared: SharedState<'a>,
)
    requires
        call_ensures(SharedState::<'a>::new, (injector, registry), shared),
    ensures
        call_requires(SharedState::<'a>::new, (injector, registry)),
        shared.injector() == *injector,
        shared.registry() == *registry,
        shared.ops().len() == 0,
{
}

}

//! Which workers are idle: one bit for each in a mask that all threads share.
use crate::shared::{mask_and, mask_load, mask_or, MaskOrder, SharedOp, SharedState};
use std::sync::atomic::AtomicU64;
use vstd::prelude::*;
use vstd::std_specs::bits::{axiom_u64_trailing_zeros, u64_trailing_zeros};

verus! {

/// How many workers the mask has room for.
pub const WORKERS_COUNT_MAX: usize = 64;

/// Whether the mask says that worker `id` is idle.
pub open spec fn is_idle(mask: u64, id: usize) -> bool {
    id < WORKERS_COUNT_MAX && (mask >> id) & 1 == 1
}

/// The workers that the mask says are idle.
pub open spec fn idle_workers(mask: u64) -> Set<usize> {
    Set::new(|id: usize| is_idle(mask, id))
}

proof fn lemma_bits(mask: u64, id: usize, other: usize)
    requires
        id < 64,
        other < 64,
    ensures
        is_idle(mask | (1u64 << id), other) <==> is_idle(mask, other) || other == id,
        is_idle(mask & !(1u64 << id), other) <==> is_idle(mask, other) && other != id,
        mask & (1u64 << id) != 0 <==> is_idle(mask, id),
{
    let i = id as u64;
    let j = other as u64;
    assert(1u64 << id == 1u64 << i);
    assert(((mask | (1u64 << i)) >> j) & 1 == 1 <==> (mask >> j) & 1 == 1 || i == j) by (bit_vector)
        requires
            i < 64,
            j < 64,
    ;
    assert(((mask & !(1u64 << i)) >> j) & 1 == 1 <==> (mask >> j) & 1 == 1 && i != j)
        by (bit_vector)
        requires
            i < 64,
            j < 64,
    ;
    assert(mask & (1u64 << i) != 0 <==> (mask >> i) & 1 == 1) by (bit_vector)
        requires
            i < 64,
    ;
}

/// The mask with worker `id` idle.
pub open spec fn marked_idle(mask: u64, id: usize) -> u64 {
    mask | (1u64 << id)
}

/// The mask with worker `id` busy.
pub open spec fn marked_busy(mask: u64, id: usize) -> u64 {
    mask & !(1u64 << id)
}

/// The mask with worker `id` idle.
pub fn with_idle(mask: u64, id: usize) -> (marked: u64)
    requires
        id < WORKERS_COUNT_MAX,
    ensures
        marked == marked_idle(mask, id),
        idle_workers(marked) == idle_workers(mask).insert(id),
{
    let marked: u64 = mask | (1u64 << id);
    assert(idle_workers(marked) =~= idle_workers(mask).insert(id)) by {
        assert forall|other: usize| is_idle(marked, other) <==> is_idle(mask, other) || other
            == id by {
            if other < 64 {
                lemma_bits(mask, id, other);
            }
        }
    }
    marked
}

/// The mask with worker `id` busy.
pub fn with_busy(mask: u64, id: usize) -> (marked: u64)
    requires
        id < WORKERS_COUNT_MAX,
    ensures
        marked == marked_busy(mask, id),
        idle_workers(marked) == idle_workers(mask).remove(id),
{
    let marked: u64 = mask & !(1u64 << id);
    assert(idle_workers(marked) =~= idle_workers(mask).remove(id)) by {
        assert forall|other: usize| is_idle(marked, other) <==> is_idle(mask, other) && other
            != id by {
            if other < 64 {
                lemma_bits(mask, id, other);
            }
        }
    }
    marked
}

/// Whether worker `id` is idle by the mask.
pub fn was_idle(mask: u64, id: usize) -> (idle: bool)
    requires
        id < WORKERS_COUNT_MAX,
    ensures
        idle == idle_workers(mask).contains(id),
{
    proof {
        lemma_bits(mask, id, id);
    }
    0 != (mask & (1u64 << id))
}

/// `id` is the idle worker with the lowest number, or none if none is idle.
pub open spec fn is_lowest_idle(mask: u64, id: Option<usize>) -> bool {
    match id {
        Some(id) => idle_workers(mask).contains(id) && forall|other: usize| #[trigger]
            idle_workers(mask).contains(other) ==> id <= other,
        None => idle_workers(mask) == Set::<usize>::empty(),
    }
}

/// The idle worker with the lowest number.
pub fn lowest_idle(mask: u64) -> (id: Option<usize>)
    ensures
        is_lowest_idle(mask, id),
{
    proof {
        axiom_u64_trailing_zeros(mask);
    }
    if 0 != mask {
        let id: usize = mask.trailing_zeros() as usize;
        assert forall|other: usize| #[trigger]
            idle_workers(mask).contains(other) implies id <= other by {
            assert(mask >> other == mask >> (other as u64));
        }
        assert(mask >> id == mask >> (id as u64));
        if id < WORKERS_COUNT_MAX {
            return Some(id);
        }
    } else {
        assert(idle_workers(mask) =~= Set::<usize>::empty()) by {
            assert forall|other: usize| !is_idle(0, other) by {
                let j = other as u64;
                assert((0u64 >> j) & 1 == 0) by (bit_vector);
            }
        }
    }
    None
}

/// The mask that all threads share.
pub struct Registry {
    pub idle_mask: AtomicU64,
}

/// What a change to the shared mask found and what it left.
#[derive(Clone, Copy, Debug, PartialEq, Eq, Structural)]
pub struct MaskChange {
    pub before: u64,
    pub after: u64,
}

/// The step that marks worker `id` as idle.
pub open spec fn idle_op(id: usize, found: u64) -> SharedOp {
    SharedOp::Or { bits: 1u64 << id, found }
}

/// The step that marks worker `id` as busy.
pub open spec fn busy_op(id: usize, found: u64, order: MaskOrder) -> SharedOp {
    SharedOp::And { bits: !(1u64 << id), found, order }
}

/// Marks worker `id` as idle, if the mask has room for it. The change is one atomic
/// step: `before` is the mask that it found and `after` the mask that it left.
pub fn set_thread_idle(shared: &mut SharedState<'_>, id: usize) -> (change: Option<MaskChange>)
    ensures
        final(shared).injector() == old(shared).injector(),
        final(shared).registry() == old(shared).registry(),
        match change {
            Some(c) => {
                &&& id < WORKERS_COUNT_MAX
                &&& final(shared).ops() == old(shared).ops().push(idle_op(id, c.before))
                &&& c.after == mask_after(c.before, idle_op(id, c.before))
                &&& idle_workers(c.after) == idle_workers(c.before).insert(id)
            },
            None => id >= WORKERS_COUNT_MAX && final(shared).ops() == old(shared).ops(),
        },
{
    if id < WORKERS_COUNT_MAX {
        let before: u64 = mask_or(shared, 1u64 << id);
        Some(MaskChange { before, after: with_idle(before, id) })
    } else {
        None
    }
}

/// Marks worker `id` as busy, if the mask has room for it, in one atomic step.
pub fn set_thread_busy(shared: &mut SharedState<'_>, id: usize) -> (change: Option<MaskChange>)
    ensures
        final(shared).injector() == old(shared).injector(),
        final(shared).registry() == old(shared).registry(),
        match change {
            Some(c) => {
                &&& id < WORKERS_COUNT_MAX
                &&& final(shared).ops() == old(shared).ops().push(
                    busy_op(id, c.before, MaskOrder::Release),
                )
                &&& c.after == mask_after(c.before, busy_op(id, c.before, MaskOrder::Release))
                &&& idle_workers(c.after) == idle_workers(c.before).remove(id)
            },
            None => id >= WORKERS_COUNT_MAX && final(shared).ops() == old(shared).ops(),
        },
{
    if id < WORKERS_COUNT_MAX {
        let before: u64 = mask_and(shared, !(1u64 << id), MaskOrder::Release);
        Some(MaskChange { before, after: with_busy(before, id) })
    } else {
        None
    }
}

/// An attempt to claim an idle worker: the mask that was seen, the idle worker that
/// was picked from it, and the mask that the claim found in place.
#[derive(Clone, Copy, Debug, PartialEq, Eq)]
pub struct Claim {
    pub seen: u64,
    pub picked: Option<usize>,
    pub found: Option<u64>,
}

impl Claim {
    /// The worker is picked from the mask that was seen, and claimed if there is one.
    pub open spec fn wf(&self) -> bool {
        &&& is_lowest_idle(self.seen, self.picked)
        &&& self.found is Some <==> self.picked is Some
    }

    /// The worker that the claim won: the one picked, if it was still idle.
    pub open spec fn winner(&self) -> Option<usize> {
        match (self.picked, self.found) {
            (Some(id), Some(mask)) => if idle_workers(mask).contains(id) {
                Some(id)
            } else {
                None
            },
            _ => None,
        }
    }

    /// The worker to wake up, if the claim won one.
    pub fn woken(&self) -> (id: Option<usize>)
        requires
            self.wf(),
        ensures
            id == self.winner(),
    {
        match (self.picked, self.found) {
            (Some(id), Some(mask)) => if was_idle(mask, id) {
                Some(id)
            } else {
                None
            },
            _ => None,
        }
    }
}

/// The steps of a claim: the mask is read, and the worker that was picked is taken off it.
pub open spec fn claim_ops(claim: Claim) -> Seq<SharedOp> {
    match (claim.picked, claim.found) {
        (Some(id), Some(found)) => seq![
            SharedOp::Load(claim.seen),
            busy_op(id, found, MaskOrder::SeqCst),
        ],
        _ => seq![SharedOp::Load(claim.seen)],
    }
}

/// Picks the lowest idle worker and takes it off the shared mask. Another thread may
/// have claimed it in between; then the claim wins nobody.
pub fn claim_idle(shared: &mut SharedState<'_>) -> (claim: Claim)
    ensures
        claim.wf(),
        final(shared).injector() == old(shared).injector(),
        final(shared).registry() == old(shared).registry(),
        final(shared).ops() == old(shared).ops() + claim_ops(claim),
{
    let ghost start = shared.ops();
    let seen: u64 = mask_load(shared);
    let claim: Claim = match lowest_idle(seen) {
        Some(id) => {
            let found: u64 = mask_and(shared, !(1u64 << id), MaskOrder::SeqCst);
            Claim { seen, picked: Some(id), found: Some(found) }
        },
        None => Claim { seen, picked: None, found: None },
    };
    assert(shared.ops() =~= start + claim_ops(claim));
    claim
}

/// The mask after one access to what all threads share.
pub open spec fn mask_after(mask: u64, op: SharedOp) -> u64 {
    match op {
        SharedOp::Or { bits, .. } => mask | bits,
        SharedOp::And { bits, .. } => mask & bits,
        _ => mask,
    }
}

/// The mask after a number of accesses, one after the other.
pub open spec fn replay(mask: u64, ops: Seq<SharedOp>) -> u64
    decreases ops.len(),
{
    if ops.len() == 0 {
        mask
    } else {
        mask_after(replay(mask, ops.drop_last()), ops.last())
    }
}

/// Whether an access that saw the mask saw this one.
pub open spec fn saw(op: SharedOp, mask: u64) -> bool {
    match op {
        SharedOp::Load(found) => found == mask,
        SharedOp::Or { found, .. } => found == mask,
        SharedOp::And { found, .. } => found == mask,
        _ => true,
    }
}

/// Whether `history` is all that happens to a mask that is `mask` at first: each access sees
/// what those before it have left.
pub open spec fn is_history(mask: u64, history: Seq<SharedOp>) -> bool {
    forall|i: int|
        0 <= i < history.len() ==> saw(#[trigger] history[i], replay(mask, history.take(i)))
}

/// Whether an access may set the bit of worker `id`.
pub open spec fn sets_bit(op: SharedOp, id: usize) -> bool {
    op matches SharedOp::Or { bits, .. } && is_idle(bits, id)
}

proof fn lemma_access(mask: u64, op: SharedOp, id: usize)
    ensures
        is_idle(mask_after(mask, op), id) ==> is_idle(mask, id) || sets_bit(op, id),
{
    if id < 64 {
        let i = id as u64;
        match op {
            SharedOp::Or { bits, .. } => {
                assert(((mask | bits) >> i) & 1 == 1 ==> (mask >> i) & 1 == 1 || (bits >> i) & 1
                    == 1) by (bit_vector);
            },
            SharedOp::And { bits, .. } => {
                assert(((mask & bits) >> i) & 1 == 1 ==> (mask >> i) & 1 == 1) by (bit_vector);
            },
            _ => {},
        }
    }
}

/// A bit that nobody sets stays clear.
proof fn lemma_stays_clear(mask: u64, ops: Seq<SharedOp>, id: usize)
    requires
        !is_idle(mask, id),
        forall|i: int| 0 <= i < ops.len() ==> !sets_bit(#[trigger] ops[i], id),
    ensures
        !is_idle(replay(mask, ops), id),
    decreases ops.len(),
{
    if ops.len() > 0 {
        assert(ops.last() == ops[ops.len() - 1]);
        lemma_stays_clear(mask, ops.drop_last(), id);
        lemma_access(replay(mask, ops.drop_last()), ops.last(), id);
    }
}

/// Two stretches of accesses, one after the other.
pub(crate) proof fn lemma_replay_add(mask: u64, first: Seq<SharedOp>, second: Seq<SharedOp>)
    ensures
        replay(mask, first + second) == replay(replay(mask, first), second),
    decreases second.len(),
{
    if second.len() == 0 {
        assert(first + second =~= first);
    } else {
        assert((first + second).drop_last() =~= first + second.drop_last());
        assert((first + second).last() == second.last());
        lemma_replay_add(mask, first, second.drop_last());
    }
}

/// A stretch of one access.
pub(crate) proof fn lemma_replay_one(mask: u64, op: SharedOp)
    ensures
        replay(mask, seq![op]) == mask_after(mask, op),
{
    assert(seq![op].drop_last() =~= Seq::<SharedOp>::empty());
    assert(replay(mask, Seq::<SharedOp>::empty()) == mask);
}

/// Marking a worker changes its own bit in the mask and no other: idle sets it, busy clears it.
pub proof fn law_marks_one_bit(mask: u64, id: usize, other: usize, found: u64, order: MaskOrder)
    requires
        id < WORKERS_COUNT_MAX,
    ensures
        is_idle(mask_after(mask, idle_op(id, found)), other) <==> is_idle(mask, other) || other
            == id,
        is_idle(mask_after(mask, busy_op(id, found, order)), other) <==> is_idle(mask, other)
            && other != id,
{
    if other < 64 {
        lemma_bits(mask, id, other);
    }
}

/// Marking a worker twice in the same way is like marking it once.
pub proof fn law_marking_twice_is_marking_once(mask: u64, id: usize, found: u64, order: MaskOrder)
    ensures
        mask_after(mask_after(mask, idle_op(id, found)), idle_op(id, found)) == mask_after(
            mask,
            idle_op(id, found),
        ),
        mask_after(mask_after(mask, busy_op(id, found, order)), busy_op(id, found, order))
            == mask_after(mask, busy_op(id, found, order)),
{
    let bits = 1u64 << id;
    assert((mask | bits) | bits == mask | bits && (mask & !bits) & !bits == mask & !bits)
        by (bit_vector);
}

/// Marking a worker as idle and then as busy leaves the mask of a worker that was busy as
/// it was, and marking it as busy once more changes nothing.
pub proof fn law_busy_undoes_idle(
    mask: u64,
    id: usize,
    found: u64,
    then_found: u64,
    order: MaskOrder,
)
    requires
        id < WORKERS_COUNT_MAX,
        !idle_workers(mask).contains(id),
    ensures
        replay(mask, seq![idle_op(id, found), busy_op(id, then_found, order)]) == mask,
        mask_after(mask, busy_op(id, found, order)) == mask,
{
    let ops = seq![idle_op(id, found), busy_op(id, then_found, order)];
    assert(ops.drop_last() =~= seq![idle_op(id, found)]);
    lemma_replay_one(mask, idle_op(id, found));
    let i = id as u64;
    assert(1u64 << id == 1u64 << i);
    assert((mask | (1u64 << i)) & !(1u64 << i) == mask && mask & !(1u64 << i) == mask)
        by (bit_vector)
        requires
            i < 64,
            (mask >> i) & 1 != 1,
    ;
}

/// A worker that has been taken off the mask is not won by a claim until it is marked as idle
/// again, whatever else happens to the mask in between. So of several claims of a worker that is
/// marked as idle once, at most one wins it.
pub proof fn law_claimed_once(
    mask: u64,
    history: Seq<SharedOp>,
    first: int,
    second: int,
    claim: Claim,
    id: usize,
)
    requires
        is_history(mask, history),
        0 <= first < second < history.len(),
        id < WORKERS_COUNT_MAX,
        history[first] matches SharedOp::And { bits, .. } && bits == !(1u64 << id),
        forall|i: int| first < i < second ==> !sets_bit(#[trigger] history[i], id),
        claim.wf(),
        claim.picked == Some(id),
        history[second] == busy_op(id, claim.found->0, MaskOrder::SeqCst),
    ensures
        claim.winner() is None,
{
    let start = replay(mask, history.take(first));
    let cleared = replay(mask, history.take(first + 1));
    let between = history.subrange(first + 1, second);
    assert(history.take(first + 1).drop_last() =~= history.take(first));
    assert(history.take(first + 1).last() == history[first]);
    lemma_bits(start, id, id);
    assert forall|i: int| 0 <= i < between.len() implies !sets_bit(#[trigger] between[i], id) by {
        assert(between[i] == history[first + 1 + i]);
    }
    lemma_stays_clear(cleared, between, id);
    assert(history.take(second) =~= history.take(first + 1) + between);
    lemma_replay_add(mask, history.take(first + 1), between);
    assert(saw(history[second], replay(mask, history.take(second))));
}

/// A claim that no other thread disturbs wins the idle worker with the lowest number and clears
/// that worker's bit, the lowest one set. It wins nobody and leaves the mask alone only if nobody
/// is idle.
pub proof fn law_undisturbed_claim_wins(mask: u64, claim: Claim)
    requires
        claim.wf(),
        is_history(mask, claim_ops(claim)),
    ensures
        is_lowest_idle(mask, claim.winner()),
        mask == 0 ==> claim.winner() is None && replay(mask, claim_ops(claim)) == 0,
        mask != 0 ==> claim.winner() == Some(u64_trailing_zeros(mask) as usize) && replay(
            mask,
            claim_ops(claim),
        ) == mask & ((mask - 1) as u64),
{
    let ops = claim_ops(claim);
    assert(ops.take(0) =~= Seq::<SharedOp>::empty());
    assert(saw(ops[0], replay(mask, ops.take(0))));
    assert(claim.seen == mask);
    lemma_replay_one(mask, ops[0]);
    axiom_u64_trailing_zeros(mask);
    match claim.picked {
        Some(id) => {
            let found = claim.found->0;
            assert(ops.take(1) =~= seq![ops[0]]);
            assert(saw(ops[1], replay(mask, ops.take(1))));
            assert(found == mask);
            assert(ops.drop_last() =~= seq![ops[0]]);
            lemma_lowest_is_trailing_zeros(mask, id);
            let i = id as u64;
            assert(1u64 << id == 1u64 << i);
            assert(mask != 0 && mask & !(1u64 << i) == mask & ((mask - 1) as u64)) by (bit_vector)
                requires
                    i < 64,
                    (mask >> i) & 1 == 1,
                    mask << ((64 - i) as u64) == 0,
            ;
        },
        None => {
            assert(ops =~= seq![ops[0]]);
            if mask != 0 {
                let id = u64_trailing_zeros(mask) as usize;
                assert(mask >> id == mask >> (id as u64));
                assert(idle_workers(mask).contains(id));
            }
        },
    }
}

/// The lowest idle worker is the number of zeros at the low end of the mask.
proof fn lemma_lowest_is_trailing_zeros(mask: u64, id: usize)
    requires
        is_lowest_idle(mask, Some(id)),
    ensures
        id == u64_trailing_zeros(mask),
        mask << ((64 - id) as u64) == 0,
{
    axiom_u64_trailing_zeros(mask);
    let zeros = u64_trailing_zeros(mask);
    assert(idle_workers(mask).contains(id));
    let i = id as u64;
    assert(mask >> id == mask >> i);
    if mask == 0 {
        assert((0u64 >> i) & 1 == 0) by (bit_vector);
    }
    let low = zeros as usize;
    assert(mask >> low == mask >> (low as u64));
    assert(idle_workers(mask).contains(low));
}

/// A mask says of every worker whether it is idle: marking one as idle sets its bit and marking it
/// as busy clears it, and a worker is idle by a mask exactly if its bit is set.
pub proof fn law_bits_are_workers(mask: u64, id: usize, idle: u64, busy: u64, was: bool)
    requires
        id < 64,
        call_ensures(with_idle, (mask, id), idle),
        call_ensures(with_busy, (mask, id), busy),
        call_ensures(was_idle, (mask, id), was),
    ensures
        call_requires(with_idle, (mask, id)),
        call_requires(with_busy, (mask, id)),
        call_requires(was_idle, (mask, id)),
        idle == mask | (1u64 << id),
        busy == mask & !(1u64 << id),
        was <==> mask & (1u64 << id) != 0,
{
    lemma_bits(mask, id, id);
}

/// The lowest idle worker is the lowest bit that is set; there is none exactly if no bit is set.
pub proof fn law_the_lowest_bit_is_picked(mask: u64, id: Option<usize>)
    requires
        call_ensures(lowest_idle, (mask,), id),
    ensures
        call_requires(lowest_idle, (mask,)),
        id is None <==> mask == 0,
        id matches Some(worker) ==> worker < 64 && mask & (1u64 << worker) != 0
            && forall|lower: u64|
            lower < worker ==> #[trigger] (mask >> lower) & 1 == 0,
{
    lemma_lowest_bit(mask, id);
}

/// What the lowest idle worker is by the bits of the mask.
pub(crate) proof fn lemma_lowest_bit(mask: u64, id: Option<usize>)
    requires
        is_lowest_idle(mask, id),
    ensures
        id is None <==> mask == 0,
        id matches Some(worker) ==> worker < 64 && mask & (1u64 << worker) != 0
            && forall|lower: u64|
            lower < worker ==> #[trigger] (mask >> lower) & 1 == 0,
{
    axiom_u64_trailing_zeros(mask);
    match id {
        Some(worker) => {
            lemma_lowest_is_trailing_zeros(mask, worker);
            lemma_bits(mask, worker, worker);
            assert(idle_workers(mask).contains(worker));
            if mask == 0 {
                let i = worker as u64;
                assert(mask >> worker == mask >> i);
                assert((0u64 >> i) & 1 == 0) by (bit_vector);
            }
        },
        None => {
            if mask != 0 {
                let low = u64_trailing_zeros(mask) as usize;
                assert(mask >> low == mask >> (low as u64));
                assert(idle_workers(mask).contains(low));
            }
        },
    }
}

/// Marking a worker as idle is one access to the shared mask, which sets the worker's bit and no
/// other, for every worker that the mask has room for, and none for any other.
pub proof fn law_idle_sets_the_bit(
    shared: &mut SharedState<'_>,
    id: usize,
    change: Option<MaskChange>,
)
    requires
        call_ensures(set_thread_idle, (shared, id), change),
    ensures
        call_requires(set_thread_idle, (shared, id)),
        final(shared).injector() == old(shared).injector(),
        final(shared).registry() == old(shared).registry(),
        id >= 64 ==> change is None && final(shared).ops() == old(shared).ops(),
        id < 64 ==> (change matches Some(c) && final(shared).ops() == old(shared).ops().push(
            SharedOp::Or { bits: 1u64 << id, found: c.before },
        ) && c.after == c.before | (1u64 << id)),
{
}

/// Marking a worker as busy is one access to the shared mask, which clears the worker's bit and no
/// other, for every worker that the mask has room for, and none for any other.
pub proof fn law_busy_clears_the_bit(
    shared: &mut SharedState<'_>,
    id: usize,
    change: Option<MaskChange>,
)
    requires
        call_ensures(set_thread_busy, (shared, id), change),
    ensures
        call_requires(set_thread_busy, (shared, id)),
        final(shared).injector() == old(shared).injector(),
        final(shared).registry() == old(shared).registry(),
        id >= 64 ==> change is None && final(shared).ops() == old(shared).ops(),
        id < 64 ==> (change matches Some(c) && final(shared).ops() == old(shared).ops().push(
            SharedOp::And { bits: !(1u64 << id), found: c.before, order: MaskOrder::Release },
        ) && c.after == c.before & !(1u64 << id)),
{
}

/// A claim reads the mask once. If it sees a bit that is set, it clears the lowest of them, and
/// that bit alone, in one more access; if it sees none, it does nothing more.
pub proof fn law_a_claim_clears_what_it_saw(shared: &mut SharedState<'_>, claim: Claim)
    requires
        call_ensures(claim_idle, (shared,), claim),
    ensures
        call_requires(claim_idle, (shared,)),
        final(shared).injector() == old(shared).injector(),
        final(shared).registry() == old(shared).registry(),
        claim.seen == 0 ==> claim.picked is None && claim.found is None && final(shared).ops()
            == old(shared).ops().push(SharedOp::Load(claim.seen)),
        claim.seen != 0 ==> (claim.picked matches Some(id) && claim.found matches Some(found)
            && id < 64 && claim.seen & (1u64 << id) != 0 && (forall|lower: u64|
            lower < id ==> #[trigger] (claim.seen >> lower) & 1 == 0)
                && final(shared).ops() == old(shared).ops().push(SharedOp::Load(claim.seen)).push(
            SharedOp::And { bits: !(1u64 << id), found, order: MaskOrder::SeqCst },
        )),
{
    lemma_lowest_bit(claim.seen, claim.picked);
    let start = old(shared).ops();
    if claim.seen == 0 {
        assert(start + claim_ops(claim) =~= start.push(SharedOp::Load(claim.seen)));
    } else {
        let id = claim.picked->0;
        assert(start + claim_ops(claim) =~= start.push(SharedOp::Load(claim.seen)).push(
            SharedOp::And {
                bits: !(1u64 << id),
                found: claim.found->0,
                order: MaskOrder::SeqCst,
            },
        ));
    }
}

/// A claim wakes the worker that it picked exactly if the worker's bit was still set in the mask
/// that the claim found, and it wakes no other worker.
pub proof fn law_wakes_whom_it_claimed(claim: &Claim, id: Option<usize>)
    requires
        claim.wf(),
        call_ensures(Claim::woken, (claim,), id),
    ensures
        call_requires(Claim::woken, (claim,)),
        claim.picked is None ==> id is None,
        claim.picked matches Some(worker) ==> {
            &&& claim.found is Some
            &&& id is Some <==> claim.found->0 & (1u64 << worker) != 0
            &&& id is Some ==> id == Some(worker)
        },
{
    if claim.picked is Some {
        let worker = claim.picked->0;
        assert(idle_workers(claim.seen).contains(worker));
        lemma_bits(claim.found->0, worker, worker);
    }
}

}

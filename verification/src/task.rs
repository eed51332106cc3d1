//! Tasks: a stack of their own and the stack pointer at which they go on.
use crate::queue::{forward, lemma_forward_push, Batch, GPtr};
use crate::registry::{
    claim_idle, claim_ops, is_history, is_lowest_idle, law_undisturbed_claim_wins, lemma_lowest_bit,
    lemma_replay_add, lemma_replay_one, replay, saw, Claim,
};
use crate::shared::{injector_order, pushes_at, pushes_of, MaskOrder, SharedOp, SharedState};
use vstd::bytes::u64_to_le_bytes;
use vstd::prelude::*;
use vstd::std_specs::bits::u64_trailing_zeros;

verus! {

/// The size of a task's stack in bytes.
pub const STACK_SIZE: usize = 1024 * 1024;

/// How many words the first frame of a task holds.
pub const FRAME_WORDS: usize = 12;

/// How many bytes the first frame of a task holds.
pub const FRAME_SIZE: usize = 96;

/// The words of a stack are eight bytes long, the low byte first.
pub open spec fn word_at(stack: Seq<u8>, at: int) -> u64 {
    vstd::bytes::spec_u64_from_le_bytes(stack.subrange(at, at + 8))
}

/// The addresses that the first frame of a task is made from.
#[derive(Clone, Copy, Debug, PartialEq, Eq, Structural)]
pub struct Entry {
    /// The function that calls `func` with `data`.
    pub shim: usize,
    /// Where `shim` returns to.
    pub ret: usize,
    /// The task's own function.
    pub func: usize,
    /// What the task's function is called with.
    pub data: usize,
}

/// The first frame of a task from its lowest address up: six callee-saved registers,
/// the address at which the task starts, the address to which that function returns,
/// its two arguments, and two words that keep the stack aligned.
pub open spec fn frame_words(entry: Entry) -> Seq<u64> {
    seq![
        0,
        0,
        0,
        0,
        0,
        0,
        entry.shim as u64,
        entry.ret as u64,
        entry.func as u64,
        entry.data as u64,
        0,
        0,
    ]
}

/// Whether a stack has the first frame of a task at its upper end.
pub open spec fn has_frame(stack: Seq<u8>, entry: Entry) -> bool {
    &&& stack.len() >= FRAME_SIZE
    &&& forall|i: int|
        0 <= i < FRAME_WORDS ==> word_at(stack, stack.len() - FRAME_SIZE + 8 * i)
            == #[trigger] frame_words(entry)[i]
}

/// A stack for a new task.
pub fn new_stack() -> (stack: Vec<u8>)
    ensures
        stack@ == Seq::new(STACK_SIZE as nat, |i: int| 0u8),
{
    let stack: Vec<u8> = vec![0u8; STACK_SIZE];
    assert(stack@ =~= Seq::new(STACK_SIZE as nat, |i: int| 0u8));
    stack
}

/// Writes a word below `sp` and returns where it stands.
fn push_word(stack: &mut Vec<u8>, sp: usize, word: u64) -> (lower: usize)
    requires
        8 <= sp <= old(stack).len(),
    ensures
        lower == sp - 8,
        final(stack).len() == old(stack).len(),
        word_at(final(stack)@, lower as int) == word,
        forall|i: int|
            0 <= i < old(stack).len() && !(lower <= i < sp) ==> final(stack)@[i] == old(stack)@[i],
{
    let lower: usize = sp - 8;
    let bytes: Vec<u8> = u64_to_le_bytes(word);
    let mut k: usize = 0;
    while k < 8
        invariant
            k <= 8,
            bytes.len() == 8,
            lower + 8 <= stack.len(),
            stack.len() == old(stack).len(),
            forall|i: int| 0 <= i < k ==> stack@[lower + i] == bytes@[i],
            forall|i: int|
                0 <= i < old(stack).len() && !(lower <= i < lower + k) ==> stack@[i]
                    == old(stack)@[i],
        decreases 8 - k,
    {
        stack.set(lower + k, bytes[k]);
        k = k + 1;
    }
    proof {
        assert(stack@.subrange(lower as int, lower + 8) =~= bytes@);
        vstd::bytes::lemma_auto_spec_u64_to_from_le_bytes();
    }
    lower
}

/// A task that is not running: where it goes on, and its stack.
pub struct RunroutineStruct {
    /// The stack pointer at which the task goes on. Zero means that it has ended.
    pub rsp: usize,
    pub stack: Vec<u8>,
}

impl RunroutineStruct {
    /// A task that has not started. `base` is the address of the first byte of `stack`.
    pub fn new(stack: Vec<u8>, base: usize, entry: Entry) -> (task: Self)
        requires
            stack.len() >= FRAME_SIZE,
            base + stack.len() <= usize::MAX,
        ensures
            task.rsp == base + stack.len() - FRAME_SIZE,
            has_frame(task.stack@, entry),
            task.stack.len() == stack.len(),
            forall|i: int| 0 <= i < stack.len() - FRAME_SIZE ==> task.stack@[i] == stack@[i],
    {
        let mut stack = stack;
        let ghost given = stack@;
        let ghost len = stack.len();
        let words: [u64; 12] = [
            0,
            0,
            0,
            0,
            0,
            0,
            entry.shim as u64,
            entry.ret as u64,
            entry.func as u64,
            entry.data as u64,
            0,
            0,
        ];
        assert(words@ =~= frame_words(entry));
        let mut sp: usize = stack.len();
        let mut i: usize = FRAME_WORDS;
        while i > 0
            invariant
                i <= FRAME_WORDS,
                len == given.len() == stack.len(),
                len >= FRAME_SIZE,
                sp == len - FRAME_SIZE + 8 * i,
                words@ == frame_words(entry),
                forall|j: int|
                    i <= j < FRAME_WORDS ==> word_at(stack@, len - FRAME_SIZE + 8 * j)
                        == #[trigger] frame_words(entry)[j],
                forall|j: int| 0 <= j < len - FRAME_SIZE ==> stack@[j] == given[j],
            decreases i,
        {
            let ghost before = stack@;
            i = i - 1;
            sp = push_word(&mut stack, sp, words[i]);
            assert forall|j: int| i <= j < FRAME_WORDS implies word_at(
                stack@,
                len - FRAME_SIZE + 8 * j,
            ) == #[trigger] frame_words(entry)[j] by {
                if j > i {
                    let at = len - FRAME_SIZE + 8 * j;
                    assert(stack@.subrange(at, at + 8) =~= before.subrange(at, at + 8));
                }
            }
        }
        RunroutineStruct { rsp: base + sp, stack }
    }

    /// Hands a new task to the runtime: the task goes to the shared queue, and then an
    /// idle worker is claimed to run it.
    pub fn add(task: GPtr, shared: &mut SharedState<'_>) -> (claim: Claim)
        ensures
            claim.wf(),
            final(shared).injector() == old(shared).injector(),
            final(shared).registry() == old(shared).registry(),
            exists|at: int| #[trigger]
                pushes_at(injector_order(old(shared).injector()), old(shared).ops(), task, at)
                    && final(shared).ops() == old(shared).ops() + add_ops(task, at, claim),
    {
        let ghost start = shared.ops();
        shared.push(task);
        let ghost at = choose|at: int| #[trigger]
            pushes_at(injector_order(shared.injector()), start, task, at) && shared.ops()
                == start.push(SharedOp::Push { task, at });
        let claim: Claim = claim_idle(shared);
        assert(shared.ops() =~= start + add_ops(task, at, claim));
        claim
    }
}

/// The accesses by which a new task is handed to the runtime: first the task is queued, then an
/// idle worker is claimed.
pub open spec fn add_ops(task: GPtr, at: int, claim: Claim) -> Seq<SharedOp> {
    seq![SharedOp::Push { task, at }] + claim_ops(claim)
}

/// Tasks that are added through one handle go to the shared queue one behind the other.
pub proof fn law_added_tasks_keep_their_order(
    order: Seq<GPtr>,
    ops: Seq<SharedOp>,
    task: GPtr,
    at: int,
    claim: Claim,
)
    requires
        forward(order, pushes_of(ops)),
        pushes_at(order, ops, task, at),
    ensures
        forward(order, pushes_of(ops + add_ops(task, at, claim))),
        pushes_of(ops + add_ops(task, at, claim)) == pushes_of(ops).push(
            (Batch { at, tasks: seq![task] }),
        ),
{
    let put = ops.push(SharedOp::Push { task, at });
    let read = put.push(SharedOp::Load(claim.seen));
    let all = ops + add_ops(task, at, claim);
    assert(put.drop_last() =~= ops);
    assert(read.drop_last() =~= put);
    assert(pushes_of(put) == pushes_of(ops).push(Batch { at, tasks: seq![task] }));
    assert(pushes_of(read) == pushes_of(put));
    if claim_ops(claim).len() == 1 {
        assert(all =~= read);
    } else {
        assert(all.drop_last() =~= read);
        assert(all.last() == claim_ops(claim)[1]);
        assert(pushes_of(all) == pushes_of(read));
    }
    lemma_forward_push(order, pushes_of(ops), Batch { at, tasks: seq![task] });
}

/// A task that is added while no other thread accesses the mask wakes the idle worker with the
/// lowest number, and clears that worker's bit alone. Where nobody is idle it wakes nobody and
/// leaves the mask alone.
pub proof fn law_add_wakes_the_lowest_idle_worker(mask: u64, task: GPtr, at: int, claim: Claim)
    requires
        claim.wf(),
        is_history(mask, add_ops(task, at, claim)),
    ensures
        is_lowest_idle(mask, claim.winner()),
        mask == 0 ==> claim.winner() is None && replay(mask, add_ops(task, at, claim)) == 0,
        mask != 0 ==> claim.winner() == Some(u64_trailing_zeros(mask) as usize) && replay(
            mask,
            add_ops(task, at, claim),
        ) == mask & ((mask - 1) as u64),
{
    let push = seq![SharedOp::Push { task, at }];
    let ops = claim_ops(claim);
    lemma_replay_one(mask, SharedOp::Push { task, at });
    lemma_replay_add(mask, push, ops);
    assert forall|i: int| 0 <= i < ops.len() implies saw(
        #[trigger] ops[i],
        replay(mask, ops.take(i)),
    ) by {
        assert(add_ops(task, at, claim)[i + 1] == ops[i]);
        assert(add_ops(task, at, claim).take(i + 1) =~= push + ops.take(i));
        lemma_replay_add(mask, push, ops.take(i));
    }
    law_undisturbed_claim_wins(mask, claim);
}

/// A switch to a task that has not started finds what it needs. It takes six registers, all
/// zero, and a return address off the stack, so the task starts in its shim with the return
/// address on top of the stack and the two arguments above it. If the stack ends at a multiple
/// of sixteen, so does the return address, as a called function expects it.
pub proof fn law_task_starts_in_its_shim(task: RunroutineStruct, base: usize, entry: Entry)
    requires
        has_frame(task.stack@, entry),
        task.rsp == base + task.stack@.len() - FRAME_SIZE,
    ensures
        forall|i: int|
            0 <= i < 6 ==> word_at(task.stack@, #[trigger] (task.rsp - base + 8 * i)) == 0,
        word_at(task.stack@, task.rsp - base + 48) == entry.shim,
        word_at(task.stack@, task.rsp - base + 56) == entry.ret,
        word_at(task.stack@, task.rsp - base + 64) == entry.func,
        word_at(task.stack@, task.rsp - base + 72) == entry.data,
        (base + task.stack@.len()) % 16 == 0 ==> (task.rsp + 56 + 8) % 16 == 0,
{
    let words = frame_words(entry);
    assert forall|i: int| 0 <= i < 6 implies word_at(
        task.stack@,
        #[trigger] (task.rsp - base + 8 * i),
    ) == 0 by {
        assert(words[i] == 0);
    }
    assert(words[6] == entry.shim as u64);
    assert(words[7] == entry.ret as u64);
    assert(words[8] == entry.func as u64);
    assert(words[9] == entry.data as u64);
}

/// A new stack is a mebibyte of zeros.
pub proof fn law_a_new_stack_is_zero(stack: Vec<u8>)
    requires
        call_ensures(new_stack, (), stack),
    ensures
        call_requires(new_stack, ()),
        stack@.len() == 1_048_576,
        forall|i: int| 0 <= i < 1_048_576 ==> #[trigger] stack@[i] == 0,
{
}

/// Wherever its stack lies and however long it is, a new task goes on twelve words below the end
/// of its stack. There stand six zeros, the address of its shim, the address that the shim returns
/// to, the two arguments, and two zeros, each as eight bytes with the low byte first. Below, the
/// stack is as it was given.
pub proof fn law_a_new_task_has_its_frame(
    stack: Vec<u8>,
    base: usize,
    entry: Entry,
    task: RunroutineStruct,
)
    requires
        stack@.len() >= 96,
        base + stack@.len() <= usize::MAX,
        call_ensures(RunroutineStruct::new, (stack, base, entry), task),
    ensures
        call_requires(RunroutineStruct::new, (stack, base, entry)),
        task.rsp == base + stack@.len() - 96,
        task.stack@.len() == stack@.len(),
        forall|i: int|
            0 <= i < stack@.len() - 96 ==> #[trigger] task.stack@[i] == stack@[i],
        ({
            let frame = task.stack@.skip(stack@.len() - 96);
            &&& vstd::bytes::spec_u64_from_le_bytes(frame.subrange(0, 8)) == 0
            &&& vstd::bytes::spec_u64_from_le_bytes(frame.subrange(8, 16)) == 0
            &&& vstd::bytes::spec_u64_from_le_bytes(frame.subrange(16, 24)) == 0
            &&& vstd::bytes::spec_u64_from_le_bytes(frame.subrange(24, 32)) == 0
            &&& vstd::bytes::spec_u64_from_le_bytes(frame.subrange(32, 40)) == 0
            &&& vstd::bytes::spec_u64_from_le_bytes(frame.subrange(40, 48)) == 0
            &&& vstd::bytes::spec_u64_from_le_bytes(frame.subrange(48, 56)) == entry.shim
            &&& vstd::bytes::spec_u64_from_le_bytes(frame.subrange(56, 64)) == entry.ret
            &&& vstd::bytes::spec_u64_from_le_bytes(frame.subrange(64, 72)) == entry.func
            &&& vstd::bytes::spec_u64_from_le_bytes(frame.subrange(72, 80)) == entry.data
            &&& vstd::bytes::spec_u64_from_le_bytes(frame.subrange(80, 88)) == 0
            &&& vstd::bytes::spec_u64_from_le_bytes(frame.subrange(88, 96)) == 0
        }),
{
    let end = task.stack@;
    lemma_frame_word(end, entry, 0, 0);
    lemma_frame_word(end, entry, 1, 8);
    lemma_frame_word(end, entry, 2, 16);
    lemma_frame_word(end, entry, 3, 24);
    lemma_frame_word(end, entry, 4, 32);
    lemma_frame_word(end, entry, 5, 40);
    lemma_frame_word(end, entry, 6, 48);
    lemma_frame_word(end, entry, 7, 56);
    lemma_frame_word(end, entry, 8, 64);
    lemma_frame_word(end, entry, 9, 72);
    lemma_frame_word(end, entry, 10, 80);
    lemma_frame_word(end, entry, 11, 88);
}

/// Word `i` of a task's first frame, which begins at byte `at` of the frame.
proof fn lemma_frame_word(stack: Seq<u8>, entry: Entry, i: int, at: int)
    requires
        has_frame(stack, entry),
        0 <= i < FRAME_WORDS,
        at == 8 * i,
    ensures
        vstd::bytes::spec_u64_from_le_bytes(
            stack.skip(stack.len() - FRAME_SIZE).subrange(at, at + 8),
        ) == frame_words(entry)[i],
{
    let start = stack.len() - FRAME_SIZE;
    assert(stack.skip(start).subrange(at, at + 8) =~= stack.subrange(start + at, start + at + 8));
    assert(word_at(stack, start + 8 * i) == frame_words(entry)[i]);
}

/// Every task that is added goes to the shared queue, once and first. Then the mask is read; if a
/// bit is seen to be set, the lowest of them, and that bit alone, is cleared in one more access,
/// and if none is, nothing more is done.
pub proof fn law_every_added_task_is_queued(
    task: GPtr,
    shared: &mut SharedState<'_>,
    claim: Claim,
)
    requires
        call_ensures(RunroutineStruct::add, (task, shared), claim),
    ensures
        call_requires(RunroutineStruct::add, (task, shared)),
        final(shared).injector() == old(shared).injector(),
        final(shared).registry() == old(shared).registry(),
        final(shared).ops().take(old(shared).ops().len() as int) == old(shared).ops(),
        final(shared).ops().len() == old(shared).ops().len() + (if claim.seen == 0 {
            2int
        } else {
            3int
        }),
        final(shared).ops()[old(shared).ops().len() as int] matches SharedOp::Push {
            task: added,
            at,
        } && added == task && 0 <= at < injector_order(old(shared).injector()).len()
            && injector_order(old(shared).injector())[at] == task,
        final(shared).ops()[(old(shared).ops().len() + 1) as int] == SharedOp::Load(claim.seen),
        claim.seen == 0 ==> claim.picked is None && claim.found is None,
        claim.seen != 0 ==> (claim.picked matches Some(id) && claim.found matches Some(found)
            && id < 64 && claim.seen & (1u64 << id) != 0 && (forall|lower: u64|
            lower < id ==> #[trigger] (claim.seen >> lower) & 1 == 0)
                && final(shared).ops()[(old(shared).ops().len() + 2) as int] == (SharedOp::And {
            bits: !(1u64 << id),
            found,
            order: MaskOrder::SeqCst,
        })),
{
    let order = injector_order(old(shared).injector());
    let start = old(shared).ops();
    let at = choose|at: int| #[trigger]
        pushes_at(order, start, task, at) && final(shared).ops() == start + add_ops(
            task,
            at,
            claim,
        );
    let batch = Batch { at, tasks: seq![task] };
    assert(batch.tasks[0] == order.subrange(at, at + 1)[0]);
    lemma_lowest_bit(claim.seen, claim.picked);
    assert(final(shared).ops().take(start.len() as int) =~= start);
    assert(final(shared).ops()[start.len() as int] == add_ops(task, at, claim)[0]);
    assert(final(shared).ops()[(start.len() + 1) as int] == add_ops(task, at, claim)[1]);
    if claim.seen != 0 {
        assert(final(shared).ops()[(start.len() + 2) as int] == add_ops(task, at, claim)[2]);
    }
}

}

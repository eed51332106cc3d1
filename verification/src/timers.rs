//! Sleeping tasks: a heap of deadlines, the earliest on top.
use crate::queue::{GPtr, LocalQueue};
use std::cmp::Ordering;
use vstd::multiset::Multiset;
use vstd::prelude::*;
use vstd::std_specs::cmp::{PartialEqSpec, PartialOrdSpec};

verus! {

/// A task that sleeps until a deadline. Times are nanoseconds on one clock that
/// never goes back.
#[derive(Clone, Copy, Debug)]
pub struct TimerTask {
    pub when: u128,
    pub task: GPtr,
}

impl PartialEq for TimerTask {
    fn eq(&self, other: &Self) -> (equal: bool) {
        self.when == other.when
    }
}

impl vstd::std_specs::cmp::PartialEqSpecImpl for TimerTask {
    open spec fn obeys_eq_spec() -> bool {
        true
    }

    open spec fn eq_spec(&self, other: &Self) -> bool {
        self.when == other.when
    }
}

impl Eq for TimerTask {

}

impl PartialOrd for TimerTask {
    fn partial_cmp(&self, other: &Self) -> (order: Option<Ordering>) {
        Some(self.cmp(other))
    }
}

impl vstd::std_specs::cmp::PartialOrdSpecImpl for TimerTask {
    open spec fn obeys_partial_cmp_spec() -> bool {
        true
    }

    open spec fn partial_cmp_spec(&self, other: &Self) -> Option<Ordering> {
        if self.when > other.when {
            Some(Ordering::Less)
        } else if self.when == other.when {
            Some(Ordering::Equal)
        } else {
            Some(Ordering::Greater)
        }
    }
}

impl TimerTask {
    /// Compares by deadline, turned round: the earlier deadline is the greater, so
    /// that it comes to the top of a heap.
    pub fn cmp(&self, other: &Self) -> (order: Ordering)
        ensures
            order == Ordering::Greater <==> self.when < other.when,
            order == Ordering::Equal <==> self.when == other.when,
            order == Ordering::Less <==> self.when > other.when,
    {
        if self.when < other.when {
            Ordering::Greater
        } else if self.when == other.when {
            Ordering::Equal
        } else {
            Ordering::Less
        }
    }
}

/// The place above place `i` of a heap.
spec fn parent(i: int) -> int {
    (i - 1) / 2
}

/// Whether place `i` of a heap has no later deadline above it.
spec fn ordered_at(items: Seq<TimerTask>, i: int) -> bool {
    items[parent(i)].when <= items[i].when
}

/// Whether every place of a heap but `hole` has no later deadline above it.
spec fn heap_but_at(items: Seq<TimerTask>, hole: int) -> bool {
    forall|j: int| 0 < j < items.len() && j != hole ==> #[trigger] ordered_at(items, j)
}

/// Whether every place of a heap but those under `hole` has no later deadline above it.
spec fn heap_but_under(items: Seq<TimerTask>, hole: int) -> bool {
    forall|j: int| 0 < j < items.len() && parent(j) != hole ==> #[trigger] ordered_at(items, j)
}

/// Whether place `i` of a heap has no later deadline two places above it.
spec fn ordered_twice(items: Seq<TimerTask>, i: int) -> bool {
    items[parent(parent(i))].when <= items[i].when
}

/// Whether what stands under `hole` is no earlier than what stands above `hole`.
spec fn heap_around(items: Seq<TimerTask>, hole: int) -> bool {
    forall|j: int|
        0 < hole && 0 < j < items.len() && parent(j) == hole ==> #[trigger] ordered_twice(items, j)
}

/// The top of a heap has the earliest deadline.
proof fn lemma_top_is_earliest(items: Seq<TimerTask>, i: int)
    requires
        heap_but_at(items, 0),
        0 <= i < items.len(),
    ensures
        items[0].when <= items[i].when,
    decreases i,
{
    if i > 0 {
        assert(ordered_at(items, i));
        lemma_top_is_earliest(items, parent(i));
    }
}

/// Swapping a place with the one above it moves the one fault of a heap up.
proof fn lemma_sift_up(items: Seq<TimerTask>, swapped: Seq<TimerTask>, i: int, above: int)
    requires
        heap_but_at(items, i),
        heap_around(items, i),
        0 <= above < i < items.len(),
        parent(i) == above,
        items[i].when < items[above].when,
        swapped == items.update(i, items[above]).update(above, items[i]),
    ensures
        heap_but_at(swapped, above),
        heap_around(swapped, above),
{
    assert forall|j: int| 0 < j < swapped.len() && j != above implies #[trigger] ordered_at(
        swapped,
        j,
    ) by {
        if j != i {
            assert(ordered_at(items, j));
            if parent(j) == i {
                assert(ordered_twice(items, j));
            }
        }
    }
    assert forall|j: int|
        0 < above && 0 < j < swapped.len() && parent(j) == above implies #[trigger] ordered_twice(
        swapped,
        j,
    ) by {
        assert(ordered_at(items, above));
        if j != i {
            assert(ordered_at(items, j));
        }
    }
}

/// Swapping a place with the earlier of the two under it moves the one fault of a heap down.
proof fn lemma_sift_down(items: Seq<TimerTask>, swapped: Seq<TimerTask>, i: int, below: int)
    requires
        heap_but_under(items, i),
        heap_around(items, i),
        0 <= i < below < items.len(),
        parent(below) == i,
        items[below].when < items[i].when,
        2 * i + 1 < items.len() ==> items[below].when <= items[2 * i + 1].when,
        2 * i + 2 < items.len() ==> items[below].when <= items[2 * i + 2].when,
        swapped == items.update(i, items[below]).update(below, items[i]),
    ensures
        heap_but_under(swapped, below),
        heap_around(swapped, below),
{
    assert forall|j: int|
        0 < j < swapped.len() && parent(j) != below implies #[trigger] ordered_at(swapped, j) by {
        if parent(j) == i {
            assert(j == 2 * i + 1 || j == 2 * i + 2);
        } else {
            assert(ordered_at(items, j));
            if j == i {
                assert(ordered_twice(items, below));
            }
        }
    }
    assert forall|j: int| 0 < j < swapped.len()
        && parent(j) == below implies #[trigger] ordered_twice(
        swapped,
        j,
    ) by {
        assert(ordered_at(items, j));
    }
}

/// A heap with one fault has none where nothing under the place of the fault is earlier.
proof fn lemma_sifted_down(items: Seq<TimerTask>, i: int)
    requires
        heap_but_under(items, i),
        0 <= i,
        2 * i + 1 < items.len() ==> items[i].when <= items[2 * i + 1].when,
        2 * i + 2 < items.len() ==> items[i].when <= items[2 * i + 2].when,
    ensures
        heap_but_at(items, 0),
{
    assert forall|j: int| 0 < j < items.len() implies #[trigger] ordered_at(items, j) by {
        if parent(j) == i {
            assert(j == 2 * i + 1 || j == 2 * i + 2);
        }
    }
}

/// Swapping two items changes no count.
proof fn lemma_swap(items: Seq<TimerTask>, i: int, j: int)
    requires
        0 <= i < items.len(),
        0 <= j < items.len(),
        i != j,
    ensures
        items.update(i, items[j]).update(j, items[i]).to_multiset() == items.to_multiset(),
{
    broadcast use vstd::seq_lib::group_to_multiset_ensures;

    let half = items.update(i, items[j]);
    vstd::seq_lib::to_multiset_update(items, i, items[j]);
    vstd::seq_lib::to_multiset_update(half, j, items[i]);
    assert(items.contains(items[i]));
    assert(half.to_multiset() == items.to_multiset().insert(items[j]).remove(items[i]));
    assert(half.update(j, items[i]).to_multiset() =~= items.to_multiset());
}

/// The sleeping tasks of one worker.
pub struct Timers {
    items: Vec<TimerTask>,
}

impl View for Timers {
    type V = Multiset<TimerTask>;

    closed spec fn view(&self) -> Multiset<TimerTask> {
        self.items@.to_multiset()
    }
}

/// `first` is among `timers` and none of them has an earlier deadline.
pub open spec fn is_earliest(timers: Multiset<TimerTask>, first: TimerTask) -> bool {
    &&& timers.count(first) > 0
    &&& forall|t: TimerTask| #[trigger] timers.count(t) > 0 ==> first.when <= t.when
}

impl Timers {
    /// No deadline stands under a later one.
    pub closed spec fn wf(&self) -> bool {
        heap_but_at(self.items@, 0)
    }

    /// No sleeping task.
    pub fn new() -> (timers: Self)
        ensures
            timers.wf(),
            timers@ == Multiset::<TimerTask>::empty(),
    {
        let timers = Timers { items: Vec::new() };
        assert(timers@ =~= Multiset::<TimerTask>::empty()) by {
            broadcast use vstd::seq_lib::group_to_multiset_ensures;

        }
        timers
    }

    /// Adds a sleeping task.
    pub fn push(&mut self, timer: TimerTask)
        requires
            old(self).wf(),
        ensures
            final(self).wf(),
            final(self)@ == old(self)@.insert(timer),
    {
        let mut i: usize = self.items.len();
        self.items.push(timer);
        proof {
            broadcast use vstd::seq_lib::group_to_multiset_ensures;

            assert forall|j: int|
                0 < j < self.items.len()
                    && j != i implies #[trigger] ordered_at(self.items@, j) by {
                assert(ordered_at(old(self).items@, j));
            }
        }
        while i > 0
            invariant
                i < self.items.len(),
                heap_but_at(self.items@, i as int),
                heap_around(self.items@, i as int),
                self.items@.to_multiset() == old(self)@.insert(timer),
            ensures
                heap_but_at(self.items@, 0),
            decreases i,
        {
            let above: usize = (i - 1) / 2;
            if !(self.items[i] > self.items[above]) {
                assert(ordered_at(self.items@, i as int));
                break ;
            }
            let ghost before = self.items@;
            self.swap(i, above);
            proof {
                lemma_sift_up(before, self.items@, i as int, above as int);
            }
            i = above;
        }
    }

    /// The earliest deadline.
    pub fn peek(&self) -> (first: Option<TimerTask>)
        requires
            self.wf(),
        ensures
            match first {
                Some(t) => is_earliest(self@, t),
                None => self@ == Multiset::<TimerTask>::empty(),
            },
    {
        proof {
            self.lemma_first();
        }
        if self.items.len() == 0 {
            None
        } else {
            Some(self.items[0])
        }
    }

    /// Takes out a task with the earliest deadline.
    pub fn pop(&mut self) -> (first: Option<TimerTask>)
        requires
            old(self).wf(),
        ensures
            final(self).wf(),
            match first {
                Some(t) => is_earliest(old(self)@, t) && final(self)@ == old(self)@.remove(t),
                None => old(self)@ == Multiset::<TimerTask>::empty() && final(self)@ == old(self)@,
            },
    {
        proof {
            self.lemma_first();
        }
        let len: usize = self.items.len();
        if len == 0 {
            return None;
        }
        let first: TimerTask = self.items[0];
        if len > 1 {
            self.swap(0, len - 1);
        }
        let ghost full = self.items@;
        let _ = self.items.pop();
        proof {
            assert(full.drop_last() =~= full.remove(len - 1));
            vstd::seq_lib::to_multiset_remove(full, len - 1);
            assert forall|j: int|
                0 < j < self.items.len() && parent(j) != 0 implies #[trigger] ordered_at(
                self.items@,
                j,
            ) by {
                assert(ordered_at(old(self).items@, j));
            }
        }
        let mut i: usize = 0;
        let count: usize = self.items.len();
        while i < count / 2
            invariant
                count == self.items.len(),
                i <= count,
                heap_but_under(self.items@, i as int),
                heap_around(self.items@, i as int),
                self.items@.to_multiset() == old(self)@.remove(first),
            ensures
                heap_but_at(self.items@, 0),
            decreases count - i,
        {
            let mut below: usize = 2 * i + 1;
            if below + 1 < count && self.items[below + 1] > self.items[below] {
                below = below + 1;
            }
            if !(self.items[below] > self.items[i]) {
                proof {
                    lemma_sifted_down(self.items@, i as int);
                }
                break ;
            }
            let ghost before = self.items@;
            self.swap(i, below);
            proof {
                lemma_sift_down(before, self.items@, i as int, below as int);
            }
            i = below;
        }
        Some(first)
    }

    /// Swaps two places.
    fn swap(&mut self, i: usize, j: usize)
        requires
            i < old(self).items.len(),
            j < old(self).items.len(),
            i != j,
        ensures
            final(self).items@
                == old(self).items@.update(i as int, old(self).items@[j as int]).update(
                j as int,
                old(self).items@[i as int],
            ),
            final(self)@ == old(self)@,
    {
        proof {
            lemma_swap(self.items@, i as int, j as int);
        }
        let a: TimerTask = self.items[i];
        let b: TimerTask = self.items[j];
        self.items.set(i, b);
        self.items.set(j, a);
    }

    proof fn lemma_first(&self)
        requires
            self.wf(),
        ensures
            self.items.len() == 0 ==> self@ == Multiset::<TimerTask>::empty(),
            self.items.len() > 0 ==> is_earliest(self@, self.items@[0]),
    {
        broadcast use vstd::seq_lib::group_to_multiset_ensures;

        if self.items.len() == 0 {
            assert(self@ =~= Multiset::<TimerTask>::empty());
        } else {
            assert(self.items@.contains(self.items@[0]));
            assert forall|t: TimerTask| #[trigger] self@.count(t) > 0 implies self.items@[0].when
                <= t.when by {
                let i = choose|i: int| 0 <= i < self.items.len() && self.items@[i] == t;
                lemma_top_is_earliest(self.items@, i);
            }
        }
    }
}

/// `fired` are the tasks of `before` whose deadline has come at `now`, in the order of
/// their deadlines, and `after` are the others.
pub open spec fn fires(
    before: Multiset<TimerTask>,
    after: Multiset<TimerTask>,
    fired: Seq<TimerTask>,
    now: u128,
) -> bool {
    &&& before == fired.to_multiset().add(after)
    &&& forall|i: int| 0 <= i < fired.len() ==> (#[trigger] fired[i]).when <= now
    &&& forall|t: TimerTask| #[trigger] after.count(t) > 0 ==> t.when > now
    &&& forall|i: int, j: int| 0 <= i <= j < fired.len() ==> fired[i].when <= fired[j].when
}

/// The tasks of a sequence of timers.
pub open spec fn timer_tasks(timers: Seq<TimerTask>) -> Seq<GPtr> {
    timers.map_values(|t: TimerTask| t.task)
}

/// Whole milliseconds from `now` to a later deadline, but at least one.
pub open spec fn wait_millis(when: u128, now: u128) -> int {
    let millis = (when - now) / 1_000_000;
    if millis < 1 {
        1
    } else {
        millis
    }
}

/// How long a worker may sleep for the sake of its timers: the milliseconds to the
/// earliest deadline as far as 64 bits hold them, and zero if there is none.
pub open spec fn is_sleep_time(timers: Multiset<TimerTask>, now: u128, millis: u64) -> bool {
    if timers == Multiset::<TimerTask>::empty() {
        millis == 0
    } else {
        exists|first: TimerTask| #[trigger]
            is_earliest(timers, first) && millis == wait_millis(first.when, now)
                % 0x1_0000_0000_0000_0000
    }
}

/// Moves every task whose deadline has come from `timers` to the back of `local`, the
/// earliest deadline first, and says how long the worker may sleep.
pub fn get_ready_timers(timers: &mut Timers, now: u128, local: &mut LocalQueue) -> (millis: u64)
    requires
        old(timers).wf(),
        old(local).wf(),
    ensures
        final(timers).wf(),
        final(local).wf(),
        final(local).order() == old(local).order(),
        final(local).pops() == old(local).pops(),
        final(local).looks() == old(local).looks(),
        exists|fired: Seq<TimerTask>| #[trigger]
            fires(old(timers)@, final(timers)@, fired, now)
                && final(local).pending() == old(local).pending() + timer_tasks(fired)
                && final(local).put() == old(local).put() + timer_tasks(fired),
        is_sleep_time(final(timers)@, now, millis),
{
    broadcast use vstd::seq_lib::group_to_multiset_ensures;

    let ghost mut fired: Seq<TimerTask> = Seq::empty();
    assert(fired.to_multiset().add(timers@) =~= timers@);
    assert(local.pending() + timer_tasks(fired) =~= local.pending());
    assert(local.put() + timer_tasks(fired) =~= local.put());
    let mut next: Option<TimerTask> = timers.peek();
    loop
        invariant_except_break
            match next {
                Some(t) => is_earliest(timers@, t),
                None => timers@ == Multiset::<TimerTask>::empty(),
            },
        invariant
            timers.wf(),
            local.wf(),
            local.order() == old(local).order(),
            local.pops() == old(local).pops(),
            local.looks() == old(local).looks(),
            old(timers)@ == fired.to_multiset().add(timers@),
            local.pending() == old(local).pending() + timer_tasks(fired),
            local.put() == old(local).put() + timer_tasks(fired),
            forall|i: int| 0 <= i < fired.len() ==> (#[trigger] fired[i]).when <= now,
            forall|i: int, j: int|
                0 <= i <= j < fired.len() ==> fired[i].when <= fired[j].when,
            forall|i: int, t: TimerTask|
                0 <= i < fired.len() && #[trigger] timers@.count(t) > 0 ==> (
                #[trigger] fired[i]).when <= t.when,
        ensures
            match next {
                Some(t) => is_earliest(timers@, t) && t.when > now,
                None => timers@ == Multiset::<TimerTask>::empty(),
            },
        decreases timers@.len(),
    {
        match next {
            Some(timer) => {
                if timer.when > now {
                    break ;
                }
            },
            None => {
                break ;
            },
        }
        let ghost before = timers@;
        match timers.pop() {
            Some(timer) => {
                local.push(timer.task);
                proof {
                    let more = fired.push(timer);
                    vstd::seq_lib::to_multiset_build(fired, timer);
                    assert(more.to_multiset().add(timers@) =~= fired.to_multiset().add(before));
                    assert(timer_tasks(more) =~= timer_tasks(fired).push(timer.task));
                    assert(old(local).pending() + timer_tasks(more) =~= (old(local).pending()
                        + timer_tasks(fired)).push(timer.task));
                    assert(old(local).put() + timer_tasks(more) =~= (old(local).put()
                        + timer_tasks(fired)).push(timer.task));
                    fired = more;
                }
            },
            None => {
                break ;
            },
        }
        next = timers.peek();
    }
    assert(fires(old(timers)@, timers@, fired, now));
    match next {
        Some(timer) => {
            let millis: u128 = (timer.when - now) / 1_000_000;
            let least: u128 = if millis < 1 {
                1
            } else {
                millis
            };
            truncated(least)
        },
        None => 0,
    }
}

/// The low 64 bits.
fn truncated(value: u128) -> (low: u64)
    ensures
        low == value % 0x1_0000_0000_0000_0000,
{
    assert(value as u64 == value % 0x1_0000_0000_0000_0000) by (bit_vector);
    #[verifier::truncate]
    (value as u64)
}

/// Of each timer, all copies fire if its deadline has come, and else all stay: none fires
/// early, none is late, none is lost and none fires twice.
pub proof fn law_fires_exactly_when_due(
    before: Multiset<TimerTask>,
    after: Multiset<TimerTask>,
    fired: Seq<TimerTask>,
    now: u128,
    timer: TimerTask,
)
    requires
        fires(before, after, fired, now),
    ensures
        timer.when <= now ==> fired.to_multiset().count(timer) == before.count(timer)
            && after.count(timer) == 0,
        timer.when > now ==> fired.to_multiset().count(timer) == 0 && after.count(timer)
            == before.count(timer),
{
    broadcast use vstd::seq_lib::group_to_multiset_ensures;

    assert(before.count(timer) == fired.to_multiset().count(timer) + after.count(timer));
    if fired.to_multiset().count(timer) > 0 {
        let i = choose|i: int| 0 <= i < fired.len() && fired[i] == timer;
        assert(fired[i].when <= now);
    }
}

/// Which timers fire and which stay depends on the timers and the time alone; only the order
/// of equal deadlines is open.
pub proof fn law_firing_is_determined(
    before: Multiset<TimerTask>,
    after: Multiset<TimerTask>,
    fired: Seq<TimerTask>,
    other_after: Multiset<TimerTask>,
    other_fired: Seq<TimerTask>,
    now: u128,
)
    requires
        fires(before, after, fired, now),
        fires(before, other_after, other_fired, now),
    ensures
        after == other_after,
        fired.to_multiset() == other_fired.to_multiset(),
{
    assert forall|t: TimerTask| #[trigger] after.count(t) == other_after.count(t) by {
        law_fires_exactly_when_due(before, after, fired, now, t);
        law_fires_exactly_when_due(before, other_after, other_fired, now, t);
    }
    assert forall|t: TimerTask| #[trigger]
        fired.to_multiset().count(t) == other_fired.to_multiset().count(t) by {
        law_fires_exactly_when_due(before, after, fired, now, t);
        law_fires_exactly_when_due(before, other_after, other_fired, now, t);
    }
    assert(after =~= other_after);
    assert(fired.to_multiset() =~= other_fired.to_multiset());
}

/// As long as no deadline is more milliseconds away than 64 bits hold, the time to sleep is
/// zero only if there is no timer, and no deadline is overslept by a millisecond or more.
pub proof fn law_sleeps_no_longer_than_it_may(timers: Multiset<TimerTask>, now: u128, millis: u64)
    requires
        is_sleep_time(timers, now, millis),
        forall|t: TimerTask| #[trigger]
            timers.count(t) > 0 ==> t.when > now && wait_millis(t.when, now)
                < 0x1_0000_0000_0000_0000,
    ensures
        millis == 0 <==> timers == Multiset::<TimerTask>::empty(),
        forall|t: TimerTask| #[trigger]
            timers.count(t) > 0 ==> now + millis * 1_000_000 < t.when + 1_000_000,
{
    if timers != Multiset::<TimerTask>::empty() {
        let first = choose|first: TimerTask| #[trigger]
            is_earliest(timers, first) && millis == wait_millis(first.when, now)
                % 0x1_0000_0000_0000_0000;
        assert(timers.count(first) > 0);
    }
}

/// Deadlines alone decide how two timers compare, and the earlier one is the greater.
pub proof fn law_the_earlier_is_the_greater(one: &TimerTask, other: &TimerTask, order: Ordering)
    requires
        call_ensures(TimerTask::cmp, (one, other), order),
    ensures
        call_requires(TimerTask::cmp, (one, other)),
        one.when < other.when ==> order == Ordering::Greater,
        one.when == other.when ==> order == Ordering::Equal,
        one.when > other.when ==> order == Ordering::Less,
        one.eq_spec(other) <==> one.when == other.when,
        one.partial_cmp_spec(other) == Some(order),
{
}

/// A timer that is put in is there once more, and all others are there as often as before.
pub proof fn law_a_timer_is_put_in_once(timers: &mut Timers, timer: TimerTask, other: TimerTask)
    requires
        call_ensures(Timers::push, (timers, timer), ()),
    ensures
        old(timers).wf() ==> call_requires(Timers::push, (timers, timer)),
        final(timers).wf(),
        final(timers)@.count(timer) == old(timers)@.count(timer) + 1,
        other != timer ==> final(timers)@.count(other) == old(timers)@.count(other),
{
}

/// What stands first is there, nothing is earlier, and nothing stands first only where there is
/// nothing.
pub proof fn law_the_first_is_the_earliest(
    timers: &Timers,
    first: Option<TimerTask>,
    other: TimerTask,
)
    requires
        call_ensures(Timers::peek, (timers,), first),
    ensures
        timers.wf() ==> call_requires(Timers::peek, (timers,)),
        first is None ==> timers@.count(other) == 0,
        first matches Some(t) ==> timers@.count(t) > 0 && (timers@.count(other) > 0 ==> t.when
            <= other.when),
{
}

/// What is taken out was there, nothing is earlier, it is there once less, and all others are
/// there as often as before. Nothing is taken out only where there is nothing.
pub proof fn law_the_earliest_is_taken_out(
    timers: &mut Timers,
    first: Option<TimerTask>,
    other: TimerTask,
)
    requires
        call_ensures(Timers::pop, (timers,), first),
    ensures
        old(timers).wf() ==> call_requires(Timers::pop, (timers,)),
        final(timers).wf(),
        first is None ==> old(timers)@.count(other) == 0 && final(timers)@.count(other) == 0,
        first matches Some(t) ==> {
            &&& old(timers)@.count(t) > 0
            &&& old(timers)@.count(other) > 0 ==> t.when <= other.when
            &&& final(timers)@.count(t) == old(timers)@.count(t) - 1
            &&& other != t ==> final(timers)@.count(other) == old(timers)@.count(other)
        },
{
}

/// How a sequence of timers lists those of `before` that are due at `now`.
pub(crate) proof fn lemma_fired_counts(
    before: Multiset<TimerTask>,
    after: Multiset<TimerTask>,
    fired: Seq<TimerTask>,
    now: u128,
)
    requires
        fires(before, after, fired, now),
    ensures
        forall|t: TimerTask| #[trigger]
            fired.to_multiset().count(t) == (if t.when <= now {
                before.count(t)
            } else {
                0
            }),
        forall|t: TimerTask| #[trigger]
            after.count(t) == (if t.when <= now {
                0
            } else {
                before.count(t)
            }),
        timer_tasks(fired) == Seq::new(fired.len(), |i: int| fired[i].task),
{
    assert forall|t: TimerTask| #[trigger]
        fired.to_multiset().count(t) == (if t.when <= now {
            before.count(t)
        } else {
            0
        }) by {
        law_fires_exactly_when_due(before, after, fired, now, t);
    }
    assert forall|t: TimerTask| #[trigger]
        after.count(t) == (if t.when <= now {
            0
        } else {
            before.count(t)
        }) by {
        law_fires_exactly_when_due(before, after, fired, now, t);
    }
    assert(timer_tasks(fired) =~= Seq::new(fired.len(), |i: int| fired[i].task));
}

/// How long a worker may sleep, by any timer that is as early as all others.
pub(crate) proof fn lemma_sleep_time(
    timers: Multiset<TimerTask>,
    now: u128,
    millis: u64,
    first: TimerTask,
)
    requires
        is_sleep_time(timers, now, millis),
        timers.count(first) > 0,
        forall|t: TimerTask| #[trigger] timers.count(t) > 0 ==> first.when <= t.when,
    ensures
        millis == (if (first.when - now) / 1_000_000 < 1 {
            1
        } else {
            (first.when - now) / 1_000_000
        }) % 0x1_0000_0000_0000_0000,
{
    let other = choose|other: TimerTask| #[trigger]
        is_earliest(timers, other) && millis == wait_millis(other.when, now)
            % 0x1_0000_0000_0000_0000;
    assert(timers.count(other) > 0);
    assert(first.when == other.when);
}

/// Whenever a worker looks at its timers, every task whose deadline has come goes to the back of
/// the queue, as often as it has such a timer and the earliest deadline first, and no other task
/// does. The timers that are due are gone, and the others are all there. The time to sleep is
/// zero without a timer, and otherwise the whole milliseconds to the earliest deadline, but at
/// least one, as far as 64 bits hold them.
pub proof fn law_every_due_timer_is_queued(
    timers: &mut Timers,
    now: u128,
    local: &mut LocalQueue,
    millis: u64,
)
    requires
        call_ensures(get_ready_timers, (timers, now, local), millis),
    ensures
        old(timers).wf() && old(local).wf() ==> call_requires(
            get_ready_timers,
            (timers, now, local),
        ),
        final(timers).wf(),
        final(local).wf(),
        final(local).pops() == old(local).pops(),
        final(local).looks() == old(local).looks(),
        forall|t: TimerTask| #[trigger]
            final(timers)@.count(t) == (if t.when <= now {
                0
            } else {
                old(timers)@.count(t)
            }),
        exists|fired: Seq<TimerTask>|
            {
                &&& forall|t: TimerTask|
                    (#[trigger] fired.to_multiset()).count(t) == (if t.when <= now {
                        old(timers)@.count(t)
                    } else {
                        0
                    })
                &&& forall|i: int, j: int| 0 <= i <= j < fired.len()
                    ==> fired[i].when <= fired[j].when
                &&& final(local).pending() == old(local).pending() + Seq::new(
                    fired.len(),
                    |i: int| fired[i].task,
                )
            },
        (forall|t: TimerTask| #[trigger] final(timers)@.count(t) == 0) ==> millis == 0,
        forall|first: TimerTask| #[trigger]
            final(timers)@.count(first) > 0 && (forall|t: TimerTask| #[trigger]
                final(timers)@.count(t) > 0 ==> first.when <= t.when) ==> millis == (if (first.when
                - now) / 1_000_000 < 1 {
                1
            } else {
                (first.when - now) / 1_000_000
            }) % 0x1_0000_0000_0000_0000,
{
    let fired = choose|fired: Seq<TimerTask>| #[trigger]
        fires(old(timers)@, final(timers)@, fired, now)
            && final(local).pending() == old(local).pending() + timer_tasks(fired);
    lemma_fired_counts(old(timers)@, final(timers)@, fired, now);
    let all = fired.to_multiset();
    assert forall|first: TimerTask| #[trigger]
        final(timers)@.count(first) > 0 && (forall|t: TimerTask| #[trigger]
            final(timers)@.count(t) > 0 ==> first.when <= t.when) implies millis == (if (first.when
        - now) / 1_000_000 < 1 {
        1
    } else {
        (first.when - now) / 1_000_000
    }) % 0x1_0000_0000_0000_0000 by {
        lemma_sleep_time(final(timers)@, now, millis, first);
    }
    if forall|t: TimerTask| #[trigger] final(timers)@.count(t) == 0 {
        assert(final(timers)@ =~= Multiset::<TimerTask>::empty());
    }
}

}

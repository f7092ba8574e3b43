use vstd::prelude::*;
use std::collections::VecDeque;
use crate::task::{all_of_kind, all_pending, Task};

verus! {

/// Ascending by the total time of the tasks.
pub open spec fn sorted_by_total(s: Seq<Task>) -> bool {
    forall|i: int, j: int| 0 <= i <= j < s.len() ==> s[i].total_time <= s[j].total_time
}

/// The first index at or after `from` whose task needs more than `total`,
/// or the length where there is none.
pub open spec fn slot_from(s: Seq<Task>, total: u16, from: int) -> int
    decreases s.len() - from,
{
    if from < 0 || from >= s.len() || s[from].total_time > total {
        from
    } else {
        slot_from(s, total, from + 1)
    }
}

/// The queue with the task put behind every task that needs no more than it.
pub open spec fn sjf_insert(s: Seq<Task>, task: Task) -> Seq<Task> {
    s.insert(slot_from(s, task.total_time, 0), task)
}

/// The queue after the task joined it: in order of total time under the
/// shortest-job policy, at the tail otherwise.
pub open spec fn place(s: Seq<Task>, task: Task, sorted: bool) -> Seq<Task> {
    if sorted {
        sjf_insert(s, task)
    } else {
        s.push(task)
    }
}

/// What `slot_from` finds: everything between `from` and the slot needs no
/// more than `total`, and the task at the slot needs more.
pub proof fn lemma_slot_from(s: Seq<Task>, total: u16, from: int)
    requires
        0 <= from <= s.len(),
    ensures
        from <= slot_from(s, total, from) <= s.len(),
        forall|j: int| from <= j < slot_from(s, total, from) ==> s[j].total_time <= total,
        slot_from(s, total, from) < s.len() ==> s[slot_from(s, total, from)].total_time > total,
    decreases s.len() - from,
{
    if from < s.len() && s[from].total_time <= total {
        lemma_slot_from(s, total, from + 1);
    }
}

/// Putting a task into a sorted queue leaves it sorted, and into a queue of
/// schedulable tasks leaves it one.
pub proof fn lemma_place_keeps_order(s: Seq<Task>, task: Task, sorted: bool)
    ensures
        place(s, task, sorted).len() == s.len() + 1,
        place(s, task, sorted).to_multiset() == s.to_multiset().insert(task),
        sorted && sorted_by_total(s) ==> sorted_by_total(place(s, task, sorted)),
        task.pending() && all_pending(s) ==> all_pending(place(s, task, sorted)),
        all_of_kind(s, task.task_type) ==> all_of_kind(place(s, task, sorted), task.task_type),
{
    lemma_slot_from(s, task.total_time, 0);
    let k = slot_from(s, task.total_time, 0);
    vstd::seq_lib::to_multiset_insert(s, k, task);
    vstd::seq_lib::to_multiset_build(s, task);
    if sorted {
        let r = s.insert(k, task);
        assert forall|i: int, j: int| 0 <= i <= j < r.len() && sorted_by_total(s) implies r[i].total_time
            <= r[j].total_time by {
            if i < k && j > k {
                assert(s[i].total_time <= s[j - 1].total_time);
            } else if i == k && j > k {
                assert(s[k].total_time <= s[j - 1].total_time);
            } else if i > k {
                assert(s[i - 1].total_time <= s[j - 1].total_time);
            }
        }
    }
}

/// Puts the task behind every queued task that needs no more time than it
/// does, so that a queue sorted by total time stays sorted.
pub fn insert_sorted(q: &mut VecDeque<Task>, task: Task)
    ensures
        final(q)@ == sjf_insert(old(q)@, task),
        sorted_by_total(old(q)@) ==> sorted_by_total(final(q)@),
{
    let ghost s = q@;
    let mut i: usize = 0;
    while i < q.len() && q[i].total_time <= task.total_time
        invariant
            q@ == s,
            0 <= i <= s.len(),
            slot_from(s, task.total_time, 0) == slot_from(s, task.total_time, i as int),
        decreases s.len() - i,
    {
        i = i + 1;
    }
    proof {
        lemma_place_keeps_order(s, task, true);
    }
    q.insert(i, task);
}

/// Adds the task to the queue as the policy asks.
pub fn enqueue(q: &mut VecDeque<Task>, task: Task, sorted: bool)
    ensures
        final(q)@ == place(old(q)@, task, sorted),
{
    if sorted {
        insert_sorted(q, task);
    } else {
        q.push_back(task);
    }
}

} // verus!

use vstd::prelude::*;
use vstd::multiset::Multiset;
use crate::task::{all_of_kind, all_pending, Algorithm, Resource, Task, TaskType};
use crate::pool::{count, uses, Resources};
use crate::queue::{lemma_place_keeps_order, sorted_by_total};
use crate::worker::{
    core_step, first_runnable, hand_ok, lane, preempted, report_of, rr_step, rtc_step, Lane,
    Report, World,
};
use crate::master::{reconciled, Board};

verus! {

/// How many units of `r` a core holds through the task in its hand.
pub open spec fn held(proc: Option<Task>, r: Resource) -> int {
    match proc {
        Some(p) => uses(p.resourses, r),
        None => 0,
    }
}

/// The tasks in a core's hand, as a multiset of at most one.
pub open spec fn hand_tasks(proc: Option<Task>) -> Multiset<Task> {
    match proc {
        Some(p) => Multiset::singleton(p),
        None => Multiset::empty(),
    }
}

/// Every task that a lane holds, wherever it is.
pub open spec fn lane_tasks(l: Lane) -> Multiset<Task> {
    l.ready.to_multiset().add(l.waiting.to_multiset()).add(hand_tasks(l.proc))
}

/// Every task that the world of one core holds, wherever it is.
pub open spec fn world_tasks(w: World) -> Multiset<Task> {
    w.queue.to_multiset().add(w.x.to_multiset()).add(w.y.to_multiset()).add(
        w.z.to_multiset(),
    ).add(w.waiting.to_multiset()).add(hand_tasks(w.proc))
}

/// Every task on the board, wherever it is.
pub open spec fn board_tasks(b: Board) -> Multiset<Task> {
    b.queue.to_multiset().add(b.x.to_multiset()).add(b.y.to_multiset()).add(
        b.z.to_multiset(),
    ).add(b.waiting.to_multiset())
}

/// The task that a run-to-completion tick runs, if it runs one.
pub open spec fn rtc_pick(l: Lane) -> Option<Task> {
    match l.proc {
        Some(p) => Some(p),
        None => if l.ready.len() > 0 && crate::pool::enough(l.pool, l.ready[0].resourses) {
            Some(l.ready[0])
        } else {
            None
        },
    }
}

/// The task that a round-robin tick runs, if it runs one.
pub open spec fn rr_pick(l: Lane) -> Option<Task> {
    let k = first_runnable(l.ready, l.pool, 0);
    if k < l.ready.len() {
        Some(l.ready[k])
    } else {
        None
    }
}

/// The task that a core's tick runs, if it runs one.
pub open spec fn picked(w: World, algo: Algorithm) -> Option<Task> {
    match algo {
        Algorithm::FCFS => rtc_pick(lane(w, w.queue)),
        Algorithm::SJF => rtc_pick(lane(w, w.queue)),
        Algorithm::RR => rr_pick(lane(w, w.queue)),
        Algorithm::MLQ => {
            if w.z.len() > 0 {
                rr_pick(lane(preempted(w), w.z))
            } else if w.y.len() > 0 {
                rr_pick(lane(preempted(w), w.y))
            } else {
                rtc_pick(lane(w, w.x))
            }
        },
    }
}

/// How the tasks of a state change over a tick that ran `pick`: no task
/// appears, none is lost and none is touched but the one that ran, which
/// moved on by one unit and left if that completed it.
pub open spec fn moved(before: Multiset<Task>, after: Multiset<Task>, pick: Option<Task>) -> bool {
    match pick {
        None => after == before,
        Some(t) => {
            &&& before.count(t) > 0
            &&& t.pending()
            &&& after == if t.advanced().time_executed == t.total_time {
                before.remove(t)
            } else {
                before.remove(t).insert(t.advanced())
            }
        },
    }
}

/// What holds of the queues and the hand of one core between ticks: every
/// task is schedulable, a task in hand can give its pair back, the queues
/// are in order under the shortest-job policy, no task is in hand under the
/// round-robin policy, and under the multi-level policy each level holds its
/// own kind and only the lowest is ever in hand.
pub open spec fn world_inv(w: World, algo: Algorithm) -> bool {
    &&& hand_ok(w.proc, w.pool)
    &&& algo == Algorithm::RR ==> w.proc is None
    &&& all_pending(w.queue)
    &&& all_pending(w.x)
    &&& all_pending(w.y)
    &&& all_pending(w.z)
    &&& all_pending(w.waiting)
    &&& algo == Algorithm::SJF ==> sorted_by_total(w.queue) && sorted_by_total(w.waiting)
    &&& algo == Algorithm::MLQ ==> {
        &&& all_of_kind(w.x, TaskType::X)
        &&& all_of_kind(w.y, TaskType::Y)
        &&& all_of_kind(w.z, TaskType::Z)
        &&& w.proc is Some ==> w.proc->0.task_type == TaskType::X
    }
}

/// What holds of the board between ticks.
pub open spec fn board_inv(b: Board, algo: Algorithm) -> bool {
    &&& all_pending(b.queue)
    &&& all_pending(b.x)
    &&& all_pending(b.y)
    &&& all_pending(b.z)
    &&& all_pending(b.waiting)
    &&& algo == Algorithm::SJF ==> sorted_by_total(b.queue) && sorted_by_total(b.waiting)
    &&& algo == Algorithm::MLQ ==> {
        &&& all_of_kind(b.x, TaskType::X)
        &&& all_of_kind(b.y, TaskType::Y)
        &&& all_of_kind(b.z, TaskType::Z)
    }
}

/// What `first_runnable` finds: the pool can serve none of the tasks between
/// `from` and the index, and can serve the task at the index.
pub proof fn lemma_first_runnable(q: Seq<Task>, pool: Resources, from: int)
    requires
        0 <= from <= q.len(),
    ensures
        from <= first_runnable(q, pool, from) <= q.len(),
        forall|j: int|
            from <= j < first_runnable(q, pool, from) ==> !crate::pool::enough(
                pool,
                (#[trigger] q[j]).resourses,
            ),
        first_runnable(q, pool, from) < q.len() ==> crate::pool::enough(
            pool,
            q[first_runnable(q, pool, from)].resourses,
        ),
    decreases q.len() - from,
{
    if from < q.len() && !crate::pool::enough(pool, q[from].resourses) {
        lemma_first_runnable(q, pool, from + 1);
    }
}

/// A queue is, as a multiset, its front and its rest.
proof fn lemma_front_rest(q: Seq<Task>)
    requires
        q.len() > 0,
    ensures
        q.to_multiset() == q.subrange(1, q.len() as int).to_multiset().insert(q[0]),
{
    let rest = q.subrange(1, q.len() as int);
    assert(q =~= rest.insert(0, q[0]));
    vstd::seq_lib::to_multiset_insert(rest, 0, q[0]);
}

/// A queue is, as a multiset, the part before an index, the task at it, and
/// the part after it.
proof fn lemma_split_at(q: Seq<Task>, k: int)
    requires
        0 <= k < q.len(),
    ensures
        q.to_multiset() == q.subrange(0, k).to_multiset().add(
            q.subrange(k + 1, q.len() as int).to_multiset(),
        ).insert(q[k]),
{
    let a = q.subrange(0, k);
    let b = q.subrange(k + 1, q.len() as int);
    assert(q =~= (a + b).insert(k, q[k]));
    vstd::seq_lib::to_multiset_insert(a + b, k, q[k]);
    vstd::seq_lib::lemma_multiset_commutative(a, b);
}

/// Over a run-to-completion tick the lane keeps its tasks, its order and its
/// resources: see `moved`; the pool and the hand together hold as much of
/// each resource as before.
pub proof fn lemma_rtc_step(l: Lane, sorted: bool, r: Resource)
    requires
        hand_ok(l.proc, l.pool),
        all_pending(l.ready),
    ensures
        moved(lane_tasks(l), lane_tasks(rtc_step(l, sorted).0), rtc_pick(l)),
        match rtc_pick(l) {
            Some(t) => rtc_step(l, sorted).1 == report_of(t.advanced()),
            None => rtc_step(l, sorted).1 is Idle,
        },
        count(rtc_step(l, sorted).0.pool, r) + held(rtc_step(l, sorted).0.proc, r) == count(
            l.pool,
            r,
        ) + held(l.proc, r),
        hand_ok(rtc_step(l, sorted).0.proc, rtc_step(l, sorted).0.pool),
        all_pending(rtc_step(l, sorted).0.ready),
        all_pending(l.waiting) ==> all_pending(rtc_step(l, sorted).0.waiting),
        sorted && sorted_by_total(l.ready) ==> sorted_by_total(rtc_step(l, sorted).0.ready),
        sorted && sorted_by_total(l.waiting) ==> sorted_by_total(rtc_step(l, sorted).0.waiting),
        forall|kind: TaskType|
            all_of_kind(l.ready, kind) ==> all_of_kind(#[trigger] rtc_step(l, sorted).0.ready, kind),
        rtc_step(l, sorted).0.proc is Some ==> rtc_pick(l) is Some && rtc_step(
            l,
            sorted,
        ).0.proc->0.task_type == rtc_pick(l)->0.task_type,
{
    let n = rtc_step(l, sorted).0;
    match l.proc {
        Some(p) => {
            let t = p.advanced();
            if t.time_executed == t.total_time {
                assert(lane_tasks(n) =~= lane_tasks(l).remove(p));
            } else {
                assert(lane_tasks(n) =~= lane_tasks(l).remove(p).insert(t));
            }
        },
        None => {
            if l.ready.len() > 0 {
                let p = l.ready[0];
                let rest = l.ready.subrange(1, l.ready.len() as int);
                lemma_front_rest(l.ready);
                lemma_place_keeps_order(l.waiting, p, sorted);
                assert(p.pending());
                assert forall|i: int| 0 <= i < rest.len() implies (#[trigger] rest[i]).pending() by {
                    assert(rest[i] == l.ready[i + 1]);
                }
                assert forall|i: int, j: int|
                    sorted_by_total(l.ready) && 0 <= i <= j < rest.len() implies rest[i].total_time
                    <= rest[j].total_time by {
                    assert(rest[i] == l.ready[i + 1] && rest[j] == l.ready[j + 1]);
                }
                assert forall|kind: TaskType| all_of_kind(l.ready, kind) implies all_of_kind(
                    rest,
                    kind,
                ) by {
                    assert forall|i: int| 0 <= i < rest.len() implies (#[trigger] rest[i]).task_type
                        == kind by {
                        assert(rest[i] == l.ready[i + 1]);
                    }
                }
                if crate::pool::enough(l.pool, p.resourses) {
                    crate::pool::lemma_acquire_release(l.pool, p.resourses);
                    let t = p.advanced();
                    if t.time_executed == t.total_time {
                        assert(lane_tasks(n) =~= lane_tasks(l).remove(p));
                    } else {
                        assert(lane_tasks(n) =~= lane_tasks(l).remove(p).insert(t));
                    }
                } else {
                    assert(lane_tasks(n) =~= lane_tasks(l));
                }
            } else {
                assert(lane_tasks(n) =~= lane_tasks(l));
            }
        },
    }
}

/// Over a round-robin tick the lane keeps its tasks (see `moved`), the pool
/// and the hand are as before, and only tasks that the pool cannot serve
/// went to wait.
pub proof fn lemma_rr_step(l: Lane)
    requires
        all_pending(l.ready),
    ensures
        moved(lane_tasks(l), lane_tasks(rr_step(l).0), rr_pick(l)),
        match rr_pick(l) {
            Some(t) => rr_step(l).1 == report_of(t.advanced()),
            None => rr_step(l).1 is Idle,
        },
        rr_step(l).0.pool == l.pool,
        rr_step(l).0.proc == l.proc,
        all_pending(rr_step(l).0.ready),
        all_pending(l.waiting) ==> all_pending(rr_step(l).0.waiting),
        forall|kind: TaskType|
            all_of_kind(l.ready, kind) ==> all_of_kind(#[trigger] rr_step(l).0.ready, kind),
        forall|kind: TaskType|
            all_of_kind(l.ready, kind) && rr_pick(l) is Some ==> (#[trigger] rr_pick(
                l,
            )->0.advanced().task_type) == kind,
{
    let q = l.ready;
    let k = first_runnable(q, l.pool, 0);
    lemma_first_runnable(q, l.pool, 0);
    let n = rr_step(l).0;
    let head = q.subrange(0, k);
    vstd::seq_lib::lemma_multiset_commutative(l.waiting, head);
    assert forall|i: int| all_pending(l.waiting) && 0 <= i < n.waiting.len() implies (
    #[trigger] n.waiting[i]).pending() by {
        if i >= l.waiting.len() {
            assert(n.waiting[i] == q[i - l.waiting.len()]);
        } else {
            assert(n.waiting[i] == l.waiting[i]);
        }
    }
    if k < q.len() {
        let p = q[k];
        let t = p.advanced();
        let rest = q.subrange(k + 1, q.len() as int);
        lemma_split_at(q, k);
        vstd::seq_lib::to_multiset_build(rest, t);
        assert forall|i: int| 0 <= i < rest.len() implies (#[trigger] rest[i]).pending() by {
            assert(rest[i] == q[i + k + 1]);
        }
        assert forall|kind: TaskType| all_of_kind(q, kind) implies all_of_kind(
            #[trigger] n.ready,
            kind,
        ) && t.task_type == kind by {
            assert(q[k].task_type == kind);
            assert forall|i: int| 0 <= i < n.ready.len() implies (#[trigger] n.ready[i]).task_type
                == kind by {
                if i < rest.len() {
                    assert(n.ready[i] == q[i + k + 1]);
                }
            }
        }
        if t.time_executed < t.total_time {
            assert(lane_tasks(n) =~= lane_tasks(l).remove(p).insert(t));
        } else {
            assert(lane_tasks(n) =~= lane_tasks(l).remove(p));
        }
    } else {
        assert(head =~= q);
        n.ready.to_multiset_ensures();
        assert(n.ready.to_multiset() =~= Multiset::<Task>::empty());
        assert(lane_tasks(n) =~= lane_tasks(l));
    }
}

/// A change of the tasks of one part is the same change of the whole.
pub proof fn lemma_moved_frame(
    before: Multiset<Task>,
    after: Multiset<Task>,
    pick: Option<Task>,
    frame: Multiset<Task>,
    whole_before: Multiset<Task>,
    whole_after: Multiset<Task>,
)
    requires
        moved(before, after, pick),
        whole_before =~= before.add(frame),
        whole_after =~= after.add(frame),
    ensures
        moved(whole_before, whole_after, pick),
{
    match pick {
        Some(t) => {
            if t.advanced().time_executed == t.total_time {
                assert(whole_after =~= whole_before.remove(t));
            } else {
                assert(whole_after =~= whole_before.remove(t).insert(t.advanced()));
            }
        },
        None => {},
    }
}

/// Preemption moves the task in hand and nothing else, and what the pool
/// gains is what the hand gave up.
proof fn lemma_preempted(w: World, r: Resource)
    requires
        world_inv(w, Algorithm::MLQ),
    ensures
        world_inv(preempted(w), Algorithm::MLQ),
        preempted(w).proc is None,
        world_tasks(preempted(w)) == world_tasks(w),
        count(preempted(w).pool, r) == count(w.pool, r) + held(w.proc, r),
{
    match w.proc {
        Some(p) => {
            let v = preempted(w);
            assert(v.x =~= w.x.insert(0, p));
            vstd::seq_lib::to_multiset_insert(w.x, 0, p);
            assert(world_tasks(v) =~= world_tasks(w));
            assert forall|i: int| 0 <= i < v.x.len() implies (#[trigger] v.x[i]).pending() && v.x[i].task_type
                == TaskType::X by {
                if i > 0 {
                    assert(v.x[i] == w.x[i - 1]);
                }
            }
        },
        None => {},
    }
}

/// Everything that one tick of one core keeps, in one statement.
proof fn lemma_core_step(w: World, algo: Algorithm, r: Resource)
    requires
        world_inv(w, algo),
    ensures
        world_inv(core_step(w, algo).0, algo),
        moved(world_tasks(w), world_tasks(core_step(w, algo).0), picked(w, algo)),
        match picked(w, algo) {
            Some(t) => core_step(w, algo).1 == report_of(t.advanced()),
            None => core_step(w, algo).1 is Idle,
        },
        count(core_step(w, algo).0.pool, r) + held(core_step(w, algo).0.proc, r) == count(
            w.pool,
            r,
        ) + held(w.proc, r),
        algo == Algorithm::MLQ && w.z.len() > 0 && picked(w, algo) is Some ==> picked(
            w,
            algo,
        )->0.task_type == TaskType::Z,
        algo == Algorithm::MLQ && w.z.len() == 0 && w.y.len() > 0 && picked(w, algo) is Some
            ==> picked(w, algo)->0.task_type == TaskType::Y,
        picked(w, algo) is None ==> core_step(w, algo).0.proc is None,
{
    let n = core_step(w, algo).0;
    match algo {
        Algorithm::FCFS => {
            let l = lane(w, w.queue);
            lemma_rtc_step(l, false, r);
            let frame = w.x.to_multiset().add(w.y.to_multiset()).add(w.z.to_multiset());
            lemma_moved_frame(
                lane_tasks(l),
                lane_tasks(rtc_step(l, false).0),
                rtc_pick(l),
                frame,
                world_tasks(w),
                world_tasks(n),
            );
        },
        Algorithm::SJF => {
            let l = lane(w, w.queue);
            lemma_rtc_step(l, true, r);
            let frame = w.x.to_multiset().add(w.y.to_multiset()).add(w.z.to_multiset());
            lemma_moved_frame(
                lane_tasks(l),
                lane_tasks(rtc_step(l, true).0),
                rtc_pick(l),
                frame,
                world_tasks(w),
                world_tasks(n),
            );
        },
        Algorithm::RR => {
            let l = lane(w, w.queue);
            lemma_rr_step(l);
            let frame = w.x.to_multiset().add(w.y.to_multiset()).add(w.z.to_multiset());
            lemma_moved_frame(
                lane_tasks(l),
                lane_tasks(rr_step(l).0),
                rr_pick(l),
                frame,
                world_tasks(w),
                world_tasks(n),
            );
        },
        Algorithm::MLQ => {
            if w.z.len() > 0 {
                let v = preempted(w);
                lemma_preempted(w, r);
                let l = lane(v, v.z);
                lemma_rr_step(l);
                let frame = v.queue.to_multiset().add(v.x.to_multiset()).add(v.y.to_multiset());
                lemma_moved_frame(
                    lane_tasks(l),
                    lane_tasks(rr_step(l).0),
                    rr_pick(l),
                    frame,
                    world_tasks(v),
                    world_tasks(n),
                );
            } else if w.y.len() > 0 {
                let v = preempted(w);
                lemma_preempted(w, r);
                let l = lane(v, v.y);
                lemma_rr_step(l);
                let frame = v.queue.to_multiset().add(v.x.to_multiset()).add(v.z.to_multiset());
                lemma_moved_frame(
                    lane_tasks(l),
                    lane_tasks(rr_step(l).0),
                    rr_pick(l),
                    frame,
                    world_tasks(v),
                    world_tasks(n),
                );
            } else {
                let l = lane(w, w.x);
                lemma_rtc_step(l, false, r);
                let frame = w.queue.to_multiset().add(w.y.to_multiset()).add(w.z.to_multiset());
                lemma_moved_frame(
                    lane_tasks(l),
                    lane_tasks(rtc_step(l, false).0),
                    rtc_pick(l),
                    frame,
                    world_tasks(w),
                    world_tasks(n),
                );
            }
        },
    }
}

/// Resources are neither made nor lost: over a tick of a core, what the pool
/// has free of a resource and what the core holds of it in hand add up to
/// the same as before.
pub proof fn lemma_conservation(w: World, algo: Algorithm, r: Resource)
    requires
        world_inv(w, algo),
    ensures
        count(core_step(w, algo).0.pool, r) + held(core_step(w, algo).0.proc, r) == count(
            w.pool,
            r,
        ) + held(w.proc, r),
{
    lemma_core_step(w, algo, r);
}

/// A counter of the pool never leaves its range: where the free units and
/// the units in the core's hand were within a capacity before a tick, the
/// free units are between zero and that capacity after it.
pub proof fn lemma_within_capacity(w: World, algo: Algorithm, r: Resource, capacity: int)
    requires
        world_inv(w, algo),
        count(w.pool, r) + held(w.proc, r) <= capacity,
    ensures
        0 <= count(core_step(w, algo).0.pool, r) <= capacity,
        count(core_step(w, algo).0.pool, r) + held(core_step(w, algo).0.proc, r) <= capacity,
{
    lemma_core_step(w, algo, r);
}

/// A tick of a core runs at most one task, and that one by exactly one unit:
/// the report shows the task as it stands after the unit, with at least one
/// unit and no more than its total executed. Every other task is as it was.
pub proof fn lemma_progress(w: World, algo: Algorithm)
    requires
        world_inv(w, algo),
    ensures
        match picked(w, algo) {
            Some(t) => {
                &&& world_tasks(w).count(t) > 0
                &&& core_step(w, algo).1 == report_of(t.advanced())
                &&& t.advanced().time_executed == t.time_executed + 1
                &&& t.advanced().time_executed <= t.advanced().total_time
                &&& t.advanced().total_time == t.total_time
            },
            None => core_step(w, algo).1 is Idle && world_tasks(core_step(w, algo).0)
                == world_tasks(w),
        },
        moved(world_tasks(w), world_tasks(core_step(w, algo).0), picked(w, algo)),
{
    lemma_core_step(w, algo, Resource::A);
}

/// A core that reports idle has nothing in hand after its tick.
pub proof fn lemma_idle_hand(w: World, algo: Algorithm)
    requires
        world_inv(w, algo),
        core_step(w, algo).1 is Idle,
    ensures
        core_step(w, algo).0.proc is None,
{
    lemma_core_step(w, algo, Resource::A);
}

/// Each task is in one place: over a tick of a core the multiset of the
/// tasks in the ready queues, the waiting queue and the core's hand changes
/// by the task that ran and by nothing else, and the state stays valid.
pub proof fn lemma_single_ownership(w: World, algo: Algorithm)
    requires
        world_inv(w, algo),
    ensures
        world_inv(core_step(w, algo).0, algo),
        moved(world_tasks(w), world_tasks(core_step(w, algo).0), picked(w, algo)),
{
    lemma_core_step(w, algo, Resource::A);
}

/// Under the shortest-job policy the ready queue and the waiting queue are
/// in order of total time after a tick of a core, if they were before it.
pub proof fn lemma_sjf_order_after_step(w: World)
    requires
        world_inv(w, Algorithm::SJF),
    ensures
        sorted_by_total(core_step(w, Algorithm::SJF).0.queue),
        sorted_by_total(core_step(w, Algorithm::SJF).0.waiting),
{
    lemma_core_step(w, Algorithm::SJF, Resource::A);
}

/// Under the multi-level policy a core that finds the highest level occupied
/// runs a task of that level or none, and one that finds it empty and the
/// middle level occupied runs a task of the middle level or none.
pub proof fn lemma_mlq_priority(w: World)
    requires
        world_inv(w, Algorithm::MLQ),
    ensures
        w.z.len() > 0 ==> match core_step(w, Algorithm::MLQ).1 {
            Report::Processing { task_type, .. } => task_type == TaskType::Z,
            Report::Idle { .. } => true,
        },
        w.z.len() == 0 && w.y.len() > 0 ==> match core_step(w, Algorithm::MLQ).1 {
            Report::Processing { task_type, .. } => task_type == TaskType::Y,
            Report::Idle { .. } => true,
        },
        w.z.len() == 0 && w.y.len() == 0 ==> match core_step(w, Algorithm::MLQ).1 {
            Report::Processing { task_type, .. } => task_type == TaskType::X,
            Report::Idle { .. } => true,
        },
{
    lemma_core_step(w, Algorithm::MLQ, Resource::A);
    if w.z.len() == 0 && w.y.len() == 0 {
        lemma_rtc_step(lane(w, w.x), false, Resource::A);
        if w.proc is None && w.x.len() > 0 {
            assert(w.x[0].task_type == TaskType::X);
        }
    }
}

/// The coordinator's look at the waiting queue moves at most one task and
/// changes none: the board holds the same tasks after it, still schedulable,
/// each level still of its kind, and in order under the shortest-job policy.
pub proof fn lemma_reconciled(b: Board, pool: Resources, algo: Algorithm)
    requires
        board_inv(b, algo),
    ensures
        board_inv(reconciled(b, pool, algo), algo),
        board_tasks(reconciled(b, pool, algo)) == board_tasks(b),
{
    if b.waiting.len() > 0 {
        let p = b.waiting[0];
        let rest = b.waiting.subrange(1, b.waiting.len() as int);
        let sorted = algo == Algorithm::SJF;
        lemma_front_rest(b.waiting);
        assert forall|i: int| 0 <= i < rest.len() implies (#[trigger] rest[i]).pending() by {
            assert(rest[i] == b.waiting[i + 1]);
        }
        assert forall|i: int, j: int|
            sorted_by_total(b.waiting) && 0 <= i <= j < rest.len() implies rest[i].total_time
            <= rest[j].total_time by {
            assert(rest[i] == b.waiting[i + 1] && rest[j] == b.waiting[j + 1]);
        }
        lemma_place_keeps_order(rest, p, sorted);
        lemma_place_keeps_order(b.queue, p, sorted);
        vstd::seq_lib::to_multiset_build(b.x, p);
        vstd::seq_lib::to_multiset_build(b.y, p);
        vstd::seq_lib::to_multiset_build(b.z, p);
        assert(board_tasks(reconciled(b, pool, algo)) =~= board_tasks(b));
    }
}

/// A schedulable task that becomes ready leaves the board valid and is the
/// one task that the board gains.
pub proof fn lemma_promoted(b: Board, p: Task, algo: Algorithm)
    requires
        board_inv(b, algo),
        p.pending(),
    ensures
        board_inv(crate::master::promoted(b, p, algo), algo),
        board_tasks(crate::master::promoted(b, p, algo)) == board_tasks(b).insert(p),
{
    lemma_place_keeps_order(b.queue, p, algo == Algorithm::SJF);
    vstd::seq_lib::to_multiset_build(b.x, p);
    vstd::seq_lib::to_multiset_build(b.y, p);
    vstd::seq_lib::to_multiset_build(b.z, p);
    assert(board_tasks(crate::master::promoted(b, p, algo)) =~= board_tasks(b).insert(p));
}

} // verus!

use vstd::prelude::*;
use crate::task::{all_pending, Algorithm, Resource, Task};
use crate::pool::{count, Resources};
use crate::queue::{lemma_slot_from, place, slot_from};
use crate::worker::{
    core_step, first_runnable, hand_ok, lane, preempted, rr_step, rtc_step, Core, Lane, Report,
    World,
};
use crate::master::{all_idle, nothing_ready, promoted, reconciled, Board};
use crate::laws::{lemma_first_runnable, lemma_promoted, lemma_reconciled, world_inv};
use crate::sim::{
    after_cores, after_tick, busy, core_tick, floor_inv, has_hand, lemma_after_cores,
    lemma_core_tick_keeps_floor, lemma_quiet_cores, lemma_reports_len, lemma_some_core_runs,
    lemma_waiting_is_not_stranded, quiet, run_can_tick, run_of, tick_of, world_at, Floor, Run,
};

verus! {

/// The units of execution that the tasks of a queue still need, together.
pub open spec fn work(s: Seq<Task>) -> int
    decreases s.len(),
{
    if s.len() == 0 {
        0
    } else {
        work(s.drop_last()) + s.last().remaining()
    }
}

/// The units that the task in a hand still needs.
pub open spec fn hand_work(proc: Option<Task>) -> int {
    match proc {
        Some(p) => p.remaining(),
        None => 0,
    }
}

/// The units that the tasks in the hands of the cores still need, together.
pub open spec fn hands_work(cores: Seq<Core>) -> int
    decreases cores.len(),
{
    if cores.len() == 0 {
        0
    } else {
        hands_work(cores.drop_last()) + hand_work(cores.last().proc)
    }
}

/// The units that the tasks of a lane still need.
pub open spec fn lane_work(l: Lane) -> int {
    work(l.ready) + work(l.waiting) + hand_work(l.proc)
}

/// The units that the tasks in the world of one core still need.
pub open spec fn world_work(w: World) -> int {
    work(w.queue) + work(w.x) + work(w.y) + work(w.z) + work(w.waiting) + hand_work(w.proc)
}

/// The units that the tasks on the board still need.
pub open spec fn board_work(b: Board) -> int {
    work(b.queue) + work(b.x) + work(b.y) + work(b.z) + work(b.waiting)
}

/// The units that all tasks of the floor still need.
pub open spec fn floor_work(f: Floor) -> int {
    board_work(f.board) + hands_work(f.cores)
}

/// One for a report of a unit that was run, nothing for an idle one.
pub open spec fn ran(report: Report) -> int {
    if report is Processing {
        1
    } else {
        0
    }
}

/// How many of the reports say that a unit was run.
pub open spec fn units_run(reports: Seq<Report>) -> int
    decreases reports.len(),
{
    if reports.len() == 0 {
        0
    } else {
        units_run(reports.drop_last()) + ran(reports.last())
    }
}

/// The ready structures that the policy does not draw from are empty.
pub open spec fn lanes_fit(b: Board, algo: Algorithm) -> bool {
    match algo {
        Algorithm::MLQ => b.queue.len() == 0,
        _ => b.x.len() == 0 && b.y.len() == 0 && b.z.len() == 0,
    }
}

/// What a run keeps from tick to tick when no capacity is zero: a valid
/// floor with at least one core, tasks only where the policy looks for
/// them, and no task left waiting with nothing else to do.
pub open spec fn steady(f: Floor, algo: Algorithm, capacity: Resources) -> bool {
    &&& floor_inv(f, algo, capacity)
    &&& count(capacity, Resource::A) >= 1
    &&& count(capacity, Resource::B) >= 1
    &&& count(capacity, Resource::C) >= 1
    &&& f.cores.len() > 0
    &&& lanes_fit(f.board, algo)
    &&& f.board.waiting.len() > 0 ==> busy(f, algo)
}

/// A task at the tail adds the units it needs.
proof fn lemma_work_push(s: Seq<Task>, t: Task)
    ensures
        work(s.push(t)) == work(s) + t.remaining(),
{
    assert(s.push(t).drop_last() =~= s);
}

/// Two queues in a row need what each needs.
proof fn lemma_work_concat(a: Seq<Task>, b: Seq<Task>)
    ensures
        work(a + b) == work(a) + work(b),
    decreases b.len(),
{
    if b.len() == 0 {
        assert(a + b =~= a);
    } else {
        lemma_work_concat(a, b.drop_last());
        assert((a + b).drop_last() =~= a + b.drop_last());
    }
}

/// A queue needs what its two parts at an index need.
proof fn lemma_work_split(s: Seq<Task>, k: int)
    requires
        0 <= k <= s.len(),
    ensures
        work(s) == work(s.subrange(0, k)) + work(s.subrange(k, s.len() as int)),
{
    lemma_work_concat(s.subrange(0, k), s.subrange(k, s.len() as int));
    assert(s =~= s.subrange(0, k) + s.subrange(k, s.len() as int));
}

/// A queue needs what its front and its rest need.
proof fn lemma_work_front(s: Seq<Task>)
    requires
        s.len() > 0,
    ensures
        work(s) == s[0].remaining() + work(s.subrange(1, s.len() as int)),
{
    lemma_work_split(s, 1);
    let h = s.subrange(0, 1);
    assert(h.drop_last() =~= Seq::<Task>::empty());
    assert(h.last() == s[0]);
    assert(work(h.drop_last()) == 0);
}

/// A task that joins a queue adds the units it needs, wherever it goes.
proof fn lemma_work_place(s: Seq<Task>, t: Task, sorted: bool)
    ensures
        work(place(s, t, sorted)) == work(s) + t.remaining(),
{
    lemma_slot_from(s, t.total_time, 0);
    let k = slot_from(s, t.total_time, 0);
    lemma_work_split(s, k);
    lemma_work_push(s.subrange(0, k), t);
    lemma_work_concat(s.subrange(0, k).push(t), s.subrange(k, s.len() as int));
    assert(s.insert(k, t) =~= s.subrange(0, k).push(t) + s.subrange(k, s.len() as int));
    lemma_work_push(s, t);
}

/// Replacing one core changes the sum by what its hand needs more or less.
proof fn lemma_hands_work_update(cores: Seq<Core>, i: int, core: Core)
    requires
        0 <= i < cores.len(),
    ensures
        hands_work(cores.update(i, core)) == hands_work(cores) - hand_work(cores[i].proc)
            + hand_work(core.proc),
    decreases cores.len(),
{
    let n = cores.len() - 1;
    if i < n {
        lemma_hands_work_update(cores.drop_last(), i, core);
        assert(cores.update(i, core).drop_last() =~= cores.drop_last().update(i, core));
    } else {
        assert(cores.update(i, core).drop_last() =~= cores.drop_last());
    }
}

/// Empty hands need nothing.
proof fn lemma_hands_work_idle(cores: Seq<Core>)
    requires
        forall|i: int| 0 <= i < cores.len() ==> (#[trigger] cores[i]).proc is None,
    ensures
        hands_work(cores) == 0,
    decreases cores.len(),
{
    if cores.len() > 0 {
        lemma_hands_work_idle(cores.drop_last());
    }
}

/// No more units were run than reports came in, and at least one where a
/// report is not an idle one.
proof fn lemma_units_run(reports: Seq<Report>)
    ensures
        0 <= units_run(reports) <= reports.len(),
        !all_idle(reports) ==> units_run(reports) >= 1,
    decreases reports.len(),
{
    if reports.len() > 0 {
        lemma_units_run(reports.drop_last());
        if !all_idle(reports) && !(reports.last() is Processing) {
            let i = choose|i: int| 0 <= i < reports.len() && !(#[trigger] reports[i] is Idle);
            assert(reports.drop_last()[i] == reports[i]);
        }
    }
}

/// A run-to-completion tick takes one unit off the lane where it reports a
/// unit, and nothing where it reports idle.
proof fn lemma_rtc_work(l: Lane, sorted: bool)
    requires
        hand_ok(l.proc, l.pool),
        all_pending(l.ready),
    ensures
        lane_work(rtc_step(l, sorted).0) + ran(rtc_step(l, sorted).1) == lane_work(l),
{
    if l.proc is None && l.ready.len() > 0 {
        lemma_work_front(l.ready);
        lemma_work_place(l.waiting, l.ready[0], sorted);
        assert(l.ready[0].pending());
    }
}

/// A round-robin tick takes one unit off the lane where it reports a unit,
/// and nothing where it reports idle.
proof fn lemma_rr_work(l: Lane)
    requires
        all_pending(l.ready),
    ensures
        lane_work(rr_step(l).0) + ran(rr_step(l).1) == lane_work(l),
{
    let q = l.ready;
    let k = first_runnable(q, l.pool, 0);
    lemma_first_runnable(q, l.pool, 0);
    lemma_work_split(q, k);
    lemma_work_concat(l.waiting, q.subrange(0, k));
    let tail = q.subrange(k, q.len() as int);
    if k < q.len() {
        lemma_work_front(tail);
        let rest = q.subrange(k + 1, q.len() as int);
        assert(tail.subrange(1, tail.len() as int) =~= rest);
        assert(tail[0] == q[k]);
        assert(q[k].pending());
        lemma_work_push(rest, q[k].advanced());
    } else {
        assert(tail =~= Seq::<Task>::empty());
    }
}

/// A tick of a core takes one unit off its world where it reports a unit,
/// and nothing where it reports idle.
proof fn lemma_step_work(w: World, algo: Algorithm)
    requires
        world_inv(w, algo),
    ensures
        world_work(core_step(w, algo).0) + ran(core_step(w, algo).1) == world_work(w),
{
    match algo {
        Algorithm::FCFS => lemma_rtc_work(lane(w, w.queue), false),
        Algorithm::SJF => lemma_rtc_work(lane(w, w.queue), true),
        Algorithm::RR => lemma_rr_work(lane(w, w.queue)),
        Algorithm::MLQ => {
            let v = preempted(w);
            if w.proc is Some {
                let p = w.proc->0;
                lemma_work_concat(seq![p], w.x);
                lemma_work_push(Seq::<Task>::empty(), p);
                assert(seq![p] =~= Seq::<Task>::empty().push(p));
            }
            assert(world_work(v) == world_work(w));
            if w.z.len() > 0 {
                lemma_rr_work(lane(v, v.z));
            } else if w.y.len() > 0 {
                lemma_rr_work(lane(v, v.y));
            } else {
                lemma_rtc_work(lane(w, w.x), false);
            }
        },
    }
}

/// The ticks of the cores account for every unit: what the tasks of the
/// floor still need went down by the number of units that were reported as
/// run. Tasks stay where the policy looks for them, and no idle counter
/// went up by more than one.
pub proof fn lemma_cores_account(f: Floor, algo: Algorithm, capacity: Resources, n: nat)
    requires
        floor_inv(f, algo, capacity),
        lanes_fit(f.board, algo),
        n <= f.cores.len(),
    ensures
        floor_work(after_cores(f, algo, n).0) + units_run(after_cores(f, algo, n).1) == floor_work(
            f,
        ),
        lanes_fit(after_cores(f, algo, n).0.board, algo),
        after_cores(f, algo, n).0.cores.len() == f.cores.len(),
        forall|i: int|
            0 <= i < f.cores.len() ==> (#[trigger] after_cores(f, algo, n).0.cores[i]).idle_count
                <= f.cores[i].idle_count + 1,
    decreases n,
{
    lemma_after_cores(f, algo, capacity, n);
    if n > 0 {
        let m = (n - 1) as nat;
        lemma_cores_account(f, algo, capacity, m);
        lemma_after_cores(f, algo, capacity, m);
        let before = after_cores(f, algo, m);
        let g = before.0;
        lemma_core_tick_keeps_floor(g, algo, capacity, m as int);
        let w = world_at(g, m as int);
        lemma_step_work(w, algo);
        let step = core_tick(g, algo, m as int);
        lemma_hands_work_update(g.cores, m as int, step.0.cores[m as int]);
        let after = after_cores(f, algo, n);
        assert(after.1.drop_last() =~= before.1);
        assert(g.cores[m as int] == f.cores[m as int]);
        assert forall|i: int| 0 <= i < f.cores.len() implies (#[trigger] after.0.cores[i]).idle_count
            <= f.cores[i].idle_count + 1 by {
            if i != m {
                assert(after.0.cores[i] == g.cores[i]);
            }
        }
    }
}

/// The coordinator moves a task and changes none: the board needs as much
/// as before, and tasks stay where the policy looks for them.
proof fn lemma_reconciled_work(b: Board, pool: Resources, algo: Algorithm)
    ensures
        board_work(reconciled(b, pool, algo)) == board_work(b),
        lanes_fit(b, algo) ==> lanes_fit(reconciled(b, pool, algo), algo),
{
    if b.waiting.len() > 0 {
        let p = b.waiting[0];
        let rest = b.waiting.subrange(1, b.waiting.len() as int);
        lemma_work_front(b.waiting);
        lemma_work_place(rest, p, algo == Algorithm::SJF);
        lemma_work_place(b.queue, p, algo == Algorithm::SJF);
        lemma_work_push(b.x, p);
        lemma_work_push(b.y, p);
        lemma_work_push(b.z, p);
    }
}

/// A whole tick of a steady run leaves it steady, and where there was
/// something to run the tasks need less afterwards than before.
pub proof fn lemma_tick_works(f: Floor, algo: Algorithm, capacity: Resources)
    requires
        steady(f, algo, capacity),
    ensures
        steady(after_tick(f, algo), algo, capacity),
        floor_work(after_tick(f, algo)) + units_run(after_cores(f, algo, f.cores.len()).1)
            == floor_work(f),
        busy(f, algo) ==> floor_work(after_tick(f, algo)) < floor_work(f) && !all_idle(
            after_cores(f, algo, f.cores.len()).1,
        ),
        forall|i: int|
            0 <= i < f.cores.len() ==> (#[trigger] after_tick(f, algo).cores[i]).idle_count
                <= f.cores[i].idle_count + 1,
{
    let n = f.cores.len();
    lemma_cores_account(f, algo, capacity, n);
    lemma_after_cores(f, algo, capacity, n);
    let g0 = after_cores(f, algo, n).0;
    let reports = after_cores(f, algo, n).1;
    lemma_reconciled(g0.board, g0.pool, algo);
    lemma_reconciled_work(g0.board, g0.pool, algo);
    lemma_waiting_is_not_stranded(f, algo, capacity);
    lemma_units_run(reports);
    if busy(f, algo) {
        lemma_some_core_runs(f, algo, capacity);
    }
}

/// A tick runs at most one unit on each core: after it the tasks need at
/// most as many units less as there are cores.
pub proof fn lemma_tick_pace(f: Floor, algo: Algorithm, capacity: Resources)
    requires
        floor_inv(f, algo, capacity),
        lanes_fit(f.board, algo),
    ensures
        floor_work(f) - f.cores.len() <= floor_work(after_tick(f, algo)) <= floor_work(f),
{
    let n = f.cores.len();
    lemma_cores_account(f, algo, capacity, n);
    lemma_reports_len(f, algo, n);
    let g0 = after_cores(f, algo, n).0;
    lemma_reconciled_work(g0.board, g0.pool, algo);
    lemma_units_run(after_cores(f, algo, n).1);
}

/// Termination. A steady run whose counters of ticks have room ends as
/// terminated, neither as a livelock nor at the limit, when it is given more
/// ticks than its tasks need units, and its last tick is no later than one
/// tick after as many ticks as the tasks needed units at the start.
pub proof fn lemma_run_terminates(r: Run, algo: Algorithm, capacity: Resources, limit: nat)
    requires
        steady(r.floor, algo, capacity),
        limit > floor_work(r.floor),
        r.clocks + limit <= u64::MAX,
        forall|i: int|
            0 <= i < r.floor.cores.len() ==> (#[trigger] r.floor.cores[i]).idle_count + limit
                <= u64::MAX,
    ensures
        run_of(r, algo, limit).1 is Terminated,
        run_of(r, algo, limit).0.clocks <= r.clocks + floor_work(r.floor) + 1,
        run_of(r, algo, limit).0.clocks > r.clocks,
        floor_work(r.floor) >= 0,
    decreases limit,
{
    let f = r.floor;
    lemma_tick_works(f, algo, capacity);
    let t = tick_of(r, algo);
    let reports = after_cores(f, algo, f.cores.len()).1;
    assert(limit > 0) by {
        if !busy(f, algo) {
            lemma_empty_floor(f, algo);
        } else {
            lemma_units_run(reports);
            lemma_floor_work_nonnegative(after_tick(f, algo), algo, capacity);
        }
    }
    assert(run_can_tick(r));
    if busy(f, algo) {
        assert(t.1 is Continue);
        lemma_floor_work_nonnegative(t.0.floor, algo, capacity);
        assert(t.0.floor.cores.len() == f.cores.len()) by {
            lemma_after_cores(f, algo, capacity, f.cores.len());
        }
        assert forall|i: int| 0 <= i < t.0.floor.cores.len() implies (#[trigger] t.0.floor.cores[i]).idle_count
            + (limit - 1) <= u64::MAX by {
            assert(f.cores[i].idle_count + limit <= u64::MAX);
            assert(after_tick(f, algo).cores[i].idle_count <= f.cores[i].idle_count + 1);
        }
        lemma_run_terminates(t.0, algo, capacity, (limit - 1) as nat);
    } else {
        lemma_empty_floor(f, algo);
        lemma_quiet_cores(f, algo, f.cores.len());
        assert(t.1 is Terminated);
    }
}

/// A floor that is not busy and on which no task waits holds no task.
proof fn lemma_empty_floor(f: Floor, algo: Algorithm)
    requires
        !busy(f, algo),
        lanes_fit(f.board, algo),
        f.board.waiting.len() == 0,
    ensures
        quiet(f),
        nothing_ready(f.board),
        floor_work(f) == 0,
{
    assert forall|i: int| 0 <= i < f.cores.len() implies (#[trigger] f.cores[i]).proc is None by {
        if f.cores[i].proc is Some {
            assert(has_hand(f.cores));
        }
    }
    lemma_hands_work_idle(f.cores);
}

/// Schedulable tasks need no negative number of units.
proof fn lemma_work_nonnegative(s: Seq<Task>)
    requires
        all_pending(s),
    ensures
        work(s) >= 0,
    decreases s.len(),
{
    if s.len() > 0 {
        assert(s.last().pending());
        assert forall|i: int| 0 <= i < s.drop_last().len() implies (#[trigger] s.drop_last()[i]).pending() by {
            assert(s.drop_last()[i] == s[i]);
        }
        lemma_work_nonnegative(s.drop_last());
    }
}

/// Valid hands need no negative number of units.
proof fn lemma_hands_work_nonnegative(cores: Seq<Core>, algo: Algorithm)
    requires
        forall|i: int| 0 <= i < cores.len() ==> crate::sim::core_inv(#[trigger] cores[i], algo),
    ensures
        hands_work(cores) >= 0,
    decreases cores.len(),
{
    if cores.len() > 0 {
        assert(crate::sim::core_inv(cores.last(), algo));
        assert forall|i: int| 0 <= i < cores.drop_last().len() implies crate::sim::core_inv(
            #[trigger] cores.drop_last()[i],
            algo,
        ) by {
            assert(cores.drop_last()[i] == cores[i]);
        }
        lemma_hands_work_nonnegative(cores.drop_last(), algo);
    }
}

/// On a valid floor no task needs a negative number of units.
pub proof fn lemma_floor_work_nonnegative(f: Floor, algo: Algorithm, capacity: Resources)
    requires
        floor_inv(f, algo, capacity),
    ensures
        floor_work(f) >= 0,
{
    lemma_work_nonnegative(f.board.queue);
    lemma_work_nonnegative(f.board.x);
    lemma_work_nonnegative(f.board.y);
    lemma_work_nonnegative(f.board.z);
    lemma_work_nonnegative(f.board.waiting);
    lemma_hands_work_nonnegative(f.cores, algo);
}

/// A schedulable task that is admitted to a steady floor leaves it steady,
/// and adds the units it needs to the work of the floor.
pub proof fn lemma_admission_keeps_steady(
    f: Floor,
    algo: Algorithm,
    capacity: Resources,
    task: Task,
)
    requires
        steady(f, algo, capacity),
        task.pending(),
    ensures
        steady(Floor { board: promoted(f.board, task, algo), ..f }, algo, capacity),
        floor_work(Floor { board: promoted(f.board, task, algo), ..f }) == floor_work(f)
            + task.remaining(),
{
    lemma_promoted(f.board, task, algo);
    lemma_work_place(f.board.queue, task, algo == Algorithm::SJF);
    lemma_work_push(f.board.x, task);
    lemma_work_push(f.board.y, task);
    lemma_work_push(f.board.z, task);
    crate::queue::lemma_place_keeps_order(f.board.queue, task, algo == Algorithm::SJF);
}

} // verus!

use vstd::prelude::*;
use std::collections::VecDeque;
use crate::task::{all_pending, Algorithm, Task, TaskType};
use crate::pool::{
    acquired, can_release, check_for_room, enough, lemma_acquire_release, release_resources,
    released, try_acquire, Resources,
};
use crate::queue::{enqueue, place};

verus! {

/// What a core keeps between ticks: the task it holds under a
/// run-to-completion policy, and how often it has been idle.
#[derive(Debug)]
pub struct Core {
    pub proc: Option<Task>,
    pub idle_count: u64,
}

/// The three ready queues of the multi-level policy, one for each kind.
#[derive(Debug)]
pub struct Levels {
    pub x: VecDeque<Task>,
    pub y: VecDeque<Task>,
    pub z: VecDeque<Task>,
}

/// What a core says of its tick.
#[derive(Debug, PartialEq, Eq)]
pub enum Report {
    /// The core ran the named task for one unit; `time_executed` counts it.
    Processing { name: String, task_type: TaskType, total_time: u16, time_executed: u16 },
    /// The core found nothing to run; `idle_count` counts this tick.
    Idle { idle_count: u64 },
}

/// What one core sees of one ready queue: its own state, that queue, the
/// waiting queue and the pool.
pub struct Lane {
    pub proc: Option<Task>,
    pub idle_count: u64,
    pub ready: Seq<Task>,
    pub waiting: Seq<Task>,
    pub pool: Resources,
}

/// Everything one core's tick may read or change.
pub struct World {
    pub proc: Option<Task>,
    pub idle_count: u64,
    pub queue: Seq<Task>,
    pub x: Seq<Task>,
    pub y: Seq<Task>,
    pub z: Seq<Task>,
    pub waiting: Seq<Task>,
    pub pool: Resources,
}

/// The report of a tick that ran `t`, given as `t` stands after the tick.
pub open spec fn report_of(t: Task) -> Report {
    Report::Processing {
        name: t.name,
        task_type: t.task_type,
        total_time: t.total_time,
        time_executed: t.time_executed,
    }
}

/// A tick without work: only the idle counter moves.
pub open spec fn idle(l: Lane) -> (Lane, Report) {
    let n = (l.idle_count + 1) as u64;
    (Lane { idle_count: n, ..l }, Report::Idle { idle_count: n })
}

/// One unit of a task that holds its pair across ticks: it stays in hand
/// until it completes, and then gives its pair back.
pub open spec fn run_held(l: Lane, p: Task) -> (Lane, Report) {
    let t = p.advanced();
    if t.time_executed == t.total_time {
        (Lane { proc: None, pool: released(l.pool, t.resourses), ..l }, report_of(t))
    } else {
        (Lane { proc: Some(t), ..l }, report_of(t))
    }
}

/// The run-to-completion tick. A core with a task in hand runs it. A core
/// without one takes the front of the ready queue: if the pool can serve it
/// the task acquires its pair and runs, else it joins the waiting queue and
/// the core is idle.
pub open spec fn rtc_step(l: Lane, sorted: bool) -> (Lane, Report) {
    match l.proc {
        Some(p) => run_held(l, p),
        None => {
            if l.ready.len() == 0 {
                idle(l)
            } else {
                let p = l.ready[0];
                let rest = l.ready.subrange(1, l.ready.len() as int);
                if enough(l.pool, p.resourses) {
                    run_held(Lane { ready: rest, pool: acquired(l.pool, p.resourses), ..l }, p)
                } else {
                    idle(Lane { ready: rest, waiting: place(l.waiting, p, sorted), ..l })
                }
            }
        },
    }
}

/// The first index at or after `from` whose task the pool can serve, or the
/// length where there is none.
pub open spec fn first_runnable(q: Seq<Task>, pool: Resources, from: int) -> int
    decreases q.len() - from,
{
    if from < 0 || from >= q.len() || enough(pool, q[from].resourses) {
        from
    } else {
        first_runnable(q, pool, from + 1)
    }
}

/// The round-robin tick. The tasks in front of the first one that the pool
/// can serve move to the waiting queue, in order. That one runs for one unit,
/// holding its pair for the tick only, and goes to the tail unless it is
/// complete. Where the pool can serve none, the core is idle.
pub open spec fn rr_step(l: Lane) -> (Lane, Report) {
    let k = first_runnable(l.ready, l.pool, 0);
    let parked = l.waiting + l.ready.subrange(0, k);
    if k < l.ready.len() {
        let t = l.ready[k].advanced();
        let rest = l.ready.subrange(k + 1, l.ready.len() as int);
        let ready = if t.time_executed < t.total_time {
            rest.push(t)
        } else {
            rest
        };
        (Lane { ready, waiting: parked, ..l }, report_of(t))
    } else {
        idle(Lane { ready: Seq::empty(), waiting: parked, ..l })
    }
}

/// A task in hand goes back to the front of the lowest level, keeps its
/// progress and gives up its pair.
pub open spec fn preempted(w: World) -> World {
    match w.proc {
        Some(p) => World {
            proc: None,
            x: seq![p] + w.x,
            pool: released(w.pool, p.resourses),
            ..w
        },
        None => w,
    }
}

/// The part of the world that a tick on the given ready queue works on.
pub open spec fn lane(w: World, ready: Seq<Task>) -> Lane {
    Lane { proc: w.proc, idle_count: w.idle_count, ready, waiting: w.waiting, pool: w.pool }
}

/// The world without the ready queue that a lane's tick worked on.
pub open spec fn merged(w: World, l: Lane) -> World {
    World { proc: l.proc, idle_count: l.idle_count, waiting: l.waiting, pool: l.pool, ..w }
}

/// One tick of one core under the given policy.
pub open spec fn core_step(w: World, algo: Algorithm) -> (World, Report) {
    match algo {
        Algorithm::FCFS => {
            let r = rtc_step(lane(w, w.queue), false);
            (World { queue: r.0.ready, ..merged(w, r.0) }, r.1)
        },
        Algorithm::SJF => {
            let r = rtc_step(lane(w, w.queue), true);
            (World { queue: r.0.ready, ..merged(w, r.0) }, r.1)
        },
        Algorithm::RR => {
            let r = rr_step(lane(w, w.queue));
            (World { queue: r.0.ready, ..merged(w, r.0) }, r.1)
        },
        Algorithm::MLQ => {
            if w.z.len() > 0 {
                let v = preempted(w);
                let r = rr_step(lane(v, v.z));
                (World { z: r.0.ready, ..merged(v, r.0) }, r.1)
            } else if w.y.len() > 0 {
                let v = preempted(w);
                let r = rr_step(lane(v, v.y));
                (World { y: r.0.ready, ..merged(v, r.0) }, r.1)
            } else {
                let r = rtc_step(lane(w, w.x), false);
                (World { x: r.0.ready, ..merged(w, r.0) }, r.1)
            }
        },
    }
}

/// A task in hand is schedulable and its pair can go back to the pool.
pub open spec fn hand_ok(proc: Option<Task>, pool: Resources) -> bool {
    match proc {
        Some(p) => p.pending() && can_release(pool, p.resourses),
        None => true,
    }
}

/// What a tick needs of the state it starts from: schedulable tasks in every
/// ready queue and in hand, and counters that can still go up.
pub open spec fn world_ok(w: World) -> bool {
    &&& w.idle_count < u64::MAX
    &&& hand_ok(w.proc, w.pool)
    &&& all_pending(w.queue)
    &&& all_pending(w.x)
    &&& all_pending(w.y)
    &&& all_pending(w.z)
}

/// The world that a core, the queues and the pool make up.
pub open spec fn world_of(
    core: Core,
    queue: Seq<Task>,
    waiting: Seq<Task>,
    pool: Resources,
    x: Seq<Task>,
    y: Seq<Task>,
    z: Seq<Task>,
) -> World {
    World { proc: core.proc, idle_count: core.idle_count, queue, x, y, z, waiting, pool }
}

impl Core {
    /// A core with nothing in hand that has never been idle.
    pub fn new() -> (core: Core)
        ensures
            core.proc is None,
            core.idle_count == 0,
    {
        Core { proc: None, idle_count: 0 }
    }
}

impl Levels {
    /// Three empty levels.
    pub fn new() -> (levels: Levels)
        ensures
            levels.x@ == Seq::<Task>::empty(),
            levels.y@ == Seq::<Task>::empty(),
            levels.z@ == Seq::<Task>::empty(),
    {
        Levels { x: VecDeque::new(), y: VecDeque::new(), z: VecDeque::new() }
    }
}

impl Report {
    /// Whether the core had nothing to run.
    pub fn is_idle(&self) -> (idle: bool)
        ensures
            idle == (self is Idle),
    {
        match self {
            Report::Idle { .. } => true,
            Report::Processing { .. } => false,
        }
    }
}

/// Counts an idle tick of the core and reports it.
fn count_idle(core: &mut Core) -> (report: Report)
    requires
        old(core).idle_count < u64::MAX,
    ensures
        final(core).proc == old(core).proc,
        final(core).idle_count == old(core).idle_count + 1,
        report == (Report::Idle { idle_count: final(core).idle_count }),
{
    core.idle_count = core.idle_count + 1;
    Report::Idle { idle_count: core.idle_count }
}

/// Runs the task for one unit and reports the task as it then stands.
fn run_one_unit(p: &mut Task) -> (report: Report)
    requires
        old(p).pending(),
    ensures
        *final(p) == old(p).advanced(),
        report == report_of(*final(p)),
{
    p.time_executed = p.time_executed + 1;
    Report::Processing {
        name: p.name.clone(),
        task_type: p.task_type,
        total_time: p.total_time,
        time_executed: p.time_executed,
    }
}

/// One tick of a core under a run-to-completion policy, on the given ready
/// queue; `sorted` says whether the waiting queue is kept in order of total
/// time.
pub fn run_to_completion(
    core: &mut Core,
    ready: &mut VecDeque<Task>,
    w_queue: &mut VecDeque<Task>,
    resourses: &mut Resources,
    sorted: bool,
) -> (report: Report)
    requires
        old(core).idle_count < u64::MAX,
        hand_ok(old(core).proc, *old(resourses)),
        all_pending(old(ready)@),
    ensures
        (
            Lane {
                proc: final(core).proc,
                idle_count: final(core).idle_count,
                ready: final(ready)@,
                waiting: final(w_queue)@,
                pool: *final(resourses),
            },
            report,
        ) == rtc_step(
            Lane {
                proc: old(core).proc,
                idle_count: old(core).idle_count,
                ready: old(ready)@,
                waiting: old(w_queue)@,
                pool: *old(resourses),
            },
            sorted,
        ),
{
    let mut hand = core.proc.take();
    if hand.is_none() {
        match ready.pop_front() {
            Some(p) => {
                if try_acquire(resourses, p.resourses) {
                    proof {
                        lemma_acquire_release(*old(resourses), p.resourses);
                    }
                    hand = Some(p);
                } else {
                    enqueue(w_queue, p, sorted);
                }
            },
            None => {},
        }
    }
    match hand {
        Some(mut p) => {
            let report = run_one_unit(&mut p);
            if p.total_time == p.time_executed {
                release_resources(resourses, &p.resourses);
            } else {
                core.proc = Some(p);
            }
            report
        },
        None => count_idle(core),
    }
}

/// One tick of a core under the round-robin policy, on the given ready queue.
pub fn round_robin(
    core: &mut Core,
    ready: &mut VecDeque<Task>,
    w_queue: &mut VecDeque<Task>,
    resourses: &mut Resources,
) -> (report: Report)
    requires
        old(core).idle_count < u64::MAX,
        all_pending(old(ready)@),
    ensures
        (
            Lane {
                proc: final(core).proc,
                idle_count: final(core).idle_count,
                ready: final(ready)@,
                waiting: final(w_queue)@,
                pool: *final(resourses),
            },
            report,
        ) == rr_step(
            Lane {
                proc: old(core).proc,
                idle_count: old(core).idle_count,
                ready: old(ready)@,
                waiting: old(w_queue)@,
                pool: *old(resourses),
            },
        ),
{
    let ghost q0 = ready@;
    let ghost w0 = w_queue@;
    let ghost pool0 = *resourses;
    let ghost mut k: int = 0;
    let mut found: Option<Task> = None;
    proof {
        assert(w0 + q0.subrange(0, 0) =~= w0);
        assert(q0.subrange(0, q0.len() as int) =~= q0);
    }
    while found.is_none() && ready.len() > 0
        invariant
            0 <= k <= q0.len(),
            *core == *old(core),
            first_runnable(q0, pool0, 0) == first_runnable(q0, pool0, k),
            w_queue@ == w0 + q0.subrange(0, k),
            found is None ==> ready@ == q0.subrange(k, q0.len() as int) && *resourses == pool0,
            found is Some ==> {
                &&& k < q0.len()
                &&& found == Some(q0[k])
                &&& enough(pool0, q0[k].resourses)
                &&& ready@ == q0.subrange(k + 1, q0.len() as int)
                &&& *resourses == acquired(pool0, q0[k].resourses)
            },
        decreases ready@.len() + (if found is None { 1int } else { 0int }),
    {
        let front = ready.pop_front();
        match front {
            Some(p) => {
                assert(p == q0[k]);
                if try_acquire(resourses, p.resourses) {
                    found = Some(p);
                    proof {
                        assert(ready@ =~= q0.subrange(k + 1, q0.len() as int));
                    }
                } else {
                    w_queue.push_back(p);
                    proof {
                        assert(w_queue@ =~= w0 + q0.subrange(0, k + 1));
                        assert(ready@ =~= q0.subrange(k + 1, q0.len() as int));
                        k = k + 1;
                    }
                }
            },
            None => {},
        }
    }
    match found {
        Some(mut p) => {
            proof {
                lemma_acquire_release(pool0, p.resourses);
            }
            let report = run_one_unit(&mut p);
            release_resources(resourses, &p.resourses);
            if p.time_executed < p.total_time {
                ready.push_back(p);
            }
            report
        },
        None => {
            proof {
                assert(ready@ =~= Seq::<Task>::empty());
            }
            count_idle(core)
        },
    }
}

/// Takes the task out of the core's hand, if there is one: it goes to the
/// front of the lowest level and its pair goes back to the pool.
pub fn preempt(core: &mut Core, x: &mut VecDeque<Task>, resourses: &mut Resources)
    requires
        hand_ok(old(core).proc, *old(resourses)),
    ensures
        final(core).proc is None,
        final(core).idle_count == old(core).idle_count,
        match old(core).proc {
            Some(p) => final(x)@ == seq![p] + old(x)@ && *final(resourses) == released(
                *old(resourses),
                p.resourses,
            ),
            None => final(x)@ == old(x)@ && *final(resourses) == *old(resourses),
        },
{
    match core.proc.take() {
        Some(p) => {
            release_resources(resourses, &p.resourses);
            x.push_front(p);
        },
        None => {},
    }
}

/// Says whether every task of the queue may be scheduled.
pub fn all_pending_in(q: &VecDeque<Task>) -> (ok: bool)
    ensures
        ok == all_pending(q@),
{
    let mut i: usize = 0;
    while i < q.len()
        invariant
            0 <= i <= q@.len(),
            forall|j: int| 0 <= j < i ==> (#[trigger] q@[j]).pending(),
        decreases q@.len() - i,
    {
        if !q[i].is_pending() {
            return false;
        }
        i = i + 1;
    }
    true
}

/// Says whether the core may take a tick on this state: see `world_ok`.
pub fn tick_allowed(
    core: &Core,
    queue: &VecDeque<Task>,
    resourses: &Resources,
    queues: &Levels,
) -> (ok: bool)
    ensures
        forall|waiting: Seq<Task>|
            ok == world_ok(
                #[trigger] world_of(
                    *core,
                    queue@,
                    waiting,
                    *resourses,
                    queues.x@,
                    queues.y@,
                    queues.z@,
                ),
            ),
{
    let hand = match &core.proc {
        Some(p) => p.is_pending() && check_for_room(resourses, p.resourses),
        None => true,
    };
    core.idle_count < u64::MAX && hand && all_pending_in(queue) && all_pending_in(&queues.x)
        && all_pending_in(&queues.y) && all_pending_in(&queues.z)
}

/// One tick of one core: it selects a task as the policy says, runs it for
/// one unit and reports, or reports that it was idle.
pub fn cpu_worker(
    core: &mut Core,
    queue: &mut VecDeque<Task>,
    w_queue: &mut VecDeque<Task>,
    resourses: &mut Resources,
    algo: Algorithm,
    queues: &mut Levels,
) -> (report: Report)
    requires
        world_ok(
            world_of(
                *old(core),
                old(queue)@,
                old(w_queue)@,
                *old(resourses),
                old(queues).x@,
                old(queues).y@,
                old(queues).z@,
            ),
        ),
    ensures
        (
            world_of(
                *final(core),
                final(queue)@,
                final(w_queue)@,
                *final(resourses),
                final(queues).x@,
                final(queues).y@,
                final(queues).z@,
            ),
            report,
        ) == core_step(
            world_of(
                *old(core),
                old(queue)@,
                old(w_queue)@,
                *old(resourses),
                old(queues).x@,
                old(queues).y@,
                old(queues).z@,
            ),
            algo,
        ),
{
    match algo {
        Algorithm::FCFS => run_to_completion(core, queue, w_queue, resourses, false),
        Algorithm::SJF => run_to_completion(core, queue, w_queue, resourses, true),
        Algorithm::RR => round_robin(core, queue, w_queue, resourses),
        Algorithm::MLQ => {
            if queues.z.len() > 0 {
                preempt(core, &mut queues.x, resourses);
                round_robin(core, &mut queues.z, w_queue, resourses)
            } else if queues.y.len() > 0 {
                preempt(core, &mut queues.x, resourses);
                round_robin(core, &mut queues.y, w_queue, resourses)
            } else {
                run_to_completion(core, &mut queues.x, w_queue, resourses, false)
            }
        },
    }
}

} // verus!

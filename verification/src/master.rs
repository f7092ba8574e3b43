use vstd::prelude::*;
use std::collections::VecDeque;
use crate::task::{Algorithm, Task, TaskType};
use crate::pool::{check_for_enough_resourse, enough, Resources};
use crate::queue::{enqueue, place};
use crate::worker::{Levels, Report};

verus! {

/// What the coordinator keeps between ticks: the number of ticks so far, and
/// how many ticks in a row ended with every core idle, nothing ready and a
/// waiting task that the pool could not serve.
#[derive(Debug)]
pub struct Coordinator {
    pub clocks: u64,
    pub stalled: usize,
}

/// What the coordinator decides at the end of a tick.
#[derive(Debug, Copy, Clone, PartialEq, Eq, Structural)]
pub enum Outcome {
    /// There is work left: go on with the next tick.
    Continue,
    /// Every core was idle and every queue is empty, after `clocks` ticks.
    Terminated { clocks: u64 },
    /// For as many ticks in a row as tasks wait, every core was idle, nothing
    /// was ready, and the pool could not serve the task at the front of the
    /// waiting queue: the run cannot finish.
    Livelock { clocks: u64 },
}

/// The queues that the cores and the coordinator share.
pub struct Board {
    pub queue: Seq<Task>,
    pub x: Seq<Task>,
    pub y: Seq<Task>,
    pub z: Seq<Task>,
    pub waiting: Seq<Task>,
}

/// Every report says idle.
pub open spec fn all_idle(reports: Seq<Report>) -> bool {
    forall|i: int| 0 <= i < reports.len() ==> (#[trigger] reports[i]) is Idle
}

/// The board after a task became ready again: under the multi-level policy
/// it joins the level of its kind, else the ready queue, in order of total
/// time under the shortest-job policy.
pub open spec fn promoted(b: Board, p: Task, algo: Algorithm) -> Board {
    match algo {
        Algorithm::MLQ => match p.task_type {
            TaskType::X => Board { x: b.x.push(p), ..b },
            TaskType::Y => Board { y: b.y.push(p), ..b },
            TaskType::Z => Board { z: b.z.push(p), ..b },
        },
        _ => Board { queue: place(b.queue, p, algo == Algorithm::SJF), ..b },
    }
}

/// The board after the coordinator looked at the front of the waiting queue,
/// and at that task only: it becomes ready if the pool can serve it now, and
/// goes back to wait if not.
pub open spec fn reconciled(b: Board, pool: Resources, algo: Algorithm) -> Board {
    if b.waiting.len() == 0 {
        b
    } else {
        let p = b.waiting[0];
        let rest = b.waiting.subrange(1, b.waiting.len() as int);
        if enough(pool, p.resourses) {
            promoted(Board { waiting: rest, ..b }, p, algo)
        } else {
            Board { waiting: place(rest, p, algo == Algorithm::SJF), ..b }
        }
    }
}

/// No ready structure holds a task.
pub open spec fn nothing_ready(b: Board) -> bool {
    b.queue.len() == 0 && b.x.len() == 0 && b.y.len() == 0 && b.z.len() == 0
}

/// A tick after which nothing can run: every core was idle, nothing is ready,
/// and a task still waits.
pub open spec fn stuck_tick(reports: Seq<Report>, b: Board) -> bool {
    all_idle(reports) && nothing_ready(b) && b.waiting.len() > 0
}

/// The count of stuck ticks in a row, after a tick that ended on board `b`.
pub open spec fn next_stalled(stalled: usize, reports: Seq<Report>, b: Board) -> usize {
    if !stuck_tick(reports, b) {
        0
    } else if stalled < usize::MAX {
        (stalled + 1) as usize
    } else {
        stalled
    }
}

/// The decision at the end of a tick, on the board as reconciled and the
/// count of stuck ticks that includes this one.
pub open spec fn verdict(reports: Seq<Report>, b: Board, stalled: usize, clocks: u64) -> Outcome {
    if all_idle(reports) && nothing_ready(b) && b.waiting.len() == 0 {
        Outcome::Terminated { clocks }
    } else if stuck_tick(reports, b) && stalled >= b.waiting.len() {
        Outcome::Livelock { clocks }
    } else {
        Outcome::Continue
    }
}

/// The board that the queues make up.
pub open spec fn board_of(
    queue: Seq<Task>,
    waiting: Seq<Task>,
    x: Seq<Task>,
    y: Seq<Task>,
    z: Seq<Task>,
) -> Board {
    Board { queue, x, y, z, waiting }
}

impl Coordinator {
    /// A coordinator before the first tick.
    pub fn new() -> (coord: Coordinator)
        ensures
            coord.clocks == 0,
            coord.stalled == 0,
    {
        Coordinator { clocks: 0, stalled: 0 }
    }
}

/// Says whether every report is an idle one.
pub fn every_core_idle(reports: &Vec<Report>) -> (idle: bool)
    ensures
        idle == all_idle(reports@),
{
    let mut i: usize = 0;
    while i < reports.len()
        invariant
            0 <= i <= reports.len(),
            forall|j: int| 0 <= j < i ==> (#[trigger] reports@[j]) is Idle,
        decreases reports.len() - i,
    {
        if !reports[i].is_idle() {
            return false;
        }
        i = i + 1;
    }
    true
}

/// Makes a task ready: under the multi-level policy it joins the tail of the
/// level of its kind, else the ready queue, in order of total time under the
/// shortest-job policy.
pub fn make_ready(queue: &mut VecDeque<Task>, queues: &mut Levels, algo: Algorithm, task: Task)
    ensures
        forall|waiting: Seq<Task>|
            #![trigger board_of(final(queue)@, waiting, final(queues).x@, final(queues).y@, final(queues).z@)]
            board_of(final(queue)@, waiting, final(queues).x@, final(queues).y@, final(queues).z@)
                == promoted(
                board_of(old(queue)@, waiting, old(queues).x@, old(queues).y@, old(queues).z@),
                task,
                algo,
            ),
{
    match algo {
        Algorithm::MLQ => match task.task_type {
            TaskType::X => queues.x.push_back(task),
            TaskType::Y => queues.y.push_back(task),
            TaskType::Z => queues.z.push_back(task),
        },
        Algorithm::SJF => enqueue(queue, task, true),
        _ => enqueue(queue, task, false),
    }
}

/// Offers the pool to the task at the front of the waiting queue, and to that
/// one only.
pub fn reconcile(
    resourses: &Resources,
    queue: &mut VecDeque<Task>,
    w_queue: &mut VecDeque<Task>,
    algo: Algorithm,
    queues: &mut Levels,
)
    ensures
        board_of(
            final(queue)@,
            final(w_queue)@,
            final(queues).x@,
            final(queues).y@,
            final(queues).z@,
        ) == reconciled(
            board_of(old(queue)@, old(w_queue)@, old(queues).x@, old(queues).y@, old(queues).z@),
            *resourses,
            algo,
        ),
{
    let sorted = match algo {
        Algorithm::SJF => true,
        _ => false,
    };
    match w_queue.pop_front() {
        Some(p) => {
            if check_for_enough_resourse(resourses, p.resourses) {
                make_ready(queue, queues, algo, p);
                assert(board_of(queue@, w_queue@, queues.x@, queues.y@, queues.z@) == promoted(
                    board_of(old(queue)@, w_queue@, old(queues).x@, old(queues).y@, old(queues).z@),
                    p,
                    algo,
                ));
            } else {
                enqueue(w_queue, p, sorted);
            }
        },
        None => {},
    }
}

/// The coordinator's part of one tick, after every core has reported: it
/// counts the tick, reconciles the waiting queue, and decides whether the run
/// goes on, has finished, or can never finish.
pub fn master_worker(
    coord: &mut Coordinator,
    reports: &Vec<Report>,
    resourses: &Resources,
    queue: &mut VecDeque<Task>,
    w_queue: &mut VecDeque<Task>,
    algo: Algorithm,
    queues: &mut Levels,
) -> (outcome: Outcome)
    requires
        old(coord).clocks < u64::MAX,
    ensures
        final(coord).clocks == old(coord).clocks + 1,
        board_of(
            final(queue)@,
            final(w_queue)@,
            final(queues).x@,
            final(queues).y@,
            final(queues).z@,
        ) == reconciled(
            board_of(old(queue)@, old(w_queue)@, old(queues).x@, old(queues).y@, old(queues).z@),
            *resourses,
            algo,
        ),
        final(coord).stalled == next_stalled(
            old(coord).stalled,
            reports@,
            board_of(
                final(queue)@,
                final(w_queue)@,
                final(queues).x@,
                final(queues).y@,
                final(queues).z@,
            ),
        ),
        outcome == verdict(
            reports@,
            board_of(
                final(queue)@,
                final(w_queue)@,
                final(queues).x@,
                final(queues).y@,
                final(queues).z@,
            ),
            final(coord).stalled,
            final(coord).clocks,
        ),
{
    coord.clocks = coord.clocks + 1;
    let idle = every_core_idle(reports);
    reconcile(resourses, queue, w_queue, algo, queues);
    let ready_empty = queue.len() == 0 && queues.x.len() == 0 && queues.y.len() == 0
        && queues.z.len() == 0;
    let stuck = idle && ready_empty && w_queue.len() > 0;
    if !stuck {
        coord.stalled = 0;
    } else if coord.stalled < usize::MAX {
        coord.stalled = coord.stalled + 1;
    }
    if idle && ready_empty && w_queue.len() == 0 {
        Outcome::Terminated { clocks: coord.clocks }
    } else if stuck && coord.stalled >= w_queue.len() {
        Outcome::Livelock { clocks: coord.clocks }
    } else {
        Outcome::Continue
    }
}

} // verus!

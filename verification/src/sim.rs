use vstd::prelude::*;
use std::collections::VecDeque;
use crate::task::{Algorithm, Resource, Task, TaskType};
use crate::pool::{count, Resources};
use crate::worker::{core_step, cpu_worker, world_of, Core, Levels, Report};
use crate::master::{
    board_of, make_ready, master_worker, next_stalled, promoted, reconciled, verdict, Board,
    Coordinator, Outcome,
};
use crate::laws::{
    board_inv, board_tasks, hand_tasks, held, lemma_conservation, lemma_idle_hand,
    lemma_moved_frame, lemma_reconciled, lemma_single_ownership, moved, picked, world_inv,
    world_tasks,
};
use vstd::multiset::Multiset;
use crate::master::{all_idle, nothing_ready};
use crate::pool::enough;
use crate::queue::{lemma_slot_from, slot_from};

verus! {

/// The number of cores of a simulation.
pub const CORES: usize = 4;

/// A whole simulation: the policy, the pool with its capacities, the queues,
/// the cores and the coordinator. Its cores take their ticks one after the
/// other, in the order of their indices.
#[derive(Debug)]
pub struct Simulation {
    pub algo: Algorithm,
    pub capacity: Resources,
    pub resourses: Resources,
    pub queue: VecDeque<Task>,
    pub queues: Levels,
    pub w_queue: VecDeque<Task>,
    pub cores: Vec<Core>,
    pub coord: Coordinator,
    /// What the cores reported in the last tick, in the order of the cores.
    pub reports: Vec<Report>,
}

/// The state that the cores work on: themselves, the queues and the pool.
pub struct Floor {
    pub cores: Seq<Core>,
    pub board: Board,
    pub pool: Resources,
}

/// How many units of `r` the cores hold together.
pub open spec fn held_sum(cores: Seq<Core>, r: Resource) -> int
    decreases cores.len(),
{
    if cores.len() == 0 {
        0
    } else {
        held_sum(cores.drop_last(), r) + held(cores.last().proc, r)
    }
}

/// What core `i` sees of the floor.
pub open spec fn world_at(f: Floor, i: int) -> crate::worker::World {
    world_of(f.cores[i], f.board.queue, f.board.waiting, f.pool, f.board.x, f.board.y, f.board.z)
}

/// The floor after core `i` took its tick, and what the core reported.
pub open spec fn core_tick(f: Floor, algo: Algorithm, i: int) -> (Floor, Report) {
    let r = core_step(world_at(f, i), algo);
    (
        Floor {
            cores: f.cores.update(i, Core { proc: r.0.proc, idle_count: r.0.idle_count }),
            board: Board {
                queue: r.0.queue,
                x: r.0.x,
                y: r.0.y,
                z: r.0.z,
                waiting: r.0.waiting,
            },
            pool: r.0.pool,
        },
        r.1,
    )
}

/// The floor after the first `n` cores took their ticks, one after the
/// other, with their reports in that order.
pub open spec fn after_cores(f: Floor, algo: Algorithm, n: nat) -> (Floor, Seq<Report>)
    decreases n,
{
    if n == 0 {
        (f, Seq::empty())
    } else {
        let before = after_cores(f, algo, (n - 1) as nat);
        let step = core_tick(before.0, algo, n - 1);
        (step.0, before.1.push(step.1))
    }
}

/// The resource `r` is accounted for: what is free and what the cores hold
/// add up to the capacity.
pub open spec fn balanced(f: Floor, capacity: Resources, r: Resource) -> bool {
    count(f.pool, r) + held_sum(f.cores, r) == count(capacity, r)
}

/// No counter of the pool is above its capacity.
pub open spec fn within(pool: Resources, capacity: Resources) -> bool {
    &&& count(pool, Resource::A) <= count(capacity, Resource::A)
    &&& count(pool, Resource::B) <= count(capacity, Resource::B)
    &&& count(pool, Resource::C) <= count(capacity, Resource::C)
}

/// A task in a core's hand is schedulable, and of the lowest kind under the
/// multi-level policy; under the round-robin policy no core has one.
pub open spec fn core_inv(core: Core, algo: Algorithm) -> bool {
    match core.proc {
        Some(p) => {
            &&& p.pending()
            &&& algo == Algorithm::MLQ ==> p.task_type == TaskType::X
            &&& algo != Algorithm::RR
        },
        None => true,
    }
}

/// What holds of the floor between any two ticks of cores.
pub open spec fn floor_inv(f: Floor, algo: Algorithm, capacity: Resources) -> bool {
    &&& board_inv(f.board, algo)
    &&& forall|i: int| 0 <= i < f.cores.len() ==> core_inv(#[trigger] f.cores[i], algo)
    &&& balanced(f, capacity, Resource::A)
    &&& balanced(f, capacity, Resource::B)
    &&& balanced(f, capacity, Resource::C)
}

/// Replacing one core changes the sum by what that core holds more or less.
pub proof fn lemma_held_sum_update(cores: Seq<Core>, i: int, core: Core, r: Resource)
    requires
        0 <= i < cores.len(),
    ensures
        held_sum(cores.update(i, core), r) == held_sum(cores, r) - held(cores[i].proc, r) + held(
            core.proc,
            r,
        ),
        0 <= held(cores[i].proc, r) <= held_sum(cores, r),
    decreases cores.len(),
{
    let n = cores.len() - 1;
    lemma_held_sum_nonnegative(cores.drop_last(), r);
    if i < n {
        lemma_held_sum_update(cores.drop_last(), i, core, r);
        assert(cores.update(i, core).drop_last() =~= cores.drop_last().update(i, core));
    } else {
        assert(cores.update(i, core).drop_last() =~= cores.drop_last());
    }
}

/// The cores never hold a negative amount.
pub proof fn lemma_held_sum_nonnegative(cores: Seq<Core>, r: Resource)
    ensures
        held_sum(cores, r) >= 0,
    decreases cores.len(),
{
    if cores.len() > 0 {
        lemma_held_sum_nonnegative(cores.drop_last(), r);
    }
}

/// Resources are neither made nor lost, and each task stays in one place: a
/// tick of any core keeps the floor valid, with every resource accounted for
/// against the capacity and every counter of the pool within it.
pub proof fn lemma_core_tick_keeps_floor(f: Floor, algo: Algorithm, capacity: Resources, i: int)
    requires
        floor_inv(f, algo, capacity),
        0 <= i < f.cores.len(),
    ensures
        world_inv(world_at(f, i), algo),
        floor_inv(core_tick(f, algo, i).0, algo, capacity),
        core_tick(f, algo, i).0.cores.len() == f.cores.len(),
        within(core_tick(f, algo, i).0.pool, capacity),
{
    let w = world_at(f, i);
    lemma_held_sum_update(f.cores, i, f.cores[i], Resource::A);
    lemma_held_sum_update(f.cores, i, f.cores[i], Resource::B);
    lemma_held_sum_update(f.cores, i, f.cores[i], Resource::C);
    assert(core_inv(f.cores[i], algo));
    assert(world_inv(w, algo));
    lemma_single_ownership(w, algo);
    lemma_conservation(w, algo, Resource::A);
    lemma_conservation(w, algo, Resource::B);
    lemma_conservation(w, algo, Resource::C);
    let g = core_tick(f, algo, i).0;
    lemma_held_sum_update(f.cores, i, g.cores[i], Resource::A);
    lemma_held_sum_update(f.cores, i, g.cores[i], Resource::B);
    lemma_held_sum_update(f.cores, i, g.cores[i], Resource::C);
    lemma_held_sum_nonnegative(g.cores, Resource::A);
    lemma_held_sum_nonnegative(g.cores, Resource::B);
    lemma_held_sum_nonnegative(g.cores, Resource::C);
    assert forall|j: int| 0 <= j < g.cores.len() implies core_inv(#[trigger] g.cores[j], algo) by {
        if j != i {
            assert(g.cores[j] == f.cores[j]);
        }
    }
}

impl Simulation {
    /// The floor of the simulation.
    pub open spec fn floor(&self) -> Floor {
        Floor {
            cores: self.cores@,
            board: board_of(
                self.queue@,
                self.w_queue@,
                self.queues.x@,
                self.queues.y@,
                self.queues.z@,
            ),
            pool: self.resourses,
        }
    }

    /// The simulation is valid: see `floor_inv`, and `stall_inv` where the
    /// waiting queue is a plain queue.
    pub open spec fn inv(&self) -> bool {
        &&& floor_inv(self.floor(), self.algo, self.capacity)
        &&& self.algo != Algorithm::SJF ==> stall_inv(self.state())
    }

    /// No counter of ticks has reached the end of its range.
    pub open spec fn can_tick(&self) -> bool {
        &&& self.coord.clocks < u64::MAX
        &&& forall|i: int| 0 <= i < self.cores@.len() ==> (#[trigger] self.cores@[i]).idle_count < u64::MAX
    }

    /// A simulation of four idle cores with the given policy and capacities,
    /// before the first tick and with no task in it.
    pub fn new(algo: Algorithm, a: u16, b: u16, c: u16) -> (sim: Simulation)
        ensures
            sim.inv(),
            sim.can_tick(),
            sim.algo == algo,
            sim.resourses == ((Resource::A, a), (Resource::B, b), (Resource::C, c)),
            sim.capacity == sim.resourses,
            sim.cores@.len() == CORES,
            forall|i: int| 0 <= i < sim.cores@.len() ==> (#[trigger] sim.cores@[i]).proc is None,
            sim.floor().board == board_of(
                Seq::empty(),
                Seq::empty(),
                Seq::empty(),
                Seq::empty(),
                Seq::empty(),
            ),
            sim.coord.clocks == 0,
            sim.coord.stalled == 0,
            sim.reports@.len() == 0,
    {
        let mut cores: Vec<Core> = Vec::new();
        while cores.len() < CORES
            invariant
                cores@.len() <= CORES,
                forall|i: int|
                    0 <= i < cores@.len() ==> (#[trigger] cores@[i]).proc is None && cores@[i].idle_count
                        == 0,
            decreases CORES - cores@.len(),
        {
            cores.push(Core::new());
        }
        proof {
            lemma_held_sum_idle(cores@, Resource::A);
            lemma_held_sum_idle(cores@, Resource::B);
            lemma_held_sum_idle(cores@, Resource::C);
        }
        Simulation {
            algo,
            capacity: ((Resource::A, a), (Resource::B, b), (Resource::C, c)),
            resourses: ((Resource::A, a), (Resource::B, b), (Resource::C, c)),
            queue: VecDeque::new(),
            queues: Levels::new(),
            w_queue: VecDeque::new(),
            cores,
            coord: Coordinator::new(),
            reports: Vec::new(),
        }
    }

    /// Admits a task: a schedulable one becomes ready as the policy asks, and
    /// the count of stuck ticks starts anew; any other is turned away and
    /// nothing changes.
    pub fn enroll(&mut self, task: Task) -> (accepted: bool)
        requires
            old(self).inv(),
        ensures
            accepted == task.pending(),
            final(self).inv(),
            final(self).algo == old(self).algo,
            final(self).capacity == old(self).capacity,
            final(self).coord.clocks == old(self).coord.clocks,
            final(self).coord.stalled == if accepted {
                0
            } else {
                old(self).coord.stalled
            },
            final(self).reports == old(self).reports,
            final(self).floor().cores == old(self).floor().cores,
            final(self).floor().pool == old(self).floor().pool,
            final(self).floor().board == if accepted {
                promoted(old(self).floor().board, task, old(self).algo)
            } else {
                old(self).floor().board
            },
    {
        if task.is_pending() {
            proof {
                crate::laws::lemma_promoted(self.floor().board, task, self.algo);
            }
            make_ready(&mut self.queue, &mut self.queues, self.algo, task);
            self.coord.stalled = 0;
            assert(self.floor().board == promoted(old(self).floor().board, task, self.algo));
            true
        } else {
            false
        }
    }

    /// The simulation as it stands between two ticks.
    pub open spec fn state(&self) -> Run {
        Run { floor: self.floor(), clocks: self.coord.clocks, stalled: self.coord.stalled }
    }

    /// Says whether another tick can be counted: see `can_tick`.
    pub fn ready(&self) -> (ok: bool)
        ensures
            ok == self.can_tick(),
    {
        let mut i: usize = 0;
        while i < self.cores.len()
            invariant
                0 <= i <= self.cores@.len(),
                forall|j: int| 0 <= j < i ==> (#[trigger] self.cores@[j]).idle_count < u64::MAX,
            decreases self.cores@.len() - i,
        {
            if self.cores[i].idle_count == u64::MAX {
                return false;
            }
            i = i + 1;
        }
        self.coord.clocks < u64::MAX
    }

    /// Runs ticks until the coordinator reports the end of the run, be it
    /// termination or livelock, or until `limit` ticks were made; in that
    /// case, and where a counter of ticks is at its limit, the result is
    /// `Continue`.
    pub fn run(&mut self, limit: u64) -> (outcome: Outcome)
        requires
            old(self).inv(),
        ensures
            final(self).inv(),
            final(self).algo == old(self).algo,
            final(self).capacity == old(self).capacity,
            (final(self).state(), outcome) == run_of(old(self).state(), old(self).algo, limit as nat),
            old(self).algo != Algorithm::SJF && outcome is Livelock ==> starved(
                final(self).floor(),
            ),
    {
        let mut done: u64 = 0;
        while done < limit
            invariant
                done <= limit,
                self.inv(),
                self.algo == old(self).algo,
                self.capacity == old(self).capacity,
                run_of(old(self).state(), self.algo, limit as nat) == run_of(
                    self.state(),
                    self.algo,
                    (limit - done) as nat,
                ),
            decreases limit - done,
        {
            if !self.ready() {
                return Outcome::Continue;
            }
            let outcome = self.tick();
            match outcome {
                Outcome::Continue => {},
                _ => {
                    return outcome;
                },
            }
            done = done + 1;
        }
        Outcome::Continue
    }

    /// One tick: every core takes its tick, in the order of the indices, and
    /// then the coordinator reconciles the waiting queue and decides.
    pub fn tick(&mut self) -> (outcome: Outcome)
        requires
            old(self).inv(),
            old(self).can_tick(),
        ensures
            final(self).inv(),
            within(final(self).resourses, final(self).capacity),
            final(self).algo == old(self).algo,
            final(self).capacity == old(self).capacity,
            final(self).floor() == after_tick(old(self).floor(), old(self).algo),
            final(self).reports@ == after_cores(
                old(self).floor(),
                old(self).algo,
                old(self).cores@.len(),
            ).1,
            (final(self).state(), outcome) == tick_of(old(self).state(), old(self).algo),
            old(self).algo != Algorithm::SJF && outcome is Livelock ==> starved(
                final(self).floor(),
            ),
    {
        proof {
            if self.algo != Algorithm::SJF {
                lemma_livelock_is_real(self.state(), self.algo, self.capacity);
            }
        }
        let mut reports: Vec<Report> = Vec::new();
        let mut i: usize = 0;
        while i < self.cores.len()
            invariant
                0 <= i <= self.cores@.len(),
                self.cores@.len() == old(self).cores@.len(),
                self.algo == old(self).algo,
                self.capacity == old(self).capacity,
                self.coord == old(self).coord,
                floor_inv(self.floor(), self.algo, self.capacity),
                (self.floor(), reports@) == after_cores(old(self).floor(), self.algo, i as nat),
                forall|j: int|
                    i <= j < self.cores@.len() ==> (#[trigger] self.cores@[j]).idle_count < u64::MAX,
            decreases self.cores@.len() - i,
        {
            let ghost before = self.floor();
            proof {
                lemma_core_tick_keeps_floor(before, self.algo, self.capacity, i as int);
            }
            let report = cpu_worker(
                &mut self.cores[i],
                &mut self.queue,
                &mut self.w_queue,
                &mut self.resourses,
                self.algo,
                &mut self.queues,
            );
            reports.push(report);
            proof {
                assert(self.floor().cores =~= core_tick(before, self.algo, i as int).0.cores);
                assert(self.floor() == core_tick(before, self.algo, i as int).0);
            }
            i = i + 1;
        }
        proof {
            lemma_reconciled(self.floor().board, self.resourses, self.algo);
            lemma_held_sum_nonnegative(self.cores@, Resource::A);
            lemma_held_sum_nonnegative(self.cores@, Resource::B);
            lemma_held_sum_nonnegative(self.cores@, Resource::C);
        }
        let outcome = master_worker(
            &mut self.coord,
            &reports,
            &self.resourses,
            &mut self.queue,
            &mut self.w_queue,
            self.algo,
            &mut self.queues,
        );
        self.reports = reports;
        outcome
    }
}

/// The floor after a whole tick: every core took its tick, in the order of
/// the indices, and the coordinator reconciled the waiting queue.
pub open spec fn after_tick(f: Floor, algo: Algorithm) -> Floor {
    let g = after_cores(f, algo, f.cores.len()).0;
    Floor { board: reconciled(g.board, g.pool, algo), ..g }
}

/// A simulation between two ticks: the floor and what the coordinator keeps.
pub struct Run {
    pub floor: Floor,
    pub clocks: u64,
    pub stalled: usize,
}

/// No counter of ticks has reached the end of its range.
pub open spec fn run_can_tick(r: Run) -> bool {
    &&& r.clocks < u64::MAX
    &&& forall|i: int|
        0 <= i < r.floor.cores.len() ==> (#[trigger] r.floor.cores[i]).idle_count < u64::MAX
}

/// One whole tick, with the coordinator's decision.
pub open spec fn tick_of(r: Run, algo: Algorithm) -> (Run, Outcome) {
    let reports = after_cores(r.floor, algo, r.floor.cores.len()).1;
    let floor = after_tick(r.floor, algo);
    let stalled = next_stalled(r.stalled, reports, floor.board);
    let clocks = (r.clocks + 1) as u64;
    (Run { floor, clocks, stalled }, verdict(reports, floor.board, stalled, clocks))
}

/// Ticks until the coordinator decides that the run is over, but no more
/// than `limit` of them, and none once a counter of ticks is at its limit.
pub open spec fn run_of(r: Run, algo: Algorithm, limit: nat) -> (Run, Outcome)
    decreases limit,
{
    if limit == 0 || !run_can_tick(r) {
        (r, Outcome::Continue)
    } else {
        let t = tick_of(r, algo);
        if t.1 is Continue {
            run_of(t.0, algo, (limit - 1) as nat)
        } else {
            t
        }
    }
}

/// Cores with nothing in hand hold nothing.
pub proof fn lemma_held_sum_idle(cores: Seq<Core>, r: Resource)
    requires
        forall|i: int| 0 <= i < cores.len() ==> (#[trigger] cores[i]).proc is None,
    ensures
        held_sum(cores, r) == 0,
    decreases cores.len(),
{
    if cores.len() > 0 {
        lemma_held_sum_idle(cores.drop_last(), r);
    }
}

/// What the ticks of the first `n` cores keep: the floor stays valid, the
/// cores that have not had their turn are untouched, and each core that
/// reported idle has nothing in hand.
pub proof fn lemma_after_cores(f: Floor, algo: Algorithm, capacity: Resources, n: nat)
    requires
        floor_inv(f, algo, capacity),
        n <= f.cores.len(),
    ensures
        floor_inv(after_cores(f, algo, n).0, algo, capacity),
        within(after_cores(f, algo, n).0.pool, capacity),
        after_cores(f, algo, n).0.cores.len() == f.cores.len(),
        after_cores(f, algo, n).1.len() == n,
        forall|i: int|
            n <= i < f.cores.len() ==> (#[trigger] after_cores(f, algo, n).0.cores[i]) == f.cores[i],
        forall|i: int|
            0 <= i < n && (#[trigger] after_cores(f, algo, n).1[i]) is Idle ==> after_cores(
                f,
                algo,
                n,
            ).0.cores[i].proc is None,
    decreases n,
{
    lemma_held_sum_nonnegative(f.cores, Resource::A);
    lemma_held_sum_nonnegative(f.cores, Resource::B);
    lemma_held_sum_nonnegative(f.cores, Resource::C);
    if n > 0 {
        let m = (n - 1) as nat;
        lemma_after_cores(f, algo, capacity, m);
        let before = after_cores(f, algo, m);
        lemma_core_tick_keeps_floor(before.0, algo, capacity, m as int);
        let step = core_tick(before.0, algo, m as int);
        if step.1 is Idle {
            lemma_idle_hand(world_at(before.0, m as int), algo);
        }
        let after = after_cores(f, algo, n);
        assert forall|i: int| 0 <= i < n && (#[trigger] after.1[i]) is Idle implies after.0.cores[i].proc is None by {
            if i < m {
                assert(after.1[i] == before.1[i]);
                assert(after.0.cores[i] == before.0.cores[i]);
            }
        }
    }
}

/// A run that is reported as terminated is done: after that tick no queue
/// holds a task, no core has one in hand, and every resource is back in the
/// pool, which stands at its capacity.
pub proof fn lemma_terminated_means_done(
    f: Floor,
    algo: Algorithm,
    capacity: Resources,
    stalled: usize,
    clocks: u64,
)
    requires
        floor_inv(f, algo, capacity),
        verdict(
            after_cores(f, algo, f.cores.len()).1,
            after_tick(f, algo).board,
            stalled,
            clocks,
        ) is Terminated,
    ensures
        nothing_ready(after_tick(f, algo).board),
        after_tick(f, algo).board.waiting.len() == 0,
        forall|i: int|
            0 <= i < f.cores.len() ==> (#[trigger] after_tick(f, algo).cores[i]).proc is None,
        count(after_tick(f, algo).pool, Resource::A) == count(capacity, Resource::A),
        count(after_tick(f, algo).pool, Resource::B) == count(capacity, Resource::B),
        count(after_tick(f, algo).pool, Resource::C) == count(capacity, Resource::C),
{
    let n = f.cores.len();
    lemma_after_cores(f, algo, capacity, n);
    let g = after_cores(f, algo, n);
    assert forall|i: int| 0 <= i < n implies (#[trigger] g.0.cores[i]).proc is None by {
        assert(g.1[i] is Idle);
    }
    lemma_held_sum_idle(g.0.cores, Resource::A);
    lemma_held_sum_idle(g.0.cores, Resource::B);
    lemma_held_sum_idle(g.0.cores, Resource::C);
}

/// Nothing is there for a core to run: no core has a task in hand and
/// nothing is ready.
pub open spec fn quiet(f: Floor) -> bool {
    &&& forall|i: int| 0 <= i < f.cores.len() ==> (#[trigger] f.cores[i]).proc is None
    &&& nothing_ready(f.board)
}

/// Nothing can ever run: no core has a task in hand, nothing is ready, and
/// the pool can serve none of the tasks that wait.
pub open spec fn starved(f: Floor) -> bool {
    &&& quiet(f)
    &&& f.board.waiting.len() > 0
    &&& forall|i: int|
        0 <= i < f.board.waiting.len() ==> !enough(f.pool, (#[trigger] f.board.waiting[i]).resourses)
}

/// On a quiet floor the cores change nothing but their idle counters.
pub proof fn lemma_quiet_cores(f: Floor, algo: Algorithm, n: nat)
    requires
        quiet(f),
        n <= f.cores.len(),
    ensures
        after_cores(f, algo, n).0.board == f.board,
        after_cores(f, algo, n).0.pool == f.pool,
        after_cores(f, algo, n).0.cores.len() == f.cores.len(),
        forall|i: int|
            0 <= i < f.cores.len() ==> (#[trigger] after_cores(f, algo, n).0.cores[i]).proc is None,
        after_cores(f, algo, n).1.len() == n,
        all_idle(after_cores(f, algo, n).1),
    decreases n,
{
    if n > 0 {
        let m = (n - 1) as nat;
        lemma_quiet_cores(f, algo, m);
        let before = after_cores(f, algo, m);
        let w = world_at(before.0, m as int);
        assert(before.0.cores[m as int].proc is None);
        let step = core_tick(before.0, algo, m as int);
        assert(step.0.board.waiting =~= f.board.waiting);
        assert(step.0.board.queue =~= f.board.queue);
        assert(step.0.board.x =~= f.board.x);
        assert(step.0.board.y =~= f.board.y);
        assert(step.0.board.z =~= f.board.z);
        assert(step.1 is Idle);
        let after = after_cores(f, algo, n);
        assert forall|i: int| 0 <= i < after.1.len() implies (#[trigger] after.1[i]) is Idle by {
            if i < m {
                assert(after.1[i] == before.1[i]);
            }
        }
    }
}

/// A starved floor stays starved: after a whole tick every core has reported
/// idle, the pool is as it was, the same tasks wait, none of them can be
/// served, and the run is not reported as terminated.
pub proof fn lemma_starved_forever(f: Floor, algo: Algorithm, stalled: usize, clocks: u64)
    requires
        starved(f),
    ensures
        starved(after_tick(f, algo)),
        after_tick(f, algo).pool == f.pool,
        after_tick(f, algo).board.waiting.len() == f.board.waiting.len(),
        all_idle(after_cores(f, algo, f.cores.len()).1),
        !(verdict(
            after_cores(f, algo, f.cores.len()).1,
            after_tick(f, algo).board,
            stalled,
            clocks,
        ) is Terminated),
{
    lemma_quiet_cores(f, algo, f.cores.len());
    let waiting = f.board.waiting;
    let p = waiting[0];
    let rest = waiting.subrange(1, waiting.len() as int);
    let g = after_tick(f, algo);
    lemma_slot_from(rest, p.total_time, 0);
    let k = slot_from(rest, p.total_time, 0);
    assert forall|i: int| 0 <= i < g.board.waiting.len() implies !enough(
        g.pool,
        (#[trigger] g.board.waiting[i]).resourses,
    ) by {
        if algo == Algorithm::SJF {
            if i < k {
                assert(g.board.waiting[i] == waiting[i + 1]);
            } else if i > k {
                assert(g.board.waiting[i] == waiting[i]);
            }
        } else {
            if i < rest.len() {
                assert(g.board.waiting[i] == waiting[i + 1]);
            }
        }
    }
}

/// What the count of stuck ticks stands for, where the waiting queue is a
/// plain queue: while it is above zero the floor is quiet, a task waits, and
/// the pool can serve none of the last `stalled` tasks of the waiting queue
/// (none at all, where fewer wait).
pub open spec fn stall_inv(r: Run) -> bool {
    r.stalled > 0 ==> {
        &&& quiet(r.floor)
        &&& r.floor.board.waiting.len() > 0
        &&& forall|i: int|
            0 <= i < r.floor.board.waiting.len() && r.floor.board.waiting.len() - r.stalled <= i
                ==> !enough(r.floor.pool, (#[trigger] r.floor.board.waiting[i]).resourses)
    }
}

/// A reported livelock is one. Under every policy but the shortest-job one
/// a tick keeps what the count of stuck ticks stands for, which holds at the
/// start of a run, where the count is zero; and when the coordinator then
/// reports a livelock the floor is starved, so that by
/// `lemma_starved_forever` no later tick can end the run.
pub proof fn lemma_livelock_is_real(r: Run, algo: Algorithm, capacity: Resources)
    requires
        floor_inv(r.floor, algo, capacity),
        stall_inv(r),
        algo != Algorithm::SJF,
    ensures
        stall_inv(tick_of(r, algo).0),
        tick_of(r, algo).1 is Livelock ==> starved(tick_of(r, algo).0.floor),
{
    let f = r.floor;
    let n = f.cores.len();
    let cores_done = after_cores(f, algo, n);
    let g0 = cores_done.0;
    let reports = cores_done.1;
    let t = tick_of(r, algo).0;
    let g = t.floor;
    lemma_after_cores(f, algo, capacity, n);
    if crate::master::stuck_tick(reports, g.board) {
        assert forall|i: int| 0 <= i < g.cores.len() implies (#[trigger] g.cores[i]).proc is None by {
            assert(reports[i] is Idle);
        }
        let w0 = g0.board.waiting;
        assert(w0.len() > 0);
        let p = w0[0];
        let rest = w0.subrange(1, w0.len() as int);
        if enough(g0.pool, p.resourses) {
            crate::queue::lemma_place_keeps_order(g0.board.queue, p, false);
            assert(!nothing_ready(g.board));
        }
        assert(g.board.waiting == rest.push(p));
        if r.stalled > 0 {
            lemma_quiet_cores(f, algo, n);
            assert(g0.board == f.board);
        }
        assert forall|i: int|
            0 <= i < g.board.waiting.len() && g.board.waiting.len() - t.stalled <= i implies !enough(
            g.pool,
            (#[trigger] g.board.waiting[i]).resourses,
        ) by {
            if i < rest.len() {
                assert(g.board.waiting[i] == w0[i + 1]);
                assert(r.stalled > 0);
                assert(f.board.waiting[i + 1] == w0[i + 1]);
            }
        }
    }
}

/// With at least one unit of every resource no livelock is ever reported:
/// after a tick in which every core was idle all resources are back in the
/// pool, so the coordinator can serve the task at the front of the waiting
/// queue, and the count of stuck ticks stays at zero.
pub proof fn lemma_ample_pool_never_stalls(r: Run, algo: Algorithm, capacity: Resources)
    requires
        floor_inv(r.floor, algo, capacity),
        count(capacity, Resource::A) >= 1,
        count(capacity, Resource::B) >= 1,
        count(capacity, Resource::C) >= 1,
    ensures
        tick_of(r, algo).0.stalled == 0,
        !(tick_of(r, algo).1 is Livelock),
{
    let f = r.floor;
    let n = f.cores.len();
    let g0 = after_cores(f, algo, n).0;
    let reports = after_cores(f, algo, n).1;
    let g = tick_of(r, algo).0.floor;
    lemma_after_cores(f, algo, capacity, n);
    if crate::master::stuck_tick(reports, g.board) {
        assert forall|i: int| 0 <= i < g0.cores.len() implies (#[trigger] g0.cores[i]).proc is None by {
            assert(reports[i] is Idle);
        }
        lemma_held_sum_idle(g0.cores, Resource::A);
        lemma_held_sum_idle(g0.cores, Resource::B);
        lemma_held_sum_idle(g0.cores, Resource::C);
        let p = g0.board.waiting[0];
        assert(enough(g0.pool, p.resourses));
        crate::queue::lemma_place_keeps_order(g0.board.queue, p, algo == Algorithm::SJF);
        assert(!nothing_ready(g.board));
    }
}

/// The ready structures that the policy draws from hold a task.
pub open spec fn has_ready(b: Board, algo: Algorithm) -> bool {
    match algo {
        Algorithm::MLQ => b.x.len() > 0 || b.y.len() > 0 || b.z.len() > 0,
        _ => b.queue.len() > 0,
    }
}

/// Some core has a task in hand.
pub open spec fn has_hand(cores: Seq<Core>) -> bool {
    exists|i: int| 0 <= i < cores.len() && (#[trigger] cores[i]).proc is Some
}

/// There is something for a core to run: a task in a hand, or a ready one.
pub open spec fn busy(f: Floor, algo: Algorithm) -> bool {
    has_ready(f.board, algo) || has_hand(f.cores)
}

/// The report of a core stays where it is while the later cores take their
/// ticks.
pub proof fn lemma_reports_stay(f: Floor, algo: Algorithm, n: nat, i: int)
    requires
        0 <= i < n,
    ensures
        after_cores(f, algo, n).1.len() == n,
        after_cores(f, algo, n).1[i] == core_tick(after_cores(f, algo, i as nat).0, algo, i).1,
    decreases n,
{
    lemma_reports_len(f, algo, (n - 1) as nat);
    if i < n - 1 {
        lemma_reports_stay(f, algo, (n - 1) as nat, i);
    }
}

/// There is one report for each core that took its tick.
pub proof fn lemma_reports_len(f: Floor, algo: Algorithm, n: nat)
    ensures
        after_cores(f, algo, n).1.len() == n,
    decreases n,
{
    if n > 0 {
        lemma_reports_len(f, algo, (n - 1) as nat);
    }
}

/// Under the multi-level policy no core holds a unit of the third resource
/// across ticks, since only tasks of the lowest kind stay in hand.
proof fn lemma_lowest_kind_holds_no_c(cores: Seq<Core>)
    requires
        forall|i: int| 0 <= i < cores.len() ==> core_inv(#[trigger] cores[i], Algorithm::MLQ),
    ensures
        held_sum(cores, Resource::C) == 0,
    decreases cores.len(),
{
    if cores.len() > 0 {
        assert(core_inv(cores[cores.len() - 1], Algorithm::MLQ));
        assert forall|i: int| 0 <= i < cores.drop_last().len() implies core_inv(
            #[trigger] cores.drop_last()[i],
            Algorithm::MLQ,
        ) by {
            assert(cores.drop_last()[i] == cores[i]);
        }
        lemma_lowest_kind_holds_no_c(cores.drop_last());
    }
}

/// With at least one unit of every resource a tick is never wasted: where a
/// core has a task in hand or a task is ready, some core runs a task in that
/// tick.
pub proof fn lemma_some_core_runs(f: Floor, algo: Algorithm, capacity: Resources)
    requires
        floor_inv(f, algo, capacity),
        count(capacity, Resource::A) >= 1,
        count(capacity, Resource::B) >= 1,
        count(capacity, Resource::C) >= 1,
        f.cores.len() > 0,
        busy(f, algo),
    ensures
        !all_idle(after_cores(f, algo, f.cores.len()).1),
{
    let n = f.cores.len();
    let reports = after_cores(f, algo, n).1;
    if has_hand(f.cores) {
        let i = choose|i: int| 0 <= i < f.cores.len() && (#[trigger] f.cores[i]).proc is Some;
        let g = after_cores(f, algo, i as nat).0;
        lemma_after_cores(f, algo, capacity, i as nat);
        assert(g.cores[i] == f.cores[i]);
        lemma_core_tick_keeps_floor(g, algo, capacity, i);
        let w = world_at(g, i);
        assert(core_inv(g.cores[i], algo));
        if algo == Algorithm::MLQ {
            lemma_lowest_kind_holds_no_c(g.cores);
            let v = crate::worker::preempted(w);
            if w.z.len() > 0 {
                assert(w.z[0].task_type == TaskType::Z && w.z[0].pending());
                assert(enough(v.pool, v.z[0].resourses));
            } else if w.y.len() > 0 {
                assert(w.y[0].task_type == TaskType::Y && w.y[0].pending());
                assert(enough(v.pool, v.y[0].resourses));
            }
        }
        assert(core_tick(g, algo, i).1 is Processing);
        lemma_reports_stay(f, algo, n, i);
        assert(reports[i] is Processing);
    } else {
        assert forall|i: int| 0 <= i < f.cores.len() implies (#[trigger] f.cores[i]).proc is None by {
            if f.cores[i].proc is Some {
                assert(has_hand(f.cores));
            }
        }
        lemma_held_sum_idle(f.cores, Resource::A);
        lemma_held_sum_idle(f.cores, Resource::B);
        lemma_held_sum_idle(f.cores, Resource::C);
        lemma_core_tick_keeps_floor(f, algo, capacity, 0);
        let w = world_at(f, 0);
        match algo {
            Algorithm::MLQ => {
                if w.z.len() > 0 {
                    assert(w.z[0].pending());
                    assert(enough(w.pool, w.z[0].resourses));
                } else if w.y.len() > 0 {
                    assert(w.y[0].pending());
                    assert(enough(w.pool, w.y[0].resourses));
                } else {
                    assert(w.x[0].pending());
                    assert(enough(w.pool, w.x[0].resourses));
                }
            },
            _ => {
                assert(w.queue[0].pending());
                assert(enough(w.pool, w.queue[0].resourses));
            },
        }
        assert(core_tick(f, algo, 0).1 is Processing);
        lemma_reports_stay(f, algo, n, 0);
        assert(reports[0] is Processing);
    }
}

/// With at least one unit of every resource no task is left waiting with
/// nothing else to do: where a task waits after a tick, a core has a task in
/// hand or a task is ready, so that the next tick runs one.
pub proof fn lemma_waiting_is_not_stranded(f: Floor, algo: Algorithm, capacity: Resources)
    requires
        floor_inv(f, algo, capacity),
        count(capacity, Resource::A) >= 1,
        count(capacity, Resource::B) >= 1,
        count(capacity, Resource::C) >= 1,
    ensures
        after_tick(f, algo).board.waiting.len() > 0 ==> busy(after_tick(f, algo), algo),
{
    let n = f.cores.len();
    let g0 = after_cores(f, algo, n).0;
    let g = after_tick(f, algo);
    lemma_after_cores(f, algo, capacity, n);
    if !has_hand(g0.cores) && g0.board.waiting.len() > 0 {
        assert forall|i: int| 0 <= i < g0.cores.len() implies (#[trigger] g0.cores[i]).proc is None by {
            if g0.cores[i].proc is Some {
                assert(has_hand(g0.cores));
            }
        }
        lemma_held_sum_idle(g0.cores, Resource::A);
        lemma_held_sum_idle(g0.cores, Resource::B);
        lemma_held_sum_idle(g0.cores, Resource::C);
        let p = g0.board.waiting[0];
        assert(p.pending());
        assert(enough(g0.pool, p.resourses));
        crate::queue::lemma_place_keeps_order(g0.board.queue, p, algo == Algorithm::SJF);
        assert(has_ready(g.board, algo));
    }
}

/// The tasks in the hands of the cores.
pub open spec fn hands_tasks(cores: Seq<Core>) -> Multiset<Task>
    decreases cores.len(),
{
    if cores.len() == 0 {
        Multiset::empty()
    } else {
        hands_tasks(cores.drop_last()).add(hand_tasks(cores.last().proc))
    }
}

/// Every task of the floor: those in the ready queues, those that wait and
/// those in the hands of the cores.
pub open spec fn floor_tasks(f: Floor) -> Multiset<Task> {
    board_tasks(f.board).add(hands_tasks(f.cores))
}

/// Replacing one core changes the tasks in hand by what that core holds.
pub proof fn lemma_hands_tasks_update(cores: Seq<Core>, i: int, core: Core)
    requires
        0 <= i < cores.len(),
    ensures
        hands_tasks(cores.update(i, core)).add(hand_tasks(cores[i].proc)) == hands_tasks(cores).add(
            hand_tasks(core.proc),
        ),
    decreases cores.len(),
{
    let n = cores.len() - 1;
    if i < n {
        lemma_hands_tasks_update(cores.drop_last(), i, core);
        assert(cores.update(i, core).drop_last() =~= cores.drop_last().update(i, core));
        let a = hands_tasks(cores.drop_last().update(i, core));
        let b = hands_tasks(cores.drop_last());
        let last = hand_tasks(cores.last().proc);
        assert(a.add(last).add(hand_tasks(cores[i].proc)) =~= a.add(hand_tasks(cores[i].proc)).add(
            last,
        ));
        assert(b.add(last).add(hand_tasks(core.proc)) =~= b.add(hand_tasks(core.proc)).add(last));
    } else {
        assert(cores.update(i, core).drop_last() =~= cores.drop_last());
        let b = hands_tasks(cores.drop_last());
        assert(b.add(hand_tasks(core.proc)).add(hand_tasks(cores[i].proc)) =~= b.add(
            hand_tasks(cores[i].proc),
        ).add(hand_tasks(core.proc)));
    }
}

/// Each task is in one place, on the whole floor: over the tick of any core
/// the multiset of all tasks, in the queues and in the hands of all cores,
/// changes by the task that this core ran and by nothing else.
pub proof fn lemma_floor_ownership(f: Floor, algo: Algorithm, capacity: Resources, i: int)
    requires
        floor_inv(f, algo, capacity),
        0 <= i < f.cores.len(),
    ensures
        moved(floor_tasks(f), floor_tasks(core_tick(f, algo, i).0), picked(world_at(f, i), algo)),
{
    lemma_core_tick_keeps_floor(f, algo, capacity, i);
    let w = world_at(f, i);
    lemma_single_ownership(w, algo);
    let h = core_tick(f, algo, i).0;
    let v = core_step(w, algo).0;
    let emptied = Core { proc: None, idle_count: 0 };
    let others = hands_tasks(f.cores.update(i, emptied));
    lemma_hands_tasks_update(f.cores, i, emptied);
    lemma_hands_tasks_update(h.cores, i, emptied);
    assert(h.cores.update(i, emptied) =~= f.cores.update(i, emptied));
    assert(hands_tasks(f.cores) =~= others.add(hand_tasks(f.cores[i].proc)));
    assert(hands_tasks(h.cores) =~= others.add(hand_tasks(h.cores[i].proc)));
    assert(floor_tasks(f) =~= world_tasks(w).add(others));
    assert(floor_tasks(h) =~= world_tasks(v).add(others));
    lemma_moved_frame(
        world_tasks(w),
        world_tasks(v),
        picked(w, algo),
        others,
        floor_tasks(f),
        floor_tasks(h),
    );
}

/// The coordinator's part of a tick moves at most one task and changes
/// none: the floor holds the same tasks after it.
pub proof fn lemma_floor_reconciled(f: Floor, algo: Algorithm, capacity: Resources)
    requires
        floor_inv(f, algo, capacity),
    ensures
        floor_tasks(Floor { board: reconciled(f.board, f.pool, algo), ..f }) == floor_tasks(f),
{
    lemma_reconciled(f.board, f.pool, algo);
}

} // verus!

use vstd::prelude::*;
use crate::task::{Algorithm, Task};
use crate::pool::Resources;
use crate::queue::{lemma_slot_from, place, slot_from};
use crate::worker::Core;
use crate::laws::lemma_reconciled;
use crate::sim::{
    after_cores, after_tick, core_tick, floor_inv, lemma_after_cores, lemma_core_tick_keeps_floor,
    lemma_terminated_means_done, run_can_tick, run_of, tick_of, Floor, Run,
};
use crate::termination::hand_work;

verus! {

/// Some task of the queue still needs at least `k` units.
pub open spec fn heavy(s: Seq<Task>, k: int) -> bool {
    exists|i: int| 0 <= i < s.len() && (#[trigger] s[i]).remaining() >= k
}

/// Some core from `from` up to `to` has a task in hand that still needs at
/// least `k` units.
pub open spec fn heavy_hand(cores: Seq<Core>, from: int, to: int, k: int) -> bool {
    exists|i: int|
        from <= i < to && 0 <= i < cores.len() && hand_work((#[trigger] cores[i]).proc) >= k
}

/// Some task in the ready queue, in the waiting queue or in a hand still
/// needs at least `k` units.
pub open spec fn needs(f: Floor, k: int) -> bool {
    ||| heavy(f.board.queue, k)
    ||| heavy(f.board.waiting, k)
    ||| heavy_hand(f.cores, 0, f.cores.len() as int, k)
}

/// The same while the first `n` cores have taken their ticks: a task that
/// one of them has in hand may have run in this tick and need one unit less.
pub open spec fn midway(g: Floor, n: int, m: int) -> bool {
    ||| heavy(g.board.queue, m + 1)
    ||| heavy(g.board.waiting, m + 1)
    ||| heavy_hand(g.cores, n, g.cores.len() as int, m + 1)
    ||| heavy_hand(g.cores, 0, n, m)
}

/// A policy under which a core keeps its task until the task completes.
pub open spec fn runs_to_completion(algo: Algorithm) -> bool {
    algo == Algorithm::FCFS || algo == Algorithm::SJF
}

/// A task that joins a queue hides no other, and is in it.
proof fn lemma_heavy_place(s: Seq<Task>, t: Task, sorted: bool, k: int)
    ensures
        heavy(s, k) ==> heavy(place(s, t, sorted), k),
        t.remaining() >= k ==> heavy(place(s, t, sorted), k),
{
    lemma_slot_from(s, t.total_time, 0);
    let at = if sorted {
        slot_from(s, t.total_time, 0)
    } else {
        s.len() as int
    };
    let r = place(s, t, sorted);
    assert(r =~= s.insert(at, t));
    if t.remaining() >= k {
        assert(r[at] == t);
    }
    if heavy(s, k) {
        let i = choose|i: int| 0 <= i < s.len() && (#[trigger] s[i]).remaining() >= k;
        if i < at {
            assert(r[i] == s[i]);
        } else {
            assert(r[i + 1] == s[i]);
        }
    }
}

/// A task that needs `k` units is the front of its queue or in the rest.
proof fn lemma_heavy_rest(s: Seq<Task>, k: int)
    requires
        heavy(s, k),
    ensures
        s.len() > 0,
        s[0].remaining() >= k || heavy(s.subrange(1, s.len() as int), k),
{
    let i = choose|i: int| 0 <= i < s.len() && (#[trigger] s[i]).remaining() >= k;
    if i > 0 {
        assert(s.subrange(1, s.len() as int)[i - 1] == s[i]);
    }
}

/// A task that needs more than `k` units needs at least `k`.
proof fn lemma_heavy_less(s: Seq<Task>, k: int)
    requires
        heavy(s, k + 1),
    ensures
        heavy(s, k),
{
    let i = choose|i: int| 0 <= i < s.len() && (#[trigger] s[i]).remaining() >= k + 1;
    assert(s[i].remaining() >= k);
}

/// The tick of core `n` keeps `midway`: the task it runs needs one unit
/// less afterwards and is then in the hand of a core that has had its turn.
proof fn lemma_midway_step(g: Floor, algo: Algorithm, capacity: Resources, n: int, m: int)
    requires
        floor_inv(g, algo, capacity),
        runs_to_completion(algo),
        0 <= n < g.cores.len(),
        m >= 1,
        midway(g, n, m),
    ensures
        midway(core_tick(g, algo, n).0, n + 1, m),
{
    lemma_core_tick_keeps_floor(g, algo, capacity, n);
    let h = core_tick(g, algo, n).0;
    let sorted = algo == Algorithm::SJF;
    let q = g.board.queue;
    let hand = g.cores[n].proc;
    let len = g.cores.len() as int;
    if hand is None && q.len() > 0 {
        lemma_heavy_place(g.board.waiting, q[0], sorted, m + 1);
    }
    if heavy(q, m + 1) {
        if hand is None {
            lemma_heavy_rest(q, m + 1);
            if q[0].remaining() >= m + 1 && crate::pool::enough(g.pool, q[0].resourses) {
                assert(hand_work(h.cores[n].proc) >= m);
                assert(heavy_hand(h.cores, 0, n + 1, m));
            }
        }
    } else if heavy(g.board.waiting, m + 1) {
    } else if heavy_hand(g.cores, n, len, m + 1) {
        let i = choose|i: int|
            n <= i < len && 0 <= i < g.cores.len() && hand_work((#[trigger] g.cores[i]).proc) >= m
                + 1;
        if i == n {
            assert(hand_work(h.cores[n].proc) >= m);
            assert(heavy_hand(h.cores, 0, n + 1, m));
        } else {
            assert(h.cores[i] == g.cores[i]);
            assert(heavy_hand(h.cores, n + 1, len, m + 1));
        }
    } else {
        let i = choose|i: int|
            0 <= i < n && 0 <= i < g.cores.len() && hand_work((#[trigger] g.cores[i]).proc) >= m;
        assert(h.cores[i] == g.cores[i]);
        assert(heavy_hand(h.cores, 0, n + 1, m));
    }
}

/// `midway` holds after the ticks of the first `n` cores.
proof fn lemma_midway(f: Floor, algo: Algorithm, capacity: Resources, n: nat, m: int)
    requires
        floor_inv(f, algo, capacity),
        runs_to_completion(algo),
        n <= f.cores.len(),
        m >= 1,
        needs(f, m + 1),
    ensures
        midway(after_cores(f, algo, n).0, n as int, m),
    decreases n,
{
    if n > 0 {
        let k = (n - 1) as nat;
        lemma_midway(f, algo, capacity, k, m);
        lemma_after_cores(f, algo, capacity, k);
        lemma_midway_step(after_cores(f, algo, k).0, algo, capacity, k as int, m);
    } else {
        if heavy_hand(f.cores, 0, f.cores.len() as int, m + 1) {
            let i = choose|i: int|
                0 <= i < f.cores.len() as int && 0 <= i < f.cores.len() && hand_work(
                    (#[trigger] f.cores[i]).proc,
                ) >= m + 1;
            assert(heavy_hand(after_cores(f, algo, 0).0.cores, 0, f.cores.len() as int, m + 1));
        }
    }
}

/// A whole tick keeps the floor valid.
pub proof fn lemma_tick_keeps_floor(f: Floor, algo: Algorithm, capacity: Resources)
    requires
        floor_inv(f, algo, capacity),
    ensures
        floor_inv(after_tick(f, algo), algo, capacity),
{
    lemma_after_cores(f, algo, capacity, f.cores.len());
    let g0 = after_cores(f, algo, f.cores.len()).0;
    lemma_reconciled(g0.board, g0.pool, algo);
    assert(after_tick(f, algo).cores == g0.cores);
}

/// Under a run-to-completion policy no task runs for more than one unit in
/// a tick: where some task needed more than `m` units before a tick, some
/// task needs at least `m` units after it.
pub proof fn lemma_tick_keeps_heavy(f: Floor, algo: Algorithm, capacity: Resources, m: int)
    requires
        floor_inv(f, algo, capacity),
        runs_to_completion(algo),
        m >= 1,
        needs(f, m + 1),
    ensures
        needs(after_tick(f, algo), m),
{
    let n = f.cores.len();
    lemma_midway(f, algo, capacity, n, m);
    lemma_after_cores(f, algo, capacity, n);
    let g0 = after_cores(f, algo, n).0;
    let g = after_tick(f, algo);
    let sorted = algo == Algorithm::SJF;
    if heavy(g0.board.queue, m + 1) {
        lemma_heavy_less(g0.board.queue, m);
    }
    if heavy(g0.board.waiting, m + 1) {
        lemma_heavy_less(g0.board.waiting, m);
    }
    if heavy_hand(g0.cores, 0, n as int, m) {
        assert(heavy_hand(g.cores, 0, g.cores.len() as int, m));
    } else {
        assert(heavy(g0.board.queue, m) || heavy(g0.board.waiting, m));
        let w = g0.board.waiting;
        if w.len() > 0 {
            let p = w[0];
            let rest = w.subrange(1, w.len() as int);
            lemma_heavy_place(g0.board.queue, p, sorted, m);
            lemma_heavy_place(rest, p, sorted, m);
            if heavy(w, m) {
                lemma_heavy_rest(w, m);
            }
        }
    }
}

/// Under a run-to-completion policy a run that ends as terminated has made
/// at least as many ticks as its longest task needed units at the start.
pub proof fn lemma_run_takes_time(
    r: Run,
    algo: Algorithm,
    capacity: Resources,
    limit: nat,
    m: int,
)
    requires
        floor_inv(r.floor, algo, capacity),
        runs_to_completion(algo),
        m >= 1 ==> needs(r.floor, m),
        run_of(r, algo, limit).1 is Terminated,
    ensures
        run_of(r, algo, limit).0.clocks >= r.clocks + m,
        run_of(r, algo, limit).0.clocks > r.clocks,
    decreases limit,
{
    assert(limit > 0 && run_can_tick(r));
    let t = tick_of(r, algo);
    lemma_tick_keeps_floor(r.floor, algo, capacity);
    if m >= 2 {
        lemma_tick_keeps_heavy(r.floor, algo, capacity, m - 1);
    }
    if t.1 is Continue {
        lemma_run_takes_time(t.0, algo, capacity, (limit - 1) as nat, m - 1);
    } else if m >= 2 && t.1 is Terminated {
        lemma_terminated_means_done(r.floor, algo, capacity, t.0.stalled, t.0.clocks);
        lemma_after_cores(r.floor, algo, capacity, r.floor.cores.len());
        let g = t.0.floor;
        assert(g.cores.len() == r.floor.cores.len());
        assert(!heavy(g.board.queue, m - 1));
        assert(!heavy(g.board.waiting, m - 1));
        assert(!heavy_hand(g.cores, 0, g.cores.len() as int, m - 1)) by {
            if heavy_hand(g.cores, 0, g.cores.len() as int, m - 1) {
                let i = choose|i: int|
                    0 <= i < g.cores.len() as int && 0 <= i < g.cores.len() && hand_work(
                        (#[trigger] g.cores[i]).proc,
                    ) >= m - 1;
                assert(g.cores[i].proc is None);
            }
        }
    }
}

} // verus!

use std::collections::VecDeque;
use tick_sched::master::{
    every_core_idle, make_ready, master_worker, reconcile, Coordinator, Outcome,
};
use tick_sched::pool::Resources;
use tick_sched::sim::{Simulation, CORES};
use tick_sched::task::{Algorithm, Resource, Task, TaskType};
use tick_sched::worker::{Levels, Report};

fn pool(a: u16, b: u16, c: u16) -> Resources {
    ((Resource::A, a), (Resource::B, b), (Resource::C, c))
}

fn task(name: &str, kind: TaskType, total: u16) -> Task {
    Task::new(String::from(name), kind, total)
}

fn names(q: &VecDeque<Task>) -> Vec<String> {
    q.iter().map(|t| t.name.clone()).collect()
}

fn idle_reports() -> Vec<Report> {
    vec![
        Report::Idle { idle_count: 1 },
        Report::Idle { idle_count: 1 },
        Report::Idle { idle_count: 1 },
        Report::Idle { idle_count: 1 },
    ]
}

fn busy_reports() -> Vec<Report> {
    let mut r = idle_reports();
    r[2] = Report::Processing {
        name: String::from("idle"),
        task_type: TaskType::X,
        total_time: 3,
        time_executed: 1,
    };
    r
}

fn held(sim: &Simulation, r: Resource) -> u16 {
    let mut n = 0;
    for core in sim.cores.iter() {
        if let Some(t) = &core.proc {
            if t.resourses.0 == r || t.resourses.1 == r {
                n += 1;
            }
        }
    }
    n
}

fn in_system(sim: &Simulation) -> usize {
    sim.queue.len()
        + sim.queues.x.len()
        + sim.queues.y.len()
        + sim.queues.z.len()
        + sim.w_queue.len()
        + sim.cores.iter().filter(|c| c.proc.is_some()).count()
}

#[test]
fn a_task_named_idle_is_not_an_idle_report() {
    assert!(every_core_idle(&idle_reports()));
    assert!(!every_core_idle(&busy_reports()));
    assert!(every_core_idle(&Vec::new()));
}

#[test]
fn reconcile_looks_at_the_front_only() {
    let mut queue: VecDeque<Task> = VecDeque::new();
    let mut waiting: VecDeque<Task> = VecDeque::new();
    let mut levels = Levels::new();
    waiting.push_back(task("x", TaskType::X, 1));
    waiting.push_back(task("y", TaskType::Y, 1));
    let have = pool(0, 1, 1);
    reconcile(&have, &mut queue, &mut waiting, Algorithm::FCFS, &mut levels);
    assert_eq!(names(&waiting), vec!["y", "x"]);
    assert!(queue.is_empty());
    reconcile(&have, &mut queue, &mut waiting, Algorithm::FCFS, &mut levels);
    assert_eq!(names(&waiting), vec!["x"]);
    assert_eq!(names(&queue), vec!["y"]);
    reconcile(&have, &mut queue, &mut waiting, Algorithm::FCFS, &mut levels);
    assert_eq!(names(&waiting), vec!["x"]);
    assert_eq!(names(&queue), vec!["y"]);
}

#[test]
fn reconcile_under_sjf_keeps_both_queues_sorted() {
    let mut queue: VecDeque<Task> = VecDeque::new();
    let mut waiting: VecDeque<Task> = VecDeque::new();
    let mut levels = Levels::new();
    queue.push_back(task("q1", TaskType::Y, 1));
    queue.push_back(task("q9", TaskType::Y, 9));
    waiting.push_back(task("w2", TaskType::X, 2));
    waiting.push_back(task("w2b", TaskType::X, 2));
    waiting.push_back(task("w4", TaskType::Y, 4));
    reconcile(&pool(0, 1, 1), &mut queue, &mut waiting, Algorithm::SJF, &mut levels);
    assert_eq!(names(&waiting), vec!["w2b", "w2", "w4"]);
    assert_eq!(names(&queue), vec!["q1", "q9"]);
    reconcile(&pool(1, 1, 1), &mut queue, &mut waiting, Algorithm::SJF, &mut levels);
    assert_eq!(names(&waiting), vec!["w2", "w4"]);
    assert_eq!(names(&queue), vec!["q1", "w2b", "q9"]);
}

#[test]
fn reconcile_under_mlq_routes_by_kind() {
    let mut queue: VecDeque<Task> = VecDeque::new();
    let mut waiting: VecDeque<Task> = VecDeque::new();
    let mut levels = Levels::new();
    waiting.push_back(task("x", TaskType::X, 1));
    waiting.push_back(task("y", TaskType::Y, 1));
    waiting.push_back(task("z", TaskType::Z, 1));
    let have = pool(1, 1, 1);
    reconcile(&have, &mut queue, &mut waiting, Algorithm::MLQ, &mut levels);
    reconcile(&have, &mut queue, &mut waiting, Algorithm::MLQ, &mut levels);
    reconcile(&have, &mut queue, &mut waiting, Algorithm::MLQ, &mut levels);
    assert!(queue.is_empty() && waiting.is_empty());
    assert_eq!(names(&levels.x), vec!["x"]);
    assert_eq!(names(&levels.y), vec!["y"]);
    assert_eq!(names(&levels.z), vec!["z"]);
}

#[test]
fn make_ready_follows_the_policy() {
    let mut queue: VecDeque<Task> = VecDeque::new();
    let mut levels = Levels::new();
    make_ready(&mut queue, &mut levels, Algorithm::RR, task("a", TaskType::Z, 5));
    make_ready(&mut queue, &mut levels, Algorithm::RR, task("b", TaskType::Z, 1));
    assert_eq!(names(&queue), vec!["a", "b"]);
    make_ready(&mut queue, &mut levels, Algorithm::MLQ, task("c", TaskType::Z, 1));
    assert_eq!(names(&levels.z), vec!["c"]);
    let mut sorted: VecDeque<Task> = VecDeque::new();
    make_ready(&mut sorted, &mut levels, Algorithm::SJF, task("a", TaskType::Z, 5));
    make_ready(&mut sorted, &mut levels, Algorithm::SJF, task("b", TaskType::Z, 1));
    assert_eq!(names(&sorted), vec!["b", "a"]);
}

#[test]
fn coordinator_terminates_only_when_all_idle_and_all_empty() {
    let mut coord = Coordinator::new();
    let mut queue: VecDeque<Task> = VecDeque::new();
    let mut waiting: VecDeque<Task> = VecDeque::new();
    let mut levels = Levels::new();
    let have = pool(1, 1, 1);
    let o = master_worker(&mut coord, &busy_reports(), &have, &mut queue, &mut waiting, Algorithm::FCFS, &mut levels);
    assert_eq!(o, Outcome::Continue);
    queue.push_back(task("t", TaskType::X, 1));
    let o = master_worker(&mut coord, &idle_reports(), &have, &mut queue, &mut waiting, Algorithm::FCFS, &mut levels);
    assert_eq!(o, Outcome::Continue);
    queue.clear();
    levels.y.push_back(task("t", TaskType::Y, 1));
    let o = master_worker(&mut coord, &idle_reports(), &have, &mut queue, &mut waiting, Algorithm::MLQ, &mut levels);
    assert_eq!(o, Outcome::Continue);
    levels.y.clear();
    let o = master_worker(&mut coord, &idle_reports(), &have, &mut queue, &mut waiting, Algorithm::MLQ, &mut levels);
    assert_eq!(o, Outcome::Terminated { clocks: 4 });
    assert_eq!(coord.clocks, 4);
    assert_eq!(coord.stalled, 0);
}

#[test]
fn coordinator_reports_livelock_after_offering_every_waiting_task() {
    let mut coord = Coordinator::new();
    let mut queue: VecDeque<Task> = VecDeque::new();
    let mut waiting: VecDeque<Task> = VecDeque::new();
    let mut levels = Levels::new();
    let have = pool(0, 0, 1);
    waiting.push_back(task("a", TaskType::X, 1));
    waiting.push_back(task("b", TaskType::Y, 1));
    waiting.push_back(task("c", TaskType::Z, 1));
    let o = master_worker(&mut coord, &idle_reports(), &have, &mut queue, &mut waiting, Algorithm::RR, &mut levels);
    assert_eq!((o, coord.stalled), (Outcome::Continue, 1));
    let o = master_worker(&mut coord, &busy_reports(), &have, &mut queue, &mut waiting, Algorithm::RR, &mut levels);
    assert_eq!((o, coord.stalled), (Outcome::Continue, 0));
    let o = master_worker(&mut coord, &idle_reports(), &have, &mut queue, &mut waiting, Algorithm::RR, &mut levels);
    assert_eq!((o, coord.stalled), (Outcome::Continue, 1));
    let o = master_worker(&mut coord, &idle_reports(), &have, &mut queue, &mut waiting, Algorithm::RR, &mut levels);
    assert_eq!((o, coord.stalled), (Outcome::Continue, 2));
    let o = master_worker(&mut coord, &idle_reports(), &have, &mut queue, &mut waiting, Algorithm::RR, &mut levels);
    assert_eq!(o, Outcome::Livelock { clocks: 5 });
    assert_eq!(waiting.len(), 3);
}

#[test]
fn new_simulation_has_four_idle_cores_and_a_full_pool() {
    let sim = Simulation::new(Algorithm::RR, 3, 0, 7);
    assert_eq!(CORES, 4);
    assert_eq!(sim.cores.len(), 4);
    assert!(sim.cores.iter().all(|c| c.proc.is_none() && c.idle_count == 0));
    assert_eq!(sim.resourses, pool(3, 0, 7));
    assert_eq!(sim.capacity, pool(3, 0, 7));
    assert_eq!(sim.algo, Algorithm::RR);
    assert_eq!(in_system(&sim), 0);
    assert_eq!((sim.coord.clocks, sim.coord.stalled), (0, 0));
}

#[test]
fn enroll_turns_away_a_task_without_work() {
    let mut sim = Simulation::new(Algorithm::SJF, 1, 1, 1);
    assert!(!sim.enroll(task("none", TaskType::X, 0)));
    assert_eq!(in_system(&sim), 0);
    assert!(sim.enroll(task("b", TaskType::X, 4)));
    assert!(sim.enroll(task("a", TaskType::Y, 2)));
    assert!(sim.enroll(task("c", TaskType::Z, 4)));
    assert_eq!(names(&sim.queue), vec!["a", "b", "c"]);
    let mut mlq = Simulation::new(Algorithm::MLQ, 1, 1, 1);
    assert!(mlq.enroll(task("b", TaskType::X, 4)));
    assert!(mlq.enroll(task("a", TaskType::Y, 2)));
    assert!(mlq.enroll(task("c", TaskType::Z, 4)));
    assert!(mlq.queue.is_empty());
    assert_eq!(names(&mlq.queues.x), vec!["b"]);
    assert_eq!(names(&mlq.queues.y), vec!["a"]);
    assert_eq!(names(&mlq.queues.z), vec!["c"]);
}

#[test]
fn single_fcfs_task_runs_three_ticks_then_the_run_ends() {
    let mut sim = Simulation::new(Algorithm::FCFS, 1, 1, 1);
    assert!(sim.enroll(task("t", TaskType::X, 3)));
    for done in 1..=3u16 {
        let o = sim.tick();
        assert_eq!(o, Outcome::Continue);
        assert_eq!(
            sim.reports[0],
            Report::Processing {
                name: String::from("t"),
                task_type: TaskType::X,
                total_time: 3,
                time_executed: done,
            }
        );
        assert!(sim.reports[1..].iter().all(|r| r.is_idle()));
        if done < 3 {
            assert_eq!(sim.resourses, pool(0, 0, 1));
        }
    }
    assert_eq!(sim.resourses, pool(1, 1, 1));
    assert_eq!(in_system(&sim), 0);
    let o = sim.tick();
    assert_eq!(o, Outcome::Terminated { clocks: 4 });
    assert!(sim.reports.iter().all(|r| r.is_idle()));
}

#[test]
fn task_without_resources_is_parked_and_livelock_is_reported() {
    let mut sim = Simulation::new(Algorithm::FCFS, 0, 1, 1);
    assert!(sim.enroll(task("t", TaskType::X, 1)));
    let o = sim.tick();
    assert_eq!(o, Outcome::Livelock { clocks: 1 });
    assert_eq!(names(&sim.w_queue), vec!["t"]);
    assert_eq!(sim.w_queue[0].time_executed, 0);
    assert!(sim.queue.is_empty());
    assert!(sim.reports.iter().all(|r| r.is_idle()));
    for n in 2..6u64 {
        let o = sim.tick();
        assert_eq!(o, Outcome::Livelock { clocks: n });
        assert_eq!(names(&sim.w_queue), vec!["t"]);
    }
}

#[test]
fn mlq_runs_x_only_after_z_has_drained() {
    let mut sim = Simulation::new(Algorithm::MLQ, 4, 4, 4);
    assert!(sim.enroll(task("z", TaskType::Z, 2)));
    assert!(sim.enroll(task("x", TaskType::X, 5)));
    let mut order: Vec<(String, u16)> = Vec::new();
    let mut outcome = Outcome::Continue;
    let mut ticks = 0;
    while outcome == Outcome::Continue && ticks < 50 {
        outcome = sim.tick();
        ticks += 1;
        for r in sim.reports.iter() {
            if let Report::Processing { name, time_executed, .. } = r {
                order.push((name.clone(), *time_executed));
            }
        }
        assert_eq!(sim.resourses.0 .1 + held(&sim, Resource::A), 4);
        assert_eq!(sim.resourses.1 .1 + held(&sim, Resource::B), 4);
        assert_eq!(sim.resourses.2 .1 + held(&sim, Resource::C), 4);
    }
    let expected: Vec<(String, u16)> = vec![
        (String::from("z"), 1),
        (String::from("z"), 2),
        (String::from("x"), 1),
        (String::from("x"), 2),
        (String::from("x"), 3),
        (String::from("x"), 4),
        (String::from("x"), 5),
    ];
    assert_eq!(order, expected);
    assert_eq!(outcome, Outcome::Terminated { clocks: 6 });
}

#[test]
fn every_policy_conserves_resources_and_tasks() {
    for algo in [Algorithm::FCFS, Algorithm::SJF, Algorithm::RR, Algorithm::MLQ] {
        let mut sim = Simulation::new(algo, 1, 2, 1);
        let kinds = [TaskType::X, TaskType::Y, TaskType::Z, TaskType::Y, TaskType::X, TaskType::Z];
        let mut work: u32 = 0;
        for (i, kind) in kinds.iter().enumerate() {
            let total = (7 - i) as u16;
            work += total as u32;
            assert!(sim.enroll(Task::new(format!("t{}", i), *kind, total)));
        }
        let mut processed: u32 = 0;
        let mut outcome = Outcome::Continue;
        let mut ticks = 0;
        while outcome == Outcome::Continue && ticks < 500 {
            let before = in_system(&sim);
            outcome = sim.tick();
            ticks += 1;
            let ran = sim.reports.iter().filter(|r| !r.is_idle()).count();
            let finished = sim
                .reports
                .iter()
                .filter(|r| matches!(r, Report::Processing { total_time, time_executed, .. } if total_time == time_executed))
                .count();
            processed += ran as u32;
            assert_eq!(in_system(&sim) + finished, before);
            assert_eq!(sim.resourses.0 .1 + held(&sim, Resource::A), 1);
            assert_eq!(sim.resourses.1 .1 + held(&sim, Resource::B), 2);
            assert_eq!(sim.resourses.2 .1 + held(&sim, Resource::C), 1);
            if algo == Algorithm::SJF {
                let q: Vec<u16> = sim.queue.iter().map(|t| t.total_time).collect();
                let w: Vec<u16> = sim.w_queue.iter().map(|t| t.total_time).collect();
                assert!(q.windows(2).all(|p| p[0] <= p[1]));
                assert!(w.windows(2).all(|p| p[0] <= p[1]));
            }
        }
        assert_eq!(outcome, Outcome::Terminated { clocks: ticks });
        assert!(ticks <= work as u64 + 1);
        assert_eq!(processed, work);
        assert_eq!(in_system(&sim), 0);
        assert_eq!(sim.resourses, pool(1, 2, 1));
    }
}

#[test]
fn run_stops_at_the_limit_or_at_the_end() {
    let mut sim = Simulation::new(Algorithm::FCFS, 1, 1, 1);
    assert!(sim.enroll(task("t", TaskType::X, 3)));
    assert!(sim.ready());
    assert_eq!(sim.run(0), Outcome::Continue);
    assert_eq!(sim.coord.clocks, 0);
    assert_eq!(sim.run(2), Outcome::Continue);
    assert_eq!(sim.coord.clocks, 2);
    assert_eq!(sim.cores[0].proc.as_ref().map(|t| t.time_executed), Some(2));
    assert_eq!(sim.run(100), Outcome::Terminated { clocks: 4 });
    assert_eq!(sim.coord.clocks, 4);
    assert_eq!(sim.resourses, pool(1, 1, 1));
}

#[test]
fn run_makes_no_tick_when_a_counter_is_at_its_limit() {
    let mut sim = Simulation::new(Algorithm::RR, 1, 1, 1);
    assert!(sim.enroll(task("t", TaskType::X, 3)));
    sim.cores[3].idle_count = u64::MAX;
    assert!(!sim.ready());
    assert_eq!(sim.run(10), Outcome::Continue);
    assert_eq!(sim.coord.clocks, 0);
    assert_eq!(sim.queue.len(), 1);
    sim.cores[3].idle_count = 0;
    sim.coord.clocks = u64::MAX;
    assert!(!sim.ready());
    assert_eq!(sim.run(10), Outcome::Continue);
    assert_eq!(sim.queue[0].time_executed, 0);
}

#[test]
fn run_reports_livelock_for_a_task_that_can_never_be_served() {
    for algo in [Algorithm::FCFS, Algorithm::SJF, Algorithm::RR, Algorithm::MLQ] {
        let mut sim = Simulation::new(algo, 1, 1, 0);
        assert!(sim.enroll(task("ok", TaskType::X, 2)));
        assert!(sim.enroll(task("never", TaskType::Z, 1)));
        assert!(sim.enroll(task("never2", TaskType::Y, 3)));
        let outcome = sim.run(1000);
        assert!(matches!(outcome, Outcome::Livelock { .. }));
        assert_eq!(sim.w_queue.len(), 2);
        assert!(sim.w_queue.iter().all(|t| t.time_executed == 0));
        assert_eq!(in_system(&sim), 2);
        assert_eq!(sim.resourses, pool(1, 1, 0));
        assert!(sim.coord.clocks <= 6);
    }
}

#[test]
fn round_robin_task_may_run_on_several_cores_in_one_tick() {
    let mut sim = Simulation::new(Algorithm::RR, 1, 1, 1);
    assert!(sim.enroll(task("t", TaskType::X, 8)));
    assert_eq!(sim.tick(), Outcome::Continue);
    assert!(sim.reports.iter().all(|r| !r.is_idle()));
    assert_eq!(sim.queue[0].time_executed, 4);
    assert_eq!(sim.tick(), Outcome::Continue);
    assert!(sim.queue.is_empty());
    assert_eq!(sim.tick(), Outcome::Terminated { clocks: 3 });
}

#[test]
fn the_last_tick_of_a_run_is_an_idle_one() {
    let mut sim = Simulation::new(Algorithm::SJF, 1, 1, 1);
    assert!(sim.enroll(task("t", TaskType::Y, 1)));
    assert_eq!(sim.tick(), Outcome::Continue);
    assert_eq!(sim.tick(), Outcome::Terminated { clocks: 2 });
    let mut empty = Simulation::new(Algorithm::MLQ, 0, 0, 0);
    assert_eq!(empty.tick(), Outcome::Terminated { clocks: 1 });
}

#[test]
fn sjf_runs_the_shortest_job_first_and_lets_the_blocked_wait() {
    let mut sim = Simulation::new(Algorithm::SJF, 1, 1, 1);
    assert!(sim.enroll(task("long", TaskType::X, 3)));
    assert!(sim.enroll(task("short", TaskType::X, 1)));
    assert!(sim.enroll(task("mid", TaskType::X, 2)));
    assert_eq!(names(&sim.queue), vec!["short", "mid", "long"]);
    assert_eq!(sim.tick(), Outcome::Continue);
    let ran: Vec<String> = sim
        .reports
        .iter()
        .filter_map(|r| match r {
            Report::Processing { name, .. } => Some(name.clone()),
            Report::Idle { .. } => None,
        })
        .collect();
    assert_eq!(ran, vec!["short", "mid"]);
    assert_eq!(sim.cores[1].proc.as_ref().map(|t| t.name.clone()), Some(String::from("mid")));
    assert_eq!(names(&sim.w_queue), vec!["long"]);
    assert_eq!(sim.resourses, pool(0, 0, 1));
    assert_eq!(sim.run(100), Outcome::Terminated { clocks: 6 });
}

#[test]
fn enroll_starts_the_count_of_stuck_ticks_anew() {
    let mut sim = Simulation::new(Algorithm::FCFS, 0, 1, 1);
    assert!(sim.enroll(task("a", TaskType::X, 1)));
    assert!(sim.enroll(task("b", TaskType::Z, 1)));
    assert_eq!(sim.tick(), Outcome::Continue);
    assert_eq!(sim.coord.stalled, 1);
    assert!(!sim.enroll(task("none", TaskType::Y, 0)));
    assert_eq!(sim.coord.stalled, 1);
    assert!(sim.enroll(task("c", TaskType::Y, 1)));
    assert_eq!(sim.coord.stalled, 0);
    assert_eq!(sim.coord.clocks, 1);
    assert_eq!(sim.tick(), Outcome::Continue);
    assert_eq!(sim.run(10), Outcome::Livelock { clocks: 4 });
    assert_eq!(names(&sim.w_queue), vec!["a", "b"]);
}

#[test]
fn run_with_ample_pool_ends_within_the_work_plus_one_tick() {
    for algo in [Algorithm::FCFS, Algorithm::SJF, Algorithm::RR, Algorithm::MLQ] {
        let mut sim = Simulation::new(algo, 1, 1, 1);
        assert!(sim.enroll(task("a", TaskType::X, 3)));
        assert!(sim.enroll(task("b", TaskType::Z, 2)));
        assert!(sim.enroll(task("c", TaskType::Y, 4)));
        assert!(sim.enroll(task("d", TaskType::X, 1)));
        let outcome = sim.run(11);
        match outcome {
            Outcome::Terminated { clocks } => {
                assert!(clocks <= 11);
                assert_eq!(clocks, sim.coord.clocks);
            }
            other => panic!("{:?} under {:?}", other, algo),
        }
        assert_eq!(in_system(&sim), 0);
        assert_eq!(sim.resourses, pool(1, 1, 1));
        assert_eq!(sim.coord.stalled, 0);
    }
}

use std::collections::VecDeque;
use tick_sched::pool::Resources;
use tick_sched::task::{Algorithm, Resource, Task, TaskType};
use tick_sched::worker::{
    all_pending_in, cpu_worker, preempt, round_robin, run_to_completion, tick_allowed, Core,
    Levels, Report,
};

fn pool(a: u16, b: u16, c: u16) -> Resources {
    ((Resource::A, a), (Resource::B, b), (Resource::C, c))
}

fn task(name: &str, kind: TaskType, total: u16) -> Task {
    Task::new(String::from(name), kind, total)
}

fn names(q: &VecDeque<Task>) -> Vec<String> {
    q.iter().map(|t| t.name.clone()).collect()
}

fn processing(name: &str, kind: TaskType, total: u16, done: u16) -> Report {
    Report::Processing {
        name: String::from(name),
        task_type: kind,
        total_time: total,
        time_executed: done,
    }
}

#[test]
fn fcfs_core_holds_its_task_until_it_completes() {
    let mut core = Core::new();
    let mut queue: VecDeque<Task> = VecDeque::new();
    let mut waiting: VecDeque<Task> = VecDeque::new();
    let mut levels = Levels::new();
    let mut have = pool(1, 1, 1);
    queue.push_back(task("t", TaskType::X, 2));
    queue.push_back(task("u", TaskType::Y, 1));
    let r = cpu_worker(&mut core, &mut queue, &mut waiting, &mut have, Algorithm::FCFS, &mut levels);
    assert_eq!(r, processing("t", TaskType::X, 2, 1));
    assert_eq!(have, pool(0, 0, 1));
    assert_eq!(core.proc.as_ref().map(|t| t.time_executed), Some(1));
    assert_eq!(names(&queue), vec!["u"]);
    let r = cpu_worker(&mut core, &mut queue, &mut waiting, &mut have, Algorithm::FCFS, &mut levels);
    assert_eq!(r, processing("t", TaskType::X, 2, 2));
    assert_eq!(have, pool(1, 1, 1));
    assert!(core.proc.is_none());
    assert_eq!(names(&queue), vec!["u"]);
    assert!(waiting.is_empty());
    assert_eq!(core.idle_count, 0);
}

#[test]
fn fcfs_blocked_task_waits_and_core_is_idle() {
    let mut core = Core::new();
    let mut queue: VecDeque<Task> = VecDeque::new();
    let mut waiting: VecDeque<Task> = VecDeque::new();
    let mut levels = Levels::new();
    let mut have = pool(1, 0, 1);
    queue.push_back(task("t", TaskType::X, 2));
    queue.push_back(task("z", TaskType::Z, 2));
    let r = cpu_worker(&mut core, &mut queue, &mut waiting, &mut have, Algorithm::FCFS, &mut levels);
    assert_eq!(r, Report::Idle { idle_count: 1 });
    assert!(r.is_idle());
    assert_eq!(have, pool(1, 0, 1));
    assert_eq!(names(&waiting), vec!["t"]);
    assert_eq!(names(&queue), vec!["z"]);
    assert!(core.proc.is_none());
    assert_eq!(core.idle_count, 1);
}

#[test]
fn idle_core_counts_its_idle_ticks() {
    let mut core = Core::new();
    let mut queue: VecDeque<Task> = VecDeque::new();
    let mut waiting: VecDeque<Task> = VecDeque::new();
    let mut have = pool(1, 1, 1);
    let a = run_to_completion(&mut core, &mut queue, &mut waiting, &mut have, false);
    let b = round_robin(&mut core, &mut queue, &mut waiting, &mut have);
    assert_eq!(a, Report::Idle { idle_count: 1 });
    assert_eq!(b, Report::Idle { idle_count: 2 });
    assert_eq!(have, pool(1, 1, 1));
}

#[test]
fn sjf_core_keeps_the_waiting_queue_sorted() {
    let mut core = Core::new();
    let mut queue: VecDeque<Task> = VecDeque::new();
    let mut waiting: VecDeque<Task> = VecDeque::new();
    let mut levels = Levels::new();
    let mut have = pool(0, 1, 1);
    waiting.push_back(task("w1", TaskType::X, 1));
    waiting.push_back(task("w5", TaskType::X, 5));
    queue.push_back(task("q3", TaskType::X, 3));
    let r = cpu_worker(&mut core, &mut queue, &mut waiting, &mut have, Algorithm::SJF, &mut levels);
    assert!(r.is_idle());
    assert_eq!(names(&waiting), vec!["w1", "q3", "w5"]);
    let mut fifo: VecDeque<Task> = VecDeque::new();
    fifo.push_back(task("w1", TaskType::X, 1));
    fifo.push_back(task("w5", TaskType::X, 5));
    queue.push_back(task("q3", TaskType::X, 3));
    let r = cpu_worker(&mut core, &mut queue, &mut fifo, &mut have, Algorithm::FCFS, &mut levels);
    assert!(r.is_idle());
    assert_eq!(names(&fifo), vec!["w1", "w5", "q3"]);
}

#[test]
fn round_robin_skips_blocked_tasks_and_requeues_at_the_tail() {
    let mut core = Core::new();
    let mut queue: VecDeque<Task> = VecDeque::new();
    let mut waiting: VecDeque<Task> = VecDeque::new();
    let mut levels = Levels::new();
    let mut have = pool(0, 1, 1);
    queue.push_back(task("x1", TaskType::X, 2));
    queue.push_back(task("z1", TaskType::Z, 2));
    queue.push_back(task("y1", TaskType::Y, 2));
    queue.push_back(task("x2", TaskType::X, 2));
    let r = cpu_worker(&mut core, &mut queue, &mut waiting, &mut have, Algorithm::RR, &mut levels);
    assert_eq!(r, processing("y1", TaskType::Y, 2, 1));
    assert_eq!(names(&waiting), vec!["x1", "z1"]);
    assert_eq!(names(&queue), vec!["x2", "y1"]);
    assert_eq!(queue[1].time_executed, 1);
    assert_eq!(have, pool(0, 1, 1));
    assert!(core.proc.is_none());
    let r = cpu_worker(&mut core, &mut queue, &mut waiting, &mut have, Algorithm::RR, &mut levels);
    assert_eq!(r, processing("y1", TaskType::Y, 2, 2));
    assert_eq!(names(&waiting), vec!["x1", "z1", "x2"]);
    assert!(queue.is_empty());
    assert_eq!(have, pool(0, 1, 1));
    let r = cpu_worker(&mut core, &mut queue, &mut waiting, &mut have, Algorithm::RR, &mut levels);
    assert_eq!(r, Report::Idle { idle_count: 1 });
}

#[test]
fn round_robin_with_nothing_runnable_parks_the_whole_queue() {
    let mut core = Core::new();
    let mut queue: VecDeque<Task> = VecDeque::new();
    let mut waiting: VecDeque<Task> = VecDeque::new();
    let mut have = pool(0, 0, 0);
    queue.push_back(task("a", TaskType::X, 1));
    queue.push_back(task("b", TaskType::Y, 1));
    let r = round_robin(&mut core, &mut queue, &mut waiting, &mut have);
    assert_eq!(r, Report::Idle { idle_count: 1 });
    assert!(queue.is_empty());
    assert_eq!(names(&waiting), vec!["a", "b"]);
}

#[test]
fn mlq_preempts_the_task_in_hand_and_keeps_its_progress() {
    let mut core = Core::new();
    let mut queue: VecDeque<Task> = VecDeque::new();
    let mut waiting: VecDeque<Task> = VecDeque::new();
    let mut levels = Levels::new();
    let mut have = pool(1, 1, 1);
    levels.x.push_back(task("x", TaskType::X, 5));
    levels.x.push_back(task("x2", TaskType::X, 1));
    let r = cpu_worker(&mut core, &mut queue, &mut waiting, &mut have, Algorithm::MLQ, &mut levels);
    assert_eq!(r, processing("x", TaskType::X, 5, 1));
    let r = cpu_worker(&mut core, &mut queue, &mut waiting, &mut have, Algorithm::MLQ, &mut levels);
    assert_eq!(r, processing("x", TaskType::X, 5, 2));
    assert_eq!(have, pool(0, 0, 1));
    levels.z.push_back(task("z", TaskType::Z, 2));
    let r = cpu_worker(&mut core, &mut queue, &mut waiting, &mut have, Algorithm::MLQ, &mut levels);
    assert_eq!(r, processing("z", TaskType::Z, 2, 1));
    assert!(core.proc.is_none());
    assert_eq!(names(&levels.x), vec!["x", "x2"]);
    assert_eq!(levels.x[0].time_executed, 2);
    assert_eq!(names(&levels.z), vec!["z"]);
    assert_eq!(have, pool(1, 1, 1));
    let r = cpu_worker(&mut core, &mut queue, &mut waiting, &mut have, Algorithm::MLQ, &mut levels);
    assert_eq!(r, processing("z", TaskType::Z, 2, 2));
    assert!(levels.z.is_empty());
    let r = cpu_worker(&mut core, &mut queue, &mut waiting, &mut have, Algorithm::MLQ, &mut levels);
    assert_eq!(r, processing("x", TaskType::X, 5, 3));
    assert_eq!(names(&levels.x), vec!["x2"]);
    assert_eq!(have, pool(0, 0, 1));
}

#[test]
fn mlq_middle_level_runs_before_the_lowest() {
    let mut core = Core::new();
    let mut queue: VecDeque<Task> = VecDeque::new();
    let mut waiting: VecDeque<Task> = VecDeque::new();
    let mut levels = Levels::new();
    let mut have = pool(1, 1, 1);
    levels.x.push_back(task("x", TaskType::X, 1));
    levels.y.push_back(task("y", TaskType::Y, 1));
    let r = cpu_worker(&mut core, &mut queue, &mut waiting, &mut have, Algorithm::MLQ, &mut levels);
    assert_eq!(r, processing("y", TaskType::Y, 1, 1));
    assert_eq!(names(&levels.x), vec!["x"]);
    assert!(levels.y.is_empty());
    let r = cpu_worker(&mut core, &mut queue, &mut waiting, &mut have, Algorithm::MLQ, &mut levels);
    assert_eq!(r, processing("x", TaskType::X, 1, 1));
    assert_eq!(have, pool(1, 1, 1));
}

#[test]
fn mlq_blocked_top_level_leaves_the_core_idle() {
    let mut core = Core::new();
    let mut queue: VecDeque<Task> = VecDeque::new();
    let mut waiting: VecDeque<Task> = VecDeque::new();
    let mut levels = Levels::new();
    let mut have = pool(1, 1, 0);
    levels.x.push_back(task("x", TaskType::X, 1));
    levels.z.push_back(task("z", TaskType::Z, 1));
    let r = cpu_worker(&mut core, &mut queue, &mut waiting, &mut have, Algorithm::MLQ, &mut levels);
    assert_eq!(r, Report::Idle { idle_count: 1 });
    assert_eq!(names(&waiting), vec!["z"]);
    assert_eq!(names(&levels.x), vec!["x"]);
}

#[test]
fn preempt_returns_pair_and_task() {
    let mut core = Core::new();
    let mut t = task("x", TaskType::X, 4);
    t.time_executed = 3;
    core.proc = Some(t);
    let mut x: VecDeque<Task> = VecDeque::new();
    x.push_back(task("other", TaskType::X, 1));
    let mut have = pool(0, 2, 7);
    preempt(&mut core, &mut x, &mut have);
    assert!(core.proc.is_none());
    assert_eq!(have, pool(1, 3, 7));
    assert_eq!(names(&x), vec!["x", "other"]);
    assert_eq!(x[0].time_executed, 3);
    preempt(&mut core, &mut x, &mut have);
    assert_eq!(have, pool(1, 3, 7));
    assert_eq!(x.len(), 2);
}

#[test]
fn tick_is_allowed_only_on_schedulable_tasks() {
    let mut core = Core::new();
    let mut queue: VecDeque<Task> = VecDeque::new();
    let levels = Levels::new();
    let have = pool(1, 1, 1);
    assert!(tick_allowed(&core, &queue, &have, &levels));
    queue.push_back(task("done", TaskType::X, 0));
    assert!(!all_pending_in(&queue));
    assert!(!tick_allowed(&core, &queue, &have, &levels));
    queue.clear();
    core.idle_count = u64::MAX;
    assert!(!tick_allowed(&core, &queue, &have, &levels));
    core.idle_count = 0;
    core.proc = Some(task("held", TaskType::X, 2));
    assert!(tick_allowed(&core, &queue, &have, &levels));
    assert!(!tick_allowed(&core, &queue, &pool(u16::MAX, 1, 1), &levels));
}

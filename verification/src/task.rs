use vstd::prelude::*;

verus! {

/// The three kinds of shared resource.
#[derive(Debug, Copy, Clone, PartialEq, Eq, Structural)]
pub enum Resource {
    A,
    B,
    C,
}

/// The scheduling policy of a run.
#[derive(Debug, Copy, Clone, PartialEq, Eq, Structural)]
pub enum Algorithm {
    RR,
    SJF,
    FCFS,
    MLQ,
}

/// The kind of a task; it fixes the pair of resources the task needs.
#[derive(Debug, Copy, Clone, PartialEq, Eq, Structural)]
pub enum TaskType {
    X,
    Y,
    Z,
}

/// A unit of work: `total_time` ticks are needed, `time_executed` are done.
#[derive(Debug)]
pub struct Task {
    pub name: String,
    pub task_type: TaskType,
    pub resourses: (Resource, Resource),
    pub total_time: u16,
    pub time_executed: u16,
}

/// The resource pair that a task of the given kind needs.
pub open spec fn pair_of(kind: TaskType) -> (Resource, Resource) {
    match kind {
        TaskType::X => (Resource::A, Resource::B),
        TaskType::Y => (Resource::B, Resource::C),
        TaskType::Z => (Resource::A, Resource::C),
    }
}

impl Task {
    /// The pair matches the kind, and no more was executed than is needed.
    pub open spec fn wf(&self) -> bool {
        &&& self.resourses == pair_of(self.task_type)
        &&& self.time_executed <= self.total_time
    }

    /// Well formed and not yet complete: such a task may be scheduled.
    pub open spec fn pending(&self) -> bool {
        &&& self.wf()
        &&& self.time_executed < self.total_time
    }

    /// The task after one more tick of execution.
    pub open spec fn advanced(self) -> Task {
        Task { time_executed: (self.time_executed + 1) as u16, ..self }
    }

    /// Ticks still to run.
    pub open spec fn remaining(&self) -> int {
        self.total_time - self.time_executed
    }

    /// Says whether the task may be scheduled.
    pub fn is_pending(&self) -> (ok: bool)
        ensures
            ok == self.pending(),
    {
        let pair = match self.task_type {
            TaskType::X => (Resource::A, Resource::B),
            TaskType::Y => (Resource::B, Resource::C),
            TaskType::Z => (Resource::A, Resource::C),
        };
        self.resourses.0 == pair.0 && self.resourses.1 == pair.1 && self.time_executed
            < self.total_time
    }

    /// A fresh task of the given kind, with nothing executed yet.
    pub fn new(name: String, task_type: TaskType, time: u16) -> (t: Task)
        ensures
            t == (Task {
                name,
                task_type,
                resourses: pair_of(task_type),
                total_time: time,
                time_executed: 0,
            }),
            t.wf(),
            t.pending() <==> time > 0,
    {
        match task_type {
            TaskType::X => Task {
                name,
                task_type,
                resourses: (Resource::A, Resource::B),
                total_time: time,
                time_executed: 0,
            },
            TaskType::Y => Task {
                name,
                task_type,
                resourses: (Resource::B, Resource::C),
                total_time: time,
                time_executed: 0,
            },
            TaskType::Z => Task {
                name,
                task_type,
                resourses: (Resource::A, Resource::C),
                total_time: time,
                time_executed: 0,
            },
        }
    }
}

impl Clone for Task {
    /// A copy that equals the task in every field.
    fn clone(&self) -> (res: Task)
        ensures
            res == *self,
    {
        Task {
            name: self.name.clone(),
            task_type: self.task_type,
            resourses: (self.resourses.0, self.resourses.1),
            total_time: self.total_time,
            time_executed: self.time_executed,
        }
    }
}

/// Every task of the sequence may be scheduled.
pub open spec fn all_pending(s: Seq<Task>) -> bool {
    forall|i: int| 0 <= i < s.len() ==> (#[trigger] s[i]).pending()
}

/// Every task of the sequence is of the given kind.
pub open spec fn all_of_kind(s: Seq<Task>, kind: TaskType) -> bool {
    forall|i: int| 0 <= i < s.len() ==> (#[trigger] s[i]).task_type == kind
}

} // verus!

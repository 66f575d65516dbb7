//! The rows of the three tables, and the mathematical value each one stands
//! for.

use vstd::prelude::*;

verus! {

/// What a row of the `tasks` table stands for.
pub struct TaskView {
    pub id: int,
    pub what: Seq<char>,
    pub link: Option<Seq<char>>,
    pub priority: int,
}

/// What a task that has not been stored yet stands for.
pub struct NewTaskView {
    pub what: Seq<char>,
    pub link: Option<Seq<char>>,
    pub priority: int,
}

/// What a row of the `subtasks` table stands for.
pub struct SubTaskView {
    pub id: int,
    pub what: Seq<char>,
    pub link: Option<Seq<char>>,
    pub task_id: int,
    pub subtask_rank: int,
}

/// What a subtask that has not been stored yet stands for.
pub struct NewSubTaskView {
    pub what: Seq<char>,
    pub link: Option<Seq<char>>,
    pub task_id: int,
    pub subtask_rank: int,
}

/// What a row of the `histories` table stands for.
pub struct HistoryView {
    pub id: int,
    pub what: Seq<char>,
    pub link: Option<Seq<char>>,
    pub finish_timestamp: int,
}

/// What a history record that has not been stored yet stands for.
pub struct NewHistoryView {
    pub what: Seq<char>,
    pub link: Option<Seq<char>>,
    pub finish_timestamp: int,
}

/// The characters of an optional text.
pub open spec fn text_view(text: Option<String>) -> Option<Seq<char>> {
    match text {
        Some(s) => Some(s@),
        None => None,
    }
}

/// The values that a sequence of rows stands for, in the same order.
pub open spec fn views<T: View>(rows: Seq<T>) -> Seq<T::V> {
    rows.map_values(|row: T| row@)
}

/// An open task.
#[derive(Debug, PartialEq, Eq)]
pub struct Task {
    pub id: i32,
    pub what: String,
    pub link: Option<String>,
    pub priority: i32,
}

/// A task as handed in for storing: the store assigns the id.
#[derive(Debug, PartialEq, Eq)]
pub struct NewTask {
    pub what: String,
    pub link: Option<String>,
    pub priority: i32,
}

/// A step of a task, ranked among the steps of the same task.
#[derive(Debug, PartialEq, Eq)]
pub struct SubTask {
    pub id: i32,
    pub what: String,
    pub link: Option<String>,
    pub task_id: i32,
    pub subtask_rank: i32,
}

/// A subtask as handed in for storing: the store assigns the id.
#[derive(Debug, PartialEq, Eq)]
pub struct NewSubTask {
    pub what: String,
    pub link: Option<String>,
    pub task_id: i32,
    pub subtask_rank: i32,
}

/// The record of a finished task.
#[derive(Debug, PartialEq, Eq)]
pub struct History {
    pub id: i32,
    pub what: String,
    pub link: Option<String>,
    pub finish_timestamp: i32,
}

/// A history record as handed in for storing: the store assigns the id.
#[derive(Debug, PartialEq, Eq)]
pub struct NewHistory {
    pub what: String,
    pub link: Option<String>,
    pub finish_timestamp: i32,
}

impl View for Task {
    type V = TaskView;

    open spec fn view(&self) -> TaskView {
        TaskView {
            id: self.id as int,
            what: self.what@,
            link: text_view(self.link),
            priority: self.priority as int,
        }
    }
}

impl View for NewTask {
    type V = NewTaskView;

    open spec fn view(&self) -> NewTaskView {
        NewTaskView {
            what: self.what@,
            link: text_view(self.link),
            priority: self.priority as int,
        }
    }
}

impl View for SubTask {
    type V = SubTaskView;

    open spec fn view(&self) -> SubTaskView {
        SubTaskView {
            id: self.id as int,
            what: self.what@,
            link: text_view(self.link),
            task_id: self.task_id as int,
            subtask_rank: self.subtask_rank as int,
        }
    }
}

impl View for NewSubTask {
    type V = NewSubTaskView;

    open spec fn view(&self) -> NewSubTaskView {
        NewSubTaskView {
            what: self.what@,
            link: text_view(self.link),
            task_id: self.task_id as int,
            subtask_rank: self.subtask_rank as int,
        }
    }
}

impl View for History {
    type V = HistoryView;

    open spec fn view(&self) -> HistoryView {
        HistoryView {
            id: self.id as int,
            what: self.what@,
            link: text_view(self.link),
            finish_timestamp: self.finish_timestamp as int,
        }
    }
}

impl View for NewHistory {
    type V = NewHistoryView;

    open spec fn view(&self) -> NewHistoryView {
        NewHistoryView {
            what: self.what@,
            link: text_view(self.link),
            finish_timestamp: self.finish_timestamp as int,
        }
    }
}

/// The priority of a task that is added without one.
pub const DEFAULT_PRIORITY: i32 = 5;

/// The priority that a task gets which is added with the priority
/// `priority`, if any: the default where none is given, and the largest
/// priority there is where the one given is larger.
pub open spec fn priority_or_default(priority: Option<u32>) -> int {
    match priority {
        Some(p) => if p > i32::MAX {
            i32::MAX as int
        } else {
            p as int
        },
        None => DEFAULT_PRIORITY as int,
    }
}

/// The priority `priority` as the tables hold it: itself, or the largest
/// priority there is where it is larger.
pub fn priority_of(priority: u32) -> (held: i32)
    ensures
        held == priority_or_default(Some(priority)),
{
    if priority > i32::MAX as u32 {
        i32::MAX
    } else {
        priority as i32
    }
}

impl NewTask {
    /// A task to be added, with the priority `priority` or, where none is
    /// given, the default.
    pub fn new(what: String, link: Option<String>, priority: Option<u32>) -> (task: NewTask)
        ensures
            task@ == (NewTaskView {
                what: what@,
                link: text_view(link),
                priority: priority_or_default(priority),
            }),
    {
        let priority: i32 = match priority {
            Some(p) => priority_of(p),
            None => DEFAULT_PRIORITY,
        };
        NewTask { what, link, priority }
    }
}

/// A copy of an optional text.
pub fn copy_text(text: &Option<String>) -> (copy: Option<String>)
    ensures
        copy == *text,
{
    match text {
        Some(s) => Some(s.clone()),
        None => None,
    }
}

impl Clone for Task {
    fn clone(&self) -> (copy: Task)
        ensures
            copy == *self,
    {
        Task {
            id: self.id,
            what: self.what.clone(),
            link: copy_text(&self.link),
            priority: self.priority,
        }
    }
}

impl Clone for NewTask {
    fn clone(&self) -> (copy: NewTask)
        ensures
            copy == *self,
    {
        NewTask {
            what: self.what.clone(),
            link: copy_text(&self.link),
            priority: self.priority,
        }
    }
}

impl Clone for SubTask {
    fn clone(&self) -> (copy: SubTask)
        ensures
            copy == *self,
    {
        SubTask {
            id: self.id,
            what: self.what.clone(),
            link: copy_text(&self.link),
            task_id: self.task_id,
            subtask_rank: self.subtask_rank,
        }
    }
}

impl Clone for NewSubTask {
    fn clone(&self) -> (copy: NewSubTask)
        ensures
            copy == *self,
    {
        NewSubTask {
            what: self.what.clone(),
            link: copy_text(&self.link),
            task_id: self.task_id,
            subtask_rank: self.subtask_rank,
        }
    }
}

impl Clone for History {
    fn clone(&self) -> (copy: History)
        ensures
            copy == *self,
    {
        History {
            id: self.id,
            what: self.what.clone(),
            link: copy_text(&self.link),
            finish_timestamp: self.finish_timestamp,
        }
    }
}

impl Clone for NewHistory {
    fn clone(&self) -> (copy: NewHistory)
        ensures
            copy == *self,
    {
        NewHistory {
            what: self.what.clone(),
            link: copy_text(&self.link),
            finish_timestamp: self.finish_timestamp,
        }
    }
}

} // verus!

//! The three tables as a mathematical value, and every operation of the
//! store as a function on that value.

use vstd::prelude::*;
use crate::models::{
    HistoryView, NewHistoryView, NewSubTaskView, NewTaskView, SubTaskView, TaskView,
};
use crate::order::sorted_by;
use crate::pattern::{containing, like};
use crate::table::{
    holds_id, in_order, largest_id, lemma_filter_in_order, lemma_last_is_largest, lemma_position,
    position_of, without_id,
};

verus! {

/// The subtasks of the task `task_id`.
pub open spec fn of_task(task_id: int) -> spec_fn(SubTaskView) -> bool {
    |s: SubTaskView| s.task_id == task_id
}

/// The subtasks other than those of the task `task_id` with the rank `rank`.
pub open spec fn not_ranked(task_id: int, rank: int) -> spec_fn(SubTaskView) -> bool {
    |s: SubTaskView| !(s.task_id == task_id && s.subtask_rank == rank)
}

/// The tasks whose description matches `pattern`.
pub open spec fn described_like(pattern: Seq<char>) -> spec_fn(TaskView) -> bool {
    |t: TaskView| like(pattern, t.what)
}

/// The records finished at `start` or later and before `end`.
pub open spec fn finished_between(start: int, end: int) -> spec_fn(HistoryView) -> bool {
    |h: HistoryView| start <= h.finish_timestamp < end
}

/// Orders subtasks by ascending rank.
pub open spec fn by_rank() -> spec_fn(SubTaskView) -> int {
    |s: SubTaskView| s.subtask_rank
}

/// Orders records by descending time of finishing.
pub open spec fn newest_first() -> spec_fn(HistoryView) -> int {
    |h: HistoryView| -h.finish_timestamp
}

/// Orders tasks by ascending priority.
pub open spec fn by_priority() -> spec_fn(TaskView) -> int {
    |t: TaskView| t.priority
}

/// Gives the task `id` the description `what` and leaves other tasks alone.
pub open spec fn described(id: int, what: Seq<char>) -> spec_fn(TaskView) -> TaskView {
    |t: TaskView|
        if t.id == id {
            TaskView { what, ..t }
        } else {
            t
        }
}

/// Gives the task `id` the priority `priority` and leaves other tasks alone.
pub open spec fn prioritized(id: int, priority: int) -> spec_fn(TaskView) -> TaskView {
    |t: TaskView|
        if t.id == id {
            TaskView { priority, ..t }
        } else {
            t
        }
}

/// Hands the subtasks of the task `from` to the task `to` and leaves other
/// subtasks alone.
pub open spec fn handed_over(from: int, to: int) -> spec_fn(SubTaskView) -> SubTaskView {
    |s: SubTaskView|
        if s.task_id == from {
            SubTaskView { task_id: to, ..s }
        } else {
            s
        }
}

/// The id that tidying gives the task `task_id`: its place in the table,
/// counted from 1. An id that no task has stays as it is.
pub open spec fn renumbered(tasks: Seq<TaskView>, task_id: int) -> int {
    if holds_id(tasks, task_id) {
        position_of(tasks, task_id) + 1
    } else {
        task_id
    }
}

/// Lets each subtask follow its task to the id that tidying gives it.
pub open spec fn following(tasks: Seq<TaskView>) -> spec_fn(SubTaskView) -> SubTaskView {
    |s: SubTaskView| SubTaskView { task_id: renumbered(tasks, s.task_id), ..s }
}

/// The tasks with the ids 1, 2, 3 and so on, in the order they stand in.
pub open spec fn counted(tasks: Seq<TaskView>) -> Seq<TaskView> {
    Seq::new(tasks.len(), |i: int| TaskView { id: i + 1, ..tasks[i] })
}

/// The state of the store: the rows of each table in the order of
/// insertion, and for each table the last id it issued.
pub struct StoreState {
    pub tasks: Seq<TaskView>,
    pub subtasks: Seq<SubTaskView>,
    pub histories: Seq<HistoryView>,
    pub task_seq: int,
    pub subtask_seq: int,
    pub history_seq: int,
}

impl StoreState {
    /// The store with no rows, which has issued no id.
    pub open spec fn empty() -> StoreState {
        StoreState {
            tasks: Seq::empty(),
            subtasks: Seq::empty(),
            histories: Seq::empty(),
            task_seq: 0,
            subtask_seq: 0,
            history_seq: 0,
        }
    }

    /// In each table the ids ascend strictly and lie between 1 and the last
    /// id issued.
    pub open spec fn wf(self) -> bool {
        &&& in_order(self.tasks, self.task_seq)
        &&& in_order(self.subtasks, self.subtask_seq)
        &&& in_order(self.histories, self.history_seq)
    }

    /// The task with the id `id`, if there is one.
    pub open spec fn get_task(self, id: int) -> Option<TaskView> {
        if holds_id(self.tasks, id) {
            Some(self.tasks[position_of(self.tasks, id)])
        } else {
            None
        }
    }

    /// All tasks, or those whose description holds `needle`, read as a
    /// pattern.
    pub open spec fn get_tasks(self, needle: Option<Seq<char>>) -> Seq<TaskView> {
        match needle {
            Some(n) => self.tasks.filter(described_like(containing(n))),
            None => self.tasks,
        }
    }

    /// The subtasks of the task `task_id`, in the order of insertion.
    pub open spec fn subtasks_of(self, task_id: int) -> Seq<SubTaskView> {
        self.subtasks.filter(of_task(task_id))
    }

    /// The subtasks of the task `task_id` by ascending rank.
    pub open spec fn get_subtasks(self, task_id: int) -> Seq<SubTaskView> {
        sorted_by(self.subtasks_of(task_id), by_rank())
    }

    /// All records, the one finished last first.
    pub open spec fn finished(self) -> Seq<HistoryView> {
        sorted_by(self.histories, newest_first())
    }

    /// The `last_n` records finished last, the one finished last first.
    pub open spec fn get_finished(self, last_n: int) -> Seq<HistoryView> {
        if last_n < self.finished().len() {
            self.finished().take(last_n)
        } else {
            self.finished()
        }
    }

    /// The records finished at `start` or later and before `end`, the one
    /// finished last first.
    pub open spec fn get_finished_within(self, start: int, end: int) -> Seq<HistoryView> {
        sorted_by(self.histories.filter(finished_between(start, end)), newest_first())
    }

    /// The store after `task` was stored under the next id.
    pub open spec fn add_task(self, task: NewTaskView) -> StoreState {
        StoreState {
            tasks: self.tasks.push(
                TaskView {
                    id: self.task_seq + 1,
                    what: task.what,
                    link: task.link,
                    priority: task.priority,
                },
            ),
            task_seq: self.task_seq + 1,
            ..self
        }
    }

    /// The rank that the next subtask of the task `task_id` gets: one more
    /// than the number of subtasks the task has.
    pub open spec fn next_rank(self, task_id: int) -> int {
        self.subtasks_of(task_id).len() as int + 1
    }

    /// The store after `subtask` was stored under the next id.
    pub open spec fn insert_subtask(self, subtask: NewSubTaskView) -> StoreState {
        StoreState {
            subtasks: self.subtasks.push(
                SubTaskView {
                    id: self.subtask_seq + 1,
                    what: subtask.what,
                    link: subtask.link,
                    task_id: subtask.task_id,
                    subtask_rank: subtask.subtask_rank,
                },
            ),
            subtask_seq: self.subtask_seq + 1,
            ..self
        }
    }

    /// The store after the task `task_id` got one more subtask, ranked
    /// behind those it has.
    pub open spec fn add_subtask(
        self,
        task_id: int,
        what: Seq<char>,
        link: Option<Seq<char>>,
    ) -> StoreState {
        self.insert_subtask(
            NewSubTaskView { what, link, task_id, subtask_rank: self.next_rank(task_id) },
        )
    }

    /// The store after `record` was stored under the next id.
    pub open spec fn insert_history(self, record: NewHistoryView) -> StoreState {
        StoreState {
            histories: self.histories.push(
                HistoryView {
                    id: self.history_seq + 1,
                    what: record.what,
                    link: record.link,
                    finish_timestamp: record.finish_timestamp,
                },
            ),
            history_seq: self.history_seq + 1,
            ..self
        }
    }

    /// The store with the counter of the tasks set back to the largest id
    /// in use.
    pub open spec fn reset_task_id(self) -> StoreState {
        StoreState { task_seq: largest_id(self.tasks), ..self }
    }

    /// The store with the counter of the subtasks set back to the largest id
    /// in use.
    pub open spec fn reset_subtask_id(self) -> StoreState {
        StoreState { subtask_seq: largest_id(self.subtasks), ..self }
    }

    /// The store without the task `id`, the counter of the tasks set back.
    pub open spec fn remove_task(self, id: int) -> StoreState {
        StoreState { tasks: self.tasks.filter(without_id(id)), ..self }.reset_task_id()
    }

    /// The store without the subtasks of the task `task_id` that have the
    /// rank `rank`, the counter of the subtasks set back.
    pub open spec fn remove_subtask(self, task_id: int, rank: int) -> StoreState {
        StoreState {
            subtasks: self.subtasks.filter(not_ranked(task_id, rank)),
            ..self
        }.reset_subtask_id()
    }

    /// The store after the task `id` was finished at the time `now`: the
    /// task is gone, and a record holds its description and link.
    pub open spec fn finish_task(self, id: int, now: int) -> StoreState
        recommends
            self.get_task(id) is Some,
    {
        let task = self.get_task(id).unwrap();
        self.remove_task(id).insert_history(
            NewHistoryView { what: task.what, link: task.link, finish_timestamp: now },
        )
    }

    /// The store after the task `id` got the description `what`.
    pub open spec fn update_task_desc(self, id: int, what: Seq<char>) -> StoreState {
        StoreState { tasks: self.tasks.map_values(described(id, what)), ..self }
    }

    /// The store after the task `id` got the priority `priority`.
    pub open spec fn update_task_priority(self, id: int, priority: int) -> StoreState {
        StoreState { tasks: self.tasks.map_values(prioritized(id, priority)), ..self }
    }

    /// The store after the subtasks of the task `from` were handed to the
    /// task `to`. Their ranks stay.
    pub open spec fn update_subtask_belongings(self, from: int, to: int) -> StoreState {
        StoreState { subtasks: self.subtasks.map_values(handed_over(from, to)), ..self }
    }

    /// The store after tidying: the tasks have the ids 1, 2, 3 and so on in
    /// the order they stood in, each subtask has followed its task, and the
    /// next task gets the id after them. A store without tasks stays as it
    /// is.
    pub open spec fn tidy(self) -> StoreState {
        StoreState {
            tasks: counted(self.tasks),
            subtasks: self.subtasks.map_values(following(self.tasks)),
            task_seq: if self.tasks.len() == 0 {
                self.task_seq
            } else {
                self.tasks.len() as int
            },
            ..self
        }
    }
}

/// In a well-formed store an id names at most one task: the task found
/// under an id is the one row that has it.
pub proof fn lemma_get_task(s: StoreState, id: int, at: int)
    requires
        s.wf(),
        0 <= at < s.tasks.len(),
        s.tasks[at].id == id,
    ensures
        s.get_task(id) == Some(s.tasks[at]),
        position_of(s.tasks, id) == at,
{
    lemma_position(s.tasks, s.task_seq, id, at);
}

/// Every operation leaves a well-formed store well-formed.
pub proof fn lemma_wf_kept(s: StoreState)
    requires
        s.wf(),
    ensures
        forall|task: NewTaskView| #[trigger] s.add_task(task).wf(),
        forall|subtask: NewSubTaskView| #[trigger] s.insert_subtask(subtask).wf(),
        forall|record: NewHistoryView| #[trigger] s.insert_history(record).wf(),
        forall|id: int| #[trigger] s.remove_task(id).wf(),
        forall|task_id: int, rank: int| #[trigger] s.remove_subtask(task_id, rank).wf(),
        forall|id: int, what: Seq<char>| #[trigger] s.update_task_desc(id, what).wf(),
        forall|id: int, priority: int| #[trigger] s.update_task_priority(id, priority).wf(),
        forall|from: int, to: int| #[trigger] s.update_subtask_belongings(from, to).wf(),
        s.reset_task_id().wf(),
        s.reset_subtask_id().wf(),
        s.tidy().wf(),
{
    assert forall|id: int| #[trigger] s.remove_task(id).wf() by {
        lemma_filter_in_order(s.tasks, s.task_seq, without_id(id));
    }
    assert forall|task_id: int, rank: int| #[trigger] s.remove_subtask(task_id, rank).wf() by {
        lemma_filter_in_order(s.subtasks, s.subtask_seq, not_ranked(task_id, rank));
    }
    lemma_last_is_largest(s.tasks, s.task_seq);
    lemma_last_is_largest(s.subtasks, s.subtask_seq);
    assert forall|id: int, what: Seq<char>| #[trigger] s.update_task_desc(id, what).wf() by {
        let after = s.update_task_desc(id, what).tasks;
        assert forall|i: int| 0 <= i < after.len() implies (#[trigger] after[i]).id
            == s.tasks[i].id by {}
    }
    assert forall|id: int, priority: int| #[trigger] s.update_task_priority(id, priority).wf() by {
        let after = s.update_task_priority(id, priority).tasks;
        assert forall|i: int| 0 <= i < after.len() implies (#[trigger] after[i]).id
            == s.tasks[i].id by {}
    }
    assert forall|from: int, to: int| #[trigger] s.update_subtask_belongings(from, to).wf() by {
        let after = s.update_subtask_belongings(from, to).subtasks;
        assert forall|i: int| 0 <= i < after.len() implies (#[trigger] after[i]).id
            == s.subtasks[i].id by {}
    }
    assert(s.tidy().wf()) by {
        let after = s.tidy().subtasks;
        assert forall|i: int| 0 <= i < after.len() implies (#[trigger] after[i]).id
            == s.subtasks[i].id by {}
    }
}

} // verus!

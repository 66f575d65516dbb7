//! The store: the three tables with the operations that add, read, change,
//! remove and finish tasks, each held to its function on the store's state.

use vstd::prelude::*;
use crate::clock::unix_now;
use crate::laws::{
    law_added_task_is_found, law_finish_moves_task, law_finished_within_span,
    law_remove_takes_one,
};
use crate::models::{
    History, HistoryView, NewHistory, NewSubTask, NewTask, SubTask, Task, TaskView, copy_text,
    text_view, views,
};
use crate::order::{place_row, sorted_by};
use crate::pattern::{chars_of, containing, containing_pattern, like_matches};
use crate::state::{
    StoreState, by_rank, counted, described, described_like, finished_between, following,
    handed_over, lemma_get_task, lemma_wf_kept, newest_first, not_ranked, of_task, prioritized,
};
use crate::table::{
    holds_id, ids_ascend, in_order, lemma_filter_all, lemma_filter_one_out, lemma_filter_push,
    lemma_ids_of_rows, lemma_in_order_len, lemma_last_is_largest, lemma_views_all,
    lemma_views_push, lemma_views_take, position_of, without_id,
};

verus! {

/// Why an operation of the store did nothing.
#[derive(Debug, Clone, Copy, PartialEq, Eq, Structural)]
pub enum TaskError {
    /// The task that the operation needs is not in the store.
    NotFound,
    /// The store could not take the row: the table has no id left for it,
    /// or a value does not fit the column.
    Storage,
}

/// What an optional task stands for.
pub open spec fn found(task: Option<Task>) -> Option<TaskView> {
    match task {
        Some(t) => Some(t@),
        None => None,
    }
}

/// The tables of tasks, subtasks and finished tasks.
pub struct TaskStore {
    tasks: Vec<Task>,
    subtasks: Vec<SubTask>,
    histories: Vec<History>,
    task_seq: i32,
    subtask_seq: i32,
    history_seq: i32,
}

impl View for TaskStore {
    type V = StoreState;

    closed spec fn view(&self) -> StoreState {
        StoreState {
            tasks: views(self.tasks@),
            subtasks: views(self.subtasks@),
            histories: views(self.histories@),
            task_seq: self.task_seq as int,
            subtask_seq: self.subtask_seq as int,
            history_seq: self.history_seq as int,
        }
    }
}

impl TaskStore {
    /// The state of every store is well-formed.
    #[verifier::type_invariant]
    spec fn well_formed(self) -> bool {
        self@.wf()
    }

    /// Takes the rows of the tasks out of the store, to be put back by
    /// `put_tasks`.
    fn take_tasks(&mut self) -> (rows: Vec<Task>)
        ensures
            views(rows@) == old(self)@.tasks,
            final(self)@ == (StoreState { tasks: Seq::empty(), ..old(self)@ }),
    {
        proof {
            use_type_invariant(&*self);
        }
        let mut rows: Vec<Task> = Vec::new();
        assert(views(rows@) =~= Seq::empty());
        std::mem::swap(&mut self.tasks, &mut rows);
        rows
    }

    /// Makes `rows` the rows of the tasks, and `last_issued` the last id
    /// that the table issued.
    fn put_tasks(&mut self, rows: Vec<Task>, last_issued: i32)
        requires
            in_order(views(rows@), last_issued as int),
        ensures
            final(self)@ == (StoreState {
                tasks: views(rows@),
                task_seq: last_issued as int,
                ..old(self)@
            }),
    {
        proof {
            use_type_invariant(&*self);
        }
        let mut none: Vec<Task> = Vec::new();
        assert(views(none@) =~= Seq::empty());
        std::mem::swap(&mut self.tasks, &mut none);
        self.task_seq = last_issued;
        self.tasks = rows;
    }

    /// Takes the rows of the subtasks out of the store, to be put back by
    /// `put_subtasks`.
    fn take_subtasks(&mut self) -> (rows: Vec<SubTask>)
        ensures
            views(rows@) == old(self)@.subtasks,
            final(self)@ == (StoreState { subtasks: Seq::empty(), ..old(self)@ }),
    {
        proof {
            use_type_invariant(&*self);
        }
        let mut rows: Vec<SubTask> = Vec::new();
        assert(views(rows@) =~= Seq::empty());
        std::mem::swap(&mut self.subtasks, &mut rows);
        rows
    }

    /// Makes `rows` the rows of the subtasks, and `last_issued` the last id
    /// that the table issued.
    fn put_subtasks(&mut self, rows: Vec<SubTask>, last_issued: i32)
        requires
            in_order(views(rows@), last_issued as int),
        ensures
            final(self)@ == (StoreState {
                subtasks: views(rows@),
                subtask_seq: last_issued as int,
                ..old(self)@
            }),
    {
        proof {
            use_type_invariant(&*self);
        }
        let mut none: Vec<SubTask> = Vec::new();
        assert(views(none@) =~= Seq::empty());
        std::mem::swap(&mut self.subtasks, &mut none);
        self.subtask_seq = last_issued;
        self.subtasks = rows;
    }

    /// Takes the rows of the records out of the store, to be put back by
    /// `put_histories`.
    fn take_histories(&mut self) -> (rows: Vec<History>)
        ensures
            views(rows@) == old(self)@.histories,
            final(self)@ == (StoreState { histories: Seq::empty(), ..old(self)@ }),
    {
        proof {
            use_type_invariant(&*self);
        }
        let mut rows: Vec<History> = Vec::new();
        assert(views(rows@) =~= Seq::empty());
        std::mem::swap(&mut self.histories, &mut rows);
        rows
    }

    /// Makes `rows` the rows of the records, and `last_issued` the last id
    /// that the table issued.
    fn put_histories(&mut self, rows: Vec<History>, last_issued: i32)
        requires
            in_order(views(rows@), last_issued as int),
        ensures
            final(self)@ == (StoreState {
                histories: views(rows@),
                history_seq: last_issued as int,
                ..old(self)@
            }),
    {
        proof {
            use_type_invariant(&*self);
        }
        let mut none: Vec<History> = Vec::new();
        assert(views(none@) =~= Seq::empty());
        std::mem::swap(&mut self.histories, &mut none);
        self.history_seq = last_issued;
        self.histories = rows;
    }

    /// A store with no rows.
    pub fn new() -> (store: TaskStore)
        ensures
            store@ == StoreState::empty(),
            store@.wf(),
    {
        let store = TaskStore {
            tasks: Vec::new(),
            subtasks: Vec::new(),
            histories: Vec::new(),
            task_seq: 0,
            subtask_seq: 0,
            history_seq: 0,
        };
        assert(store@.tasks =~= Seq::empty());
        assert(store@.subtasks =~= Seq::empty());
        assert(store@.histories =~= Seq::empty());
        store
    }

    /// The store that holds the rows of `tasks`, `subtasks` and `histories`
    /// in the order given, and has issued the ids up to `task_seq`,
    /// `subtask_seq` and `history_seq`.
    ///
    /// Fails with `Storage` where that store would not be well-formed: where
    /// in one of the tables the ids do not ascend strictly, or do not lie
    /// between 1 and the last id issued.
    pub fn from_tables(
        tasks: Vec<Task>,
        subtasks: Vec<SubTask>,
        histories: Vec<History>,
        task_seq: i32,
        subtask_seq: i32,
        history_seq: i32,
    ) -> (store: Result<TaskStore, TaskError>)
        ensures
            match store {
                Ok(s) => s@.wf() && s@ == (StoreState {
                    tasks: views(tasks@),
                    subtasks: views(subtasks@),
                    histories: views(histories@),
                    task_seq: task_seq as int,
                    subtask_seq: subtask_seq as int,
                    history_seq: history_seq as int,
                }),
                Err(e) => e == TaskError::Storage && !(StoreState {
                    tasks: views(tasks@),
                    subtasks: views(subtasks@),
                    histories: views(histories@),
                    task_seq: task_seq as int,
                    subtask_seq: subtask_seq as int,
                    history_seq: history_seq as int,
                }).wf(),
            },
    {
        let mut task_ids: Vec<i32> = Vec::new();
        let mut i: usize = 0;
        while i < tasks.len()
            invariant
                i <= tasks@.len(),
                task_ids@.len() == i,
                forall|j: int| 0 <= j < i ==> #[trigger] task_ids@[j] == tasks@[j].id,
            decreases tasks@.len() - i,
        {
            task_ids.push(tasks[i].id);
            i += 1;
        }
        let mut subtask_ids: Vec<i32> = Vec::new();
        let mut i: usize = 0;
        while i < subtasks.len()
            invariant
                i <= subtasks@.len(),
                subtask_ids@.len() == i,
                forall|j: int| 0 <= j < i ==> #[trigger] subtask_ids@[j] == subtasks@[j].id,
            decreases subtasks@.len() - i,
        {
            subtask_ids.push(subtasks[i].id);
            i += 1;
        }
        let mut history_ids: Vec<i32> = Vec::new();
        let mut i: usize = 0;
        while i < histories.len()
            invariant
                i <= histories@.len(),
                history_ids@.len() == i,
                forall|j: int| 0 <= j < i ==> #[trigger] history_ids@[j] == histories@[j].id,
            decreases histories@.len() - i,
        {
            history_ids.push(histories[i].id);
            i += 1;
        }
        let tasks_fit = ids_in_order(&task_ids, task_seq);
        let subtasks_fit = ids_in_order(&subtask_ids, subtask_seq);
        let histories_fit = ids_in_order(&history_ids, history_seq);
        proof {
            lemma_ids_of_rows(views(tasks@), task_ids@, task_seq as int);
            lemma_ids_of_rows(views(subtasks@), subtask_ids@, subtask_seq as int);
            lemma_ids_of_rows(views(histories@), history_ids@, history_seq as int);
        }
        if tasks_fit && subtasks_fit && histories_fit {
            Ok(TaskStore { tasks, subtasks, histories, task_seq, subtask_seq, history_seq })
        } else {
            Err(TaskError::Storage)
        }
    }

    /// The rows of the three tables in the order of their ids, and the last
    /// id that each table issued: what `from_tables` takes.
    pub fn into_tables(self) -> (tables: (Vec<Task>, Vec<SubTask>, Vec<History>, i32, i32, i32))
        ensures
            self@.wf(),
            self@ == (StoreState {
                tasks: views(tables.0@),
                subtasks: views(tables.1@),
                histories: views(tables.2@),
                task_seq: tables.3 as int,
                subtask_seq: tables.4 as int,
                history_seq: tables.5 as int,
            }),
    {
        proof {
            use_type_invariant(&self);
        }
        (
            self.tasks,
            self.subtasks,
            self.histories,
            self.task_seq,
            self.subtask_seq,
            self.history_seq,
        )
    }

    /// Where the task with the id `id` stands in the table.
    fn position(&self, id: i32) -> (at: Option<usize>)
        ensures
            self@.wf(),
            match at {
                Some(i) => i < self.tasks@.len() && self.tasks@[i as int].id == id
                    && self@.get_task(id as int) == Some(self.tasks@[i as int]@)
                    && position_of(self@.tasks, id as int) == i,
                None => !holds_id(self@.tasks, id as int) && self@.get_task(id as int) is None,
            },
    {
        proof {
            use_type_invariant(self);
        }
        let at = find_row(&self.tasks, id);
        proof {
            if let Some(i) = at {
                lemma_get_task(self@, id as int, i as int);
            }
        }
        at
    }

    /// Stores `task` under the next id and returns that id.
    ///
    /// Fails with `Storage`, and changes nothing, where the table has no id
    /// left.
    pub fn add_task(&mut self, task: NewTask) -> (added: Result<i32, TaskError>)
        ensures
            final(self)@.wf(),
            match added {
                Ok(id) => id == old(self)@.task_seq + 1 && final(self)@ == old(self)@.add_task(
                    task@,
                ) && final(self)@.get_task(id as int) == Some(
                    TaskView {
                        id: id as int,
                        what: task.what@,
                        link: text_view(task.link),
                        priority: task.priority as int,
                    },
                ),
                Err(e) => e == TaskError::Storage && final(self)@ == old(self)@,
            },
            added is Ok <==> old(self)@.task_seq < i32::MAX,
    {
        proof {
            use_type_invariant(&*self);
            lemma_wf_kept(self@);
            law_added_task_is_found(self@, task@);
        }
        if self.task_seq == i32::MAX {
            return Err(TaskError::Storage);
        }
        let id: i32 = self.task_seq + 1;
        let row = Task { id, what: task.what, link: task.link, priority: task.priority };
        let mut rows = self.take_tasks();
        proof {
            lemma_views_push(rows@, row);
            assert(old(self)@.add_task(task@).wf());
        }
        rows.push(row);
        self.put_tasks(rows, id);
        Ok(id)
    }

    /// The task with the id `id`, or `None` where there is none.
    pub fn get_task(&self, id: i32) -> (task: Result<Option<Task>, TaskError>)
        ensures
            self@.wf(),
            task is Ok,
            found(task.unwrap()) == self@.get_task(id as int),
    {
        match self.position(id) {
            Some(at) => Ok(Some(self.tasks[at].clone())),
            None => Ok(None),
        }
    }

    /// The number of subtasks that the task `task_id` has.
    fn count_subtasks(&self, task_id: i32) -> (count: usize)
        ensures
            count == self@.subtasks_of(task_id as int).len(),
            count <= self.subtasks@.len(),
    {
        let mut count: usize = 0;
        let mut i: usize = 0;
        while i < self.subtasks.len()
            invariant
                i <= self.subtasks@.len(),
                count <= i,
                count == views(self.subtasks@.take(i as int)).filter(of_task(task_id as int)).len(),
            decreases self.subtasks@.len() - i,
        {
            proof {
                lemma_views_take(self.subtasks@, i as int);
                lemma_filter_push(
                    views(self.subtasks@.take(i as int)),
                    self.subtasks@[i as int]@,
                    of_task(task_id as int),
                );
            }
            if self.subtasks[i].task_id == task_id {
                count += 1;
            }
            i += 1;
        }
        assert(self.subtasks@.take(self.subtasks@.len() as int) == self.subtasks@);
        count
    }

    /// Stores `subtask` under the next id.
    ///
    /// Fails with `Storage`, and changes nothing, where the table has no id
    /// left.
    pub fn insert_subtask(&mut self, subtask: NewSubTask) -> (added: Result<i32, TaskError>)
        ensures
            final(self)@.wf(),
            match added {
                Ok(id) => id == old(self)@.subtask_seq + 1 && final(self)@
                    == old(self)@.insert_subtask(subtask@),
                Err(e) => e == TaskError::Storage && final(self)@ == old(self)@,
            },
            added is Ok <==> old(self)@.subtask_seq < i32::MAX,
    {
        proof {
            use_type_invariant(&*self);
            lemma_wf_kept(self@);
        }
        if self.subtask_seq == i32::MAX {
            return Err(TaskError::Storage);
        }
        let id: i32 = self.subtask_seq + 1;
        let row = SubTask {
            id,
            what: subtask.what,
            link: subtask.link,
            task_id: subtask.task_id,
            subtask_rank: subtask.subtask_rank,
        };
        let mut rows = self.take_subtasks();
        proof {
            lemma_views_push(rows@, row);
            assert(old(self)@.insert_subtask(subtask@).wf());
        }
        rows.push(row);
        self.put_subtasks(rows, id);
        Ok(id)
    }

    /// Gives the task `id` one more subtask, ranked behind those it has: the
    /// first gets the rank 1.
    ///
    /// Fails with `NotFound` where there is no task `id`, and with `Storage`
    /// where the table has no id left. A failure changes nothing.
    pub fn add_subtask(&mut self, id: i32, what: String, link: Option<String>) -> (added: Result<
        (),
        TaskError,
    >)
        ensures
            final(self)@.wf(),
            match added {
                Ok(_) => final(self)@ == old(self)@.add_subtask(id as int, what@, text_view(link)),
                Err(_) => final(self)@ == old(self)@,
            },
            added is Ok <==> old(self)@.get_task(id as int) is Some && old(self)@.subtask_seq
                < i32::MAX,
            added == Err::<(), TaskError>(TaskError::NotFound) <==> old(self)@.get_task(id as int)
                is None,
            added == Err::<(), TaskError>(TaskError::Storage) <==> old(self)@.get_task(id as int)
                is Some && old(self)@.subtask_seq == i32::MAX,
    {
        if self.position(id).is_none() {
            return Err(TaskError::NotFound);
        }
        if self.subtask_seq == i32::MAX {
            return Err(TaskError::Storage);
        }
        let count: usize = self.count_subtasks(id);
        proof {
            use_type_invariant(&*self);
            lemma_in_order_len(self@.subtasks, self@.subtask_seq);
        }
        let rank: i32 = count as i32 + 1;
        let stored = self.insert_subtask(NewSubTask { what, link, task_id: id, subtask_rank: rank });
        Ok(())
    }

    /// All tasks in the order of their ids, or, with a `pattern`, those
    /// among them whose description holds the pattern. In the pattern `%`
    /// stands for any run of characters and `_` for any one character;
    /// every other character stands for itself, in its own case.
    pub fn get_tasks(&self, pattern: Option<String>) -> (tasks: Result<Vec<Task>, TaskError>)
        ensures
            self@.wf(),
            tasks is Ok,
            views(tasks.unwrap()@) == self@.get_tasks(text_view(pattern)),
    {
        proof {
            use_type_invariant(self);
        }
        let mut found: Vec<Task> = Vec::new();
        match pattern {
            Some(needle) => {
                let wanted = containing_pattern(needle.as_str());
                let mut i: usize = 0;
                while i < self.tasks.len()
                    invariant
                        i <= self.tasks@.len(),
                        wanted@ == containing(needle@),
                        views(found@) == views(self.tasks@.take(i as int)).filter(
                            described_like(containing(needle@)),
                        ),
                    decreases self.tasks@.len() - i,
                {
                    proof {
                        lemma_views_take(self.tasks@, i as int);
                        lemma_filter_push(
                            views(self.tasks@.take(i as int)),
                            self.tasks@[i as int]@,
                            described_like(containing(needle@)),
                        );
                    }
                    let text = chars_of(self.tasks[i].what.as_str());
                    if like_matches(&wanted, &text) {
                        let row = self.tasks[i].clone();
                        proof {
                            lemma_views_push(found@, row);
                        }
                        found.push(row);
                    }
                    i += 1;
                }
                proof {
                    lemma_views_all(self.tasks@);
                }
            },
            None => {
                let mut i: usize = 0;
                while i < self.tasks.len()
                    invariant
                        i <= self.tasks@.len(),
                        found@ == self.tasks@.take(i as int),
                    decreases self.tasks@.len() - i,
                {
                    found.push(self.tasks[i].clone());
                    i += 1;
                }
                proof {
                    lemma_views_all(self.tasks@);
                }
            },
        }
        Ok(found)
    }

    /// The subtasks of the task `id` by ascending rank; subtasks of the same
    /// rank in the order of their ids.
    ///
    /// Fails with `NotFound` where there is no task `id`.
    pub fn get_subtasks(&self, id: i32) -> (subtasks: Result<Vec<SubTask>, TaskError>)
        ensures
            self@.wf(),
            match subtasks {
                Ok(rows) => self@.get_task(id as int) is Some && views(rows@)
                    == self@.get_subtasks(id as int),
                Err(e) => e == TaskError::NotFound && self@.get_task(id as int) is None,
            },
    {
        if self.position(id).is_none() {
            return Err(TaskError::NotFound);
        }
        let mut ranked: Vec<SubTask> = Vec::new();
        let mut ranks: Vec<i64> = Vec::new();
        let mut i: usize = 0;
        while i < self.subtasks.len()
            invariant
                i <= self.subtasks@.len(),
                ranks@.len() == ranked@.len(),
                forall|j: int| 0 <= j < ranked@.len() ==> ranks@[j] == by_rank()(#[trigger] ranked@[j]@),
                views(ranked@) == sorted_by(
                    views(self.subtasks@.take(i as int)).filter(of_task(id as int)),
                    by_rank(),
                ),
            decreases self.subtasks@.len() - i,
        {
            proof {
                let seen = views(self.subtasks@.take(i as int));
                let row = self.subtasks@[i as int]@;
                lemma_views_take(self.subtasks@, i as int);
                lemma_filter_push(seen, row, of_task(id as int));
                assert(seen.filter(of_task(id as int)).push(row).drop_last() == seen.filter(
                    of_task(id as int),
                ));
            }
            if self.subtasks[i].task_id == id {
                let row = self.subtasks[i].clone();
                let rank: i64 = row.subtask_rank as i64;
                place_row(&mut ranked, &mut ranks, row, rank, Ghost(by_rank()));
            }
            i += 1;
        }
        proof {
            lemma_views_all(self.subtasks@);
        }
        Ok(ranked)
    }

    /// The records finished at `start` or later and before `end`, the one
    /// finished last first; records finished at the same time in the order
    /// of their ids.
    fn newest_records(&self, start: i64, end: i64) -> (records: Vec<History>)
        ensures
            views(records@) == sorted_by(
                self@.histories.filter(finished_between(start as int, end as int)),
                newest_first(),
            ),
    {
        let mut sorted: Vec<History> = Vec::new();
        let mut keys: Vec<i64> = Vec::new();
        let mut i: usize = 0;
        while i < self.histories.len()
            invariant
                i <= self.histories@.len(),
                keys@.len() == sorted@.len(),
                forall|j: int|
                    0 <= j < sorted@.len() ==> keys@[j] == newest_first()(#[trigger] sorted@[j]@),
                views(sorted@) == sorted_by(
                    views(self.histories@.take(i as int)).filter(
                        finished_between(start as int, end as int),
                    ),
                    newest_first(),
                ),
            decreases self.histories@.len() - i,
        {
            proof {
                let seen = views(self.histories@.take(i as int));
                let row = self.histories@[i as int]@;
                let wanted = finished_between(start as int, end as int);
                lemma_views_take(self.histories@, i as int);
                lemma_filter_push(seen, row, wanted);
                assert(seen.filter(wanted).push(row).drop_last() == seen.filter(wanted));
            }
            let at: i64 = self.histories[i].finish_timestamp as i64;
            if start <= at && at < end {
                let row = self.histories[i].clone();
                place_row(&mut sorted, &mut keys, row, -at, Ghost(newest_first()));
            }
            i += 1;
        }
        proof {
            lemma_views_all(self.histories@);
        }
        sorted
    }

    /// The `last_n` records finished last, the one finished last first;
    /// records finished at the same time in the order of their ids. Where
    /// the table holds fewer records, all of them.
    pub fn get_finished(&self, last_n: u32) -> (records: Result<Vec<History>, TaskError>)
        ensures
            self@.wf(),
            records is Ok,
            views(records.unwrap()@) == self@.get_finished(last_n as int),
    {
        proof {
            use_type_invariant(self);
        }
        let mut sorted = self.newest_records(i32::MIN as i64, i32::MAX as i64 + 1);
        proof {
            let everything = finished_between(i32::MIN as int, i32::MAX as int + 1);
            assert forall|j: int| 0 <= j < self@.histories.len() implies everything(
                #[trigger] self@.histories[j],
            ) by {
                assert(self@.histories[j] == self.histories@[j]@);
            }
            crate::table::lemma_filter_all(self@.histories, everything);
            crate::order::lemma_sorted_by(self@.histories, newest_first());
        }
        let ghost all = sorted@;
        sorted.truncate(last_n as usize);
        proof {
            if last_n < all.len() {
                assert(views(all.subrange(0, last_n as int)) == views(all).take(last_n as int));
            }
        }
        Ok(sorted)
    }

    /// The records finished at `start_ts` or later and before `end_ts`, the
    /// one finished last first; records finished at the same time in the
    /// order of their ids.
    pub fn get_finished_within(&self, start_ts: u32, end_ts: u32) -> (records: Result<
        Vec<History>,
        TaskError,
    >)
        ensures
            self@.wf(),
            records is Ok,
            views(records.unwrap()@) == self@.get_finished_within(start_ts as int, end_ts as int),
            forall|record: HistoryView|
                #![trigger views(records.unwrap()@).contains(record)]
                views(records.unwrap()@).contains(record) <==> self@.histories.contains(record)
                    && start_ts <= record.finish_timestamp < end_ts,
    {
        proof {
            use_type_invariant(self);
            law_finished_within_span(self@, start_ts as int, end_ts as int);
        }
        Ok(self.newest_records(start_ts as i64, end_ts as i64))
    }

    /// Gives the task `id` the description `desc`. Where there is no task
    /// `id`, nothing changes.
    pub fn update_task_desc(&mut self, id: i32, desc: String) -> (updated: Result<(), TaskError>)
        ensures
            updated is Ok,
            final(self)@ == old(self)@.update_task_desc(id as int, desc@),
            final(self)@.wf(),
    {
        proof {
            use_type_invariant(&*self);
            lemma_wf_kept(self@);
        }
        let ghost change = described(id as int, desc@);
        let ghost before = self@.tasks;
        let last_issued: i32 = self.task_seq;
        let mut rows = self.take_tasks();
        match find_row(&rows, id) {
            Some(at) => {
                rows[at].what = desc;
                proof {
                    let after = views(rows@);
                    assert forall|j: int| 0 <= j < before.len() implies after[j] == change(
                        before[j],
                    ) by {
                        if j < at {
                            assert(before[j].id < before[at as int].id);
                        } else if j > at {
                            assert(before[at as int].id < before[j].id);
                        }
                    }
                    assert(after =~= before.map_values(change));
                }
            },
            None => {
                proof {
                    assert forall|j: int| 0 <= j < before.len() implies before[j] == change(
                        before[j],
                    ) by {
                        assert(before[j].id != id);
                    }
                    assert(before =~= before.map_values(change));
                }
            },
        }
        proof {
            assert(old(self)@.update_task_desc(id as int, desc@).wf());
        }
        self.put_tasks(rows, last_issued);
        Ok(())
    }

    /// Gives the task `task_id` the priority `pri`. Where there is no task
    /// `task_id`, nothing changes.
    pub fn update_task_priority(&mut self, task_id: i32, pri: i32) -> (updated: Result<
        (),
        TaskError,
    >)
        ensures
            updated is Ok,
            final(self)@ == old(self)@.update_task_priority(task_id as int, pri as int),
            final(self)@.wf(),
    {
        proof {
            use_type_invariant(&*self);
            lemma_wf_kept(self@);
        }
        let ghost change = prioritized(task_id as int, pri as int);
        let ghost before = self@.tasks;
        let last_issued: i32 = self.task_seq;
        let mut rows = self.take_tasks();
        match find_row(&rows, task_id) {
            Some(at) => {
                rows[at].priority = pri;
                proof {
                    let after = views(rows@);
                    assert forall|j: int| 0 <= j < before.len() implies after[j] == change(
                        before[j],
                    ) by {
                        if j < at {
                            assert(before[j].id < before[at as int].id);
                        } else if j > at {
                            assert(before[at as int].id < before[j].id);
                        }
                    }
                    assert(after =~= before.map_values(change));
                }
            },
            None => {
                proof {
                    assert forall|j: int| 0 <= j < before.len() implies before[j] == change(
                        before[j],
                    ) by {
                        assert(before[j].id != task_id);
                    }
                    assert(before =~= before.map_values(change));
                }
            },
        }
        proof {
            assert(old(self)@.update_task_priority(task_id as int, pri as int).wf());
        }
        self.put_tasks(rows, last_issued);
        Ok(())
    }

    /// Hands every subtask of the task `task_id` to the task `new_task_id`.
    /// The ranks stay as they are, and neither task needs to exist.
    pub fn update_subtask_belongings(&mut self, task_id: i32, new_task_id: i32) -> (updated:
        Result<(), TaskError>)
        ensures
            updated is Ok,
            final(self)@ == old(self)@.update_subtask_belongings(
                task_id as int,
                new_task_id as int,
            ),
            final(self)@.wf(),
    {
        proof {
            use_type_invariant(&*self);
            lemma_wf_kept(self@);
        }
        let last_issued: i32 = self.subtask_seq;
        let mut rows = self.take_subtasks();
        hand_over(&mut rows, task_id, new_task_id);
        proof {
            assert(old(self)@.update_subtask_belongings(task_id as int, new_task_id as int).wf());
        }
        self.put_subtasks(rows, last_issued);
        Ok(())
    }

    /// Sets the counter of a table back to the largest id in use, so that
    /// the next row gets the id after it: that of the tasks where
    /// `table_name` is `"tasks"`, else that of the subtasks.
    pub fn try_reset_id(&mut self, table_name: &str) -> (reset: Result<(), TaskError>)
        ensures
            reset is Ok,
            final(self)@ == if table_name@ == "tasks"@ {
                old(self)@.reset_task_id()
            } else {
                old(self)@.reset_subtask_id()
            },
            final(self)@.wf(),
    {
        proof {
            use_type_invariant(&*self);
            lemma_wf_kept(self@);
            lemma_last_is_largest(self@.tasks, self@.task_seq);
            lemma_last_is_largest(self@.subtasks, self@.subtask_seq);
        }
        if same_text(table_name, "tasks") {
            let rows: usize = self.tasks.len();
            let largest: i32 = if rows == 0 {
                0
            } else {
                self.tasks[rows - 1].id
            };
            proof {
                assert(self@.reset_task_id().wf());
            }
            self.task_seq = largest;
        } else {
            let rows: usize = self.subtasks.len();
            let largest: i32 = if rows == 0 {
                0
            } else {
                self.subtasks[rows - 1].id
            };
            proof {
                assert(self@.reset_subtask_id().wf());
            }
            self.subtask_seq = largest;
        }
        Ok(())
    }

    /// Removes the task `id` and sets the counter of the tasks back.
    /// Returns the number of rows removed: where there is no task `id` that
    /// is 0, which is no failure, and no row of any table changes. The
    /// subtasks of the task stay.
    pub fn remove_task(&mut self, id: i32) -> (removed: Result<usize, TaskError>)
        ensures
            final(self)@ == old(self)@.remove_task(id as int),
            final(self)@.wf(),
            removed == Ok::<usize, TaskError>(
                if old(self)@.get_task(id as int) is Some {
                    1usize
                } else {
                    0usize
                },
            ),
            final(self)@.get_task(id as int) is None,
            old(self)@.get_task(id as int) is None ==> final(self)@.tasks == old(self)@.tasks,
            final(self)@.subtasks == old(self)@.subtasks,
            final(self)@.histories == old(self)@.histories,
    {
        proof {
            use_type_invariant(&*self);
            lemma_wf_kept(self@);
            law_remove_takes_one(self@, id as int);
        }
        let ghost keep = without_id::<TaskView>(id as int);
        let ghost before = self@.tasks;
        let last_issued: i32 = self.task_seq;
        let mut rows = self.take_tasks();
        let gone: usize = match find_row(&rows, id) {
            Some(at) => {
                proof {
                    assert forall|j: int| 0 <= j < before.len() && j != at implies keep(
                        #[trigger] before[j],
                    ) by {
                        if j < at {
                            assert(before[j].id < before[at as int].id);
                        } else {
                            assert(before[at as int].id < before[j].id);
                        }
                    }
                    lemma_filter_one_out(before, keep, at as int);
                    assert(views(rows@.remove(at as int)) == before.remove(at as int));
                    assert(holds_id(before, id as int));
                }
                rows.remove(at);
                1
            },
            None => {
                proof {
                    assert forall|j: int| 0 <= j < before.len() implies keep(
                        #[trigger] before[j],
                    ) by {}
                    lemma_filter_all(before, keep);
                }
                0
            },
        };
        proof {
            assert(views(rows@) == before.filter(keep));
            crate::table::lemma_filter_in_order(before, last_issued as int, keep);
        }
        self.put_tasks(rows, last_issued);
        let reset = self.try_reset_id("tasks");
        Ok(gone)
    }

    /// Removes the subtasks of the task `id` that have the rank
    /// `subtask_rank`, and sets the counter of the subtasks back. Returns
    /// the number of rows removed: where there is no such subtask that is 0,
    /// which is no failure. The ranks of the other subtasks stay.
    pub fn remove_subtask(&mut self, id: i32, subtask_rank: i32) -> (removed: Result<
        usize,
        TaskError,
    >)
        ensures
            final(self)@ == old(self)@.remove_subtask(id as int, subtask_rank as int),
            final(self)@.wf(),
            removed == Ok::<usize, TaskError>(
                (old(self)@.subtasks.len() - final(self)@.subtasks.len()) as usize,
            ),
            final(self)@.subtasks.len() <= old(self)@.subtasks.len(),
    {
        proof {
            use_type_invariant(&*self);
            lemma_wf_kept(self@);
        }
        let ghost keep = not_ranked(id as int, subtask_rank as int);
        let ghost before = self@.subtasks;
        let last_issued: i32 = self.subtask_seq;
        let rows = self.take_subtasks();
        let had: usize = rows.len();
        let kept = without_rank(rows, id, subtask_rank);
        let left: usize = kept.len();
        proof {
            crate::table::lemma_filter_in_order(before, last_issued as int, keep);
            before.lemma_filter_len(keep);
            reveal_strlit("tasks");
            reveal_strlit("subtasks");
            assert("subtasks"@.len() != "tasks"@.len());
        }
        self.put_subtasks(kept, last_issued);
        let reset = self.try_reset_id("subtasks");
        Ok(had - left)
    }

    /// Stores `record` under the next id.
    ///
    /// Fails with `Storage`, and changes nothing, where the table has no id
    /// left.
    pub fn insert_history(&mut self, record: NewHistory) -> (added: Result<i32, TaskError>)
        ensures
            final(self)@.wf(),
            match added {
                Ok(id) => id == old(self)@.history_seq + 1 && final(self)@
                    == old(self)@.insert_history(record@),
                Err(e) => e == TaskError::Storage && final(self)@ == old(self)@,
            },
            added is Ok <==> old(self)@.history_seq < i32::MAX,
    {
        proof {
            use_type_invariant(&*self);
            lemma_wf_kept(self@);
        }
        if self.history_seq == i32::MAX {
            return Err(TaskError::Storage);
        }
        let id: i32 = self.history_seq + 1;
        let row = History {
            id,
            what: record.what,
            link: record.link,
            finish_timestamp: record.finish_timestamp,
        };
        let mut rows = self.take_histories();
        proof {
            lemma_views_push(rows@, row);
            assert(old(self)@.insert_history(record@).wf());
        }
        rows.push(row);
        self.put_histories(rows, id);
        Ok(id)
    }

    /// Finishes the task `id` at the time `now`, given in seconds since
    /// 1970: removes the task, sets the counter of the tasks back, and
    /// stores a record with the task's description and link and the time.
    ///
    /// Fails with `NotFound` where there is no task `id`, and with `Storage`
    /// where the record cannot be stored: the table of records has no id
    /// left, or `now` does not fit the column. A failure changes nothing,
    /// so the task is never removed without its record.
    pub fn finish_task_at(&mut self, id: i32, now: i64) -> (finished: Result<(), TaskError>)
        ensures
            final(self)@.wf(),
            match finished {
                Ok(_) => final(self)@ == old(self)@.finish_task(id as int, now as int)
                    && final(self)@.get_task(id as int) is None && final(self)@.histories
                    == old(self)@.histories.push(
                    HistoryView {
                        id: old(self)@.history_seq + 1,
                        what: old(self)@.get_task(id as int).unwrap().what,
                        link: old(self)@.get_task(id as int).unwrap().link,
                        finish_timestamp: now as int,
                    },
                ),
                Err(_) => final(self)@ == old(self)@,
            },
            finished is Ok <==> old(self)@.get_task(id as int) is Some && old(self)@.history_seq
                < i32::MAX && i32::MIN <= now <= i32::MAX,
            finished == Err::<(), TaskError>(TaskError::NotFound) <==> old(self)@.get_task(
                id as int,
            ) is None,
            finished == Err::<(), TaskError>(TaskError::Storage) <==> old(self)@.get_task(
                id as int,
            ) is Some && !(old(self)@.history_seq < i32::MAX && i32::MIN <= now <= i32::MAX),
    {
        proof {
            use_type_invariant(&*self);
        }
        let at: usize = match self.position(id) {
            Some(at) => at,
            None => {
                return Err(TaskError::NotFound);
            },
        };
        if self.history_seq == i32::MAX || now < i32::MIN as i64 || now > i32::MAX as i64 {
            return Err(TaskError::Storage);
        }
        proof {
            law_finish_moves_task(self@, id as int, now as int);
        }
        let record = NewHistory {
            what: self.tasks[at].what.clone(),
            link: copy_text(&self.tasks[at].link),
            finish_timestamp: now as i32,
        };
        let removed = self.remove_task(id);
        let stored = self.insert_history(record);
        Ok(())
    }

    /// Finishes the task `id` now, by the system's clock: removes the task,
    /// sets the counter of the tasks back, and stores a record with the
    /// task's description and link and the time.
    ///
    /// Fails with `NotFound` where there is no task `id`, and with `Storage`
    /// where the record cannot be stored. A failure changes nothing, so the
    /// task is never removed without its record.
    pub fn finish_task(&mut self, id: i32) -> (finished: Result<(), TaskError>)
        ensures
            final(self)@.wf(),
            match finished {
                Ok(_) => old(self)@.get_task(id as int) is Some && final(self)@.histories.len() > 0
                    && final(self)@ == old(self)@.finish_task(
                    id as int,
                    final(self)@.histories.last().finish_timestamp,
                ) && final(self)@.get_task(id as int) is None && final(self)@.histories.drop_last()
                    == old(self)@.histories && final(self)@.histories.last().what
                    == old(self)@.get_task(id as int).unwrap().what
                    && final(self)@.histories.last().link == old(self)@.get_task(
                    id as int,
                ).unwrap().link,
                Err(_) => final(self)@ == old(self)@,
            },
            finished == Err::<(), TaskError>(TaskError::NotFound) <==> old(self)@.get_task(
                id as int,
            ) is None,
            old(self)@.get_task(id as int) is Some && old(self)@.history_seq == i32::MAX
                ==> finished == Err::<(), TaskError>(TaskError::Storage),
    {
        let now: i64 = unix_now();
        self.finish_task_at(id, now)
    }

    /// Notes down something that is done already: adds `task` and
    /// finishes it at once, now by the system's clock.
    ///
    /// Fails with `Storage`, and changes nothing, where the table of tasks
    /// has no id left. Where the task was added and its record cannot be
    /// stored, fails with `Storage` too, and the task stays an open task.
    pub fn note(&mut self, task: NewTask) -> (noted: Result<(), TaskError>)
        ensures
            final(self)@.wf(),
            match noted {
                Ok(_) => final(self)@.histories.len() > 0 && final(self)@ == old(self)@.add_task(
                    task@,
                ).finish_task(
                    old(self)@.task_seq + 1,
                    final(self)@.histories.last().finish_timestamp,
                ) && final(self)@.histories.drop_last() == old(self)@.histories
                    && final(self)@.histories.last().what == task.what@
                    && final(self)@.histories.last().link == text_view(task.link),
                Err(e) => e == TaskError::Storage && (final(self)@ == old(self)@ || final(self)@
                    == old(self)@.add_task(task@)),
            },
            old(self)@.task_seq == i32::MAX ==> noted is Err && final(self)@ == old(self)@,
    {
        let id: i32 = match self.add_task(task) {
            Ok(id) => id,
            Err(e) => {
                return Err(e);
            },
        };
        self.finish_task(id)
    }

    /// Gives the tasks the ids 1, 2, 3 and so on, in the order they stand
    /// in, lets each subtask follow its task to the new id, and sets the
    /// counter of the tasks to the number of tasks. This is what comes of
    /// removing every task and adding each again in the same order, each
    /// taking over the subtasks of the id it had. A store without tasks
    /// stays as it is.
    pub fn tidy(&mut self) -> (tidied: Result<(), TaskError>)
        ensures
            tidied is Ok,
            final(self)@ == old(self)@.tidy(),
            final(self)@.wf(),
    {
        proof {
            use_type_invariant(&*self);
            lemma_wf_kept(self@);
            lemma_in_order_len(self@.tasks, self@.task_seq);
        }
        let subtasks_issued: i32 = self.subtask_seq;
        let tasks_issued: i32 = self.task_seq;
        let mut tasks = self.take_tasks();
        let mut subtasks = self.take_subtasks();
        follow_tasks(&mut subtasks, &tasks, Ghost(tasks_issued as int));
        count_from_one(&mut tasks);
        let count: i32 = if tasks.len() == 0 {
            tasks_issued
        } else {
            tasks.len() as i32
        };
        proof {
            assert(old(self)@.tidy().wf());
        }
        self.put_tasks(tasks, count);
        self.put_subtasks(subtasks, subtasks_issued);
        Ok(())
    }
}

/// Where the row with the id `id` stands in `tasks`.
fn find_row(tasks: &Vec<Task>, id: i32) -> (at: Option<usize>)
    ensures
        match at {
            Some(i) => i < tasks@.len() && tasks@[i as int].id == id,
            None => !holds_id(views(tasks@), id as int),
        },
{
    let mut i: usize = 0;
    while i < tasks.len()
        invariant
            i <= tasks@.len(),
            forall|j: int| 0 <= j < i ==> (#[trigger] tasks@[j]).id != id,
        decreases tasks@.len() - i,
    {
        if tasks[i].id == id {
            return Some(i);
        }
        i += 1;
    }
    assert forall|j: int| 0 <= j < views(tasks@).len() implies (#[trigger] views(tasks@)[j]).id
        != id by {
        assert(tasks@[j].id != id);
    }
    None
}

/// Hands every row of the task `from` to the task `to`.
fn hand_over(rows: &mut Vec<SubTask>, from: i32, to: i32)
    ensures
        views(final(rows)@) == views(old(rows)@).map_values(handed_over(from as int, to as int)),
{
    let ghost change = handed_over(from as int, to as int);
    let ghost before = views(rows@);
    let mut i: usize = 0;
    while i < rows.len()
        invariant
            i <= rows@.len(),
            rows@.len() == before.len(),
            change == handed_over(from as int, to as int),
            forall|j: int| 0 <= j < i ==> (#[trigger] rows@[j])@ == change(before[j]),
            forall|j: int| i <= j < before.len() ==> (#[trigger] rows@[j])@ == before[j],
        decreases rows@.len() - i,
    {
        if rows[i].task_id == from {
            rows[i].task_id = to;
        }
        i += 1;
    }
    assert(views(rows@) =~= before.map_values(change));
}

/// Lets every row follow its task to the place of the task in `tasks`,
/// counted from 1.
fn follow_tasks(rows: &mut Vec<SubTask>, tasks: &Vec<Task>, Ghost(issued): Ghost<int>)
    requires
        in_order(views(tasks@), issued),
        tasks@.len() <= i32::MAX,
    ensures
        views(final(rows)@) == views(old(rows)@).map_values(following(views(tasks@))),
{
    let ghost change = following(views(tasks@));
    let ghost before = views(rows@);
    let mut k: usize = 0;
    while k < rows.len()
        invariant
            k <= rows@.len(),
            rows@.len() == before.len(),
            change == following(views(tasks@)),
            in_order(views(tasks@), issued),
            tasks@.len() <= i32::MAX,
            forall|j: int| 0 <= j < k ==> (#[trigger] rows@[j])@ == change(before[j]),
            forall|j: int| k <= j < before.len() ==> (#[trigger] rows@[j])@ == before[j],
        decreases rows@.len() - k,
    {
        let owner: i32 = rows[k].task_id;
        match find_row(tasks, owner) {
            Some(at) => {
                proof {
                    let all = views(tasks@);
                    let found = position_of(all, owner as int);
                    assert(all[at as int].id == owner);
                    if found < at {
                        assert(all[found].id < all[at as int].id);
                    } else if at < found {
                        assert(all[at as int].id < all[found].id);
                    }
                }
                rows[k].task_id = (at + 1) as i32;
            },
            None => {},
        }
        k += 1;
    }
    assert(views(rows@) =~= before.map_values(change));
}

/// Gives the rows the ids 1, 2, 3 and so on, in the order they stand in.
fn count_from_one(tasks: &mut Vec<Task>)
    requires
        old(tasks)@.len() <= i32::MAX,
    ensures
        views(final(tasks)@) == counted(views(old(tasks)@)),
{
    let ghost before = views(tasks@);
    let mut i: usize = 0;
    while i < tasks.len()
        invariant
            i <= tasks@.len(),
            tasks@.len() == before.len(),
            before.len() <= i32::MAX,
            forall|j: int|
                0 <= j < i ==> (#[trigger] tasks@[j])@ == (TaskView { id: j + 1, ..before[j] }),
            forall|j: int| i <= j < before.len() ==> (#[trigger] tasks@[j])@ == before[j],
        decreases tasks@.len() - i,
    {
        tasks[i].id = (i + 1) as i32;
        i += 1;
    }
    assert(views(tasks@) =~= counted(before));
}

/// Whether `ids` ascend strictly and lie between 1 and `last_issued`, and
/// `last_issued` is not negative.
fn ids_in_order(ids: &Vec<i32>, last_issued: i32) -> (fit: bool)
    ensures
        fit == ids_ascend(ids@, last_issued as int),
{
    if last_issued < 0 {
        return false;
    }
    let mut i: usize = 0;
    while i < ids.len()
        invariant
            i <= ids@.len(),
            0 <= last_issued,
            ids_ascend(ids@.take(i as int), last_issued as int),
        decreases ids@.len() - i,
    {
        let id: i32 = ids[i];
        if id < 1 || id > last_issued {
            return false;
        }
        if i > 0 && ids[i - 1] >= id {
            return false;
        }
        proof {
            let seen = ids@.take(i as int);
            let next = ids@.take(i + 1);
            assert forall|a: int, b: int| 0 <= a < b < next.len() implies #[trigger] next[a]
                < #[trigger] next[b] by {
                if b == i && a < i - 1 {
                    assert(seen[a] < seen[i - 1]);
                } else if b < i {
                    assert(seen[a] < seen[b]);
                }
            }
            assert forall|a: int| 0 <= a < next.len() implies 1 <= #[trigger] next[a]
                <= last_issued by {
                if a < i {
                    assert(1 <= seen[a] <= last_issued);
                }
            }
        }
        i += 1;
    }
    assert(ids@.take(ids@.len() as int) == ids@);
    true
}

/// Whether two texts hold the same characters.
fn same_text(a: &str, b: &str) -> (same: bool)
    ensures
        same == (a@ == b@),
{
    let x = chars_of(a);
    let y = chars_of(b);
    if x.len() != y.len() {
        return false;
    }
    let mut i: usize = 0;
    while i < x.len()
        invariant
            i <= x@.len(),
            x@.len() == y@.len(),
            x@ == a@,
            y@ == b@,
            forall|j: int| 0 <= j < i ==> x@[j] == y@[j],
        decreases x@.len() - i,
    {
        if x[i] != y[i] {
            return false;
        }
        i += 1;
    }
    assert(x@ =~= y@);
    true
}

/// The rows other than the subtasks of the task `task_id` with the rank
/// `rank`, in the order they stand in.
fn without_rank(rows: Vec<SubTask>, task_id: i32, rank: i32) -> (kept: Vec<SubTask>)
    ensures
        views(kept@) == views(rows@).filter(not_ranked(task_id as int, rank as int)),
{
    let mut kept: Vec<SubTask> = Vec::new();
    for row in it: rows
        invariant
            it.seq() == rows@,
            views(kept@) == views(rows@.take(it.index() as int)).filter(
                not_ranked(task_id as int, rank as int),
            ),
    {
        proof {
            lemma_views_take(rows@, it.index() as int);
            lemma_filter_push(
                views(rows@.take(it.index() as int)),
                row@,
                not_ranked(task_id as int, rank as int),
            );
            lemma_views_push(kept@, row);
        }
        if !(row.task_id == task_id && row.subtask_rank == rank) {
            kept.push(row);
        }
    }
    proof {
        lemma_views_all(rows@);
    }
    kept
}

} // verus!

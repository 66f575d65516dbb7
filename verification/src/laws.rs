//! What holds of the store whatever it holds: laws that relate its
//! operations, proved of every well-formed state.

use vstd::prelude::*;
use crate::models::{HistoryView, NewTaskView, SubTaskView, TaskView};
use crate::order::{lemma_sorted_by, lemma_sorted_by_ascending};
use crate::pattern::{containing, lemma_like_containing, literal, occurs_in};
use crate::state::{
    StoreState, by_rank, counted, described_like, finished_between, following, lemma_get_task,
    lemma_wf_kept, newest_first, of_task,
};
use crate::table::{
    Keyed, holds_id, in_order, largest_id, lemma_filter_all, lemma_filter_in_order,
    lemma_filter_origin, lemma_filter_push, lemma_in_order_len, lemma_largest_id,
    lemma_last_is_largest, lemma_position, position_of, without_id,
};

verus! {

/// A description and a link, as handed to `add_subtask`.
pub struct Step {
    pub what: Seq<char>,
    pub link: Option<Seq<char>>,
}

/// The store after the task `task_id` got the subtasks `steps`, one after
/// the other.
pub open spec fn add_subtasks(s: StoreState, task_id: int, steps: Seq<Step>) -> StoreState
    decreases steps.len(),
{
    if steps.len() == 0 {
        s
    } else {
        add_subtasks(s, task_id, steps.drop_last()).add_subtask(
            task_id,
            steps.last().what,
            steps.last().link,
        )
    }
}

/// The subtasks of the task `task_id` have the ranks 1, 2, 3 and so on, in
/// the order in which they were added.
pub open spec fn ranked_in_order(s: StoreState, task_id: int) -> bool {
    forall|i: int|
        0 <= i < s.subtasks_of(task_id).len() ==> (#[trigger] s.subtasks_of(
            task_id,
        )[i]).subtask_rank == i + 1
}

/// A task that was added is found under the id it got, as it was handed
/// in.
pub proof fn law_added_task_is_found(s: StoreState, task: NewTaskView)
    requires
        s.wf(),
    ensures
        s.add_task(task).get_task(s.task_seq + 1) == Some(
            TaskView {
                id: s.task_seq + 1,
                what: task.what,
                link: task.link,
                priority: task.priority,
            },
        ),
        forall|id: int| id != s.task_seq + 1 ==> s.add_task(task).get_task(id) == s.get_task(id),
{
    let after = s.add_task(task);
    lemma_wf_kept(s);
    lemma_get_task(after, s.task_seq + 1, s.tasks.len() as int);
    assert forall|id: int| id != s.task_seq + 1 implies after.get_task(id) == s.get_task(id) by {
        if holds_id(s.tasks, id) {
            let at = position_of(s.tasks, id);
            lemma_get_task(s, id, at);
            assert(after.tasks[at] == s.tasks[at]);
            lemma_get_task(after, id, at);
        } else if holds_id(after.tasks, id) {
            let at = position_of(after.tasks, id);
            assert(after.tasks[at] == s.tasks[at]);
        }
    }
}

/// Adding a subtask to a task whose subtasks are ranked in order leaves
/// them so: the new subtask stands last among them, with the next rank.
/// The subtasks of every other task stay as they are.
pub proof fn law_subtask_ranked_last(
    s: StoreState,
    task_id: int,
    what: Seq<char>,
    link: Option<Seq<char>>,
)
    requires
        ranked_in_order(s, task_id),
    ensures
        ranked_in_order(s.add_subtask(task_id, what, link), task_id),
        s.add_subtask(task_id, what, link).subtasks_of(task_id) == s.subtasks_of(task_id).push(
            SubTaskView {
                id: s.subtask_seq + 1,
                what,
                link,
                task_id,
                subtask_rank: s.next_rank(task_id),
            },
        ),
        forall|other: int|
            other != task_id ==> s.add_subtask(task_id, what, link).subtasks_of(other)
                == s.subtasks_of(other),
{
    let row = SubTaskView {
        id: s.subtask_seq + 1,
        what,
        link,
        task_id,
        subtask_rank: s.next_rank(task_id),
    };
    let after = s.add_subtask(task_id, what, link);
    assert(after.subtasks == s.subtasks.push(row));
    lemma_filter_push(s.subtasks, row, of_task(task_id));
    assert forall|i: int| 0 <= i < after.subtasks_of(task_id).len() implies (
    #[trigger] after.subtasks_of(task_id)[i]).subtask_rank == i + 1 by {
        if i < s.subtasks_of(task_id).len() {
            assert(after.subtasks_of(task_id)[i] == s.subtasks_of(task_id)[i]);
        }
    }
    assert forall|other: int| other != task_id implies after.subtasks_of(other) == s.subtasks_of(
        other,
    ) by {
        lemma_filter_push(s.subtasks, row, of_task(other));
    }
}

/// Where a task has no subtasks and gets `steps` one after the other, and
/// nothing is removed in between, its subtasks are `steps` in that order,
/// with the ranks 1, 2, 3 and so on, and are listed in that order.
pub proof fn law_ranks_count_up(s: StoreState, task_id: int, steps: Seq<Step>)
    requires
        s.subtasks_of(task_id).len() == 0,
    ensures
        ({
            let listed = add_subtasks(s, task_id, steps).get_subtasks(task_id);
            &&& listed == add_subtasks(s, task_id, steps).subtasks_of(task_id)
            &&& listed.len() == steps.len()
            &&& forall|i: int|
                0 <= i < steps.len() ==> (#[trigger] listed[i]).subtask_rank == i + 1 && listed[i].what
                    == steps[i].what && listed[i].link == steps[i].link && listed[i].task_id
                    == task_id
        }),
    decreases steps.len(),
{
    lemma_steps_added(s, task_id, steps);
    let after = add_subtasks(s, task_id, steps);
    let rows = after.subtasks_of(task_id);
    assert forall|i: int, j: int| 0 <= i < j < rows.len() implies by_rank()(#[trigger] rows[i])
        <= by_rank()(#[trigger] rows[j]) by {}
    lemma_sorted_by_ascending(rows, by_rank());
}

/// What `law_ranks_count_up` says, of the subtasks in the order of
/// insertion.
proof fn lemma_steps_added(s: StoreState, task_id: int, steps: Seq<Step>)
    requires
        s.subtasks_of(task_id).len() == 0,
    ensures
        ranked_in_order(add_subtasks(s, task_id, steps), task_id),
        add_subtasks(s, task_id, steps).subtasks_of(task_id).len() == steps.len(),
        forall|i: int|
            0 <= i < steps.len() ==> (#[trigger] add_subtasks(s, task_id, steps).subtasks_of(
                task_id,
            )[i]).what == steps[i].what && add_subtasks(s, task_id, steps).subtasks_of(
                task_id,
            )[i].link == steps[i].link && add_subtasks(s, task_id, steps).subtasks_of(
                task_id,
            )[i].task_id == task_id,
    decreases steps.len(),
{
    if steps.len() > 0 {
        let front = steps.drop_last();
        let before = add_subtasks(s, task_id, front);
        lemma_steps_added(s, task_id, front);
        law_subtask_ranked_last(before, task_id, steps.last().what, steps.last().link);
        let after = add_subtasks(s, task_id, steps);
        assert forall|i: int| 0 <= i < steps.len() implies (#[trigger] after.subtasks_of(
            task_id,
        )[i]).what == steps[i].what && after.subtasks_of(task_id)[i].link == steps[i].link
            && after.subtasks_of(task_id)[i].task_id == task_id by {
            if i < front.len() {
                assert(after.subtasks_of(task_id)[i] == before.subtasks_of(task_id)[i]);
                assert(front[i] == steps[i]);
            }
        }
    }
}

/// Finishing a task moves it from the tasks to the records: afterwards no
/// task has its id, every other task is found as before, and the records
/// are those of before with one more at the end, which holds the task's
/// description and link and the time of finishing. The subtasks stay.
pub proof fn law_finish_moves_task(s: StoreState, id: int, now: int)
    requires
        s.wf(),
        s.get_task(id) is Some,
    ensures
        s.finish_task(id, now).wf(),
        s.finish_task(id, now).get_task(id) is None,
        forall|other: int| other != id ==> s.finish_task(id, now).get_task(other) == s.get_task(other),
        s.finish_task(id, now).tasks.len() == s.tasks.len() - 1,
        s.finish_task(id, now).histories == s.histories.push(
            HistoryView {
                id: s.history_seq + 1,
                what: s.get_task(id).unwrap().what,
                link: s.get_task(id).unwrap().link,
                finish_timestamp: now,
            },
        ),
        s.finish_task(id, now).subtasks == s.subtasks,
{
    let removed = s.remove_task(id);
    let after = s.finish_task(id, now);
    lemma_wf_kept(s);
    lemma_wf_kept(removed);
    law_remove_takes_one(s, id);
    assert(after.tasks == removed.tasks);
    assert forall|other: int| other != id implies after.get_task(other) == s.get_task(other) by {
        assert(after.get_task(other) == removed.get_task(other));
    }
}

/// Removing a task takes that task out and nothing else: afterwards no task
/// has its id, and every other task is found as before. Where no task has
/// the id, no row of any table changes, and where the counter of the tasks
/// stood at the largest id, nothing changes at all.
pub proof fn law_remove_takes_one(s: StoreState, id: int)
    requires
        s.wf(),
    ensures
        s.remove_task(id).wf(),
        s.remove_task(id).get_task(id) is None,
        forall|other: int| other != id ==> s.remove_task(id).get_task(other) == s.get_task(other),
        s.remove_task(id).subtasks == s.subtasks,
        s.remove_task(id).histories == s.histories,
        s.get_task(id) is Some ==> s.remove_task(id).tasks.len() == s.tasks.len() - 1,
        s.get_task(id) is None ==> s.remove_task(id).tasks == s.tasks,
        s.get_task(id) is None && s.task_seq == largest_id(s.tasks) ==> s.remove_task(id) == s,
{
    let keep = without_id::<TaskView>(id);
    let after = s.remove_task(id);
    lemma_wf_kept(s);
    let origin = lemma_filter_origin(s.tasks, keep);
    if holds_id(after.tasks, id) {
        let at = position_of(after.tasks, id);
        assert(keep(s.tasks[origin[at]]));
    }
    assert forall|other: int| other != id implies after.get_task(other) == s.get_task(other) by {
        if holds_id(s.tasks, other) {
            let at = position_of(s.tasks, other);
            assert(keep(s.tasks[at]));
            let k = choose|k: int| 0 <= k < origin.len() && #[trigger] origin[k] == at;
            assert(after.tasks[k] == s.tasks[at]);
            lemma_get_task(after, other, k);
            lemma_get_task(s, other, at);
        } else if holds_id(after.tasks, other) {
            let k = position_of(after.tasks, other);
            assert(s.tasks[origin[k]] == after.tasks[k]);
        }
    }
    if s.get_task(id) is Some {
        let at = position_of(s.tasks, id);
        assert forall|j: int| 0 <= j < s.tasks.len() && j != at implies keep(
            #[trigger] s.tasks[j],
        ) by {
            if j < at {
                assert(s.tasks[j].id < s.tasks[at].id);
            } else {
                assert(s.tasks[at].id < s.tasks[j].id);
            }
        }
        crate::table::lemma_filter_one_out(s.tasks, keep, at);
    } else {
        assert forall|j: int| 0 <= j < s.tasks.len() implies keep(#[trigger] s.tasks[j]) by {}
        lemma_filter_all(s.tasks, keep);
    }
}

/// After a task was removed, the next task gets the id that follows the
/// largest id still in use, or 1 where no task is left: an id that became
/// free at the end of the table is issued again.
pub proof fn law_next_id_follows_largest(s: StoreState, id: int, task: NewTaskView)
    requires
        s.wf(),
    ensures
        s.remove_task(id).add_task(task).tasks.last().id == largest_id(s.remove_task(id).tasks) + 1,
        s.remove_task(id).tasks.len() > 0 ==> s.remove_task(id).add_task(task).tasks.last().id
            == s.remove_task(id).tasks.last().id + 1,
        s.remove_task(id).tasks.len() == 0 ==> s.remove_task(id).add_task(task).tasks.last().id == 1,
        s.tasks.len() > 0 && id == s.tasks.last().id ==> s.remove_task(id).add_task(
            task,
        ).tasks.last().id <= id,
{
    let removed = s.remove_task(id);
    lemma_wf_kept(s);
    assert(removed.wf());
    lemma_last_is_largest(removed.tasks, removed.task_seq);
    lemma_filter_in_order(s.tasks, s.task_seq, without_id(id));
    lemma_last_is_largest(s.tasks, s.task_seq);
    if s.tasks.len() > 0 && id == s.tasks.last().id {
        let keep = without_id::<TaskView>(id);
        let origin = lemma_filter_origin(s.tasks, keep);
        if removed.tasks.len() > 0 {
            let last = removed.tasks.len() - 1;
            assert(s.tasks[origin[last]] == removed.tasks[last]);
            assert(origin[last] != s.tasks.len() - 1);
            assert(s.tasks[origin[last]].id < s.tasks[s.tasks.len() - 1].id);
        }
    }
}

/// A record is listed among those finished within a span of time exactly
/// where it was finished at the start of the span or later, and before its
/// end: one finished at the start is listed, one finished at the end is
/// not. The records listed never ascend in time.
pub proof fn law_finished_within_span(s: StoreState, start: int, end: int)
    ensures
        forall|record: HistoryView|
            #![trigger s.get_finished_within(start, end).contains(record)]
            s.get_finished_within(start, end).contains(record) <==> s.histories.contains(record)
                && start <= record.finish_timestamp < end,
        forall|i: int, j: int|
            0 <= i < j < s.get_finished_within(start, end).len() ==> (
            #[trigger] s.get_finished_within(start, end)[i]).finish_timestamp >= (
            #[trigger] s.get_finished_within(start, end)[j]).finish_timestamp,
{
    broadcast use vstd::seq_lib::group_to_multiset_ensures;

    let wanted = finished_between(start, end);
    let picked = s.histories.filter(wanted);
    let listed = s.get_finished_within(start, end);
    lemma_sorted_by(picked, newest_first());
    let origin = lemma_filter_origin(s.histories, wanted);
    assert forall|record: HistoryView| #![trigger listed.contains(record)] listed.contains(record)
        <==> s.histories.contains(record) && start <= record.finish_timestamp < end by {
        assert(listed.contains(record) <==> listed.to_multiset().count(record) > 0);
        assert(picked.contains(record) <==> picked.to_multiset().count(record) > 0);
        if picked.contains(record) {
            let k = choose|k: int| 0 <= k < picked.len() && picked[k] == record;
            assert(s.histories[origin[k]] == record);
        }
        if s.histories.contains(record) && wanted(record) {
            let i = choose|i: int| 0 <= i < s.histories.len() && s.histories[i] == record;
            let k = choose|k: int| 0 <= k < origin.len() && #[trigger] origin[k] == i;
            assert(picked[k] == record);
        }
    }
    assert forall|i: int, j: int| 0 <= i < j < listed.len() implies (
    #[trigger] listed[i]).finish_timestamp >= (#[trigger] listed[j]).finish_timestamp by {
        assert(newest_first()(listed[i]) <= newest_first()(listed[j]));
    }
}

/// A search for a needle that holds neither `%` nor `_` lists exactly the
/// tasks in whose description the needle stands, character for character
/// and in the same case, in the order of their ids. A search without a
/// needle lists every task.
pub proof fn law_search_finds_needle(s: StoreState, needle: Seq<char>)
    requires
        literal(needle),
    ensures
        s.get_tasks(Some(needle)) == s.tasks.filter(holding(needle)),
        s.get_tasks(None) == s.tasks,
        forall|task: TaskView|
            #![trigger s.get_tasks(Some(needle)).contains(task)]
            s.get_tasks(Some(needle)).contains(task) <==> s.tasks.contains(task) && occurs_in(
                needle,
                task.what,
            ),
{
    let wanted = described_like(containing(needle));
    lemma_filter_same(s.tasks, wanted, holding(needle), needle);
    let listed = s.tasks.filter(holding(needle));
    let origin = lemma_filter_origin(s.tasks, holding(needle));
    assert forall|task: TaskView| #![trigger listed.contains(task)] listed.contains(task)
        <==> s.tasks.contains(task) && occurs_in(needle, task.what) by {
        if listed.contains(task) {
            let k = choose|k: int| 0 <= k < listed.len() && listed[k] == task;
            assert(s.tasks[origin[k]] == task);
        }
        if s.tasks.contains(task) && occurs_in(needle, task.what) {
            let i = choose|i: int| 0 <= i < s.tasks.len() && s.tasks[i] == task;
            let k = choose|k: int| 0 <= k < origin.len() && #[trigger] origin[k] == i;
            assert(listed[k] == task);
        }
    }
}

/// The tasks in whose description `needle` stands.
pub open spec fn holding(needle: Seq<char>) -> spec_fn(TaskView) -> bool {
    |task: TaskView| occurs_in(needle, task.what)
}

/// For a needle that holds neither `%` nor `_`, the filter by pattern and
/// the filter by occurrence keep the same tasks.
proof fn lemma_filter_same(
    tasks: Seq<TaskView>,
    by_pattern: spec_fn(TaskView) -> bool,
    by_occurrence: spec_fn(TaskView) -> bool,
    needle: Seq<char>,
)
    requires
        literal(needle),
        by_pattern == described_like(containing(needle)),
        by_occurrence == holding(needle),
    ensures
        tasks.filter(by_pattern) == tasks.filter(by_occurrence),
    decreases tasks.len(),
{
    reveal(Seq::filter);
    if tasks.len() > 0 {
        lemma_filter_same(tasks.drop_last(), by_pattern, by_occurrence, needle);
        lemma_like_containing(needle, tasks.last().what);
    }
}

/// The records listed as finished last are records of the table, as many
/// as were asked for or all there are, and never ascend in time.
pub proof fn law_finished_newest_first(s: StoreState, last_n: int)
    requires
        0 <= last_n,
    ensures
        s.get_finished(last_n).len() == if last_n < s.histories.len() {
            last_n
        } else {
            s.histories.len() as int
        },
        forall|i: int|
            0 <= i < s.get_finished(last_n).len() ==> s.histories.contains(
                #[trigger] s.get_finished(last_n)[i],
            ),
        forall|i: int, j: int|
            0 <= i < j < s.get_finished(last_n).len() ==> (#[trigger] s.get_finished(
                last_n,
            )[i]).finish_timestamp >= (#[trigger] s.get_finished(last_n)[j]).finish_timestamp,
        forall|i: int, j: int|
            0 <= i < s.get_finished(last_n).len() && 0 <= j < s.histories.len()
                && !s.get_finished(last_n).contains(s.histories[j]) ==> (#[trigger] s.get_finished(
                last_n,
            )[i]).finish_timestamp >= (#[trigger] s.histories[j]).finish_timestamp,
{
    broadcast use vstd::seq_lib::group_to_multiset_ensures;

    let all = s.finished();
    let listed = s.get_finished(last_n);
    lemma_sorted_by(s.histories, newest_first());
    assert forall|i: int| 0 <= i < listed.len() implies s.histories.contains(
        #[trigger] listed[i],
    ) by {
        assert(listed[i] == all[i]);
        assert(all.to_multiset().count(all[i]) > 0);
    }
    assert forall|i: int, j: int| 0 <= i < j < listed.len() implies (
    #[trigger] listed[i]).finish_timestamp >= (#[trigger] listed[j]).finish_timestamp by {
        assert(newest_first()(all[i]) <= newest_first()(all[j]));
    }
    assert forall|i: int, j: int|
        0 <= i < listed.len() && 0 <= j < s.histories.len() && !listed.contains(
            s.histories[j],
        ) implies (#[trigger] listed[i]).finish_timestamp >= (
    #[trigger] s.histories[j]).finish_timestamp by {
        let record = s.histories[j];
        assert(s.histories.to_multiset().count(record) > 0);
        assert(all.contains(record));
        let k = choose|k: int| 0 <= k < all.len() && all[k] == record;
        if k < listed.len() {
            assert(listed[k] == record);
        } else {
            assert(newest_first()(all[i]) <= newest_first()(all[k]));
        }
    }
}

/// No operation changes a record or takes one away: after each, the
/// records of before stand where they stood.
pub proof fn law_records_stay(s: StoreState)
    ensures
        forall|task: NewTaskView| #[trigger] s.add_task(task).histories == s.histories,
        forall|task_id: int, what: Seq<char>, link: Option<Seq<char>>| #[trigger]
            s.add_subtask(task_id, what, link).histories == s.histories,
        forall|id: int| #[trigger] s.remove_task(id).histories == s.histories,
        forall|task_id: int, rank: int| #[trigger]
            s.remove_subtask(task_id, rank).histories == s.histories,
        forall|id: int, what: Seq<char>| #[trigger]
            s.update_task_desc(id, what).histories == s.histories,
        forall|id: int, priority: int| #[trigger]
            s.update_task_priority(id, priority).histories == s.histories,
        forall|from: int, to: int| #[trigger]
            s.update_subtask_belongings(from, to).histories == s.histories,
        forall|id: int, now: int| #[trigger]
            s.finish_task(id, now).histories.drop_last() == s.histories,
        s.tidy().histories == s.histories,
{
}

/// The store after each of `tasks` was removed, one after the other.
pub open spec fn remove_each(s: StoreState, tasks: Seq<TaskView>) -> StoreState
    decreases tasks.len(),
{
    if tasks.len() == 0 {
        s
    } else {
        remove_each(s, tasks.drop_last()).remove_task(tasks.last().id)
    }
}

/// The store after each of `tasks` was added again, one after the other,
/// and took over the subtasks of the id it had.
pub open spec fn add_each_again(s: StoreState, tasks: Seq<TaskView>) -> StoreState
    decreases tasks.len(),
{
    if tasks.len() == 0 {
        s
    } else {
        let before = add_each_again(s, tasks.drop_last());
        let task = tasks.last();
        before.add_task(
            NewTaskView { what: task.what, link: task.link, priority: task.priority },
        ).update_subtask_belongings(task.id, before.task_seq + 1)
    }
}

/// Tidying is what comes of removing every task and then adding each again
/// in the same order, each taking over the subtasks of the id it had.
pub proof fn law_tidy_recreates(s: StoreState)
    requires
        s.wf(),
    ensures
        add_each_again(remove_each(s, s.tasks), s.tasks) == s.tidy(),
{
    let n = s.tasks.len() as int;
    lemma_remove_each(s, n);
    assert(s.tasks.take(n) == s.tasks);
    let bare = remove_each(s, s.tasks);
    assert(bare.tasks == Seq::<TaskView>::empty());
    if n == 0 {
        assert(bare == s);
        assert(s.tidy().tasks == s.tasks);
        assert(s.tidy().subtasks == s.subtasks);
    } else {
        lemma_largest_id(bare.tasks);
        lemma_add_each_again(bare, s.tasks, s.task_seq, n);
        assert(s.tasks.take(n) == s.tasks);
    }
}

/// After the first `k` tasks were removed, the tasks from `k` on are left,
/// and the counter stands at the largest id among them.
proof fn lemma_remove_each(s: StoreState, k: int)
    requires
        s.wf(),
        0 <= k <= s.tasks.len(),
    ensures
        remove_each(s, s.tasks.take(k)) == (StoreState {
            tasks: s.tasks.skip(k),
            task_seq: if k == 0 {
                s.task_seq
            } else {
                largest_id(s.tasks.skip(k))
            },
            ..s
        }),
    decreases k,
{
    if k == 0 {
        assert(s.tasks.skip(0) == s.tasks);
    } else {
        lemma_remove_each(s, k - 1);
        assert(s.tasks.take(k).drop_last() == s.tasks.take(k - 1));
        assert(s.tasks.take(k).last() == s.tasks[k - 1]);
        let left = s.tasks.skip(k - 1);
        let keep = without_id::<TaskView>(s.tasks[k - 1].id);
        assert forall|j: int| 0 <= j < left.len() && j != 0 implies keep(#[trigger] left[j]) by {
            assert(s.tasks[k - 1].id < s.tasks[k - 1 + j].id);
        }
        crate::table::lemma_filter_one_out(left, keep, 0);
        assert(left.remove(0) == s.tasks.skip(k));
    }
}

/// After the first `k` of `tasks` were added again to a store without
/// tasks that has issued no id, they have the ids 1 to `k`, and the subtasks
/// of each have followed it.
proof fn lemma_add_each_again(bare: StoreState, tasks: Seq<TaskView>, last_issued: int, k: int)
    requires
        in_order(tasks, last_issued),
        bare.tasks.len() == 0,
        bare.task_seq == 0,
        0 <= k <= tasks.len(),
    ensures
        add_each_again(bare, tasks.take(k)) == (StoreState {
            tasks: counted(tasks.take(k)),
            subtasks: bare.subtasks.map_values(following(tasks.take(k))),
            task_seq: k,
            ..bare
        }),
    decreases k,
{
    let first = tasks.take(k);
    if k == 0 {
        assert(counted(first) == bare.tasks);
        assert(bare.subtasks.map_values(following(first)) == bare.subtasks);
    } else {
        let fewer = tasks.take(k - 1);
        lemma_add_each_again(bare, tasks, last_issued, k - 1);
        lemma_in_order_len(tasks, last_issued);
        assert(first.drop_last() == fewer);
        let task = tasks[k - 1];
        assert(first.last() == task);
        let before = add_each_again(bare, fewer);
        let after = add_each_again(bare, first);
        assert(after.tasks == counted(first));
        assert forall|i: int| 0 <= i < bare.subtasks.len() implies #[trigger] after.subtasks[i]
            == following(first)(bare.subtasks[i]) by {
            let owner = bare.subtasks[i].task_id;
            assert(before.subtasks[i] == following(fewer)(bare.subtasks[i]));
            if holds_id(fewer, owner) {
                let j = position_of(fewer, owner);
                assert(fewer[j] == tasks[j]);
                assert(first[j] == tasks[j]);
                lemma_take_in_order(tasks, last_issued, k);
                lemma_position(first, last_issued, owner, j);
                assert(tasks[j].id < task.id);
            } else if owner == task.id {
                lemma_take_in_order(tasks, last_issued, k);
                lemma_position(first, last_issued, owner, k - 1);
            } else if holds_id(first, owner) {
                let j = position_of(first, owner);
                assert(first[j] == tasks[j]);
                assert(fewer[j] == tasks[j]);
            }
        }
        assert(after.subtasks == bare.subtasks.map_values(following(first)));
    }
}

/// The first `k` rows of a table in order are in order.
proof fn lemma_take_in_order(tasks: Seq<TaskView>, last_issued: int, k: int)
    requires
        in_order(tasks, last_issued),
        0 <= k <= tasks.len(),
    ensures
        in_order(tasks.take(k), last_issued),
{
    let first = tasks.take(k);
    assert forall|i: int| 0 <= i < first.len() implies 1 <= (#[trigger] first[i]).key()
        <= last_issued by {
        assert(first[i] == tasks[i]);
    }
    assert forall|i: int, j: int| 0 <= i < j < first.len() implies (#[trigger] first[i]).key() < (
    #[trigger] first[j]).key() by {
        assert(first[i] == tasks[i]);
        assert(first[j] == tasks[j]);
    }
}

/// Tidying keeps every subtask with its task: where a subtask belonged to
/// a task before, it belongs afterwards to the task that stands in the
/// same place, which differs from the old one in its id alone. The ids of
/// the tasks afterwards are their places, counted from 1, and the next task
/// gets the id after them.
pub proof fn law_tidy_keeps_owner(s: StoreState, k: int)
    requires
        s.wf(),
        0 <= k < s.subtasks.len(),
        s.get_task(s.subtasks[k].task_id) is Some,
    ensures
        s.tidy().wf(),
        s.tidy().task_seq == largest_id(s.tidy().tasks),
        s.tidy().get_task(s.tidy().subtasks[k].task_id) == Some(
            TaskView {
                id: position_of(s.tasks, s.subtasks[k].task_id) + 1,
                ..s.get_task(s.subtasks[k].task_id).unwrap()
            },
        ),
        s.tidy().subtasks[k] == (SubTaskView {
            task_id: s.tidy().subtasks[k].task_id,
            ..s.subtasks[k]
        }),
{
    let after = s.tidy();
    lemma_wf_kept(s);
    lemma_last_is_largest(after.tasks, after.task_seq);
    let at = position_of(s.tasks, s.subtasks[k].task_id);
    lemma_get_task(s, s.subtasks[k].task_id, at);
    lemma_get_task(after, at + 1, at);
    if after.tasks.len() > 0 {
        assert(after.tasks[after.tasks.len() - 1].id == after.tasks.len());
    }
}

} // verus!

use task_tracker::models::{History, NewHistory, NewSubTask, NewTask, SubTask, Task};
use task_tracker::taskdb::{TaskError, TaskStore};

fn task(what: &str, link: Option<&str>, priority: i32) -> NewTask {
    NewTask { what: what.to_string(), link: link.map(|l| l.to_string()), priority }
}

fn three_tasks() -> TaskStore {
    let mut db = TaskStore::new();
    assert_eq!(db.add_task(task("a", None, 5)), Ok(1));
    assert_eq!(db.add_task(task("b", Some("http://b"), 2)), Ok(2));
    assert_eq!(db.add_task(task("c", None, 9)), Ok(3));
    db
}

fn ids(db: &TaskStore) -> Vec<i32> {
    db.get_tasks(None).unwrap().iter().map(|t| t.id).collect()
}

#[test]
fn new_store_is_empty() {
    let db = TaskStore::new();
    assert_eq!(db.get_tasks(None), Ok(vec![]));
    assert_eq!(db.get_finished(10), Ok(vec![]));
    assert_eq!(db.get_task(1), Ok(None));
    let (tasks, subtasks, histories, task_seq, subtask_seq, history_seq) = db.into_tables();
    assert!(tasks.is_empty() && subtasks.is_empty() && histories.is_empty());
    assert_eq!((task_seq, subtask_seq, history_seq), (0, 0, 0));
}

#[test]
fn added_task_is_read_back_as_it_was_added() {
    let mut db = TaskStore::new();
    let id = db.add_task(task("write the report", Some("http://example.org"), 7)).unwrap();
    assert_eq!(id, 1);
    assert_eq!(
        db.get_task(id),
        Ok(Some(Task {
            id: 1,
            what: "write the report".to_string(),
            link: Some("http://example.org".to_string()),
            priority: 7,
        }))
    );
    let second = db.add_task(task("second", None, 5)).unwrap();
    assert_eq!(second, 2);
    assert_eq!(
        db.get_task(2),
        Ok(Some(Task { id: 2, what: "second".to_string(), link: None, priority: 5 }))
    );
    assert_eq!(db.get_task(1).unwrap().unwrap().what, "write the report");
}

#[test]
fn absent_task_reads_as_none() {
    let db = three_tasks();
    assert_eq!(db.get_task(4), Ok(None));
    assert_eq!(db.get_task(0), Ok(None));
    assert_eq!(db.get_task(-1), Ok(None));
}

#[test]
fn add_task_fails_when_no_id_is_left() {
    let last = Task { id: i32::MAX, what: "last".to_string(), link: None, priority: 5 };
    let mut db =
        TaskStore::from_tables(vec![last.clone()], vec![], vec![], i32::MAX, 0, 0).unwrap();
    assert_eq!(db.add_task(task("one more", None, 5)), Err(TaskError::Storage));
    assert_eq!(db.get_tasks(None), Ok(vec![last]));
}

#[test]
fn subtasks_get_ranks_in_the_order_they_are_added() {
    let mut db = three_tasks();
    assert_eq!(db.add_subtask(2, "first".to_string(), None), Ok(()));
    assert_eq!(db.add_subtask(1, "other".to_string(), None), Ok(()));
    assert_eq!(db.add_subtask(2, "second".to_string(), Some("l".to_string())), Ok(()));
    assert_eq!(db.add_subtask(2, "third".to_string(), None), Ok(()));
    let listed = db.get_subtasks(2).unwrap();
    assert_eq!(
        listed,
        vec![
            SubTask { id: 1, what: "first".to_string(), link: None, task_id: 2, subtask_rank: 1 },
            SubTask {
                id: 3,
                what: "second".to_string(),
                link: Some("l".to_string()),
                task_id: 2,
                subtask_rank: 2,
            },
            SubTask { id: 4, what: "third".to_string(), link: None, task_id: 2, subtask_rank: 3 },
        ]
    );
    let other = db.get_subtasks(1).unwrap();
    assert_eq!(other.len(), 1);
    assert_eq!((other[0].id, other[0].subtask_rank), (2, 1));
    assert_eq!(db.get_subtasks(3), Ok(vec![]));
}

#[test]
fn subtask_of_a_missing_task_is_refused() {
    let mut db = three_tasks();
    assert_eq!(db.add_subtask(4, "nowhere".to_string(), None), Err(TaskError::NotFound));
    let (_, subtasks, _, _, subtask_seq, _) = db.into_tables();
    assert!(subtasks.is_empty());
    assert_eq!(subtask_seq, 0);
}

#[test]
fn add_subtask_fails_when_no_id_is_left() {
    let parent = Task { id: 1, what: "p".to_string(), link: None, priority: 5 };
    let mut db = TaskStore::from_tables(vec![parent], vec![], vec![], 1, i32::MAX, 0).unwrap();
    assert_eq!(db.add_subtask(1, "s".to_string(), None), Err(TaskError::Storage));
    assert_eq!(db.add_subtask(2, "s".to_string(), None), Err(TaskError::NotFound));
    assert_eq!(db.get_subtasks(1), Ok(vec![]));
}

#[test]
fn subtasks_of_a_missing_task_are_not_found() {
    let db = three_tasks();
    assert_eq!(db.get_subtasks(7), Err(TaskError::NotFound));
}

#[test]
fn subtasks_are_listed_by_rank() {
    let parent = Task { id: 1, what: "p".to_string(), link: None, priority: 5 };
    let row = |id: i32, task_id: i32, rank: i32| SubTask {
        id,
        what: format!("s{}", id),
        link: None,
        task_id,
        subtask_rank: rank,
    };
    let db = TaskStore::from_tables(
        vec![parent],
        vec![row(1, 1, 3), row(2, 1, 1), row(3, 2, 1), row(4, 1, 3), row(5, 1, 2)],
        vec![],
        1,
        5,
        0,
    )
    .unwrap();
    let listed: Vec<i32> = db.get_subtasks(1).unwrap().iter().map(|s| s.id).collect();
    assert_eq!(listed, vec![2, 5, 1, 4]);
}

#[test]
fn insert_subtask_stores_the_rank_it_is_given() {
    let mut db = TaskStore::new();
    let id = db.insert_subtask(NewSubTask {
        what: "loose".to_string(),
        link: None,
        task_id: 9,
        subtask_rank: 4,
    });
    assert_eq!(id, Ok(1));
    let (_, subtasks, _, _, subtask_seq, _) = db.into_tables();
    assert_eq!(
        subtasks,
        vec![SubTask { id: 1, what: "loose".to_string(), link: None, task_id: 9, subtask_rank: 4 }]
    );
    assert_eq!(subtask_seq, 1);
}

#[test]
fn finished_task_moves_to_the_history() {
    let mut db = three_tasks();
    let before = std::time::SystemTime::now()
        .duration_since(std::time::UNIX_EPOCH)
        .unwrap()
        .as_secs() as i64;
    assert_eq!(db.finish_task(2), Ok(()));
    assert_eq!(db.get_task(2), Ok(None));
    assert_eq!(ids(&db), vec![1, 3]);
    let records = db.get_finished(10).unwrap();
    assert_eq!(records.len(), 1);
    assert_eq!(records[0].id, 1);
    assert_eq!(records[0].what, "b");
    assert_eq!(records[0].link, Some("http://b".to_string()));
    assert!(records[0].finish_timestamp as i64 >= before);
    assert!(records[0].finish_timestamp as i64 <= before + 60);
}

#[test]
fn finishing_a_missing_task_changes_nothing() {
    let mut db = three_tasks();
    assert_eq!(db.finish_task(4), Err(TaskError::NotFound));
    assert_eq!(db.finish_task_at(4, 100), Err(TaskError::NotFound));
    assert_eq!(ids(&db), vec![1, 2, 3]);
    assert_eq!(db.get_finished(10), Ok(vec![]));
}

#[test]
fn finish_task_at_records_the_time_given() {
    let mut db = three_tasks();
    assert_eq!(db.finish_task_at(1, 1431648000), Ok(()));
    assert_eq!(
        db.get_finished(1),
        Ok(vec![History { id: 1, what: "a".to_string(), link: None, finish_timestamp: 1431648000 }])
    );
    assert_eq!(db.finish_task_at(1, 1431648000), Err(TaskError::NotFound));
}

#[test]
fn a_task_is_not_lost_when_its_record_cannot_be_stored() {
    let mut db = three_tasks();
    assert_eq!(db.finish_task_at(2, i32::MAX as i64 + 1), Err(TaskError::Storage));
    assert_eq!(db.finish_task_at(2, i32::MIN as i64 - 1), Err(TaskError::Storage));
    assert_eq!(
        db.get_task(2),
        Ok(Some(Task {
            id: 2,
            what: "b".to_string(),
            link: Some("http://b".to_string()),
            priority: 2,
        }))
    );
    assert_eq!(db.get_finished(10), Ok(vec![]));

    let open = Task { id: 1, what: "open".to_string(), link: None, priority: 5 };
    let done = History { id: i32::MAX, what: "x".to_string(), link: None, finish_timestamp: 5 };
    let mut full =
        TaskStore::from_tables(vec![open.clone()], vec![], vec![done.clone()], 1, 0, i32::MAX)
            .unwrap();
    assert_eq!(full.finish_task(1), Err(TaskError::Storage));
    assert_eq!(full.finish_task_at(1, 10), Err(TaskError::Storage));
    assert_eq!(full.get_task(1), Ok(Some(open)));
    assert_eq!(full.get_finished(10), Ok(vec![done]));
    assert_eq!(
        full.insert_history(NewHistory { what: "y".to_string(), link: None, finish_timestamp: 6 }),
        Err(TaskError::Storage)
    );
}

#[test]
fn removing_a_missing_task_succeeds_and_changes_nothing() {
    let mut db = three_tasks();
    db.add_subtask(1, "s".to_string(), None).unwrap();
    db.finish_task_at(3, 50).unwrap();
    let before = (db.get_tasks(None), db.get_subtasks(1), db.get_finished(10));
    assert_eq!(db.remove_task(9), Ok(0));
    assert_eq!(db.remove_task(3), Ok(0));
    assert_eq!((db.get_tasks(None), db.get_subtasks(1), db.get_finished(10)), before);
    assert_eq!(db.add_task(task("next", None, 5)), Ok(3));
}

#[test]
fn removing_a_task_takes_that_task_out() {
    let mut db = three_tasks();
    db.add_subtask(2, "stays".to_string(), None).unwrap();
    assert_eq!(db.remove_task(2), Ok(1));
    assert_eq!(ids(&db), vec![1, 3]);
    assert_eq!(db.get_task(2), Ok(None));
    assert_eq!(db.remove_task(2), Ok(0));
    let (_, subtasks, _, _, _, _) = db.into_tables();
    assert_eq!(subtasks.len(), 1);
    assert_eq!(subtasks[0].task_id, 2);
}

#[test]
fn next_id_follows_the_largest_id_in_use() {
    let mut db = three_tasks();
    assert_eq!(db.remove_task(3), Ok(1));
    assert_eq!(db.add_task(task("d", None, 5)), Ok(3));
    assert_eq!(db.remove_task(1), Ok(1));
    assert_eq!(db.add_task(task("e", None, 5)), Ok(4));
    assert_eq!(db.remove_task(4), Ok(1));
    assert_eq!(db.remove_task(3), Ok(1));
    assert_eq!(db.add_task(task("f", None, 5)), Ok(3));
    assert_eq!(db.remove_task(2), Ok(1));
    assert_eq!(db.remove_task(3), Ok(1));
    assert_eq!(db.add_task(task("g", None, 5)), Ok(1));
}

#[test]
fn reset_sets_a_counter_back_to_the_largest_id() {
    let t = |id: i32| Task { id, what: "t".to_string(), link: None, priority: 5 };
    let s = |id: i32| SubTask { id, what: "s".to_string(), link: None, task_id: 1, subtask_rank: 1 };
    let mut db =
        TaskStore::from_tables(vec![t(1), t(4)], vec![s(2)], vec![], 9, 7, 0).unwrap();
    assert_eq!(db.try_reset_id("tasks"), Ok(()));
    let (tasks, subtasks, histories, task_seq, subtask_seq, history_seq) = db.into_tables();
    assert_eq!((task_seq, subtask_seq, history_seq), (4, 7, 0));
    let mut db =
        TaskStore::from_tables(tasks, subtasks, histories, 9, subtask_seq, history_seq).unwrap();
    assert_eq!(db.try_reset_id("subtasks"), Ok(()));
    let (_, _, _, task_seq, subtask_seq, _) = db.into_tables();
    assert_eq!((task_seq, subtask_seq), (9, 2));
    let mut empty = TaskStore::from_tables(vec![], vec![], vec![], 5, 5, 5).unwrap();
    assert_eq!(empty.try_reset_id("tasks"), Ok(()));
    assert_eq!(empty.add_task(task("first", None, 5)), Ok(1));
    assert_eq!(empty.insert_subtask(NewSubTask {
        what: "s".to_string(),
        link: None,
        task_id: 1,
        subtask_rank: 1
    }), Ok(6));
}

#[test]
fn removing_a_subtask_leaves_the_other_ranks() {
    let mut db = three_tasks();
    for what in ["one", "two", "three"] {
        db.add_subtask(1, what.to_string(), None).unwrap();
    }
    db.add_subtask(2, "else".to_string(), None).unwrap();
    assert_eq!(db.remove_subtask(1, 2), Ok(1));
    let left: Vec<(i32, i32)> =
        db.get_subtasks(1).unwrap().iter().map(|s| (s.id, s.subtask_rank)).collect();
    assert_eq!(left, vec![(1, 1), (3, 3)]);
    assert_eq!(db.get_subtasks(2).unwrap().len(), 1);
    assert_eq!(db.remove_subtask(1, 2), Ok(0));
    assert_eq!(db.remove_subtask(8, 1), Ok(0));
    // The next subtask is ranked by the number of subtasks that are left.
    db.add_subtask(1, "four".to_string(), None).unwrap();
    let left: Vec<(i32, i32)> =
        db.get_subtasks(1).unwrap().iter().map(|s| (s.id, s.subtask_rank)).collect();
    assert_eq!(left, vec![(1, 1), (3, 3), (5, 3)]);
}

#[test]
fn removing_the_last_subtask_frees_its_id() {
    let mut db = three_tasks();
    db.add_subtask(1, "one".to_string(), None).unwrap();
    db.add_subtask(1, "two".to_string(), None).unwrap();
    assert_eq!(db.remove_subtask(1, 2), Ok(1));
    db.add_subtask(3, "again".to_string(), None).unwrap();
    let listed = db.get_subtasks(3).unwrap();
    assert_eq!((listed[0].id, listed[0].subtask_rank), (2, 1));
}

#[test]
fn remove_subtask_takes_every_row_of_that_rank() {
    let parent = Task { id: 1, what: "p".to_string(), link: None, priority: 5 };
    let row = |id: i32, rank: i32| SubTask {
        id,
        what: "s".to_string(),
        link: None,
        task_id: 1,
        subtask_rank: rank,
    };
    let mut db = TaskStore::from_tables(
        vec![parent],
        vec![row(1, 1), row(2, 2), row(3, 1), row(4, 1)],
        vec![],
        1,
        4,
        0,
    )
    .unwrap();
    assert_eq!(db.remove_subtask(1, 1), Ok(3));
    let (_, subtasks, _, _, subtask_seq, _) = db.into_tables();
    assert_eq!(subtasks, vec![row(2, 2)]);
    assert_eq!(subtask_seq, 2);
}

#[test]
fn description_is_updated_in_place() {
    let mut db = three_tasks();
    assert_eq!(db.update_task_desc(2, "rewritten".to_string()), Ok(()));
    assert_eq!(
        db.get_task(2),
        Ok(Some(Task {
            id: 2,
            what: "rewritten".to_string(),
            link: Some("http://b".to_string()),
            priority: 2,
        }))
    );
    assert_eq!(db.get_task(1).unwrap().unwrap().what, "a");
    assert_eq!(db.get_finished(10), Ok(vec![]));
    let before = db.get_tasks(None);
    assert_eq!(db.update_task_desc(8, "nobody".to_string()), Ok(()));
    assert_eq!(db.get_tasks(None), before);
}

#[test]
fn priority_is_updated_in_place() {
    let mut db = three_tasks();
    assert_eq!(db.update_task_priority(3, 1), Ok(()));
    assert_eq!(
        db.get_task(3),
        Ok(Some(Task { id: 3, what: "c".to_string(), link: None, priority: 1 }))
    );
    assert_eq!(db.get_task(2).unwrap().unwrap().priority, 2);
    let before = db.get_tasks(None);
    assert_eq!(db.update_task_priority(8, 1), Ok(()));
    assert_eq!(db.get_tasks(None), before);
}

#[test]
fn subtasks_change_hands_and_keep_their_ranks() {
    let mut db = three_tasks();
    db.add_subtask(1, "one".to_string(), None).unwrap();
    db.add_subtask(1, "two".to_string(), None).unwrap();
    db.add_subtask(3, "three".to_string(), None).unwrap();
    assert_eq!(db.update_subtask_belongings(1, 2), Ok(()));
    assert_eq!(db.get_subtasks(1), Ok(vec![]));
    let moved: Vec<(i32, i32, i32)> =
        db.get_subtasks(2).unwrap().iter().map(|s| (s.id, s.task_id, s.subtask_rank)).collect();
    assert_eq!(moved, vec![(1, 2, 1), (2, 2, 2)]);
    assert_eq!(db.get_subtasks(3).unwrap().len(), 1);
    assert_eq!(db.update_subtask_belongings(8, 9), Ok(()));
    assert_eq!(db.get_subtasks(2).unwrap().len(), 2);
}

#[test]
fn search_reads_percent_and_underscore_as_wildcards() {
    let mut db = TaskStore::new();
    for what in ["aria", "yokohama kaidashi kikou", "Aria the animation", "100% done", "ab"] {
        db.add_task(task(what, None, 5)).unwrap();
    }
    let found = |pattern: &str| -> Vec<i32> {
        db.get_tasks(Some(pattern.to_string())).unwrap().iter().map(|t| t.id).collect()
    };
    assert_eq!(found("kaidashi"), vec![2]);
    assert_eq!(found("aria"), vec![1]);
    assert_eq!(found("Aria"), vec![3]);
    assert_eq!(found("ria"), vec![1, 3]);
    assert_eq!(found(""), vec![1, 2, 3, 4, 5]);
    assert_eq!(found("a_i"), vec![1, 3]);
    assert_eq!(found("a%k"), vec![2]);
    assert_eq!(found("%"), vec![1, 2, 3, 4, 5]);
    assert_eq!(found("___"), vec![1, 2, 3, 4]);
    assert_eq!(found("0% d"), vec![4]);
    assert_eq!(found("k_k_u"), vec![2]);
    assert_eq!(found("zzz"), Vec::<i32>::new());
}

#[test]
fn finished_within_takes_the_start_and_leaves_the_end() {
    let mut db = TaskStore::new();
    for (what, at) in [("early", 99), ("start", 100), ("middle", 150), ("end", 200), ("late", 201)] {
        let id = db.add_task(task(what, None, 5)).unwrap();
        db.finish_task_at(id, at).unwrap();
    }
    let within = |start: u32, end: u32| -> Vec<String> {
        db.get_finished_within(start, end).unwrap().into_iter().map(|h| h.what).collect()
    };
    assert_eq!(within(100, 200), vec!["middle", "start"]);
    assert_eq!(within(100, 201), vec!["end", "middle", "start"]);
    assert_eq!(within(101, 200), vec!["middle"]);
    assert_eq!(within(0, u32::MAX), vec!["late", "end", "middle", "start", "early"]);
    assert_eq!(within(200, 200), Vec::<String>::new());
    assert_eq!(within(200, 100), Vec::<String>::new());
    assert_eq!(within(3_000_000_000, 4_000_000_000), Vec::<String>::new());
}

#[test]
fn finished_lists_the_last_ones_first() {
    let mut db = TaskStore::new();
    for (what, at) in [("first", 10), ("third", 30), ("second", 20), ("also third", 30)] {
        let id = db.add_task(task(what, None, 5)).unwrap();
        db.finish_task_at(id, at).unwrap();
    }
    let last = |n: u32| -> Vec<String> {
        db.get_finished(n).unwrap().into_iter().map(|h| h.what).collect()
    };
    assert_eq!(last(0), Vec::<String>::new());
    assert_eq!(last(1), vec!["third"]);
    assert_eq!(last(2), vec!["third", "also third"]);
    assert_eq!(last(3), vec!["third", "also third", "second"]);
    assert_eq!(last(4), vec!["third", "also third", "second", "first"]);
    assert_eq!(last(100), vec!["third", "also third", "second", "first"]);
}

#[test]
fn tidy_counts_the_tasks_from_one_and_takes_the_subtasks_along() {
    let mut db = TaskStore::new();
    for what in ["a", "b", "c", "d"] {
        db.add_task(task(what, None, 5)).unwrap();
    }
    db.add_subtask(3, "of c".to_string(), None).unwrap();
    db.add_subtask(4, "of d".to_string(), None).unwrap();
    db.add_subtask(3, "of c too".to_string(), None).unwrap();
    db.add_subtask(1, "of a".to_string(), None).unwrap();
    db.finish_task_at(2, 10).unwrap();
    assert_eq!(db.tidy(), Ok(()));
    let tasks: Vec<(i32, String)> =
        db.get_tasks(None).unwrap().into_iter().map(|t| (t.id, t.what)).collect();
    assert_eq!(
        tasks,
        vec![(1, "a".to_string()), (2, "c".to_string()), (3, "d".to_string())]
    );
    let of = |id: i32| -> Vec<(String, i32)> {
        db.get_subtasks(id).unwrap().into_iter().map(|s| (s.what, s.subtask_rank)).collect()
    };
    assert_eq!(of(1), vec![("of a".to_string(), 1)]);
    assert_eq!(of(2), vec![("of c".to_string(), 1), ("of c too".to_string(), 2)]);
    assert_eq!(of(3), vec![("of d".to_string(), 1)]);
    assert_eq!(db.get_finished(10).unwrap().len(), 1);
    assert_eq!(db.add_task(task("e", None, 5)), Ok(4));
}

#[test]
fn tidy_of_an_empty_store_changes_nothing() {
    let mut db = TaskStore::new();
    assert_eq!(db.tidy(), Ok(()));
    assert_eq!(db.get_tasks(None), Ok(vec![]));
    assert_eq!(db.add_task(task("a", None, 5)), Ok(1));
}

#[test]
fn note_goes_straight_to_the_history() {
    let mut db = three_tasks();
    assert_eq!(db.note(task("done already", Some("l"), 5)), Ok(()));
    assert_eq!(ids(&db), vec![1, 2, 3]);
    let records = db.get_finished(10).unwrap();
    assert_eq!(records.len(), 1);
    assert_eq!(records[0].what, "done already");
    assert_eq!(records[0].link, Some("l".to_string()));
    assert_eq!(db.add_task(task("next", None, 5)), Ok(4));
}

#[test]
fn tables_that_are_out_of_order_are_refused() {
    let t = |id: i32| Task { id, what: "t".to_string(), link: None, priority: 5 };
    let s = |id: i32| SubTask { id, what: "s".to_string(), link: None, task_id: 1, subtask_rank: 1 };
    let h = |id: i32| History { id, what: "h".to_string(), link: None, finish_timestamp: 1 };
    let refused = |r: Result<TaskStore, TaskError>| matches!(r, Err(TaskError::Storage));
    assert!(refused(TaskStore::from_tables(vec![t(2), t(1)], vec![], vec![], 2, 0, 0)));
    assert!(refused(TaskStore::from_tables(vec![t(1), t(1)], vec![], vec![], 2, 0, 0)));
    assert!(refused(TaskStore::from_tables(vec![t(1), t(3)], vec![], vec![], 2, 0, 0)));
    assert!(refused(TaskStore::from_tables(vec![t(0), t(1)], vec![], vec![], 2, 0, 0)));
    assert!(refused(TaskStore::from_tables(vec![], vec![], vec![], -1, 0, 0)));
    assert!(refused(TaskStore::from_tables(vec![t(1)], vec![s(1), s(3), s(2)], vec![], 1, 3, 0)));
    assert!(refused(TaskStore::from_tables(vec![t(1)], vec![], vec![h(2)], 1, 0, 1)));
    assert!(TaskStore::from_tables(vec![t(1), t(3)], vec![s(2)], vec![h(1), h(2)], 3, 2, 5).is_ok());
}

#[test]
fn tables_come_out_as_they_went_in() {
    let tasks = vec![
        Task { id: 2, what: "t".to_string(), link: Some("l".to_string()), priority: 1 },
        Task { id: 5, what: "u".to_string(), link: None, priority: 8 },
    ];
    let subtasks =
        vec![SubTask { id: 1, what: "s".to_string(), link: None, task_id: 5, subtask_rank: 1 }];
    let histories =
        vec![History { id: 3, what: "h".to_string(), link: None, finish_timestamp: 77 }];
    let db =
        TaskStore::from_tables(tasks.clone(), subtasks.clone(), histories.clone(), 6, 1, 4).unwrap();
    assert_eq!(db.get_tasks(None), Ok(tasks.clone()));
    assert_eq!(db.into_tables(), (tasks, subtasks, histories, 6, 1, 4));
}

#[test]
fn tidy_is_removing_every_task_and_adding_each_again() {
    let build = || {
        let mut db = TaskStore::new();
        for what in ["a", "b", "c", "d", "e"] {
            db.add_task(task(what, Some(what), 3)).unwrap();
        }
        for owner in [5, 2, 5, 1, 4, 2] {
            db.add_subtask(owner, format!("of {}", owner), None).unwrap();
        }
        db.insert_subtask(NewSubTask {
            what: "loose".to_string(),
            link: None,
            task_id: 3,
            subtask_rank: 1,
        })
        .unwrap();
        db.remove_task(3).unwrap();
        db.finish_task_at(1, 9).unwrap();
        db
    };
    let mut tidied = build();
    assert_eq!(tidied.tidy(), Ok(()));

    let mut again = build();
    let tasks = again.get_tasks(None).unwrap();
    for t in tasks.iter() {
        again.remove_task(t.id).unwrap();
    }
    for t in tasks {
        let new_task_id =
            again.add_task(NewTask { what: t.what, link: t.link, priority: t.priority }).unwrap();
        again.update_subtask_belongings(t.id, new_task_id).unwrap();
    }
    assert_eq!(tidied.into_tables(), again.into_tables());
}

#[test]
fn tidy_without_tasks_leaves_the_counter() {
    let mut db = TaskStore::from_tables(vec![], vec![], vec![], 4, 0, 0).unwrap();
    assert_eq!(db.tidy(), Ok(()));
    assert_eq!(db.add_task(task("a", None, 5)), Ok(5));
}

use task_tracker::models::{History, NewTask, SubTask, Task};

#[test]
fn task_clone_keeps_every_field() {
    let task = Task { id: 3, what: String::from("aria"), link: None, priority: 5 };
    let copy = task.clone();
    assert_eq!(copy, task);
}

#[test]
fn new_task_clone_keeps_every_field() {
    let task = NewTask { what: String::from("aria"), link: Some(String::from("l")), priority: 2 };
    assert_eq!(task.clone(), task);
}

#[test]
fn subtask_clone_keeps_every_field() {
    let subtask = SubTask {
        id: 4,
        what: String::from("read"),
        link: Some(String::from("http://x")),
        task_id: 2,
        subtask_rank: 3,
    };
    assert_eq!(subtask.clone(), subtask);
}

#[test]
fn history_clone_keeps_every_field() {
    let record = History { id: 1, what: String::from("done"), link: None, finish_timestamp: 1431648000 };
    assert_eq!(record.clone(), record);
}

#[test]
fn new_task_takes_the_default_priority() {
    let plain = NewTask::new("aria".to_string(), None, None);
    assert_eq!(plain, NewTask { what: "aria".to_string(), link: None, priority: 5 });
    assert_eq!(task_tracker::models::DEFAULT_PRIORITY, 5);
    let urgent = NewTask::new("aria".to_string(), Some("l".to_string()), Some(9));
    assert_eq!(
        urgent,
        NewTask { what: "aria".to_string(), link: Some("l".to_string()), priority: 9 }
    );
    assert_eq!(NewTask::new(String::new(), None, Some(0)).priority, 0);
    assert_eq!(NewTask::new(String::new(), None, Some(u32::MAX)).priority, i32::MAX);
}

use task_tracker::models::{NewTask, Task};
use task_tracker::taskdb::{TaskError, TaskStore};

fn add_task(db: &mut TaskStore, what: &str, link: Option<&str>) -> i32 {
    db.add_task(NewTask { what: what.to_string(), link: link.map(|l| l.to_string()), priority: 5 })
        .unwrap()
}

fn list_tasks_contains(db: &TaskStore, pattern: &str) {
    let lines: Vec<String> = db.get_tasks(None).unwrap().iter().map(|t| t.to_line()).collect();
    assert!(lines.iter().any(|line| line.contains(pattern)));
}

fn finish_task(db: &mut TaskStore, id: i32, success: bool) {
    let finished = db.finish_task(id);
    if success {
        assert_eq!(finished, Ok(()));
    } else {
        assert_eq!(finished, Err(TaskError::NotFound));
    }
}

#[test]
fn cli_list() {
    let mut db = TaskStore::new();
    add_task(&mut db, "aria", None);
    list_tasks_contains(&db, "aria");
    add_task(&mut db, "yokohama kaidashi kikou", Some("test"));
    list_tasks_contains(&db, "aria");
    list_tasks_contains(&db, "kaidashi");
    list_tasks_contains(&db, "test");
    let second = Task {
        id: 2,
        what: "yokohama kaidashi kikou".to_string(),
        link: Some("test".to_string()),
        priority: 5,
    };
    let first = Task { id: 1, what: "aria".to_string(), link: None, priority: 5 };
    assert_eq!(db.get_tasks(Some("kaidashi".to_string())).unwrap(), vec![second.clone()]);
    assert_eq!(db.get_tasks(None).unwrap(), vec![first, second]);
    finish_task(&mut db, 1, true);
    finish_task(&mut db, 2, true);
}

#[test]
fn cli_tidy() {
    let mut db = TaskStore::new();
    add_task(&mut db, "a", None);
    add_task(&mut db, "b", None);
    add_task(&mut db, "c", None);
    finish_task(&mut db, 2, true);
    let left: Vec<i32> = db.get_tasks(None).unwrap().iter().map(|t| t.id).collect();
    assert_eq!(left, vec![1, 3]);
    assert_eq!(db.get_finished(10).unwrap().len(), 1);
    assert_eq!(db.get_finished(10).unwrap()[0].what, "b");
    assert_eq!(db.tidy(), Ok(()));
    let tasks = db.get_tasks(None).unwrap();
    assert_eq!(tasks.len(), 2);
    assert_eq!((tasks[0].id, tasks[0].what.as_str()), (1, "a"));
    assert_eq!((tasks[1].id, tasks[1].what.as_str()), (2, "c"));
    finish_task(&mut db, 3, false);
    finish_task(&mut db, 1, true);
    finish_task(&mut db, 2, true);
}

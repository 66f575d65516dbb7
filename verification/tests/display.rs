use task_tracker::display::{
    by_priority_order, decimal_text, number_line, print_subtasks, priority_mark,
    prompt_finished_task, prompt_subtask, prompt_task,
};
use task_tracker::models::{History, SubTask, Task};

fn subtask(id: i32, what: &str, link: Option<&str>, rank: i32) -> SubTask {
    SubTask {
        id,
        what: what.to_string(),
        link: link.map(|l| l.to_string()),
        task_id: 1,
        subtask_rank: rank,
    }
}

#[test]
fn decimal_text_writes_numbers_as_std_does() {
    for n in [0i64, 1, 9, 10, 11, 99, 100, 101, 12345, -1, -10, -12345, i32::MAX as i64,
        i32::MIN as i64, i64::MAX, i64::MIN]
    {
        assert_eq!(decimal_text(n), n.to_string());
    }
    assert_eq!(decimal_text(-12), "-12");
    assert_eq!(decimal_text(i64::MIN), "-9223372036854775808");
}

#[test]
fn task_line_has_three_padded_columns() {
    let task = Task { id: 7, what: "aria".to_string(), link: None, priority: 5 };
    assert_eq!(task.to_line(), format!("{0: <10} {1: <50} {2: <10}", 7, "aria", ""));
    assert_eq!(
        task.to_line(),
        "7          aria                                                         "
    );
    let linked = Task {
        id: -3,
        what: "yokohama kaidashi kikou".to_string(),
        link: Some("test".to_string()),
        priority: 5,
    };
    assert_eq!(
        linked.to_line(),
        format!("{0: <10} {1: <50} {2: <10}", -3, "yokohama kaidashi kikou", "test")
    );
}

#[test]
fn columns_that_are_too_long_are_not_cut() {
    let what = "x".repeat(60);
    let link = "http://example.org/a/long/link";
    let task = Task { id: 1234567890, what: what.clone(), link: Some(link.to_string()), priority: 5 };
    assert_eq!(task.to_line(), format!("{0: <10} {1: <50} {2: <10}", 1234567890, what, link));
    assert_eq!(task.to_line(), format!("1234567890 {} {}", what, link));
}

#[test]
fn padding_counts_characters_not_bytes() {
    let task = Task { id: 1, what: "caf\u{e9} \u{1F600}".to_string(), link: None, priority: 5 };
    assert_eq!(task.to_line(), format!("{0: <10} {1: <50} {2: <10}", 1, "caf\u{e9} \u{1F600}", ""));
    assert_eq!(task.to_line().chars().count(), 10 + 1 + 50 + 1 + 10);
}

#[test]
fn subtask_line_shows_the_rank() {
    let row = subtask(12, "read", Some("l"), 3);
    assert_eq!(row.to_line(), format!("{0: <10} {1: <50} {2: <10}", 3, "read", "l"));
}

#[test]
fn history_line_has_day_description_and_link() {
    let record =
        History { id: 1, what: "done".to_string(), link: Some("l".to_string()), finish_timestamp: 0 };
    assert_eq!(
        record.to_line_dated("2015-05-15"),
        format!("{: <15} {: <50} {}", "2015-05-15", "done", "l")
    );
    let bare = History { id: 1, what: "done".to_string(), link: None, finish_timestamp: 0 };
    assert_eq!(
        bare.to_line_dated("2015-05-15"),
        format!("{: <15} {: <50} {}", "2015-05-15", "done", "")
    );
}

#[test]
fn history_line_shows_the_day_in_local_time() {
    let at: i32 = 1431691200;
    let record = History { id: 1, what: "done".to_string(), link: None, finish_timestamp: at };
    let day = chrono::DateTime::from_timestamp(at as i64, 0)
        .unwrap()
        .with_timezone(&chrono::Local)
        .format("%Y-%m-%d")
        .to_string();
    assert_eq!(record.to_line(), format!("{: <15} {: <50} {}", day, "done", ""));
    let line = record.to_line();
    let shown: Vec<char> = line.chars().take(10).collect();
    assert!(shown.iter().enumerate().all(|(i, c)| if i == 4 || i == 7 {
        *c == '-'
    } else {
        c.is_ascii_digit()
    }));
    assert!(line.starts_with("2015-05-1"));
}

#[test]
fn print_subtasks_indents_each_line() {
    let rows = vec![subtask(1, "first", None, 1), subtask(22, "second", Some("http://x"), 2)];
    assert_eq!(
        print_subtasks(rows.clone(), 0),
        vec![
            format!("{0}{1: <10} {2: <30} {3: <10}", "", 1, "first", ""),
            format!("{0}{1: <10} {2: <30} {3: <10}", "", 22, "second", "http://x"),
        ]
    );
    assert_eq!(
        print_subtasks(rows.clone(), 2),
        vec![
            format!("{0}{1: <10} {2: <30} {3: <10}", "    ", 1, "first", ""),
            format!("{0}{1: <10} {2: <30} {3: <10}", "    ", 22, "second", "http://x"),
        ]
    );
    assert_eq!(
        print_subtasks(rows, 1)[0],
        "  1          first                                    "
    );
    assert_eq!(print_subtasks(vec![], 3), Vec::<String>::new());
}

#[test]
fn numbered_line_puts_the_number_in_front() {
    assert_eq!(number_line(0, "x"), format!("{: <10} {}", 0, "x"));
    assert_eq!(number_line(41, "a line"), "41         a line");
    assert_eq!(number_line(usize::MAX, ""), format!("{: <10} {}", usize::MAX, ""));
}

#[test]
fn headings_name_the_columns() {
    assert_eq!(
        prompt_task(),
        format!("{0: <10} {1: <50} {2: <10}", "task_id", "description", "link(optional)")
    );
    assert_eq!(
        prompt_subtask(12),
        (
            "subtask of 12".to_string(),
            format!("{0: <10} {1: <50} {2: <10}", "subtask_id", "description", "link(optional)")
        )
    );
    assert_eq!(prompt_subtask(-4).0, format!("subtask of {}", -4));
    assert_eq!(
        prompt_finished_task(),
        format!("{: <10} {: <15} {: <50} {}", "task_id", "date", "description", "link(optional)")
    );
}

#[test]
fn priority_marks_fall_into_four_ranges() {
    let cold = "\u{1F976}";
    let clown = "\u{1F921}";
    let sweat = "\u{1F605}";
    let hot = "\u{1F975}";
    for (priority, mark) in [
        (0, cold),
        (3, cold),
        (4, clown),
        (5, clown),
        (6, clown),
        (7, sweat),
        (8, sweat),
        (9, hot),
        (100, hot),
        (i32::MAX, hot),
        (-1, hot),
        (i32::MIN, hot),
    ] {
        assert_eq!(priority_mark(priority), mark);
    }
}

#[test]
fn tasks_are_listed_by_priority_and_keep_their_order_within_one() {
    let task = |id: i32, priority: i32| Task { id, what: "t".to_string(), link: None, priority };
    let listed = by_priority_order(vec![task(1, 5), task(2, 1), task(3, 5), task(4, 9), task(5, 1)]);
    let order: Vec<i32> = listed.iter().map(|t| t.id).collect();
    assert_eq!(order, vec![2, 5, 1, 3, 4]);
    assert_eq!(by_priority_order(vec![]), vec![]);
}

use task_manager::codec::{parse_tasks, serialize_tasks};
use task_manager::task::{add_task, mark_completed, today_string, Task, TaskStatus};

fn task(status: TaskStatus, description: &str, date: &str) -> Task {
    Task {
        description: description.to_string(),
        status,
        date: date.to_string(),
    }
}

#[test]
fn serialize_writes_one_line_per_task() {
    let tasks = vec![
        task(TaskStatus::Pending, "Buy milk", "2025-11-14"),
        task(TaskStatus::Completed, "Pay rent", "2025-11-01"),
    ];
    assert_eq!(
        serialize_tasks(&tasks),
        "Pending|Buy milk|2025-11-14\nCompleted|Pay rent|2025-11-01\n"
    );
    assert_eq!(serialize_tasks(&Vec::new()), "");
}

#[test]
fn round_trip_keeps_collection() {
    let tasks = vec![
        task(TaskStatus::Completed, "Plan weekend trip", "2025-11-14"),
        task(TaskStatus::Pending, "", ""),
        task(TaskStatus::Pending, "Ünïcode täsk", "someday"),
    ];
    assert_eq!(parse_tasks(&serialize_tasks(&tasks)), tasks);
}

#[test]
fn malformed_lines_are_skipped() {
    let text = "Pending|a|d1\n\nonlyone\ntwo|fields\nPending|x|y|z\nCompleted|b|d2\n";
    assert_eq!(
        parse_tasks(text),
        vec![
            task(TaskStatus::Pending, "a", "d1"),
            task(TaskStatus::Completed, "b", "d2"),
        ]
    );
}

#[test]
fn unknown_status_loads_as_pending() {
    let text = "Done|a|d\ncompleted|b|d\nCompleted|c|d\n";
    assert_eq!(
        parse_tasks(text),
        vec![
            task(TaskStatus::Pending, "a", "d"),
            task(TaskStatus::Pending, "b", "d"),
            task(TaskStatus::Completed, "c", "d"),
        ]
    );
}

#[test]
fn crlf_and_missing_final_newline() {
    let text = "Pending|a|d1\r\nCompleted|b|d2";
    assert_eq!(
        parse_tasks(text),
        vec![
            task(TaskStatus::Pending, "a", "d1"),
            task(TaskStatus::Completed, "b", "d2"),
        ]
    );
    assert_eq!(parse_tasks(""), Vec::<Task>::new());
}

#[test]
fn add_mark_save_load_scenario() {
    let mut tasks: Vec<Task> = Vec::new();
    add_task(&mut tasks, "Buy milk".to_string(), today_string());
    assert_eq!(tasks, vec![task(TaskStatus::Pending, "Buy milk", "2025-11-14")]);
    assert_eq!(mark_completed(&mut tasks, 1), Ok(()));
    assert_eq!(tasks[0].status, TaskStatus::Completed);
    let loaded = parse_tasks(&serialize_tasks(&tasks));
    assert_eq!(loaded, vec![task(TaskStatus::Completed, "Buy milk", "2025-11-14")]);
}

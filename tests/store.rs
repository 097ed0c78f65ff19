use task_manager::task::{
    add_task, clear_completed, delete_task, list_tasks, mark_completed, search_tasks,
    today_string, Task, TaskError, TaskFilter, TaskStatus,
};

fn task(status: TaskStatus, description: &str) -> Task {
    Task {
        description: description.to_string(),
        status,
        date: "2025-11-14".to_string(),
    }
}

fn sample() -> Vec<Task> {
    vec![
        task(TaskStatus::Pending, "Buy milk"),
        task(TaskStatus::Completed, "Plan weekend trip"),
        task(TaskStatus::Pending, "Call plumber"),
        task(TaskStatus::Completed, "Pay rent"),
    ]
}

#[test]
fn status_names_read_back() {
    assert_eq!(TaskStatus::from_str("Completed"), TaskStatus::Completed);
    assert_eq!(TaskStatus::from_str("Pending"), TaskStatus::Pending);
    assert_eq!(TaskStatus::Pending.as_str(), "Pending");
    assert_eq!(TaskStatus::Completed.as_str(), "Completed");
}

#[test]
fn unknown_status_names_are_pending() {
    assert_eq!(TaskStatus::from_str("completed"), TaskStatus::Pending);
    assert_eq!(TaskStatus::from_str("Done"), TaskStatus::Pending);
    assert_eq!(TaskStatus::from_str(""), TaskStatus::Pending);
    assert_eq!(TaskStatus::from_str("Completed "), TaskStatus::Pending);
}

#[test]
fn today_is_the_fixed_date() {
    assert_eq!(today_string(), "2025-11-14");
}

#[test]
fn add_appends_pending_task() {
    let mut tasks = sample();
    add_task(&mut tasks, String::new(), today_string());
    assert_eq!(tasks.len(), 5);
    assert_eq!(tasks[4], task(TaskStatus::Pending, ""));
    assert_eq!(tasks[0], task(TaskStatus::Pending, "Buy milk"));
}

#[test]
fn mark_completed_bounds() {
    let mut tasks = sample();
    assert_eq!(mark_completed(&mut tasks, 0), Err(TaskError::InvalidIndex));
    assert_eq!(mark_completed(&mut tasks, 5), Err(TaskError::InvalidIndex));
    assert_eq!(tasks, sample());
    assert_eq!(mark_completed(&mut tasks, 1), Ok(()));
    assert_eq!(tasks[0].status, TaskStatus::Completed);
    assert_eq!(tasks[0].description, "Buy milk");
    assert_eq!(mark_completed(&mut tasks, 4), Ok(()));
    assert_eq!(tasks[3].status, TaskStatus::Completed);
    assert_eq!(tasks[2].status, TaskStatus::Pending);
}

#[test]
fn delete_bounds() {
    let mut tasks = sample();
    assert_eq!(delete_task(&mut tasks, 0), Err(TaskError::InvalidIndex));
    assert_eq!(delete_task(&mut tasks, 5), Err(TaskError::InvalidIndex));
    assert_eq!(tasks, sample());
    assert_eq!(delete_task(&mut tasks, 4), Ok(()));
    assert_eq!(tasks.len(), 3);
    assert_eq!(delete_task(&mut tasks, 1), Ok(()));
    assert_eq!(tasks[0].description, "Plan weekend trip");
    assert_eq!(tasks[1].description, "Call plumber");
}

#[test]
fn mark_and_delete_on_empty_fail() {
    let mut tasks: Vec<Task> = Vec::new();
    assert_eq!(mark_completed(&mut tasks, 1), Err(TaskError::InvalidIndex));
    assert_eq!(delete_task(&mut tasks, 1), Err(TaskError::InvalidIndex));
    assert!(tasks.is_empty());
}

#[test]
fn listing_keeps_whole_collection_positions() {
    let tasks = sample();
    assert_eq!(list_tasks(&tasks, TaskFilter::Pending), vec![1, 3]);
    assert_eq!(list_tasks(&tasks, TaskFilter::Completed), vec![2, 4]);
    assert_eq!(list_tasks(&tasks, TaskFilter::All), vec![1, 2, 3, 4]);
    assert_eq!(list_tasks(&Vec::new(), TaskFilter::All), Vec::<usize>::new());
}

#[test]
fn search_ignores_case() {
    let tasks = sample();
    assert_eq!(search_tasks(&tasks, "PLAN"), vec![2]);
    assert_eq!(search_tasks(&tasks, "pl"), vec![2, 3]);
    assert_eq!(search_tasks(&tasks, "xyz"), Vec::<usize>::new());
    assert_eq!(search_tasks(&tasks, "CALL PLUMBER"), vec![3]);
}

#[test]
fn empty_search_matches_everything() {
    let tasks = sample();
    assert_eq!(search_tasks(&tasks, ""), vec![1, 2, 3, 4]);
}

#[test]
fn clear_completed_keeps_order_and_is_idempotent() {
    let mut tasks = sample();
    clear_completed(&mut tasks);
    assert_eq!(
        tasks,
        vec![
            task(TaskStatus::Pending, "Buy milk"),
            task(TaskStatus::Pending, "Call plumber"),
        ]
    );
    let once = tasks.clone();
    clear_completed(&mut tasks);
    assert_eq!(tasks, once);
}

#[test]
fn clear_completed_without_completed_is_noop() {
    let mut tasks = vec![task(TaskStatus::Pending, "a"), task(TaskStatus::Pending, "b")];
    clear_completed(&mut tasks);
    assert_eq!(tasks.len(), 2);
}

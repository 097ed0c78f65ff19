use task_manager::session::{parse_command, parse_position, task_line, Command};
use task_manager::task::{Task, TaskStatus};
use task_manager::text::trim_text;

#[test]
fn commands_by_number() {
    assert_eq!(parse_command("1\n"), Some(Command::Add));
    assert_eq!(parse_command(" 2 "), Some(Command::ListAll));
    assert_eq!(parse_command("3"), Some(Command::ListPending));
    assert_eq!(parse_command("4"), Some(Command::ListCompleted));
    assert_eq!(parse_command("5"), Some(Command::MarkCompleted));
    assert_eq!(parse_command("6"), Some(Command::Search));
    assert_eq!(parse_command("7"), Some(Command::Delete));
    assert_eq!(parse_command("8"), Some(Command::ClearCompleted));
    assert_eq!(parse_command("9\r\n"), Some(Command::Quit));
}

#[test]
fn unknown_commands() {
    assert_eq!(parse_command("0"), None);
    assert_eq!(parse_command("10"), None);
    assert_eq!(parse_command(""), None);
    assert_eq!(parse_command("add"), None);
}

#[test]
fn positions_parse_like_usize() {
    assert_eq!(parse_position("1\n"), Some(1));
    assert_eq!(parse_position("  42  "), Some(42));
    assert_eq!(parse_position("+3"), Some(3));
    assert_eq!(parse_position("0"), Some(0));
    assert_eq!(parse_position("007"), Some(7));
    assert_eq!(parse_position("abc"), None);
    assert_eq!(parse_position("-1"), None);
    assert_eq!(parse_position("+"), None);
    assert_eq!(parse_position(""), None);
    assert_eq!(parse_position("1 2"), None);
    assert_eq!(parse_position(&usize::MAX.to_string()), Some(usize::MAX));
    let too_big = format!("{}0", usize::MAX);
    assert_eq!(parse_position(&too_big), None);
}

#[test]
fn task_line_format() {
    let t = Task {
        description: "Buy milk".to_string(),
        status: TaskStatus::Pending,
        date: "2025-11-14".to_string(),
    };
    assert_eq!(task_line(3, &t), "3. [Pending] Buy milk (2025-11-14)");
    let d = Task {
        description: "x".to_string(),
        status: TaskStatus::Completed,
        date: "d".to_string(),
    };
    assert_eq!(task_line(120, &d), "120. [Completed] x (d)");
    assert_eq!(task_line(0, &d), "0. [Completed] x (d)");
}

#[test]
fn trimming_white_space() {
    assert_eq!(trim_text("  Buy milk \t\n"), "Buy milk");
    assert_eq!(trim_text("\u{3000}x\u{a0}"), "x");
    assert_eq!(trim_text("   "), "");
}

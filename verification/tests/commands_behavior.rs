use todo_list::commands::Outcome;
use todo_list::commands::added_message;
use todo_list::commands::invalid_id_message;
use todo_list::commands::list_header_message;
use todo_list::commands::no_tasks_message;
use todo_list::commands::not_found_message;
use todo_list::commands::removed_message;
use todo_list::commands::render_lines;
use todo_list::commands::run_command;
use todo_list::commands::task_line;
use todo_list::commands::unknown_command_message;
use todo_list::task::Task;
use todo_list::task::add_task;
use todo_list::task::max_id;
use todo_list::task::next_id;
use todo_list::task::remove_task;

fn args(words: &[&str]) -> Vec<String> {
    words.iter().map(|w| w.to_string()).collect()
}

fn ids(tasks: &Vec<Task>) -> Vec<u32> {
    tasks.iter().map(|t| t.id).collect()
}

#[test]
fn adds_from_empty_assign_sequential_ids() {
    let mut tasks: Vec<Task> = Vec::new();
    add_task(&mut tasks, "first".to_string());
    add_task(&mut tasks, "second".to_string());
    add_task(&mut tasks, "third".to_string());
    assert_eq!(ids(&tasks), vec![1, 2, 3]);
    assert_eq!(tasks[2].description, "third");
}

#[test]
fn add_then_list_shows_id_and_joined_description() {
    let mut tasks: Vec<Task> = Vec::new();
    let outcome = run_command(&mut tasks, &args(&["add", "buy", "oat", "milk"]));
    assert!(matches!(outcome, Outcome::Added));
    assert!(outcome.needs_save());
    let listed = run_command(&mut tasks, &args(&["list"]));
    match listed {
        Outcome::Listed(lines) => {
            assert_eq!(lines, vec!["1: buy oat milk".to_string()]);
        },
        _ => panic!("expected a listing"),
    }
}

#[test]
fn removing_the_only_task_empties_the_collection() {
    let mut tasks: Vec<Task> = Vec::new();
    add_task(&mut tasks, "only".to_string());
    let outcome = run_command(&mut tasks, &args(&["remove", "1"]));
    assert!(matches!(outcome, Outcome::Removed));
    assert!(tasks.is_empty());
    let listed = run_command(&mut tasks, &args(&["list"]));
    assert!(matches!(listed, Outcome::NoTasks));
}

#[test]
fn removing_highest_id_frees_it_for_the_next_add() {
    let mut tasks: Vec<Task> = Vec::new();
    add_task(&mut tasks, "one".to_string());
    add_task(&mut tasks, "two".to_string());
    let removed = remove_task(&mut tasks, 2);
    assert!(removed);
    add_task(&mut tasks, "replacement".to_string());
    assert_eq!(ids(&tasks), vec![1, 2]);
    assert_eq!(tasks[1].description, "replacement");
}

#[test]
fn remove_with_non_integer_id_changes_nothing() {
    let mut tasks: Vec<Task> = Vec::new();
    add_task(&mut tasks, "keep me".to_string());
    let before = ids(&tasks);
    let outcome = run_command(&mut tasks, &args(&["remove", "abc"]));
    assert!(matches!(outcome, Outcome::InvalidId));
    assert!(!outcome.needs_save());
    assert_eq!(ids(&tasks), before);
}

#[test]
fn remove_of_absent_id_reports_not_found() {
    let mut tasks: Vec<Task> = Vec::new();
    add_task(&mut tasks, "present".to_string());
    let outcome = run_command(&mut tasks, &args(&["remove", "7"]));
    match &outcome {
        Outcome::NotFound(id) => assert_eq!(*id, 7),
        _ => panic!("expected not-found"),
    }
    assert!(!outcome.needs_save());
    assert_eq!(ids(&tasks), vec![1]);
}

#[test]
fn remove_drops_every_task_with_the_id_and_keeps_order() {
    let mut tasks = vec![
        Task { id: 3, description: "a".to_string() },
        Task { id: 1, description: "b".to_string() },
        Task { id: 8, description: "c".to_string() },
    ];
    let removed = remove_task(&mut tasks, 1);
    assert!(removed);
    assert_eq!(ids(&tasks), vec![3, 8]);
    assert_eq!(tasks[0].description, "a");
    assert_eq!(tasks[1].description, "c");
}

#[test]
fn usage_outcomes_for_malformed_invocations() {
    let mut tasks: Vec<Task> = Vec::new();
    assert!(matches!(run_command(&mut tasks, &args(&[])), Outcome::NoCommand));
    assert!(matches!(run_command(&mut tasks, &args(&["add"])), Outcome::AddUsage));
    assert!(matches!(run_command(&mut tasks, &args(&["remove"])), Outcome::RemoveUsage));
    assert!(matches!(
        run_command(&mut tasks, &args(&["remove", "1", "2"])),
        Outcome::RemoveUsage
    ));
    assert!(matches!(run_command(&mut tasks, &args(&["frobnicate"])), Outcome::Unknown));
    assert!(tasks.is_empty());
}

#[test]
fn next_id_counts_from_one_and_tops_the_maximum() {
    let empty: Vec<Task> = Vec::new();
    assert_eq!(next_id(&empty), 1);
    assert_eq!(max_id(&empty), 0);
    let tasks = vec![
        Task { id: 1, description: "a".to_string() },
        Task { id: 5, description: "b".to_string() },
    ];
    assert_eq!(max_id(&tasks), 5);
    assert_eq!(next_id(&tasks), 6);
}

#[test]
fn listing_lines_show_id_colon_description() {
    let t = Task { id: 37, description: "water plants".to_string() };
    assert_eq!(task_line(&t), "37: water plants");
    let tasks = vec![
        Task { id: 1, description: "a".to_string() },
        Task { id: 12, description: "b c".to_string() },
    ];
    let lines = render_lines(&tasks);
    assert_eq!(lines, vec!["1: a".to_string(), "12: b c".to_string()]);
}

#[test]
fn user_facing_messages_are_the_fixed_texts() {
    assert_eq!(added_message(), "Task added successfully.");
    assert_eq!(removed_message(), "Task removed successfully.");
    assert_eq!(no_tasks_message(), "No tasks found.");
    assert_eq!(list_header_message(), "Current tasks:");
    assert_eq!(not_found_message(42), "Task with id 42 not found.");
    assert_eq!(invalid_id_message(&"abc".to_string()), "Invalid task id: abc");
    assert_eq!(unknown_command_message(&"help".to_string()), "Unknown command: help");
}

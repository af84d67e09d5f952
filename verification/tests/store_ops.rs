use taskman::store::{add_task, complete_task, delete_task, remove_complete_tasks};
use taskman::task::Task;

fn sample(n: &str) -> Task {
    Task::new(
        String::from(n),
        String::from("desc of ") + n,
        String::from("2024-01-01"),
    )
}

#[test]
fn add_grows_store_in_order() {
    let mut tasks: Vec<Task> = Vec::new();
    add_task(&mut tasks, sample("a"));
    add_task(&mut tasks, sample("b"));
    add_task(&mut tasks, sample("c"));
    assert_eq!(tasks.len(), 3);
    assert_eq!(tasks[0].name, "a");
    assert_eq!(tasks[1].name, "b");
    assert_eq!(tasks[2].name, "c");
    assert!(tasks.iter().all(|t| !t.done));
}

#[test]
fn complete_sets_exactly_one_flag() {
    let mut tasks: Vec<Task> = Vec::new();
    add_task(&mut tasks, sample("first"));
    add_task(&mut tasks, sample("second"));
    let ok = complete_task(&mut tasks, 0);
    assert!(ok);
    assert!(tasks[0].done);
    assert_eq!(tasks[0].name, "first");
    assert_eq!(tasks[0].desc, "desc of first");
    assert_eq!(tasks[0].due_date, "2024-01-01");
    assert!(!tasks[1].done);
    assert_eq!(tasks[1].name, "second");
}

#[test]
fn complete_out_of_range_changes_nothing() {
    let mut tasks: Vec<Task> = Vec::new();
    add_task(&mut tasks, sample("only"));
    let ok = complete_task(&mut tasks, 1);
    assert!(!ok);
    assert_eq!(tasks.len(), 1);
    assert_eq!(tasks[0].name, "only");
    assert!(!tasks[0].done);
    let ok = complete_task(&mut tasks, 100);
    assert!(!ok);
    assert_eq!(tasks.len(), 1);
}

#[test]
fn delete_out_of_range_changes_nothing() {
    let mut tasks: Vec<Task> = Vec::new();
    add_task(&mut tasks, sample("only"));
    let ok = delete_task(&mut tasks, 1);
    assert!(!ok);
    assert_eq!(tasks.len(), 1);
    assert_eq!(tasks[0].name, "only");
}

#[test]
fn delete_shifts_later_tasks_down() {
    let mut tasks: Vec<Task> = Vec::new();
    add_task(&mut tasks, sample("a"));
    add_task(&mut tasks, sample("b"));
    add_task(&mut tasks, sample("c"));
    let ok = delete_task(&mut tasks, 0);
    assert!(ok);
    assert_eq!(tasks.len(), 2);
    assert_eq!(tasks[0].name, "b");
    assert_eq!(tasks[0].desc, "desc of b");
    assert_eq!(tasks[1].name, "c");
}

#[test]
fn purge_removes_all_and_only_done() {
    let mut tasks: Vec<Task> = Vec::new();
    add_task(&mut tasks, sample("keep1"));
    add_task(&mut tasks, sample("drop1"));
    add_task(&mut tasks, sample("keep2"));
    add_task(&mut tasks, sample("drop2"));
    complete_task(&mut tasks, 1);
    complete_task(&mut tasks, 3);
    remove_complete_tasks(&mut tasks);
    assert_eq!(tasks.len(), 2);
    assert_eq!(tasks[0].name, "keep1");
    assert_eq!(tasks[1].name, "keep2");
    // a second purge right after the first is a no-op
    remove_complete_tasks(&mut tasks);
    assert_eq!(tasks.len(), 2);
    assert_eq!(tasks[0].name, "keep1");
    assert_eq!(tasks[1].name, "keep2");
}

#[test]
fn purge_of_all_done_empties_store() {
    let mut tasks: Vec<Task> = Vec::new();
    add_task(&mut tasks, sample("x"));
    complete_task(&mut tasks, 0);
    remove_complete_tasks(&mut tasks);
    assert_eq!(tasks.len(), 0);
}

use taskman::codec::{load_tasks, save_tasks};
use taskman::input::{parse_command, select_index, trim_line, Command};
use taskman::store::{add_task, complete_task, delete_task, remove_complete_tasks};
use taskman::task::Task;

#[test]
fn menu_dispatch() {
    assert_eq!(parse_command("1"), Command::ViewTasks);
    assert_eq!(parse_command("2"), Command::AddTask);
    assert_eq!(parse_command("3"), Command::CompleteTask);
    assert_eq!(parse_command("4"), Command::DeleteTask);
    assert_eq!(parse_command(""), Command::Exit);
    assert_eq!(parse_command("5"), Command::Exit);
    assert_eq!(parse_command("q"), Command::Exit);
    assert_eq!(parse_command("12"), Command::Exit);
}

#[test]
fn lines_are_trimmed_before_interpretation() {
    assert_eq!(trim_line("  3\n"), "3");
    assert_eq!(trim_line("\t 2 \r\n"), "2");
    assert_eq!(trim_line("a b"), "a b");
    assert_eq!(trim_line("   "), "");
    assert_eq!(trim_line(""), "");
    assert_eq!(parse_command(trim_line(" 4 \n")), Command::DeleteTask);
}

#[test]
fn trimming_removes_unicode_whitespace() {
    // the same set of characters str::trim strips
    assert_eq!(trim_line("3\u{00A0}"), "3");
    assert_eq!(trim_line("\u{2003}1\u{2028}"), "1");
    assert_eq!(trim_line("\u{1680}\u{3000}x\u{0085}\u{202F}"), "x");
    assert_eq!(trim_line("\u{200B}"), "\u{200B}"); // a zero-width space is not whitespace
    assert_eq!(trim_line("a\u{00A0}b"), "a\u{00A0}b");
    assert_eq!(
        parse_command(trim_line("3\u{00A0}\n")),
        Command::CompleteTask
    );
    assert_eq!(trim_line("  x  "), "  x  ".trim());
    assert_eq!(trim_line("\u{2009}y\u{205F}"), "\u{2009}y\u{205F}".trim());
}

#[test]
fn select_index_accepts_positions_in_range() {
    assert_eq!(select_index("1", 2), Some(0));
    assert_eq!(select_index("2", 2), Some(1));
    assert_eq!(select_index("+2", 2), Some(1));
    assert_eq!(select_index("007", 10), Some(6));
}

#[test]
fn select_index_rejects_bad_input() {
    assert_eq!(select_index("0", 2), None);
    assert_eq!(select_index("3", 2), None);
    assert_eq!(select_index("-1", 2), None);
    assert_eq!(select_index("abc", 2), None);
    assert_eq!(select_index("", 2), None);
    assert_eq!(select_index("+", 2), None);
    assert_eq!(select_index("1.5", 2), None);
    assert_eq!(select_index("99999999999999999999999999999999", 2), None);
    assert_eq!(select_index("1", 0), None);
}

#[test]
fn complete_then_exit_purges_the_only_task() {
    // empty store -> add -> list of one, not done -> complete position 1 ->
    // done -> exit path: purge, save; reloading yields an empty list
    let mut tasks: Vec<Task> = Vec::new();
    add_task(
        &mut tasks,
        Task::new(
            String::from("Write report"),
            String::from("Quarterly summary"),
            String::from("2024-05-01"),
        ),
    );
    assert_eq!(tasks.len(), 1);
    assert!(!tasks[0].done);
    let idx = select_index("1", tasks.len()).expect("position 1 is valid");
    assert!(complete_task(&mut tasks, idx));
    assert!(tasks[0].done);
    remove_complete_tasks(&mut tasks);
    let doc = save_tasks(&tasks);
    let reloaded = load_tasks(&doc).expect("saved document must parse");
    assert_eq!(reloaded.len(), 0);
}

#[test]
fn delete_first_of_two_leaves_second_at_position_one() {
    let mut tasks: Vec<Task> = Vec::new();
    add_task(
        &mut tasks,
        Task::new(String::from("one"), String::from("d1"), String::from("t1")),
    );
    add_task(
        &mut tasks,
        Task::new(String::from("two"), String::from("d2"), String::from("t2")),
    );
    let idx = select_index("1", tasks.len()).expect("position 1 is valid");
    assert!(delete_task(&mut tasks, idx));
    assert_eq!(tasks.len(), 1);
    assert_eq!(tasks[0].name, "two");
    assert_eq!(tasks[0].desc, "d2");
    assert_eq!(tasks[0].due_date, "t2");
    assert_eq!(select_index("1", tasks.len()), Some(0));
}

#[test]
fn fresh_run_starts_empty_and_proceeds() {
    // with no prior document the session starts from an empty store and
    // every path still works, exit included
    let mut tasks: Vec<Task> = Vec::new();
    assert_eq!(parse_command("1"), Command::ViewTasks);
    assert_eq!(select_index("1", tasks.len()), None);
    remove_complete_tasks(&mut tasks);
    assert_eq!(save_tasks(&tasks), "[]");
}

#[test]
fn non_numeric_selection_leaves_store_unchanged() {
    // user picks "3" from the menu, then types a non-numeric line: the
    // selection is refused and the store keeps its contents
    let mut tasks: Vec<Task> = Vec::new();
    add_task(
        &mut tasks,
        Task::new(String::from("a"), String::from("b"), String::from("c")),
    );
    assert_eq!(parse_command("3"), Command::CompleteTask);
    assert_eq!(select_index("not a number", tasks.len()), None);
    assert_eq!(tasks.len(), 1);
    assert_eq!(tasks[0].name, "a");
    assert!(!tasks[0].done);
}

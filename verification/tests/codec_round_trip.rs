use taskman::codec::{load_tasks, save_tasks};
use taskman::store::complete_task;
use taskman::task::Task;

fn t(name: &str, desc: &str, due: &str) -> Task {
    Task::new(String::from(name), String::from(desc), String::from(due))
}

#[test]
fn save_empty_store_is_empty_array() {
    let tasks: Vec<Task> = Vec::new();
    assert_eq!(save_tasks(&tasks), "[]");
}

#[test]
fn save_one_task_exact_document() {
    let mut tasks: Vec<Task> = Vec::new();
    tasks.push(t("a", "b", "c"));
    assert_eq!(
        save_tasks(&tasks),
        "[{\"name\":\"a\",\"desc\":\"b\",\"due_date\":\"c\",\"done\":false}]"
    );
}

#[test]
fn save_escapes_quotes_backslashes_and_controls() {
    let mut tasks: Vec<Task> = Vec::new();
    tasks.push(t("say \"hi\"", "a\\b", "line\nbreak"));
    assert_eq!(
        save_tasks(&tasks),
        "[{\"name\":\"say \\\"hi\\\"\",\"desc\":\"a\\\\b\",\"due_date\":\"line\\u000abreak\",\"done\":false}]"
    );
}

#[test]
fn round_trip_preserves_everything() {
    let mut tasks: Vec<Task> = Vec::new();
    tasks.push(t("plain", "text", "2024-05-01"));
    tasks.push(t("quotes \"x\"", "back\\slash", "tab\there"));
    tasks.push(t("unicode \u{00e9}\u{4e16}", "", "\u{1F600}"));
    complete_task(&mut tasks, 1);
    let doc = save_tasks(&tasks);
    let back = load_tasks(&doc).expect("saved document must parse");
    assert_eq!(back.len(), tasks.len());
    for (a, b) in tasks.iter().zip(back.iter()) {
        assert_eq!(a.name, b.name);
        assert_eq!(a.desc, b.desc);
        assert_eq!(a.due_date, b.due_date);
        assert_eq!(a.done, b.done);
    }
}

#[test]
fn round_trip_of_empty_store() {
    let tasks: Vec<Task> = Vec::new();
    let doc = save_tasks(&tasks);
    let back = load_tasks(&doc).expect("saved document must parse");
    assert_eq!(back.len(), 0);
}

#[test]
fn load_exact_document() {
    let doc = "[{\"name\":\"a\",\"desc\":\"b\",\"due_date\":\"c\",\"done\":true}]";
    let tasks = load_tasks(doc).expect("well-formed document");
    assert_eq!(tasks.len(), 1);
    assert_eq!(tasks[0].name, "a");
    assert_eq!(tasks[0].desc, "b");
    assert_eq!(tasks[0].due_date, "c");
    assert!(tasks[0].done);
}

#[test]
fn load_tolerates_whitespace() {
    let doc = " [ {\"name\": \"a\", \"desc\": \"b\", \"due_date\": \"c\", \"done\": false} ,\n {\"name\":\"d\",\"desc\":\"e\",\"due_date\":\"f\",\"done\":true} ]\n";
    let tasks = load_tasks(doc).expect("well-formed document");
    assert_eq!(tasks.len(), 2);
    assert_eq!(tasks[0].name, "a");
    assert!(!tasks[0].done);
    assert_eq!(tasks[1].name, "d");
    assert!(tasks[1].done);
}

#[test]
fn load_undoes_escapes() {
    let doc = "[{\"name\":\"\\u0041\\n\\t\",\"desc\":\"\\\"q\\\"\",\"due_date\":\"a\\\\b\\/c\",\"done\":false}]";
    let tasks = load_tasks(doc).expect("well-formed document");
    assert_eq!(tasks[0].name, "A\n\t");
    assert_eq!(tasks[0].desc, "\"q\"");
    assert_eq!(tasks[0].due_date, "a\\b/c");
}

#[test]
fn load_rejects_malformed_documents() {
    assert!(load_tasks("").is_none());
    assert!(load_tasks("nonsense").is_none());
    assert!(load_tasks("[").is_none());
    assert!(load_tasks("[{]").is_none());
    assert!(load_tasks("[]x").is_none());
    assert!(load_tasks("[{\"name\":\"a\"}]").is_none());
    assert!(load_tasks("[{\"name\":\"a\",\"desc\":\"b\",\"due_date\":\"c\",\"done\":maybe}]").is_none());
    // a trailing comma has no task after it
    assert!(load_tasks("[{\"name\":\"a\",\"desc\":\"b\",\"due_date\":\"c\",\"done\":false},]").is_none());
    // a surrogate code point is not a character
    assert!(load_tasks("[{\"name\":\"\\ud800\",\"desc\":\"b\",\"due_date\":\"c\",\"done\":false}]").is_none());
    // an unescaped control character is not allowed inside a string
    assert!(load_tasks("[{\"name\":\"a\nb\",\"desc\":\"b\",\"due_date\":\"c\",\"done\":false}]").is_none());
}

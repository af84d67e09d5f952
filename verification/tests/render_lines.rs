use taskman::render::{render_task_line, render_usize};
use taskman::store::complete_task;
use taskman::task::Task;

#[test]
fn numbers_render_in_decimal() {
    assert_eq!(render_usize(0), "0");
    assert_eq!(render_usize(7), "7");
    assert_eq!(render_usize(10), "10");
    assert_eq!(render_usize(409), "409");
    assert_eq!(render_usize(1000000), "1000000");
}

#[test]
fn task_line_has_position_fields_and_flag() {
    let t = Task::new(
        String::from("Write report"),
        String::from("Quarterly summary"),
        String::from("2024-05-01"),
    );
    assert_eq!(
        render_task_line(1, &t),
        "\t1. Write report : 2024-05-01 : Done - false\n\tQuarterly summary\n"
    );
}

#[test]
fn task_line_shows_done_flag() {
    let mut tasks: Vec<Task> = Vec::new();
    tasks.push(Task::new(
        String::from("n"),
        String::from("d"),
        String::from("t"),
    ));
    complete_task(&mut tasks, 0);
    assert_eq!(
        render_task_line(12, &tasks[0]),
        "\t12. n : t : Done - true\n\td\n"
    );
}

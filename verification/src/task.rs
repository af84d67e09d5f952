//! The task record: one to-do item with a name, a description, a free-form
//! due date, and a completion flag.

use vstd::prelude::*;

verus! {

/// Mathematical view of a task: the four fields as plain sequence/boolean
/// values.
pub ghost struct TaskView {
    pub name: Seq<char>,
    pub desc: Seq<char>,
    pub due_date: Seq<char>,
    pub done: bool,
}

/// One to-do item.  `done` starts out false and is the only field that is
/// ever changed after construction.
pub struct Task {
    pub name: String,
    pub desc: String,
    pub due_date: String,
    pub done: bool,
}

impl View for Task {
    type V = TaskView;

    open spec fn view(&self) -> TaskView {
        TaskView {
            name: self.name@,
            desc: self.desc@,
            due_date: self.due_date@,
            done: self.done,
        }
    }
}

impl DeepView for Task {
    type V = TaskView;

    open spec fn deep_view(&self) -> TaskView {
        self.view()
    }
}

impl Task {
    /// Builds a fresh task from the three user-entered fields; a new task is
    /// never already completed.
    pub fn new(name: String, desc: String, due_date: String) -> (t: Task)
        ensures
            t@.name == name@,
            t@.desc == desc@,
            t@.due_date == due_date@,
            t@.done == false,
    {
        Task { name, desc, due_date, done: false }
    }
}

} // verus!

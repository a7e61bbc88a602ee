use vstd::prelude::*;

verus! {

/// One to-do item: a stable identifier, a user-chosen name, and a done flag.
#[derive(Clone, Debug)]
pub struct Task {
    /// A unique identifier for the task.
    pub id: usize,
    /// The name or description of the task.
    pub name: String,
    /// Indicates whether the task is marked as done.
    pub done: bool,
}

/// Mathematical image of a `Task`: the identifier as an unbounded integer and
/// the name as a sequence of characters.
#[verifier::ext_equal]
pub ghost struct TaskView {
    pub id: int,
    pub name: Seq<char>,
    pub done: bool,
}

impl View for Task {
    type V = TaskView;

    open spec fn view(&self) -> TaskView {
        TaskView { id: self.id as int, name: self.name@, done: self.done }
    }
}

/// The sequence of task views of a task sequence.
pub open spec fn views_of(ts: Seq<Task>) -> Seq<TaskView> {
    ts.map_values(|t: Task| t@)
}

/// The collection of tasks in the form the persisted store holds.
#[derive(Debug)]
pub struct Tasks {
    /// All the tasks, in presentation order.
    pub tasks: Vec<Task>,
}

} // verus!

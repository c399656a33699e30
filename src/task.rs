use vstd::prelude::*;

verus! {

/// One to-do item.
pub struct Task {
    pub id: String,
    pub description: String,
    pub completed: bool,
}

/// The mathematical value of a task.
pub struct TaskView {
    pub id: Seq<char>,
    pub description: Seq<char>,
    pub completed: bool,
}

impl View for Task {
    type V = TaskView;

    open spec fn view(&self) -> TaskView {
        TaskView { id: self.id@, description: self.description@, completed: self.completed }
    }
}

/// The values of a sequence of tasks, in order.
pub open spec fn views_of(tasks: Seq<Task>) -> Seq<TaskView> {
    tasks.map_values(|t: Task| t@)
}

/// No two tasks share an id.
pub open spec fn ids_unique(tasks: Seq<TaskView>) -> bool {
    forall|i: int, j: int|
        0 <= i < tasks.len() && 0 <= j < tasks.len() && i != j ==> #[trigger] tasks[i].id
            != #[trigger] tasks[j].id
}

/// Some task carries `id`.
pub open spec fn has_id(tasks: Seq<TaskView>, id: Seq<char>) -> bool {
    exists|i: int| 0 <= i < tasks.len() && #[trigger] tasks[i].id == id
}

/// The text shown for a completion flag.
pub open spec fn flag_text(completed: bool) -> Seq<char> {
    if completed {
        "true"@
    } else {
        "false"@
    }
}

/// The line that lists a task.
pub open spec fn line_of(t: TaskView) -> Seq<char> {
    "ID: "@ + t.id + ", Description: "@ + t.description + ", Completed: "@ + flag_text(t.completed)
}

impl Task {
    /// A task that is not yet completed.
    pub fn new(id: &str, description: &str) -> (r: Task)
        ensures
            r@ == (TaskView { id: id@, description: description@, completed: false }),
    {
        Task { id: id.to_owned(), description: description.to_owned(), completed: false }
    }

    /// Shows the task in one line of text.
    pub fn line(&self) -> (r: String)
        ensures
            r@ == line_of(self@),
    {
        let mut s = String::from_str("ID: ");
        s.append(self.id.as_str());
        s.append(", Description: ");
        s.append(self.description.as_str());
        s.append(", Completed: ");
        if self.completed {
            s.append("true");
        } else {
            s.append("false");
        }
        s
    }
}

/// The position of the task that carries `id`, the first one if several do.
pub fn find_index(tasks: &Vec<Task>, id: &str) -> (r: Option<usize>)
    ensures
        match r {
            Some(i) => i < tasks@.len() && tasks@[i as int]@.id == id@ && forall|j: int|
                0 <= j < i ==> #[trigger] tasks@[j]@.id != id@,
            None => !has_id(views_of(tasks@), id@),
        },
{
    let key = id.to_owned();
    let mut i: usize = 0;
    while i < tasks.len()
        invariant
            i <= tasks@.len(),
            key@ == id@,
            forall|j: int| 0 <= j < i ==> #[trigger] tasks@[j]@.id != id@,
        decreases tasks@.len() - i,
    {
        if tasks[i].id == key {
            return Some(i);
        }
        i = i + 1;
    }
    assert(!has_id(views_of(tasks@), id@)) by {
        if has_id(views_of(tasks@), id@) {
            let k = choose|k: int| 0 <= k < views_of(tasks@).len() && #[trigger] views_of(tasks@)[k].id == id@;
            assert(tasks@[k]@.id == id@);
        }
    }
    None
}

} // verus!

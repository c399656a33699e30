//! The task store: tasks in insertion order, each with an id that no other task
//! carries, and the path of the file that keeps them.
use crate::error::{FormatError, StoreError};
use crate::record::{
    decode, decode_records, encode, encode_tasks, json_bytes, json_records, lemma_decode_unique,
    parse_records, records_view, render_records, reports,
};
use crate::task::{find_index, has_id, ids_unique, line_of, views_of, Task, TaskView};
use vstd::prelude::*;

verus! {

/// A lowercase hexadecimal digit.
pub open spec fn is_lower_hex(c: char) -> bool {
    ('0' <= c && c <= '9') || ('a' <= c && c <= 'f')
}

/// The lowercase hyphenated form of a version-4 UUID: 36 characters, hyphens at
/// 8, 13, 18 and 23, the version digit `4` at 14, a variant digit of `8`, `9`, `a`
/// or `b` at 19, and hexadecimal digits elsewhere.
pub open spec fn is_uuid_v4_text(s: Seq<char>) -> bool {
    &&& s.len() == 36
    &&& forall|i: int|
        0 <= i < 36 ==> if i == 8 || i == 13 || i == 18 || i == 23 {
            #[trigger] s[i] == '-'
        } else {
            is_lower_hex(s[i])
        }
    &&& s[14] == '4'
    &&& (s[19] == '8' || s[19] == '9' || s[19] == 'a' || s[19] == 'b')
}

/// Relies on uuid::Uuid::new_v4, written out by its `Display` impl (lower hex,
/// hyphenated): a random version-4 UUID. It panics only where the system's random
/// source fails.
#[verifier::external_body]
fn fresh_id() -> (r: String)
    ensures
        is_uuid_v4_text(r@),
{
    uuid::Uuid::new_v4().to_string()
}

/// An id that no task carries: `base` itself where it is free; else `base`, a
/// hyphen and the longest stored id, which is longer than every stored id.
pub fn unused_id(tasks: &Vec<Task>, base: String) -> (r: String)
    ensures
        !has_id(views_of(tasks@), r@),
        r@.subrange(0, base@.len() as int) == base@,
        !has_id(views_of(tasks@), base@) ==> r@ == base@,
        has_id(views_of(tasks@), base@) ==> forall|i: int|
            0 <= i < tasks@.len() ==> (#[trigger] tasks@[i]).id@.len() < r@.len(),
{
    match find_index(tasks, base.as_str()) {
        None => return base,
        Some(k) => assert(views_of(tasks@)[k as int].id == base@),
    }
    let mut longest: usize = 0;
    let mut longest_len: usize = tasks[0].id.as_str().unicode_len();
    let mut i: usize = 1;
    while i < tasks.len()
        invariant
            0 < tasks@.len(),
            1 <= i <= tasks@.len(),
            longest < tasks@.len(),
            longest_len == tasks@[longest as int].id@.len(),
            forall|j: int| 0 <= j < i ==> (#[trigger] tasks@[j]).id@.len() <= longest_len,
        decreases tasks@.len() - i,
    {
        let len = tasks[i].id.as_str().unicode_len();
        if len > longest_len {
            longest = i;
            longest_len = len;
        }
        i = i + 1;
    }
    let mut r = base;
    r.append("-");
    r.append(tasks[longest].id.as_str());
    proof {
        reveal_strlit("-");
        assert(r@.subrange(0, base@.len() as int) =~= base@);
        assert(!has_id(views_of(tasks@), r@)) by {
            if has_id(views_of(tasks@), r@) {
                let k = choose|k: int| 0 <= k < views_of(tasks@).len() && #[trigger] views_of(tasks@)[k].id == r@;
                assert(tasks@[k].id@.len() <= longest_len);
            }
        }
    }
    r
}

/// Whether a task is kept when the tasks that carry `id` are removed.
pub open spec fn keeps(id: Seq<char>) -> spec_fn(TaskView) -> bool {
    |t: TaskView| t.id != id
}

/// The tasks after the one that carries `id` takes a new description.
pub open spec fn edited(ts: Seq<TaskView>, id: Seq<char>, description: Seq<char>) -> Seq<TaskView> {
    ts.map_values(
        |t: TaskView|
            if t.id == id {
                TaskView { description, ..t }
            } else {
                t
            },
    )
}

/// The tasks after the one that carries `id` is marked completed.
pub open spec fn marked_completed(ts: Seq<TaskView>, id: Seq<char>) -> Seq<TaskView> {
    ts.map_values(
        |t: TaskView|
            if t.id == id {
                TaskView { completed: true, ..t }
            } else {
                t
            },
    )
}

pub struct TaskManager {
    tasks: Vec<Task>,
    filename: String,
}

impl View for TaskManager {
    type V = Seq<TaskView>;

    closed spec fn view(&self) -> Seq<TaskView> {
        views_of(self.tasks@)
    }
}

impl TaskManager {
    /// The ids of the tasks are distinct.
    pub open spec fn wf(&self) -> bool {
        ids_unique(self@)
    }

    /// The path of the file that keeps the tasks.
    pub closed spec fn path(&self) -> Seq<char> {
        self.filename@
    }

    /// An empty store kept in the file at `filename`.
    pub fn new(filename: &str) -> (r: TaskManager)
        ensures
            r@ == Seq::<TaskView>::empty(),
            r.wf(),
            r.path() == filename@,
    {
        let r = TaskManager { tasks: Vec::new(), filename: filename.to_owned() };
        assert(r@ =~= Seq::<TaskView>::empty());
        r
    }

    pub fn filename(&self) -> (r: &str)
        ensures
            r@ == self.path(),
    {
        self.filename.as_str()
    }

    /// The tasks, in insertion order.
    pub fn tasks(&self) -> (r: &Vec<Task>)
        ensures
            views_of(r@) == self@,
    {
        &self.tasks
    }

    /// Appends a task with the given id and description, not completed, unless a
    /// task already carries that id; says whether it did.
    pub fn insert_task(&mut self, id: String, description: &str) -> (added: bool)
        requires
            old(self).wf(),
        ensures
            final(self).wf(),
            final(self).path() == old(self).path(),
            added == !has_id(old(self)@, id@),
            added ==> final(self)@ == old(self)@.push(
                TaskView { id: id@, description: description@, completed: false },
            ),
            !added ==> final(self)@ == old(self)@,
    {
        if let Some(k) = find_index(&self.tasks, id.as_str()) {
            assert(self@[k as int].id == id@);
            return false;
        }
        let ghost before = self@;
        let ghost new_id = id@;
        self.tasks.push(Task { id, description: description.to_owned(), completed: false });
        assert(self@ =~= before.push(
            TaskView { id: new_id, description: description@, completed: false },
        ));
        assert(ids_unique(self@)) by {
            assert forall|i: int, j: int|
                0 <= i < self@.len() && 0 <= j < self@.len() && i != j implies #[trigger] self@[i].id
                != #[trigger] self@[j].id by {
                if i < before.len() && j < before.len() {
                    assert(before[i] == self@[i] && before[j] == self@[j]);
                } else if i < before.len() {
                    assert(before[i].id == self@[i].id);
                } else {
                    assert(before[j].id == self@[j].id);
                }
            }
        }
        true
    }

    /// Appends a task with a freshly drawn UUID as its id and the given description,
    /// not completed. Where the drawn id is already taken, which the id's randomness
    /// makes all but impossible, the id is made unique as `unused_id` says.
    pub fn add_task(&mut self, description: &str)
        requires
            old(self).wf(),
        ensures
            final(self).wf(),
            final(self).path() == old(self).path(),
            final(self)@.len() == old(self)@.len() + 1,
            final(self)@.drop_last() == old(self)@,
            final(self)@.last().description == description@,
            !final(self)@.last().completed,
            !has_id(old(self)@, final(self)@.last().id),
            final(self)@.last().id.len() >= 36,
            is_uuid_v4_text(final(self)@.last().id.subrange(0, 36)),
            is_uuid_v4_text(final(self)@.last().id) || forall|i: int|
                0 <= i < old(self)@.len() ==> (#[trigger] old(self)@[i]).id.len()
                    < final(self)@.last().id.len(),
            (forall|i: int| 0 <= i < old(self)@.len() ==> (#[trigger] old(self)@[i]).id.len() != 36)
                ==> is_uuid_v4_text(final(self)@.last().id),
    {
        let drawn = fresh_id();
        let ghost base = drawn@;
        let id = unused_id(&self.tasks, drawn);
        let ghost new_id = id@;
        let added = self.insert_task(id, description);
        proof {
            assert(added);
            assert(self@.drop_last() =~= old(self)@);
            assert(new_id.subrange(0, 36) =~= base);
            if forall|i: int| 0 <= i < old(self)@.len() ==> (#[trigger] old(self)@[i]).id.len() != 36 {
                assert(!has_id(old(self)@, base)) by {
                    if has_id(old(self)@, base) {
                        let k = choose|k: int| 0 <= k < old(self)@.len() && #[trigger] old(self)@[k].id == base;
                        assert(old(self)@[k].id.len() == 36);
                    }
                }
            }
        }
    }

    /// Removes every task that carries `id`, keeping the order of the others; does
    /// nothing where no task carries it.
    pub fn delete_task(&mut self, id: &str)
        requires
            old(self).wf(),
        ensures
            final(self).wf(),
            final(self).path() == old(self).path(),
            final(self)@ == old(self)@.filter(keeps(id@)),
            !has_id(old(self)@, id@) ==> final(self)@ == old(self)@,
            has_id(old(self)@, id@) ==> final(self)@.len() == old(self)@.len() - 1,
            !has_id(final(self)@, id@),
    {
        let key = id.to_owned();
        let ghost s = self@;
        let ghost n = s.len() as int;
        let ghost p = keeps(id@);
        let mut i: usize = self.tasks.len();
        assert(s.subrange(n, n).filter(p) =~= Seq::<TaskView>::empty()) by {
            reveal(Seq::filter);
        }
        assert(self@ =~= s.subrange(0, n) + s.subrange(n, n).filter(p));
        while i > 0
            invariant
                i <= n,
                i <= self.tasks@.len(),
                n == s.len(),
                key@ == id@,
                p == keeps(id@),
                self.filename == old(self).filename,
                self@ == s.subrange(0, i as int) + s.subrange(i as int, n).filter(p),
            decreases i,
        {
            i = i - 1;
            proof {
                s.subrange(i + 1, n).lemma_filter_prepend(s[i as int], p);
                assert(seq![s[i as int]] + s.subrange(i + 1, n) =~= s.subrange(i as int, n));
            }
            let ghost before = self@;
            assert(before[i as int] == s[i as int]);
            if self.tasks[i].id == key {
                self.tasks.remove(i);
                assert(self@ =~= before.remove(i as int));
                assert(self@ =~= s.subrange(0, i as int) + s.subrange(i as int, n).filter(p));
            } else {
                assert(self@ =~= s.subrange(0, i as int) + s.subrange(i as int, n).filter(p));
            }
        }
        assert(s.subrange(0, n) =~= s);
        assert(self@ =~= s.filter(p));
        proof {
            lemma_filter_unique(s, p);
            broadcast use vstd::seq_lib::group_filter_ensures;
            assert(!has_id(self@, id@)) by {
                if has_id(self@, id@) {
                    let k = choose|k: int| 0 <= k < self@.len() && #[trigger] self@[k].id == id@;
                    assert(p(self@[k]));
                }
            }
            if has_id(s, id@) {
                let k = choose|k: int| 0 <= k < s.len() && #[trigger] s[k].id == id@;
                lemma_filter_drops_one(s, id@, k);
            } else {
                lemma_filter_keeps_all(s, p);
            }
        }
    }

    /// The lines that list the tasks, one per task, in order.
    pub fn display_lines(&self) -> (r: Vec<String>)
        ensures
            r@.len() == self@.len(),
            forall|i: int| 0 <= i < r@.len() ==> #[trigger] r@[i]@ == line_of(self@[i]),
    {
        let mut lines: Vec<String> = Vec::new();
        let mut i: usize = 0;
        while i < self.tasks.len()
            invariant
                i <= self.tasks@.len(),
                lines@.len() == i,
                forall|j: int| 0 <= j < i ==> #[trigger] lines@[j]@ == line_of(self@[j]),
            decreases self.tasks@.len() - i,
        {
            lines.push(self.tasks[i].line());
            i = i + 1;
        }
        lines
    }

    /// Takes the tasks from the stored bytes, where a stored file exists. With no
    /// file (`None`) the store is left as it is. Bytes that are not a JSON array
    /// of objects, or records that are not tasks with distinct ids, give a format
    /// error and leave the store as it was. Within an object a repeated key counts
    /// with its last value.
    pub fn load_from(&mut self, contents: Option<&[u8]>) -> (r: Result<(), StoreError>)
        requires
            old(self).wf(),
        ensures
            final(self).wf(),
            final(self).path() == old(self).path(),
            match contents {
                None => r is Ok && final(self)@ == old(self)@,
                Some(bytes) => match json_records(bytes@) {
                    None => r matches Err(StoreError::Format(FormatError::Json(_)))
                        && final(self)@ == old(self)@,
                    Some(recs) => match decode(recs) {
                        Ok(ts) => r is Ok && final(self)@ == ts,
                        Err(f) => r matches Err(StoreError::Format(e)) && reports(e, f)
                            && final(self)@ == old(self)@,
                    },
                },
            },
    {
        let bytes = match contents {
            None => return Ok(()),
            Some(b) => b,
        };
        let recs = match parse_records(bytes) {
            Ok(recs) => recs,
            Err(e) => return Err(StoreError::Format(FormatError::Json(e))),
        };
        match decode_records(&recs) {
            Ok(tasks) => {
                proof { lemma_decode_unique(records_view(recs@)); }
                self.tasks = tasks;
                Ok(())
            },
            Err(e) => Err(StoreError::Format(e)),
        }
    }

    /// The JSON text that keeps the tasks: an array with one object per task, in
    /// order.
    pub fn save_bytes(&self) -> (r: Result<Vec<u8>, StoreError>)
        ensures
            r is Ok,
            r matches Ok(b) ==> b@ == json_bytes(encode(self@)),
    {
        let recs = encode_tasks(&self.tasks);
        match render_records(&recs) {
            Ok(b) => Ok(b),
            Err(e) => Err(StoreError::Format(FormatError::Json(e))),
        }
    }

    /// Gives the task that carries `id` a new description; does nothing where no
    /// task carries it.
    pub fn edit_task(&mut self, id: &str, new_description: &str)
        requires
            old(self).wf(),
        ensures
            final(self).wf(),
            final(self).path() == old(self).path(),
            final(self)@ == edited(old(self)@, id@, new_description@),
            !has_id(old(self)@, id@) ==> final(self)@ == old(self)@,
    {
        let ghost before = self@;
        if let Some(k) = find_index(&self.tasks, id) {
            self.tasks[k].description = new_description.to_owned();
            proof { lemma_changed_one(before, self@, id@, k as int); }
            assert(self@ =~= edited(before, id@, new_description@));
        } else {
            assert(before =~= edited(before, id@, new_description@));
        }
    }

    /// Marks the task that carries `id` completed; does nothing where no task
    /// carries it.
    pub fn complete_task(&mut self, id: &str)
        requires
            old(self).wf(),
        ensures
            final(self).wf(),
            final(self).path() == old(self).path(),
            final(self)@ == marked_completed(old(self)@, id@),
            !has_id(old(self)@, id@) ==> final(self)@ == old(self)@,
    {
        let ghost before = self@;
        if let Some(k) = find_index(&self.tasks, id) {
            self.tasks[k].completed = true;
            proof { lemma_changed_one(before, self@, id@, k as int); }
            assert(self@ =~= marked_completed(before, id@));
        } else {
            assert(before =~= marked_completed(before, id@));
        }
    }
}

/// Filtering keeps a sequence whose every element passes.
proof fn lemma_filter_keeps_all(s: Seq<TaskView>, p: spec_fn(TaskView) -> bool)
    requires
        forall|i: int| 0 <= i < s.len() ==> p(#[trigger] s[i]),
    ensures
        s.filter(p) == s,
    decreases s.len(),
{
    reveal(Seq::filter);
    if s.len() > 0 {
        lemma_filter_keeps_all(s.drop_last(), p);
        assert(s.drop_last().push(s.last()) =~= s);
    }
}

/// Where exactly the task at `k` carries `id`, removing the tasks that carry it
/// removes one.
proof fn lemma_filter_drops_one(s: Seq<TaskView>, id: Seq<char>, k: int)
    requires
        ids_unique(s),
        0 <= k < s.len(),
        s[k].id == id,
    ensures
        s.filter(keeps(id)).len() == s.len() - 1,
    decreases s.len(),
{
    reveal(Seq::filter);
    let init = s.drop_last();
    if k == s.len() - 1 {
        assert forall|i: int| 0 <= i < init.len() implies keeps(id)(#[trigger] init[i]) by {
            assert(s[i].id != s[k].id);
        }
        lemma_filter_keeps_all(init, keeps(id));
    } else {
        assert(s.last().id != s[k].id);
        assert(ids_unique(init)) by {
            assert forall|i: int, j: int|
                0 <= i < init.len() && 0 <= j < init.len() && i != j implies #[trigger] init[i].id
                != #[trigger] init[j].id by {
                assert(s[i].id != s[j].id);
            }
        }
        lemma_filter_drops_one(init, id, k);
    }
}

/// Filtering keeps ids distinct.
proof fn lemma_filter_unique(s: Seq<TaskView>, p: spec_fn(TaskView) -> bool)
    requires
        ids_unique(s),
    ensures
        ids_unique(s.filter(p)),
    decreases s.len(),
{
    reveal(Seq::filter);
    if s.len() > 0 {
        let init = s.drop_last();
        assert(ids_unique(init)) by {
            assert forall|i: int, j: int|
                0 <= i < init.len() && 0 <= j < init.len() && i != j implies #[trigger] init[i].id
                != #[trigger] init[j].id by {
                assert(s[i].id != s[j].id);
            }
        }
        lemma_filter_unique(init, p);
        let f = init.filter(p);
        if p(s.last()) {
            let g = f.push(s.last());
            assert forall|i: int, j: int|
                0 <= i < g.len() && 0 <= j < g.len() && i != j implies #[trigger] g[i].id
                != #[trigger] g[j].id by {
                if i < f.len() && j < f.len() {
                } else {
                    let m = if i < f.len() { i } else { j };
                    init.lemma_filter_contains_rev(p, f[m]);
                    assert(f.contains(f[m]));
                    let q = choose|q: int| 0 <= q < init.len() && init[q] == f[m];
                    assert(s[q].id != s[s.len() - 1].id);
                }
            }
        }
    }
}

/// Where only the task at `k`, which carries `id`, changed and kept its id, the
/// ids stay distinct and no other task carries `id`.
proof fn lemma_changed_one(before: Seq<TaskView>, after: Seq<TaskView>, id: Seq<char>, k: int)
    requires
        ids_unique(before),
        0 <= k < before.len(),
        before[k].id == id,
        after.len() == before.len(),
        after[k].id == id,
        forall|i: int| 0 <= i < before.len() && i != k ==> #[trigger] after[i] == before[i],
    ensures
        ids_unique(after),
        forall|i: int| 0 <= i < before.len() && i != k ==> #[trigger] before[i].id != id,
{
    assert forall|i: int| 0 <= i < before.len() && i != k implies #[trigger] before[i].id != id by {
        assert(before[i].id != before[k].id);
    }
    assert forall|i: int, j: int|
        0 <= i < after.len() && 0 <= j < after.len() && i != j implies #[trigger] after[i].id
        != #[trigger] after[j].id by {
        assert(before[i].id != before[j].id);
    }
}

} // verus!

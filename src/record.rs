//! The stored form of a task list: a JSON array of objects, one per task, each
//! with the fields `id`, `description` and `completed`.
//!
//! Text and records are converted by serde_json; what a record means as a task
//! is decided here.
use crate::error::{FormatError, TaskField};
use crate::task::{find_index, has_id, ids_unique, views_of, Task, TaskView};
use std::collections::BTreeMap;
use vstd::prelude::*;

verus! {

/// A value in a stored record, as far as a task reads it.
pub enum Field {
    Text(String),
    Flag(bool),
    /// A number, null, array or object.
    Other,
}

pub enum FieldView {
    Text(Seq<char>),
    Flag(bool),
    Other,
}

impl View for Field {
    type V = FieldView;

    open spec fn view(&self) -> FieldView {
        match self {
            Field::Text(s) => FieldView::Text(s@),
            Field::Flag(b) => FieldView::Flag(*b),
            Field::Other => FieldView::Other,
        }
    }
}

/// One stored object: its keys and values.
pub type Record = Vec<(String, Field)>;

pub type RecordView = Seq<(Seq<char>, FieldView)>;

pub open spec fn record_view(r: Seq<(String, Field)>) -> RecordView {
    r.map_values(|p: (String, Field)| (p.0@, p.1@))
}

pub open spec fn records_view(rs: Seq<Record>) -> Seq<RecordView> {
    rs.map_values(|r: Record| record_view(r@))
}

/// The records that serde_json reads from `bytes` as a JSON array of objects, or
/// `None` where it refuses them.
pub uninterp spec fn json_records(bytes: Seq<u8>) -> Option<Seq<RecordView>>;

/// The JSON text that serde_json writes for `records`.
pub uninterp spec fn json_bytes(records: Seq<RecordView>) -> Seq<u8>;

/// Relies on serde_json::from_slice, read into a `Vec` of `BTreeMap<String, Value>`:
/// it refuses bytes that are not a JSON array of objects, and is a function of the
/// bytes alone.
#[verifier::external_body]
pub(crate) fn parse_records(bytes: &[u8]) -> (r: Result<Vec<Record>, serde_json::Error>)
    ensures
        match r {
            Ok(recs) => json_records(bytes@) == Some(records_view(recs@)),
            Err(_) => json_records(bytes@) is None,
        },
{
    let maps: Vec<BTreeMap<String, serde_json::Value>> = serde_json::from_slice(bytes)?;
    Ok(maps.into_iter().map(|m| {
        m.into_iter().map(|(k, v)| (k, match v {
            serde_json::Value::String(s) => Field::Text(s),
            serde_json::Value::Bool(b) => Field::Flag(b),
            serde_json::Value::Null => Field::Other,
            serde_json::Value::Number(_) => Field::Other,
            serde_json::Value::Array(_) => Field::Other,
            serde_json::Value::Object(_) => Field::Other,
        })).collect()
    }).collect())
}

/// Relies on serde_json::to_vec on a `Vec` of `BTreeMap<String, Value>`: the text it
/// writes is a function of the records alone, and it fails only where a map key is
/// not a string or a `Serialize` impl fails, neither of which can happen with string
/// keys and string, bool or null values.
#[verifier::external_body]
pub(crate) fn render_records(recs: &Vec<Record>) -> (r: Result<Vec<u8>, serde_json::Error>)
    ensures
        r is Ok,
        r matches Ok(b) ==> b@ == json_bytes(records_view(recs@)),
{
    let maps: Vec<BTreeMap<String, serde_json::Value>> = recs.iter().map(|rec| {
        rec.iter().map(|(k, f)| (k.clone(), match f {
            Field::Text(s) => serde_json::Value::String(s.clone()),
            Field::Flag(b) => serde_json::Value::Bool(*b),
            Field::Other => serde_json::Value::Null,
        })).collect()
    }).collect();
    serde_json::to_vec(&maps)
}

/// The value under the first occurrence of `key`.
pub open spec fn lookup(rec: RecordView, key: Seq<char>) -> Option<FieldView>
    decreases rec.len(),
{
    if rec.len() == 0 {
        None
    } else if rec[0].0 == key {
        Some(rec[0].1)
    } else {
        lookup(rec.drop_first(), key)
    }
}

pub open spec fn text_field(rec: RecordView, key: Seq<char>) -> Option<Seq<char>> {
    match lookup(rec, key) {
        Some(FieldView::Text(s)) => Some(s),
        _ => None,
    }
}

pub open spec fn flag_field(rec: RecordView, key: Seq<char>) -> Option<bool> {
    match lookup(rec, key) {
        Some(FieldView::Flag(b)) => Some(b),
        _ => None,
    }
}

/// The task a record holds, or the first field, in the order id, description,
/// completed, that is missing or of the wrong kind. Other keys are ignored.
pub open spec fn task_of_record(rec: RecordView) -> Result<TaskView, TaskField> {
    match (text_field(rec, "id"@), text_field(rec, "description"@), flag_field(rec, "completed"@)) {
        (None, _, _) => Err(TaskField::Id),
        (Some(_), None, _) => Err(TaskField::Description),
        (Some(_), Some(_), None) => Err(TaskField::Completed),
        (Some(i), Some(d), Some(c)) => Ok(TaskView { id: i, description: d, completed: c }),
    }
}

/// What is wrong with the first bad record.
pub enum RecordFault {
    Field(int, TaskField),
    DuplicateId(int),
}

/// The tasks that the records hold, in order; or the fault of the first record that
/// is not a task, or that repeats an earlier id.
pub open spec fn decode(recs: Seq<RecordView>) -> Result<Seq<TaskView>, RecordFault>
    decreases recs.len(),
{
    if recs.len() == 0 {
        Ok(Seq::empty())
    } else {
        match decode(recs.drop_last()) {
            Err(f) => Err(f),
            Ok(ts) => match task_of_record(recs.last()) {
                Err(field) => Err(RecordFault::Field(recs.len() - 1, field)),
                Ok(t) => if has_id(ts, t.id) {
                    Err(RecordFault::DuplicateId(recs.len() - 1))
                } else {
                    Ok(ts.push(t))
                },
            },
        }
    }
}

/// `e` reports `f`.
pub open spec fn reports(e: FormatError, f: RecordFault) -> bool {
    match (e, f) {
        (FormatError::Field { record, field }, RecordFault::Field(i, g)) => record == i && field == g,
        (FormatError::DuplicateId { record }, RecordFault::DuplicateId(i)) => record == i,
        _ => false,
    }
}

/// The record that stores a task.
pub open spec fn record_of(t: TaskView) -> RecordView {
    seq![
        ("id"@, FieldView::Text(t.id)),
        ("description"@, FieldView::Text(t.description)),
        ("completed"@, FieldView::Flag(t.completed)),
    ]
}

pub open spec fn encode(ts: Seq<TaskView>) -> Seq<RecordView> {
    ts.map_values(|t: TaskView| record_of(t))
}

/// The value under the first occurrence of `key` in a record.
pub fn find_field<'a>(rec: &'a Record, key: &str) -> (r: Option<&'a Field>)
    ensures
        match r {
            Some(f) => lookup(record_view(rec@), key@) == Some(f@),
            None => lookup(record_view(rec@), key@) is None,
        },
{
    let wanted = key.to_owned();
    let ghost rv = record_view(rec@);
    let mut i: usize = 0;
    assert(rv.subrange(0, rv.len() as int) =~= rv);
    while i < rec.len()
        invariant
            i <= rec@.len(),
            rv == record_view(rec@),
            wanted@ == key@,
            lookup(rv, key@) == lookup(rv.subrange(i as int, rv.len() as int), key@),
        decreases rec@.len() - i,
    {
        let ghost rest = rv.subrange(i as int, rv.len() as int);
        assert(rest.drop_first() =~= rv.subrange(i + 1, rv.len() as int));
        assert(rest[0] == (rec@[i as int].0@, rec@[i as int].1@));
        if rec[i].0 == wanted {
            return Some(&rec[i].1);
        }
        i = i + 1;
    }
    None
}

fn text_of(rec: &Record, key: &str) -> (r: Option<String>)
    ensures
        match r {
            Some(s) => text_field(record_view(rec@), key@) == Some(s@),
            None => text_field(record_view(rec@), key@) is None,
        },
{
    match find_field(rec, key) {
        Some(Field::Text(s)) => Some(s.clone()),
        _ => None,
    }
}

fn flag_of(rec: &Record, key: &str) -> (r: Option<bool>)
    ensures
        r == flag_field(record_view(rec@), key@),
{
    match find_field(rec, key) {
        Some(Field::Flag(b)) => Some(*b),
        _ => None,
    }
}

/// The task that a record holds, or the first of its fields that is missing or of
/// the wrong kind.
pub fn task_from_record(rec: &Record) -> (r: Result<Task, TaskField>)
    ensures
        match task_of_record(record_view(rec@)) {
            Ok(t) => r matches Ok(task) && task@ == t,
            Err(f) => r == Err::<Task, TaskField>(f),
        },
{
    let id = match text_of(rec, "id") {
        Some(s) => s,
        None => return Err(TaskField::Id),
    };
    let description = match text_of(rec, "description") {
        Some(s) => s,
        None => return Err(TaskField::Description),
    };
    let completed = match flag_of(rec, "completed") {
        Some(b) => b,
        None => return Err(TaskField::Completed),
    };
    Ok(Task { id, description, completed })
}

/// The tasks that stored records hold, in order; or the fault of the first record
/// that is not a task or that repeats an earlier id.
pub fn decode_records(recs: &Vec<Record>) -> (r: Result<Vec<Task>, FormatError>)
    ensures
        match decode(records_view(recs@)) {
            Ok(ts) => r matches Ok(tasks) && views_of(tasks@) == ts,
            Err(f) => r matches Err(e) && reports(e, f),
        },
{
    let ghost rv = records_view(recs@);
    let mut tasks: Vec<Task> = Vec::new();
    let mut i: usize = 0;
    assert(rv.subrange(0, 0) =~= Seq::<RecordView>::empty());
    assert(views_of(tasks@) =~= Seq::<TaskView>::empty());
    while i < recs.len()
        invariant
            i <= recs@.len(),
            rv == records_view(recs@),
            decode(rv.subrange(0, i as int)) == Ok::<Seq<TaskView>, RecordFault>(views_of(tasks@)),
        decreases recs@.len() - i,
    {
        let ghost prefix = rv.subrange(0, i as int + 1);
        assert(prefix.drop_last() =~= rv.subrange(0, i as int));
        assert(prefix.last() == record_view(recs@[i as int]@));
        assert(decode(prefix.drop_last()) == Ok::<Seq<TaskView>, RecordFault>(views_of(tasks@)));
        let task = match task_from_record(&recs[i]) {
            Ok(t) => t,
            Err(field) => {
                assert(decode(rv) == decode(prefix)) by { lemma_decode_fails_on(rv, i as int + 1); }
                return Err(FormatError::Field { record: i, field });
            },
        };
        if let Some(k) = find_index(&tasks, task.id.as_str()) {
            assert(views_of(tasks@)[k as int].id == task@.id);
            assert(has_id(views_of(tasks@), task@.id));
            assert(decode(rv) == decode(prefix)) by { lemma_decode_fails_on(rv, i as int + 1); }
            return Err(FormatError::DuplicateId { record: i });
        }
        let ghost before = views_of(tasks@);
        tasks.push(task);
        assert(views_of(tasks@) =~= before.push(task@));
        i = i + 1;
    }
    assert(rv.subrange(0, recs@.len() as int) =~= rv);
    Ok(tasks)
}

/// Decoded tasks carry distinct ids.
pub proof fn lemma_decode_unique(recs: Seq<RecordView>)
    requires
        decode(recs) is Ok,
    ensures
        ids_unique(decode(recs)->Ok_0),
    decreases recs.len(),
{
    if recs.len() > 0 {
        lemma_decode_unique(recs.drop_last());
        let ts = decode(recs.drop_last())->Ok_0;
        let t = task_of_record(recs.last())->Ok_0;
        let all = ts.push(t);
        assert forall|i: int, j: int|
            0 <= i < all.len() && 0 <= j < all.len() && i != j implies #[trigger] all[i].id
            != #[trigger] all[j].id by {
            if i < ts.len() && j < ts.len() {
                assert(ts[i].id != ts[j].id);
            } else if i < ts.len() {
                assert(ts[i].id == all[i].id);
            } else {
                assert(ts[j].id == all[j].id);
            }
        }
    }
}

/// A decoding that fails on a prefix fails the same way on the whole.
proof fn lemma_decode_fails_on(recs: Seq<RecordView>, n: int)
    requires
        0 <= n <= recs.len(),
        decode(recs.subrange(0, n)) is Err,
    ensures
        decode(recs) == decode(recs.subrange(0, n)),
    decreases recs.len() - n,
{
    if n < recs.len() {
        let longer = recs.subrange(0, n + 1);
        assert(longer.drop_last() =~= recs.subrange(0, n));
        lemma_decode_fails_on(recs, n + 1);
    } else {
        assert(recs.subrange(0, n) =~= recs);
    }
}

/// The record that stores a task.
pub fn record_from_task(t: &Task) -> (r: Record)
    ensures
        record_view(r@) =~= record_of(t@),
{
    let mut rec: Record = Vec::new();
    rec.push((String::from_str("id"), Field::Text(t.id.clone())));
    rec.push((String::from_str("description"), Field::Text(t.description.clone())));
    rec.push((String::from_str("completed"), Field::Flag(t.completed)));
    rec
}

/// The records that store the tasks, in order.
pub fn encode_tasks(tasks: &Vec<Task>) -> (r: Vec<Record>)
    ensures
        records_view(r@) == encode(views_of(tasks@)),
{
    let mut recs: Vec<Record> = Vec::new();
    let mut i: usize = 0;
    while i < tasks.len()
        invariant
            i <= tasks@.len(),
            records_view(recs@) =~= encode(views_of(tasks@)).subrange(0, i as int),
        decreases tasks@.len() - i,
    {
        let rec = record_from_task(&tasks[i]);
        let ghost before = records_view(recs@);
        recs.push(rec);
        assert(records_view(recs@) =~= before.push(record_of(tasks@[i as int]@)));
        i = i + 1;
    }
    assert(encode(views_of(tasks@)).subrange(0, i as int) =~= encode(views_of(tasks@)));
    recs
}

/// The record of a task holds that task.
pub proof fn lemma_record_holds_task(t: TaskView)
    ensures
        task_of_record(record_of(t)) == Ok::<TaskView, TaskField>(t),
{
    reveal_strlit("id");
    reveal_strlit("description");
    reveal_strlit("completed");
    let rec = record_of(t);
    assert(rec.drop_first() =~= seq![rec[1], rec[2]]);
    assert(rec.drop_first().drop_first() =~= seq![rec[2]]);
    assert("id"@.len() != "description"@.len());
    assert("id"@.len() != "completed"@.len());
    assert("description"@.len() != "completed"@.len());
    assert(lookup(rec.drop_first().drop_first(), "completed"@) == Some(FieldView::Flag(t.completed)));
    assert(lookup(rec.drop_first(), "description"@) == Some(FieldView::Text(t.description)));
    assert(lookup(rec, "id"@) == Some(FieldView::Text(t.id)));
    assert(lookup(rec, "description"@) == Some(FieldView::Text(t.description)));
    assert(lookup(rec.drop_first(), "completed"@) == Some(FieldView::Flag(t.completed)));
    assert(lookup(rec, "completed"@) == Some(FieldView::Flag(t.completed)));
    assert(text_field(rec, "id"@) == Some(t.id));
    assert(text_field(rec, "description"@) == Some(t.description));
    assert(flag_field(rec, "completed"@) == Some(t.completed));
}

/// Decoding the records of tasks with distinct ids gives back the same tasks, in
/// the same order.
pub proof fn lemma_round_trip(ts: Seq<TaskView>)
    requires
        ids_unique(ts),
    ensures
        decode(encode(ts)) == Ok::<Seq<TaskView>, RecordFault>(ts),
    decreases ts.len(),
{
    if ts.len() == 0 {
        assert(encode(ts) =~= Seq::<RecordView>::empty());
        assert(ts =~= Seq::<TaskView>::empty());
    } else {
        let init = ts.drop_last();
        let t = ts.last();
        assert(ids_unique(init)) by {
            assert forall|i: int, j: int|
                0 <= i < init.len() && 0 <= j < init.len() && i != j implies #[trigger] init[i].id
                != #[trigger] init[j].id by {
                assert(init[i] == ts[i] && init[j] == ts[j]);
            }
        }
        lemma_round_trip(init);
        assert(encode(ts).drop_last() =~= encode(init));
        lemma_record_holds_task(t);
        assert(!has_id(init, t.id)) by {
            if has_id(init, t.id) {
                let k = choose|k: int| 0 <= k < init.len() && #[trigger] init[k].id == t.id;
                assert(ts[k].id == ts[ts.len() - 1].id);
            }
        }
        assert(init.push(t) =~= ts);
    }
}

} // verus!

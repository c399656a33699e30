use task_store::error::{FormatError, StoreError, TaskField};
use task_store::record::{decode_records, encode_tasks, find_field, task_from_record, Field};
use task_store::store::{unused_id, TaskManager};
use task_store::task::{find_index, Task};

fn ids(m: &TaskManager) -> Vec<String> {
    m.tasks().iter().map(|t| t.id.clone()).collect()
}

#[test]
fn scenario_add_complete_delete() {
    let mut m = TaskManager::new("tasks.json");
    m.add_task("Buy groceries");
    m.add_task("Walk the dog");
    let first = m.tasks()[0].id.clone();
    let second = m.tasks()[1].id.clone();
    m.complete_task(&first);
    m.delete_task(&second);
    assert_eq!(m.tasks().len(), 1);
    assert_eq!(m.tasks()[0].description, "Buy groceries");
    assert!(m.tasks()[0].completed);
    assert_eq!(m.tasks()[0].id, first);
}

#[test]
fn new_store_is_empty_and_keeps_path() {
    let m = TaskManager::new("my_tasks.json");
    assert!(m.tasks().is_empty());
    assert_eq!(m.filename(), "my_tasks.json");
}

#[test]
fn add_appends_uncompleted_task_with_fresh_id() {
    let mut m = TaskManager::new("t.json");
    for k in 0..20 {
        let before = m.tasks().len();
        m.add_task(&format!("task {}", k));
        assert_eq!(m.tasks().len(), before + 1);
        let last = m.tasks().last().unwrap();
        assert_eq!(last.description, format!("task {}", k));
        assert!(!last.completed);
        assert_eq!(last.id.len(), 36);
    }
    let all = ids(&m);
    for i in 0..all.len() {
        for j in 0..all.len() {
            if i != j {
                assert_ne!(all[i], all[j]);
            }
        }
    }
}

#[test]
fn add_accepts_empty_description() {
    let mut m = TaskManager::new("t.json");
    m.add_task("");
    assert_eq!(m.tasks()[0].description, "");
}

#[test]
fn insert_refuses_taken_id() {
    let mut m = TaskManager::new("t.json");
    assert!(m.insert_task("a".to_string(), "one"));
    assert!(m.insert_task("b".to_string(), "two"));
    assert!(!m.insert_task("a".to_string(), "three"));
    assert_eq!(ids(&m), vec!["a".to_string(), "b".to_string()]);
    assert_eq!(m.tasks()[0].description, "one");
}

#[test]
fn edit_changes_only_matching_task() {
    let mut m = TaskManager::new("t.json");
    m.insert_task("a".to_string(), "one");
    m.insert_task("b".to_string(), "two");
    m.edit_task("b", "zwei");
    assert_eq!(m.tasks()[0].description, "one");
    assert_eq!(m.tasks()[1].description, "zwei");
    assert_eq!(m.tasks()[1].id, "b");
    assert!(!m.tasks()[1].completed);
}

#[test]
fn unknown_id_leaves_store_unchanged() {
    let mut m = TaskManager::new("t.json");
    m.insert_task("a".to_string(), "one");
    m.insert_task("b".to_string(), "two");
    let before = m.display_lines();
    m.edit_task("zzz", "new");
    m.complete_task("zzz");
    m.delete_task("zzz");
    assert_eq!(m.display_lines(), before);
}

#[test]
fn delete_removes_one_and_keeps_order() {
    let mut m = TaskManager::new("t.json");
    m.insert_task("a".to_string(), "one");
    m.insert_task("b".to_string(), "two");
    m.insert_task("c".to_string(), "three");
    m.delete_task("b");
    assert_eq!(ids(&m), vec!["a".to_string(), "c".to_string()]);
    m.delete_task("a");
    assert_eq!(ids(&m), vec!["c".to_string()]);
}

#[test]
fn complete_sets_flag() {
    let mut m = TaskManager::new("t.json");
    m.insert_task("a".to_string(), "one");
    m.insert_task("b".to_string(), "two");
    m.complete_task("a");
    assert!(m.tasks()[0].completed);
    assert!(!m.tasks()[1].completed);
    m.complete_task("a");
    assert!(m.tasks()[0].completed);
}

#[test]
fn display_lines_list_each_task() {
    let mut m = TaskManager::new("t.json");
    m.insert_task("a1".to_string(), "Buy groceries");
    m.insert_task("b2".to_string(), "Walk the dog");
    m.complete_task("a1");
    assert_eq!(
        m.display_lines(),
        vec![
            "ID: a1, Description: Buy groceries, Completed: true".to_string(),
            "ID: b2, Description: Walk the dog, Completed: false".to_string(),
        ]
    );
}

#[test]
fn save_then_load_round_trip() {
    let mut m = TaskManager::new("t.json");
    m.add_task("Buy groceries");
    m.add_task("Say \"hi\"\n\\ é");
    m.add_task("");
    let first = m.tasks()[0].id.clone();
    m.complete_task(&first);
    let bytes = m.save_bytes().unwrap();
    let mut fresh = TaskManager::new("t.json");
    assert!(fresh.load_from(Some(&bytes)).is_ok());
    assert_eq!(fresh.display_lines(), m.display_lines());
    assert_eq!(ids(&fresh), ids(&m));
}

#[test]
fn save_writes_json_array() {
    let mut m = TaskManager::new("t.json");
    m.insert_task("x".to_string(), "Buy groceries");
    m.complete_task("x");
    let text = String::from_utf8(m.save_bytes().unwrap()).unwrap();
    assert_eq!(text, "[{\"completed\":true,\"description\":\"Buy groceries\",\"id\":\"x\"}]");
    let empty = TaskManager::new("t.json");
    assert_eq!(empty.save_bytes().unwrap(), b"[]".to_vec());
}

#[test]
fn load_without_file_keeps_store_empty() {
    let mut m = TaskManager::new("missing.json");
    assert!(m.load_from(None).is_ok());
    assert!(m.tasks().is_empty());
}

#[test]
fn load_corrupt_json_is_format_error_and_keeps_store() {
    let mut m = TaskManager::new("t.json");
    m.insert_task("a".to_string(), "one");
    let r = m.load_from(Some(b"[{\"id\": \"x\", "));
    assert!(matches!(r, Err(StoreError::Format(FormatError::Json(_)))));
    assert_eq!(ids(&m), vec!["a".to_string()]);
    let r = m.load_from(Some(b"{\"id\": \"x\"}"));
    assert!(matches!(r, Err(StoreError::Format(FormatError::Json(_)))));
    assert_eq!(ids(&m), vec!["a".to_string()]);
}

#[test]
fn load_reads_fields_in_any_order_and_ignores_others() {
    let mut m = TaskManager::new("t.json");
    let text = b"[{\"completed\":false,\"extra\":[1,2],\"id\":\"k\",\"description\":\"d\"}, {\"id\":\"j\",\"description\":\"e\",\"completed\":true}]";
    assert!(m.load_from(Some(text)).is_ok());
    assert_eq!(
        m.display_lines(),
        vec![
            "ID: k, Description: d, Completed: false".to_string(),
            "ID: j, Description: e, Completed: true".to_string(),
        ]
    );
}

#[test]
fn load_replaces_existing_tasks() {
    let mut m = TaskManager::new("t.json");
    m.insert_task("a".to_string(), "one");
    assert!(m.load_from(Some(b"[]")).is_ok());
    assert!(m.tasks().is_empty());
}

#[test]
fn load_reports_bad_fields() {
    let mut m = TaskManager::new("t.json");
    let r = m.load_from(Some(b"[{\"id\":\"a\",\"description\":\"d\",\"completed\":true},{\"description\":\"d\",\"completed\":true}]"));
    assert!(matches!(
        r,
        Err(StoreError::Format(FormatError::Field { record: 1, field: TaskField::Id }))
    ));
    let r = m.load_from(Some(b"[{\"id\":\"a\",\"description\":7,\"completed\":true}]"));
    assert!(matches!(
        r,
        Err(StoreError::Format(FormatError::Field { record: 0, field: TaskField::Description }))
    ));
    let r = m.load_from(Some(b"[{\"id\":\"a\",\"description\":\"d\",\"completed\":\"yes\"}]"));
    assert!(matches!(
        r,
        Err(StoreError::Format(FormatError::Field { record: 0, field: TaskField::Completed }))
    ));
    assert!(m.tasks().is_empty());
}

#[test]
fn load_reports_duplicate_id() {
    let mut m = TaskManager::new("t.json");
    let r = m.load_from(Some(b"[{\"id\":\"a\",\"description\":\"d\",\"completed\":true},{\"id\":\"b\",\"description\":\"d\",\"completed\":true},{\"id\":\"a\",\"description\":\"e\",\"completed\":false}]"));
    assert!(matches!(r, Err(StoreError::Format(FormatError::DuplicateId { record: 2 }))));
    assert!(m.tasks().is_empty());
}

#[test]
fn records_round_trip() {
    let tasks = vec![
        Task { id: "1".to_string(), description: "a".to_string(), completed: true },
        Task { id: "2".to_string(), description: "b".to_string(), completed: false },
    ];
    let recs = encode_tasks(&tasks);
    assert_eq!(recs.len(), 2);
    let back = decode_records(&recs).unwrap();
    assert_eq!(back.len(), 2);
    for (x, y) in back.iter().zip(tasks.iter()) {
        assert_eq!(x.id, y.id);
        assert_eq!(x.description, y.description);
        assert_eq!(x.completed, y.completed);
    }
}

#[test]
fn record_lookup_takes_first_key() {
    let rec = vec![
        ("id".to_string(), Field::Text("first".to_string())),
        ("id".to_string(), Field::Text("second".to_string())),
        ("description".to_string(), Field::Other),
        ("completed".to_string(), Field::Flag(false)),
    ];
    assert!(matches!(find_field(&rec, "id"), Some(Field::Text(s)) if s == "first"));
    assert!(find_field(&rec, "missing").is_none());
    assert!(matches!(task_from_record(&rec), Err(TaskField::Description)));
}

#[test]
fn find_index_finds_first_match() {
    let tasks = vec![Task::new("a", "x"), Task::new("b", "y"), Task::new("b", "z")];
    assert_eq!(find_index(&tasks, "b"), Some(1));
    assert_eq!(find_index(&tasks, "c"), None);
}

#[test]
fn task_line_format() {
    let t = Task::new("id-1", "Write docs");
    assert_eq!(t.line(), "ID: id-1, Description: Write docs, Completed: false");
}

#[test]
fn errors_convert() {
    let io = std::io::Error::new(std::io::ErrorKind::NotFound, "gone");
    assert!(matches!(StoreError::from(io), StoreError::Io(_)));
    let json = serde_json::from_str::<serde_json::Value>("[").unwrap_err();
    assert!(matches!(StoreError::from(json), StoreError::Format(FormatError::Json(_))));
}

#[test]
fn add_on_fresh_store_adds_single_task() {
    let mut m = TaskManager::new("tasks.json");
    m.add_task("Buy groceries");
    assert_eq!(m.tasks().len(), 1);
    assert_eq!(m.tasks()[0].description, "Buy groceries");
    assert!(!m.tasks()[0].completed);
    assert_eq!(m.filename(), "tasks.json");
}

#[test]
fn added_id_is_uuid_v4_text() {
    let mut m = TaskManager::new("tasks.json");
    m.add_task("x");
    let id: Vec<char> = m.tasks()[0].id.chars().collect();
    assert_eq!(id.len(), 36);
    for (i, c) in id.iter().enumerate() {
        if i == 8 || i == 13 || i == 18 || i == 23 {
            assert_eq!(*c, '-');
        } else {
            assert!(c.is_ascii_digit() || ('a'..='f').contains(c));
        }
    }
    assert_eq!(id[14], '4');
    assert!(['8', '9', 'a', 'b'].contains(&id[19]));
}

#[test]
fn unused_id_keeps_free_id_and_extends_taken_one() {
    let tasks = vec![Task::new("abc", "x"), Task::new("a-much-longer-id", "y")];
    assert_eq!(unused_id(&tasks, "free".to_string()), "free");
    let r = unused_id(&tasks, "abc".to_string());
    assert_eq!(r, "abc-a-much-longer-id");
    assert!(tasks.iter().all(|t| t.id != r));
}

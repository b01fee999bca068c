use std::time::{SystemTime, UNIX_EPOCH};

use task_manager::hierarchy::load_records;
use task_manager::task::{ListEntry, ListRecord, TaskEntry, TaskRecord};

fn now() -> i64 {
    SystemTime::now().duration_since(UNIX_EPOCH).unwrap().as_millis() as i64
}

#[test]
fn test_from_entry() {
    let entry = TaskEntry {
        name: "test".to_owned(),
        size: 4,
        importance: 2,
        due: now(),
        completed: false,
        id: "123456".to_owned(),
        parent: None,
        last_edited: Some(now()),
        created: Some(now()),
    };
    let record = TaskRecord::from_entry(&entry);
    assert_eq!(record.name, entry.name);
    assert_eq!(record.size, entry.size);
    assert_eq!(record.importance, entry.importance);
    assert_eq!(record.due, entry.due);
    assert_eq!(record.completed, entry.completed);
    assert_eq!(record.id, entry.id);
}

#[test]
fn test_from_entries_basic() {
    let entries = Vec::from([
        TaskEntry {
            name: "test".to_owned(),
            size: 4,
            importance: 2,
            due: now(),
            completed: false,
            id: "123456".to_owned(),
            parent: None,
            last_edited: Some(now()),
            created: Some(now()),
        },
        TaskEntry {
            name: "test2".to_owned(),
            size: 4,
            importance: 2,
            due: now(),
            completed: false,
            id: "123466".to_owned(),
            parent: None,
            last_edited: Some(now()),
            created: Some(now()),
        },
        TaskEntry {
            name: "test3".to_owned(),
            size: 4,
            importance: 2,
            due: now(),
            completed: false,
            id: "123465".to_owned(),
            parent: Some("123456".to_owned()),
            last_edited: Some(now()),
            created: Some(now()),
        },
    ]);
    let records = load_records(&entries).unwrap();
    assert!(records.len() == 2);
    for r in &records {
        if r.id == "123456" {
            assert!(r.subtasks.len() == 1);
        } else {
            assert!(r.subtasks.len() == 0);
        }
    }
}

fn leaf(id: &str, name: &str) -> TaskRecord {
    TaskRecord {
        name: name.to_owned(),
        size: 1,
        importance: 2,
        due: 1_700_000_000_000,
        completed: false,
        id: id.to_owned(),
        subtasks: Vec::new(),
    }
}

#[test]
fn from_entry_has_no_subtasks() {
    let entry = TaskEntry {
        name: "n".to_owned(),
        size: 1,
        importance: 3,
        due: 77,
        completed: true,
        id: "a".to_owned(),
        parent: Some("p".to_owned()),
        last_edited: Some(5),
        created: Some(4),
    };
    let record = TaskRecord::from_entry(&entry);
    assert!(record.subtasks.is_empty());
    assert!(record.completed);
    assert_eq!(record.due, 77);
}

#[test]
fn from_record_takes_parent_and_no_times() {
    let record = leaf("t1", "task one");
    let entry = TaskEntry::from_record(&record, Some("top".to_owned()));
    assert_eq!(entry.id, "t1");
    assert_eq!(entry.name, "task one");
    assert_eq!(entry.size, 1);
    assert_eq!(entry.importance, 2);
    assert_eq!(entry.due, 1_700_000_000_000);
    assert_eq!(entry.completed, false);
    assert_eq!(entry.parent, Some("top".to_owned()));
    assert_eq!(entry.last_edited, None);
    assert_eq!(entry.created, None);
}

#[test]
fn entries_from_record_walks_tree_in_order() {
    let mut root = leaf("r", "root");
    let mut a = leaf("a", "a");
    a.subtasks.push(leaf("a1", "a1"));
    a.subtasks.push(leaf("a2", "a2"));
    root.subtasks.push(a);
    root.subtasks.push(leaf("b", "b"));
    let entries = TaskEntry::entries_from_record(&root, None);
    let ids: Vec<&str> = entries.iter().map(|e| e.id.as_str()).collect();
    assert_eq!(ids, vec!["r", "a", "a1", "a2", "b"]);
    let parents: Vec<Option<&str>> = entries.iter().map(|e| e.parent.as_deref()).collect();
    assert_eq!(parents, vec![None, Some("r"), Some("a"), Some("a"), Some("r")]);
}

#[test]
fn entries_from_record_then_load_records_gives_tree_back() {
    let mut root = leaf("r", "root");
    let mut a = leaf("a", "a");
    a.subtasks.push(leaf("a1", "a1"));
    root.subtasks.push(a);
    root.subtasks.push(leaf("b", "b"));
    let entries = TaskEntry::entries_from_record(&root, None);
    let forest = load_records(&entries).unwrap();
    assert_eq!(forest.len(), 1);
    assert_eq!(forest[0].id, "r");
    assert_eq!(forest[0].subtasks.len(), 2);
    assert_eq!(forest[0].subtasks[0].id, "a");
    assert_eq!(forest[0].subtasks[0].subtasks.len(), 1);
    assert_eq!(forest[0].subtasks[0].subtasks[0].id, "a1");
    assert_eq!(forest[0].subtasks[1].id, "b");
}

#[test]
fn list_entry_from_record_has_no_times() {
    let list = ListRecord {
        name: "home".to_owned(),
        uuid: "u-1".to_owned(),
        color: 3,
        tasks: vec![leaf("x", "x")],
    };
    let entry = ListEntry::from_record(&list);
    assert_eq!(entry.name, "home");
    assert_eq!(entry.uuid, "u-1");
    assert_eq!(entry.color, 3);
    assert_eq!(entry.last_edited, None);
    assert_eq!(entry.created, None);
}

#[test]
fn list_record_from_entry_has_no_tasks() {
    let entry = ListEntry {
        name: "work".to_owned(),
        uuid: "u-2".to_owned(),
        color: 5,
        last_edited: Some(9),
        created: Some(8),
    };
    let record = ListRecord::from_entry(&entry);
    assert_eq!(record.name, "work");
    assert_eq!(record.uuid, "u-2");
    assert_eq!(record.color, 5);
    assert!(record.tasks.is_empty());
}

#[test]
fn clones_keep_every_field() {
    let mut root = leaf("r", "root");
    root.subtasks.push(leaf("c", "child"));
    let copy = root.clone();
    assert_eq!(copy.id, "r");
    assert_eq!(copy.subtasks.len(), 1);
    assert_eq!(copy.subtasks[0].name, "child");
    let entry = TaskEntry::from_record(&root, Some("p".to_owned()));
    let copy = entry.clone();
    assert_eq!(copy.parent, Some("p".to_owned()));
    assert_eq!(copy.id, "r");
}

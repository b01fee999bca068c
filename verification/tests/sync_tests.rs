use task_manager::sync::{
    compare_and_save, compare_and_save_lists, compare_and_save_tasks, ListTasks, SyncData,
    SyncPlan, TaskWrite, Write,
};
use task_manager::task::{ListEntry, TaskEntry};

fn list(uuid: &str, name: &str, last_edited: Option<i64>) -> ListEntry {
    ListEntry {
        name: name.to_owned(),
        uuid: uuid.to_owned(),
        color: 1,
        last_edited,
        created: Some(1),
    }
}

fn task(id: &str, name: &str, last_edited: Option<i64>) -> TaskEntry {
    TaskEntry {
        name: name.to_owned(),
        size: 1,
        importance: 1,
        due: 0,
        completed: false,
        id: id.to_owned(),
        parent: None,
        last_edited,
        created: Some(1),
    }
}

fn snapshot(last_sync: i64, lists: Vec<ListEntry>, tasks: Vec<ListTasks>) -> SyncData {
    SyncData { last_sync, lists, tasks }
}

fn part(list: &str, tasks: Vec<TaskEntry>) -> ListTasks {
    ListTasks { list: list.to_owned(), tasks }
}

fn list_ids(lists: &Vec<ListEntry>) -> Vec<&str> {
    lists.iter().map(|l| l.uuid.as_str()).collect()
}

fn task_ids(tasks: &Vec<TaskEntry>) -> Vec<&str> {
    tasks.iter().map(|t| t.id.as_str()).collect()
}

fn list_write(w: &Write<ListEntry>) -> (&str, &str, &str) {
    match w {
        Write::Insert(l) => ("insert", l.uuid.as_str(), l.name.as_str()),
        Write::Update(l) => ("update", l.uuid.as_str(), l.name.as_str()),
    }
}

fn task_write(w: &TaskWrite) -> (&str, &str, &str, &str) {
    match &w.write {
        Write::Insert(t) => (w.list.as_str(), "insert", t.id.as_str(), t.name.as_str()),
        Write::Update(t) => (w.list.as_str(), "update", t.id.as_str(), t.name.as_str()),
    }
}

fn entity_count(plan: &SyncPlan) -> usize {
    plan.outbound.lists.len() + plan.outbound.tasks.iter().map(|p| p.tasks.len()).sum::<usize>()
}

// The remote party's last exchange was at 1_700_000_000_000 ms.
const SYNC: i64 = 1_699_999_999_999;

#[test]
fn new_snapshot_is_empty() {
    let s = SyncData::new(42);
    assert_eq!(s.last_sync, 42);
    assert!(s.lists.is_empty());
    assert!(s.tasks.is_empty());
}

#[test]
fn newer_local_list_is_sent_and_not_written() {
    let local = snapshot(0, vec![list("a", "mine", Some(1_700_000_000_500))], vec![]);
    let remote = snapshot(SYNC, vec![list("a", "theirs", Some(1_700_000_000_100))], vec![]);
    let plan = compare_and_save(&local, &remote, 7);
    assert_eq!(list_ids(&plan.outbound.lists), vec!["a"]);
    assert_eq!(plan.outbound.lists[0].name, "mine");
    assert!(plan.list_writes.is_empty());
    assert!(plan.task_writes.is_empty());
    assert_eq!(plan.outbound.last_sync, 7);
}

#[test]
fn newer_remote_list_is_written_and_not_sent() {
    let local = snapshot(0, vec![list("a", "mine", Some(1_700_000_000_100))], vec![]);
    let mut theirs = list("a", "theirs", Some(1_700_000_000_500));
    theirs.color = 9;
    let remote = snapshot(SYNC, vec![theirs], vec![]);
    let plan = compare_and_save(&local, &remote, 7);
    assert!(plan.outbound.lists.is_empty());
    assert_eq!(plan.list_writes.len(), 1);
    match &plan.list_writes[0] {
        Write::Update(l) => {
            assert_eq!(l.uuid, "a");
            assert_eq!(l.name, "theirs");
            assert_eq!(l.color, 9);
            assert_eq!(l.last_edited, Some(1_700_000_000_500));
        }
        Write::Insert(_) => panic!("the list is known here"),
    }
}

#[test]
fn equal_edit_times_send_the_local_list() {
    let local = snapshot(0, vec![list("a", "mine", Some(1_700_000_000_501))], vec![]);
    let remote = snapshot(SYNC, vec![list("a", "theirs", Some(1_700_000_000_500))], vec![]);
    let plan = compare_and_save(&local, &remote, 7);
    assert_eq!(list_ids(&plan.outbound.lists), vec!["a"]);
    assert!(plan.list_writes.is_empty());
}

#[test]
fn remote_edit_time_in_seconds_is_scaled() {
    // 950_000_000 s becomes 950_000_001_000 ms, which is later than the local edit.
    let local = snapshot(0, vec![list("a", "mine", Some(900_000_000_000))], vec![]);
    let remote = snapshot(1_000, vec![list("a", "theirs", Some(950_000_000))], vec![]);
    let plan = compare_and_save(&local, &remote, 7);
    assert!(plan.outbound.lists.is_empty());
    assert_eq!(list_write(&plan.list_writes[0]), ("update", "a", "theirs"));
}

#[test]
fn remote_edit_time_of_ten_digits_is_read_as_it_is() {
    let local = snapshot(0, vec![list("a", "mine", Some(1_700_000_000_500))], vec![]);
    let remote = snapshot(1_000, vec![list("a", "theirs", Some(1_700_000_000))], vec![]);
    let plan = compare_and_save(&local, &remote, 7);
    assert_eq!(list_ids(&plan.outbound.lists), vec!["a"]);
    assert!(plan.list_writes.is_empty());
}

#[test]
fn list_absent_there_is_sent() {
    let local = snapshot(0, vec![list("a", "mine", Some(1_700_000_000_500))], vec![]);
    let remote = snapshot(SYNC, vec![], vec![]);
    let plan = compare_and_save(&local, &remote, 7);
    assert_eq!(list_ids(&plan.outbound.lists), vec!["a"]);
    assert!(plan.list_writes.is_empty());
}

#[test]
fn list_not_edited_since_last_exchange_is_not_sent() {
    let local = snapshot(0, vec![list("a", "mine", Some(1_600_000_000_000))], vec![]);
    let remote = snapshot(SYNC, vec![], vec![]);
    let plan = compare_and_save(&local, &remote, 7);
    assert!(plan.outbound.lists.is_empty());
    assert!(plan.list_writes.is_empty());
}

#[test]
fn remote_list_without_edit_time_freezes_the_pair() {
    let local = snapshot(0, vec![list("a", "mine", Some(1_700_000_000_500))], vec![]);
    let remote = snapshot(SYNC, vec![list("a", "theirs", None)], vec![]);
    let plan = compare_and_save(&local, &remote, 7);
    assert!(plan.outbound.lists.is_empty());
    assert!(plan.list_writes.is_empty());
}

#[test]
fn remote_only_list_without_edit_time_is_left_out() {
    let local = snapshot(0, vec![], vec![]);
    let remote = snapshot(SYNC, vec![list("z", "theirs", None)], vec![]);
    let plan = compare_and_save(&local, &remote, 7);
    assert!(plan.list_writes.is_empty());
}

#[test]
fn remote_only_list_is_inserted_and_known_one_updated() {
    let local = snapshot(0, vec![list("k", "old", Some(1_600_000_000_000))], vec![]);
    let remote = snapshot(
        SYNC,
        vec![list("n", "new", Some(1_700_000_000_100)), list("k", "fresh", Some(5))],
        vec![],
    );
    let plan = compare_and_save(&local, &remote, 7);
    assert!(plan.outbound.lists.is_empty());
    let writes: Vec<_> = plan.list_writes.iter().map(list_write).collect();
    assert_eq!(writes, vec![("insert", "n", "new"), ("update", "k", "fresh")]);
}

#[test]
fn a_pass_after_a_pass_sends_nothing() {
    let local = snapshot(
        0,
        vec![list("a", "mine", Some(1_700_000_000_500)), list("b", "other", Some(1_700_000_000_100))],
        vec![part("a", vec![task("t", "task", Some(1_700_000_000_400))])],
    );
    let remote = snapshot(
        SYNC,
        vec![list("b", "theirs", Some(1_700_000_000_300))],
        vec![part("a", vec![])],
    );
    let first = compare_and_save(&local, &remote, 1_700_000_001_000);
    assert_eq!(entity_count(&first), 2);
    // The store wrote `b` at 1_700_000_000_900; the remote party took what was
    // sent and names the time of this exchange.
    let local = snapshot(
        0,
        vec![list("a", "mine", Some(1_700_000_000_500)), list("b", "theirs", Some(1_700_000_000_900))],
        vec![part("a", vec![task("t", "task", Some(1_700_000_000_400))])],
    );
    let remote = snapshot(
        1_700_000_001_000,
        vec![list("a", "mine", Some(1_700_000_000_500)), list("b", "theirs", Some(1_700_000_000_300))],
        vec![part("a", vec![task("t", "task", Some(1_700_000_000_400))])],
    );
    let second = compare_and_save(&local, &remote, 1_700_000_002_000);
    assert_eq!(entity_count(&second), 0);
    assert!(second.outbound.lists.is_empty());
}

#[test]
fn tasks_of_a_list_the_remote_party_does_not_send_go_out_as_they_are() {
    let local = snapshot(
        0,
        vec![],
        vec![
            part("a", vec![task("t1", "x", Some(1_700_000_000_500)), task("t0", "y", Some(5))]),
            part("b", vec![task("u", "z", Some(5))]),
        ],
    );
    let remote = snapshot(SYNC, vec![], vec![]);
    let plan = compare_and_save(&local, &remote, 7);
    assert_eq!(plan.outbound.tasks.len(), 1);
    assert_eq!(plan.outbound.tasks[0].list, "a");
    assert_eq!(task_ids(&plan.outbound.tasks[0].tasks), vec!["t1"]);
    assert!(plan.task_writes.is_empty());
}

#[test]
fn tasks_are_merged_list_by_list() {
    let local = snapshot(
        0,
        vec![],
        vec![part(
            "a",
            vec![
                task("mine-newer", "m", Some(1_700_000_000_900)),
                task("theirs-newer", "m", Some(1_700_000_000_100)),
                task("only-here", "m", Some(1_700_000_000_200)),
                task("untouched", "m", Some(1_000_000_000_000)),
                task("frozen", "m", Some(1_700_000_000_300)),
            ],
        )],
    );
    let remote = snapshot(
        SYNC,
        vec![],
        vec![part(
            "a",
            vec![
                task("mine-newer", "r", Some(1_700_000_000_800)),
                task("theirs-newer", "r", Some(1_700_000_000_700)),
                task("untouched", "r", Some(3)),
                task("frozen", "r", None),
                task("only-there", "r", Some(1_700_000_000_050)),
                task("only-there-null", "r", None),
            ],
        )],
    );
    let plan = compare_and_save(&local, &remote, 7);
    assert_eq!(plan.outbound.tasks.len(), 1);
    assert_eq!(plan.outbound.tasks[0].list, "a");
    assert_eq!(task_ids(&plan.outbound.tasks[0].tasks), vec!["mine-newer", "only-here"]);
    let writes: Vec<_> = plan.task_writes.iter().map(task_write).collect();
    assert_eq!(
        writes,
        vec![
            ("a", "update", "theirs-newer", "r"),
            ("a", "update", "untouched", "r"),
            ("a", "insert", "only-there", "r"),
        ]
    );
}

#[test]
fn a_list_sent_with_no_change_here_still_names_the_list() {
    let local = snapshot(0, vec![], vec![part("a", vec![task("t", "m", Some(5))])]);
    let remote = snapshot(SYNC, vec![], vec![part("a", vec![])]);
    let plan = compare_and_save(&local, &remote, 7);
    assert_eq!(plan.outbound.tasks.len(), 1);
    assert_eq!(plan.outbound.tasks[0].list, "a");
    assert!(plan.outbound.tasks[0].tasks.is_empty());
}

#[test]
fn tasks_of_a_list_not_known_here_are_written_if_they_name_their_edit_time() {
    let local = snapshot(0, vec![], vec![part("a", vec![])]);
    let remote = snapshot(
        SYNC,
        vec![list("n", "new list", Some(1_700_000_000_100))],
        vec![part(
            "n",
            vec![
                task("t1", "one", None),
                task("t2", "two", Some(4)),
                task("t1", "again", Some(5)),
                task("t2", "once more", Some(6)),
                task("t3", "never", None),
            ],
        )],
    );
    let plan = compare_and_save(&local, &remote, 7);
    assert_eq!(list_write(&plan.list_writes[0]), ("insert", "n", "new list"));
    let writes: Vec<_> = plan.task_writes.iter().map(task_write).collect();
    assert_eq!(
        writes,
        vec![
            ("n", "insert", "t2", "two"),
            ("n", "insert", "t1", "again"),
            ("n", "update", "t2", "once more"),
        ]
    );
    assert!(plan.outbound.tasks.is_empty());
}

#[test]
fn a_task_without_edit_time_is_never_written() {
    let local = snapshot(
        0,
        vec![],
        vec![part("known", vec![task("k", "mine", Some(1_700_000_000_500))])],
    );
    let remote = snapshot(
        SYNC,
        vec![],
        vec![
            part("known", vec![task("k", "theirs", None), task("x", "theirs", None)]),
            part("unknown", vec![task("y", "theirs", None)]),
        ],
    );
    let plan = compare_and_save(&local, &remote, 7);
    assert!(plan.task_writes.is_empty());
    assert_eq!(plan.outbound.tasks.len(), 1);
    assert!(plan.outbound.tasks[0].tasks.is_empty());
}

#[test]
fn of_entities_with_one_id_the_last_counts() {
    let local = snapshot(
        0,
        vec![list("a", "first", Some(1_700_000_000_500)), list("a", "second", Some(1_700_000_000_600))],
        vec![],
    );
    let remote = snapshot(SYNC, vec![], vec![]);
    let plan = compare_and_save(&local, &remote, 7);
    assert_eq!(plan.outbound.lists.len(), 1);
    assert_eq!(plan.outbound.lists[0].name, "second");
}

#[test]
fn the_largest_last_sync_leaves_nothing_changed() {
    let local = snapshot(0, vec![list("a", "mine", Some(i64::MAX))], vec![]);
    let remote = snapshot(i64::MAX, vec![], vec![]);
    let plan = compare_and_save(&local, &remote, 7);
    assert!(plan.outbound.lists.is_empty());
}

#[test]
fn merging_lists_alone() {
    let changed = vec![list("a", "mine", Some(10_000_000_000_000)), list("b", "mine", Some(20_000_000_000_000))];
    let theirs = vec![list("b", "theirs", Some(30_000_000_000_000)), list("c", "theirs", Some(1))];
    let known = vec![list("a", "mine", None), list("b", "mine", None)];
    let merged = compare_and_save_lists(&changed, &theirs, &known);
    assert_eq!(list_ids(&merged.outbound), vec!["a"]);
    let writes: Vec<_> = merged.writes.iter().map(list_write).collect();
    assert_eq!(writes, vec![("update", "b", "theirs"), ("insert", "c", "theirs")]);
}

#[test]
fn merging_tasks_alone_names_the_list() {
    let changed = vec![task("t", "mine", Some(10_000_000_000_000))];
    let theirs = vec![task("t", "theirs", Some(20_000_000_000_000))];
    let known = vec![task("t", "mine", Some(10_000_000_000_000))];
    let (sent, written) = compare_and_save_tasks(&"L".to_owned(), &changed, &theirs, &known);
    assert!(sent.is_empty());
    let writes: Vec<_> = written.iter().map(task_write).collect();
    assert_eq!(writes, vec![("L", "update", "t", "theirs")]);
}

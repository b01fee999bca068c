//! Tasks and lists, as flat entries that a store holds and as nested
//! records that are shown.

use crate::entity::{text_of, views, Entity, Identified, Keyed, Stamped};
use vstd::prelude::*;

verus! {

/// A task as the store holds it: flat, with the id of its parent.
#[derive(Debug)]
pub struct TaskEntry {
    pub name: String,
    pub size: i32,
    pub importance: i32,
    pub due: i64,
    pub completed: bool,
    pub id: String,
    pub parent: Option<String>,
    pub last_edited: Option<i64>,
    pub created: Option<i64>,
}

/// The model of a `TaskEntry`.
pub struct TaskView {
    pub name: Seq<char>,
    pub size: i32,
    pub importance: i32,
    pub due: i64,
    pub completed: bool,
    pub id: Seq<char>,
    pub parent: Option<Seq<char>>,
    pub last_edited: Option<i64>,
    pub created: Option<i64>,
}

impl View for TaskEntry {
    type V = TaskView;

    open spec fn view(&self) -> TaskView {
        TaskView {
            name: self.name@,
            size: self.size,
            importance: self.importance,
            due: self.due,
            completed: self.completed,
            id: self.id@,
            parent: text_of(self.parent),
            last_edited: self.last_edited,
            created: self.created,
        }
    }
}

impl Keyed for TaskView {
    open spec fn key(&self) -> Seq<char> {
        self.id
    }
}

impl Stamped for TaskView {
    open spec fn edited(&self) -> Option<i64> {
        self.last_edited
    }
}

/// A task as it is shown: with its subtasks nested in it.
#[derive(Debug)]
pub struct TaskRecord {
    pub name: String,
    pub size: i32,
    pub importance: i32,
    pub due: i64,
    pub completed: bool,
    pub id: String,
    pub subtasks: Vec<TaskRecord>,
}

/// The model of a `TaskRecord`: a tree.
pub struct RecordView {
    pub name: Seq<char>,
    pub size: i32,
    pub importance: i32,
    pub due: i64,
    pub completed: bool,
    pub id: Seq<char>,
    pub subtasks: Seq<RecordView>,
}

/// The tree that `r` holds.
pub open spec fn tree_of(r: TaskRecord) -> RecordView
    decreases r,
{
    RecordView {
        name: r.name@,
        size: r.size,
        importance: r.importance,
        due: r.due,
        completed: r.completed,
        id: r.id@,
        subtasks: Seq::new(
            r.subtasks@.len(),
            |i: int|
                if 0 <= i < r.subtasks@.len() {
                    tree_of(r.subtasks@[i])
                } else {
                    arbitrary()
                },
        ),
    }
}

impl View for TaskRecord {
    type V = RecordView;

    open spec fn view(&self) -> RecordView {
        tree_of(*self)
    }
}

/// A list as the store holds it.
#[derive(Debug)]
pub struct ListEntry {
    pub name: String,
    pub uuid: String,
    pub color: i32,
    pub last_edited: Option<i64>,
    pub created: Option<i64>,
}

/// The model of a `ListEntry`.
pub struct ListView {
    pub name: Seq<char>,
    pub uuid: Seq<char>,
    pub color: i32,
    pub last_edited: Option<i64>,
    pub created: Option<i64>,
}

impl View for ListEntry {
    type V = ListView;

    open spec fn view(&self) -> ListView {
        ListView {
            name: self.name@,
            uuid: self.uuid@,
            color: self.color,
            last_edited: self.last_edited,
            created: self.created,
        }
    }
}

impl Keyed for ListView {
    open spec fn key(&self) -> Seq<char> {
        self.uuid
    }
}

impl Stamped for ListView {
    open spec fn edited(&self) -> Option<i64> {
        self.last_edited
    }
}

/// A list as it is shown: with its tasks nested in it.
#[derive(Debug)]
pub struct ListRecord {
    pub name: String,
    pub uuid: String,
    pub color: i32,
    pub tasks: Vec<TaskRecord>,
}

/// The model of a `ListRecord`.
pub struct ListRecordView {
    pub name: Seq<char>,
    pub uuid: Seq<char>,
    pub color: i32,
    pub tasks: Seq<RecordView>,
}

impl View for ListRecord {
    type V = ListRecordView;

    open spec fn view(&self) -> ListRecordView {
        ListRecordView {
            name: self.name@,
            uuid: self.uuid@,
            color: self.color,
            tasks: views(self.tasks@),
        }
    }
}

/// The record of entry `e` with `subtasks` under it.
pub open spec fn record_of(e: TaskView, subtasks: Seq<RecordView>) -> RecordView {
    RecordView {
        name: e.name,
        size: e.size,
        importance: e.importance,
        due: e.due,
        completed: e.completed,
        id: e.id,
        subtasks,
    }
}

/// The entry of record `r` under `parent`. A record carries no times.
pub open spec fn entry_of(r: RecordView, parent: Option<Seq<char>>) -> TaskView {
    TaskView {
        name: r.name,
        size: r.size,
        importance: r.importance,
        due: r.due,
        completed: r.completed,
        id: r.id,
        parent,
        last_edited: None,
        created: None,
    }
}

/// The entries of a tree: its root under `parent`, then the entries of each
/// subtree in turn, each subtree's root under the tree's root.
pub open spec fn flattened(r: RecordView, parent: Option<Seq<char>>) -> Seq<TaskView>
    decreases r,
{
    seq![entry_of(r, parent)] + flattened_all(r.subtasks, Some(r.id))
}

/// The entries of the trees `rs` in turn, each root under `parent`.
pub open spec fn flattened_all(rs: Seq<RecordView>, parent: Option<Seq<char>>) -> Seq<TaskView>
    decreases rs,
{
    if rs.len() == 0 {
        Seq::empty()
    } else {
        flattened_all(rs.drop_last(), parent) + flattened(rs.last(), parent)
    }
}

/// How many nodes a tree has.
pub open spec fn node_count(r: RecordView) -> nat
    decreases r,
{
    1 + node_count_all(r.subtasks)
}

/// How many nodes the trees `rs` have together.
pub open spec fn node_count_all(rs: Seq<RecordView>) -> nat
    decreases rs,
{
    if rs.len() == 0 {
        0
    } else {
        node_count_all(rs.drop_last()) + node_count(rs.last())
    }
}

/// The entry of list record `l`. A record carries no times.
pub open spec fn list_entry_of(l: ListRecordView) -> ListView {
    ListView { name: l.name, uuid: l.uuid, color: l.color, last_edited: None, created: None }
}

/// The record of list entry `l`, with `tasks` in it.
pub open spec fn list_record_of(l: ListView, tasks: Seq<RecordView>) -> ListRecordView {
    ListRecordView { name: l.name, uuid: l.uuid, color: l.color, tasks }
}

/// The subtasks of a record's model are the models of its subtasks.
pub proof fn lemma_subtask_views(r: &TaskRecord)
    ensures
        r@.subtasks == views(r.subtasks@),
{
    assert(r@.subtasks.len() == r.subtasks@.len());
    assert forall|i: int| 0 <= i < r.subtasks@.len() implies r@.subtasks[i] == r.subtasks@[i]@ by {}
    assert(r@.subtasks =~= views(r.subtasks@));
}

/// A copy of an optional string.
pub fn duplicate_text(o: &Option<String>) -> (r: Option<String>)
    ensures
        text_of(r) == text_of(*o),
{
    match o {
        Some(s) => Some(s.clone()),
        None => None,
    }
}

impl Clone for TaskEntry {
    fn clone(&self) -> (r: Self)
        ensures
            r@ == self@,
    {
        TaskEntry {
            name: self.name.clone(),
            size: self.size,
            importance: self.importance,
            due: self.due,
            completed: self.completed,
            id: self.id.clone(),
            parent: duplicate_text(&self.parent),
            last_edited: self.last_edited,
            created: self.created,
        }
    }
}

impl Identified for TaskEntry {
    fn id(&self) -> (r: &String) {
        &self.id
    }

    fn duplicate(&self) -> (r: Self) {
        self.clone()
    }
}

impl Entity for TaskEntry {
    fn last_edited(&self) -> (r: Option<i64>) {
        self.last_edited
    }
}

impl Clone for ListEntry {
    fn clone(&self) -> (r: Self)
        ensures
            r@ == self@,
    {
        ListEntry {
            name: self.name.clone(),
            uuid: self.uuid.clone(),
            color: self.color,
            last_edited: self.last_edited,
            created: self.created,
        }
    }
}

impl Identified for ListEntry {
    fn id(&self) -> (r: &String) {
        &self.uuid
    }

    fn duplicate(&self) -> (r: Self) {
        self.clone()
    }
}

impl Entity for ListEntry {
    fn last_edited(&self) -> (r: Option<i64>) {
        self.last_edited
    }
}

impl Clone for TaskRecord {
    fn clone(&self) -> (r: Self)
        ensures
            r@ == self@,
        decreases self,
    {
        let mut subtasks: Vec<TaskRecord> = Vec::new();
        let mut i: usize = 0;
        while i < self.subtasks.len()
            invariant
                i <= self.subtasks.len(),
                subtasks@.len() == i,
                forall|j: int| 0 <= j < i ==> (#[trigger] subtasks@[j])@ == self.subtasks@[j]@,
            decreases self.subtasks.len() - i,
        {
            subtasks.push(self.subtasks[i].clone());
            i += 1;
        }
        let r = TaskRecord {
            name: self.name.clone(),
            size: self.size,
            importance: self.importance,
            due: self.due,
            completed: self.completed,
            id: self.id.clone(),
            subtasks,
        };
        assert(r@.subtasks =~= self@.subtasks);
        r
    }
}

impl Clone for ListRecord {
    fn clone(&self) -> (r: Self)
        ensures
            r@ == self@,
    {
        let mut tasks: Vec<TaskRecord> = Vec::new();
        let mut i: usize = 0;
        while i < self.tasks.len()
            invariant
                i <= self.tasks.len(),
                tasks@.len() == i,
                forall|j: int| 0 <= j < i ==> (#[trigger] tasks@[j])@ == self.tasks@[j]@,
            decreases self.tasks.len() - i,
        {
            tasks.push(self.tasks[i].clone());
            i += 1;
        }
        assert(views(tasks@) =~= views(self.tasks@));
        ListRecord { name: self.name.clone(), uuid: self.uuid.clone(), color: self.color, tasks }
    }
}

impl TaskRecord {
    /// The record of `entry`, with no subtasks.
    pub fn from_entry(entry: &TaskEntry) -> (r: TaskRecord)
        ensures
            r@ == record_of(entry@, Seq::empty()),
    {
        let r = TaskRecord {
            name: entry.name.clone(),
            size: entry.size,
            importance: entry.importance,
            due: entry.due,
            completed: entry.completed,
            id: entry.id.clone(),
            subtasks: Vec::new(),
        };
        assert(r@.subtasks =~= Seq::empty());
        r
    }
}

impl TaskEntry {
    /// The entry of `task` alone, under `parent`, with no times yet.
    pub fn from_record(task: &TaskRecord, parent: Option<String>) -> (r: TaskEntry)
        ensures
            r@ == entry_of(task@, text_of(parent)),
    {
        TaskEntry {
            completed: task.completed,
            created: None,
            due: task.due,
            id: task.id.clone(),
            importance: task.importance,
            last_edited: None,
            name: task.name.clone(),
            parent,
            size: task.size,
        }
    }

    /// The entries of `task` and of all that is nested in it: the task
    /// first, then each subtask's entries in turn.
    pub fn entries_from_record(task: &TaskRecord, parent: Option<String>) -> (ret: Vec<TaskEntry>)
        ensures
            views(ret@) == flattened(task@, text_of(parent)),
        decreases task,
    {
        let mut ret: Vec<TaskEntry> = Vec::new();
        ret.push(TaskEntry::from_record(task, parent));
        let mut i: usize = 0;
        proof {
            lemma_subtask_views(task);
            assert(views(task.subtasks@).take(0) =~= Seq::empty());
            assert(views(ret@) =~= seq![entry_of(task@, text_of(parent))] + flattened_all(
                views(task.subtasks@).take(0),
                Some(task@.id),
            ));
        }
        while i < task.subtasks.len()
            invariant
                i <= task.subtasks.len(),
                views(ret@) == seq![entry_of(task@, text_of(parent))] + flattened_all(
                    views(task.subtasks@).take(i as int),
                    Some(task@.id),
                ),
            decreases task.subtasks.len() - i,
        {
            let ghost before = views(ret@);
            let mut more = TaskEntry::entries_from_record(&task.subtasks[i], Some(task.id.clone()));
            let ghost added = views(more@);
            ret.append(&mut more);
            proof {
                let next = views(task.subtasks@).take(i as int + 1);
                assert(next.drop_last() =~= views(task.subtasks@).take(i as int));
                assert(next.last() == task.subtasks@[i as int]@);
                assert(views(ret@) =~= before + added);
            }
            i += 1;
        }
        proof {
            assert(views(task.subtasks@).take(task.subtasks@.len() as int) =~= views(
                task.subtasks@,
            ));
        }
        ret
    }
}

impl ListEntry {
    /// The entry of `list` alone, with no times yet.
    pub fn from_record(list: &ListRecord) -> (r: ListEntry)
        ensures
            r@ == list_entry_of(list@),
    {
        ListEntry {
            color: list.color,
            created: None,
            last_edited: None,
            name: list.name.clone(),
            uuid: list.uuid.clone(),
        }
    }
}

impl ListRecord {
    /// The record of `list`, with no tasks in it.
    pub fn from_entry(list: &ListEntry) -> (r: ListRecord)
        ensures
            r@ == list_record_of(list@, Seq::empty()),
    {
        let r = ListRecord {
            color: list.color,
            name: list.name.clone(),
            uuid: list.uuid.clone(),
            tasks: Vec::new(),
        };
        assert(views(r.tasks@) =~= Seq::empty());
        r
    }
}

} // verus!

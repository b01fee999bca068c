//! Merging what changed here with what a remote party sends: the newer
//! edit of an entity wins as a whole.

use crate::entity::{
    distinct_keys, duplicate_all, find_position, has_key, latest, latest_of, lemma_latest_within,
    lemma_position, lemma_position_of_member, position, views, Entity, Identified, Keyed, Stamped,
};
use crate::task::{ListEntry, ListView, TaskEntry, TaskView};
use crate::timestamp::{normalized, normalized_wide};
use vstd::prelude::*;

verus! {

/// A change for the local store to make.
#[derive(Debug)]
pub enum Write<E> {
    /// The entity is new to the store.
    Insert(E),
    /// The store holds an entity with this id, which takes these values.
    Update(E),
}

impl<E: View> View for Write<E> {
    type V = Write<E::V>;

    open spec fn view(&self) -> Write<E::V> {
        match self {
            Write::Insert(e) => Write::Insert(e@),
            Write::Update(e) => Write::Update(e@),
        }
    }
}

impl<T> Write<T> {
    /// The entity that is written.
    pub open spec fn entity(self) -> T {
        match self {
            Write::Insert(e) => e,
            Write::Update(e) => e,
        }
    }
}

/// What becomes of an entity that changed here.
#[derive(Debug, PartialEq, Eq, Structural, Clone, Copy)]
pub enum Verdict {
    /// It goes to the remote party.
    Push,
    /// The remote party's entity replaces it here.
    Take,
    /// One side has no edit time: nothing is written and nothing is sent.
    Freeze,
}

/// `e` was edited after `cutoff`. An entity without an edit time was not.
pub open spec fn edited_after<T: Stamped>(e: T, cutoff: int) -> bool {
    e.edited() matches Some(at) && at > cutoff
}

/// The entity in `theirs` with the key of `mine`, where there is one.
pub open spec fn counterpart<T: Keyed>(mine: T, theirs: Seq<T>) -> T {
    theirs[position(theirs, mine.key())->0]
}

/// What becomes of `mine` against `theirs`: it is pushed where they have no
/// entity with its id; where they have one, it is frozen if either has no
/// edit time, taken from them if theirs, normalized, is strictly later, and
/// pushed otherwise.
pub open spec fn verdict<T: Stamped>(mine: T, theirs: Seq<T>) -> Verdict {
    if !has_key(theirs, mine.key()) {
        Verdict::Push
    } else {
        match (mine.edited(), counterpart(mine, theirs).edited()) {
            (Some(here), Some(there)) => if normalized(there as int) > here {
                Verdict::Take
            } else {
                Verdict::Push
            },
            _ => Verdict::Freeze,
        }
    }
}

/// The write that brings `e` into a store that holds `known`.
pub open spec fn upsert<T: Keyed>(e: T, known: Seq<T>) -> Write<T> {
    if has_key(known, e.key()) {
        Write::Update(e)
    } else {
        Write::Insert(e)
    }
}

/// `edited_after` with its cutoff fixed.
pub open spec fn is_edited_after<T: Stamped>(cutoff: int) -> spec_fn(T) -> bool {
    |e: T| edited_after(e, cutoff)
}

/// `mine` is pushed against `theirs`.
pub open spec fn is_pushed<T: Stamped>(theirs: Seq<T>) -> spec_fn(T) -> bool {
    |mine: T| verdict(mine, theirs) == Verdict::Push
}

/// `mine` is replaced by its counterpart in `theirs`.
pub open spec fn is_taken<T: Stamped>(theirs: Seq<T>) -> spec_fn(T) -> bool {
    |mine: T| verdict(mine, theirs) == Verdict::Take
}

/// `r` is an entity of theirs that did not change here and has an edit time.
pub open spec fn is_news<T: Stamped>(changed: Seq<T>) -> spec_fn(T) -> bool {
    |r: T| !has_key(changed, r.key()) && r.edited() is Some
}

/// The write that brings the counterpart of `mine` into the store.
pub open spec fn taking<T: Stamped>(theirs: Seq<T>, known: Seq<T>) -> spec_fn(T) -> Write<T> {
    |mine: T| upsert(counterpart(mine, theirs), known)
}

/// `upsert` with the store fixed.
pub open spec fn bringing<T: Stamped>(known: Seq<T>) -> spec_fn(T) -> Write<T> {
    |r: T| upsert(r, known)
}

/// The entities of `all` that were edited after `cutoff`, in their order.
pub open spec fn changed_since<T: Stamped>(all: Seq<T>, cutoff: int) -> Seq<T> {
    all.filter(is_edited_after(cutoff))
}

/// What goes to the remote party: the changed entities that are pushed.
pub open spec fn outbound<T: Stamped>(changed: Seq<T>, theirs: Seq<T>) -> Seq<T> {
    changed.filter(is_pushed(theirs))
}

/// The writes that replace changed entities by their newer counterparts.
pub open spec fn taken_writes<T: Stamped>(changed: Seq<T>, theirs: Seq<T>, known: Seq<T>) -> Seq<
    Write<T>,
> {
    changed.filter(is_taken(theirs)).map_values(taking(theirs, known))
}

/// The writes that bring in what only the remote party changed.
pub open spec fn news_writes<T: Stamped>(changed: Seq<T>, theirs: Seq<T>, known: Seq<T>) -> Seq<
    Write<T>,
> {
    theirs.filter(is_news(changed)).map_values(bringing(known))
}

/// All writes of one merge, in the order in which the store makes them.
pub open spec fn local_writes<T: Stamped>(changed: Seq<T>, theirs: Seq<T>, known: Seq<T>) -> Seq<
    Write<T>,
> {
    taken_writes(changed, theirs, known) + news_writes(changed, theirs, known)
}

/// The result of merging one collection.
pub struct Merged<E> {
    /// What the remote party is to receive.
    pub outbound: Vec<E>,
    /// What the local store is to write, in this order.
    pub writes: Vec<Write<E>>,
}

/// The entities of `all` that were edited after `cutoff`.
pub fn changed_since_of<E: Entity>(all: &Vec<E>, cutoff: i128) -> (r: Vec<E>) where
    E::V: Stamped,

    ensures
        views(r@) == changed_since(views(all@), cutoff as int),
{
    let mut out: Vec<E> = Vec::new();
    let mut i: usize = 0;
    let ghost pred = is_edited_after::<E::V>(cutoff as int);
    proof {
        assert(views(all@).take(0) =~= Seq::empty());
        reveal(Seq::filter);
        assert(views(out@) =~= views(all@).take(0).filter(pred));
    }
    while i < all.len()
        invariant
            i <= all.len(),
            pred == is_edited_after::<E::V>(cutoff as int),
            views(out@) == views(all@).take(i as int).filter(pred),
        decreases all.len() - i,
    {
        let ghost before = views(out@);
        proof {
            assert(views(all@).take(i as int + 1) =~= views(all@).take(i as int).push(
                all@[i as int]@,
            ));
            views(all@).take(i as int).lemma_filter_push(all@[i as int]@, pred);
        }
        let keep = match all[i].last_edited() {
            Some(at) => at as i128 > cutoff,
            None => false,
        };
        if keep {
            out.push(all[i].duplicate());
            assert(views(out@) =~= before.push(all@[i as int]@));
        }
        i += 1;
    }
    proof {
        assert(views(all@).take(all@.len() as int) =~= views(all@));
    }
    out
}

/// What becomes of `mine` against `theirs`, and where its counterpart is.
pub fn decide<E: Entity>(mine: &E, theirs: &Vec<E>) -> (r: (Verdict, usize)) where E::V: Stamped
    ensures
        r.0 == verdict(mine@, views(theirs@)),
        has_key(views(theirs@), mine@.key()) ==> r.1 < theirs.len() && position(
            views(theirs@),
            mine@.key(),
        ) == Some(r.1 as int),
{
    match find_position(theirs, mine.id()) {
        None => (Verdict::Push, 0),
        Some(j) => {
            assert(views(theirs@)[j as int] == theirs@[j as int]@);
            match (mine.last_edited(), theirs[j].last_edited()) {
                (Some(here), Some(there)) => {
                    if normalized_wide(there) > here as i128 {
                        (Verdict::Take, j)
                    } else {
                        (Verdict::Push, j)
                    }
                },
                _ => (Verdict::Freeze, j),
            }
        },
    }
}

/// The write that brings `e` into a store that holds `known`.
pub fn upsert_of<E: Entity>(e: &E, known: &Vec<E>) -> (r: Write<E>) where E::V: Stamped
    ensures
        r@ == upsert(e@, views(known@)),
{
    match find_position(known, e.id()) {
        Some(_) => Write::Update(e.duplicate()),
        None => Write::Insert(e.duplicate()),
    }
}

/// Merges one collection: `changed` is what was edited here since the last
/// exchange, `theirs` what the remote party sends, `known` what the local
/// store holds.
pub fn merge<E: Entity>(changed: &Vec<E>, theirs: &Vec<E>, known: &Vec<E>) -> (r: Merged<E>) where
    E::V: Stamped,

    ensures
        views(r.outbound@) == outbound(views(changed@), views(theirs@)),
        views(r.writes@) == local_writes(views(changed@), views(theirs@), views(known@)),
{
    let mut out: Vec<E> = Vec::new();
    let mut writes: Vec<Write<E>> = Vec::new();
    let ghost c = views(changed@);
    let ghost t = views(theirs@);
    let ghost k = views(known@);
    let mut i: usize = 0;
    proof {
        reveal(Seq::filter);
        assert(c.take(0) =~= Seq::empty());
        assert(views(out@) =~= c.take(0).filter(is_pushed(t)));
        assert(views(writes@) =~= c.take(0).filter(is_taken(t)).map_values(taking(t, k)));
    }
    while i < changed.len()
        invariant
            i <= changed.len(),
            c == views(changed@),
            t == views(theirs@),
            k == views(known@),
            views(out@) == c.take(i as int).filter(is_pushed(t)),
            views(writes@) == c.take(i as int).filter(is_taken(t)).map_values(taking(t, k)),
        decreases changed.len() - i,
    {
        let ghost out_before = views(out@);
        let ghost writes_before = views(writes@);
        let ghost mine = changed@[i as int]@;
        proof {
            assert(c.take(i as int + 1) =~= c.take(i as int).push(mine));
            c.take(i as int).lemma_filter_push(mine, is_pushed(t));
            c.take(i as int).lemma_filter_push(mine, is_taken(t));
        }
        let (what, j) = decide(&changed[i], theirs);
        match what {
            Verdict::Push => {
                out.push(changed[i].duplicate());
                assert(views(out@) =~= out_before.push(mine));
            },
            Verdict::Take => {
                let w = upsert_of(&theirs[j], known);
                assert(t[j as int] == theirs@[j as int]@);
                writes.push(w);
                assert(views(writes@) =~= writes_before.push(taking(t, k)(mine)));
                assert(c.take(i as int + 1).filter(is_taken(t)).map_values(taking(t, k))
                    =~= writes_before.push(taking(t, k)(mine)));
            },
            Verdict::Freeze => {},
        }
        i += 1;
    }
    let ghost taken = views(writes@);
    proof {
        assert(c.take(changed@.len() as int) =~= c);
        reveal(Seq::filter);
        assert(t.take(0) =~= Seq::empty());
        assert(views(writes@) =~= taken + t.take(0).filter(is_news(c)).map_values(bringing(k)));
    }
    let mut n: usize = 0;
    while n < theirs.len()
        invariant
            n <= theirs.len(),
            c == views(changed@),
            t == views(theirs@),
            k == views(known@),
            views(out@) == outbound(c, t),
            taken == taken_writes(c, t, k),
            views(writes@) == taken + t.take(n as int).filter(is_news(c)).map_values(bringing(k)),
        decreases theirs.len() - n,
    {
        let ghost writes_before = views(writes@);
        let ghost r = theirs@[n as int]@;
        proof {
            assert(t.take(n as int + 1) =~= t.take(n as int).push(r));
            t.take(n as int).lemma_filter_push(r, is_news(c));
        }
        let absent = find_position(changed, theirs[n].id()).is_none();
        if absent && theirs[n].last_edited().is_some() {
            let w = upsert_of(&theirs[n], known);
            writes.push(w);
            assert(views(writes@) =~= writes_before.push(bringing(k)(r)));
            assert(t.take(n as int + 1).filter(is_news(c)).map_values(bringing(k)) =~= t.take(
                n as int,
            ).filter(is_news(c)).map_values(bringing(k)).push(bringing(k)(r)));
        }
        n += 1;
    }
    proof {
        assert(t.take(theirs@.len() as int) =~= t);
    }
    Merged { outbound: out, writes }
}

/// The tasks of one list.
#[derive(Debug)]
pub struct ListTasks {
    pub list: String,
    pub tasks: Vec<TaskEntry>,
}

/// The model of a `ListTasks`.
pub struct ListTasksView {
    pub list: Seq<char>,
    pub tasks: Seq<TaskView>,
}

impl View for ListTasks {
    type V = ListTasksView;

    open spec fn view(&self) -> ListTasksView {
        ListTasksView { list: self.list@, tasks: views(self.tasks@) }
    }
}

impl Keyed for ListTasksView {
    open spec fn key(&self) -> Seq<char> {
        self.list
    }
}

impl Clone for ListTasks {
    fn clone(&self) -> (r: Self)
        ensures
            r@ == self@,
    {
        ListTasks { list: self.list.clone(), tasks: duplicate_all(&self.tasks) }
    }
}

impl Identified for ListTasks {
    fn id(&self) -> (r: &String) {
        &self.list
    }

    fn duplicate(&self) -> (r: Self) {
        self.clone()
    }
}

/// All lists and, list by list, their tasks, as one side holds them at one
/// moment. `lists` and `tasks` are read as maps: see `latest`.
#[derive(Debug)]
pub struct SyncData {
    pub last_sync: i64,
    pub lists: Vec<ListEntry>,
    pub tasks: Vec<ListTasks>,
}

/// The model of a `SyncData`.
pub struct SyncView {
    pub last_sync: i64,
    pub lists: Seq<ListView>,
    pub tasks: Seq<ListTasksView>,
}

impl View for SyncData {
    type V = SyncView;

    open spec fn view(&self) -> SyncView {
        SyncView {
            last_sync: self.last_sync,
            lists: views(self.lists@),
            tasks: views(self.tasks@),
        }
    }
}

impl SyncData {
    /// A snapshot taken at `last_sync` that holds nothing.
    pub fn new(last_sync: i64) -> (r: SyncData)
        ensures
            r@.last_sync == last_sync,
            r@.lists.len() == 0,
            r@.tasks.len() == 0,
    {
        SyncData { last_sync, lists: Vec::new(), tasks: Vec::new() }
    }
}

impl Clone for SyncData {
    fn clone(&self) -> (r: Self)
        ensures
            r@ == self@,
    {
        SyncData {
            last_sync: self.last_sync,
            lists: duplicate_all(&self.lists),
            tasks: duplicate_all(&self.tasks),
        }
    }
}

/// A change to a task, for the local store to make in the named list.
#[derive(Debug)]
pub struct TaskWrite {
    pub list: String,
    pub write: Write<TaskEntry>,
}

/// The model of a `TaskWrite`.
pub struct TaskWriteView {
    pub list: Seq<char>,
    pub write: Write<TaskView>,
}

impl View for TaskWrite {
    type V = TaskWriteView;

    open spec fn view(&self) -> TaskWriteView {
        TaskWriteView { list: self.list@, write: self.write@ }
    }
}

/// What one pass decides: what to send, and what to write here. The store
/// makes the list writes in order, then the task writes in order, and stops
/// at the first that fails.
#[derive(Debug)]
pub struct SyncPlan {
    pub outbound: SyncData,
    pub list_writes: Vec<Write<ListEntry>>,
    pub task_writes: Vec<TaskWrite>,
}

/// The model of a `SyncPlan`.
pub struct SyncPlanView {
    pub outbound: SyncView,
    pub list_writes: Seq<Write<ListView>>,
    pub task_writes: Seq<TaskWriteView>,
}

impl View for SyncPlan {
    type V = SyncPlanView;

    open spec fn view(&self) -> SyncPlanView {
        SyncPlanView {
            outbound: self.outbound@,
            list_writes: views(self.list_writes@),
            task_writes: views(self.task_writes@),
        }
    }
}

/// A write with the name of the list in which it is made.
pub open spec fn in_list(list: Seq<char>) -> spec_fn(Write<TaskView>) -> TaskWriteView {
    |write: Write<TaskView>| TaskWriteView { list, write }
}

/// The tasks of one list with the name of the list.
pub open spec fn list_tasks(list: Seq<char>, tasks: Seq<TaskView>) -> ListTasksView {
    ListTasksView { list, tasks }
}

/// What is sent of the tasks of a list that is known here. Where the remote
/// party sends no tasks for the list, the tasks edited since `cutoff` go
/// out as they are, and nothing goes out if there are none. Where it sends
/// some, the two sides are merged.
pub open spec fn partition_outbound(
    mine: ListTasksView,
    theirs: Seq<ListTasksView>,
    cutoff: int,
) -> Seq<ListTasksView> {
    let edited = changed_since(mine.tasks, cutoff);
    if !has_key(theirs, mine.list) {
        if edited.len() == 0 {
            Seq::empty()
        } else {
            seq![list_tasks(mine.list, edited)]
        }
    } else {
        seq![list_tasks(mine.list, outbound(latest(edited), latest(counterpart(mine, theirs).tasks)))]
    }
}

/// What is written of the tasks of a list that is known here.
pub open spec fn partition_writes(
    mine: ListTasksView,
    theirs: Seq<ListTasksView>,
    cutoff: int,
) -> Seq<TaskWriteView> {
    if !has_key(theirs, mine.list) {
        Seq::empty()
    } else {
        local_writes(
            latest(changed_since(mine.tasks, cutoff)),
            latest(counterpart(mine, theirs).tasks),
            mine.tasks,
        ).map_values(in_list(mine.list))
    }
}

/// The task names the time of its last edit.
pub open spec fn has_edit_time() -> spec_fn(TaskView) -> bool {
    |task: TaskView| task.last_edited is Some
}

/// The tasks that are taken of a list that was not known here: those that
/// name the time of their last edit, in their order.
pub open spec fn arriving_tasks(theirs: ListTasksView) -> Seq<TaskView> {
    theirs.tasks.filter(has_edit_time())
}

/// The write for the task at `k` of `tasks`, in `list`: an insert, or an
/// update where the same id came earlier among `tasks`.
pub open spec fn arrival(list: Seq<char>, tasks: Seq<TaskView>, k: int) -> TaskWriteView {
    TaskWriteView {
        list,
        write: if has_key(tasks.take(k), tasks[k].id) {
            Write::Update(tasks[k])
        } else {
            Write::Insert(tasks[k])
        },
    }
}

/// What is written of the tasks that the remote party sends for one list:
/// nothing if the list was known here; else each task that names the time
/// of its last edit, in turn. A task without that time is left out.
pub open spec fn arrival_writes(theirs: ListTasksView, mine: Seq<ListTasksView>) -> Seq<
    TaskWriteView,
> {
    if has_key(mine, theirs.list) {
        Seq::empty()
    } else {
        Seq::new(
            arriving_tasks(theirs).len(),
            |k: int| arrival(theirs.list, arriving_tasks(theirs), k),
        )
    }
}

/// `partition_outbound` of one list of this side.
pub open spec fn sending(theirs: Seq<ListTasksView>, cutoff: int) -> spec_fn(ListTasksView) -> Seq<
    ListTasksView,
> {
    |mine: ListTasksView| partition_outbound(mine, theirs, cutoff)
}

/// `partition_writes` of one list of this side.
pub open spec fn writing(theirs: Seq<ListTasksView>, cutoff: int) -> spec_fn(ListTasksView) -> Seq<
    TaskWriteView,
> {
    |mine: ListTasksView| partition_writes(mine, theirs, cutoff)
}

/// `arrival_writes` of one list of the remote party.
pub open spec fn arriving(mine: Seq<ListTasksView>) -> spec_fn(ListTasksView) -> Seq<
    TaskWriteView,
> {
    |theirs: ListTasksView| arrival_writes(theirs, mine)
}

/// The tasks that are sent, list by list in the order of `mine`.
pub open spec fn tasks_outbound(
    mine: Seq<ListTasksView>,
    theirs: Seq<ListTasksView>,
    cutoff: int,
) -> Seq<ListTasksView> {
    mine.map_values(sending(theirs, cutoff)).flatten()
}

/// The task writes: those of the lists known here in the order of `mine`,
/// then those of the lists that were not, in the order of `theirs`.
pub open spec fn tasks_written(
    mine: Seq<ListTasksView>,
    theirs: Seq<ListTasksView>,
    cutoff: int,
) -> Seq<TaskWriteView> {
    mine.map_values(writing(theirs, cutoff)).flatten() + theirs.map_values(
        arriving(mine),
    ).flatten()
}

/// What a pass decides for the snapshot `local` of this side and the
/// snapshot `remote` that the other side sent, at time `now`.
pub open spec fn reconciled(local: SyncView, remote: SyncView, now: i64) -> SyncPlanView {
    let cutoff = normalized(remote.last_sync as int);
    let changed = latest(changed_since(local.lists, cutoff));
    SyncPlanView {
        outbound: SyncView {
            last_sync: now,
            lists: outbound(changed, latest(remote.lists)),
            tasks: tasks_outbound(latest(local.tasks), latest(remote.tasks), cutoff),
        },
        list_writes: local_writes(changed, latest(remote.lists), local.lists),
        task_writes: tasks_written(latest(local.tasks), latest(remote.tasks), cutoff),
    }
}

/// Merges the lists: `local_lists` holds those edited here since the last
/// exchange, `remote_lists` those that the remote party sends, `known` all
/// that the local store holds.
pub fn compare_and_save_lists(
    local_lists: &Vec<ListEntry>,
    remote_lists: &Vec<ListEntry>,
    known: &Vec<ListEntry>,
) -> (r: Merged<ListEntry>)
    ensures
        views(r.outbound@) == outbound(views(local_lists@), views(remote_lists@)),
        views(r.writes@) == local_writes(
            views(local_lists@),
            views(remote_lists@),
            views(known@),
        ),
{
    merge(local_lists, remote_lists, known)
}

/// Merges the tasks of `list`, as `compare_and_save_lists` does the lists,
/// and names the list in each write.
pub fn compare_and_save_tasks(
    list: &String,
    local_tasks: &Vec<TaskEntry>,
    remote_tasks: &Vec<TaskEntry>,
    known: &Vec<TaskEntry>,
) -> (r: (Vec<TaskEntry>, Vec<TaskWrite>))
    ensures
        views(r.0@) == outbound(views(local_tasks@), views(remote_tasks@)),
        views(r.1@) == local_writes(
            views(local_tasks@),
            views(remote_tasks@),
            views(known@),
        ).map_values(in_list(list@)),
{
    let merged = merge(local_tasks, remote_tasks, known);
    let ghost plain = views(merged.writes@);
    let mut tagged: Vec<TaskWrite> = Vec::new();
    let mut i: usize = 0;
    while i < merged.writes.len()
        invariant
            i <= merged.writes.len(),
            plain == views(merged.writes@),
            tagged@.len() == i,
            forall|j: int| 0 <= j < i ==> (#[trigger] tagged@[j])@ == in_list(list@)(plain[j]),
        decreases merged.writes.len() - i,
    {
        let write = match &merged.writes[i] {
            Write::Insert(e) => Write::Insert(e.clone()),
            Write::Update(e) => Write::Update(e.clone()),
        };
        assert(write@ == plain[i as int]);
        tagged.push(TaskWrite { list: list.clone(), write });
        i += 1;
    }
    assert(views(tagged@) =~= plain.map_values(in_list(list@)));
    (merged.outbound, tagged)
}

/// The tasks of `tasks` that name the time of their last edit.
pub fn with_edit_time(tasks: &Vec<TaskEntry>) -> (r: Vec<TaskEntry>)
    ensures
        views(r@) == views(tasks@).filter(has_edit_time()),
{
    let mut out: Vec<TaskEntry> = Vec::new();
    let ghost all = views(tasks@);
    let ghost pred = has_edit_time();
    let mut i: usize = 0;
    proof {
        reveal(Seq::filter);
        assert(all.take(0) =~= Seq::empty());
        assert(views(out@) =~= all.take(0).filter(pred));
    }
    while i < tasks.len()
        invariant
            i <= tasks.len(),
            all == views(tasks@),
            pred == has_edit_time(),
            views(out@) == all.take(i as int).filter(pred),
        decreases tasks.len() - i,
    {
        let ghost before = views(out@);
        proof {
            assert(all.take(i as int + 1) =~= all.take(i as int).push(tasks@[i as int]@));
            all.take(i as int).lemma_filter_push(tasks@[i as int]@, pred);
        }
        if tasks[i].last_edited.is_some() {
            out.push(tasks[i].clone());
            assert(views(out@) =~= before.push(tasks@[i as int]@));
        }
        i += 1;
    }
    proof {
        assert(all.take(tasks@.len() as int) =~= all);
    }
    out
}

/// The writes for the tasks of a list that was not known here.
pub fn arrivals(theirs: &ListTasks) -> (r: Vec<TaskWrite>)
    ensures
        views(r@) == Seq::new(
            arriving_tasks(theirs@).len(),
            |k: int| arrival(theirs@.list, arriving_tasks(theirs@), k),
        ),
{
    let taken = with_edit_time(&theirs.tasks);
    let mut out: Vec<TaskWrite> = Vec::new();
    let mut k: usize = 0;
    let ghost tasks = views(taken@);
    while k < taken.len()
        invariant
            k <= taken.len(),
            tasks == views(taken@),
            tasks == arriving_tasks(theirs@),
            out@.len() == k,
            forall|j: int| 0 <= j < k ==> (#[trigger] out@[j])@ == arrival(theirs@.list, tasks, j),
        decreases taken.len() - k,
    {
        let task = &taken[k];
        let first = find_position(&taken, &task.id);
        proof {
            lemma_position(tasks, task@.id);
            lemma_position(tasks.take(k as int), task@.id);
            assert(tasks[k as int] == task@);
            if first->0 < k {
                assert(tasks.take(k as int)[first->0 as int] == tasks[first->0 as int]);
            } else {
                assert forall|j: int| 0 <= j < k implies (#[trigger] tasks.take(k as int)[j]).key()
                    != task@.id by {
                    assert(tasks.take(k as int)[j] == tasks[j]);
                }
            }
        }
        let seen = match first {
            Some(p) => p < k,
            None => false,
        };
        let write = if seen {
            Write::Update(task.clone())
        } else {
            Write::Insert(task.clone())
        };
        out.push(TaskWrite { list: theirs.list.clone(), write });
        k += 1;
    }
    assert(views(out@) =~= Seq::new(
        arriving_tasks(theirs@).len(),
        |k: int| arrival(theirs@.list, arriving_tasks(theirs@), k),
    ));
    out
}

/// Decides one pass. `local` is all that this side holds, `data` what the
/// remote party sent; `data.last_sync` says when the two last exchanged, in
/// seconds or milliseconds. `now` becomes the time of the outbound snapshot.
pub fn compare_and_save(local: &SyncData, data: &SyncData, now: i64) -> (plan: SyncPlan)
    ensures
        plan@ == reconciled(local@, data@, now),
{
    let cutoff = normalized_wide(data.last_sync);
    let edited = changed_since_of(&local.lists, cutoff);
    let local_lists = latest_of(&edited);
    let remote_lists = latest_of(&data.lists);
    let lists = compare_and_save_lists(&local_lists, &remote_lists, &local.lists);
    let mine = latest_of(&local.tasks);
    let theirs = latest_of(&data.tasks);
    let ghost m = views(mine@);
    let ghost t = views(theirs@);
    let mut out_tasks: Vec<ListTasks> = Vec::new();
    let mut task_writes: Vec<TaskWrite> = Vec::new();
    let mut i: usize = 0;
    proof {
        assert(m.take(0).map_values(sending(t, cutoff as int)) =~= Seq::empty());
        assert(m.take(0).map_values(writing(t, cutoff as int)) =~= Seq::empty());
        assert(views(out_tasks@) =~= m.take(0).map_values(sending(t, cutoff as int)).flatten());
        assert(views(task_writes@) =~= m.take(0).map_values(
            writing(t, cutoff as int),
        ).flatten());
    }
    while i < mine.len()
        invariant
            i <= mine.len(),
            m == views(mine@),
            t == views(theirs@),
            views(out_tasks@) == m.take(i as int).map_values(sending(t, cutoff as int)).flatten(),
            views(task_writes@) == m.take(i as int).map_values(
                writing(t, cutoff as int),
            ).flatten(),
        decreases mine.len() - i,
    {
        let ghost out_before = views(out_tasks@);
        let ghost writes_before = views(task_writes@);
        let ghost part = mine@[i as int]@;
        proof {
            let sent = m.take(i as int).map_values(sending(t, cutoff as int));
            let written = m.take(i as int).map_values(writing(t, cutoff as int));
            assert(m.take(i as int + 1).map_values(sending(t, cutoff as int)) =~= sent.push(
                partition_outbound(part, t, cutoff as int),
            ));
            assert(m.take(i as int + 1).map_values(writing(t, cutoff as int)) =~= written.push(
                partition_writes(part, t, cutoff as int),
            ));
            sent.lemma_flatten_push(partition_outbound(part, t, cutoff as int));
            written.lemma_flatten_push(partition_writes(part, t, cutoff as int));
        }
        let edited_tasks = changed_since_of(&mine[i].tasks, cutoff);
        match find_position(&theirs, &mine[i].list) {
            None => {
                if edited_tasks.len() > 0 {
                    out_tasks.push(ListTasks { list: mine[i].list.clone(), tasks: edited_tasks });
                }
                assert(views(out_tasks@) =~= out_before + partition_outbound(
                    part,
                    t,
                    cutoff as int,
                ));
                assert(views(task_writes@) =~= writes_before + partition_writes(
                    part,
                    t,
                    cutoff as int,
                ));
            },
            Some(j) => {
                assert(t[j as int] == theirs@[j as int]@);
                let local_tasks = latest_of(&edited_tasks);
                let remote_tasks = latest_of(&theirs[j].tasks);
                let (sent, mut written) = compare_and_save_tasks(
                    &mine[i].list,
                    &local_tasks,
                    &remote_tasks,
                    &mine[i].tasks,
                );
                let ghost added = views(written@);
                out_tasks.push(ListTasks { list: mine[i].list.clone(), tasks: sent });
                task_writes.append(&mut written);
                assert(views(out_tasks@) =~= out_before + partition_outbound(
                    part,
                    t,
                    cutoff as int,
                ));
                assert(views(task_writes@) =~= writes_before + added);
            },
        }
        i += 1;
    }
    let ghost known_writes = views(task_writes@);
    let mut n: usize = 0;
    proof {
        assert(m.take(mine@.len() as int) =~= m);
        assert(t.take(0).map_values(arriving(m)) =~= Seq::empty());
        assert(views(task_writes@) =~= known_writes + t.take(0).map_values(
            arriving(m),
        ).flatten());
    }
    while n < theirs.len()
        invariant
            n <= theirs.len(),
            m == views(mine@),
            t == views(theirs@),
            views(task_writes@) == known_writes + t.take(n as int).map_values(
                arriving(m),
            ).flatten(),
        decreases theirs.len() - n,
    {
        let ghost writes_before = views(task_writes@);
        let ghost part = theirs@[n as int]@;
        proof {
            let arrived = t.take(n as int).map_values(arriving(m));
            assert(t.take(n as int + 1).map_values(arriving(m)) =~= arrived.push(
                arrival_writes(part, m),
            ));
            arrived.lemma_flatten_push(arrival_writes(part, m));
        }
        if find_position(&mine, &theirs[n].list).is_none() {
            let mut written = arrivals(&theirs[n]);
            let ghost added = views(written@);
            task_writes.append(&mut written);
            assert(views(task_writes@) =~= writes_before + added);
        }
        n += 1;
    }
    proof {
        assert(t.take(theirs@.len() as int) =~= t);
    }
    SyncPlan {
        outbound: SyncData { last_sync: now, lists: lists.outbound, tasks: out_tasks },
        list_writes: lists.writes,
        task_writes,
    }
}

/// Last writer wins, here: an entity that changed here and is at least as
/// new as its remote counterpart is sent, and no write touches its id.
pub proof fn lemma_newer_here_is_sent<T: Stamped>(
    changed: Seq<T>,
    theirs: Seq<T>,
    known: Seq<T>,
    i: int,
    j: int,
)
    requires
        distinct_keys(changed),
        distinct_keys(theirs),
        0 <= i < changed.len(),
        0 <= j < theirs.len(),
        changed[i].key() == theirs[j].key(),
        changed[i].edited() is Some,
        theirs[j].edited() is Some,
        changed[i].edited()->0 >= normalized(theirs[j].edited()->0 as int),
    ensures
        outbound(changed, theirs).contains(changed[i]),
        forall|w: Write<T>| #[trigger]
            local_writes(changed, theirs, known).contains(w) ==> w.entity().key() != changed[i].key(),
{
    let id = changed[i].key();
    lemma_position_of_member(theirs, j);
    lemma_position_of_member(changed, i);
    assert(verdict(changed[i], theirs) == Verdict::Push);
    changed.lemma_filter_contains(is_pushed(theirs), i);
    let taken = changed.filter(is_taken(theirs));
    let news = theirs.filter(is_news(changed));
    assert forall|w: Write<T>| #[trigger]
        local_writes(changed, theirs, known).contains(w) implies w.entity().key() != id by {
        let all = local_writes(changed, theirs, known);
        let n = choose|n: int| 0 <= n < all.len() && all[n] == w;
        if n < taken.len() {
            let m = taken[n];
            changed.lemma_filter_pred(is_taken(theirs), n);
            changed.lemma_filter_contains_rev(is_taken(theirs), m);
            let a = choose|a: int| 0 <= a < changed.len() && changed[a] == m;
            lemma_position(theirs, m.key());
            assert(w == upsert(counterpart(m, theirs), known));
            assert(w.entity().key() == m.key());
            if m.key() == id {
                assert(a == i);
            }
        } else {
            let r = news[n - taken.len()];
            theirs.lemma_filter_pred(is_news(changed), n - taken.len());
            assert(w == upsert(r, known));
        }
    }
}

/// Last writer wins, there: where the remote counterpart of an entity that
/// changed here is strictly newer, the counterpart is written to the store
/// as it came, and nothing with that id is sent.
pub proof fn lemma_newer_there_is_taken<T: Stamped>(
    changed: Seq<T>,
    theirs: Seq<T>,
    known: Seq<T>,
    i: int,
    j: int,
)
    requires
        distinct_keys(changed),
        distinct_keys(theirs),
        0 <= i < changed.len(),
        0 <= j < theirs.len(),
        changed[i].key() == theirs[j].key(),
        changed[i].edited() is Some,
        theirs[j].edited() is Some,
        normalized(theirs[j].edited()->0 as int) > changed[i].edited()->0,
    ensures
        local_writes(changed, theirs, known).contains(upsert(theirs[j], known)),
        has_key(known, theirs[j].key()) ==> local_writes(changed, theirs, known).contains(
            Write::Update(theirs[j]),
        ),
        forall|e: T| #[trigger] outbound(changed, theirs).contains(e) ==> e.key() != changed[i].key(),
{
    let id = changed[i].key();
    lemma_position_of_member(theirs, j);
    lemma_position_of_member(changed, i);
    assert(verdict(changed[i], theirs) == Verdict::Take);
    assert(counterpart(changed[i], theirs) == theirs[j]);
    changed.lemma_filter_contains(is_taken(theirs), i);
    let taken = changed.filter(is_taken(theirs));
    let n = choose|n: int| 0 <= n < taken.len() && taken[n] == changed[i];
    let all = local_writes(changed, theirs, known);
    assert(all[n] == upsert(theirs[j], known));
    assert forall|e: T| #[trigger] outbound(changed, theirs).contains(e) implies e.key() != id by {
        let sent = outbound(changed, theirs);
        let q = choose|q: int| 0 <= q < sent.len() && sent[q] == e;
        changed.lemma_filter_pred(is_pushed(theirs), q);
        changed.lemma_filter_contains_rev(is_pushed(theirs), e);
        let a = choose|a: int| 0 <= a < changed.len() && changed[a] == e;
        if e.key() == id {
            assert(a == i);
        }
    }
}

/// Every write carries an entity of theirs, as it came, that names the
/// time of its last edit.
pub proof fn lemma_writes_are_theirs<T: Stamped>(
    changed: Seq<T>,
    theirs: Seq<T>,
    known: Seq<T>,
    w: Write<T>,
)
    requires
        local_writes(changed, theirs, known).contains(w),
    ensures
        theirs.contains(w.entity()),
        w.entity().edited() is Some,
{
    let all = local_writes(changed, theirs, known);
    let taken = changed.filter(is_taken(theirs));
    let news = theirs.filter(is_news(changed));
    let n = choose|n: int| 0 <= n < all.len() && all[n] == w;
    if n < taken.len() {
        let mine = taken[n];
        changed.lemma_filter_pred(is_taken(theirs), n);
        lemma_position(theirs, mine.key());
        assert(w == upsert(counterpart(mine, theirs), known));
        assert(theirs[position(theirs, mine.key())->0] == w.entity());
    } else {
        let r = news[n - taken.len()];
        theirs.lemma_filter_pred(is_news(changed), n - taken.len());
        assert(news.contains(r));
        theirs.lemma_filter_contains_rev(is_news(changed), r);
        assert(w == upsert(r, known));
    }
}

/// An entity of theirs without the time of its last edit is frozen: no
/// write touches its id, and nothing with its id is sent.
pub proof fn lemma_without_edit_time_is_frozen<T: Stamped>(
    changed: Seq<T>,
    theirs: Seq<T>,
    known: Seq<T>,
    j: int,
)
    requires
        distinct_keys(theirs),
        0 <= j < theirs.len(),
        theirs[j].edited() is None,
    ensures
        forall|w: Write<T>| #[trigger]
            local_writes(changed, theirs, known).contains(w) ==> w.entity().key() != theirs[j].key(),
        forall|e: T| #[trigger] outbound(changed, theirs).contains(e) ==> e.key() != theirs[j].key(),
{
    assert forall|w: Write<T>| #[trigger]
        local_writes(changed, theirs, known).contains(w) implies w.entity().key()
        != theirs[j].key() by {
        lemma_writes_are_theirs(changed, theirs, known, w);
        let a = choose|a: int| 0 <= a < theirs.len() && theirs[a] == w.entity();
        assert(a != j);
    }
    assert forall|e: T| #[trigger] outbound(changed, theirs).contains(e) implies e.key()
        != theirs[j].key() by {
        let sent = outbound(changed, theirs);
        let n = choose|n: int| 0 <= n < sent.len() && sent[n] == e;
        changed.lemma_filter_pred(is_pushed(theirs), n);
        if e.key() == theirs[j].key() {
            lemma_position_of_member(theirs, j);
            assert(counterpart(e, theirs) == theirs[j]);
        }
    }
}

/// What only the remote party holds comes in: an entity of theirs with an
/// edit time whose id did not change here is written to the store.
pub proof fn lemma_news_is_written<T: Stamped>(
    changed: Seq<T>,
    theirs: Seq<T>,
    known: Seq<T>,
    j: int,
)
    requires
        0 <= j < theirs.len(),
        !has_key(changed, theirs[j].key()),
        theirs[j].edited() is Some,
    ensures
        local_writes(changed, theirs, known).contains(upsert(theirs[j], known)),
{
    theirs.lemma_filter_contains(is_news(changed), j);
    let news = theirs.filter(is_news(changed));
    let n = choose|n: int| 0 <= n < news.len() && news[n] == theirs[j];
    let taken = taken_writes(changed, theirs, known);
    let all = local_writes(changed, theirs, known);
    assert(all[taken.len() + n] == upsert(theirs[j], known));
}

/// Nothing was edited after `cutoff`: nothing changed.
pub proof fn lemma_nothing_changed<T: Stamped>(all: Seq<T>, cutoff: int)
    requires
        forall|i: int| 0 <= i < all.len() ==> !edited_after(#[trigger] all[i], cutoff),
    ensures
        changed_since(all, cutoff).len() == 0,
{
    let pred = is_edited_after::<T>(cutoff);
    assert(all.all(|x: T| !pred(x)));
    all.lemma_all_neg_filter_empty(pred);
}

/// No entity of a snapshot was edited after `cutoff`.
pub open spec fn settled(local: SyncView, cutoff: int) -> bool {
    &&& forall|i: int| 0 <= i < local.lists.len() ==> !edited_after(#[trigger] local.lists[i], cutoff)
    &&& forall|i: int, k: int|
        0 <= i < local.tasks.len() && 0 <= k < local.tasks[i].tasks.len() ==> !edited_after(
            #[trigger] local.tasks[i].tasks[k],
            cutoff,
        )
}

/// A pass that follows a pass sends nothing: where no entity here was
/// edited after the time of the last exchange that the remote party names,
/// the outbound snapshot holds no list and no task.
pub proof fn lemma_settled_sends_nothing(local: SyncView, remote: SyncView, now: i64)
    requires
        settled(local, normalized(remote.last_sync as int)),
    ensures
        reconciled(local, remote, now).outbound.lists.len() == 0,
        forall|i: int|
            0 <= i < reconciled(local, remote, now).outbound.tasks.len() ==> (
            #[trigger] reconciled(local, remote, now).outbound.tasks[i]).tasks.len() == 0,
{
    let cutoff = normalized(remote.last_sync as int);
    lemma_nothing_changed(local.lists, cutoff);
    assert(latest(changed_since(local.lists, cutoff)).len() == 0) by {
        reveal_with_fuel(latest, 1);
    }
    let changed = latest(changed_since(local.lists, cutoff));
    assert(outbound(changed, latest(remote.lists)).len() == 0) by {
        changed.lemma_filter_len(is_pushed(latest(remote.lists)));
    }
    let mine = latest(local.tasks);
    let theirs = latest(remote.tasks);
    lemma_latest_within(local.tasks);
    lemma_parts_send_nothing(mine, theirs, cutoff, local.tasks);
}

/// Lists of which no task was edited after `cutoff` send no task.
proof fn lemma_parts_send_nothing(
    mine: Seq<ListTasksView>,
    theirs: Seq<ListTasksView>,
    cutoff: int,
    all: Seq<ListTasksView>,
)
    requires
        forall|i: int, k: int|
            0 <= i < all.len() && 0 <= k < all[i].tasks.len() ==> !edited_after(
                #[trigger] all[i].tasks[k],
                cutoff,
            ),
        forall|i: int| 0 <= i < mine.len() ==> all.contains(#[trigger] mine[i]),
    ensures
        forall|i: int|
            0 <= i < tasks_outbound(mine, theirs, cutoff).len() ==> (#[trigger] tasks_outbound(
                mine,
                theirs,
                cutoff,
            )[i]).tasks.len() == 0,
    decreases mine.len(),
{
    let parts = mine.map_values(sending(theirs, cutoff));
    if mine.len() > 0 {
        let front = mine.drop_last();
        let last = mine.last();
        assert forall|i: int| 0 <= i < front.len() implies all.contains(#[trigger] front[i]) by {
            assert(front[i] == mine[i]);
        }
        lemma_parts_send_nothing(front, theirs, cutoff, all);
        let front_parts = front.map_values(sending(theirs, cutoff));
        assert(parts =~= front_parts.push(partition_outbound(last, theirs, cutoff)));
        front_parts.lemma_flatten_push(partition_outbound(last, theirs, cutoff));
        assert(all.contains(mine[mine.len() - 1]));
        let a = choose|a: int| 0 <= a < all.len() && all[a] == last;
        assert forall|k: int| 0 <= k < last.tasks.len() implies !edited_after(
            #[trigger] last.tasks[k],
            cutoff,
        ) by {
            assert(!edited_after(all[a].tasks[k], cutoff));
        }
        lemma_nothing_changed(last.tasks, cutoff);
        let edited = changed_since(last.tasks, cutoff);
        assert(latest(edited).len() == 0) by {
            reveal_with_fuel(latest, 1);
        }
        if has_key(theirs, last.list) {
            latest(edited).lemma_filter_len(is_pushed(latest(counterpart(last, theirs).tasks)));
        }
        let added = partition_outbound(last, theirs, cutoff);
        let total = tasks_outbound(mine, theirs, cutoff);
        let before = tasks_outbound(front, theirs, cutoff);
        assert(total == before + added);
        assert forall|i: int| 0 <= i < total.len() implies (#[trigger] total[i]).tasks.len()
            == 0 by {
            if i < before.len() {
                assert(total[i] == before[i]);
            } else {
                assert(total[i] == added[i - before.len()]);
            }
        }
    } else {
        assert(parts.flatten() =~= Seq::empty());
    }
}

} // verus!

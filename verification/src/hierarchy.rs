//! From flat tasks that name their parents to trees of nested tasks.

use crate::entity::{
    distinct_keys, find_position, has_key, latest, latest_of, lemma_latest, lemma_latest_of_distinct,
    lemma_position, lemma_position_of_member, position, views,
};
use crate::sync::{ListTasks, ListTasksView};
use crate::task::{
    flattened_all, lemma_subtask_views, list_entry_of, list_record_of, node_count, node_count_all,
    record_of, ListEntry, ListRecord, ListRecordView, ListView, RecordView, TaskEntry, TaskRecord,
    TaskView,
};
use vstd::prelude::*;

verus! {

/// Why no forest can be built.
#[derive(Debug, PartialEq, Eq, Structural, Clone, Copy)]
pub enum HierarchyError {
    /// Some task is its own ancestor.
    CyclicHierarchy,
}

/// Where the parent of the task at `i` stands. There is none for a task
/// that names no parent, and none for one whose parent is not among `es`.
pub open spec fn parent_index(es: Seq<TaskView>, i: int) -> Option<int> {
    match es[i].parent {
        Some(parent) => position(es, parent),
        None => None,
    }
}

/// Going from the task at `i` to its parent and on, a root is met among
/// the first `steps` tasks on the way.
pub open spec fn reaches_root(es: Seq<TaskView>, i: int, steps: nat) -> bool
    decreases steps,
{
    steps > 0 && match parent_index(es, i) {
        Some(p) => reaches_root(es, p, (steps - 1) as nat),
        None => true,
    }
}

/// No task of `es` is its own ancestor: from each, a root is reached.
pub open spec fn acyclic(es: Seq<TaskView>) -> bool {
    forall|i: int| 0 <= i < es.len() ==> reaches_root(es, i, es.len())
}

/// Whether a task belongs right under `anchor`: under the task with that
/// id or, with no anchor, at the top.
pub open spec fn hangs_under(es: Seq<TaskView>, anchor: Option<Seq<char>>) -> spec_fn(
    TaskView,
) -> bool {
    |e: TaskView|
        match anchor {
            Some(id) => e.parent == Some(id),
            None => match e.parent {
                Some(parent) => !has_key(es, parent),
                None => true,
            },
        }
}

/// The trees of the tasks that belong right under `anchor`, in the order
/// of `es`, each with the trees of its subtasks in it, `depth` levels deep.
pub open spec fn grove(es: Seq<TaskView>, anchor: Option<Seq<char>>, depth: nat) -> Seq<
    RecordView,
>
    decreases depth,
{
    if depth == 0 {
        Seq::empty()
    } else {
        es.filter(hangs_under(es, anchor)).map_values(
            |e: TaskView| record_of(e, grove(es, Some(e.id), (depth - 1) as nat)),
        )
    }
}

/// The forest of `es`: the tasks without a parent among `es` at the top,
/// and under each task those that name it as their parent.
pub open spec fn forest(es: Seq<TaskView>) -> Seq<RecordView> {
    grove(es, None, es.len())
}

/// `parents` holds, for each task of `es`, where its parent stands.
spec fn are_parents(parents: Seq<Option<usize>>, es: Seq<TaskView>) -> bool {
    &&& parents.len() == es.len()
    &&& forall|i: int|
        0 <= i < parents.len() ==> match #[trigger] parents[i] {
            Some(p) => p < parents.len() && parent_index(es, i) == Some(p as int),
            None => parent_index(es, i) is None,
        }
}

/// For each task, where its parent stands.
fn parent_indices(entries: &Vec<TaskEntry>) -> (r: Vec<Option<usize>>)
    ensures
        are_parents(r@, views(entries@)),
{
    let mut out: Vec<Option<usize>> = Vec::new();
    let mut i: usize = 0;
    while i < entries.len()
        invariant
            i <= entries.len(),
            out@.len() == i,
            forall|k: int|
                0 <= k < i ==> match #[trigger] out@[k] {
                    Some(p) => p < entries.len() && parent_index(views(entries@), k) == Some(
                        p as int,
                    ),
                    None => parent_index(views(entries@), k) is None,
                },
        decreases entries.len() - i,
    {
        assert(views(entries@)[i as int] == entries@[i as int]@);
        let found = match &entries[i].parent {
            Some(parent) => find_position(entries, parent),
            None => None,
        };
        out.push(found);
        i += 1;
    }
    out
}

/// Whether a root is reached from the task at `start`.
fn walks_to_root(parents: &Vec<Option<usize>>, start: usize, Ghost(es): Ghost<Seq<TaskView>>) -> (r:
    bool)
    requires
        start < parents.len(),
        are_parents(parents@, es),
    ensures
        r == reaches_root(es, start as int, es.len()),
{
    let mut at = start;
    let mut steps = parents.len();
    while steps > 0
        invariant
            at < parents.len(),
            steps <= parents.len(),
            are_parents(parents@, es),
            reaches_root(es, start as int, es.len()) == reaches_root(es, at as int, steps as nat),
        decreases steps,
    {
        match parents[at] {
            Some(p) => {
                at = p;
                steps -= 1;
            },
            None => {
                return true;
            },
        }
    }
    false
}

/// Whether no task is its own ancestor.
fn is_acyclic(entries: &Vec<TaskEntry>, parents: &Vec<Option<usize>>) -> (r: bool)
    requires
        are_parents(parents@, views(entries@)),
    ensures
        r == acyclic(views(entries@)),
{
    let mut i: usize = 0;
    while i < entries.len()
        invariant
            i <= entries.len(),
            are_parents(parents@, views(entries@)),
            forall|k: int| 0 <= k < i ==> reaches_root(views(entries@), k, views(entries@).len()),
        decreases entries.len() - i,
    {
        if !walks_to_root(parents, i, Ghost(views(entries@))) {
            return false;
        }
        i += 1;
    }
    true
}

/// The text of an optional id.
spec fn anchor_text(anchor: Option<&String>) -> Option<Seq<char>> {
    match anchor {
        Some(id) => Some(id@),
        None => None,
    }
}

/// The trees of the tasks that belong right under `anchor`.
fn grow(
    entries: &Vec<TaskEntry>,
    parents: &Vec<Option<usize>>,
    anchor: Option<&String>,
    depth: usize,
) -> (r: Vec<TaskRecord>)
    requires
        are_parents(parents@, views(entries@)),
    ensures
        views(r@) == grove(views(entries@), anchor_text(anchor), depth as nat),
    decreases depth,
{
    let mut out: Vec<TaskRecord> = Vec::new();
    let ghost es = views(entries@);
    let ghost under = anchor_text(anchor);
    if depth == 0 {
        assert(views(out@) =~= grove(es, under, 0));
        return out;
    }
    let ghost pred = hangs_under(es, under);
    let mut k: usize = 0;
    proof {
        reveal(Seq::filter);
        assert(es.take(0) =~= Seq::empty());
    }
    while k < entries.len()
        invariant
            k <= entries.len(),
            depth > 0,
            es == views(entries@),
            pred == hangs_under(es, under),
            under == anchor_text(anchor),
            are_parents(parents@, es),
            out@.len() == es.take(k as int).filter(pred).len(),
            forall|j: int|
                0 <= j < out@.len() ==> (#[trigger] out@[j])@ == record_of(
                    es.take(k as int).filter(pred)[j],
                    grove(es, Some(es.take(k as int).filter(pred)[j].id), (depth - 1) as nat),
                ),
        decreases entries.len() - k,
    {
        let entry = &entries[k];
        proof {
            assert(es[k as int] == entry@);
            assert(es.take(k as int + 1) =~= es.take(k as int).push(entry@));
            es.take(k as int).lemma_filter_push(entry@, pred);
            lemma_position(es, entry@.id);
        }
        let hangs = match anchor {
            Some(id) => match &entry.parent {
                Some(parent) => *parent == *id,
                None => false,
            },
            None => parents[k].is_none(),
        };
        assert(hangs == pred(entry@));
        if hangs {
            let mut record = TaskRecord::from_entry(entry);
            let subtasks = grow(entries, parents, Some(&entry.id), depth - 1);
            record.subtasks = subtasks;
            proof {
                lemma_subtask_views(&record);
                assert(record@ == record_of(
                    entry@,
                    grove(es, Some(entry@.id), (depth - 1) as nat),
                ));
            }
            out.push(record);
        }
        k += 1;
    }
    proof {
        assert(es.take(entries@.len() as int) =~= es);
        assert(views(out@) =~= grove(es, under, depth as nat));
    }
    out
}

/// Nests the tasks of one list: those without a parent among them at the
/// top, and in each task those that name it as their parent, in the order
/// in which they come. Of entries with the same id the last one counts.
/// Fails if some task is its own ancestor.
pub fn load_records(entries: &Vec<TaskEntry>) -> (r: Result<Vec<TaskRecord>, HierarchyError>)
    ensures
        match r {
            Ok(records) => {
                &&& acyclic(latest(views(entries@)))
                &&& views(records@) == forest(latest(views(entries@)))
                &&& node_count_all(views(records@)) == latest(views(entries@)).len()
                &&& distinct_keys(views(entries@)) ==> node_count_all(views(records@))
                    == entries@.len()
                &&& forall|j: int|
                    0 <= j < records@.len() ==> well_nested(
                        latest(views(entries@)),
                        #[trigger] views(records@)[j],
                    )
            },
            Err(e) => !acyclic(latest(views(entries@))),
        },
{
    let tasks = latest_of(entries);
    let parents = parent_indices(&tasks);
    if !is_acyclic(&tasks, &parents) {
        return Err(HierarchyError::CyclicHierarchy);
    }
    proof {
        lemma_latest(views(entries@));
        lemma_forest_holds_each_task_once(views(tasks@));
        lemma_forest_nests_children(views(tasks@));
        if distinct_keys(views(entries@)) {
            lemma_latest_of_distinct(views(entries@));
        }
    }
    Ok(grow(&tasks, &parents, None, tasks.len()))
}

/// How often the task at `i` stands in the trees that `grove` makes of the
/// first `k` tasks of `es`.
spec fn occurrences(
    es: Seq<TaskView>,
    i: int,
    anchor: Option<Seq<char>>,
    depth: nat,
    k: nat,
) -> nat
    decreases depth, k,
{
    if depth == 0 || k == 0 {
        0
    } else {
        let e = es[k - 1];
        occurrences(es, i, anchor, depth, (k - 1) as nat) + if hangs_under(es, anchor)(e) {
            (if k - 1 == i {
                1nat
            } else {
                0nat
            }) + occurrences(es, i, Some(e.id), (depth - 1) as nat, es.len())
        } else {
            0
        }
    }
}

/// How many nodes the trees have that `grove` makes of the first `k`
/// tasks of `es`.
spec fn nodes(es: Seq<TaskView>, anchor: Option<Seq<char>>, depth: nat, k: nat) -> nat
    decreases depth, k,
{
    if depth == 0 || k == 0 {
        0
    } else {
        let e = es[k - 1];
        nodes(es, anchor, depth, (k - 1) as nat) + if hangs_under(es, anchor)(e) {
            1 + nodes(es, Some(e.id), (depth - 1) as nat, es.len())
        } else {
            0
        }
    }
}

/// The occurrences of the first `m` tasks, added up.
spec fn occurrences_below(
    es: Seq<TaskView>,
    m: nat,
    anchor: Option<Seq<char>>,
    depth: nat,
    k: nat,
) -> nat
    decreases m,
{
    if m == 0 {
        0
    } else {
        occurrences_below(es, (m - 1) as nat, anchor, depth, k) + occurrences(
            es,
            m - 1,
            anchor,
            depth,
            k,
        )
    }
}

/// The nodes of trees in a row add up.
proof fn lemma_count_push(rs: Seq<RecordView>, r: RecordView)
    ensures
        node_count_all(rs.push(r)) == node_count_all(rs) + node_count(r),
{
    assert(rs.push(r).drop_last() =~= rs);
    assert(rs.push(r).last() == r);
}

/// `nodes` counts the nodes of what `grove` makes.
proof fn lemma_nodes_of_grove(es: Seq<TaskView>, anchor: Option<Seq<char>>, depth: nat)
    ensures
        node_count_all(grove(es, anchor, depth)) == nodes(es, anchor, depth, es.len()),
    decreases depth, 1nat,
{
    if depth > 0 {
        lemma_nodes_of_prefix(es, anchor, depth, es.len());
        assert(es.take(es.len() as int) =~= es);
        let nest = |e: TaskView| record_of(e, grove(es, Some(e.id), (depth - 1) as nat));
        assert(grove(es, anchor, depth) =~= es.filter(hangs_under(es, anchor)).map_values(nest));
    }
}

proof fn lemma_nodes_of_prefix(es: Seq<TaskView>, anchor: Option<Seq<char>>, depth: nat, k: nat)
    requires
        depth > 0,
        k <= es.len(),
    ensures
        node_count_all(
            es.take(k as int).filter(hangs_under(es, anchor)).map_values(
                |e: TaskView| record_of(e, grove(es, Some(e.id), (depth - 1) as nat)),
            ),
        ) == nodes(es, anchor, depth, k),
    decreases depth, 0nat, k,
{
    let pred = hangs_under(es, anchor);
    let nest = |e: TaskView| record_of(e, grove(es, Some(e.id), (depth - 1) as nat));
    if k == 0 {
        reveal(Seq::filter);
        assert(es.take(0) =~= Seq::empty());
        assert(es.take(0).filter(pred).map_values(nest) =~= Seq::empty());
    } else {
        let e = es[k - 1];
        lemma_nodes_of_prefix(es, anchor, depth, (k - 1) as nat);
        assert(es.take(k as int) =~= es.take(k - 1).push(e));
        es.take(k - 1).lemma_filter_push(e, pred);
        let before = es.take(k - 1).filter(pred).map_values(nest);
        if pred(e) {
            assert(es.take(k as int).filter(pred).map_values(nest) =~= before.push(nest(e)));
            lemma_count_push(before, nest(e));
            lemma_nodes_of_grove(es, Some(e.id), (depth - 1) as nat);
        }
    }
}

proof fn lemma_occurrences_below_step(
    es: Seq<TaskView>,
    m: nat,
    anchor: Option<Seq<char>>,
    depth: nat,
    k: nat,
)
    requires
        depth > 0,
        0 < k <= es.len(),
        m <= es.len(),
    ensures
        occurrences_below(es, m, anchor, depth, k) == occurrences_below(
            es,
            m,
            anchor,
            depth,
            (k - 1) as nat,
        ) + if hangs_under(es, anchor)(es[k - 1]) {
            (if k - 1 < m {
                1nat
            } else {
                0nat
            }) + occurrences_below(es, m, Some(es[k - 1].id), (depth - 1) as nat, es.len())
        } else {
            0
        },
    decreases m,
{
    if m > 0 {
        lemma_occurrences_below_step(es, (m - 1) as nat, anchor, depth, k);
    }
}

proof fn lemma_occurrences_below_nothing(
    es: Seq<TaskView>,
    m: nat,
    anchor: Option<Seq<char>>,
    depth: nat,
    k: nat,
)
    requires
        depth == 0 || k == 0,
    ensures
        occurrences_below(es, m, anchor, depth, k) == 0,
    decreases m,
{
    if m > 0 {
        lemma_occurrences_below_nothing(es, (m - 1) as nat, anchor, depth, k);
    }
}

/// Every node is an occurrence of one task.
proof fn lemma_nodes_are_occurrences(
    es: Seq<TaskView>,
    anchor: Option<Seq<char>>,
    depth: nat,
    k: nat,
)
    requires
        k <= es.len(),
    ensures
        nodes(es, anchor, depth, k) == occurrences_below(es, es.len(), anchor, depth, k),
    decreases depth, k,
{
    if depth == 0 || k == 0 {
        lemma_occurrences_below_nothing(es, es.len(), anchor, depth, k);
    } else {
        lemma_occurrences_below_step(es, es.len(), anchor, depth, k);
        lemma_nodes_are_occurrences(es, anchor, depth, (k - 1) as nat);
        lemma_nodes_are_occurrences(es, Some(es[k - 1].id), (depth - 1) as nat, es.len());
    }
}

/// One if `b`, else nothing.
spec fn one_if(b: bool) -> nat {
    if b {
        1
    } else {
        0
    }
}

/// A task stands wherever it belongs by itself, and once under each
/// occurrence of its parent that has a level left below it.
proof fn lemma_occurrences_follow_parent(
    es: Seq<TaskView>,
    i: int,
    anchor: Option<Seq<char>>,
    depth: nat,
    k: nat,
)
    requires
        distinct_keys(es),
        0 <= i < es.len(),
        k <= es.len(),
    ensures
        occurrences(es, i, anchor, depth, k) == one_if(
            depth >= 1 && i < k && hangs_under(es, anchor)(es[i]),
        ) + match parent_index(es, i) {
            Some(p) => if depth >= 1 {
                occurrences(es, p, anchor, (depth - 1) as nat, k)
            } else {
                0
            },
            None => 0,
        },
    decreases depth, k,
{
    if depth == 0 || k == 0 {
    } else {
        let j = k - 1;
        let e = es[j];
        lemma_occurrences_follow_parent(es, i, anchor, depth, (k - 1) as nat);
        lemma_occurrences_follow_parent(es, i, Some(e.id), (depth - 1) as nat, es.len());
        lemma_position_of_member(es, j);
        match es[i].parent {
            Some(parent) => {
                lemma_position(es, parent);
            },
            None => {},
        }
        match parent_index(es, i) {
            Some(p) => {
                assert((es[i].parent == Some(e.id)) == (p == j));
            },
            None => {
                assert(es[i].parent != Some(e.id));
            },
        }
    }
}

/// A task from which a root is reached stands once in the forest, if the
/// forest is deep enough for the way.
proof fn lemma_stands_once(es: Seq<TaskView>, i: int, steps: nat, depth: nat)
    requires
        distinct_keys(es),
        0 <= i < es.len(),
        reaches_root(es, i, steps),
        depth >= steps,
    ensures
        occurrences(es, i, None, depth, es.len()) == 1,
    decreases steps,
{
    lemma_occurrences_follow_parent(es, i, None, depth, es.len());
    match es[i].parent {
        Some(parent) => {
            lemma_position(es, parent);
        },
        None => {},
    }
    match parent_index(es, i) {
        Some(p) => {
            lemma_stands_once(es, p, (steps - 1) as nat, (depth - 1) as nat);
        },
        None => {},
    }
}

proof fn lemma_all_stand_once(es: Seq<TaskView>, m: nat)
    requires
        distinct_keys(es),
        acyclic(es),
        m <= es.len(),
    ensures
        occurrences_below(es, m, None, es.len(), es.len()) == m,
    decreases m,
{
    if m > 0 {
        lemma_all_stand_once(es, (m - 1) as nat);
        lemma_stands_once(es, m - 1, es.len(), es.len());
    }
}

/// Where ids are distinct and no task is its own ancestor, the forest has
/// one node for each task.
pub proof fn lemma_forest_holds_each_task_once(es: Seq<TaskView>)
    requires
        distinct_keys(es),
        acyclic(es),
    ensures
        node_count_all(forest(es)) == es.len(),
{
    lemma_nodes_of_grove(es, None, es.len());
    lemma_nodes_are_occurrences(es, None, es.len(), es.len());
    lemma_all_stand_once(es, es.len());
}

/// The tasks of `es` that name `id` as their parent, in their order.
pub open spec fn children_of(es: Seq<TaskView>, id: Seq<char>) -> Seq<TaskView> {
    es.filter(hangs_under(es, Some(id)))
}

/// The tasks of `es` that have no parent among `es`, in their order.
pub open spec fn roots_of(es: Seq<TaskView>) -> Seq<TaskView> {
    es.filter(hangs_under(es, None))
}

/// In the tree `r`, the subtasks of each node are exactly the tasks of
/// `es` that name that node as their parent.
pub open spec fn well_nested(es: Seq<TaskView>, r: RecordView) -> bool
    decreases r,
{
    &&& r.subtasks.len() == children_of(es, r.id).len()
    &&& forall|j: int|
        0 <= j < r.subtasks.len() ==> {
            &&& #[trigger] r.subtasks[j] == record_of(
                children_of(es, r.id)[j],
                r.subtasks[j].subtasks,
            )
            &&& well_nested(es, r.subtasks[j])
        }
}

/// The way to a root from each task under `anchor` is longer than what
/// the tasks have beyond `depth`: `depth` levels hold all that is below.
spec fn deep_enough(es: Seq<TaskView>, anchor: Option<Seq<char>>, depth: nat) -> bool {
    forall|a: int, steps: nat|
        0 <= a < es.len() && hangs_under(es, anchor)(es[a]) && #[trigger] reaches_root(
            es,
            a,
            steps,
        ) ==> depth + steps > es.len()
}

proof fn lemma_grove_nested(es: Seq<TaskView>, anchor: Option<Seq<char>>, depth: nat)
    requires
        distinct_keys(es),
        acyclic(es),
        deep_enough(es, anchor, depth),
    ensures
        forall|j: int|
            0 <= j < grove(es, anchor, depth).len() ==> well_nested(
                es,
                #[trigger] grove(es, anchor, depth)[j],
            ),
        depth > 0 ==> grove(es, anchor, depth).len() == es.filter(hangs_under(es, anchor)).len(),
        depth > 0 ==> forall|j: int|
            0 <= j < grove(es, anchor, depth).len() ==> #[trigger] grove(es, anchor, depth)[j]
                == record_of(
                es.filter(hangs_under(es, anchor))[j],
                grove(es, anchor, depth)[j].subtasks,
            ),
    decreases depth,
{
    if depth > 0 {
        let pred = hangs_under(es, anchor);
        let kept = es.filter(pred);
        let trees = grove(es, anchor, depth);
        assert forall|j: int| 0 <= j < trees.len() implies well_nested(es, #[trigger] trees[j]) by {
            let e = kept[j];
            es.lemma_filter_pred(pred, j);
            assert(kept.contains(e));
            es.lemma_filter_contains_rev(pred, e);
            let a = choose|a: int| 0 <= a < es.len() && es[a] == e;
            lemma_position_of_member(es, a);
            let below = (depth - 1) as nat;
            let sub = grove(es, Some(e.id), below);
            let kids = children_of(es, e.id);
            assert(trees[j] == record_of(e, sub));
            assert forall|b: int, steps: nat|
                0 <= b < es.len() && hangs_under(es, Some(e.id))(es[b]) && #[trigger] reaches_root(
                    es,
                    b,
                    steps,
                ) implies below + steps > es.len() by {
                assert(parent_index(es, b) == Some(a));
                assert(reaches_root(es, a, (steps - 1) as nat));
            }
            lemma_grove_nested(es, Some(e.id), below);
            if below == 0 {
                if kids.len() > 0 {
                    let c = kids[0];
                    es.lemma_filter_pred(hangs_under(es, Some(e.id)), 0);
                    assert(kids.contains(c));
                    es.lemma_filter_contains_rev(hangs_under(es, Some(e.id)), c);
                    let b = choose|b: int| 0 <= b < es.len() && es[b] == c;
                    assert(parent_index(es, b) == Some(a));
                    assert(reaches_root(es, b, es.len()));
                    assert(reaches_root(es, a, (es.len() - 1) as nat));
                    assert(false);
                }
            }
            assert(sub.len() == kids.len());
        }
    }
}

/// Where ids are distinct and no task is its own ancestor, the top of the
/// forest holds exactly the tasks without a parent among them, and each
/// node holds exactly the tasks that name it as their parent.
pub proof fn lemma_forest_nests_children(es: Seq<TaskView>)
    requires
        distinct_keys(es),
        acyclic(es),
    ensures
        forest(es).len() == roots_of(es).len(),
        forall|j: int|
            0 <= j < forest(es).len() ==> #[trigger] forest(es)[j] == record_of(
                roots_of(es)[j],
                forest(es)[j].subtasks,
            ),
        forall|j: int| 0 <= j < forest(es).len() ==> well_nested(es, #[trigger] forest(es)[j]),
{
    if es.len() == 0 {
        reveal(Seq::filter);
    } else {
        lemma_grove_nested(es, None, es.len());
    }
}

/// The tasks that `tasks` holds for `list`: none where it does not name
/// the list.
pub open spec fn tasks_in(tasks: Seq<ListTasksView>, list: Seq<char>) -> Seq<TaskView> {
    match position(tasks, list) {
        Some(j) => tasks[j].tasks,
        None => Seq::empty(),
    }
}

/// A list as it is shown, with the forest of its tasks.
pub open spec fn shown(list: ListView, tasks: Seq<ListTasksView>) -> ListRecordView {
    list_record_of(list, forest(latest(tasks_in(tasks, list.uuid))))
}

/// All lists as they are shown, each with the forest of the tasks that
/// `tasks` holds for it. Fails if in some list a task is its own ancestor.
pub fn load_tasks(lists: &Vec<ListEntry>, tasks: &Vec<ListTasks>) -> (r: Result<
    Vec<ListRecord>,
    HierarchyError,
>)
    ensures
        match r {
            Ok(records) => {
                &&& records@.len() == lists@.len()
                &&& forall|i: int|
                    0 <= i < lists@.len() ==> acyclic(
                        latest(tasks_in(views(tasks@), (#[trigger] lists@[i])@.uuid)),
                    )
                &&& forall|i: int|
                    0 <= i < lists@.len() ==> (#[trigger] records@[i])@ == shown(
                        lists@[i]@,
                        views(tasks@),
                    )
            },
            Err(e) => exists|i: int|
                0 <= i < lists@.len() && !acyclic(
                    latest(tasks_in(views(tasks@), (#[trigger] lists@[i])@.uuid)),
                ),
        },
{
    let mut out: Vec<ListRecord> = Vec::new();
    let mut i: usize = 0;
    while i < lists.len()
        invariant
            i <= lists.len(),
            out@.len() == i,
            forall|k: int|
                0 <= k < i ==> acyclic(latest(tasks_in(views(tasks@), (#[trigger] lists@[k])@.uuid))),
            forall|k: int|
                0 <= k < i ==> (#[trigger] out@[k])@ == shown(lists@[k]@, views(tasks@)),
        decreases lists.len() - i,
    {
        let mut record = ListRecord::from_entry(&lists[i]);
        let nested = match find_position(tasks, &lists[i].uuid) {
            Some(j) => {
                assert(views(tasks@)[j as int] == tasks@[j as int]@);
                load_records(&tasks[j].tasks)
            },
            None => {
                let none: Vec<TaskEntry> = Vec::new();
                assert(views(none@) =~= Seq::empty());
                load_records(&none)
            },
        };
        match nested {
            Ok(forest) => {
                record.tasks = forest;
            },
            Err(e) => {
                return Err(e);
            },
        }
        out.push(record);
        i += 1;
    }
    Ok(out)
}

/// A list and all its tasks as the store is to hold them.
#[derive(Debug)]
pub struct ListMigration {
    pub list: ListEntry,
    pub tasks: Vec<TaskEntry>,
}

/// What the store is to hold for the lists `lists`: for each its entry
/// and, tree by tree, the entries of its tasks, each tree's root without a
/// parent.
pub fn migrate_tasks(lists: &Vec<ListRecord>) -> (r: Vec<ListMigration>)
    ensures
        r@.len() == lists@.len(),
        forall|i: int|
            0 <= i < r@.len() ==> (#[trigger] r@[i]).list@ == list_entry_of(lists@[i]@) && views(
                r@[i].tasks@,
            ) == flattened_all(lists@[i]@.tasks, None),
{
    let mut out: Vec<ListMigration> = Vec::new();
    let mut i: usize = 0;
    while i < lists.len()
        invariant
            i <= lists.len(),
            out@.len() == i,
            forall|k: int|
                0 <= k < i ==> (#[trigger] out@[k]).list@ == list_entry_of(lists@[k]@) && views(
                    out@[k].tasks@,
                ) == flattened_all(lists@[k]@.tasks, None),
        decreases lists.len() - i,
    {
        let list = &lists[i];
        let entry = ListEntry::from_record(list);
        let mut tasks: Vec<TaskEntry> = Vec::new();
        let ghost trees = views(list.tasks@);
        let mut t: usize = 0;
        proof {
            assert(trees.take(0) =~= Seq::empty());
            assert(views(tasks@) =~= flattened_all(trees.take(0), None));
        }
        while t < list.tasks.len()
            invariant
                t <= list.tasks.len(),
                trees == views(list.tasks@),
                views(tasks@) == flattened_all(trees.take(t as int), None),
            decreases list.tasks.len() - t,
        {
            let ghost before = views(tasks@);
            let mut more = TaskEntry::entries_from_record(&list.tasks[t], None);
            let ghost added = views(more@);
            tasks.append(&mut more);
            proof {
                assert(trees.take(t as int + 1).drop_last() =~= trees.take(t as int));
                assert(trees.take(t as int + 1).last() == list.tasks@[t as int]@);
                assert(views(tasks@) =~= before + added);
            }
            t += 1;
        }
        proof {
            assert(trees.take(list.tasks@.len() as int) =~= trees);
        }
        out.push(ListMigration { list: entry, tasks });
        i += 1;
    }
    out
}

} // verus!

//! What a pass guarantees of each pair of entities that share an id: the
//! one edited last wins, for lists and for the tasks of each list.

use crate::entity::{
    distinct_keys, has_key, latest, lemma_latest_of_distinct, lemma_position,
    lemma_position_of_member, position, Keyed, Stamped,
};
use crate::sync::{
    arrival, arrival_writes, arriving, arriving_tasks, changed_since, counterpart, edited_after,
    has_edit_time, in_list, is_edited_after, is_pushed, lemma_newer_here_is_sent,
    lemma_newer_there_is_taken, lemma_news_is_written, lemma_without_edit_time_is_frozen,
    local_writes, outbound, partition_outbound, partition_writes, reconciled, sending,
    tasks_outbound, tasks_written, writing, ListTasksView, SyncView, TaskWriteView, Write,
};
use crate::task::{ListView, TaskView};
use crate::timestamp::normalized;
use vstd::prelude::*;

verus! {

/// Each element of each part is an element of the parts in a row.
pub proof fn lemma_flatten_member<A>(parts: Seq<Seq<A>>, x: int, y: int)
    requires
        0 <= x < parts.len(),
        0 <= y < parts[x].len(),
    ensures
        parts.flatten().contains(parts[x][y]),
    decreases parts.len(),
{
    let front = parts.drop_last();
    assert(parts =~= front.push(parts.last()));
    front.lemma_flatten_push(parts.last());
    let all = parts.flatten();
    if x == parts.len() - 1 {
        assert(all[front.flatten().len() + y] == parts[x][y]);
    } else {
        lemma_flatten_member(front, x, y);
        let n = choose|n: int| 0 <= n < front.flatten().len() && front.flatten()[n] == front[x][y];
        assert(all[n] == parts[x][y]);
    }
}

/// Each element of the parts in a row is an element of one part.
pub proof fn lemma_flatten_origin<A>(parts: Seq<Seq<A>>, e: A)
    requires
        parts.flatten().contains(e),
    ensures
        exists|x: int| 0 <= x < parts.len() && (#[trigger] parts[x]).contains(e),
    decreases parts.len(),
{
    if parts.len() == 0 {
        assert(parts.flatten() =~= Seq::empty());
    } else {
        let front = parts.drop_last();
        assert(parts =~= front.push(parts.last()));
        front.lemma_flatten_push(parts.last());
        let all = parts.flatten();
        let n = choose|n: int| 0 <= n < all.len() && all[n] == e;
        if n < front.flatten().len() {
            assert(front.flatten()[n] == e);
            lemma_flatten_origin(front, e);
            let x = choose|x: int| 0 <= x < front.len() && (#[trigger] front[x]).contains(e);
            assert(parts[x] == front[x]);
        } else {
            assert(parts.last()[n - front.flatten().len()] == e);
            assert(parts[parts.len() - 1].contains(e));
        }
    }
}

/// What is kept of distinct keys is distinct.
pub proof fn lemma_filter_keeps_distinct<T: Keyed>(s: Seq<T>, pred: spec_fn(T) -> bool)
    requires
        distinct_keys(s),
    ensures
        distinct_keys(s.filter(pred)),
        forall|i: int|
            0 <= i < s.filter(pred).len() ==> s.contains(#[trigger] s.filter(pred)[i]),
    decreases s.len(),
{
    reveal(Seq::filter);
    if s.len() > 0 {
        let front = s.drop_last();
        assert forall|i: int, j: int| 0 <= i < j < front.len() implies (#[trigger] front[i]).key()
            != (#[trigger] front[j]).key() by {
            assert(front[i] == s[i] && front[j] == s[j]);
        }
        lemma_filter_keeps_distinct(front, pred);
        let kept = s.filter(pred);
        let before = front.filter(pred);
        assert forall|i: int| 0 <= i < kept.len() implies s.contains(#[trigger] kept[i]) by {
            if i < before.len() {
                assert(kept[i] == before[i]);
                assert(front.contains(before[i]));
                let a = choose|a: int| 0 <= a < front.len() && front[a] == before[i];
                assert(s[a] == kept[i]);
            } else {
                assert(s[s.len() - 1] == kept[i]);
            }
        }
        assert forall|i: int, j: int| 0 <= i < j < kept.len() implies (#[trigger] kept[i]).key()
            != (#[trigger] kept[j]).key() by {
            if j < before.len() {
                assert(kept[i] == before[i] && kept[j] == before[j]);
            } else {
                assert(kept[i] == before[i]);
                assert(front.contains(before[i]));
                let a = choose|a: int| 0 <= a < front.len() && front[a] == before[i];
                assert(s[a] == kept[i]);
                assert(kept[j] == s[s.len() - 1]);
            }
        }
    }
}

/// Among entities with distinct ids, those edited after `cutoff` are what
/// changed, each under its id.
pub proof fn lemma_changed_of_distinct<T: Stamped>(all: Seq<T>, cutoff: int)
    requires
        distinct_keys(all),
    ensures
        latest(changed_since(all, cutoff)) == changed_since(all, cutoff),
        distinct_keys(changed_since(all, cutoff)),
        forall|i: int|
            0 <= i < all.len() && edited_after(all[i], cutoff) ==> changed_since(
                all,
                cutoff,
            ).contains(#[trigger] all[i]),
{
    lemma_filter_keeps_distinct(all, is_edited_after(cutoff));
    lemma_latest_of_distinct(changed_since(all, cutoff));
    assert forall|i: int| 0 <= i < all.len() && edited_after(all[i], cutoff) implies changed_since(
        all,
        cutoff,
    ).contains(#[trigger] all[i]) by {
        all.lemma_filter_contains(is_edited_after(cutoff), i);
    }
}

/// Last writer wins, there, whether or not the entity changed here: where
/// the remote counterpart of an entity that the store holds is strictly
/// newer, the store takes the counterpart as it came, and nothing with
/// that id is sent.
pub proof fn lemma_newer_there_wins<T: Stamped>(all: Seq<T>, theirs: Seq<T>, cutoff: int, i: int, j: int)
    requires
        distinct_keys(all),
        distinct_keys(theirs),
        0 <= i < all.len(),
        0 <= j < theirs.len(),
        all[i].key() == theirs[j].key(),
        all[i].edited() is Some,
        theirs[j].edited() is Some,
        normalized(theirs[j].edited()->0 as int) > all[i].edited()->0,
    ensures
        local_writes(changed_since(all, cutoff), theirs, all).contains(Write::Update(theirs[j])),
        forall|e: T| #[trigger]
            outbound(changed_since(all, cutoff), theirs).contains(e) ==> e.key() != all[i].key(),
{
    let changed = changed_since(all, cutoff);
    let pred = is_edited_after::<T>(cutoff);
    lemma_changed_of_distinct(all, cutoff);
    lemma_position_of_member(all, i);
    assert(has_key(all, theirs[j].key()));
    if edited_after(all[i], cutoff) {
        assert(changed.contains(all[i]));
        let a = choose|a: int| 0 <= a < changed.len() && changed[a] == all[i];
        lemma_newer_there_is_taken(changed, theirs, all, a, j);
    } else {
        lemma_filter_keeps_distinct(all, pred);
        assert forall|x: int| 0 <= x < changed.len() implies (#[trigger] changed[x]).key()
            != all[i].key() by {
            all.lemma_filter_pred(pred, x);
            assert(all.contains(changed[x]));
            let a = choose|a: int| 0 <= a < all.len() && all[a] == changed[x];
            if all[a].key() == all[i].key() {
                assert(a == i);
            }
        }
        lemma_position(changed, theirs[j].key());
        lemma_news_is_written(changed, theirs, all, j);
        assert forall|e: T| #[trigger] outbound(changed, theirs).contains(e) implies e.key()
            != all[i].key() by {
            changed.lemma_filter_contains_rev(is_pushed(theirs), e);
            let x = choose|x: int| 0 <= x < changed.len() && changed[x] == e;
        }
    }
}

/// A list edited here since the last exchange, and not before its remote
/// counterpart was, is sent, and no write touches it.
pub proof fn lemma_list_newer_here(local: SyncView, remote: SyncView, now: i64, i: int, j: int)
    requires
        distinct_keys(local.lists),
        distinct_keys(remote.lists),
        0 <= i < local.lists.len(),
        0 <= j < remote.lists.len(),
        local.lists[i].uuid == remote.lists[j].uuid,
        local.lists[i].last_edited is Some,
        remote.lists[j].last_edited is Some,
        local.lists[i].last_edited->0 > normalized(remote.last_sync as int),
        local.lists[i].last_edited->0 >= normalized(remote.lists[j].last_edited->0 as int),
    ensures
        reconciled(local, remote, now).outbound.lists.contains(local.lists[i]),
        forall|w: Write<ListView>| #[trigger]
            reconciled(local, remote, now).list_writes.contains(w) ==> w.entity().uuid
                != local.lists[i].uuid,
{
    let cutoff = normalized(remote.last_sync as int);
    let changed = changed_since(local.lists, cutoff);
    lemma_changed_of_distinct(local.lists, cutoff);
    lemma_latest_of_distinct(remote.lists);
    assert(changed.contains(local.lists[i]));
    let a = choose|a: int| 0 <= a < changed.len() && changed[a] == local.lists[i];
    lemma_newer_here_is_sent(changed, remote.lists, local.lists, a, j);
    assert forall|w: Write<ListView>| #[trigger]
        reconciled(local, remote, now).list_writes.contains(w) implies w.entity().uuid
        != local.lists[i].uuid by {
        assert(local_writes(changed, remote.lists, local.lists).contains(w));
        assert(w.entity().key() == w.entity().uuid);
    }
}

/// Where the remote counterpart of a list that the store holds is strictly
/// newer, the store takes the counterpart as it came, and the list is not
/// sent.
pub proof fn lemma_list_newer_there(local: SyncView, remote: SyncView, now: i64, i: int, j: int)
    requires
        distinct_keys(local.lists),
        distinct_keys(remote.lists),
        0 <= i < local.lists.len(),
        0 <= j < remote.lists.len(),
        local.lists[i].uuid == remote.lists[j].uuid,
        local.lists[i].last_edited is Some,
        remote.lists[j].last_edited is Some,
        normalized(remote.lists[j].last_edited->0 as int) > local.lists[i].last_edited->0,
    ensures
        reconciled(local, remote, now).list_writes.contains(Write::Update(remote.lists[j])),
        forall|e: ListView| #[trigger]
            reconciled(local, remote, now).outbound.lists.contains(e) ==> e.uuid
                != local.lists[i].uuid,
{
    let cutoff = normalized(remote.last_sync as int);
    let changed = changed_since(local.lists, cutoff);
    lemma_changed_of_distinct(local.lists, cutoff);
    lemma_latest_of_distinct(remote.lists);
    lemma_newer_there_wins(local.lists, remote.lists, cutoff, i, j);
    assert forall|e: ListView| #[trigger]
        reconciled(local, remote, now).outbound.lists.contains(e) implies e.uuid
        != local.lists[i].uuid by {
        assert(outbound(changed, remote.lists).contains(e));
        assert(e.key() == e.uuid);
    }
}

/// The lists of both sides have distinct ids, and so have the tasks of
/// the list at `p` here and of the same list, at `q`, there.
pub open spec fn same_list(local: SyncView, remote: SyncView, p: int, q: int) -> bool {
    &&& distinct_keys(local.tasks)
    &&& distinct_keys(remote.tasks)
    &&& 0 <= p < local.tasks.len()
    &&& 0 <= q < remote.tasks.len()
    &&& local.tasks[p].list == remote.tasks[q].list
    &&& distinct_keys(local.tasks[p].tasks)
    &&& distinct_keys(remote.tasks[q].tasks)
}

/// A task write for another list than `list` or another task than `id`.
pub open spec fn spares(w: TaskWriteView, list: Seq<char>, id: Seq<char>) -> bool {
    w.list != list || w.write.entity().id != id
}

/// Every task write of a pass belongs to one list: to a list known here,
/// as a write of its merge, or to a list that was not known here.
proof fn lemma_task_write_origin(
    mine: Seq<ListTasksView>,
    theirs: Seq<ListTasksView>,
    cutoff: int,
    w: TaskWriteView,
)
    requires
        tasks_written(mine, theirs, cutoff).contains(w),
    ensures
        (exists|x: int| 0 <= x < mine.len() && partition_writes(#[trigger] mine[x], theirs, cutoff).contains(w))
            || (exists|y: int|
            0 <= y < theirs.len() && arrival_writes(#[trigger] theirs[y], mine).contains(w)),
{
    let known = mine.map_values(writing(theirs, cutoff));
    let news = theirs.map_values(arriving(mine));
    let all = tasks_written(mine, theirs, cutoff);
    let n = choose|n: int| 0 <= n < all.len() && all[n] == w;
    if n < known.flatten().len() {
        assert(known.flatten()[n] == w);
        lemma_flatten_origin(known, w);
        let x = choose|x: int| 0 <= x < known.len() && (#[trigger] known[x]).contains(w);
        assert(partition_writes(mine[x], theirs, cutoff).contains(w));
    } else {
        assert(news.flatten()[n - known.flatten().len()] == w);
        lemma_flatten_origin(news, w);
        let y = choose|y: int| 0 <= y < news.len() && (#[trigger] news[y]).contains(w);
        assert(arrival_writes(theirs[y], mine).contains(w));
    }
}

/// The writes of a pass that touch a task of the list at `p` are writes
/// of the merge of that list.
proof fn lemma_task_writes_of_list(
    local: SyncView,
    remote: SyncView,
    now: i64,
    p: int,
    q: int,
    w: TaskWriteView,
)
    requires
        same_list(local, remote, p, q),
        reconciled(local, remote, now).task_writes.contains(w),
        w.list == local.tasks[p].list,
    ensures
        local_writes(
            changed_since(local.tasks[p].tasks, normalized(remote.last_sync as int)),
            remote.tasks[q].tasks,
            local.tasks[p].tasks,
        ).contains(w.write),
{
    let cutoff = normalized(remote.last_sync as int);
    let mine = local.tasks;
    let theirs = remote.tasks;
    lemma_latest_of_distinct(mine);
    lemma_latest_of_distinct(theirs);
    lemma_position_of_member(theirs, q);
    lemma_position_of_member(mine, p);
    lemma_changed_of_distinct(mine[p].tasks, cutoff);
    lemma_latest_of_distinct(theirs[q].tasks);
    lemma_task_write_origin(mine, theirs, cutoff, w);
    if exists|x: int|
        0 <= x < mine.len() && partition_writes(#[trigger] mine[x], theirs, cutoff).contains(w) {
        let x = choose|x: int|
            0 <= x < mine.len() && partition_writes(#[trigger] mine[x], theirs, cutoff).contains(w);
        let part = partition_writes(mine[x], theirs, cutoff);
        let n = choose|n: int| 0 <= n < part.len() && part[n] == w;
        assert(has_key(theirs, mine[x].list));
        let plain = local_writes(
            latest(changed_since(mine[x].tasks, cutoff)),
            latest(counterpart(mine[x], theirs).tasks),
            mine[x].tasks,
        );
        assert(part[n] == in_list(mine[x].list)(plain[n]));
        assert(mine[x].list == mine[p].list);
        assert(x == p);
        assert(counterpart(mine[p], theirs) == theirs[q]);
        assert(plain[n] == w.write);
    } else {
        let y = choose|y: int|
            0 <= y < theirs.len() && arrival_writes(#[trigger] theirs[y], mine).contains(w);
        let part = arrival_writes(theirs[y], mine);
        let n = choose|n: int| 0 <= n < part.len() && part[n] == w;
        assert(!has_key(mine, theirs[y].list));
        assert(part[n].list == theirs[y].list);
        assert(false);
    }
}

/// A task edited here since the last exchange, and not before its remote
/// counterpart was, is sent under its list, and no write touches it.
pub proof fn lemma_task_newer_here(
    local: SyncView,
    remote: SyncView,
    now: i64,
    p: int,
    q: int,
    i: int,
    j: int,
)
    requires
        same_list(local, remote, p, q),
        0 <= i < local.tasks[p].tasks.len(),
        0 <= j < remote.tasks[q].tasks.len(),
        local.tasks[p].tasks[i].id == remote.tasks[q].tasks[j].id,
        local.tasks[p].tasks[i].last_edited is Some,
        remote.tasks[q].tasks[j].last_edited is Some,
        local.tasks[p].tasks[i].last_edited->0 > normalized(remote.last_sync as int),
        local.tasks[p].tasks[i].last_edited->0 >= normalized(
            remote.tasks[q].tasks[j].last_edited->0 as int,
        ),
    ensures
        exists|k: int|
            0 <= k < reconciled(local, remote, now).outbound.tasks.len() && (#[trigger] reconciled(
                local,
                remote,
                now,
            ).outbound.tasks[k]).list == local.tasks[p].list && reconciled(
                local,
                remote,
                now,
            ).outbound.tasks[k].tasks.contains(local.tasks[p].tasks[i]),
        forall|w: TaskWriteView| #[trigger]
            reconciled(local, remote, now).task_writes.contains(w) ==> spares(
                w,
                local.tasks[p].list,
                local.tasks[p].tasks[i].id,
            ),
{
    let cutoff = normalized(remote.last_sync as int);
    let mine = local.tasks;
    let theirs = remote.tasks;
    let task = mine[p].tasks[i];
    let changed = changed_since(mine[p].tasks, cutoff);
    lemma_latest_of_distinct(mine);
    lemma_latest_of_distinct(theirs);
    lemma_position_of_member(theirs, q);
    lemma_changed_of_distinct(mine[p].tasks, cutoff);
    lemma_latest_of_distinct(theirs[q].tasks);
    assert(changed.contains(task));
    let a = choose|a: int| 0 <= a < changed.len() && changed[a] == task;
    lemma_newer_here_is_sent(changed, theirs[q].tasks, mine[p].tasks, a, j);
    let sent = mine.map_values(sending(theirs, cutoff));
    assert(counterpart(mine[p], theirs) == theirs[q]);
    assert(sent[p] == partition_outbound(mine[p], theirs, cutoff));
    lemma_flatten_member(sent, p, 0);
    let out = reconciled(local, remote, now).outbound.tasks;
    assert(out == sent.flatten());
    let k = choose|k: int| 0 <= k < out.len() && out[k] == sent[p][0];
    assert(out[k].list == mine[p].list && out[k].tasks.contains(task));
    assert forall|w: TaskWriteView| #[trigger]
        reconciled(local, remote, now).task_writes.contains(w) implies spares(
        w,
        mine[p].list,
        task.id,
    ) by {
        if w.list == mine[p].list {
            lemma_task_writes_of_list(local, remote, now, p, q, w);
            assert(w.write.entity().key() == w.write.entity().id);
        }
    }
}

/// Where the remote counterpart of a task that the store holds is strictly
/// newer, the store takes the counterpart as it came, and the task is sent
/// under no list of that name.
pub proof fn lemma_task_newer_there(
    local: SyncView,
    remote: SyncView,
    now: i64,
    p: int,
    q: int,
    i: int,
    j: int,
)
    requires
        same_list(local, remote, p, q),
        0 <= i < local.tasks[p].tasks.len(),
        0 <= j < remote.tasks[q].tasks.len(),
        local.tasks[p].tasks[i].id == remote.tasks[q].tasks[j].id,
        local.tasks[p].tasks[i].last_edited is Some,
        remote.tasks[q].tasks[j].last_edited is Some,
        normalized(remote.tasks[q].tasks[j].last_edited->0 as int)
            > local.tasks[p].tasks[i].last_edited->0,
    ensures
        reconciled(local, remote, now).task_writes.contains(
            TaskWriteView {
                list: local.tasks[p].list,
                write: Write::Update(remote.tasks[q].tasks[j]),
            },
        ),
        forall|k: int, e: TaskView|
            0 <= k < reconciled(local, remote, now).outbound.tasks.len() && (#[trigger] reconciled(
                local,
                remote,
                now,
            ).outbound.tasks[k]).list == local.tasks[p].list && #[trigger] reconciled(
                local,
                remote,
                now,
            ).outbound.tasks[k].tasks.contains(e) ==> e.id != local.tasks[p].tasks[i].id,
{
    let cutoff = normalized(remote.last_sync as int);
    let mine = local.tasks;
    let theirs = remote.tasks;
    let task = mine[p].tasks[i];
    let changed = changed_since(mine[p].tasks, cutoff);
    lemma_latest_of_distinct(mine);
    lemma_latest_of_distinct(theirs);
    lemma_position_of_member(theirs, q);
    lemma_position_of_member(mine, p);
    lemma_changed_of_distinct(mine[p].tasks, cutoff);
    lemma_latest_of_distinct(theirs[q].tasks);
    lemma_newer_there_wins(mine[p].tasks, theirs[q].tasks, cutoff, i, j);
    assert(counterpart(mine[p], theirs) == theirs[q]);
    // The write is among those of the list, and so among all.
    let plain = local_writes(changed, theirs[q].tasks, mine[p].tasks);
    let n = choose|n: int| 0 <= n < plain.len() && plain[n] == Write::Update(theirs[q].tasks[j]);
    let written = mine.map_values(writing(theirs, cutoff));
    let wanted = TaskWriteView { list: mine[p].list, write: Write::Update(theirs[q].tasks[j]) };
    assert(written[p] == partition_writes(mine[p], theirs, cutoff));
    assert(written[p][n] == wanted);
    lemma_flatten_member(written, p, n);
    let all = reconciled(local, remote, now).task_writes;
    let m = choose|m: int| 0 <= m < written.flatten().len() && written.flatten()[m] == wanted;
    assert(all[m] == wanted);
    // What is sent of the list holds no task of that id.
    let sent = mine.map_values(sending(theirs, cutoff));
    let out = reconciled(local, remote, now).outbound.tasks;
    assert(out == sent.flatten());
    assert forall|k: int, e: TaskView|
        0 <= k < out.len() && (#[trigger] out[k]).list == mine[p].list
            && #[trigger] out[k].tasks.contains(e) implies e.id != task.id by {
        assert(sent.flatten().contains(out[k]));
        lemma_flatten_origin(sent, out[k]);
        let x = choose|x: int| 0 <= x < sent.len() && (#[trigger] sent[x]).contains(out[k]);
        let part = partition_outbound(mine[x], theirs, cutoff);
        assert(sent[x] == part);
        let y = choose|y: int| 0 <= y < part.len() && part[y] == out[k];
        assert(part[y].list == mine[x].list);
        assert(x == p);
        assert(out[k].tasks == outbound(changed, theirs[q].tasks));
        assert(e.key() == e.id);
    }
}

/// A list that the remote party sends without the time of its last edit
/// is frozen: no write touches it, and no list of its id is sent.
pub proof fn lemma_list_without_edit_time(local: SyncView, remote: SyncView, now: i64, j: int)
    requires
        distinct_keys(remote.lists),
        0 <= j < remote.lists.len(),
        remote.lists[j].last_edited is None,
    ensures
        forall|w: Write<ListView>| #[trigger]
            reconciled(local, remote, now).list_writes.contains(w) ==> w.entity().uuid
                != remote.lists[j].uuid,
        forall|e: ListView| #[trigger]
            reconciled(local, remote, now).outbound.lists.contains(e) ==> e.uuid
                != remote.lists[j].uuid,
{
    let cutoff = normalized(remote.last_sync as int);
    let changed = latest(changed_since(local.lists, cutoff));
    lemma_latest_of_distinct(remote.lists);
    lemma_without_edit_time_is_frozen(changed, remote.lists, local.lists, j);
    assert forall|w: Write<ListView>| #[trigger]
        reconciled(local, remote, now).list_writes.contains(w) implies w.entity().uuid
        != remote.lists[j].uuid by {
        assert(local_writes(changed, remote.lists, local.lists).contains(w));
        assert(w.entity().key() == w.entity().uuid);
    }
    assert forall|e: ListView| #[trigger]
        reconciled(local, remote, now).outbound.lists.contains(e) implies e.uuid
        != remote.lists[j].uuid by {
        assert(outbound(changed, remote.lists).contains(e));
        assert(e.key() == e.uuid);
    }
}

/// A task that the remote party sends without the time of its last edit
/// is frozen, whether its list is known here or not: no write touches it,
/// and no task of its id is sent under its list.
pub proof fn lemma_task_without_edit_time(
    local: SyncView,
    remote: SyncView,
    now: i64,
    q: int,
    j: int,
)
    requires
        distinct_keys(remote.tasks),
        0 <= q < remote.tasks.len(),
        distinct_keys(remote.tasks[q].tasks),
        0 <= j < remote.tasks[q].tasks.len(),
        remote.tasks[q].tasks[j].last_edited is None,
    ensures
        forall|w: TaskWriteView| #[trigger]
            reconciled(local, remote, now).task_writes.contains(w) ==> spares(
                w,
                remote.tasks[q].list,
                remote.tasks[q].tasks[j].id,
            ),
        forall|k: int, e: TaskView|
            0 <= k < reconciled(local, remote, now).outbound.tasks.len() && (#[trigger] reconciled(
                local,
                remote,
                now,
            ).outbound.tasks[k]).list == remote.tasks[q].list && #[trigger] reconciled(
                local,
                remote,
                now,
            ).outbound.tasks[k].tasks.contains(e) ==> e.id != remote.tasks[q].tasks[j].id,
{
    let cutoff = normalized(remote.last_sync as int);
    let mine = latest(local.tasks);
    let theirs = remote.tasks;
    let frozen = theirs[q].tasks[j];
    lemma_latest_of_distinct(theirs);
    lemma_latest_of_distinct(theirs[q].tasks);
    lemma_position_of_member(theirs, q);
    assert forall|w: TaskWriteView| #[trigger]
        reconciled(local, remote, now).task_writes.contains(w) implies spares(
        w,
        theirs[q].list,
        frozen.id,
    ) by {
        if w.list == theirs[q].list {
            lemma_task_write_origin(mine, theirs, cutoff, w);
            if exists|x: int|
                0 <= x < mine.len() && partition_writes(#[trigger] mine[x], theirs, cutoff).contains(
                    w,
                ) {
                let x = choose|x: int|
                    0 <= x < mine.len() && partition_writes(
                        #[trigger] mine[x],
                        theirs,
                        cutoff,
                    ).contains(w);
                let part = partition_writes(mine[x], theirs, cutoff);
                let n = choose|n: int| 0 <= n < part.len() && part[n] == w;
                let changed = latest(changed_since(mine[x].tasks, cutoff));
                let plain = local_writes(
                    changed,
                    latest(counterpart(mine[x], theirs).tasks),
                    mine[x].tasks,
                );
                assert(part[n] == in_list(mine[x].list)(plain[n]));
                assert(counterpart(mine[x], theirs) == theirs[q]);
                lemma_without_edit_time_is_frozen(changed, theirs[q].tasks, mine[x].tasks, j);
                assert(plain.contains(w.write));
                assert(w.write.entity().key() == w.write.entity().id);
            } else {
                let y = choose|y: int|
                    0 <= y < theirs.len() && arrival_writes(#[trigger] theirs[y], mine).contains(w);
                let part = arrival_writes(theirs[y], mine);
                let n = choose|n: int| 0 <= n < part.len() && part[n] == w;
                let taken = arriving_tasks(theirs[y]);
                assert(part[n] == arrival(theirs[y].list, taken, n));
                assert(y == q);
                theirs[q].tasks.lemma_filter_pred(has_edit_time(), n);
                assert(taken.contains(taken[n]));
                theirs[q].tasks.lemma_filter_contains_rev(has_edit_time(), taken[n]);
                let a = choose|a: int| 0 <= a < theirs[q].tasks.len() && theirs[q].tasks[a] == taken[n];
                assert(a != j);
                assert(w.write.entity() == taken[n]);
            }
        }
    }
    let sent = mine.map_values(sending(theirs, cutoff));
    let out = reconciled(local, remote, now).outbound.tasks;
    assert(out == sent.flatten());
    assert forall|k: int, e: TaskView|
        0 <= k < out.len() && (#[trigger] out[k]).list == theirs[q].list
            && #[trigger] out[k].tasks.contains(e) implies e.id != frozen.id by {
        assert(sent.flatten().contains(out[k]));
        lemma_flatten_origin(sent, out[k]);
        let x = choose|x: int| 0 <= x < sent.len() && (#[trigger] sent[x]).contains(out[k]);
        let part = partition_outbound(mine[x], theirs, cutoff);
        assert(sent[x] == part);
        let y = choose|y: int| 0 <= y < part.len() && part[y] == out[k];
        assert(part[y].list == mine[x].list);
        assert(counterpart(mine[x], theirs) == theirs[q]);
        let changed = latest(changed_since(mine[x].tasks, cutoff));
        lemma_without_edit_time_is_frozen(changed, theirs[q].tasks, mine[x].tasks, j);
        assert(out[k].tasks == outbound(changed, theirs[q].tasks));
        assert(e.key() == e.id);
    }
}

} // verus!

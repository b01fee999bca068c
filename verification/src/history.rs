//! The questions that are put to the store of due events, as text.

use crate::entity::{text_of, views};
use crate::estimate::{DueEvent, DueEventView};
use crate::text::{decimal, decimal_text, glue, join, joined, owned};
use vstd::prelude::*;
use vstd::string::StringExecFns;

verus! {

/// Which due events to fetch: those of tasks of one size and, where given,
/// of one importance and of one list.
#[derive(Debug)]
pub struct DueFilter {
    pub size: i32,
    pub importance: Option<i32>,
    pub list: Option<String>,
}

/// The model of a `DueFilter`.
pub struct DueFilterView {
    pub size: i32,
    pub importance: Option<i32>,
    pub list: Option<Seq<char>>,
}

impl View for DueFilter {
    type V = DueFilterView;

    open spec fn view(&self) -> DueFilterView {
        DueFilterView { size: self.size, importance: self.importance, list: text_of(self.list) }
    }
}

/// Whether the filter lets the event through: the event is of a task of
/// the filter's size and, where the filter names them, of its importance
/// and of its list.
pub open spec fn admits(filter: DueFilterView, event: DueEventView) -> bool {
    &&& event.size == filter.size
    &&& filter.importance matches Some(importance) ==> event.importance == importance
    &&& filter.list matches Some(list) ==> event.list == list
}

/// `admits` with its filter fixed.
pub open spec fn admitting(filter: DueFilterView) -> spec_fn(DueEventView) -> bool {
    |event: DueEventView| admits(filter, event)
}

/// `name`, an equals sign and `value` in decimal.
pub open spec fn number_condition(name: Seq<char>, value: int) -> Seq<char> {
    name + seq!['='] + decimal(value)
}

/// `name`, an equals sign and `value` between single quotes, as it is.
pub open spec fn text_condition(name: Seq<char>, value: Seq<char>) -> Seq<char> {
    name + seq!['=', '\''] + value + seq!['\'']
}

/// The conditions of a filter: on the size, then on the importance and on
/// the list where the filter names them.
pub open spec fn filter_conditions(filter: DueFilterView) -> Seq<Seq<char>> {
    seq![number_condition("size"@, filter.size as int)] + (match filter.importance {
        Some(importance) => seq![number_condition("importance"@, importance as int)],
        None => Seq::empty(),
    }) + (match filter.list {
        Some(list) => seq![text_condition("list"@, list)],
        None => Seq::empty(),
    })
}

/// `head`, and behind it the conditions, if there are any, after `WHERE`
/// and with `AND` between them.
pub open spec fn query_text(head: Seq<char>, conditions: Seq<Seq<char>>) -> Seq<char> {
    if conditions.len() > 0 {
        head + " WHERE "@ + joined(conditions, " AND "@)
    } else {
        head
    }
}

/// The conditions under which events of task `id` are removed: on the id
/// and, where only creations are asked for, on their code, `type=0`; where
/// only completions are, on theirs, `type=1`; where both are, on the id
/// alone.
pub open spec fn removal_conditions(id: Seq<char>, create: bool, complete: bool) -> Seq<Seq<char>> {
    seq![text_condition("id"@, id)] + (if create && !complete {
        seq!["type=0"@]
    } else if !create && complete {
        seq!["type=1"@]
    } else {
        Seq::empty()
    })
}

/// The condition that `name` equals the number `value`.
pub fn number_condition_text(name: &str, value: i64) -> (r: String)
    ensures
        r@ == number_condition(name@, value as int),
{
    proof {
        reveal_strlit("=");
    }
    let mut out = glue(name, "=");
    let digits = decimal_text(value);
    out.append(digits.as_str());
    assert(out@ =~= number_condition(name@, value as int));
    out
}

/// The condition that `name` equals the text `value`.
pub fn text_condition_text(name: &str, value: &str) -> (r: String)
    ensures
        r@ == text_condition(name@, value@),
{
    proof {
        reveal_strlit("='");
        reveal_strlit("'");
    }
    let mut out = glue(name, "='");
    out.append(value);
    out.append("'");
    assert(out@ =~= text_condition(name@, value@));
    out
}

impl DueFilter {
    /// Size, importance and list: the strictest filter.
    pub fn all_filters(size: i32, importance: i32, list: String) -> (r: DueFilter)
        ensures
            r@.size == size,
            r@.importance == Some(importance),
            r@.list == Some(list@),
    {
        DueFilter { size, importance: Some(importance), list: Some(list) }
    }

    /// Size and list.
    pub fn size_list(size: i32, list: String) -> (r: DueFilter)
        ensures
            r@.size == size,
            r@.importance is None,
            r@.list == Some(list@),
    {
        DueFilter { size, importance: None, list: Some(list) }
    }

    /// Size and importance.
    pub fn size_importance(size: i32, importance: i32) -> (r: DueFilter)
        ensures
            r@.size == size,
            r@.importance == Some(importance),
            r@.list is None,
    {
        DueFilter { size, importance: Some(importance), list: None }
    }

    /// Size alone: the loosest filter.
    pub fn size(size: i32) -> (r: DueFilter)
        ensures
            r@.size == size,
            r@.importance is None,
            r@.list is None,
    {
        DueFilter { size, importance: None, list: None }
    }

    /// Whether the filter lets the event through.
    pub fn admits(&self, event: &DueEvent) -> (r: bool)
        ensures
            r == admits(self@, event@),
    {
        let importance_fits = match self.importance {
            Some(importance) => event.importance == importance,
            None => true,
        };
        let list_fits = match &self.list {
            Some(list) => event.list == *list,
            None => true,
        };
        event.size == self.size && importance_fits && list_fits
    }

    /// The events that the filter lets through, in their order: what a
    /// store answers that holds `events`.
    pub fn select(&self, events: &Vec<DueEvent>) -> (r: Vec<DueEvent>)
        ensures
            views(r@) == views(events@).filter(admitting(self@)),
    {
        let mut out: Vec<DueEvent> = Vec::new();
        let ghost all = views(events@);
        let ghost pred = admitting(self@);
        let mut i: usize = 0;
        proof {
            reveal(Seq::filter);
            assert(all.take(0) =~= Seq::empty());
            assert(views(out@) =~= all.take(0).filter(pred));
        }
        while i < events.len()
            invariant
                i <= events.len(),
                all == views(events@),
                pred == admitting(self@),
                views(out@) == all.take(i as int).filter(pred),
            decreases events.len() - i,
        {
            let ghost before = views(out@);
            proof {
                assert(all.take(i as int + 1) =~= all.take(i as int).push(events@[i as int]@));
                all.take(i as int).lemma_filter_push(events@[i as int]@, pred);
            }
            if self.admits(&events[i]) {
                out.push(events[i].clone());
                assert(views(out@) =~= before.push(events@[i as int]@));
            }
            i += 1;
        }
        proof {
            assert(all.take(events@.len() as int) =~= all);
        }
        out
    }

    /// The conditions that the store is to apply.
    pub fn conditions(&self) -> (r: Vec<String>)
        ensures
            views(r@) == filter_conditions(self@),
    {
        let mut out: Vec<String> = Vec::new();
        out.push(number_condition_text("size", self.size as i64));
        match self.importance {
            Some(importance) => {
                out.push(number_condition_text("importance", importance as i64));
            },
            None => {},
        }
        match &self.list {
            Some(list) => {
                out.push(text_condition_text("list", list.as_str()));
            },
            None => {},
        }
        assert(views(out@) =~= filter_conditions(self@));
        out
    }
}

/// `head` with the conditions behind it.
pub fn query_with(head: &str, conditions: &Vec<String>) -> (r: String)
    ensures
        r@ == query_text(head@, views(conditions@)),
{
    if conditions.len() > 0 {
        let mut out = glue(head, " WHERE ");
        let tail = join(conditions, " AND ");
        out.append(tail.as_str());
        assert(out@ =~= query_text(head@, views(conditions@)));
        out
    } else {
        owned(head)
    }
}

/// The query that fetches the due events that meet the conditions.
pub fn filter_due_events_query(conditions: &Vec<String>) -> (r: String)
    ensures
        r@ == query_text("SELECT * FROM DueEvents"@, views(conditions@)),
{
    query_with("SELECT * FROM DueEvents", conditions)
}

/// The statement that removes the due events that meet the conditions.
pub fn clear_due_events_query(conditions: &Vec<String>) -> (r: String)
    ensures
        r@ == query_text("DELETE FROM DueEvents"@, views(conditions@)),
{
    query_with("DELETE FROM DueEvents", conditions)
}

/// The conditions for removing events of task `id`. One of `create` and
/// `complete` has to be asked for.
pub fn remove_due_event(id: &String, create: bool, complete: bool) -> (r: Result<
    Vec<String>,
    String,
>)
    ensures
        match r {
            Ok(conditions) => (create || complete) && views(conditions@) == removal_conditions(
                id@,
                create,
                complete,
            ),
            Err(message) => !create && !complete && message@
                == "Choose either create or complete to delete"@,
        },
{
    let mut conditions: Vec<String> = Vec::new();
    conditions.push(text_condition_text("id", id.as_str()));
    if !create && !complete {
        return Err(owned("Choose either create or complete to delete"));
    } else if create && !complete {
        conditions.push(owned("type=0"));
    } else if !create && complete {
        conditions.push(owned("type=1"));
    }
    assert(views(conditions@) =~= removal_conditions(id@, create, complete));
    Ok(conditions)
}

} // verus!

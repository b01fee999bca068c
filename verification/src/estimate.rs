//! A suggested offset between a task's creation and its due date, from
//! how earlier tasks of its kind were finished.

use crate::entity::views;
use crate::text::{decimal, decimal_text, glue, owned};
use vstd::prelude::*;
use vstd::string::StringExecFns;

verus! {

/// What happened to a task.
#[derive(Debug, PartialEq, Eq, Structural, Clone, Copy)]
pub enum DueEventType {
    Create,
    Complete,
}

/// The kind of event that the number `code` stands for in the store: zero
/// for a creation, one for a completion, any other for none.
pub open spec fn kind_of(code: int) -> Option<DueEventType> {
    if code == 0 {
        Some(DueEventType::Create)
    } else if code == 1 {
        Some(DueEventType::Complete)
    } else {
        None
    }
}

/// What is said of a number that stands for no kind of event.
pub open spec fn invalid_kind_text(code: int) -> Seq<char> {
    "Invalid value '"@ + decimal(code) + "' for DueEventType."@
}

impl DueEventType {
    /// The number that stands for this kind of event in the store. It is
    /// read back as the same kind.
    pub fn code(&self) -> (r: i32)
        ensures
            kind_of(r as int) == Some(*self),
    {
        match self {
            DueEventType::Create => 0,
            DueEventType::Complete => 1,
        }
    }

    /// The kind of event that `value` stands for.
    pub fn try_from(value: i32) -> (r: Result<DueEventType, String>)
        ensures
            match r {
                Ok(kind) => kind_of(value as int) == Some(kind),
                Err(message) => kind_of(value as int) is None && message@ == invalid_kind_text(
                    value as int,
                ),
            },
    {
        if value == 0 {
            Ok(DueEventType::Create)
        } else if value == 1 {
            Ok(DueEventType::Complete)
        } else {
            let digits = decimal_text(value as i64);
            let mut message = glue("Invalid value '", digits.as_str());
            message.append("' for DueEventType.");
            assert(message@ =~= invalid_kind_text(value as int));
            Err(message)
        }
    }
}

/// A recorded fact: at `timestamp`, the task `id` of `list`, with this
/// importance and size and then due at `due`, was created or completed.
#[derive(Debug)]
pub struct DueEvent {
    pub event_type: DueEventType,
    pub timestamp: i64,
    pub id: String,
    pub list: String,
    pub importance: i32,
    pub size: i32,
    pub due: i64,
}

/// The model of a `DueEvent`.
pub struct DueEventView {
    pub event_type: DueEventType,
    pub timestamp: i64,
    pub id: Seq<char>,
    pub list: Seq<char>,
    pub importance: i32,
    pub size: i32,
    pub due: i64,
}

impl View for DueEvent {
    type V = DueEventView;

    open spec fn view(&self) -> DueEventView {
        DueEventView {
            event_type: self.event_type,
            timestamp: self.timestamp,
            id: self.id@,
            list: self.list@,
            importance: self.importance,
            size: self.size,
            due: self.due,
        }
    }
}

impl Clone for DueEvent {
    fn clone(&self) -> (r: Self)
        ensures
            r@ == self@,
    {
        DueEvent {
            event_type: self.event_type,
            timestamp: self.timestamp,
            id: self.id.clone(),
            list: self.list.clone(),
            importance: self.importance,
            size: self.size,
            due: self.due,
        }
    }
}

/// The event that records, at `timestamp`, what happened to a task.
pub fn record_due_event(
    event_type: DueEventType,
    timestamp: i64,
    id: String,
    color: String,
    importance: i32,
    size: i32,
    due: i64,
) -> (r: DueEvent)
    ensures
        r.event_type == event_type,
        r.timestamp == timestamp,
        r.id == id,
        r.list == color,
        r.importance == importance,
        r.size == size,
        r.due == due,
{
    DueEvent { event_type, timestamp, id, list: color, importance, size, due }
}

/// The event that records, at `timestamp`, that a task was created.
pub fn record_create_event(
    timestamp: i64,
    id: String,
    color: String,
    importance: i32,
    size: i32,
    due: i64,
) -> (r: DueEvent)
    ensures
        r.event_type == DueEventType::Create,
        r.timestamp == timestamp,
        r.id == id,
        r.list == color,
        r.importance == importance,
        r.size == size,
        r.due == due,
{
    record_due_event(DueEventType::Create, timestamp, id, color, importance, size, due)
}

/// The event that records, at `timestamp`, that a task was completed.
pub fn record_complete_event(
    timestamp: i64,
    id: String,
    color: String,
    importance: i32,
    size: i32,
    due: i64,
) -> (r: DueEvent)
    ensures
        r.event_type == DueEventType::Complete,
        r.timestamp == timestamp,
        r.id == id,
        r.list == color,
        r.importance == importance,
        r.size == size,
        r.due == due,
{
    record_due_event(DueEventType::Complete, timestamp, id, color, importance, size, due)
}

/// A sample event: the completion, at `now`, of a task that was due then.
pub fn get_due_event(now: i64) -> (r: DueEvent)
    ensures
        r@ == (DueEventView {
            event_type: DueEventType::Complete,
            timestamp: now,
            id: "123456"@,
            list: "test"@,
            importance: 3,
            size: 2,
            due: now,
        }),
{
    DueEvent {
        event_type: DueEventType::Complete,
        timestamp: now,
        id: owned("123456"),
        list: owned("test"),
        importance: 3,
        size: 2,
        due: now,
    }
}

/// The two ends of a task's life, as far as events tell them: the due time
/// that its creation recorded, and the time at which it was completed.
#[derive(Debug, PartialEq, Eq, Structural, Clone, Copy)]
pub struct CreateCompletePair {
    pub created: Option<i64>,
    pub completed: Option<i64>,
}

impl CreateCompletePair {
    /// A pair of which nothing is known yet.
    pub fn new() -> (r: CreateCompletePair)
        ensures
            r.created is None,
            r.completed is None,
    {
        CreateCompletePair { created: None, completed: None }
    }
}

/// Why no offset can be suggested.
#[derive(Debug, PartialEq, Eq, Structural, Clone, Copy)]
pub enum SmartDueError {
    /// The store could not be asked.
    SqlError,
    /// No event matched.
    NoRecords,
    /// No task has both a creation and a completion among the events.
    NoPairs,
    /// The offsets scatter too widely for one number to stand for them.
    StdevTooHigh,
    /// The mean offset is too large to be told in 32 bits.
    OffsetTooLarge,
}

/// The widest standard deviation, in milliseconds, under which a mean is
/// still suggested: three days.
pub const MAX_STDEV_FOR_DUE_OFFSET: i32 = 259_200_000;

/// The ids of the tasks that `events` speak of, each once, in the order in
/// which they first occur.
pub open spec fn task_ids(events: Seq<DueEventView>) -> Seq<Seq<char>>
    decreases events.len(),
{
    if events.len() == 0 {
        Seq::empty()
    } else {
        let before = task_ids(events.drop_last());
        if before.contains(events.last().id) {
            before
        } else {
            before.push(events.last().id)
        }
    }
}

/// The due time in the last creation of task `id` among `events`.
pub open spec fn created_at(events: Seq<DueEventView>, id: Seq<char>) -> Option<i64>
    decreases events.len(),
{
    if events.len() == 0 {
        None
    } else if events.last().id == id && events.last().event_type == DueEventType::Create {
        Some(events.last().due)
    } else {
        created_at(events.drop_last(), id)
    }
}

/// The time of the last completion of task `id` among `events`.
pub open spec fn completed_at(events: Seq<DueEventView>, id: Seq<char>) -> Option<i64>
    decreases events.len(),
{
    if events.len() == 0 {
        None
    } else if events.last().id == id && events.last().event_type == DueEventType::Complete {
        Some(events.last().timestamp)
    } else {
        completed_at(events.drop_last(), id)
    }
}

/// What `events` tell of task `id`.
pub open spec fn pair_of(events: Seq<DueEventView>, id: Seq<char>) -> CreateCompletePair {
    CreateCompletePair { created: created_at(events, id), completed: completed_at(events, id) }
}

/// Both ends of the pair are known.
pub open spec fn is_whole(pair: CreateCompletePair) -> bool {
    pair.created is Some && pair.completed is Some
}

/// How long after its due time the task was completed; negative if before.
pub open spec fn overrun(pair: CreateCompletePair) -> int {
    pair.completed->0 - pair.created->0
}

/// The events show task `id` both created and completed.
pub open spec fn has_both(events: Seq<DueEventView>) -> spec_fn(Seq<char>) -> bool {
    |id: Seq<char>| is_whole(pair_of(events, id))
}

/// The overrun of task `id` as the events show it.
pub open spec fn overrun_in(events: Seq<DueEventView>) -> spec_fn(Seq<char>) -> int {
    |id: Seq<char>| overrun(pair_of(events, id))
}

/// The overruns of the tasks that `events` show both created and completed.
pub open spec fn deltas(events: Seq<DueEventView>) -> Seq<int> {
    task_ids(events).filter(has_both(events)).map_values(overrun_in(events))
}

/// The sum of `ds`.
pub open spec fn sum(ds: Seq<int>) -> int
    decreases ds.len(),
{
    if ds.len() == 0 {
        0
    } else {
        sum(ds.drop_last()) + ds.last()
    }
}

/// `a` divided by a positive `b`, rounded towards zero.
pub open spec fn quotient_towards_zero(a: int, b: int) -> int {
    if a >= 0 {
        a / b
    } else {
        -((-a) / b)
    }
}

/// The arithmetic mean of `ds`, rounded towards zero.
pub open spec fn mean(ds: Seq<int>) -> int {
    quotient_towards_zero(sum(ds), ds.len() as int)
}

/// The sum of the squared distances of `ds` from `center`.
pub open spec fn squared_spread(ds: Seq<int>, center: int) -> int
    decreases ds.len(),
{
    if ds.len() == 0 {
        0
    } else {
        squared_spread(ds.drop_last(), center) + (ds.last() - center) * (ds.last() - center)
    }
}

/// The population variance of `ds` about their mean, rounded down.
pub open spec fn variance(ds: Seq<int>) -> int {
    squared_spread(ds, mean(ds)) / (ds.len() as int)
}

/// The standard deviation of `ds`, the square root of their variance,
/// is above the ceiling: that is, the variance is above the ceiling's
/// square.
pub open spec fn scattered(ds: Seq<int>) -> bool {
    variance(ds) > MAX_STDEV_FOR_DUE_OFFSET * MAX_STDEV_FOR_DUE_OFFSET
}

/// The offset that the events fetched under one filter suggest: the mean
/// overrun. There is none where nothing was fetched, where no task is both
/// created and completed, where the overruns scatter, and where the mean
/// has no place in 32 bits.
pub open spec fn estimate(filtered: Option<Seq<DueEventView>>) -> Result<i32, SmartDueError> {
    match filtered {
        None => Err(SmartDueError::NoRecords),
        Some(events) => if events.len() == 0 {
            Err(SmartDueError::NoRecords)
        } else if deltas(events).len() == 0 {
            Err(SmartDueError::NoPairs)
        } else if scattered(deltas(events)) {
            Err(SmartDueError::StdevTooHigh)
        } else if i32::MIN <= mean(deltas(events)) <= i32::MAX {
            Ok(mean(deltas(events)) as i32)
        } else {
            Err(SmartDueError::OffsetTooLarge)
        },
    }
}

/// Where `id` stands in `ids`, if anywhere.
fn find_text(ids: &Vec<String>, id: &String) -> (r: Option<usize>)
    ensures
        match r {
            Some(i) => i < ids.len() && ids@[i as int]@ == id@,
            None => !views(ids@).contains(id@),
        },
{
    let mut i: usize = 0;
    while i < ids.len()
        invariant
            i <= ids.len(),
            forall|j: int| 0 <= j < i ==> (#[trigger] ids@[j])@ != id@,
        decreases ids.len() - i,
    {
        if ids[i] == *id {
            return Some(i);
        }
        i += 1;
    }
    assert forall|j: int| 0 <= j < views(ids@).len() implies views(ids@)[j] != id@ by {
        assert(views(ids@)[j] == ids@[j]@);
    }
    None
}

/// No two elements of `s` are equal.
spec fn all_differ(s: Seq<Seq<char>>) -> bool {
    forall|i: int, j: int| 0 <= i < j < s.len() ==> s[i] != s[j]
}

/// `task_ids` holds no id twice, and no more ids than there are events.
proof fn lemma_task_ids(events: Seq<DueEventView>)
    ensures
        all_differ(task_ids(events)),
        task_ids(events).len() <= events.len(),
    decreases events.len(),
{
    if events.len() > 0 {
        lemma_task_ids(events.drop_last());
    }
}

/// Reads the events task by task: the ids in the order in which they first
/// occur and, beside each, what the events tell of that task.
pub fn pair_events(events: &Vec<DueEvent>) -> (r: (Vec<String>, Vec<CreateCompletePair>))
    ensures
        views(r.0@) == task_ids(views(events@)),
        r.1@.len() == r.0@.len(),
        forall|j: int|
            0 <= j < r.1@.len() ==> #[trigger] r.1@[j] == pair_of(views(events@), r.0@[j]@),
{
    let mut ids: Vec<String> = Vec::new();
    let mut pairs: Vec<CreateCompletePair> = Vec::new();
    let ghost all = views(events@);
    let mut k: usize = 0;
    proof {
        assert(all.take(0) =~= Seq::empty());
        assert(views(ids@) =~= task_ids(all.take(0)));
    }
    while k < events.len()
        invariant
            k <= events.len(),
            all == views(events@),
            views(ids@) == task_ids(all.take(k as int)),
            pairs@.len() == ids@.len(),
            forall|j: int|
                0 <= j < pairs@.len() ==> #[trigger] pairs@[j] == pair_of(
                    all.take(k as int),
                    ids@[j]@,
                ),
        decreases events.len() - k,
    {
        let event = &events[k];
        let ghost seen = all.take(k as int);
        let ghost next = all.take(k as int + 1);
        let ghost ids_before = views(ids@);
        proof {
            assert(next.drop_last() =~= seen);
            assert(next.last() == event@);
            lemma_task_ids(seen);
        }
        let at = match find_text(&ids, &event.id) {
            Some(j) => {
                assert(ids_before[j as int] == event@.id);
                j
            },
            None => {
                ids.push(event.id.clone());
                pairs.push(CreateCompletePair::new());
                assert(views(ids@) =~= ids_before.push(event@.id));
                ids.len() - 1
            },
        };
        assert(views(ids@) == task_ids(next));
        assert(ids@[at as int]@ == event@.id);
        let old_pair = pairs[at];
        let new_pair = match event.event_type {
            DueEventType::Create => CreateCompletePair {
                created: Some(event.due),
                completed: old_pair.completed,
            },
            DueEventType::Complete => CreateCompletePair {
                created: old_pair.created,
                completed: Some(event.timestamp),
            },
        };
        pairs.set(at, new_pair);
        proof {
            assert forall|j: int| 0 <= j < pairs@.len() implies #[trigger] pairs@[j] == pair_of(
                next,
                ids@[j]@,
            ) by {
                if j == at {
                    if at < ids_before.len() {
                    } else {
                        assert(old_pair == CreateCompletePair { created: None, completed: None });
                        lemma_unseen_task(seen, event@.id);
                    }
                } else {
                    assert(views(ids@)[j] == ids@[j]@);
                    assert(views(ids@)[at as int] == ids@[at as int]@);
                    assert(ids@[j]@ != event@.id);
                    if j < ids_before.len() {
                        assert(ids_before[j] == ids@[j]@);
                    }
                }
            }
        }
        k += 1;
    }
    proof {
        assert(all.take(events@.len() as int) =~= all);
    }
    (ids, pairs)
}

/// Events tell nothing of a task that is not among their ids.
proof fn lemma_unseen_task(events: Seq<DueEventView>, id: Seq<char>)
    requires
        !task_ids(events).contains(id),
    ensures
        pair_of(events, id) == (CreateCompletePair { created: None, completed: None }),
    decreases events.len(),
{
    if events.len() > 0 {
        let before = task_ids(events.drop_last());
        if before.contains(events.last().id) {
            assert(task_ids(events) == before);
        } else {
            assert(task_ids(events) == before.push(events.last().id));
            assert(task_ids(events)[before.len() as int] == events.last().id);
            assert forall|j: int| 0 <= j < before.len() implies before[j] != id by {
                assert(task_ids(events)[j] == before[j]);
            }
        }
        lemma_unseen_task(events.drop_last(), id);
    }
}

/// The values of `ds` as integers.
spec fn ints(ds: Seq<i128>) -> Seq<int> {
    ds.map_values(|d: i128| d as int)
}

/// Every element of `ds` lies strictly between `-bound` and `bound`.
spec fn within(ds: Seq<i128>, bound: int) -> bool {
    forall|i: int| 0 <= i < ds.len() ==> -bound < #[trigger] ds[i] < bound
}

/// The models of the events that were fetched, if any were.
pub open spec fn fetched_views(filtered: Option<Vec<DueEvent>>) -> Option<Seq<DueEventView>> {
    match filtered {
        Some(events) => Some(views(events@)),
        None => None,
    }
}

/// The overruns of the whole pairs among `pairs`, which `pair_events` made
/// of `events` beside `ids`.
fn whole_overruns(
    ids: &Vec<String>,
    pairs: &Vec<CreateCompletePair>,
    Ghost(events): Ghost<Seq<DueEventView>>,
) -> (r: Vec<i128>)
    requires
        views(ids@) == task_ids(events),
        pairs@.len() == ids@.len(),
        forall|j: int| 0 <= j < pairs@.len() ==> #[trigger] pairs@[j] == pair_of(events, ids@[j]@),
    ensures
        ints(r@) == deltas(events),
        within(r@, 0x1_0000_0000_0000_0000),
{
    let mut out: Vec<i128> = Vec::new();
    let ghost names = views(ids@);
    let mut j: usize = 0;
    proof {
        reveal(Seq::filter);
        assert(names.take(0) =~= Seq::empty());
        assert(ints(out@) =~= names.take(0).filter(has_both(events)).map_values(
            overrun_in(events),
        ));
    }
    while j < pairs.len()
        invariant
            j <= pairs.len(),
            names == views(ids@),
            pairs@.len() == ids@.len(),
            forall|j: int|
                0 <= j < pairs@.len() ==> #[trigger] pairs@[j] == pair_of(events, ids@[j]@),
            ints(out@) == names.take(j as int).filter(has_both(events)).map_values(
                overrun_in(events),
            ),
            within(out@, 0x1_0000_0000_0000_0000),
        decreases pairs.len() - j,
    {
        let ghost before = ints(out@);
        proof {
            assert(names[j as int] == ids@[j as int]@);
            assert(names.take(j as int + 1) =~= names.take(j as int).push(names[j as int]));
            names.take(j as int).lemma_filter_push(names[j as int], has_both(events));
        }
        let pair = pairs[j];
        match (pair.created, pair.completed) {
            (Some(created), Some(completed)) => {
                let d: i128 = completed as i128 - created as i128;
                out.push(d);
                assert(ints(out@) =~= before.push(d as int));
                assert(names.take(j as int + 1).filter(has_both(events)).map_values(
                    overrun_in(events),
                ) =~= before.push(overrun_in(events)(names[j as int])));
            },
            _ => {},
        }
        j += 1;
    }
    proof {
        assert(names.take(pairs@.len() as int) =~= names);
    }
    out
}

/// The mean of `ds`, rounded towards zero.
fn mean_of(ds: &Vec<i128>) -> (m: i128)
    requires
        ds.len() > 0,
        within(ds@, 0x1_0000_0000_0000_0000),
    ensures
        m == mean(ints(ds@)),
        -0x1_0000_0000_0000_0000 < m < 0x1_0000_0000_0000_0000,
{
    let mut negative = false;
    let mut size: u128 = 0;
    let mut j: usize = 0;
    let ghost all = ints(ds@);
    proof {
        assert(all.take(0) =~= Seq::empty());
    }
    while j < ds.len()
        invariant
            j <= ds.len(),
            all == ints(ds@),
            within(ds@, 0x1_0000_0000_0000_0000),
            sum(all.take(j as int)) == if negative {
                -(size as int)
            } else {
                size as int
            },
            size <= j * 0xffff_ffff_ffff_ffff,
        decreases ds.len() - j,
    {
        let d = ds[j];
        proof {
            assert(all.take(j as int + 1).drop_last() =~= all.take(j as int));
            assert(all.take(j as int + 1).last() == d as int);
            assert((j + 1) * 0xffff_ffff_ffff_ffff <= 0xffff_ffff_ffff_ffff * 0xffff_ffff_ffff_ffff)
                by (nonlinear_arith)
                requires
                    j + 1 <= 0xffff_ffff_ffff_ffff,
            ;
            assert(j * 0xffff_ffff_ffff_ffff + 0xffff_ffff_ffff_ffff == (j + 1)
                * 0xffff_ffff_ffff_ffff) by (nonlinear_arith);
        }
        let d_negative = d < 0;
        let d_size: u128 = if d_negative {
            (-d) as u128
        } else {
            d as u128
        };
        if negative == d_negative {
            size = size + d_size;
        } else if size >= d_size {
            size = size - d_size;
        } else {
            size = d_size - size;
            negative = d_negative;
        }
        j += 1;
    }
    proof {
        assert(all.take(ds@.len() as int) =~= all);
        assert(size / (ds.len() as u128) <= size) by (nonlinear_arith)
            requires
                ds.len() > 0,
                size >= 0,
        ;
        vstd::arithmetic::div_mod::lemma_div_is_ordered(
            size as int,
            ds.len() * 0xffff_ffff_ffff_ffff,
            ds.len() as int,
        );
        vstd::arithmetic::div_mod::lemma_div_multiples_vanish(
            0xffff_ffff_ffff_ffff,
            ds.len() as int,
        );
    }
    let share: u128 = size / (ds.len() as u128);
    if negative {
        -(share as i128)
    } else {
        share as i128
    }
}

/// For a sum `s` of squares over `n` values, the variance is above `c`
/// exactly when `s` reaches `(c + 1) * n`.
proof fn lemma_variance_threshold(s: int, n: int, c: int)
    requires
        s >= 0,
        n > 0,
        c >= 0,
    ensures
        (s / n > c) <==> (s >= (c + 1) * n),
{
    vstd::arithmetic::div_mod::lemma_fundamental_div_mod(s, n);
    vstd::arithmetic::div_mod::lemma_mod_bound(s, n);
    let q = s / n;
    let r = s % n;
    if q > c {
        assert(n * q >= n * (c + 1)) by (nonlinear_arith)
            requires
                q >= c + 1,
                n > 0,
        ;
        assert((c + 1) * n == n * (c + 1)) by (nonlinear_arith);
    } else {
        assert(n * q <= n * c) by (nonlinear_arith)
            requires
                q <= c,
                n > 0,
        ;
        assert((c + 1) * n == n * c + n) by (nonlinear_arith);
    }
}

/// The squared spread of a part of `ds` is at most that of all of `ds`,
/// and no spread is negative.
proof fn lemma_spread_grows(ds: Seq<int>, center: int, j: int)
    requires
        0 <= j <= ds.len(),
    ensures
        0 <= squared_spread(ds.take(j), center) <= squared_spread(ds, center),
    decreases ds.len(),
{
    if ds.len() == 0 {
        assert(ds.take(j) =~= ds);
    } else if j == ds.len() {
        assert(ds.take(j) =~= ds);
        lemma_spread_grows(ds.drop_last(), center, j - 1);
        let x = ds.last() - center;
        assert(x * x >= 0) by (nonlinear_arith);
    } else {
        assert(ds.drop_last().take(j) =~= ds.take(j));
        lemma_spread_grows(ds.drop_last(), center, j);
        let x = ds.last() - center;
        assert(x * x >= 0) by (nonlinear_arith);
    }
}

/// Whether the standard deviation of `ds` about their mean `m` is above
/// the ceiling.
fn is_scattered(ds: &Vec<i128>, m: i128) -> (r: bool)
    requires
        ds.len() > 0,
        within(ds@, 0x1_0000_0000_0000_0000),
        m == mean(ints(ds@)),
        -0x1_0000_0000_0000_0000 < m < 0x1_0000_0000_0000_0000,
    ensures
        r == scattered(ints(ds@)),
{
    let ceiling: u128 = MAX_STDEV_FOR_DUE_OFFSET as u128;
    let count: u128 = ds.len() as u128;
    let ghost all = ints(ds@);
    proof {
        assert((ceiling * ceiling + 1) * count <= 67184640000000001 * 0xffff_ffff_ffff_ffff)
            by (nonlinear_arith)
            requires
                ceiling == 259_200_000,
                0 <= count <= 0xffff_ffff_ffff_ffff,
        ;
        assert(ceiling * ceiling == 67184640000000000) by (nonlinear_arith)
            requires
                ceiling == 259_200_000,
        ;
        assert(all.take(0) =~= Seq::empty());
    }
    let limit: u128 = (ceiling * ceiling + 1) * count;
    let mut spread: u128 = 0;
    let mut j: usize = 0;
    while j < ds.len()
        invariant
            j <= ds.len(),
            all == ints(ds@),
            within(ds@, 0x1_0000_0000_0000_0000),
            -0x1_0000_0000_0000_0000 < m < 0x1_0000_0000_0000_0000,
            m == mean(all),
            limit == 67184640000000001 * ds.len(),
            limit <= 67184640000000001 * 0xffff_ffff_ffff_ffff,
            spread == squared_spread(all.take(j as int), m as int),
            spread < limit,
        decreases ds.len() - j,
    {
        let off: i128 = ds[j] - m;
        proof {
            assert(all.take(j as int + 1).drop_last() =~= all.take(j as int));
            assert(all.take(j as int + 1).last() == ds@[j as int] as int);
            lemma_spread_grows(all, m as int, j as int + 1);
            lemma_spread_grows(all, m as int, j as int);
            lemma_variance_threshold(
                squared_spread(all, m as int),
                ds.len() as int,
                67184640000000000,
            );
        }
        if off >= 0x2000_0000_0000_0000 || off <= -0x2000_0000_0000_0000 {
            proof {
                assert(off * off >= 0x2000_0000_0000_0000 * 0x2000_0000_0000_0000)
                    by (nonlinear_arith)
                    requires
                        off >= 0x2000_0000_0000_0000 || off <= -0x2000_0000_0000_0000,
                ;
            }
            return true;
        }
        proof {
            assert(0 <= off * off < 0x2000_0000_0000_0000 * 0x2000_0000_0000_0000)
                by (nonlinear_arith)
                requires
                    -0x2000_0000_0000_0000 < off < 0x2000_0000_0000_0000,
            ;
        }
        let square: u128 = (off * off) as u128;
        spread = spread + square;
        if spread >= limit {
            return true;
        }
        j += 1;
    }
    proof {
        assert(all.take(ds@.len() as int) =~= all);
        lemma_variance_threshold(
            squared_spread(all, m as int),
            ds.len() as int,
            67184640000000000,
        );
    }
    false
}

/// The offset that the events fetched under one filter suggest.
pub fn process_filter(filtered: Option<Vec<DueEvent>>) -> (r: Result<i32, SmartDueError>)
    ensures
        r == estimate(fetched_views(filtered)),
{
    let events = match filtered {
        None => {
            return Err(SmartDueError::NoRecords);
        },
        Some(events) => events,
    };
    if events.len() == 0 {
        return Err(SmartDueError::NoRecords);
    }
    let (ids, pairs) = pair_events(&events);
    let ds = whole_overruns(&ids, &pairs, Ghost(views(events@)));
    if ds.len() == 0 {
        return Err(SmartDueError::NoPairs);
    }
    let m = mean_of(&ds);
    if is_scattered(&ds, m) {
        return Err(SmartDueError::StdevTooHigh);
    }
    if m < i32::MIN as i128 || m > i32::MAX as i128 {
        return Err(SmartDueError::OffsetTooLarge);
    }
    Ok(m as i32)
}

} // verus!

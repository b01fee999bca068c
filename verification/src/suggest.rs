//! The search for a due offset: the strictest filter first, then looser
//! ones while the stricter fail.

use crate::entity::views;
use crate::estimate::{estimate, fetched_views, process_filter, DueEvent, SmartDueError};
use crate::history::{DueFilter, DueFilterView};
use crate::text::owned;
use vstd::prelude::*;

verus! {

/// `sqlx::Error`, with which the store answers a query that it could not
/// run. It is passed through as it is: nothing is read of it, and nothing
/// is claimed about it.
#[verifier::external_type_specification]
#[verifier::external_body]
pub struct ExStoreError(sqlx::Error);

/// How a failure ranks among failures: a lower rank is reported sooner.
pub open spec fn rank(e: SmartDueError) -> int {
    match e {
        SmartDueError::SqlError => 0,
        SmartDueError::NoRecords => 1,
        SmartDueError::NoPairs => 2,
        SmartDueError::StdevTooHigh => 3,
        SmartDueError::OffsetTooLarge => 4,
    }
}

/// What the user is told of a failure.
pub open spec fn message_text(e: SmartDueError) -> Seq<char> {
    match e {
        SmartDueError::SqlError => "Error returned from database"@,
        SmartDueError::NoRecords => "No due date event records found."@,
        SmartDueError::NoPairs => "No due date event create/complete pairs found."@,
        SmartDueError::StdevTooHigh => "Standard deviation too high."@,
        SmartDueError::OffsetTooLarge => "Due offset too large."@,
    }
}

impl SmartDueError {
    /// The rank of this failure.
    pub fn severity(&self) -> (r: i32)
        ensures
            r == rank(*self),
    {
        match self {
            SmartDueError::SqlError => 0,
            SmartDueError::NoRecords => 1,
            SmartDueError::NoPairs => 2,
            SmartDueError::StdevTooHigh => 3,
            SmartDueError::OffsetTooLarge => 4,
        }
    }

    /// What the user is told of this failure.
    pub fn message(&self) -> (r: String)
        ensures
            r@ == message_text(*self),
    {
        match self {
            SmartDueError::SqlError => owned("Error returned from database"),
            SmartDueError::NoRecords => owned("No due date event records found."),
            SmartDueError::NoPairs => owned("No due date event create/complete pairs found."),
            SmartDueError::StdevTooHigh => owned("Standard deviation too high."),
            SmartDueError::OffsetTooLarge => owned("Due offset too large."),
        }
    }
}

impl From<SmartDueError> for i32 {
    fn from(e: SmartDueError) -> (r: i32) {
        e.severity()
    }
}

impl vstd::std_specs::convert::FromSpecImpl<SmartDueError> for i32 {
    open spec fn obeys_from_spec() -> bool {
        true
    }

    open spec fn from_spec(e: SmartDueError) -> i32 {
        rank(e) as i32
    }
}

/// The failure of lowest rank among `errors`, and of those the first.
pub open spec fn least_severe(errors: Seq<SmartDueError>) -> SmartDueError
    decreases errors.len(),
{
    if errors.len() <= 1 {
        errors[0]
    } else {
        let best = least_severe(errors.drop_last());
        if rank(errors.last()) < rank(best) {
            errors.last()
        } else {
            best
        }
    }
}

/// What one attempt yields: a failure of the store is `SqlError`, and what
/// the store fetched is judged by `estimate`.
pub open spec fn outcome_of(fetched: Result<Option<Vec<DueEvent>>, sqlx::Error>) -> Result<
    i32,
    SmartDueError,
> {
    match fetched {
        Ok(rows) => estimate(fetched_views(rows)),
        Err(_) => Err(SmartDueError::SqlError),
    }
}

/// The offset that one attempt suggests, from what the store answered.
pub fn get_due_offset(fetched: Result<Option<Vec<DueEvent>>, sqlx::Error>) -> (r: Result<
    i32,
    SmartDueError,
>)
    ensures
        r == outcome_of(fetched),
{
    match fetched {
        Ok(rows) => process_filter(rows),
        Err(_) => Err(SmartDueError::SqlError),
    }
}

/// A search under way: for what kind of task, which attempts failed so
/// far and how, and the offset if one was found.
#[derive(Debug)]
pub struct DueOffsetSearch {
    pub size: i32,
    pub importance: i32,
    pub list: String,
    pub failures: Vec<SmartDueError>,
    pub found: Option<i32>,
}

/// The model of a `DueOffsetSearch`.
pub struct SearchView {
    pub size: i32,
    pub importance: i32,
    pub list: Seq<char>,
    pub failures: Seq<SmartDueError>,
    pub found: Option<i32>,
}

impl View for DueOffsetSearch {
    type V = SearchView;

    open spec fn view(&self) -> SearchView {
        SearchView {
            size: self.size,
            importance: self.importance,
            list: self.list@,
            failures: self.failures@,
            found: self.found,
        }
    }
}

/// What a search asks for next.
#[derive(Debug)]
pub enum SearchStep {
    /// Fetch the events that pass this filter, and report what came.
    Fetch(DueFilter),
    /// The search is over, with an offset or with a message.
    Done(Result<i32, String>),
}

/// The model of a `SearchStep`.
pub enum StepView {
    Fetch(DueFilterView),
    Done(Result<i32, Seq<char>>),
}

impl View for SearchStep {
    type V = StepView;

    open spec fn view(&self) -> StepView {
        match self {
            SearchStep::Fetch(filter) => StepView::Fetch(filter@),
            SearchStep::Done(Ok(offset)) => StepView::Done(Ok(*offset)),
            SearchStep::Done(Err(message)) => StepView::Done(Err(message@)),
        }
    }
}

/// How many filters a search tries.
pub const ATTEMPTS: usize = 4;

/// The filter of the attempt that follows `failed` failed ones: all three
/// of size, importance and list; then size and list; then size and
/// importance; then size alone.
pub open spec fn filter_after(s: SearchView, failed: int) -> DueFilterView {
    DueFilterView {
        size: s.size,
        importance: if failed == 0 || failed == 2 {
            Some(s.importance)
        } else {
            None
        },
        list: if failed == 0 || failed == 1 {
            Some(s.list)
        } else {
            None
        },
    }
}

/// A search that has tried nothing yet.
pub open spec fn fresh(size: i32, importance: i32, list: Seq<char>) -> SearchView {
    SearchView { size, importance, list, failures: Seq::empty(), found: None }
}

/// What the search asks for next: nothing more once an offset is found;
/// the next filter while fewer than four attempts failed; and after that
/// the message of the least severe failure.
pub open spec fn pending(s: SearchView) -> StepView {
    match s.found {
        Some(offset) => StepView::Done(Ok(offset)),
        None => if s.failures.len() < ATTEMPTS {
            StepView::Fetch(filter_after(s, s.failures.len() as int))
        } else {
            StepView::Done(Err(message_text(least_severe(s.failures))))
        },
    }
}

/// The search after the outcome of the attempt that it asked for. A search
/// that is over stays as it is.
pub open spec fn recorded(s: SearchView, outcome: Result<i32, SmartDueError>) -> SearchView {
    if pending(s) is Fetch {
        match outcome {
            Ok(offset) => SearchView { found: Some(offset), ..s },
            Err(e) => SearchView { failures: s.failures.push(e), ..s },
        }
    } else {
        s
    }
}

/// The first of `errors` with the lowest rank.
fn least_severe_of(errors: &Vec<SmartDueError>) -> (r: SmartDueError)
    requires
        errors.len() > 0,
    ensures
        r == least_severe(errors@),
{
    let mut best = errors[0];
    let mut i: usize = 1;
    assert(errors@.take(1).len() == 1);
    assert(errors@.take(1)[0] == errors@[0]);
    while i < errors.len()
        invariant
            1 <= i <= errors.len(),
            best == least_severe(errors@.take(i as int)),
        decreases errors.len() - i,
    {
        proof {
            assert(errors@.take(i as int + 1).drop_last() =~= errors@.take(i as int));
            assert(errors@.take(i as int + 1).last() == errors@[i as int]);
        }
        if errors[i].severity() < best.severity() {
            best = errors[i];
        }
        i += 1;
    }
    assert(errors@.take(errors@.len() as int) =~= errors@);
    best
}

impl DueOffsetSearch {
    /// A search for tasks of this size, importance and list.
    pub fn new(size: i32, importance: i32, list: String) -> (r: DueOffsetSearch)
        ensures
            r@ == fresh(size, importance, list@),
    {
        DueOffsetSearch { size, importance, list, failures: Vec::new(), found: None }
    }

    /// What the search asks for next.
    pub fn pending(&self) -> (r: SearchStep)
        ensures
            r@ == pending(self@),
    {
        match self.found {
            Some(offset) => SearchStep::Done(Ok(offset)),
            None => {
                let failed = self.failures.len();
                if failed < ATTEMPTS {
                    let filter = if failed == 0 {
                        DueFilter::all_filters(self.size, self.importance, self.list.clone())
                    } else if failed == 1 {
                        DueFilter::size_list(self.size, self.list.clone())
                    } else if failed == 2 {
                        DueFilter::size_importance(self.size, self.importance)
                    } else {
                        DueFilter::size(self.size)
                    };
                    SearchStep::Fetch(filter)
                } else {
                    SearchStep::Done(Err(least_severe_of(&self.failures).message()))
                }
            },
        }
    }

    /// Takes in the outcome of the attempt that the search asked for.
    pub fn record(&mut self, outcome: Result<i32, SmartDueError>)
        ensures
            final(self)@ == recorded(old(self)@, outcome),
    {
        if self.found.is_none() && self.failures.len() < ATTEMPTS {
            match outcome {
                Ok(offset) => {
                    self.found = Some(offset);
                },
                Err(e) => {
                    self.failures.push(e);
                },
            }
        }
    }
}

/// Moves a search on by what the store answered to the fetch that the
/// search asked for, and says what the search asks for next.
pub fn get_suggested_due_offset(
    search: &mut DueOffsetSearch,
    fetched: Result<Option<Vec<DueEvent>>, sqlx::Error>,
) -> (step: SearchStep)
    ensures
        final(search)@ == recorded(old(search)@, outcome_of(fetched)),
        step@ == pending(final(search)@),
{
    let outcome = get_due_offset(fetched);
    search.record(outcome);
    search.pending()
}

/// The least severe failure is one of the failures, none ranks below it,
/// and all before it rank above it.
pub proof fn lemma_least_severe(errors: Seq<SmartDueError>)
    requires
        errors.len() > 0,
    ensures
        exists|i: int|
            0 <= i < errors.len() && #[trigger] errors[i] == least_severe(errors) && forall|j: int|
                0 <= j < i ==> rank(#[trigger] errors[j]) > rank(least_severe(errors)),
        forall|j: int| 0 <= j < errors.len() ==> rank(least_severe(errors)) <= rank(
            #[trigger] errors[j],
        ),
    decreases errors.len(),
{
    if errors.len() == 1 {
        assert(errors[0] == least_severe(errors));
    } else {
        let front = errors.drop_last();
        lemma_least_severe(front);
        let i = choose|i: int|
            0 <= i < front.len() && #[trigger] front[i] == least_severe(front) && forall|j: int|
                0 <= j < i ==> rank(#[trigger] front[j]) > rank(least_severe(front));
        assert forall|j: int| 0 <= j < errors.len() implies rank(least_severe(errors)) <= rank(
            #[trigger] errors[j],
        ) by {
            if j < front.len() {
                assert(front[j] == errors[j]);
            }
        }
        if rank(errors.last()) < rank(least_severe(front)) {
            let n = errors.len() - 1;
            assert(errors[n] == least_severe(errors));
            assert forall|j: int| 0 <= j < n implies rank(#[trigger] errors[j]) > rank(
                least_severe(errors),
            ) by {
                assert(front[j] == errors[j]);
            }
        } else {
            assert(errors[i] == front[i]);
            assert forall|j: int| 0 <= j < i implies rank(#[trigger] errors[j]) > rank(
                least_severe(errors),
            ) by {
                assert(front[j] == errors[j]);
            }
        }
    }
}

/// The first attempt that succeeds ends the search with its offset.
pub proof fn lemma_success_ends_search(s: SearchView, offset: i32)
    requires
        pending(s) is Fetch,
    ensures
        pending(recorded(s, Ok(offset))) == StepView::Done(Ok(offset)),
        forall|later: Result<i32, SmartDueError>|
            recorded(recorded(s, Ok(offset)), later) == recorded(s, Ok(offset)),
{
}

/// While attempts fail, the filters come in their order; after the fourth
/// failure the search ends with the message of the least severe.
pub proof fn lemma_failures_fall_back(
    size: i32,
    importance: i32,
    list: Seq<char>,
    errors: Seq<SmartDueError>,
)
    requires
        errors.len() == ATTEMPTS,
    ensures
        ({
            let s0 = fresh(size, importance, list);
            let s1 = recorded(s0, Err(errors[0]));
            let s2 = recorded(s1, Err(errors[1]));
            let s3 = recorded(s2, Err(errors[2]));
            let s4 = recorded(s3, Err(errors[3]));
            &&& pending(s0) == StepView::Fetch(filter_after(s0, 0))
            &&& pending(s1) == StepView::Fetch(filter_after(s0, 1))
            &&& pending(s2) == StepView::Fetch(filter_after(s0, 2))
            &&& pending(s3) == StepView::Fetch(filter_after(s0, 3))
            &&& pending(s4) == StepView::Done(Err(message_text(least_severe(errors))))
        }),
{
    let s0 = fresh(size, importance, list);
    let s1 = recorded(s0, Err(errors[0]));
    let s2 = recorded(s1, Err(errors[1]));
    let s3 = recorded(s2, Err(errors[2]));
    let s4 = recorded(s3, Err(errors[3]));
    assert(s4.failures =~= errors);
}

} // verus!

use task_manager::estimate::{
    get_due_event, process_filter, record_complete_event, record_create_event, record_due_event,
    CreateCompletePair, DueEvent, DueEventType, SmartDueError, MAX_STDEV_FOR_DUE_OFFSET,
};
use task_manager::history::DueFilter;
use task_manager::suggest::{get_due_offset, get_suggested_due_offset, DueOffsetSearch, SearchStep};

const HOUR: i64 = 3_600_000;

fn create(id: &str, due: i64) -> DueEvent {
    record_create_event(due - 10 * HOUR, id.to_owned(), "A".to_owned(), 2, 1, due)
}

fn complete(id: &str, at: i64) -> DueEvent {
    record_complete_event(at, id.to_owned(), "A".to_owned(), 2, 1, 0)
}

fn pairs(deltas: &[i64]) -> Vec<DueEvent> {
    let mut events = Vec::new();
    for (i, d) in deltas.iter().enumerate() {
        let id = format!("task-{}", i);
        let due = 1_700_000_000_000 + (i as i64) * 1000;
        events.push(create(&id, due));
        events.push(complete(&id, due + d));
    }
    events
}

fn filter_of(step: &SearchStep) -> (i32, Option<i32>, Option<String>) {
    match step {
        SearchStep::Fetch(DueFilter { size, importance, list }) => (*size, *importance, list.clone()),
        SearchStep::Done(_) => panic!("the search is over"),
    }
}

fn result_of(step: SearchStep) -> Result<i32, String> {
    match step {
        SearchStep::Done(r) => r,
        SearchStep::Fetch(_) => panic!("the search goes on"),
    }
}

#[test]
fn new_pair_knows_nothing() {
    let p = CreateCompletePair::new();
    assert_eq!(p.created, None);
    assert_eq!(p.completed, None);
}

#[test]
fn events_are_recorded_as_given() {
    let e = record_due_event(DueEventType::Complete, 5, "i".to_owned(), "c".to_owned(), 3, 2, 9);
    assert_eq!(e.event_type, DueEventType::Complete);
    assert_eq!(e.timestamp, 5);
    assert_eq!(e.id, "i");
    assert_eq!(e.list, "c");
    assert_eq!(e.importance, 3);
    assert_eq!(e.size, 2);
    assert_eq!(e.due, 9);
    assert_eq!(create("x", 1).event_type, DueEventType::Create);
    assert_eq!(complete("x", 1).event_type, DueEventType::Complete);
}

#[test]
fn mean_of_one_two_three_hours_is_two_hours() {
    assert_eq!(process_filter(Some(pairs(&[HOUR, 2 * HOUR, 3 * HOUR]))), Ok(2 * HOUR as i32));
    assert_eq!(process_filter(Some(pairs(&[HOUR, 2 * HOUR, 3 * HOUR]))), Ok(7_200_000));
}

#[test]
fn nothing_fetched_is_no_records() {
    assert_eq!(process_filter(None), Err(SmartDueError::NoRecords));
    assert_eq!(process_filter(Some(Vec::new())), Err(SmartDueError::NoRecords));
}

#[test]
fn halves_without_their_other_half_are_no_pairs() {
    let events = vec![create("a", 5), complete("b", 9), create("c", 1)];
    assert_eq!(process_filter(Some(events)), Err(SmartDueError::NoPairs));
}

#[test]
fn tasks_missing_a_half_are_left_out() {
    let mut events = pairs(&[HOUR, 3 * HOUR]);
    events.push(create("lonely", 77));
    events.push(complete("stray", 1_000_000_000_000_000));
    assert_eq!(process_filter(Some(events)), Ok(2 * HOUR as i32));
}

#[test]
fn the_mean_is_rounded_towards_zero() {
    assert_eq!(process_filter(Some(pairs(&[1, 2]))), Ok(1));
    assert_eq!(process_filter(Some(pairs(&[-1, -2]))), Ok(-1));
    assert_eq!(process_filter(Some(pairs(&[-7, 2]))), Ok(-2));
    assert_eq!(process_filter(Some(pairs(&[-5]))), Ok(-5));
}

#[test]
fn a_deviation_at_the_ceiling_passes_and_one_above_fails() {
    let ceiling = MAX_STDEV_FOR_DUE_OFFSET as i64;
    assert_eq!(ceiling, 259_200_000);
    assert_eq!(process_filter(Some(pairs(&[-ceiling, ceiling]))), Ok(0));
    assert_eq!(
        process_filter(Some(pairs(&[-ceiling - 1, ceiling + 1]))),
        Err(SmartDueError::StdevTooHigh)
    );
    // One overrun nearer to the mean: the variance falls below the ceiling's square.
    assert_eq!(process_filter(Some(pairs(&[-ceiling, ceiling, ceiling, -ceiling + 1]))), Ok(0));
}

#[test]
fn the_variance_is_taken_about_the_rounded_mean() {
    // Mean 1 (of 3 / 2), squared distances 1 and 0, variance 0.
    assert_eq!(process_filter(Some(pairs(&[0, 3]))), Ok(1));
}

#[test]
fn scattered_overruns_are_refused() {
    let day = 24 * HOUR;
    assert_eq!(process_filter(Some(pairs(&[0, 10 * day]))), Err(SmartDueError::StdevTooHigh));
    assert_eq!(process_filter(Some(pairs(&[0, 6 * day]))), Ok((3 * day) as i32));
}

#[test]
fn of_repeated_events_the_last_counts() {
    let events = vec![
        create("a", 1000),
        complete("a", 1500),
        create("a", 2000),
        complete("a", 2600),
    ];
    assert_eq!(process_filter(Some(events)), Ok(600));
    let events = vec![complete("a", 1500), create("a", 1000), create("a", 1200)];
    assert_eq!(process_filter(Some(events)), Ok(300));
}

#[test]
fn a_mean_that_has_no_place_in_32_bits_is_refused() {
    assert_eq!(process_filter(Some(pairs(&[3_000_000_000]))), Err(SmartDueError::OffsetTooLarge));
    assert_eq!(process_filter(Some(pairs(&[(1i64 << 32) + 5]))), Err(SmartDueError::OffsetTooLarge));
    assert_eq!(process_filter(Some(pairs(&[i32::MAX as i64]))), Ok(i32::MAX));
    assert_eq!(
        process_filter(Some(pairs(&[i32::MAX as i64 + 1]))),
        Err(SmartDueError::OffsetTooLarge)
    );
    assert_eq!(process_filter(Some(pairs(&[i32::MIN as i64]))), Ok(i32::MIN));
    assert_eq!(
        process_filter(Some(pairs(&[i32::MIN as i64 - 1]))),
        Err(SmartDueError::OffsetTooLarge)
    );
    assert_eq!(
        process_filter(Some(pairs(&[-3_000_000_000, -3_000_000_001]))),
        Err(SmartDueError::OffsetTooLarge)
    );
}

#[test]
fn extreme_times_do_not_overflow() {
    let events = vec![
        record_create_event(0, "a".to_owned(), "A".to_owned(), 1, 1, i64::MIN),
        record_complete_event(i64::MAX, "a".to_owned(), "A".to_owned(), 1, 1, 0),
        record_create_event(0, "b".to_owned(), "A".to_owned(), 1, 1, i64::MAX),
        record_complete_event(i64::MIN, "b".to_owned(), "A".to_owned(), 1, 1, 0),
    ];
    assert_eq!(process_filter(Some(events)), Err(SmartDueError::StdevTooHigh));
    let events = vec![
        record_create_event(0, "a".to_owned(), "A".to_owned(), 1, 1, i64::MIN),
        record_complete_event(i64::MAX, "a".to_owned(), "A".to_owned(), 1, 1, 0),
    ];
    // One overrun of 2^64 - 1: no spread, and no place in 32 bits.
    assert_eq!(process_filter(Some(events)), Err(SmartDueError::OffsetTooLarge));
}

#[test]
fn a_mean_out_of_range_falls_back_like_any_failure() {
    let mut search = DueOffsetSearch::new(1, 2, "A".to_owned());
    let step = get_suggested_due_offset(&mut search, Ok(Some(pairs(&[3_000_000_000]))));
    assert_eq!(filter_of(&step), (1, None, Some("A".to_owned())));
    assert_eq!(search.failures, vec![SmartDueError::OffsetTooLarge]);
    get_suggested_due_offset(&mut search, Ok(Some(pairs(&[3_000_000_000]))));
    get_suggested_due_offset(&mut search, Ok(Some(pairs(&[3_000_000_000]))));
    let step = get_suggested_due_offset(&mut search, Ok(Some(pairs(&[3_000_000_000]))));
    assert_eq!(result_of(step), Err("Due offset too large.".to_owned()));
}

#[test]
fn the_sample_event_is_a_completion_due_now() {
    let e = get_due_event(1_700_000_000_123);
    assert_eq!(e.event_type, DueEventType::Complete);
    assert_eq!(e.timestamp, 1_700_000_000_123);
    assert_eq!(e.due, 1_700_000_000_123);
    assert_eq!(e.id, "123456");
    assert_eq!(e.list, "test");
    assert_eq!(e.importance, 3);
    assert_eq!(e.size, 2);
}

#[test]
fn failures_rank_by_severity() {
    assert_eq!(SmartDueError::SqlError.severity(), 0);
    assert_eq!(SmartDueError::NoRecords.severity(), 1);
    assert_eq!(SmartDueError::NoPairs.severity(), 2);
    assert_eq!(SmartDueError::StdevTooHigh.severity(), 3);
    assert_eq!(SmartDueError::OffsetTooLarge.severity(), 4);
    let n: i32 = SmartDueError::NoPairs.into();
    assert_eq!(n, 2);
    assert_eq!(i32::from(SmartDueError::StdevTooHigh), 3);
}

#[test]
fn failures_have_their_messages() {
    assert_eq!(SmartDueError::SqlError.message(), "Error returned from database");
    assert_eq!(SmartDueError::NoRecords.message(), "No due date event records found.");
    assert_eq!(
        SmartDueError::NoPairs.message(),
        "No due date event create/complete pairs found."
    );
    assert_eq!(SmartDueError::StdevTooHigh.message(), "Standard deviation too high.");
    assert_eq!(SmartDueError::OffsetTooLarge.message(), "Due offset too large.");
}

#[test]
fn event_kinds_are_read_from_numbers() {
    assert_eq!(DueEventType::try_from(0), Ok(DueEventType::Create));
    assert_eq!(DueEventType::try_from(1), Ok(DueEventType::Complete));
    assert_eq!(
        DueEventType::try_from(2),
        Err("Invalid value '2' for DueEventType.".to_owned())
    );
    assert_eq!(
        DueEventType::try_from(-17),
        Err("Invalid value '-17' for DueEventType.".to_owned())
    );
}

#[test]
fn an_event_kind_is_read_back_as_it_was_stored() {
    assert_eq!(DueEventType::Create.code(), 0);
    assert_eq!(DueEventType::Complete.code(), 1);
    for kind in [DueEventType::Create, DueEventType::Complete] {
        assert_eq!(DueEventType::try_from(kind.code()), Ok(kind));
    }
}

#[test]
fn a_store_failure_is_sql_error() {
    assert_eq!(get_due_offset(Err(sqlx::Error::PoolClosed)), Err(SmartDueError::SqlError));
    assert_eq!(get_due_offset(Ok(None)), Err(SmartDueError::NoRecords));
    assert_eq!(get_due_offset(Ok(Some(pairs(&[HOUR])))), Ok(HOUR as i32));
}

#[test]
fn the_strictest_filter_that_succeeds_ends_the_search() {
    let mut search = DueOffsetSearch::new(1, 2, "A".to_owned());
    let step = search.pending();
    assert_eq!(filter_of(&step), (1, Some(2), Some("A".to_owned())));
    let step = get_suggested_due_offset(&mut search, Ok(Some(pairs(&[HOUR, 2 * HOUR, 3 * HOUR]))));
    assert_eq!(result_of(step), Ok(7_200_000));
    // A search that is over stays over.
    let step = get_suggested_due_offset(&mut search, Err(sqlx::Error::PoolClosed));
    assert_eq!(result_of(step), Ok(7_200_000));
}

#[test]
fn a_scattered_strict_filter_falls_back_to_the_next() {
    let day = 24 * HOUR;
    let mut search = DueOffsetSearch::new(1, 2, "A".to_owned());
    let step = get_suggested_due_offset(&mut search, Ok(Some(pairs(&[0, 10 * day]))));
    assert_eq!(filter_of(&step), (1, None, Some("A".to_owned())));
    assert_eq!(search.failures, vec![SmartDueError::StdevTooHigh]);
    let step = get_suggested_due_offset(&mut search, Ok(Some(pairs(&[HOUR, 3 * HOUR]))));
    assert_eq!(result_of(step), Ok(2 * HOUR as i32));
}

#[test]
fn the_filters_come_in_their_order() {
    let mut search = DueOffsetSearch::new(4, 5, "L".to_owned());
    assert_eq!(filter_of(&search.pending()), (4, Some(5), Some("L".to_owned())));
    let step = get_suggested_due_offset(&mut search, Ok(None));
    assert_eq!(filter_of(&step), (4, None, Some("L".to_owned())));
    let step = get_suggested_due_offset(&mut search, Ok(None));
    assert_eq!(filter_of(&step), (4, Some(5), None));
    let step = get_suggested_due_offset(&mut search, Ok(None));
    assert_eq!(filter_of(&step), (4, None, None));
    let step = get_suggested_due_offset(&mut search, Ok(None));
    assert_eq!(result_of(step), Err("No due date event records found.".to_owned()));
}

#[test]
fn a_store_failure_on_the_strictest_filter_is_what_is_reported() {
    let mut search = DueOffsetSearch::new(1, 2, "A".to_owned());
    get_suggested_due_offset(&mut search, Err(sqlx::Error::PoolClosed));
    get_suggested_due_offset(&mut search, Ok(None));
    get_suggested_due_offset(&mut search, Ok(Some(Vec::new())));
    let step = get_suggested_due_offset(&mut search, Ok(None));
    assert_eq!(result_of(step), Err("Error returned from database".to_owned()));
}

#[test]
fn the_least_severe_failure_is_reported_wherever_it_came() {
    let day = 24 * HOUR;
    let mut search = DueOffsetSearch::new(1, 2, "A".to_owned());
    get_suggested_due_offset(&mut search, Ok(Some(pairs(&[0, 10 * day]))));
    get_suggested_due_offset(&mut search, Ok(Some(vec![create("a", 1)])));
    get_suggested_due_offset(&mut search, Ok(Some(pairs(&[0, 10 * day]))));
    let step = get_suggested_due_offset(&mut search, Ok(Some(vec![complete("a", 1)])));
    assert_eq!(
        result_of(step),
        Err("No due date event create/complete pairs found.".to_owned())
    );
}

fn event(kind: DueEventType, id: &str, at: i64, list: &str, importance: i32, size: i32, due: i64) -> DueEvent {
    record_due_event(kind, at, id.to_owned(), list.to_owned(), importance, size, due)
}

fn suggest_from(store: &Vec<DueEvent>, size: i32, importance: i32, list: &str) -> (Result<i32, String>, usize) {
    let mut search = DueOffsetSearch::new(size, importance, list.to_owned());
    let mut step = search.pending();
    let mut fetches = 0;
    loop {
        match step {
            SearchStep::Done(result) => return (result, fetches),
            SearchStep::Fetch(filter) => {
                fetches += 1;
                let rows = filter.select(store);
                step = get_suggested_due_offset(&mut search, Ok(Some(rows)));
            }
        }
    }
}

#[test]
fn a_filter_lets_through_what_it_names() {
    let e = event(DueEventType::Create, "t", 0, "A", 2, 1, 0);
    assert!(DueFilter::all_filters(1, 2, "A".to_owned()).admits(&e));
    assert!(!DueFilter::all_filters(1, 2, "B".to_owned()).admits(&e));
    assert!(!DueFilter::all_filters(1, 3, "A".to_owned()).admits(&e));
    assert!(!DueFilter::all_filters(2, 2, "A".to_owned()).admits(&e));
    assert!(DueFilter::size_list(1, "A".to_owned()).admits(&e));
    assert!(!DueFilter::size_list(1, "B".to_owned()).admits(&e));
    assert!(DueFilter::size_importance(1, 2).admits(&e));
    assert!(!DueFilter::size_importance(1, 9).admits(&e));
    assert!(DueFilter::size(1).admits(&e));
    assert!(!DueFilter::size(0).admits(&e));
}

#[test]
fn selecting_keeps_the_order() {
    let store = vec![
        event(DueEventType::Create, "a", 0, "A", 2, 1, 0),
        event(DueEventType::Create, "b", 0, "B", 2, 1, 0),
        event(DueEventType::Create, "c", 0, "A", 2, 2, 0),
        event(DueEventType::Complete, "d", 0, "A", 5, 1, 0),
    ];
    let ids: Vec<String> =
        DueFilter::size_list(1, "A".to_owned()).select(&store).into_iter().map(|e| e.id).collect();
    assert_eq!(ids, vec!["a".to_owned(), "d".to_owned()]);
}

#[test]
fn the_mean_comes_from_the_tasks_of_the_same_kind() {
    let mut store = Vec::new();
    for (i, d) in [HOUR, 2 * HOUR, 3 * HOUR].iter().enumerate() {
        let id = format!("same-{}", i);
        store.push(event(DueEventType::Create, &id, 0, "A", 2, 1, 1_000_000));
        store.push(event(DueEventType::Complete, &id, 1_000_000 + d, "A", 2, 1, 0));
    }
    // Tasks of another list, another importance and another size.
    store.push(event(DueEventType::Create, "x", 0, "B", 2, 1, 0));
    store.push(event(DueEventType::Complete, "x", 50 * HOUR, "B", 2, 1, 0));
    store.push(event(DueEventType::Create, "y", 0, "A", 3, 1, 0));
    store.push(event(DueEventType::Complete, "y", 60 * HOUR, "A", 3, 1, 0));
    store.push(event(DueEventType::Create, "z", 0, "A", 2, 4, 0));
    store.push(event(DueEventType::Complete, "z", 70 * HOUR, "A", 2, 4, 0));
    assert_eq!(suggest_from(&store, 1, 2, "A"), (Ok(7_200_000), 1));
}

#[test]
fn looser_filters_are_tried_while_stricter_ones_fail() {
    let day = 24 * HOUR;
    let mut store = Vec::new();
    // Size 1, importance 2, list A: scattered.
    store.push(event(DueEventType::Create, "a", 0, "A", 2, 1, 0));
    store.push(event(DueEventType::Complete, "a", 0, "A", 2, 1, 0));
    store.push(event(DueEventType::Create, "b", 0, "A", 2, 1, 0));
    store.push(event(DueEventType::Complete, "b", 20 * day, "A", 2, 1, 0));
    // Size 1, list A, of other importance: scattered with the above.
    store.push(event(DueEventType::Create, "c", 0, "A", 7, 1, 0));
    store.push(event(DueEventType::Complete, "c", 40 * day, "A", 7, 1, 0));
    assert_eq!(suggest_from(&store, 1, 2, "A"), (Err("Standard deviation too high.".to_owned()), 4));
    // Size 3 is known to list B alone, with one task.
    store.push(event(DueEventType::Create, "d", 0, "B", 1, 3, 100));
    store.push(event(DueEventType::Complete, "d", 100 + HOUR, "B", 1, 3, 0));
    assert_eq!(suggest_from(&store, 3, 1, "A"), (Ok(HOUR as i32), 3));
    assert_eq!(suggest_from(&store, 3, 9, "A"), (Ok(HOUR as i32), 4));
    assert_eq!(suggest_from(&store, 3, 9, "B"), (Ok(HOUR as i32), 2));
    assert_eq!(suggest_from(&store, 3, 1, "B"), (Ok(HOUR as i32), 1));
    assert_eq!(suggest_from(&store, 8, 1, "B"), (Err("No due date event records found.".to_owned()), 4));
}

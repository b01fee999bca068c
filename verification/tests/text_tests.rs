use task_manager::history::{
    clear_due_events_query, filter_due_events_query, number_condition_text, remove_due_event,
    text_condition_text, DueFilter,
};
use task_manager::http::{do_sync, is_logged_in, send_telemetry, SyncFault};
use task_manager::text::{glue, decimal_text, join, owned};

fn strings(parts: &[&str]) -> Vec<String> {
    parts.iter().map(|p| p.to_string()).collect()
}

#[test]
fn numbers_are_written_in_decimal() {
    assert_eq!(decimal_text(0), "0");
    assert_eq!(decimal_text(7), "7");
    assert_eq!(decimal_text(10), "10");
    assert_eq!(decimal_text(1234567890), "1234567890");
    assert_eq!(decimal_text(-5), "-5");
    assert_eq!(decimal_text(-120), "-120");
    assert_eq!(decimal_text(i64::MAX), i64::MAX.to_string());
    assert_eq!(decimal_text(i64::MIN), i64::MIN.to_string());
}

#[test]
fn parts_are_joined() {
    assert_eq!(join(&strings(&[]), ", "), "");
    assert_eq!(join(&strings(&["a"]), ", "), "a");
    assert_eq!(join(&strings(&["a", "b", "c"]), ", "), "a, b, c");
    assert_eq!(join(&strings(&["", ""]), "-"), "-");
    assert_eq!(glue("ab", "cd"), "abcd");
    assert_eq!(owned("xyz"), "xyz");
}

#[test]
fn conditions_are_written_as_the_store_reads_them() {
    assert_eq!(number_condition_text("size", 3), "size=3");
    assert_eq!(number_condition_text("importance", -2), "importance=-2");
    assert_eq!(text_condition_text("list", "A"), "list='A'");
    assert_eq!(text_condition_text("id", ""), "id=''");
}

#[test]
fn filters_give_their_conditions_in_order() {
    assert_eq!(
        DueFilter::all_filters(1, 2, "A".to_owned()).conditions(),
        strings(&["size=1", "importance=2", "list='A'"])
    );
    assert_eq!(
        DueFilter::size_list(1, "A".to_owned()).conditions(),
        strings(&["size=1", "list='A'"])
    );
    assert_eq!(DueFilter::size_importance(1, 2).conditions(), strings(&["size=1", "importance=2"]));
    assert_eq!(DueFilter::size(5).conditions(), strings(&["size=5"]));
}

#[test]
fn queries_name_their_conditions() {
    assert_eq!(filter_due_events_query(&strings(&[])), "SELECT * FROM DueEvents");
    assert_eq!(
        filter_due_events_query(&strings(&["list='test'"])),
        "SELECT * FROM DueEvents WHERE list='test'"
    );
    assert_eq!(
        filter_due_events_query(&strings(&["size=1", "importance=2", "list='A'"])),
        "SELECT * FROM DueEvents WHERE size=1 AND importance=2 AND list='A'"
    );
    assert_eq!(clear_due_events_query(&strings(&[])), "DELETE FROM DueEvents");
    assert_eq!(
        clear_due_events_query(&strings(&["id='x'", "type=0"])),
        "DELETE FROM DueEvents WHERE id='x' AND type=0"
    );
}

#[test]
fn removing_events_asks_for_a_kind() {
    let id = "t-1".to_owned();
    assert_eq!(
        remove_due_event(&id, false, false),
        Err("Choose either create or complete to delete".to_owned())
    );
    assert_eq!(remove_due_event(&id, true, false), Ok(strings(&["id='t-1'", "type=0"])));
    assert_eq!(remove_due_event(&id, false, true), Ok(strings(&["id='t-1'", "type=1"])));
    assert_eq!(remove_due_event(&id, true, true), Ok(strings(&["id='t-1'"])));
}

#[test]
fn a_session_needs_a_cookie_that_is_not_empty() {
    assert!(!is_logged_in(&None));
    assert!(!is_logged_in(&Some(String::new())));
    assert!(is_logged_in(&Some("session=1".to_owned())));
}

#[test]
fn a_device_reports_under_its_id() {
    assert_eq!(
        send_telemetry(&"dev".to_owned(), &"0.0.0".to_owned()),
        "/telemetry?device_id=dev"
    );
    assert_eq!(
        send_telemetry(&"dev".to_owned(), &"1.2.3".to_owned()),
        "/telemetry?device_id=dev?previous=1.2.3"
    );
}

#[test]
fn a_pass_begins_only_in_a_session() {
    assert!(do_sync(&Some("c=1".to_owned())).is_ok());
    match do_sync(&None) {
        Err(SyncFault::NotLoggedIn) => {}
        other => panic!("unexpected: {:?}", other),
    }
    match do_sync(&Some(String::new())) {
        Err(fault) => assert_eq!(fault.message(), "Not logged in."),
        Ok(_) => panic!("an empty cookie is no session"),
    }
}

#[test]
fn faults_are_told_with_their_causes() {
    assert_eq!(SyncFault::NotLoggedIn.message(), "Not logged in.");
    assert_eq!(SyncFault::Http("timed out".to_owned()).message(), "HTTP Error: timed out");
    assert_eq!(SyncFault::NoData.message(), "Received no data from server.");
    assert_eq!(SyncFault::Json("EOF at line 1".to_owned()).message(), "JSON Error: EOF at line 1");
    assert_eq!(
        SyncFault::CompareAndSave("no such table".to_owned()).message(),
        "Compare and Save Error: no such table"
    );
}

//! What is decided about the exchange with the remote service before
//! anything is sent.

use crate::text::{glue, owned};
use vstd::prelude::*;
use vstd::string::StringExecFns;

verus! {

/// The text of the cookie that is held, if one is.
pub open spec fn cookie_text(cookie: Option<String>) -> Option<Seq<char>> {
    match cookie {
        Some(text) => Some(text@),
        None => None,
    }
}

/// A session is open where a cookie is held and is not empty.
pub open spec fn logged_in(cookie: Option<Seq<char>>) -> bool {
    cookie matches Some(text) && text.len() > 0
}

/// The address under which a device reports itself: with its id and,
/// unless it ran no version before, with the version it ran.
pub open spec fn telemetry_address(device_id: Seq<char>, previous_version: Seq<char>) -> Seq<char> {
    if previous_version == "0.0.0"@ {
        "/telemetry?device_id="@ + device_id
    } else {
        "/telemetry?device_id="@ + device_id + "?previous="@ + previous_version
    }
}

/// Why a pass of synchronization ended without success. The texts are
/// those of the causes, as they came.
#[derive(Debug)]
pub enum SyncFault {
    /// No session is open.
    NotLoggedIn,
    /// The remote service could not be reached, or did not answer in time.
    Http(String),
    /// The answer of the remote service had no body.
    NoData,
    /// The body was not a snapshot.
    Json(String),
    /// The store failed while the pass read from it or wrote to it.
    CompareAndSave(String),
}

/// The model of a `SyncFault`.
pub enum SyncFaultView {
    NotLoggedIn,
    Http(Seq<char>),
    NoData,
    Json(Seq<char>),
    CompareAndSave(Seq<char>),
}

impl View for SyncFault {
    type V = SyncFaultView;

    open spec fn view(&self) -> SyncFaultView {
        match self {
            SyncFault::NotLoggedIn => SyncFaultView::NotLoggedIn,
            SyncFault::Http(cause) => SyncFaultView::Http(cause@),
            SyncFault::NoData => SyncFaultView::NoData,
            SyncFault::Json(cause) => SyncFaultView::Json(cause@),
            SyncFault::CompareAndSave(cause) => SyncFaultView::CompareAndSave(cause@),
        }
    }
}

/// What the user is told of a fault: what failed, and the cause word for
/// word.
pub open spec fn fault_text(fault: SyncFaultView) -> Seq<char> {
    match fault {
        SyncFaultView::NotLoggedIn => "Not logged in."@,
        SyncFaultView::Http(cause) => "HTTP Error: "@ + cause,
        SyncFaultView::NoData => "Received no data from server."@,
        SyncFaultView::Json(cause) => "JSON Error: "@ + cause,
        SyncFaultView::CompareAndSave(cause) => "Compare and Save Error: "@ + cause,
    }
}

impl SyncFault {
    /// What the user is told of this fault.
    pub fn message(&self) -> (r: String)
        ensures
            r@ == fault_text(self@),
    {
        match self {
            SyncFault::NotLoggedIn => owned("Not logged in."),
            SyncFault::Http(cause) => glue("HTTP Error: ", cause.as_str()),
            SyncFault::NoData => owned("Received no data from server."),
            SyncFault::Json(cause) => glue("JSON Error: ", cause.as_str()),
            SyncFault::CompareAndSave(cause) => glue("Compare and Save Error: ", cause.as_str()),
        }
    }
}

/// Whether a pass may begin: it may where a session is open.
pub fn do_sync(cookie: &Option<String>) -> (r: Result<(), SyncFault>)
    ensures
        match r {
            Ok(_) => logged_in(cookie_text(*cookie)),
            Err(fault) => !logged_in(cookie_text(*cookie)) && fault@ == SyncFaultView::NotLoggedIn,
        },
{
    if is_logged_in(cookie) {
        Ok(())
    } else {
        Err(SyncFault::NotLoggedIn)
    }
}

/// Whether a session is open.
pub fn is_logged_in(cookie: &Option<String>) -> (r: bool)
    ensures
        r == logged_in(cookie_text(*cookie)),
{
    match cookie {
        Some(text) => {
            let empty = String::new();
            assert(text@.len() == 0 <==> text@ =~= empty@);
            !(*text == empty)
        },
        None => false,
    }
}

/// The address under which a device reports itself.
pub fn send_telemetry(device_id: &String, previous_version: &String) -> (r: String)
    ensures
        r@ == telemetry_address(device_id@, previous_version@),
{
    let first = owned("0.0.0");
    let mut url = glue("/telemetry?device_id=", device_id.as_str());
    if !(*previous_version == first) {
        url.append("?previous=");
        url.append(previous_version.as_str());
        assert(url@ =~= telemetry_address(device_id@, previous_version@));
    }
    url
}

} // verus!

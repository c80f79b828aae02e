//! The event data model: named, attributed intervals. Kept alongside the
//! sample model for callers that pair tag histories with event histories;
//! no algorithm here reads it.

use vstd::prelude::*;

verus! {

/// Identity of an event stream.
#[derive(Debug)]
pub struct EventInfo {
    pub name: String,
}

/// One event: an interval from `start_time` to an optional `end_time`
/// (absent while the event is still open), with free-form attributes.
#[derive(Debug)]
pub struct Event {
    pub start_time: i64,
    pub end_time: Option<i64>,
    pub attributes: Vec<(String, String)>,
}

/// An event stream: its identity and its events.
#[derive(Debug)]
pub struct EventSeries {
    pub info: EventInfo,
    pub events: Vec<Event>,
}

} // verus!

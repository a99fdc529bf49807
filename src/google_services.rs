//! Records that the calendar and spreadsheet services hand back, as plain
//! values. Fetching and decoding them happens outside this library.
use vstd::prelude::*;

verus! {

/// A range of cells read from a spreadsheet.
#[derive(Debug, Clone)]
pub struct SpreadsheetValue {
    pub range: String,
    pub major_dimension: String,
    pub values: Vec<Vec<String>>,
}

/// A calendar event.
#[derive(Debug, Clone)]
pub struct Event {
    pub summary: String,
    pub description: String,
    pub start_date_time: String,
    pub end_date_time: String,
    pub time_zone: String,
}

/// The events of a calendar, in the order the service listed them.
#[derive(Debug)]
pub struct Events {
    pub events: Vec<Event>,
}

/// A point in time as a calendar writes it: a date-time and its time zone.
#[derive(Debug, Clone)]
pub struct CalendarDate {
    pub date_time: String,
    pub time_zone: String,
}

impl Events {
    /// The first event listed, if there is one.
    pub fn first(&self) -> (r: Option<&Event>)
        ensures
            self.events@.len() == 0 ==> r is None,
            self.events@.len() > 0 ==> r == Some(&self.events@[0]),
    {
        if self.events.len() == 0 {
            None
        } else {
            Some(&self.events[0])
        }
    }
}

} // verus!

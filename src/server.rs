use vstd::prelude::*;
use crate::storage::{in_range, views, TraceDb, TraceEntry};

verus! {

/// The query of a trace listing: an inclusive step range, or everything.
pub struct RangeQuery {
    pub start: Option<u64>,
    pub end: Option<u64>,
}

/// A trace listing: the selected entries and the total number recorded.
pub struct TraceResponse {
    pub entries: Vec<TraceEntry>,
    pub total: u64,
}

impl TraceResponse {
    /// The listing for `q`: with both bounds the entries in `start..=end`,
    /// otherwise every entry; `total` counts the whole trace.
    pub fn for_query(db: &TraceDb, q: &RangeQuery) -> (r: TraceResponse)
        ensures
            r.total == db@.len(),
            views(r.entries@) == match (q.start, q.end) {
                (Some(s), Some(e)) => db@.filter(in_range(s, e)),
                _ => db@,
            },
    {
        let total = db.count();
        let entries = match (q.start, q.end) {
            (Some(s), Some(e)) => db.get_range(s, e),
            _ => db.get_all(),
        };
        TraceResponse { entries, total }
    }
}

} // verus!

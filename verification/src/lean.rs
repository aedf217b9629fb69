//! The topological ordering of events, computed by `ruma_lean`.
use vstd::prelude::*;
use ruma_lean::{LeanEvent, StateResVersion};

verus! {

/// The version of the state resolution algorithm whose tie-breaking rules
/// order the events.
#[derive(Clone, Copy, PartialEq, Eq, Structural, Debug)]
pub enum SortVersion {
    V1,
    V2,
    V2_1,
}

/// An event handed to the topological sort.
pub struct SortEvent {
    pub event_id: String,
    pub event_type: String,
    pub state_key: String,
    pub power_level: i64,
    pub origin_server_ts: u64,
    pub sender: String,
    pub prev_events: Vec<String>,
    pub auth_events: Vec<String>,
    pub depth: u64,
}

/// The views of a list of strings.
pub open spec fn strings_view(v: Seq<String>) -> Seq<Seq<char>> {
    Seq::new(v.len(), |i: int| v[i]@)
}

/// What the topological sort reads of an event.
pub ghost struct SortEventModel {
    pub event_id: Seq<char>,
    pub event_type: Seq<char>,
    pub state_key: Seq<char>,
    pub power_level: i64,
    pub origin_server_ts: u64,
    pub sender: Seq<char>,
    pub prev_events: Seq<Seq<char>>,
    pub auth_events: Seq<Seq<char>>,
    pub depth: u64,
}

impl SortEvent {
    pub open spec fn model(&self) -> SortEventModel {
        SortEventModel {
            event_id: self.event_id@,
            event_type: self.event_type@,
            state_key: self.state_key@,
            power_level: self.power_level,
            origin_server_ts: self.origin_server_ts,
            sender: self.sender@,
            prev_events: strings_view(self.prev_events@),
            auth_events: strings_view(self.auth_events@),
            depth: self.depth,
        }
    }
}

/// The models of a list of sort events.
pub open spec fn sort_models(v: Seq<SortEvent>) -> Seq<SortEventModel> {
    Seq::new(v.len(), |i: int| v[i].model())
}

/// The event ids in the order that `ruma_lean::lean_kahn_sort` gives the
/// events (keyed by event id, a later event replacing an earlier one with the
/// same id) under the given version's tie-breaking.
pub uninterp spec fn kahn_order(events: Seq<SortEventModel>, version: SortVersion) -> Seq<Seq<char>>;

/// Sorts events topologically with `ruma_lean::lean_kahn_sort`. The events
/// are put into a map keyed by event id (a later event with the same id
/// replaces an earlier one), each converted field by field into a
/// `LeanEvent` whose `content` is left at its default. The crate orders the
/// map by auth edges with a priority queue under a total order (for V2 and
/// V2.1: power level, then timestamp, then event id), so the result is a
/// function of the events and the version; the contract names it
/// `kahn_order` and claims nothing else of it (on a cycle the crate returns
/// an empty list, which the name also covers).
#[verifier::external_body]
pub(crate) fn lean_kahn_sort(events: Vec<SortEvent>, version: SortVersion) -> (ids: Vec<String>)
    ensures
        strings_view(ids@) == kahn_order(sort_models(events@), version),
{
    let mut map = ruma_lean::HashMap::new();
    for e in events {
        let key = e.event_id.clone();
        let lean = LeanEvent { event_id: e.event_id, event_type: e.event_type,
            state_key: e.state_key, power_level: e.power_level, origin_server_ts: e.origin_server_ts,
            sender: e.sender, prev_events: e.prev_events, auth_events: e.auth_events,
            depth: e.depth, ..Default::default() };
        map.insert(key, lean);
    }
    let v = match version { SortVersion::V1 => StateResVersion::V1,
        SortVersion::V2 => StateResVersion::V2, SortVersion::V2_1 => StateResVersion::V2_1 };
    ruma_lean::lean_kahn_sort(&map, v)
}

} // verus!

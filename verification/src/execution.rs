//! Turning the fields read from an events fixture into prover events.
use vstd::prelude::*;
use crate::star_graph::MatrixEvent;
use crate::lean::strings_view;

verus! {

/// The fields of one fixture event: each string field where it is a string,
/// the previous events that are strings, and the power level where it is an
/// unsigned integer.
pub struct EventFields {
    pub event_id: Option<String>,
    pub event_type: Option<String>,
    pub state_key: Option<String>,
    pub prev_events: Vec<String>,
    pub power_level: Option<u64>,
}

/// The power level of an event that gives none.
pub const DEFAULT_POWER_LEVEL: u64 = 100;

/// A string field, the empty string where it is missing.
pub open spec fn text_or_empty(s: Option<String>) -> Seq<char> {
    match s {
        Some(t) => t@,
        None => Seq::empty(),
    }
}

/// The prover event of a fixture event.
pub open spec fn event_matches(f: EventFields, e: MatrixEvent) -> bool {
    &&& e.event_id@ == text_or_empty(f.event_id)
    &&& e.event_type@ == text_or_empty(f.event_type)
    &&& e.state_key@ == text_or_empty(f.state_key)
    &&& strings_view(e.prev_events@) == strings_view(f.prev_events@)
    &&& e.power_level == match f.power_level {
        Some(p) => p,
        None => DEFAULT_POWER_LEVEL,
    }
}

fn text_of(s: &Option<String>) -> (r: String)
    ensures
        r@ == text_or_empty(*s),
{
    match s {
        Some(t) => t.clone(),
        None => String::new(),
    }
}

/// The prover events of the first `limit` fixture events (all of them when
/// no limit is given): missing strings become empty and a missing power
/// level becomes 100.
pub fn prepare_events(raw: &Vec<EventFields>, limit: Option<usize>) -> (events: Vec<MatrixEvent>)
    ensures
        events@.len() == match limit {
            Some(l) => if l < raw@.len() { l as int } else { raw@.len() as int },
            None => raw@.len() as int,
        },
        forall|i: int| 0 <= i < events@.len() ==> event_matches(raw@[i], #[trigger] events@[i]),
{
    let count = match limit {
        Some(l) => if l < raw.len() { l } else { raw.len() },
        None => raw.len(),
    };
    let mut events: Vec<MatrixEvent> = Vec::new();
    let mut i: usize = 0;
    while i < count
        invariant
            count <= raw@.len(),
            i <= count,
            events@.len() == i,
            forall|q: int| 0 <= q < i ==> event_matches(raw@[q], #[trigger] events@[q]),
        decreases count - i,
    {
        let f = &raw[i];
        let prev = crate::star_graph::clone_strings(&f.prev_events);
        let e = MatrixEvent {
            event_id: text_of(&f.event_id),
            event_type: text_of(&f.event_type),
            state_key: text_of(&f.state_key),
            prev_events: prev,
            power_level: match f.power_level {
                Some(p) => p,
                None => DEFAULT_POWER_LEVEL,
            },
        };
        assert(strings_view(e.prev_events@) =~= strings_view(f.prev_events@));
        events.push(e);
        i = i + 1;
    }
    events
}

} // verus!

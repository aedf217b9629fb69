//! Full resolution inside the guest: the events are ordered by `ruma_lean`'s
//! Kahn sort (state resolution v2 tie-breaking) and the resolved state is
//! fingerprinted.
use vstd::prelude::*;
use crate::lean::{SortEvent, SortVersion, kahn_order, sort_models, strings_view, lean_kahn_sort};
use crate::state::{StateWrite, state_fingerprint, state_hash, to_map, writes_model, bytes_of};
use crate::star_graph::clone_strings;

verus! {

/// A Matrix event as the guest receives it. Of the raw event object the
/// resolution reads two fields: `origin_server_ts` (as an unsigned integer)
/// and `state_key` (as a string); they are held here, `None` where the
/// object lacks them or holds another kind of value.
pub struct GuestEvent {
    pub origin_ts: Option<u64>,
    pub state_key: Option<String>,
    pub content: Vec<u8>,
    pub event_id: String,
    pub room_id: String,
    pub sender: String,
    pub event_type: String,
    pub prev_events: Vec<String>,
    pub auth_events: Vec<String>,
    pub public_key: Option<Vec<u8>>,
    pub signature: Option<Vec<u8>>,
    pub verified_on_host: bool,
}

impl GuestEvent {
    /// The event's `origin_server_ts`, which must be present.
    pub fn origin_server_ts(&self) -> (ts: u64)
        requires
            self.origin_ts is Some,
        ensures
            ts == self.origin_ts->0,
    {
        match self.origin_ts {
            Some(ts) => ts,
            None => 0,
        }
    }
}

/// The room version and the events keyed by event id, in increasing key
/// order with no key twice.
pub struct DAGMergeInput {
    pub room_version: String,
    pub event_map: Vec<(String, GuestEvent)>,
}

/// The fingerprint of the resolved state and the number of events.
pub struct DAGMergeOutput {
    pub resolved_state_hash: [u8; 32],
    pub event_count: u32,
}

/// The event stored under key `id` (the first entry with that key).
pub open spec fn entry_for(map: Seq<(String, GuestEvent)>, id: Seq<char>) -> Option<GuestEvent>
    decreases map.len(),
{
    if map.len() == 0 {
        None
    } else if map[0].0@ == id {
        Some(map[0].1)
    } else {
        entry_for(map.drop_first(), id)
    }
}

/// The state key of an event, the empty string where it has none.
pub open spec fn state_key_or_empty(ev: GuestEvent) -> Seq<char> {
    match ev.state_key {
        Some(s) => s@,
        None => Seq::empty(),
    }
}

/// The state writes of the events named by `ids`, in that order; ids with no
/// event are skipped.
pub open spec fn full_writes(map: Seq<(String, GuestEvent)>, ids: Seq<Seq<char>>) -> Seq<((Seq<u8>, Seq<u8>), Seq<u8>)>
    decreases ids.len(),
{
    if ids.len() == 0 {
        Seq::empty()
    } else {
        full_writes(map, ids.drop_last()) + match entry_for(map, ids.last()) {
            Some(ev) => seq![
                (
                    (bytes_of(ev.event_type@), bytes_of(state_key_or_empty(ev))),
                    bytes_of(ev.event_id@),
                ),
            ],
            None => Seq::empty(),
        }
    }
}

/// `entry_for` picks the first entry with the key: it is `None` exactly
/// when no entry has the key, and otherwise the event of an entry with the
/// key before which no entry has it.
pub proof fn lemma_entry_for(map: Seq<(String, GuestEvent)>, id: Seq<char>)
    ensures
        match entry_for(map, id) {
            Some(ev) => exists|k: int|
                0 <= k < map.len() && map[k].1 == ev && map[k].0@ == id && forall|j: int|
                    0 <= j < k ==> (#[trigger] map[j]).0@ != id,
            None => forall|k: int| 0 <= k < map.len() ==> (#[trigger] map[k]).0@ != id,
        },
    decreases map.len(),
{
    if map.len() > 0 {
        let rest = map.drop_first();
        lemma_entry_for(rest, id);
        if map[0].0@ != id {
            match entry_for(rest, id) {
                Some(ev) => {
                    let k = choose|k: int|
                        0 <= k < rest.len() && rest[k].1 == ev && rest[k].0@ == id && forall|j: int|
                            0 <= j < k ==> (#[trigger] rest[j]).0@ != id;
                    assert(map[k + 1] == rest[k]);
                    assert forall|j: int| 0 <= j < k + 1 implies (#[trigger] map[j]).0@ != id by {
                        if j > 0 {
                            assert(map[j] == rest[j - 1]);
                        }
                    }
                },
                None => {
                    assert forall|k: int| 0 <= k < map.len() implies (#[trigger] map[k]).0@ != id by {
                        if k > 0 {
                            assert(map[k] == rest[k - 1]);
                        }
                    }
                },
            }
        }
    }
}

/// The writes of a list of ids are those of each id in turn: for two lists
/// joined, the writes of the first followed by those of the second.
pub proof fn lemma_full_writes_concat(map: Seq<(String, GuestEvent)>, a: Seq<Seq<char>>, b: Seq<Seq<char>>)
    ensures
        full_writes(map, a + b) == full_writes(map, a) + full_writes(map, b),
    decreases b.len(),
{
    if b.len() == 0 {
        assert(a + b =~= a);
        assert(full_writes(map, a) + Seq::<((Seq<u8>, Seq<u8>), Seq<u8>)>::empty() =~= full_writes(map, a));
    } else {
        lemma_full_writes_concat(map, a, b.drop_last());
        assert((a + b).drop_last() =~= a + b.drop_last());
        assert((a + b).last() == b.last());
        assert(full_writes(map, a + b) =~= full_writes(map, a) + full_writes(map, b));
    }
}

/// The position of the first entry with key `id`.
fn find_entry(map: &Vec<(String, GuestEvent)>, id: &String) -> (r: Option<usize>)
    ensures
        match r {
            Some(k) => k < map@.len() && entry_for(map@, id@) == Some(map@[k as int].1),
            None => entry_for(map@, id@) is None,
        },
{
    let mut k: usize = 0;
    assert(map@.skip(0) =~= map@);
    while k < map.len()
        invariant
            k <= map@.len(),
            entry_for(map@, id@) == entry_for(map@.skip(k as int), id@),
        decreases map@.len() - k,
    {
        assert(map@.skip(k as int)[0] == map@[k as int]);
        if map[k].0 == *id {
            return Some(k);
        }
        assert(map@.skip(k as int).drop_first() =~= map@.skip(k + 1));
        k = k + 1;
    }
    assert(map@.skip(k as int) =~= Seq::<(String, GuestEvent)>::empty());
    None
}

/// Resolves the events named by `sorted_ids`, in that order: the state is
/// built from their `(event_type, state_key)` (an empty state key where the
/// event has none) with later events winning, and fingerprinted.
pub fn resolve_sorted_full_spec(input: &DAGMergeInput, sorted_ids: &Vec<String>) -> (out: DAGMergeOutput)
    ensures
        out.event_count == input.event_map@.len() as u32,
        out.resolved_state_hash@ == state_hash(
            to_map(full_writes(input.event_map@, strings_view(sorted_ids@))),
        ),
{
    let event_count = #[verifier::truncate] (input.event_map.len() as u32);
    let ghost ids = strings_view(sorted_ids@);
    let mut writes: Vec<StateWrite> = Vec::new();
    let mut i: usize = 0;
    assert(ids.take(0) =~= Seq::<Seq<char>>::empty());
    assert(writes_model(writes@) =~= full_writes(input.event_map@, ids.take(0)));
    while i < sorted_ids.len()
        invariant
            ids == strings_view(sorted_ids@),
            i <= sorted_ids@.len(),
            writes_model(writes@) == full_writes(input.event_map@, ids.take(i as int)),
        decreases sorted_ids@.len() - i,
    {
        let id = &sorted_ids[i];
        let ghost old_w = writes@;
        match find_entry(&input.event_map, id) {
            Some(k) => {
                let ev = &input.event_map[k].1;
                let state_key = match &ev.state_key {
                    Some(s) => s.clone(),
                    None => String::new(),
                };
                let w = StateWrite {
                    event_type: ev.event_type.clone(),
                    state_key,
                    event_id: ev.event_id.clone(),
                };
                writes.push(w);
                assert(writes_model(writes@) =~= writes_model(old_w).push(w.model()));
            },
            None => {},
        }
        proof {
            assert(ids.take(i + 1).drop_last() =~= ids.take(i as int));
            assert(ids.take(i + 1).last() == id@);
            assert(writes_model(writes@) =~= full_writes(input.event_map@, ids.take(i + 1)));
        }
        i = i + 1;
    }
    assert(ids.take(i as int) =~= ids);
    DAGMergeOutput { resolved_state_hash: state_fingerprint(&writes), event_count }
}

/// The events handed to the topological sort: for each entry, its key as
/// event id, power level zero, the event's timestamp and previous events,
/// depth zero, and empty type, state key, sender and auth events.
pub open spec fn full_spec_sort_input(map: Seq<(String, GuestEvent)>, s: Seq<SortEvent>) -> bool {
    &&& s.len() == map.len()
    &&& forall|i: int| #![trigger s[i]] 0 <= i < s.len() ==> {
        &&& s[i].event_id@ == map[i].0@
        &&& s[i].power_level == 0
        &&& map[i].1.origin_ts == Some(s[i].origin_server_ts)
        &&& strings_view(s[i].prev_events@) == strings_view(map[i].1.prev_events@)
        &&& s[i].depth == 0
        &&& s[i].event_type@ == Seq::<char>::empty()
        &&& s[i].state_key@ == Seq::<char>::empty()
        &&& s[i].sender@ == Seq::<char>::empty()
        &&& s[i].auth_events@.len() == 0
    }
}

/// Resolves the full room state: orders the events with `ruma_lean`'s Kahn
/// sort under state resolution v2 and resolves them as
/// `resolve_sorted_full_spec` does. Every event must carry an
/// `origin_server_ts`.
pub fn resolve_full_spec(input: &DAGMergeInput) -> (out: DAGMergeOutput)
    requires
        forall|i: int| 0 <= i < input.event_map@.len() ==> (#[trigger] input.event_map@[i]).1.origin_ts is Some,
    ensures
        out.event_count == input.event_map@.len() as u32,
        exists|s: Seq<SortEvent>| full_spec_sort_input(input.event_map@, s) && out.resolved_state_hash@
            == state_hash(
            to_map(full_writes(input.event_map@, kahn_order(sort_models(s), SortVersion::V2))),
        ),
{
    let mut sort_events: Vec<SortEvent> = Vec::new();
    let mut i: usize = 0;
    while i < input.event_map.len()
        invariant
            i <= input.event_map@.len(),
            forall|q: int| 0 <= q < input.event_map@.len() ==> (#[trigger] input.event_map@[q]).1.origin_ts is Some,
            full_spec_sort_input(input.event_map@.take(i as int), sort_events@),
        decreases input.event_map@.len() - i,
    {
        let (id, ev) = (&input.event_map[i].0, &input.event_map[i].1);
        let se = SortEvent {
            event_id: id.clone(),
            event_type: String::new(),
            state_key: String::new(),
            power_level: 0,
            origin_server_ts: ev.origin_server_ts(),
            sender: String::new(),
            prev_events: clone_strings(&ev.prev_events),
            auth_events: Vec::new(),
            depth: 0,
        };
        assert(strings_view(se.prev_events@) =~= strings_view(ev.prev_events@));
        sort_events.push(se);
        i = i + 1;
        assert(full_spec_sort_input(input.event_map@.take(i as int), sort_events@)) by {
            assert forall|q: int| 0 <= q < sort_events@.len() implies #[trigger] input.event_map@.take(i as int)[q] == input.event_map@[q] by {}
        }
    }
    assert(input.event_map@.take(i as int) =~= input.event_map@);
    let sorted_ids = lean_kahn_sort(sort_events, SortVersion::V2);
    resolve_sorted_full_spec(input, &sorted_ids)
}

} // verus!

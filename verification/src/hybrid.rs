//! Hybrid resolution: the host sorts the events and places each on a
//! hypercube coordinate; the resolution checks that consecutive coordinates
//! differ in exactly one bit and fingerprints the resolved state.
use vstd::prelude::*;
use vstd::arithmetic::power2::{pow2, lemma_pow2_pos, lemma_pow2_unfold};
use crate::state::{StateWrite, state_fingerprint, state_hash, to_map, writes_model, bytes_of};

verus! {

/// An event placed by the host: its id, type, state key and coordinate.
pub struct HybridEventHint {
    pub event_id: String,
    pub event_type: String,
    pub state_key: String,
    pub coordinate: u32,
}

/// The events in the order the host sorted them.
pub struct DAGMergeInput {
    pub sorted_events: Vec<HybridEventHint>,
}

/// The fingerprint of the resolved state and the number of events.
pub struct DAGMergeOutput {
    pub resolved_state_hash: [u8; 32],
    pub event_count: u32,
}

/// The number of one bits of `x`.
pub open spec fn popcount(x: u32) -> nat
    decreases x,
{
    if x == 0 {
        0
    } else {
        (x % 2) as nat + popcount(x / 2)
    }
}

/// A value has no more one bits than its magnitude.
pub proof fn lemma_popcount_bound(x: u32)
    ensures
        popcount(x) <= x,
    decreases x,
{
    if x > 0 {
        lemma_popcount_bound(x / 2);
    }
}

/// Only zero has no one bits.
pub proof fn lemma_popcount_zero(x: u32)
    ensures
        (popcount(x) == 0) <==> (x == 0),
    decreases x,
{
    if x > 0 {
        lemma_popcount_zero(x / 2);
    }
}

/// A value has exactly one bit set exactly when it is a power of two.
pub proof fn lemma_popcount_one(x: u32)
    ensures
        (popcount(x) == 1) <==> single_bit(x),
    decreases x,
{
    if x == 0 {
        assert forall|e: nat| x != #[trigger] pow2(e) by {
            lemma_pow2_pos(e);
        }
    } else if x % 2 == 1 {
        lemma_popcount_zero(x / 2);
        if x == 1 {
            assert(pow2(0) == 1) by {
                vstd::arithmetic::power2::lemma2_to64();
            }
        } else {
            assert forall|e: nat| x != #[trigger] pow2(e) by {
                if e == 0 {
                    vstd::arithmetic::power2::lemma2_to64();
                } else {
                    lemma_pow2_unfold(e);
                }
            }
        }
    } else {
        lemma_popcount_one(x / 2);
        if popcount(x / 2) == 1 {
            let e = choose|e: nat| (x / 2) as u32 == #[trigger] pow2(e);
            lemma_pow2_unfold(e + 1);
            assert(x == pow2(e + 1));
        }
        if exists|e: nat| x == #[trigger] pow2(e) {
            let e = choose|e: nat| x == #[trigger] pow2(e);
            if e == 0 {
                vstd::arithmetic::power2::lemma2_to64();
            } else {
                lemma_pow2_unfold(e);
                assert((x / 2) as u32 == pow2((e - 1) as nat));
            }
        }
    }
}

/// The number of one bits among the lowest `k` bit positions of `x`: bit
/// `b` is `(x / 2^b) % 2`.
pub open spec fn bits_below(x: u32, k: nat) -> nat
    decreases k,
{
    if k == 0 {
        0
    } else {
        bits_below(x, (k - 1) as nat) + ((x as nat / pow2((k - 1) as nat)) % 2) as nat
    }
}

proof fn lemma_bits_below_halve(x: u32, k: nat)
    ensures
        bits_below(x, k + 1) == x % 2 + bits_below((x / 2) as u32, k),
    decreases k,
{
    vstd::arithmetic::power2::lemma2_to64();
    if k == 0 {
        assert(bits_below(x, 0) == 0);
        assert(bits_below((x / 2) as u32, 0) == 0);
        assert(x as nat / pow2(0) == x);
        assert(bits_below(x, 1) == bits_below(x, 0) + ((x as nat / pow2(0)) % 2) as nat);
    } else {
        lemma_bits_below_halve(x, (k - 1) as nat);
        lemma_pow2_pos((k - 1) as nat);
        lemma_pow2_unfold(k);
        vstd::arithmetic::div_mod::lemma_div_denominator(x as int, 2, pow2((k - 1) as nat) as int);
        assert(((x / 2) as u32) as nat / pow2((k - 1) as nat) == x as nat / pow2(k));
        assert(bits_below(x, k + 1) == bits_below(x, k) + ((x as nat / pow2(k)) % 2) as nat);
        assert(bits_below((x / 2) as u32, k) == bits_below((x / 2) as u32, (k - 1) as nat) + ((((x
            / 2) as u32) as nat / pow2((k - 1) as nat)) % 2) as nat);
    }
}

proof fn lemma_popcount_bits_below(x: u32, k: nat)
    requires
        x < pow2(k),
    ensures
        popcount(x) == bits_below(x, k),
    decreases k,
{
    vstd::arithmetic::power2::lemma2_to64();
    if k == 0 {
        assert(x == 0);
        assert(bits_below(x, 0) == 0);
    } else {
        lemma_pow2_unfold(k);
        lemma_popcount_bits_below((x / 2) as u32, (k - 1) as nat);
        lemma_bits_below_halve(x, (k - 1) as nat);
        if x == 0 {
            assert(popcount(x) == 0);
        }
    }
}

/// `popcount` counts the one bits of the 32-bit binary representation: it
/// is the number of positions `b < 32` with `(x / 2^b) % 2 == 1`.
pub proof fn lemma_popcount_counts_bits(x: u32)
    ensures
        popcount(x) == bits_below(x, 32),
        popcount(x) <= 32,
{
    vstd::arithmetic::power2::lemma2_to64();
    vstd::arithmetic::power2::lemma2_to64_rest();
    lemma_popcount_bits_below(x, 32);
    lemma_bits_below_bound(x, 32);
}

proof fn lemma_bits_below_bound(x: u32, k: nat)
    ensures
        bits_below(x, k) <= k,
    decreases k,
{
    if k > 0 {
        lemma_bits_below_bound(x, (k - 1) as nat);
    }
}

/// `x` is a power of two: exactly one bit is set.
pub open spec fn single_bit(x: u32) -> bool {
    exists|e: nat| x == #[trigger] pow2(e)
}

/// A route is valid exactly when every hop changes a single bit: each
/// coordinate differs from the one before it by a power of two.
pub proof fn lemma_route_valid_single_bit(coords: Seq<u32>)
    ensures
        route_valid(coords) <==> forall|i: int|
            1 <= i < coords.len() ==> single_bit(#[trigger] (coords[i] ^ coords[i - 1])),
{
    assert forall|i: int| 1 <= i < coords.len() implies (popcount(#[trigger] (coords[i] ^ coords[i - 1]))
        == 1) == single_bit(coords[i] ^ coords[i - 1]) by {
        lemma_popcount_one(coords[i] ^ coords[i - 1]);
    }
}

/// The number of one bits of `x`.
pub fn count_ones(x: u32) -> (r: u32)
    ensures
        r == popcount(x),
{
    let mut y = x;
    let mut c: u32 = 0;
    proof {
        lemma_popcount_bound(x);
    }
    while y > 0
        invariant
            c + popcount(y) == popcount(x),
            popcount(x) <= x,
        decreases y,
    {
        c = c + y % 2;
        y = y / 2;
    }
    c
}

/// The coordinates of the hints.
pub open spec fn coordinates(events: Seq<HybridEventHint>) -> Seq<u32> {
    Seq::new(events.len(), |i: int| events[i].coordinate)
}

/// Every coordinate differs from the one before it in exactly one bit.
pub open spec fn route_valid(coords: Seq<u32>) -> bool {
    forall|i: int| 1 <= i < coords.len() ==> popcount(#[trigger] coords[i] ^ coords[i - 1]) == 1
}

/// Checks that the hints form a route on the hypercube: each coordinate
/// differs from the one before it in exactly one bit.
pub fn is_valid_route(events: &Vec<HybridEventHint>) -> (r: bool)
    ensures
        r == route_valid(coordinates(events@)),
        r <==> forall|i: int|
            1 <= i < coordinates(events@).len() ==> single_bit(
                #[trigger] (coordinates(events@)[i] ^ coordinates(events@)[i - 1]),
            ),
{
    proof {
        lemma_route_valid_single_bit(coordinates(events@));
    }
    let mut i: usize = 1;
    while i < events.len()
        invariant
            1 <= i,
            events@.len() >= 1 ==> i <= events@.len(),
            forall|k: int| 1 <= k < i && k < events@.len() ==> popcount(#[trigger] coordinates(events@)[k] ^ coordinates(events@)[k - 1]) == 1,
        decreases events@.len() - i,
    {
        let prev_coord = events[i - 1].coordinate;
        let current_coord = events[i].coordinate;
        let diff = prev_coord ^ current_coord;
        assert(diff == current_coord ^ prev_coord) by (bit_vector)
            requires
                diff == prev_coord ^ current_coord,
        ;
        if count_ones(diff) != 1 {
            assert(popcount(coordinates(events@)[i as int] ^ coordinates(events@)[i - 1]) != 1);
            proof {
                lemma_route_valid_single_bit(coordinates(events@));
            }
            return false;
        }
        i = i + 1;
    }
    true
}

/// The state writes of the hints, in order.
pub open spec fn hint_writes(events: Seq<HybridEventHint>) -> Seq<((Seq<u8>, Seq<u8>), Seq<u8>)> {
    Seq::new(
        events.len(),
        |i: int|
            (
                (bytes_of(events[i].event_type@), bytes_of(events[i].state_key@)),
                bytes_of(events[i].event_id@),
            ),
    )
}

/// Resolves the host's sorted events: the state is built from the events
/// in order, a later event replacing an earlier one at the same
/// `(event_type, state_key)`, and fingerprinted. The route of coordinates
/// must be valid (see `is_valid_route`).
pub fn prove_hybrid_resolution(input: DAGMergeInput) -> (out: DAGMergeOutput)
    requires
        route_valid(coordinates(input.sorted_events@)),
    ensures
        out.event_count == input.sorted_events@.len() as u32,
        out.resolved_state_hash@ == state_hash(to_map(hint_writes(input.sorted_events@))),
{
    let event_count = #[verifier::truncate] (input.sorted_events.len() as u32);
    let mut writes: Vec<StateWrite> = Vec::new();
    let mut i: usize = 0;
    while i < input.sorted_events.len()
        invariant
            i <= input.sorted_events@.len(),
            writes@.len() == i,
            writes_model(writes@) =~= hint_writes(input.sorted_events@).take(i as int),
        decreases input.sorted_events@.len() - i,
    {
        let ev = &input.sorted_events[i];
        let w = StateWrite {
            event_type: ev.event_type.clone(),
            state_key: ev.state_key.clone(),
            event_id: ev.event_id.clone(),
        };
        let ghost old_w = writes@;
        writes.push(w);
        proof {
            let hw = hint_writes(input.sorted_events@);
            assert(w.model() == hw[i as int]);
            assert forall|q: int| 0 <= q < i + 1 implies writes_model(writes@)[q] == hw.take(i + 1)[q] by {
                if q < i {
                    assert(writes@[q] == old_w[q]);
                    assert(writes_model(old_w)[q] == old_w[q].model());
                }
            }
        }
        i = i + 1;
        assert(writes_model(writes@) =~= hint_writes(input.sorted_events@).take(i as int));
    }
    assert(hint_writes(input.sorted_events@).take(i as int) =~= hint_writes(input.sorted_events@));
    DAGMergeOutput { resolved_state_hash: state_fingerprint(&writes), event_count }
}

} // verus!

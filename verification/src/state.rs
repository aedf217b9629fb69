//! The resolved room state and its SHA-256 fingerprint.
//!
//! State writes `(event_type, state_key) -> event_id` are applied in order, a
//! later write replacing an earlier one with the same key. The resulting
//! state is listed in increasing key order (byte-wise lexicographic on the
//! event type, then on the state key, as strings compare), and the
//! fingerprint is the SHA-256 digest of the concatenation, entry by entry, of
//! the event type, the state key and the event id.
use vstd::prelude::*;
use vstd::utf8::encode_utf8;
use sha2::{Digest, Sha256};

verus! {

/// The SHA-256 digest of `data`.
pub uninterp spec fn sha256(data: Seq<u8>) -> Seq<u8>;

/// Computes the SHA-256 digest of `data` with `sha2::Sha256::digest`. The
/// contract names the digest `sha256(data)`; nothing else about it is
/// claimed.
#[verifier::external_body]
pub(crate) fn sha256_digest(data: &[u8]) -> (h: [u8; 32])
    ensures
        h@ == sha256(data@),
{
    Sha256::digest(data).into()
}

/// The UTF-8 bytes of a string.
pub open spec fn bytes_of(s: Seq<char>) -> Seq<u8> {
    encode_utf8(s)
}

/// The UTF-8 bytes of `s`.
pub fn string_bytes(s: &String) -> (b: Vec<u8>)
    ensures
        b@ == bytes_of(s@),
{
    s.as_str().as_bytes_vec()
}

/// Byte-wise lexicographic order, the order of `str`.
pub open spec fn bytes_lt(a: Seq<u8>, b: Seq<u8>) -> bool
    decreases a.len(),
{
    if a.len() == 0 {
        b.len() > 0
    } else if b.len() == 0 {
        false
    } else if a[0] != b[0] {
        a[0] < b[0]
    } else {
        bytes_lt(a.drop_first(), b.drop_first())
    }
}

/// The order of state keys: by event type, then by state key.
pub open spec fn key_lt(a: (Seq<u8>, Seq<u8>), b: (Seq<u8>, Seq<u8>)) -> bool {
    bytes_lt(a.0, b.0) || (a.0 == b.0 && bytes_lt(a.1, b.1))
}

/// The state map after applying `writes` in order, later writes winning.
pub open spec fn to_map(writes: Seq<((Seq<u8>, Seq<u8>), Seq<u8>)>) -> Map<(Seq<u8>, Seq<u8>), Seq<u8>>
    decreases writes.len(),
{
    if writes.len() == 0 {
        Map::empty()
    } else {
        to_map(writes.drop_last()).insert(writes.last().0, writes.last().1)
    }
}

/// Entries listed in strictly increasing key order.
pub open spec fn strictly_sorted(es: Seq<((Seq<u8>, Seq<u8>), Seq<u8>)>) -> bool {
    forall|i: int, j: int| 0 <= i < j < es.len() ==> key_lt(#[trigger] es[i].0, #[trigger] es[j].0)
}

/// The entries of a state map in increasing key order.
pub open spec fn sorted_entries(m: Map<(Seq<u8>, Seq<u8>), Seq<u8>>) -> Seq<((Seq<u8>, Seq<u8>), Seq<u8>)> {
    choose|es: Seq<((Seq<u8>, Seq<u8>), Seq<u8>)>| strictly_sorted(es) && to_map(es) == m
}

/// The bytes that are hashed for a list of entries.
pub open spec fn flatten(es: Seq<((Seq<u8>, Seq<u8>), Seq<u8>)>) -> Seq<u8>
    decreases es.len(),
{
    if es.len() == 0 {
        Seq::empty()
    } else {
        flatten(es.drop_last()) + es.last().0.0 + es.last().0.1 + es.last().1
    }
}

/// The fingerprint of a state map.
pub open spec fn state_hash(m: Map<(Seq<u8>, Seq<u8>), Seq<u8>>) -> Seq<u8> {
    sha256(flatten(sorted_entries(m)))
}

/// One write to the room state: the event `event_id` sets the state at
/// `(event_type, state_key)`.
pub struct StateWrite {
    pub event_type: String,
    pub state_key: String,
    pub event_id: String,
}

impl StateWrite {
    /// The write as bytes: key, then value.
    pub open spec fn model(&self) -> ((Seq<u8>, Seq<u8>), Seq<u8>) {
        ((bytes_of(self.event_type@), bytes_of(self.state_key@)), bytes_of(self.event_id@))
    }
}

/// The writes of a list, as bytes.
pub open spec fn writes_model(ws: Seq<StateWrite>) -> Seq<((Seq<u8>, Seq<u8>), Seq<u8>)> {
    Seq::new(ws.len(), |i: int| ws[i].model())
}

// ---------------------------------------------------------------------------
// The order
// ---------------------------------------------------------------------------

/// No byte string is below itself.
pub proof fn lemma_bytes_lt_irreflexive(a: Seq<u8>)
    ensures
        !bytes_lt(a, a),
    decreases a.len(),
{
    if a.len() > 0 {
        lemma_bytes_lt_irreflexive(a.drop_first());
    }
}

/// The byte order is asymmetric.
pub proof fn lemma_bytes_lt_asymmetric(a: Seq<u8>, b: Seq<u8>)
    ensures
        !(bytes_lt(a, b) && bytes_lt(b, a)),
    decreases a.len(),
{
    if a.len() > 0 && b.len() > 0 && a[0] == b[0] {
        lemma_bytes_lt_asymmetric(a.drop_first(), b.drop_first());
    }
}

/// The byte order is transitive.
pub proof fn lemma_bytes_lt_transitive(a: Seq<u8>, b: Seq<u8>, c: Seq<u8>)
    requires
        bytes_lt(a, b),
        bytes_lt(b, c),
    ensures
        bytes_lt(a, c),
    decreases a.len(),
{
    if a.len() > 0 && b.len() > 0 && c.len() > 0 && a[0] == b[0] && b[0] == c[0] {
        lemma_bytes_lt_transitive(a.drop_first(), b.drop_first(), c.drop_first());
    }
}

/// Any two distinct byte strings are ordered one way or the other.
pub proof fn lemma_bytes_lt_total(a: Seq<u8>, b: Seq<u8>)
    requires
        a != b,
    ensures
        bytes_lt(a, b) || bytes_lt(b, a),
    decreases a.len(),
{
    if a.len() > 0 && b.len() > 0 && a[0] == b[0] {
        if a.drop_first() == b.drop_first() {
            assert(a =~= seq![a[0]] + a.drop_first());
            assert(b =~= seq![b[0]] + b.drop_first());
        }
        lemma_bytes_lt_total(a.drop_first(), b.drop_first());
    } else if a.len() == 0 && b.len() == 0 {
        assert(a =~= b);
    }
}

/// The order on state keys is irreflexive, asymmetric and transitive.
pub proof fn lemma_key_lt_order(a: (Seq<u8>, Seq<u8>), b: (Seq<u8>, Seq<u8>), c: (Seq<u8>, Seq<u8>))
    ensures
        !key_lt(a, a),
        !(key_lt(a, b) && key_lt(b, a)),
        key_lt(a, b) && key_lt(b, c) ==> key_lt(a, c),
        a != b ==> key_lt(a, b) || key_lt(b, a),
{
    lemma_bytes_lt_irreflexive(a.0);
    lemma_bytes_lt_irreflexive(a.1);
    lemma_bytes_lt_asymmetric(a.0, b.0);
    lemma_bytes_lt_asymmetric(a.1, b.1);
    if bytes_lt(a.0, b.0) && bytes_lt(b.0, c.0) {
        lemma_bytes_lt_transitive(a.0, b.0, c.0);
    }
    if bytes_lt(a.1, b.1) && bytes_lt(b.1, c.1) {
        lemma_bytes_lt_transitive(a.1, b.1, c.1);
    }
    if a.0 != b.0 {
        lemma_bytes_lt_total(a.0, b.0);
    }
    if a.1 != b.1 {
        lemma_bytes_lt_total(a.1, b.1);
    }
}

/// At the first position where two byte strings differ, the smaller byte
/// decides: byte strings compare as their bytes do.
pub proof fn lemma_bytes_lt_first_difference(a: Seq<u8>, b: Seq<u8>)
    requires
        a.len() > 0,
        b.len() > 0,
        a[0] != b[0],
    ensures
        bytes_lt(a, b) == (a[0] < b[0]),
        bytes_lt(seq![a[0]], seq![b[0]]) == (a[0] < b[0]),
{
}

/// A common prefix does not change the order.
pub proof fn lemma_bytes_lt_common_prefix(p: Seq<u8>, a: Seq<u8>, b: Seq<u8>)
    ensures
        bytes_lt(p + a, p + b) == bytes_lt(a, b),
    decreases p.len(),
{
    if p.len() > 0 {
        lemma_bytes_lt_common_prefix(p.drop_first(), a, b);
        assert((p + a).drop_first() =~= p.drop_first() + a);
        assert((p + b).drop_first() =~= p.drop_first() + b);
    } else {
        assert(p + a =~= a);
        assert(p + b =~= b);
    }
}

/// A proper prefix comes first.
pub proof fn lemma_bytes_lt_proper_prefix(a: Seq<u8>, c: Seq<u8>)
    requires
        c.len() > 0,
    ensures
        bytes_lt(a, a + c),
        !bytes_lt(a + c, a),
{
    lemma_bytes_lt_common_prefix(a, Seq::empty(), c);
    lemma_bytes_lt_common_prefix(a, c, Seq::empty());
    assert(a + Seq::<u8>::empty() =~= a);
}

/// The byte order is the lexicographic order of `str`: `a` comes before `b`
/// exactly when, after their longest common prefix, either `a` has ended
/// and `b` has not, or the next byte of `a` is smaller than that of `b`.
pub proof fn lemma_bytes_lt_lexicographic(a: Seq<u8>, b: Seq<u8>, i: int)
    requires
        0 <= i <= a.len(),
        i <= b.len(),
        a.take(i) == b.take(i),
        i == a.len() || i == b.len() || a[i] != b[i],
    ensures
        bytes_lt(a, b) == (if i == a.len() { i < b.len() } else if i == b.len() { false } else {
            a[i] < b[i]
        }),
{
    let p = a.take(i);
    assert(a =~= p + a.skip(i));
    assert(b =~= p + b.skip(i));
    lemma_bytes_lt_common_prefix(p, a.skip(i), b.skip(i));
}

/// State keys compare by event type first, and by state key only between
/// equal event types.
pub proof fn lemma_key_lt_by_type_then_key(t1: Seq<u8>, k1: Seq<u8>, t2: Seq<u8>, k2: Seq<u8>)
    ensures
        t1 != t2 ==> key_lt((t1, k1), (t2, k2)) == bytes_lt(t1, t2),
        t1 == t2 ==> key_lt((t1, k1), (t2, k2)) == bytes_lt(k1, k2),
{
    if t1 == t2 {
        lemma_bytes_lt_irreflexive(t1);
    }
}

// ---------------------------------------------------------------------------
// State maps
// ---------------------------------------------------------------------------

/// A list with distinct keys maps each of its keys to the value listed with
/// it, and nothing else.
pub proof fn lemma_to_map_distinct(es: Seq<((Seq<u8>, Seq<u8>), Seq<u8>)>)
    requires
        forall|i: int, j: int| 0 <= i < es.len() && 0 <= j < es.len() && i != j ==> #[trigger] es[i].0 != #[trigger] es[j].0,
    ensures
        forall|i: int| 0 <= i < es.len() ==> #[trigger] to_map(es).contains_key(es[i].0) && to_map(es)[es[i].0] == es[i].1,
        forall|k: (Seq<u8>, Seq<u8>)| #[trigger] to_map(es).contains_key(k) ==> exists|i: int| 0 <= i < es.len() && es[i].0 == k,
    decreases es.len(),
{
    if es.len() > 0 {
        let init = es.drop_last();
        assert forall|i: int, j: int| 0 <= i < init.len() && 0 <= j < init.len() && i != j implies #[trigger] init[i].0 != #[trigger] init[j].0 by {
            assert(init[i] == es[i]);
            assert(init[j] == es[j]);
        }
        lemma_to_map_distinct(init);
        assert(to_map(es) == to_map(init).insert(es.last().0, es.last().1));
        assert forall|i: int| 0 <= i < es.len() implies #[trigger] to_map(es).contains_key(es[i].0) && to_map(es)[es[i].0] == es[i].1 by {
            if i < es.len() - 1 {
                assert(init[i] == es[i]);
                assert(es[i].0 != es[es.len() - 1].0);
                assert(to_map(init).contains_key(init[i].0));
            } else {
                assert(es[i] == es.last());
            }
        }
        assert forall|k: (Seq<u8>, Seq<u8>)| #[trigger] to_map(es).contains_key(k) implies exists|i: int| 0 <= i < es.len() && es[i].0 == k by {
            if k != es.last().0 {
                assert(to_map(init).contains_key(k));
                let i = choose|i: int| 0 <= i < init.len() && init[i].0 == k;
                assert(es[i] == init[i]);
            } else {
                assert(es[es.len() - 1].0 == k);
            }
        }
    }
}

/// Sorted entries have distinct keys.
pub proof fn lemma_sorted_distinct(es: Seq<((Seq<u8>, Seq<u8>), Seq<u8>)>)
    requires
        strictly_sorted(es),
    ensures
        forall|i: int, j: int| 0 <= i < es.len() && 0 <= j < es.len() && i != j ==> #[trigger] es[i].0 != #[trigger] es[j].0,
{
    assert forall|i: int, j: int| 0 <= i < es.len() && 0 <= j < es.len() && i != j implies #[trigger] es[i].0 != #[trigger] es[j].0 by {
        lemma_key_lt_order(es[i].0, es[j].0, es[j].0);
    }
}

/// Sorted entries are determined by the state map they list.
pub proof fn lemma_sorted_unique(a: Seq<((Seq<u8>, Seq<u8>), Seq<u8>)>, b: Seq<((Seq<u8>, Seq<u8>), Seq<u8>)>)
    requires
        strictly_sorted(a),
        strictly_sorted(b),
        to_map(a) == to_map(b),
    ensures
        a == b,
    decreases a.len() + b.len(),
{
    lemma_sorted_distinct(a);
    lemma_sorted_distinct(b);
    lemma_to_map_distinct(a);
    lemma_to_map_distinct(b);
    if a.len() == 0 || b.len() == 0 {
        if a.len() > 0 {
            assert(to_map(a).contains_key(a[0].0));
        }
        if b.len() > 0 {
            assert(to_map(b).contains_key(b[0].0));
        }
        assert(a =~= b);
    } else {
        // The first keys are both the least key of the map.
        let ka = a[0].0;
        let kb = b[0].0;
        assert(to_map(b).contains_key(ka));
        let ib = choose|i: int| 0 <= i < b.len() && b[i].0 == ka;
        assert(to_map(a).contains_key(kb));
        let ia = choose|i: int| 0 <= i < a.len() && a[i].0 == kb;
        if ka != kb {
            assert(ib > 0 && ia > 0);
            assert(key_lt(b[0].0, b[ib].0));
            assert(key_lt(a[0].0, a[ia].0));
            lemma_key_lt_order(ka, kb, ka);
        }
        assert(a[0].1 == to_map(a)[ka]);
        assert(b[0].1 == to_map(b)[kb]);
        let a2 = a.drop_first();
        let b2 = b.drop_first();
        assert(strictly_sorted(a2)) by {
            assert forall|i: int, j: int| 0 <= i < j < a2.len() implies key_lt(#[trigger] a2[i].0, #[trigger] a2[j].0) by {
                assert(a2[i] == a[i + 1]);
                assert(a2[j] == a[j + 1]);
            }
        }
        assert(strictly_sorted(b2)) by {
            assert forall|i: int, j: int| 0 <= i < j < b2.len() implies key_lt(#[trigger] b2[i].0, #[trigger] b2[j].0) by {
                assert(b2[i] == b[i + 1]);
                assert(b2[j] == b[j + 1]);
            }
        }
        lemma_sorted_distinct(a2);
        lemma_sorted_distinct(b2);
        lemma_to_map_distinct(a2);
        lemma_to_map_distinct(b2);
        assert(to_map(a2) =~= to_map(a).remove(ka)) by {
            assert forall|k: (Seq<u8>, Seq<u8>)| #[trigger] to_map(a2).contains_key(k) implies to_map(a).remove(ka).contains_key(k) && to_map(a2)[k] == to_map(a).remove(ka)[k] by {
                let i = choose|i: int| 0 <= i < a2.len() && a2[i].0 == k;
                assert(a2[i] == a[i + 1]);
                assert(to_map(a2).contains_key(a2[i].0));
                assert(to_map(a).contains_key(a[i + 1].0));
                assert(a[i + 1].0 != a[0].0);
            }
            assert forall|k: (Seq<u8>, Seq<u8>)| #[trigger] to_map(a).remove(ka).contains_key(k) implies to_map(a2).contains_key(k) by {
                let i = choose|i: int| 0 <= i < a.len() && a[i].0 == k;
                assert(i != 0);
                assert(a2[i - 1] == a[i]);
            }
        }
        assert(to_map(b2) =~= to_map(b).remove(kb)) by {
            assert forall|k: (Seq<u8>, Seq<u8>)| #[trigger] to_map(b2).contains_key(k) implies to_map(b).remove(kb).contains_key(k) && to_map(b2)[k] == to_map(b).remove(kb)[k] by {
                let i = choose|i: int| 0 <= i < b2.len() && b2[i].0 == k;
                assert(b2[i] == b[i + 1]);
                assert(to_map(b2).contains_key(b2[i].0));
                assert(to_map(b).contains_key(b[i + 1].0));
                assert(b[i + 1].0 != b[0].0);
            }
            assert forall|k: (Seq<u8>, Seq<u8>)| #[trigger] to_map(b).remove(kb).contains_key(k) implies to_map(b2).contains_key(k) by {
                let i = choose|i: int| 0 <= i < b.len() && b[i].0 == k;
                assert(i != 0);
                assert(b2[i - 1] == b[i]);
            }
        }
        lemma_sorted_unique(a2, b2);
        assert(a =~= seq![a[0]] + a2);
        assert(b =~= seq![b[0]] + b2);
    }
}

/// The sorted entries of the map of a sorted list are that list.
pub proof fn lemma_sorted_entries_of(es: Seq<((Seq<u8>, Seq<u8>), Seq<u8>)>)
    requires
        strictly_sorted(es),
    ensures
        sorted_entries(to_map(es)) == es,
{
    let m = to_map(es);
    assert(strictly_sorted(es) && to_map(es) == m);
    let c = sorted_entries(m);
    lemma_sorted_unique(c, es);
}

/// The fingerprint depends only on the resolved state. Two write
/// sequences that leave the same state (later writes winning) have the same
/// fingerprint, whatever their order and their overwritten writes.
pub proof fn lemma_fingerprint_depends_only_on_state(
    w1: Seq<((Seq<u8>, Seq<u8>), Seq<u8>)>,
    w2: Seq<((Seq<u8>, Seq<u8>), Seq<u8>)>,
)
    requires
        to_map(w1) == to_map(w2),
    ensures
        state_hash(to_map(w1)) == state_hash(to_map(w2)),
{
}

/// The fingerprint of a state listed in increasing key order is the SHA-256
/// digest of its entries concatenated in that order, each as event type,
/// then state key, then event id.
pub proof fn lemma_state_hash_of_sorted(es: Seq<((Seq<u8>, Seq<u8>), Seq<u8>)>)
    requires
        strictly_sorted(es),
    ensures
        state_hash(to_map(es)) == sha256(flatten(es)),
        es.len() == 0 ==> flatten(es) == Seq::<u8>::empty(),
        forall|i: int| 0 <= i < es.len() ==> #[trigger] flatten(es.take(i + 1)) == flatten(es.take(i))
            + es[i].0.0 + es[i].0.1 + es[i].1,
{
    lemma_sorted_entries_of(es);
    assert forall|i: int| 0 <= i < es.len() implies #[trigger] flatten(es.take(i + 1)) == flatten(
        es.take(i),
    ) + es[i].0.0 + es[i].0.1 + es[i].1 by {
        assert(es.take(i + 1).drop_last() =~= es.take(i));
    }
}

/// The fingerprint of a state of two entries hashes the entry with the
/// smaller key first: the bytes are type, state key and event id of that
/// entry, then of the other.
pub proof fn lemma_state_hash_two_entries(
    k1: (Seq<u8>, Seq<u8>),
    v1: Seq<u8>,
    k2: (Seq<u8>, Seq<u8>),
    v2: Seq<u8>,
)
    requires
        key_lt(k1, k2),
    ensures
        state_hash(to_map(seq![(k2, v2), (k1, v1)])) == sha256(k1.0 + k1.1 + v1 + k2.0 + k2.1 + v2),
        state_hash(to_map(seq![(k1, v1), (k2, v2)])) == sha256(k1.0 + k1.1 + v1 + k2.0 + k2.1 + v2),
{
    lemma_key_lt_order(k1, k2, k1);
    let es = seq![(k1, v1), (k2, v2)];
    assert(strictly_sorted(es));
    lemma_sorted_entries_of(es);
    assert(to_map(seq![(k2, v2), (k1, v1)]) =~= to_map(es)) by {
        reveal_with_fuel(to_map, 3);
        assert(seq![(k2, v2), (k1, v1)].drop_last() =~= seq![(k2, v2)]);
        assert(es.drop_last() =~= seq![(k1, v1)]);
        assert(seq![(k2, v2)].drop_last() =~= Seq::<((Seq<u8>, Seq<u8>), Seq<u8>)>::empty());
        assert(seq![(k1, v1)].drop_last() =~= Seq::<((Seq<u8>, Seq<u8>), Seq<u8>)>::empty());
    }
    reveal_with_fuel(flatten, 3);
    assert(es.drop_last() =~= seq![(k1, v1)]);
    assert(seq![(k1, v1)].drop_last() =~= Seq::<((Seq<u8>, Seq<u8>), Seq<u8>)>::empty());
    assert(flatten(es) =~= k1.0 + k1.1 + v1 + k2.0 + k2.1 + v2);
}

/// A write changes the state at its own key only.
pub proof fn lemma_write_other_keys(
    w: Seq<((Seq<u8>, Seq<u8>), Seq<u8>)>,
    k: (Seq<u8>, Seq<u8>),
    v: Seq<u8>,
    other: (Seq<u8>, Seq<u8>),
)
    requires
        other != k,
    ensures
        to_map(w.push((k, v))).contains_key(other) == to_map(w).contains_key(other),
        to_map(w).contains_key(other) ==> to_map(w.push((k, v)))[other] == to_map(w)[other],
{
    assert(w.push((k, v)).drop_last() =~= w);
}

/// The state holds exactly the keys written, each with the value of its last
/// write.
pub proof fn lemma_to_map_last_write(w: Seq<((Seq<u8>, Seq<u8>), Seq<u8>)>, key: (Seq<u8>, Seq<u8>))
    ensures
        to_map(w).contains_key(key) <==> exists|i: int| 0 <= i < w.len() && (#[trigger] w[i]).0 == key,
        to_map(w).contains_key(key) ==> exists|i: int|
            0 <= i < w.len() && w[i].0 == key && to_map(w)[key] == w[i].1 && forall|j: int|
                i < j < w.len() ==> (#[trigger] w[j]).0 != key,
    decreases w.len(),
{
    if w.len() > 0 {
        let init = w.drop_last();
        lemma_to_map_last_write(init, key);
        if w.last().0 == key {
            assert(w[w.len() - 1] == w.last());
        } else {
            assert forall|i: int| 0 <= i < w.len() && (#[trigger] w[i]).0 == key implies exists|i2: int|
                0 <= i2 < init.len() && (#[trigger] init[i2]).0 == key by {
                assert(i < w.len() - 1);
                assert(init[i] == w[i]);
            }
            if to_map(w).contains_key(key) {
                let i = choose|i: int|
                    0 <= i < init.len() && init[i].0 == key && to_map(init)[key] == init[i].1 && forall|j: int|
                        i < j < init.len() ==> (#[trigger] init[j]).0 != key;
                assert(w[i] == init[i]);
                assert forall|j: int| i < j < w.len() implies (#[trigger] w[j]).0 != key by {
                    if j < w.len() - 1 {
                        assert(w[j] == init[j]);
                    }
                }
            }
            if exists|i2: int| 0 <= i2 < init.len() && (#[trigger] init[i2]).0 == key {
                let i2 = choose|i2: int| 0 <= i2 < init.len() && (#[trigger] init[i2]).0 == key;
                assert(w[i2] == init[i2]);
            }
        }
    }
}

/// A later write to the same key replaces the earlier one.
pub proof fn lemma_later_write_wins(
    w: Seq<((Seq<u8>, Seq<u8>), Seq<u8>)>,
    k: (Seq<u8>, Seq<u8>),
    v1: Seq<u8>,
    v2: Seq<u8>,
)
    ensures
        to_map(w.push((k, v1)).push((k, v2))) == to_map(w).insert(k, v2),
        to_map(w.push((k, v2))).contains_key(k) && to_map(w.push((k, v2)))[k] == v2,
{
    assert(w.push((k, v1)).push((k, v2)).drop_last() =~= w.push((k, v1)));
    assert(w.push((k, v1)).drop_last() =~= w);
    assert(w.push((k, v2)).drop_last() =~= w);
    let w1 = w.push((k, v1));
    let w2 = w1.push((k, v2));
    assert(w2.last() == (k, v2));
    assert(w1.last() == (k, v1));
    assert(to_map(w2) == to_map(w1).insert(k, v2));
    assert(to_map(w1) == to_map(w).insert(k, v1));
    assert(to_map(w).insert(k, v1).insert(k, v2) =~= to_map(w).insert(k, v2));
}

// ---------------------------------------------------------------------------
// Executable resolution
// ---------------------------------------------------------------------------

/// An entry of the resolved state, as bytes.
pub open spec fn entry_model(e: (Vec<u8>, Vec<u8>, Vec<u8>)) -> ((Seq<u8>, Seq<u8>), Seq<u8>) {
    ((e.0@, e.1@), e.2@)
}

pub open spec fn entries_model(es: Seq<(Vec<u8>, Vec<u8>, Vec<u8>)>) -> Seq<((Seq<u8>, Seq<u8>), Seq<u8>)> {
    Seq::new(es.len(), |i: int| entry_model(es[i]))
}

/// `a` comes strictly before `b` in byte order.
fn exec_bytes_lt(a: &Vec<u8>, b: &Vec<u8>) -> (r: bool)
    ensures
        r == bytes_lt(a@, b@),
{
    let mut i: usize = 0;
    assert(a@.skip(0) =~= a@);
    assert(b@.skip(0) =~= b@);
    while i < a.len() && i < b.len()
        invariant
            i <= a@.len(),
            i <= b@.len(),
            bytes_lt(a@, b@) == bytes_lt(a@.skip(i as int), b@.skip(i as int)),
        decreases a@.len() - i,
    {
        if a[i] != b[i] {
            return a[i] < b[i];
        }
        assert(a@.skip(i as int).drop_first() =~= a@.skip(i + 1));
        assert(b@.skip(i as int).drop_first() =~= b@.skip(i + 1));
        i = i + 1;
    }
    a.len() < b.len()
}

/// `a` and `b` hold the same bytes.
fn exec_bytes_eq(a: &Vec<u8>, b: &Vec<u8>) -> (r: bool)
    ensures
        r == (a@ == b@),
{
    if a.len() != b.len() {
        return false;
    }
    let mut i: usize = 0;
    while i < a.len()
        invariant
            a@.len() == b@.len(),
            i <= a@.len(),
            forall|j: int| 0 <= j < i ==> a@[j] == b@[j],
        decreases a@.len() - i,
    {
        if a[i] != b[i] {
            return false;
        }
        i = i + 1;
    }
    assert(a@ =~= b@);
    true
}

/// `(t1, k1)` comes strictly before `(t2, k2)`.
fn exec_key_lt(t1: &Vec<u8>, k1: &Vec<u8>, t2: &Vec<u8>, k2: &Vec<u8>) -> (r: bool)
    ensures
        r == key_lt((t1@, k1@), (t2@, k2@)),
{
    if exec_bytes_lt(t1, t2) {
        true
    } else if exec_bytes_eq(t1, t2) {
        exec_bytes_lt(k1, k2)
    } else {
        false
    }
}

/// Applies the writes in order to a sorted list of entries.
fn resolve_entries(writes: &Vec<StateWrite>) -> (es: Vec<(Vec<u8>, Vec<u8>, Vec<u8>)>)
    ensures
        strictly_sorted(entries_model(es@)),
        to_map(entries_model(es@)) == to_map(writes_model(writes@)),
{
    let mut es: Vec<(Vec<u8>, Vec<u8>, Vec<u8>)> = Vec::new();
    let mut w: usize = 0;
    let ghost ws = writes_model(writes@);
    assert(ws.take(0) =~= Seq::<((Seq<u8>, Seq<u8>), Seq<u8>)>::empty());
    assert(entries_model(es@) =~= Seq::<((Seq<u8>, Seq<u8>), Seq<u8>)>::empty());
    while w < writes.len()
        invariant
            ws == writes_model(writes@),
            w <= writes@.len(),
            strictly_sorted(entries_model(es@)),
            to_map(entries_model(es@)) == to_map(ws.take(w as int)),
        decreases writes@.len() - w,
    {
        let t = string_bytes(&writes[w].event_type);
        let k = string_bytes(&writes[w].state_key);
        let v = string_bytes(&writes[w].event_id);
        let ghost key = (t@, k@);
        assert(ws[w as int] == (key, v@));
        // The first entry whose key is not below the written key.
        let mut p: usize = 0;
        let ghost em = entries_model(es@);
        while p < es.len() && exec_key_lt(&es[p].0, &es[p].1, &t, &k)
            invariant
                em == entries_model(es@),
                key == (t@, k@),
                p <= es@.len(),
                forall|q: int| 0 <= q < p ==> key_lt(#[trigger] em[q].0, key),
            decreases es@.len() - p,
        {
            p = p + 1;
        }
        proof {
            lemma_sorted_distinct(em);
            lemma_to_map_distinct(em);
        }
        let ghost m_old = to_map(em);
        if p < es.len() && exec_bytes_eq(&es[p].0, &t) && exec_bytes_eq(&es[p].1, &k) {
            es.set(p, (t, k, v));
            proof {
                let em2 = entries_model(es@);
                assert(em2 =~= em.update(p as int, (key, v@)));
                assert(strictly_sorted(em2)) by {
                    assert forall|i: int, j: int| 0 <= i < j < em2.len() implies key_lt(#[trigger] em2[i].0, #[trigger] em2[j].0) by {
                        assert(em2[i].0 == em[i].0);
                        assert(em2[j].0 == em[j].0);
                    }
                }
                lemma_sorted_distinct(em2);
                lemma_to_map_distinct(em2);
                assert(to_map(em2) =~= m_old.insert(key, v@)) by {
                    assert forall|kk: (Seq<u8>, Seq<u8>)| #[trigger] to_map(em2).contains_key(kk) implies m_old.insert(key, v@).contains_key(kk) && to_map(em2)[kk] == m_old.insert(key, v@)[kk] by {
                        let i = choose|i: int| 0 <= i < em2.len() && em2[i].0 == kk;
                        if i != p {
                            assert(em2[i] == em[i]);
                            assert(em[i].0 != em[p as int].0);
                        }
                    }
                    assert forall|kk: (Seq<u8>, Seq<u8>)| #[trigger] m_old.insert(key, v@).contains_key(kk) implies to_map(em2).contains_key(kk) by {
                        if kk != key {
                            let i = choose|i: int| 0 <= i < em.len() && em[i].0 == kk;
                            assert(em2[i] == em[i]);
                        } else {
                            assert(em2[p as int].0 == key);
                        }
                    }
                }
            }
        } else {
            let ghost not_equal = !(p < es@.len() && em[p as int].0 == key);
            proof {
                if p < es@.len() {
                    assert(!key_lt(em[p as int].0, key));
                    if em[p as int].0 != key {
                        lemma_key_lt_order(key, em[p as int].0, key);
                        assert(key_lt(key, em[p as int].0));
                    }
                }
            }
            es.insert(p, (t, k, v));
            proof {
                let em2 = entries_model(es@);
                assert(em2 =~= em.insert(p as int, (key, v@)));
                assert(strictly_sorted(em2)) by {
                    assert forall|i: int, j: int| 0 <= i < j < em2.len() implies key_lt(#[trigger] em2[i].0, #[trigger] em2[j].0) by {
                        if i < p && j < p {
                            assert(em2[i] == em[i]);
                            assert(em2[j] == em[j]);
                        } else if i < p && j == p {
                            assert(em2[i] == em[i]);
                        } else if i < p && j > p {
                            assert(em2[i] == em[i]);
                            assert(em2[j] == em[j - 1]);
                            if p < em.len() {
                                assert(key_lt(key, em[p as int].0));
                                if j - 1 > p {
                                    assert(key_lt(em[p as int].0, em[j - 1].0));
                                    lemma_key_lt_order(key, em[p as int].0, em[j - 1].0);
                                }
                                lemma_key_lt_order(em[i].0, key, em[j - 1].0);
                            }
                        } else if i == p {
                            assert(em2[j] == em[j - 1]);
                            assert(key_lt(key, em[p as int].0));
                            if j - 1 > p {
                                assert(key_lt(em[p as int].0, em[j - 1].0));
                                lemma_key_lt_order(key, em[p as int].0, em[j - 1].0);
                            }
                        } else {
                            assert(em2[i] == em[i - 1]);
                            assert(em2[j] == em[j - 1]);
                        }
                    }
                }
                lemma_sorted_distinct(em2);
                lemma_to_map_distinct(em2);
                assert(!m_old.contains_key(key)) by {
                    if m_old.contains_key(key) {
                        let i = choose|i: int| 0 <= i < em.len() && em[i].0 == key;
                        if i < p {
                            lemma_key_lt_order(key, key, key);
                        } else if i > p {
                            assert(key_lt(em[p as int].0, em[i].0));
                            assert(key_lt(key, em[p as int].0));
                            lemma_key_lt_order(key, em[p as int].0, key);
                        }
                    }
                }
                assert(to_map(em2) =~= m_old.insert(key, v@)) by {
                    assert forall|kk: (Seq<u8>, Seq<u8>)| #[trigger] to_map(em2).contains_key(kk) implies m_old.insert(key, v@).contains_key(kk) && to_map(em2)[kk] == m_old.insert(key, v@)[kk] by {
                        let i = choose|i: int| 0 <= i < em2.len() && em2[i].0 == kk;
                        assert(to_map(em2).contains_key(em2[i].0));
                        if i < p {
                            assert(em2[i] == em[i]);
                            assert(to_map(em).contains_key(em[i].0));
                        } else if i > p {
                            assert(em2[i] == em[i - 1]);
                            assert(to_map(em).contains_key(em[i - 1].0));
                        } else {
                            assert(em2[i] == (key, v@));
                        }
                    }
                    assert forall|kk: (Seq<u8>, Seq<u8>)| #[trigger] m_old.insert(key, v@).contains_key(kk) implies to_map(em2).contains_key(kk) by {
                        if kk != key {
                            let i = choose|i: int| 0 <= i < em.len() && em[i].0 == kk;
                            if i < p {
                                assert(em2[i] == em[i]);
                            } else {
                                assert(em2[i + 1] == em[i]);
                            }
                        } else {
                            assert(em2[p as int].0 == key);
                        }
                    }
                }
            }
        }
        proof {
            assert(ws.take(w + 1).drop_last() =~= ws.take(w as int));
            assert(ws.take(w + 1).last() == (key, v@));
        }
        w = w + 1;
    }
    assert(ws.take(w as int) =~= ws);
    es
}

/// Appends the bytes of `b`.
fn append_bytes(out: &mut Vec<u8>, b: &Vec<u8>)
    ensures
        final(out)@ == old(out)@ + b@,
{
    let mut i: usize = 0;
    while i < b.len()
        invariant
            i <= b@.len(),
            out@ == old(out)@ + b@.take(i as int),
        decreases b@.len() - i,
    {
        out.push(b[i]);
        i = i + 1;
        assert(out@ =~= old(out)@ + b@.take(i as int));
    }
    assert(b@.take(i as int) =~= b@);
}

/// The fingerprint of the state left by `writes` applied in order, later
/// writes winning: the SHA-256 digest of its entries in key order.
pub fn state_fingerprint(writes: &Vec<StateWrite>) -> (h: [u8; 32])
    ensures
        h@ == state_hash(to_map(writes_model(writes@))),
{
    let es = resolve_entries(writes);
    let mut data: Vec<u8> = Vec::new();
    let mut i: usize = 0;
    let ghost em = entries_model(es@);
    while i < es.len()
        invariant
            em == entries_model(es@),
            i <= es@.len(),
            data@ == flatten(em.take(i as int)),
        decreases es@.len() - i,
    {
        append_bytes(&mut data, &es[i].0);
        append_bytes(&mut data, &es[i].1);
        append_bytes(&mut data, &es[i].2);
        assert(em.take(i + 1).drop_last() =~= em.take(i as int));
        i = i + 1;
    }
    assert(em.take(i as int) =~= em);
    proof {
        lemma_sorted_entries_of(em);
    }
    sha256_digest(data.as_slice())
}

} // verus!

//! The mathematics of the star graph's vertex numbering.
//!
//! A vertex of the star graph `S_n` is a permutation of `0..n`. Vertices are
//! numbered by the factorial number system (Lehmer code): `decode` turns a
//! vertex index into its permutation and `encode` turns a permutation back
//! into its index. Both work on a table of twelve symbols from which the
//! chosen symbol is removed at each step, exactly as the executable code does.
use vstd::prelude::*;
use vstd::arithmetic::div_mod::lemma_fundamental_div_mod_converse;

verus! {

/// The largest supported star graph dimension.
pub const MAX_N: usize = 12;

/// `n!`
pub open spec fn fact(n: nat) -> nat
    decreases n,
{
    if n == 0 {
        1
    } else {
        n * fact((n - 1) as nat)
    }
}

/// The symbol table before any symbol has been taken: `0, 1, ..., 11`.
pub open spec fn initial_symbols() -> Seq<usize> {
    Seq::new(MAX_N as nat, |i: int| i as usize)
}

/// The symbol table after the entry at position `d` was taken: later entries
/// move one place to the front and the last entry stays where it was.
pub open spec fn shift(s: Seq<usize>, d: int) -> Seq<usize> {
    Seq::new(
        s.len(),
        |j: int|
            if j < d {
                s[j]
            } else if j + 1 < s.len() {
                s[j + 1]
            } else {
                s[s.len() - 1]
            },
    )
}

/// The first `i` entries of the permutation with index `idx`, drawn from the
/// symbol table `s`.
pub open spec fn dec(i: nat, idx: nat, s: Seq<usize>) -> Seq<usize>
    decreases i,
{
    if i == 0 {
        Seq::empty()
    } else {
        let f = fact((i - 1) as nat);
        let d = idx / f;
        seq![s[d as int]].add(dec((i - 1) as nat, idx % f, shift(s, d as int)))
    }
}

/// The position of the first occurrence of `v` in `s` (`s.len()` if absent).
pub open spec fn first_pos(s: Seq<usize>, v: usize) -> nat
    decreases s.len(),
{
    if s.len() == 0 {
        0
    } else if s[0] == v {
        0
    } else {
        1 + first_pos(s.drop_first(), v)
    }
}

/// The index of the permutation whose first `i` entries are `p`, relative to
/// the symbol table `s`.
pub open spec fn enc(i: nat, p: Seq<usize>, s: Seq<usize>) -> nat
    decreases i,
{
    if i == 0 {
        0
    } else {
        let pos = first_pos(s, p[0]);
        pos * fact((i - 1) as nat) + enc((i - 1) as nat, p.drop_first(), shift(s, pos as int))
    }
}

/// `enc` finds every symbol that it looks for (otherwise the executable
/// search fails).
pub open spec fn enc_ok(i: nat, p: Seq<usize>, s: Seq<usize>) -> bool
    decreases i,
{
    if i == 0 {
        true
    } else {
        let pos = first_pos(s, p[0]);
        &&& s.contains(p[0])
        &&& enc_ok((i - 1) as nat, p.drop_first(), shift(s, pos as int))
    }
}

/// Decoding vertex `idx` of `S_n` never reads outside the symbol table.
pub open spec fn decode_defined(n: nat, idx: nat) -> bool {
    n == 0 || idx / fact((n - 1) as nat) < MAX_N
}

/// The twelve-entry permutation array of vertex `idx` of `S_n`: its first `n`
/// entries are the decoded permutation, the rest are zero.
pub open spec fn perm_of(n: nat, idx: nat) -> Seq<usize> {
    dec(n, idx, initial_symbols()).add(Seq::new((MAX_N - n) as nat, |j: int| 0usize))
}

/// `p` with the entries at positions `a` and `b` exchanged.
pub open spec fn swap_entries(p: Seq<usize>, a: int, b: int) -> Seq<usize> {
    p.update(a, p[b]).update(b, p[a])
}

/// The permutation reached from vertex `idx` along edge `sp`.
pub open spec fn swapped_perm(n: nat, idx: nat, sp: nat) -> Seq<usize> {
    swap_entries(perm_of(n, idx), 0, sp as int)
}

/// The vertex reached from vertex `idx` of `S_n` by exchanging the first
/// symbol with the symbol at position `sp`.
pub open spec fn neighbor(n: nat, idx: nat, sp: nat) -> nat {
    enc(n, swapped_perm(n, idx, sp).take(n as int), initial_symbols())
}

/// The inputs on which computing `neighbor` runs without a failing index or
/// a failing search.
pub open spec fn neighbor_defined(n: nat, idx: nat, sp: nat) -> bool {
    &&& n <= MAX_N
    &&& decode_defined(n, idx)
    &&& sp < MAX_N
    &&& enc_ok(n, swapped_perm(n, idx, sp).take(n as int), initial_symbols())
}

// ---------------------------------------------------------------------------
// Factorials
// ---------------------------------------------------------------------------

/// Factorials are positive.
pub proof fn lemma_fact_positive(n: nat)
    ensures
        fact(n) >= 1,
    decreases n,
{
    if n > 0 {
        lemma_fact_positive((n - 1) as nat);
        assert(n * fact((n - 1) as nat) >= fact((n - 1) as nat)) by (nonlinear_arith)
            requires
                n >= 1,
                fact((n - 1) as nat) >= 1,
        ;
    }
}

/// Factorials grow with their argument.
pub proof fn lemma_fact_monotone(a: nat, b: nat)
    requires
        a <= b,
    ensures
        fact(a) <= fact(b),
    decreases b - a,
{
    if a < b {
        lemma_fact_monotone(a, (b - 1) as nat);
        lemma_fact_positive((b - 1) as nat);
        assert(b * fact((b - 1) as nat) >= fact((b - 1) as nat)) by (nonlinear_arith)
            requires
                b >= 1,
        ;
    }
}

/// The value of `12!`.
pub proof fn lemma_fact_max()
    ensures
        fact(12) == 479001600,
{
    reveal_with_fuel(fact, 13);
}

/// Factorials up to the largest supported dimension lie between 1 and `12!`.
pub proof fn lemma_fact_bounded(n: nat)
    requires
        n <= MAX_N,
    ensures
        1 <= fact(n) <= 479001600,
{
    lemma_fact_positive(n);
    lemma_fact_monotone(n, 12);
    lemma_fact_max();
}

/// `x < i!` makes the leading factorial digit `x / (i-1)!` smaller than `i`.
pub proof fn lemma_digit_bound(i: nat, x: nat)
    requires
        i >= 1,
        x < fact(i),
    ensures
        0 <= x / fact((i - 1) as nat) < i,
        x % fact((i - 1) as nat) < fact((i - 1) as nat),
{
    let f = fact((i - 1) as nat);
    lemma_fact_positive((i - 1) as nat);
    assert(fact(i) == i * f);
    assert(x / f < i) by (nonlinear_arith)
        requires
            f >= 1,
            x < i * f,
    ;
}

/// `0! + 1! + ... + (i-1)!`
pub open spec fn fact_sum(i: nat) -> nat
    decreases i,
{
    if i == 0 {
        0
    } else {
        fact_sum((i - 1) as nat) + fact((i - 1) as nat)
    }
}

/// A bound on the mixed-radix sums that encode a permutation.
pub proof fn lemma_fact_sum_bound(i: nat)
    requires
        i <= MAX_N,
    ensures
        fact_sum(i) <= 43954714,
    decreases MAX_N - i,
{
    if i < MAX_N {
        lemma_fact_sum_bound(i + 1);
    } else {
        reveal_with_fuel(fact_sum, 13);
        reveal_with_fuel(fact, 12);
    }
}

/// The characterization of `first_pos` by the first matching entry.
pub proof fn lemma_first_pos_at(s: Seq<usize>, v: usize, pos: int)
    requires
        0 <= pos < s.len(),
        s[pos] == v,
        forall|j: int| 0 <= j < pos ==> s[j] != v,
    ensures
        first_pos(s, v) == pos,
{
    lemma_first_pos(s, v);
    assert(s.contains(v));
}

/// Each encoding digit is below the table length, which bounds the index.
pub proof fn lemma_enc_bound(i: nat, p: Seq<usize>, s: Seq<usize>)
    requires
        enc_ok(i, p, s),
        s.len() == MAX_N,
    ensures
        enc(i, p, s) <= 11 * fact_sum(i),
    decreases i,
{
    if i > 0 {
        let pos = first_pos(s, p[0]);
        lemma_first_pos(s, p[0]);
        lemma_enc_bound((i - 1) as nat, p.drop_first(), shift(s, pos as int));
        let f = fact((i - 1) as nat);
        assert(pos * f <= 11 * f) by (nonlinear_arith)
            requires
                pos <= 11,
        ;
    }
}

// ---------------------------------------------------------------------------
// Symbol tables
// ---------------------------------------------------------------------------

/// Removing an entry beyond a prefix leaves the prefix unchanged.
pub proof fn lemma_shift_take(s: Seq<usize>, d: int, i: int)
    requires
        0 <= d < i <= s.len(),
    ensures
        shift(s, d).take(i - 1) =~= s.take(i).remove(d),
        shift(s, d).len() == s.len(),
{
}

/// Taking one entry out of a table keeps the remaining live entries distinct.
pub proof fn lemma_shift_distinct(s: Seq<usize>, d: int, i: int)
    requires
        0 <= d < i <= s.len(),
        s.take(i).no_duplicates(),
    ensures
        shift(s, d).take(i - 1).no_duplicates(),
        forall|k: int| 0 <= k < i - 1 ==> #[trigger] shift(s, d).take(i - 1)[k] == s.take(i)[if k < d { k } else { k + 1 }],
{
    let u = shift(s, d).take(i - 1);
    let t = s.take(i);
    assert forall|a: int, b: int|
        #![trigger u[a], u[b]]
        0 <= a < i - 1 && 0 <= b < i - 1 && a != b implies u[a] != u[b] by {
        let a2 = if a < d { a } else { a + 1 };
        let b2 = if b < d { b } else { b + 1 };
        assert(u[a] == t[a2]);
        assert(u[b] == t[b2]);
    }
}

/// The first position of a value is in range, holds the value where it is
/// present, and nothing before it does.
pub proof fn lemma_first_pos(s: Seq<usize>, v: usize)
    ensures
        first_pos(s, v) <= s.len(),
        s.contains(v) ==> first_pos(s, v) < s.len() && s[first_pos(s, v) as int] == v,
        forall|j: int| 0 <= j < first_pos(s, v) ==> s[j] != v,
    decreases s.len(),
{
    if s.len() > 0 && s[0] != v {
        lemma_first_pos(s.drop_first(), v);
        if s.contains(v) {
            let k = choose|k: int| 0 <= k < s.len() && s[k] == v;
            assert(s.drop_first()[k - 1] == v);
        }
        assert forall|j: int| 0 <= j < first_pos(s, v) implies s[j] != v by {
            if j > 0 {
                assert(s[j] == s.drop_first()[j - 1]);
            }
        }
    }
}

/// In a table whose first `i` entries are distinct, the first occurrence of
/// the entry at position `d < i` is at `d`.
pub proof fn lemma_first_pos_distinct(s: Seq<usize>, d: int, i: int)
    requires
        0 <= d < i <= s.len(),
        s.take(i).no_duplicates(),
    ensures
        first_pos(s, s[d]) == d,
{
    lemma_first_pos(s, s[d]);
    assert(s.contains(s[d]));
    let p = first_pos(s, s[d]) as int;
    if p < d {
        assert(s.take(i)[p] == s.take(i)[d]);
    }
}

/// A symbol found in the first `i` entries has its first occurrence there.
pub proof fn lemma_first_pos_in_prefix(s: Seq<usize>, v: usize, i: int)
    requires
        0 <= i <= s.len(),
        s.take(i).contains(v),
    ensures
        first_pos(s, v) < i,
        s[first_pos(s, v) as int] == v,
{
    let k = choose|k: int| 0 <= k < i && s.take(i)[k] == v;
    assert(s[k] == v);
    lemma_first_pos(s, v);
}

/// The first `n` symbols of the table are exactly `0..n`, each once.
pub proof fn lemma_initial_symbols_prefix(n: int)
    requires
        0 <= n <= MAX_N,
    ensures
        initial_symbols().take(n).no_duplicates(),
        forall|v: usize| initial_symbols().take(n).contains(v) <==> v < n,
        initial_symbols().len() == MAX_N,
{
    assert forall|v: usize| v < n implies initial_symbols().take(n).contains(v) by {
        assert(initial_symbols().take(n)[v as int] == v);
    }
}

// ---------------------------------------------------------------------------
// Decoding and encoding undo each other
// ---------------------------------------------------------------------------

/// Decoding produces one symbol per remaining position.
pub proof fn lemma_dec_len(i: nat, idx: nat, s: Seq<usize>)
    ensures
        dec(i, idx, s).len() == i,
    decreases i,
{
    if i > 0 {
        let f = fact((i - 1) as nat);
        lemma_fact_positive((i - 1) as nat);
        lemma_dec_len((i - 1) as nat, idx % f, shift(s, (idx / f) as int));
        assert(dec(i, idx, s) =~= seq![s[(idx / f) as int]].add(dec((i - 1) as nat, idx % f, shift(s, (idx / f) as int))));
    }
}

/// Decoding an index below `i!` picks `i` distinct symbols of the first `i`
/// table entries.
pub proof fn lemma_dec_perm(i: nat, idx: nat, s: Seq<usize>)
    requires
        idx < fact(i),
        i <= s.len(),
        s.take(i as int).no_duplicates(),
    ensures
        dec(i, idx, s).len() == i,
        dec(i, idx, s).no_duplicates(),
        forall|k: int| 0 <= k < i ==> s.take(i as int).contains(#[trigger] dec(i, idx, s)[k]),
    decreases i,
{
    lemma_dec_len(i, idx, s);
    if i > 0 {
        let f = fact((i - 1) as nat);
        let d = idx / f;
        lemma_digit_bound(i, idx);
        lemma_fact_positive((i - 1) as nat);
        lemma_dec_len((i - 1) as nat, idx % f, shift(s, d as int));
        assert(dec(i, idx, s) =~= seq![s[d as int]].add(dec((i - 1) as nat, idx % f, shift(s, d as int))));
        let s2 = shift(s, d as int);
        lemma_shift_take(s, d as int, i as int);
        let t = s.take(i as int);
        lemma_shift_distinct(s, d as int, i as int);
        let u = s2.take(i - 1);
        lemma_dec_perm((i - 1) as nat, idx % f, s2);
        let rest = dec((i - 1) as nat, idx % f, s2);
        let r = dec(i, idx, s);
        assert forall|k: int| 0 <= k < i implies t.contains(#[trigger] r[k]) by {
            if k == 0 {
                assert(t[d as int] == s[d as int]);
            } else {
                assert(r[k] == rest[k - 1]);
                assert(u.contains(rest[k - 1]));
                let q = choose|q: int| 0 <= q < i - 1 && u[q] == rest[k - 1];
                let q2 = if q < d { q } else { q + 1 };
                assert(t[q2] == rest[k - 1]);
            }
        }
        assert forall|a: int, b: int|
            #![trigger r[a], r[b]]
            0 <= a < i && 0 <= b < i && a != b implies r[a] != r[b] by {
            if a == 0 && b > 0 {
                let q = choose|q: int| 0 <= q < i - 1 && u[q] == rest[b - 1];
                let q2 = if q < d { q } else { q + 1 };
                assert(t[q2] == r[b]);
                assert(t[d as int] == r[a]);
            } else if b == 0 && a > 0 {
                let q = choose|q: int| 0 <= q < i - 1 && u[q] == rest[a - 1];
                let q2 = if q < d { q } else { q + 1 };
                assert(t[q2] == r[a]);
                assert(t[d as int] == r[b]);
            } else if a > 0 && b > 0 {
                assert(r[a] == rest[a - 1]);
                assert(r[b] == rest[b - 1]);
            }
        }
    }
}

/// Encoding the decoded permutation gives the index back.
pub proof fn lemma_enc_dec(i: nat, idx: nat, s: Seq<usize>)
    requires
        idx < fact(i),
        i <= s.len(),
        s.take(i as int).no_duplicates(),
    ensures
        enc_ok(i, dec(i, idx, s), s),
        enc(i, dec(i, idx, s), s) == idx,
    decreases i,
{
    if i > 0 {
        let f = fact((i - 1) as nat);
        let d = idx / f;
        lemma_digit_bound(i, idx);
        let s2 = shift(s, d as int);
        lemma_shift_take(s, d as int, i as int);
        let t = s.take(i as int);
        lemma_shift_distinct(s, d as int, i as int);
        lemma_enc_dec((i - 1) as nat, idx % f, s2);
        let p = dec(i, idx, s);
        let rest = dec((i - 1) as nat, idx % f, s2);
        assert(p.drop_first() =~= rest);
        assert(p[0] == s[d as int]);
        lemma_first_pos_distinct(s, d as int, i as int);
        assert(s.contains(s[d as int]));
        lemma_fact_positive((i - 1) as nat);
        assert(idx == d * f + idx % f) by (nonlinear_arith)
            requires
                f >= 1,
                d == idx / f,
        ;
    }
}

/// Decoding the index of a permutation of the first `i` table entries gives
/// the permutation back, and that index is below `i!`.
pub proof fn lemma_dec_enc(i: nat, p: Seq<usize>, s: Seq<usize>)
    requires
        i <= s.len(),
        i <= p.len(),
        s.take(i as int).no_duplicates(),
        p.take(i as int).no_duplicates(),
        forall|k: int| 0 <= k < i ==> s.take(i as int).contains(#[trigger] p[k]),
    ensures
        enc_ok(i, p, s),
        enc(i, p, s) < fact(i),
        dec(i, enc(i, p, s), s) =~= p.take(i as int),
    decreases i,
{
    if i > 0 {
        let f = fact((i - 1) as nat);
        let t = s.take(i as int);
        assert(t.contains(p[0]));
        lemma_first_pos_in_prefix(s, p[0], i as int);
        let pos = first_pos(s, p[0]);
        let s2 = shift(s, pos as int);
        lemma_shift_take(s, pos as int, i as int);
        let q = p.drop_first();
        let u = s2.take(i - 1);
        lemma_shift_distinct(s, pos as int, i as int);
        let qt = q.take(i - 1);
        let pt = p.take(i as int);
        assert(qt.no_duplicates()) by {
            assert forall|a: int, b: int|
                #![trigger qt[a], qt[b]]
                0 <= a < i - 1 && 0 <= b < i - 1 && a != b implies qt[a] != qt[b] by {
                assert(qt[a] == pt[a + 1]);
                assert(qt[b] == pt[b + 1]);
            }
        }
        assert forall|k: int| 0 <= k < i - 1 implies u.contains(#[trigger] q[k]) by {
            assert(q[k] == p[k + 1]);
            assert(t.contains(p[k + 1]));
            let w = choose|w: int| 0 <= w < i && t[w] == p[k + 1];
            assert(p.take(i as int)[k + 1] != p.take(i as int)[0]);
            assert(w != pos);
            let w2 = if w < pos { w } else { w - 1 };
            assert(u[w2] == p[k + 1]);
        }
        lemma_dec_enc((i - 1) as nat, q, s2);
        let rest = enc((i - 1) as nat, q, s2);
        let e = enc(i, p, s);
        assert(e == pos * f + rest);
        lemma_fact_positive((i - 1) as nat);
        assert(e < fact(i)) by (nonlinear_arith)
            requires
                e == pos * f + rest,
                rest < f,
                pos < i,
                fact(i) == i * f,
        ;
        lemma_fundamental_div_mod_converse(e as int, f as int, pos as int, rest as int);
        assert(dec(i, e, s) =~= seq![s[pos as int]].add(dec((i - 1) as nat, rest, s2)));
    }
}

// ---------------------------------------------------------------------------
// Star graph edges
// ---------------------------------------------------------------------------

proof fn lemma_perm_of(n: nat, idx: nat)
    requires
        n <= MAX_N,
        idx < fact(n),
    ensures
        perm_of(n, idx).len() == MAX_N,
        perm_of(n, idx).take(n as int) =~= dec(n, idx, initial_symbols()),
        forall|k: int| n <= k < MAX_N ==> perm_of(n, idx)[k] == 0,
        dec(n, idx, initial_symbols()).no_duplicates(),
        forall|k: int| 0 <= k < n ==> #[trigger] dec(n, idx, initial_symbols())[k] < n,
{
    lemma_initial_symbols_prefix(n as int);
    lemma_dec_perm(n, idx, initial_symbols());
}

/// Every vertex below `n!` can be decoded.
pub proof fn lemma_decode_defined(n: nat, idx: nat)
    requires
        1 <= n <= MAX_N,
        idx < fact(n),
    ensures
        decode_defined(n, idx),
{
    lemma_digit_bound(n, idx);
}

/// The neighbor along edge `sp` (with `sp < n`) of a vertex of `S_n` is
/// computed without failure, is again a vertex of `S_n`, and its permutation
/// is the swapped permutation.
pub proof fn lemma_neighbor_basic(n: nat, idx: nat, sp: nat)
    requires
        n <= MAX_N,
        idx < fact(n),
        sp < n,
    ensures
        neighbor_defined(n, idx, sp),
        neighbor(n, idx, sp) < fact(n),
        perm_of(n, neighbor(n, idx, sp)) =~= swapped_perm(n, idx, sp),
{
    lemma_perm_of(n, idx);
    lemma_initial_symbols_prefix(n as int);
    if n > 0 {
        lemma_decode_defined(n, idx);
    }
    let p = perm_of(n, idx);
    let q = swapped_perm(n, idx, sp);
    let qt = q.take(n as int);
    let d = dec(n, idx, initial_symbols());
    assert(qt.no_duplicates()) by {
        assert forall|a: int, b: int|
            0 <= a < n && 0 <= b < n && a != b implies qt[a] != qt[b] by {
            let a2 = if a == 0 { sp as int } else if a == sp { 0 } else { a };
            let b2 = if b == 0 { sp as int } else if b == sp { 0 } else { b };
            assert(qt[a] == d[a2]);
            assert(qt[b] == d[b2]);
        }
    }
    assert forall|k: int| 0 <= k < n implies initial_symbols().take(n as int).contains(
        #[trigger] qt[k],
    ) by {
        let k2 = if k == 0 { sp as int } else if k == sp { 0 } else { k };
        assert(qt[k] == d[k2]);
    }
    lemma_dec_enc(n, qt, initial_symbols());
    let m = neighbor(n, idx, sp);
    assert(perm_of(n, m).take(n as int) =~= qt);
    assert forall|k: int| 0 <= k < MAX_N implies perm_of(n, m)[k] == q[k] by {
        if k < n {
            assert(perm_of(n, m)[k] == perm_of(n, m).take(n as int)[k]);
        }
    }
}

/// An edge of the star graph leads back where it came from. Following
/// edge `sp` twice from any vertex of `S_n` returns to that vertex.
pub proof fn lemma_neighbor_involution(n: nat, idx: nat, sp: nat)
    requires
        n <= MAX_N,
        idx < fact(n),
        sp < n,
    ensures
        neighbor(n, neighbor(n, idx, sp), sp) == idx,
{
    lemma_neighbor_basic(n, idx, sp);
    let m = neighbor(n, idx, sp);
    lemma_neighbor_basic(n, m, sp);
    lemma_perm_of(n, idx);
    assert(swapped_perm(n, m, sp) =~= perm_of(n, idx));
    assert(swapped_perm(n, m, sp).take(n as int) =~= dec(n, idx, initial_symbols())) by {
        lemma_perm_of(n, idx);
    }
    lemma_initial_symbols_prefix(n as int);
    lemma_enc_dec(n, idx, initial_symbols());
}

/// The star graph has no loops. Following an edge `sp` with
/// `1 <= sp < n` always leads to a different vertex.
pub proof fn lemma_neighbor_differs(n: nat, idx: nat, sp: nat)
    requires
        n <= MAX_N,
        idx < fact(n),
        1 <= sp < n,
    ensures
        neighbor(n, idx, sp) != idx,
{
    lemma_neighbor_basic(n, idx, sp);
    lemma_perm_of(n, idx);
    let d = dec(n, idx, initial_symbols());
    if neighbor(n, idx, sp) == idx {
        assert(perm_of(n, idx)[0] == swapped_perm(n, idx, sp)[0]);
        assert(d[0] == d[sp as int]);
    }
}

/// Distinct edges of a vertex lead to distinct vertices: the `n - 1`
/// neighbors of a vertex of `S_n` are pairwise different.
pub proof fn lemma_neighbors_distinct(n: nat, idx: nat, a: nat, b: nat)
    requires
        n <= MAX_N,
        idx < fact(n),
        1 <= a < b < n,
    ensures
        neighbor(n, idx, a) != neighbor(n, idx, b),
{
    lemma_neighbor_basic(n, idx, a);
    lemma_neighbor_basic(n, idx, b);
    lemma_perm_of(n, idx);
    let d = dec(n, idx, initial_symbols());
    if neighbor(n, idx, a) == neighbor(n, idx, b) {
        assert(swapped_perm(n, idx, a)[a as int] == swapped_perm(n, idx, b)[a as int]);
        assert(perm_of(n, idx)[0] == d[0]);
        assert(perm_of(n, idx)[a as int] == d[a as int]);
        assert(d[0] == d[a as int]);
    }
}

/// Decoding a vertex of `S_n` gives a permutation of `0..n`, and
/// encoding it gives the vertex back.
pub proof fn lemma_vertex_numbering(n: nat, idx: nat)
    requires
        n <= MAX_N,
        idx < fact(n),
    ensures
        decode_defined(n, idx),
        dec(n, idx, initial_symbols()).len() == n,
        dec(n, idx, initial_symbols()).no_duplicates(),
        forall|k: int| 0 <= k < n ==> #[trigger] dec(n, idx, initial_symbols())[k] < n,
        enc_ok(n, dec(n, idx, initial_symbols()), initial_symbols()),
        enc(n, dec(n, idx, initial_symbols()), initial_symbols()) == idx,
{
    lemma_perm_of(n, idx);
    lemma_initial_symbols_prefix(n as int);
    lemma_enc_dec(n, idx, initial_symbols());
    if n > 0 {
        lemma_decode_defined(n, idx);
    }
}

/// Crossing edge `sp` exchanges the first symbol of a vertex's permutation
/// with the symbol at position `sp` and leaves every other position as it
/// was.
pub proof fn lemma_neighbor_swaps(n: nat, idx: nat, sp: nat)
    requires
        n <= MAX_N,
        idx < fact(n),
        sp < n,
    ensures
        perm_of(n, neighbor(n, idx, sp))[0] == perm_of(n, idx)[sp as int],
        perm_of(n, neighbor(n, idx, sp))[sp as int] == perm_of(n, idx)[0],
        forall|k: int|
            0 <= k < MAX_N && k != 0 && k != sp ==> #[trigger] perm_of(n, neighbor(n, idx, sp))[k]
                == perm_of(n, idx)[k],
{
    lemma_neighbor_basic(n, idx, sp);
    lemma_perm_of(n, idx);
}

/// Decoding the first `i` entries of index 0 takes the table in order.
proof fn lemma_dec_zero(i: nat, s: Seq<usize>)
    requires
        i <= s.len(),
    ensures
        dec(i, 0, s) =~= s.take(i as int),
    decreases i,
{
    if i > 0 {
        lemma_fact_positive((i - 1) as nat);
        assert(0nat / fact((i - 1) as nat) == 0) by (nonlinear_arith)
            requires
                fact((i - 1) as nat) > 0,
        ;
        assert(0nat % fact((i - 1) as nat) == 0) by (nonlinear_arith)
            requires
                fact((i - 1) as nat) > 0,
        ;
        lemma_dec_zero((i - 1) as nat, shift(s, 0));
        assert(shift(s, 0).take(i - 1) =~= s.take(i as int).drop_first());
    }
}

/// The factorial number system: vertex 0 is the identity permutation, and
/// the first symbol of vertex `idx` is `idx / (n - 1)!`.
pub proof fn lemma_vertex_numbering_order(n: nat, idx: nat)
    requires
        1 <= n <= MAX_N,
        idx < fact(n),
    ensures
        perm_of(n, idx)[0] == idx / fact((n - 1) as nat),
        forall|k: int| 0 <= k < MAX_N ==> #[trigger] perm_of(n, 0)[k] == if k < n { k } else { 0 },
{
    lemma_perm_of(n, idx);
    lemma_digit_bound(n, idx);
    lemma_fact_positive((n - 1) as nat);
    assert(perm_of(n, idx)[0] == dec(n, idx, initial_symbols())[0]);
    lemma_dec_zero(n, initial_symbols());
    lemma_fact_positive(n);
    lemma_perm_of(n, 0);
    assert forall|k: int| 0 <= k < MAX_N implies #[trigger] perm_of(n, 0)[k] == if k < n { k } else { 0 } by {
        if k < n {
            assert(perm_of(n, 0)[k] == dec(n, 0, initial_symbols())[k]);
        }
    }
}

} // verus!

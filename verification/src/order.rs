//! Total orders used by the ordered collections: the numeric order on
//! identifiers and the lexicographic order on byte strings, together with the
//! notion of "the ascending enumeration of a finite set".

use vstd::prelude::*;

verus! {

/// Three-way outcome of comparing two byte strings.
#[derive(Clone, Copy, Debug, PartialEq, Eq, Structural)]
pub enum Order {
    Less,
    Equal,
    Greater,
}

/// `a` and `b` have the same first `n` bytes.
pub open spec fn agree_upto(a: Seq<u8>, b: Seq<u8>, n: int) -> bool {
    &&& 0 <= n <= a.len()
    &&& n <= b.len()
    &&& forall|i: int| 0 <= i < n ==> a[i] == b[i]
}

/// `a` sorts before `b`, and position `n` is where this is decided: either
/// `a` ends there while `b` goes on, or `a` holds the smaller byte.
pub open spec fn lex_lt_at(a: Seq<u8>, b: Seq<u8>, n: int) -> bool {
    &&& agree_upto(a, b, n)
    &&& n < b.len()
    &&& (n < a.len() ==> a[n] < b[n])
}

/// Strict lexicographic order on byte strings.
pub open spec fn lex_lt(a: Seq<u8>, b: Seq<u8>) -> bool {
    exists|n: int| lex_lt_at(a, b, n)
}

/// No byte string sorts before itself.
pub proof fn lemma_lex_irreflexive(a: Seq<u8>)
    ensures
        !lex_lt(a, a),
{
}

/// What sorts before a string that sorts before a third sorts before the
/// third.
pub proof fn lemma_lex_transitive(a: Seq<u8>, b: Seq<u8>, c: Seq<u8>)
    requires
        lex_lt(a, b),
        lex_lt(b, c),
    ensures
        lex_lt(a, c),
{
    let n1 = choose|n: int| lex_lt_at(a, b, n);
    let n2 = choose|n: int| lex_lt_at(b, c, n);
    let n = if n1 <= n2 { n1 } else { n2 };
    assert(lex_lt_at(a, c, n));
}

/// Of two byte strings at most one sorts before the other, and then they
/// differ.
pub proof fn lemma_lex_asymmetric(a: Seq<u8>, b: Seq<u8>)
    requires
        lex_lt(a, b),
    ensures
        !lex_lt(b, a),
        a != b,
{
    if lex_lt(b, a) {
        lemma_lex_transitive(a, b, a);
    }
}

/// Two byte strings that agree on their first `n` bytes are equal, or one
/// sorts before the other.
proof fn lemma_lex_total_from(a: Seq<u8>, b: Seq<u8>, n: int)
    requires
        agree_upto(a, b, n),
    ensures
        lex_lt(a, b) || a == b || lex_lt(b, a),
    decreases a.len() - n,
{
    if n == a.len() {
        if n == b.len() {
            assert(a =~= b);
        } else {
            assert(lex_lt_at(a, b, n));
        }
    } else if n == b.len() {
        assert(lex_lt_at(b, a, n));
    } else if a[n] == b[n] {
        lemma_lex_total_from(a, b, n + 1);
    } else if a[n] < b[n] {
        assert(lex_lt_at(a, b, n));
    } else {
        assert(lex_lt_at(b, a, n));
    }
}

/// Two byte strings are equal, or one sorts before the other.
pub proof fn lemma_lex_total(a: Seq<u8>, b: Seq<u8>)
    ensures
        lex_lt(a, b) || a == b || lex_lt(b, a),
{
    lemma_lex_total_from(a, b, 0);
}

/// Compares two byte strings lexicographically.
pub fn compare_bytes(a: &[u8], b: &[u8]) -> (o: Order)
    ensures
        o == Order::Less <==> lex_lt(a@, b@),
        o == Order::Equal <==> a@ == b@,
        o == Order::Greater <==> lex_lt(b@, a@),
{
    let mut i: usize = 0;
    while i < a.len() && i < b.len()
        invariant
            agree_upto(a@, b@, i as int),
        decreases a.len() - i,
    {
        if a[i] < b[i] {
            proof {
                assert(lex_lt_at(a@, b@, i as int));
                lemma_lex_asymmetric(a@, b@);
            }
            return Order::Less;
        }
        if a[i] > b[i] {
            proof {
                assert(lex_lt_at(b@, a@, i as int));
                lemma_lex_asymmetric(b@, a@);
            }
            return Order::Greater;
        }
        i += 1;
    }
    if i < b.len() {
        proof {
            assert(lex_lt_at(a@, b@, i as int));
            lemma_lex_asymmetric(a@, b@);
        }
        Order::Less
    } else if i < a.len() {
        proof {
            assert(lex_lt_at(b@, a@, i as int));
            lemma_lex_asymmetric(b@, a@);
        }
        Order::Greater
    } else {
        proof {
            assert(a@ =~= b@);
            lemma_lex_irreflexive(a@);
        }
        Order::Equal
    }
}

/// The identifiers of `q` are strictly increasing.
pub open spec fn ids_rising(q: Seq<u64>) -> bool {
    forall|i: int, j: int| 0 <= i < j < q.len() ==> q[i] < q[j]
}

/// `q` enumerates exactly the members of `s`, in strictly increasing order.
pub open spec fn lists_ids(q: Seq<u64>, s: Set<u64>) -> bool {
    &&& ids_rising(q)
    &&& forall|v: u64| s.contains(v) <==> q.contains(v)
}

/// The members of a finite set of identifiers, smallest first.
pub open spec fn ascending(s: Set<u64>) -> Seq<u64> {
    choose|q: Seq<u64>| lists_ids(q, s)
}

/// There is only one way to enumerate a set in strictly increasing order.
pub proof fn lemma_lists_ids_unique(p: Seq<u64>, q: Seq<u64>, s: Set<u64>)
    requires
        lists_ids(p, s),
        lists_ids(q, s),
    ensures
        p == q,
    decreases p.len(),
{
    if p.len() == 0 {
        if q.len() > 0 {
            assert(q.contains(q[0]));
        }
        assert(p =~= q);
    } else if q.len() == 0 {
        assert(p.contains(p[0]));
    } else {
        let pl = p.last();
        let ql = q.last();
        assert(p.contains(pl));
        assert(q.contains(ql));
        let j = choose|j: int| 0 <= j < q.len() && q[j] == pl;
        let i = choose|i: int| 0 <= i < p.len() && p[i] == ql;
        assert(pl == ql);
        let p_rest = p.drop_last();
        let q_rest = q.drop_last();
        let s_rest = s.remove(pl);
        assert forall|v: u64| s_rest.contains(v) <==> p_rest.contains(v) by {
            if s_rest.contains(v) {
                let k = choose|k: int| 0 <= k < p.len() && p[k] == v;
                assert(p_rest[k] == v);
            }
            if p_rest.contains(v) {
                let k = choose|k: int| 0 <= k < p_rest.len() && p_rest[k] == v;
                assert(p[k] == v);
            }
        }
        assert forall|v: u64| s_rest.contains(v) <==> q_rest.contains(v) by {
            if s_rest.contains(v) {
                let k = choose|k: int| 0 <= k < q.len() && q[k] == v;
                assert(q_rest[k] == v);
            }
            if q_rest.contains(v) {
                let k = choose|k: int| 0 <= k < q_rest.len() && q_rest[k] == v;
                assert(q[k] == v);
            }
        }
        lemma_lists_ids_unique(p_rest, q_rest, s_rest);
        assert(p =~= p_rest.push(pl));
        assert(q =~= q_rest.push(ql));
    }
}

/// Whoever exhibits a strictly increasing enumeration of `s` has exhibited
/// `ascending(s)`.
pub proof fn lemma_ascending_is(q: Seq<u64>, s: Set<u64>)
    requires
        lists_ids(q, s),
    ensures
        ascending(s) == q,
        lists_ids(ascending(s), s),
{
    lemma_lists_ids_unique(ascending(s), q, s);
}

/// The byte strings of `q` are strictly increasing in lexicographic order.
pub open spec fn keys_rising(q: Seq<Seq<u8>>) -> bool {
    forall|i: int, j: int| 0 <= i < j < q.len() ==> lex_lt(q[i], q[j])
}

/// `q` enumerates exactly the members of `s`, in strictly increasing order.
pub open spec fn lists_keys(q: Seq<Seq<u8>>, s: Set<Seq<u8>>) -> bool {
    &&& keys_rising(q)
    &&& forall|k: Seq<u8>| s.contains(k) <==> q.contains(k)
}

/// The members of a finite set of byte strings in lexicographic order.
pub open spec fn ascending_keys(s: Set<Seq<u8>>) -> Seq<Seq<u8>> {
    choose|q: Seq<Seq<u8>>| lists_keys(q, s)
}

/// There is only one way to enumerate a set of byte strings in
/// lexicographic order.
pub proof fn lemma_lists_keys_unique(p: Seq<Seq<u8>>, q: Seq<Seq<u8>>, s: Set<Seq<u8>>)
    requires
        lists_keys(p, s),
        lists_keys(q, s),
    ensures
        p == q,
    decreases p.len(),
{
    if p.len() == 0 {
        if q.len() > 0 {
            assert(q.contains(q[0]));
        }
        assert(p =~= q);
    } else if q.len() == 0 {
        assert(p.contains(p[0]));
    } else {
        let pl = p.last();
        let ql = q.last();
        assert(p.contains(pl));
        assert(q.contains(ql));
        let j = choose|j: int| 0 <= j < q.len() && q[j] == pl;
        let i = choose|i: int| 0 <= i < p.len() && p[i] == ql;
        if pl != ql {
            assert(lex_lt(pl, ql));
            assert(lex_lt(ql, pl));
            lemma_lex_asymmetric(pl, ql);
        }
        let p_rest = p.drop_last();
        let q_rest = q.drop_last();
        let s_rest = s.remove(pl);
        assert forall|v: Seq<u8>| s_rest.contains(v) <==> p_rest.contains(v) by {
            if s_rest.contains(v) {
                let k = choose|k: int| 0 <= k < p.len() && p[k] == v;
                assert(p_rest[k] == v);
            }
            if p_rest.contains(v) {
                let k = choose|k: int| 0 <= k < p_rest.len() && p_rest[k] == v;
                assert(p[k] == v);
                lemma_lex_asymmetric(p[k], pl);
            }
        }
        assert forall|v: Seq<u8>| s_rest.contains(v) <==> q_rest.contains(v) by {
            if s_rest.contains(v) {
                let k = choose|k: int| 0 <= k < q.len() && q[k] == v;
                assert(q_rest[k] == v);
            }
            if q_rest.contains(v) {
                let k = choose|k: int| 0 <= k < q_rest.len() && q_rest[k] == v;
                assert(q[k] == v);
                lemma_lex_asymmetric(q[k], ql);
            }
        }
        lemma_lists_keys_unique(p_rest, q_rest, s_rest);
        assert(p =~= p_rest.push(pl));
        assert(q =~= q_rest.push(ql));
    }
}

/// Whoever exhibits a lexicographically increasing enumeration of `s` has
/// exhibited `ascending_keys(s)`.
pub proof fn lemma_ascending_keys_is(q: Seq<Seq<u8>>, s: Set<Seq<u8>>)
    requires
        lists_keys(q, s),
    ensures
        ascending_keys(s) == q,
        lists_keys(ascending_keys(s), s),
{
    lemma_lists_keys_unique(ascending_keys(s), q, s);
}

/// `k` is one of the first `n` members of `q`.
pub open spec fn key_among(q: Seq<Seq<u8>>, n: int, k: Seq<u8>) -> bool {
    exists|i: int| 0 <= i < n && q[i] == k
}

/// One more member is looked at: `k` is among them if it was before or is
/// the new one.
pub proof fn lemma_key_among_step(q: Seq<Seq<u8>>, n: int, k: Seq<u8>)
    requires
        0 <= n < q.len(),
    ensures
        key_among(q, n + 1, k) <==> key_among(q, n, k) || q[n] == k,
{
    if key_among(q, n + 1, k) {
        let i = choose|i: int| 0 <= i < n + 1 && q[i] == k;
        if i < n {
            assert(0 <= i < n && q[i] == k);
        }
    }
    if key_among(q, n, k) {
        let i = choose|i: int| 0 <= i < n && q[i] == k;
        assert(0 <= i < n + 1 && q[i] == k);
    }
    if q[n] == k {
        assert(0 <= n < n + 1 && q[n] == k);
    }
}

/// In an enumeration of a set, the members of the set are the members of
/// the enumeration.
pub proof fn lemma_key_among_all(q: Seq<Seq<u8>>, s: Set<Seq<u8>>, k: Seq<u8>)
    requires
        lists_keys(q, s),
    ensures
        key_among(q, q.len() as int, k) <==> s.contains(k),
{
    if key_among(q, q.len() as int, k) {
        let i = choose|i: int| 0 <= i < q.len() && q[i] == k;
        assert(q.contains(k));
    }
    if s.contains(k) {
        assert(q.contains(k));
        let i = choose|i: int| 0 <= i < q.len() && q[i] == k;
        assert(0 <= i < q.len() && q[i] == k);
    }
}

/// In a rising sequence no member occurs before its own position.
pub proof fn lemma_key_not_among(q: Seq<Seq<u8>>, n: int)
    requires
        keys_rising(q),
        0 <= n < q.len(),
    ensures
        !key_among(q, n, q[n]),
{
    if key_among(q, n, q[n]) {
        let i = choose|i: int| 0 <= i < n && q[i] == q[n];
        lemma_lex_asymmetric(q[i], q[n]);
    }
}

/// The first `n` members of `q`, as a set.
pub open spec fn first_of(q: Seq<u64>, n: int) -> Set<u64> {
    Set::new(|v: u64| exists|j: int| 0 <= j < n && q[j] == v)
}

/// One more member is looked at: the set grows by it.
pub proof fn lemma_first_of_step(q: Seq<u64>, n: int)
    requires
        0 <= n < q.len(),
    ensures
        first_of(q, n + 1) == first_of(q, n).insert(q[n]),
{
    assert forall|v: u64| first_of(q, n + 1).contains(v) <==> first_of(q, n).insert(q[n]).contains(
        v,
    ) by {
        if first_of(q, n + 1).contains(v) {
            let j = choose|j: int| 0 <= j < n + 1 && q[j] == v;
            if j < n {
                assert(0 <= j < n && q[j] == v);
            }
        }
        if first_of(q, n).contains(v) {
            let j = choose|j: int| 0 <= j < n && q[j] == v;
            assert(0 <= j < n + 1 && q[j] == v);
        }
        if q[n] == v {
            assert(0 <= n < n + 1 && q[n] == v);
        }
    }
    assert(first_of(q, n + 1) =~= first_of(q, n).insert(q[n]));
}

/// All members of a sequence, as a set.
pub open spec fn members(q: Seq<u64>) -> Set<u64> {
    first_of(q, q.len() as int)
}

/// In a rising sequence every member is greater than all before it.
pub proof fn lemma_first_of_below(q: Seq<u64>, n: int)
    requires
        ids_rising(q),
        0 <= n < q.len(),
    ensures
        forall|v: u64| first_of(q, n).contains(v) ==> v < q[n],
        !first_of(q, n).contains(q[n]),
{
    assert forall|v: u64| first_of(q, n).contains(v) implies v < q[n] by {
        let j = choose|j: int| 0 <= j < n && q[j] == v;
        assert(q[j] < q[n]);
    }
}

/// Of no member, the set is empty.
pub proof fn lemma_first_of_none(q: Seq<u64>)
    ensures
        first_of(q, 0) == Set::<u64>::empty(),
{
    assert(first_of(q, 0) =~= Set::<u64>::empty());
}

} // verus!

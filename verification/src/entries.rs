//! The mathematical model of an ordered symbol table.
//!
//! A table is modelled by its in-order sequence of key/value entries. The
//! spec functions here say what each table operation does to that sequence,
//! and the lemmas relate the operations to concatenation, which is how a
//! binary tree presents its in-order sequence: left part, root entry, right
//! part.

use vstd::prelude::*;

use crate::keys::OrdKey;

verus! {

/// The keys of the entries, in order.
pub open spec fn keys_of<K, V>(s: Seq<(K, V)>) -> Seq<K> {
    s.map_values(|e: (K, V)| e.0)
}

/// The entries are strictly ascending by key.
pub open spec fn entries_sorted<K: OrdKey, V>(s: Seq<(K, V)>) -> bool {
    forall|i: int, j: int|
        0 <= i < j < s.len() ==> (#[trigger] s[i]).0.lt((#[trigger] s[j]).0)
}

/// Some entry's key compares as equal to `k`.
pub open spec fn has_key<K: OrdKey, V>(s: Seq<(K, V)>, k: K) -> bool {
    exists|i: int| 0 <= i < s.len() && (#[trigger] s[i]).0.eqv(k)
}

/// `a` comes no later than `b` in the key order.
pub open spec fn key_le<K: OrdKey>(a: K, b: K) -> bool {
    a.lt(b) || a.eqv(b)
}

/// The value stored under `k`, scanning from the front.
pub open spec fn spec_get<K: OrdKey, V>(s: Seq<(K, V)>, k: K) -> Option<V>
    decreases s.len(),
{
    if s.len() == 0 {
        None
    } else if s[0].0.eqv(k) {
        Some(s[0].1)
    } else {
        spec_get(s.drop_first(), k)
    }
}

/// The entries after `k` is bound to `v`: an entry whose key compares as
/// equal keeps its key and takes the new value; otherwise a fresh entry is
/// placed at its sorted position.
pub open spec fn spec_put<K: OrdKey, V>(s: Seq<(K, V)>, k: K, v: V) -> Seq<(K, V)>
    decreases s.len(),
{
    if s.len() == 0 {
        seq![(k, v)]
    } else if k.lt(s[0].0) {
        seq![(k, v)] + s
    } else if k.eqv(s[0].0) {
        seq![(s[0].0, v)] + s.drop_first()
    } else {
        seq![s[0]] + spec_put(s.drop_first(), k, v)
    }
}

/// The entries, with the binding whose key compares as equal to `k`, if
/// any, removed.
pub open spec fn spec_remove<K: OrdKey, V>(s: Seq<(K, V)>, k: K) -> Seq<(K, V)>
    decreases s.len(),
{
    if s.len() == 0 {
        s
    } else if s[0].0.eqv(k) {
        s.drop_first()
    } else {
        seq![s[0]] + spec_remove(s.drop_first(), k)
    }
}

/// How many entries have a key strictly before `k`.
pub open spec fn spec_rank<K: OrdKey, V>(s: Seq<(K, V)>, k: K) -> nat
    decreases s.len(),
{
    if s.len() == 0 {
        0
    } else {
        (if s[0].0.lt(k) {
            1nat
        } else {
            0nat
        }) + spec_rank(s.drop_first(), k)
    }
}

/// The entries whose keys lie between `lo` and `hi`, both inclusive.
pub open spec fn spec_range<K: OrdKey, V>(s: Seq<(K, V)>, lo: K, hi: K) -> Seq<(K, V)>
    decreases s.len(),
{
    if s.len() == 0 {
        s
    } else {
        (if key_le(lo, s[0].0) && key_le(s[0].0, hi) {
            seq![s[0]]
        } else {
            Seq::empty()
        }) + spec_range(s.drop_first(), lo, hi)
    }
}

/// A strict step followed by a non-strict one stays strict.
pub proof fn lemma_lt_le_trans<K: OrdKey>(a: K, b: K, c: K)
    requires
        a.lt(b),
        key_le(b, c),
    ensures
        a.lt(c),
{
    if b.eqv(c) {
        K::lemma_eqv_congruent(b, c, a);
    } else {
        K::lemma_lt_transitive(a, b, c);
    }
}

/// A non-strict step followed by a strict one stays strict.
pub proof fn lemma_le_lt_trans<K: OrdKey>(a: K, b: K, c: K)
    requires
        key_le(a, b),
        b.lt(c),
    ensures
        a.lt(c),
{
    if a.eqv(b) {
        K::lemma_eqv_congruent(a, b, c);
    } else {
        K::lemma_lt_transitive(a, b, c);
    }
}

/// The non-strict order is transitive.
pub proof fn lemma_le_trans<K: OrdKey>(a: K, b: K, c: K)
    requires
        key_le(a, b),
        key_le(b, c),
    ensures
        key_le(a, c),
{
    if a.eqv(b) && b.eqv(c) {
        K::lemma_eqv_congruent(a, b, c);
    } else if a.eqv(b) {
        lemma_le_lt_trans(a, b, c);
    } else {
        lemma_lt_le_trans(a, b, c);
    }
}

/// Taking the keys commutes with concatenation.
pub proof fn lemma_keys_of_add<K, V>(a: Seq<(K, V)>, b: Seq<(K, V)>)
    ensures
        keys_of(a + b) == keys_of(a) + keys_of(b),
{
    assert(keys_of(a + b) =~= keys_of(a) + keys_of(b));
}

/// A put that belongs before `b` happens entirely inside `a`.
pub proof fn lemma_put_prepend<K: OrdKey, V>(a: Seq<(K, V)>, b: Seq<(K, V)>, k: K, v: V)
    requires
        forall|j: int| 0 <= j < b.len() ==> k.lt((#[trigger] b[j]).0),
    ensures
        spec_put(a + b, k, v) == spec_put(a, k, v) + b,
    decreases a.len(),
{
    if a.len() == 0 {
        assert(a + b =~= b);
        if b.len() == 0 {
            assert(spec_put(a + b, k, v) =~= spec_put(a, k, v) + b);
        } else {
            assert(k.lt(b[0].0));
            assert(spec_put(b, k, v) == seq![(k, v)] + b);
            assert(spec_put(a, k, v) + b =~= seq![(k, v)] + b);
        }
    } else {
        assert((a + b)[0] == a[0]);
        K::lemma_trichotomy(k, a[0].0);
        if k.lt(a[0].0) {
            assert(spec_put(a + b, k, v) == seq![(k, v)] + (a + b));
            assert(seq![(k, v)] + (a + b) =~= (seq![(k, v)] + a) + b);
        } else if k.eqv(a[0].0) {
            assert((a + b).drop_first() =~= a.drop_first() + b);
            assert(seq![(a[0].0, v)] + (a.drop_first() + b) =~= (seq![(a[0].0, v)]
                + a.drop_first()) + b);
        } else {
            assert((a + b).drop_first() =~= a.drop_first() + b);
            lemma_put_prepend(a.drop_first(), b, k, v);
            assert(seq![a[0]] + (spec_put(a.drop_first(), k, v) + b) =~= (seq![a[0]] + spec_put(
                a.drop_first(),
                k,
                v,
            )) + b);
        }
    }
}

/// A put that belongs after `a` happens entirely inside `b`.
pub proof fn lemma_put_append<K: OrdKey, V>(a: Seq<(K, V)>, b: Seq<(K, V)>, k: K, v: V)
    requires
        forall|i: int| 0 <= i < a.len() ==> (#[trigger] a[i]).0.lt(k),
    ensures
        spec_put(a + b, k, v) == a + spec_put(b, k, v),
    decreases a.len(),
{
    if a.len() == 0 {
        assert(a + b =~= b);
        assert(a + spec_put(b, k, v) =~= spec_put(b, k, v));
    } else {
        assert((a + b)[0] == a[0]);
        assert(a[0].0.lt(k));
        K::lemma_trichotomy(k, a[0].0);
        assert((a + b).drop_first() =~= a.drop_first() + b);
        lemma_put_append(a.drop_first(), b, k, v);
        assert(seq![a[0]] + (a.drop_first() + spec_put(b, k, v)) =~= a + spec_put(b, k, v));
    }
}

/// A put grows the sequence by one entry exactly when the key is new.
pub proof fn lemma_put_len<K: OrdKey, V>(s: Seq<(K, V)>, k: K, v: V)
    requires
        entries_sorted(s),
    ensures
        has_key(s, k) ==> spec_put(s, k, v).len() == s.len(),
        !has_key(s, k) ==> spec_put(s, k, v).len() == s.len() + 1,
    decreases s.len(),
{
    if s.len() == 0 {
    } else {
        K::lemma_trichotomy(k, s[0].0);
        if k.lt(s[0].0) {
            assert forall|i: int| 0 <= i < s.len() implies !(#[trigger] s[i]).0.eqv(k) by {
                if i > 0 {
                    K::lemma_lt_transitive(k, s[0].0, s[i].0);
                }
                K::lemma_trichotomy(s[i].0, k);
            }
        } else if k.eqv(s[0].0) {
            assert(s[0].0.eqv(k));
        } else {
            lemma_put_len(s.drop_first(), k, v);
            assert forall|i: int| 0 <= i < s.drop_first().len() implies s.drop_first()[i]
                == s[i + 1] by {}
            K::lemma_trichotomy(s[0].0, k);
            if has_key(s, k) {
                let i = choose|i: int| 0 <= i < s.len() && (#[trigger] s[i]).0.eqv(k);
                assert(i > 0);
                assert(s.drop_first()[i - 1].0.eqv(k));
                assert(has_key(s.drop_first(), k));
            }
            if has_key(s.drop_first(), k) {
                let i = choose|i: int|
                    0 <= i < s.drop_first().len() && (#[trigger] s.drop_first()[i]).0.eqv(k);
                assert(s[i + 1].0.eqv(k));
            }
        }
    }
}

/// Every key of a put result is an old key or the new key.
pub proof fn lemma_put_keys_between<K: OrdKey, V>(s: Seq<(K, V)>, k: K, v: V)
    ensures
        forall|j: int|
            0 <= j < spec_put(s, k, v).len() ==> (#[trigger] spec_put(s, k, v)[j]).0 == k
                || exists|i: int| 0 <= i < s.len() && (#[trigger] s[i]).0 == spec_put(s, k, v)[j].0,
    decreases s.len(),
{
    if s.len() == 0 {
    } else if k.lt(s[0].0) {
    } else if k.eqv(s[0].0) {
        assert forall|j: int| 0 <= j < spec_put(s, k, v).len() implies (#[trigger] spec_put(
            s,
            k,
            v,
        )[j]).0 == k || exists|i: int|
            0 <= i < s.len() && (#[trigger] s[i]).0 == spec_put(s, k, v)[j].0 by {
            if j == 0 {
                assert(s[0].0 == spec_put(s, k, v)[0].0);
            } else {
                assert(s[j].0 == spec_put(s, k, v)[j].0);
            }
        }
    } else {
        lemma_put_keys_between(s.drop_first(), k, v);
        let t = spec_put(s.drop_first(), k, v);
        assert forall|j: int| 0 <= j < spec_put(s, k, v).len() implies (#[trigger] spec_put(
            s,
            k,
            v,
        )[j]).0 == k || exists|i: int|
            0 <= i < s.len() && (#[trigger] s[i]).0 == spec_put(s, k, v)[j].0 by {
            if j == 0 {
                assert(s[0].0 == spec_put(s, k, v)[0].0);
            } else {
                assert(spec_put(s, k, v)[j] == t[j - 1]);
                if !(t[j - 1].0 == k) {
                    let i = choose|i: int|
                        0 <= i < s.drop_first().len() && (#[trigger] s.drop_first()[i]).0 == t[j
                            - 1].0;
                    assert(s[i + 1].0 == spec_put(s, k, v)[j].0);
                }
            }
        }
    }
}

/// Dropping the first entry keeps the order.
pub proof fn lemma_sorted_drop_first<K: OrdKey, V>(s: Seq<(K, V)>)
    requires
        entries_sorted(s),
        s.len() > 0,
    ensures
        entries_sorted(s.drop_first()),
{
    assert forall|i: int, j: int|
        0 <= i < j < s.drop_first().len() implies (#[trigger] s.drop_first()[i]).0.lt(
        (#[trigger] s.drop_first()[j]).0,
    ) by {
        assert(s.drop_first()[i] == s[i + 1]);
        assert(s.drop_first()[j] == s[j + 1]);
    }
}

/// A lookup succeeds exactly when the key is bound.
pub proof fn lemma_get_has_key<K: OrdKey, V>(s: Seq<(K, V)>, k: K)
    ensures
        spec_get(s, k) is Some <==> has_key(s, k),
    decreases s.len(),
{
    if s.len() == 0 {
    } else if s[0].0.eqv(k) {
    } else {
        lemma_get_has_key(s.drop_first(), k);
        if has_key(s, k) {
            let i = choose|i: int| 0 <= i < s.len() && (#[trigger] s[i]).0.eqv(k);
            assert(i > 0);
            assert(s.drop_first()[i - 1].0.eqv(k));
        }
        if has_key(s.drop_first(), k) {
            let i = choose|i: int|
                0 <= i < s.drop_first().len() && (#[trigger] s.drop_first()[i]).0.eqv(k);
            assert(s[i + 1].0.eqv(k));
        }
    }
}

/// What a lookup finds after a put: the new value under the put key, the
/// old value under every other key.
pub proof fn lemma_put_get<K: OrdKey, V>(s: Seq<(K, V)>, k: K, v: V, q: K)
    requires
        entries_sorted(s),
    ensures
        q.eqv(k) ==> spec_get(spec_put(s, k, v), q) == Some(v),
        !q.eqv(k) ==> spec_get(spec_put(s, k, v), q) == spec_get(s, q),
    decreases s.len(),
{
    K::lemma_trichotomy(q, k);
    K::lemma_trichotomy(k, q);
    if s.len() == 0 {
        if q.eqv(k) {
            assert(spec_put(s, k, v)[0].0 == k);
            assert(k.eqv(q));
        }
        assert(!q.eqv(k) ==> spec_get(spec_put(s, k, v), q) == spec_get(s, q));
    } else {
        K::lemma_trichotomy(k, s[0].0);
        K::lemma_trichotomy(s[0].0, q);
        if k.lt(s[0].0) {
            let t = seq![(k, v)] + s;
            assert(t[0].0 == k);
            assert(t.drop_first() =~= s);
            if q.eqv(k) {
                assert(k.eqv(q));
            } else {
                assert(!k.eqv(q));
            }
            assert(!q.eqv(k) ==> spec_get(spec_put(s, k, v), q) == spec_get(s, q));
        } else if k.eqv(s[0].0) {
            let t = seq![(s[0].0, v)] + s.drop_first();
            assert(t[0].0 == s[0].0);
            assert(t.drop_first() =~= s.drop_first());
            K::lemma_eqv_congruent(k, s[0].0, q);
            if s[0].0.eqv(q) {
                assert(q.eqv(k)) by {
                    K::lemma_trichotomy(s[0].0, q);
                    K::lemma_eqv_congruent(q, s[0].0, k);
                    K::lemma_trichotomy(k, q);
                }
            } else {
                assert(!q.eqv(k)) by {
                    if q.eqv(k) {
                        K::lemma_eqv_congruent(q, k, s[0].0);
                        K::lemma_trichotomy(q, s[0].0);
                    }
                }
            }
        } else {
            let t = seq![s[0]] + spec_put(s.drop_first(), k, v);
            assert(t[0] == s[0]);
            assert(t.drop_first() =~= spec_put(s.drop_first(), k, v));
            lemma_sorted_drop_first(s);
            lemma_put_get(s.drop_first(), k, v, q);
            if s[0].0.eqv(q) {
                assert(!q.eqv(k)) by {
                    K::lemma_eqv_congruent(s[0].0, q, k);
                    if q.eqv(k) {
                        K::lemma_trichotomy(q, k);
                        K::lemma_trichotomy(s[0].0, k);
                    }
                }
            }
        }
    }
}

/// A lookup whose key is not in `b` is decided by `a`.
pub proof fn lemma_get_prepend<K: OrdKey, V>(a: Seq<(K, V)>, b: Seq<(K, V)>, k: K)
    requires
        forall|j: int| 0 <= j < b.len() ==> !(#[trigger] b[j]).0.eqv(k),
    ensures
        spec_get(a + b, k) == spec_get(a, k),
    decreases a.len(),
{
    if a.len() == 0 {
        assert(a + b =~= b);
        lemma_get_absent(b, k);
    } else {
        assert((a + b)[0] == a[0]);
        if !a[0].0.eqv(k) {
            assert((a + b).drop_first() =~= a.drop_first() + b);
            lemma_get_prepend(a.drop_first(), b, k);
        }
    }
}

/// A lookup whose key is not in `a` is decided by `b`.
pub proof fn lemma_get_append<K: OrdKey, V>(a: Seq<(K, V)>, b: Seq<(K, V)>, k: K)
    requires
        forall|i: int| 0 <= i < a.len() ==> !(#[trigger] a[i]).0.eqv(k),
    ensures
        spec_get(a + b, k) == spec_get(b, k),
    decreases a.len(),
{
    if a.len() == 0 {
        assert(a + b =~= b);
    } else {
        assert((a + b)[0] == a[0]);
        assert((a + b).drop_first() =~= a.drop_first() + b);
        lemma_get_append(a.drop_first(), b, k);
    }
}

/// A lookup misses when no key matches.
pub proof fn lemma_get_absent<K: OrdKey, V>(s: Seq<(K, V)>, k: K)
    requires
        forall|i: int| 0 <= i < s.len() ==> !(#[trigger] s[i]).0.eqv(k),
    ensures
        spec_get(s, k) is None,
    decreases s.len(),
{
    if s.len() > 0 {
        assert forall|i: int|
            0 <= i < s.drop_first().len() implies !(#[trigger] s.drop_first()[i]).0.eqv(k) by {
            assert(s.drop_first()[i] == s[i + 1]);
        }
        lemma_get_absent(s.drop_first(), k);
    }
}

/// A lookup of the key of entry `j` finds that entry's value.
pub proof fn lemma_get_at_key<K: OrdKey, V>(s: Seq<(K, V)>, k: K, j: int)
    requires
        entries_sorted(s),
        0 <= j < s.len(),
        s[j].0.eqv(k),
    ensures
        spec_get(s, k) == Some(s[j].1),
    decreases s.len(),
{
    if j == 0 {
    } else {
        assert(s[0].0.lt(s[j].0));
        K::lemma_eqv_congruent(s[j].0, k, s[0].0);
        K::lemma_trichotomy(s[0].0, k);
        lemma_sorted_drop_first(s);
        assert(s.drop_first()[j - 1] == s[j]);
        lemma_get_at_key(s.drop_first(), k, j - 1);
    }
}

/// A put of a key that is not yet bound keeps every old entry and adds the
/// new one.
pub proof fn lemma_put_fresh_entries<K: OrdKey, V>(s: Seq<(K, V)>, k: K, v: V)
    requires
        forall|i: int| 0 <= i < s.len() ==> !(#[trigger] s[i]).0.eqv(k),
    ensures
        forall|j: int|
            0 <= j < spec_put(s, k, v).len() ==> #[trigger] spec_put(s, k, v)[j] == (k, v)
                || exists|i: int| 0 <= i < s.len() && #[trigger] s[i] == spec_put(s, k, v)[j],
        forall|i: int|
            0 <= i < s.len() ==> exists|j: int|
                0 <= j < spec_put(s, k, v).len() && #[trigger] spec_put(s, k, v)[j] == #[trigger] s[i],
        exists|j: int|
            0 <= j < spec_put(s, k, v).len() && #[trigger] spec_put(s, k, v)[j] == (k, v),
    decreases s.len(),
{
    let t = spec_put(s, k, v);
    if s.len() == 0 {
        assert(t[0] == (k, v));
    } else if k.lt(s[0].0) {
        assert(t[0] == (k, v));
        assert forall|i: int| 0 <= i < s.len() implies exists|j: int|
            0 <= j < t.len() && #[trigger] t[j] == #[trigger] s[i] by {
            assert(t[i + 1] == s[i]);
        }
        assert forall|j: int| 0 <= j < t.len() implies #[trigger] t[j] == (k, v) || exists|i: int|
            0 <= i < s.len() && #[trigger] s[i] == t[j] by {
            if j > 0 {
                assert(s[j - 1] == t[j]);
            }
        }
    } else if k.eqv(s[0].0) {
        K::lemma_trichotomy(k, s[0].0);
        assert(s[0].0.eqv(k));
    } else {
        lemma_put_fresh_entries(s.drop_first(), k, v);
        let u = spec_put(s.drop_first(), k, v);
        assert forall|j: int| 0 <= j < t.len() implies #[trigger] t[j] == (k, v) || exists|i: int|
            0 <= i < s.len() && #[trigger] s[i] == t[j] by {
            if j == 0 {
                assert(s[0] == t[0]);
            } else {
                assert(t[j] == u[j - 1]);
                if t[j] != (k, v) {
                    let i = choose|i: int|
                        0 <= i < s.drop_first().len() && #[trigger] s.drop_first()[i] == u[j - 1];
                    assert(s[i + 1] == t[j]);
                }
            }
        }
        assert forall|i: int| 0 <= i < s.len() implies exists|j: int|
            0 <= j < t.len() && #[trigger] t[j] == #[trigger] s[i] by {
            if i == 0 {
                assert(t[0] == s[0]);
            } else {
                assert(s.drop_first()[i - 1] == s[i]);
                let j = choose|j: int| 0 <= j < u.len() && #[trigger] u[j] == s.drop_first()[i - 1];
                assert(t[j + 1] == s[i]);
            }
        }
        let j = choose|j: int| 0 <= j < u.len() && #[trigger] u[j] == (k, v);
        assert(t[j + 1] == (k, v));
    }
}

/// A put of a key that is already bound rewrites that entry's value in
/// place and leaves every other entry where it was.
pub proof fn lemma_put_existing_entries<K: OrdKey, V>(s: Seq<(K, V)>, k: K, v: V)
    requires
        entries_sorted(s),
        has_key(s, k),
    ensures
        spec_put(s, k, v).len() == s.len(),
        forall|j: int|
            0 <= j < s.len() ==> #[trigger] spec_put(s, k, v)[j] == (if s[j].0.eqv(k) {
                (s[j].0, v)
            } else {
                s[j]
            }),
    decreases s.len(),
{
    let t = spec_put(s, k, v);
    let w = choose|w: int| 0 <= w < s.len() && (#[trigger] s[w]).0.eqv(k);
    K::lemma_trichotomy(k, s[0].0);
    if k.lt(s[0].0) {
        assert(s[w].0.eqv(k));
        if w > 0 {
            assert(s[0].0.lt(s[w].0));
            K::lemma_eqv_congruent(s[w].0, k, s[0].0);
        }
        K::lemma_trichotomy(s[0].0, k);
        K::lemma_trichotomy(s[w].0, k);
        assert(false);
    } else if k.eqv(s[0].0) {
        assert forall|j: int| 0 <= j < s.len() implies #[trigger] t[j] == (if s[j].0.eqv(k) {
            (s[j].0, v)
        } else {
            s[j]
        }) by {
            if j == 0 {
                K::lemma_trichotomy(k, s[0].0);
            } else {
                assert(t[j] == s[j]);
                assert(s[0].0.lt(s[j].0));
                K::lemma_eqv_congruent(k, s[0].0, s[j].0);
                K::lemma_trichotomy(s[j].0, k);
                assert(!s[j].0.eqv(k));
            }
        }
    } else {
        assert(w > 0) by {
            K::lemma_trichotomy(s[0].0, k);
        }
        assert(s.drop_first()[w - 1] == s[w]);
        assert(has_key(s.drop_first(), k));
        lemma_sorted_drop_first(s);
        lemma_put_existing_entries(s.drop_first(), k, v);
        let u = spec_put(s.drop_first(), k, v);
        assert forall|j: int| 0 <= j < s.len() implies #[trigger] t[j] == (if s[j].0.eqv(k) {
            (s[j].0, v)
        } else {
            s[j]
        }) by {
            if j == 0 {
                K::lemma_trichotomy(s[0].0, k);
                assert(!s[0].0.eqv(k));
                assert(t[0] == s[0]);
            } else {
                assert(t[j] == u[j - 1]);
                assert(s.drop_first()[j - 1] == s[j]);
            }
        }
    }
}

/// Ranks add up across concatenation.
pub proof fn lemma_rank_add<K: OrdKey, V>(a: Seq<(K, V)>, b: Seq<(K, V)>, k: K)
    ensures
        spec_rank(a + b, k) == spec_rank(a, k) + spec_rank(b, k),
    decreases a.len(),
{
    if a.len() == 0 {
        assert(a + b =~= b);
    } else {
        assert((a + b)[0] == a[0]);
        assert((a + b).drop_first() =~= a.drop_first() + b);
        lemma_rank_add(a.drop_first(), b, k);
    }
}

/// A rank never exceeds the number of entries.
pub proof fn lemma_rank_le_len<K: OrdKey, V>(s: Seq<(K, V)>, k: K)
    ensures
        spec_rank(s, k) <= s.len(),
    decreases s.len(),
{
    if s.len() > 0 {
        lemma_rank_le_len(s.drop_first(), k);
    }
}

/// Nothing is counted when no key comes before `k`.
pub proof fn lemma_rank_zero<K: OrdKey, V>(s: Seq<(K, V)>, k: K)
    requires
        forall|i: int| 0 <= i < s.len() ==> !(#[trigger] s[i]).0.lt(k),
    ensures
        spec_rank(s, k) == 0,
    decreases s.len(),
{
    if s.len() > 0 {
        assert forall|i: int|
            0 <= i < s.drop_first().len() implies !(#[trigger] s.drop_first()[i]).0.lt(k) by {
            assert(s.drop_first()[i] == s[i + 1]);
        }
        lemma_rank_zero(s.drop_first(), k);
    }
}

/// Everything is counted when every key comes before `k`.
pub proof fn lemma_rank_full<K: OrdKey, V>(s: Seq<(K, V)>, k: K)
    requires
        forall|i: int| 0 <= i < s.len() ==> (#[trigger] s[i]).0.lt(k),
    ensures
        spec_rank(s, k) == s.len(),
    decreases s.len(),
{
    if s.len() > 0 {
        assert forall|i: int|
            0 <= i < s.drop_first().len() implies (#[trigger] s.drop_first()[i]).0.lt(k) by {
            assert(s.drop_first()[i] == s[i + 1]);
        }
        lemma_rank_full(s.drop_first(), k);
    }
}

/// In a sorted sequence, the rank of the key at position `i` is `i`.
pub proof fn lemma_rank_at_index<K: OrdKey, V>(s: Seq<(K, V)>, i: int)
    requires
        entries_sorted(s),
        0 <= i < s.len(),
    ensures
        spec_rank(s, s[i].0) == i,
{
    assert(s =~= s.take(i) + s.skip(i));
    lemma_rank_add(s.take(i), s.skip(i), s[i].0);
    assert forall|j: int| 0 <= j < s.take(i).len() implies (#[trigger] s.take(i)[j]).0.lt(
        s[i].0,
    ) by {
        assert(s.take(i)[j] == s[j]);
    }
    lemma_rank_full(s.take(i), s[i].0);
    assert forall|j: int| 0 <= j < s.skip(i).len() implies !(#[trigger] s.skip(i)[j]).0.lt(
        s[i].0,
    ) by {
        assert(s.skip(i)[j] == s[j + i]);
        if j == 0 {
            K::lemma_trichotomy(s[i].0, s[i].0);
        } else {
            K::lemma_trichotomy(s[i].0, s[j + i].0);
        }
    }
    lemma_rank_zero(s.skip(i), s[i].0);
}

/// Removing an absent key changes nothing.
pub proof fn lemma_remove_absent<K: OrdKey, V>(s: Seq<(K, V)>, k: K)
    requires
        forall|i: int| 0 <= i < s.len() ==> !(#[trigger] s[i]).0.eqv(k),
    ensures
        spec_remove(s, k) == s,
    decreases s.len(),
{
    if s.len() > 0 {
        assert forall|i: int|
            0 <= i < s.drop_first().len() implies !(#[trigger] s.drop_first()[i]).0.eqv(k) by {
            assert(s.drop_first()[i] == s[i + 1]);
        }
        lemma_remove_absent(s.drop_first(), k);
        assert(seq![s[0]] + s.drop_first() =~= s);
    }
}

/// A removal whose key is not in `b` happens entirely inside `a`.
pub proof fn lemma_remove_prepend<K: OrdKey, V>(a: Seq<(K, V)>, b: Seq<(K, V)>, k: K)
    requires
        forall|j: int| 0 <= j < b.len() ==> !(#[trigger] b[j]).0.eqv(k),
    ensures
        spec_remove(a + b, k) == spec_remove(a, k) + b,
    decreases a.len(),
{
    if a.len() == 0 {
        assert(a + b =~= b);
        lemma_remove_absent(b, k);
        assert(spec_remove(a, k) + b =~= b);
    } else {
        assert((a + b)[0] == a[0]);
        assert((a + b).drop_first() =~= a.drop_first() + b);
        if a[0].0.eqv(k) {
        } else {
            lemma_remove_prepend(a.drop_first(), b, k);
            assert(seq![a[0]] + (spec_remove(a.drop_first(), k) + b) =~= (seq![a[0]] + spec_remove(
                a.drop_first(),
                k,
            )) + b);
        }
    }
}

/// A removal whose key is not in `a` happens entirely inside `b`.
pub proof fn lemma_remove_append<K: OrdKey, V>(a: Seq<(K, V)>, b: Seq<(K, V)>, k: K)
    requires
        forall|i: int| 0 <= i < a.len() ==> !(#[trigger] a[i]).0.eqv(k),
    ensures
        spec_remove(a + b, k) == a + spec_remove(b, k),
    decreases a.len(),
{
    if a.len() == 0 {
        assert(a + b =~= b);
        assert(a + spec_remove(b, k) =~= spec_remove(b, k));
    } else {
        assert((a + b)[0] == a[0]);
        assert((a + b).drop_first() =~= a.drop_first() + b);
        lemma_remove_append(a.drop_first(), b, k);
        assert(seq![a[0]] + (a.drop_first() + spec_remove(b, k)) =~= a + spec_remove(b, k));
    }
}

/// A removal never grows the sequence.
pub proof fn lemma_remove_le_len<K: OrdKey, V>(s: Seq<(K, V)>, k: K)
    ensures
        spec_remove(s, k).len() <= s.len(),
    decreases s.len(),
{
    if s.len() > 0 && !s[0].0.eqv(k) {
        lemma_remove_le_len(s.drop_first(), k);
    }
}

/// Every entry left by a removal was an entry before it.
pub proof fn lemma_remove_subset<K: OrdKey, V>(s: Seq<(K, V)>, k: K)
    ensures
        forall|j: int|
            0 <= j < spec_remove(s, k).len() ==> exists|i: int|
                0 <= i < s.len() && s[i] == #[trigger] spec_remove(s, k)[j],
    decreases s.len(),
{
    if s.len() == 0 {
    } else if s[0].0.eqv(k) {
        assert forall|j: int| 0 <= j < spec_remove(s, k).len() implies exists|i: int|
            0 <= i < s.len() && s[i] == #[trigger] spec_remove(s, k)[j] by {
            assert(s[j + 1] == spec_remove(s, k)[j]);
        }
    } else {
        lemma_remove_subset(s.drop_first(), k);
        assert forall|j: int| 0 <= j < spec_remove(s, k).len() implies exists|i: int|
            0 <= i < s.len() && s[i] == #[trigger] spec_remove(s, k)[j] by {
            if j == 0 {
                assert(s[0] == spec_remove(s, k)[0]);
            } else {
                assert(spec_remove(s, k)[j] == spec_remove(s.drop_first(), k)[j - 1]);
                let i = choose|i: int|
                    0 <= i < s.drop_first().len() && s.drop_first()[i] == #[trigger] spec_remove(
                        s.drop_first(),
                        k,
                    )[j - 1];
                assert(s[i + 1] == spec_remove(s, k)[j]);
            }
        }
    }
}

/// A put keeps the entries sorted.
pub proof fn lemma_put_sorted<K: OrdKey, V>(s: Seq<(K, V)>, k: K, v: V)
    requires
        entries_sorted(s),
    ensures
        entries_sorted(spec_put(s, k, v)),
    decreases s.len(),
{
    let t = spec_put(s, k, v);
    if s.len() == 0 {
    } else if k.lt(s[0].0) {
        assert forall|i: int, j: int| 0 <= i < j < t.len() implies (#[trigger] t[i]).0.lt(
            (#[trigger] t[j]).0,
        ) by {
            if i == 0 {
                assert(t[j] == s[j - 1]);
                if j > 1 {
                    K::lemma_lt_transitive(k, s[0].0, s[j - 1].0);
                }
            } else {
                assert(t[i] == s[i - 1]);
                assert(t[j] == s[j - 1]);
            }
        }
    } else if k.eqv(s[0].0) {
        assert forall|i: int, j: int| 0 <= i < j < t.len() implies (#[trigger] t[i]).0.lt(
            (#[trigger] t[j]).0,
        ) by {
            assert(t[i].0 == s[i].0);
            assert(t[j] == s[j]);
        }
    } else {
        lemma_sorted_drop_first(s);
        lemma_put_sorted(s.drop_first(), k, v);
        lemma_put_keys_between(s.drop_first(), k, v);
        let u = spec_put(s.drop_first(), k, v);
        assert forall|i: int, j: int| 0 <= i < j < t.len() implies (#[trigger] t[i]).0.lt(
            (#[trigger] t[j]).0,
        ) by {
            if i == 0 {
                assert(t[0] == s[0]);
                assert(t[j] == u[j - 1]);
                if u[j - 1].0 == k {
                    K::lemma_trichotomy(k, s[0].0);
                } else {
                    let w = choose|w: int|
                        0 <= w < s.drop_first().len() && (#[trigger] s.drop_first()[w]).0 == u[j
                            - 1].0;
                    assert(s.drop_first()[w] == s[w + 1]);
                    assert(s[0].0.lt(s[w + 1].0));
                }
            } else {
                assert(t[i] == u[i - 1]);
                assert(t[j] == u[j - 1]);
            }
        }
    }
}

/// Range selection distributes over concatenation.
pub proof fn lemma_range_add<K: OrdKey, V>(a: Seq<(K, V)>, b: Seq<(K, V)>, lo: K, hi: K)
    ensures
        spec_range(a + b, lo, hi) == spec_range(a, lo, hi) + spec_range(b, lo, hi),
    decreases a.len(),
{
    if a.len() == 0 {
        assert(a + b =~= b);
        assert(spec_range(a, lo, hi) + spec_range(b, lo, hi) =~= spec_range(b, lo, hi));
    } else {
        assert((a + b)[0] == a[0]);
        assert((a + b).drop_first() =~= a.drop_first() + b);
        lemma_range_add(a.drop_first(), b, lo, hi);
        if key_le(lo, a[0].0) && key_le(a[0].0, hi) {
            assert(seq![a[0]] + (spec_range(a.drop_first(), lo, hi) + spec_range(b, lo, hi))
                =~= (seq![a[0]] + spec_range(a.drop_first(), lo, hi)) + spec_range(b, lo, hi));
        } else {
            assert(Seq::<(K, V)>::empty() + (spec_range(a.drop_first(), lo, hi) + spec_range(
                b,
                lo,
                hi,
            )) =~= (Seq::<(K, V)>::empty() + spec_range(a.drop_first(), lo, hi)) + spec_range(
                b,
                lo,
                hi,
            ));
        }
    }
}

/// A range that excludes every key selects nothing.
pub proof fn lemma_range_empty<K: OrdKey, V>(s: Seq<(K, V)>, lo: K, hi: K)
    requires
        forall|i: int|
            0 <= i < s.len() ==> !(key_le(lo, (#[trigger] s[i]).0) && key_le(s[i].0, hi)),
    ensures
        spec_range(s, lo, hi) == Seq::<(K, V)>::empty(),
    decreases s.len(),
{
    if s.len() == 0 {
        assert(s =~= Seq::<(K, V)>::empty());
    } else {
        assert forall|i: int|
            0 <= i < s.drop_first().len() implies !(key_le(
            lo,
            (#[trigger] s.drop_first()[i]).0,
        ) && key_le(s.drop_first()[i].0, hi)) by {
            assert(s.drop_first()[i] == s[i + 1]);
        }
        lemma_range_empty(s.drop_first(), lo, hi);
        assert(Seq::<(K, V)>::empty() + Seq::<(K, V)>::empty() =~= Seq::<(K, V)>::empty());
    }
}

} // verus!

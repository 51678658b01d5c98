//! Keyed entries: a sequence of key and value pairs read as a map, where the
//! first entry under a key is the one that counts and a write replaces it in
//! place.
use vstd::prelude::*;

verus! {

/// The first entry held under `key`.
pub open spec fn lookup<K, V>(entries: Seq<(K, V)>, key: K) -> Option<V>
    decreases entries.len(),
{
    if entries.len() == 0 {
        None
    } else if entries[0].0 == key {
        Some(entries[0].1)
    } else {
        lookup(entries.drop_first(), key)
    }
}

/// `entries` with `key` now holding `value`: the first entry under it
/// replaced, or a new one at the end.
pub open spec fn put<K, V>(entries: Seq<(K, V)>, key: K, value: V) -> Seq<(K, V)>
    decreases entries.len(),
{
    if entries.len() == 0 {
        seq![(key, value)]
    } else if entries[0].0 == key {
        entries.update(0, (key, value))
    } else {
        seq![entries[0]] + put(entries.drop_first(), key, value)
    }
}

/// A put is read back, and leaves every other key alone.
pub proof fn lemma_put<K, V>(entries: Seq<(K, V)>, key: K, value: V, other: K)
    ensures
        lookup(put(entries, key, value), key) == Some(value),
        other != key ==> lookup(put(entries, key, value), other) == lookup(entries, other),
    decreases entries.len(),
{
    if entries.len() > 0 && entries[0].0 != key {
        lemma_put(entries.drop_first(), key, value, other);
        let p = seq![entries[0]] + put(entries.drop_first(), key, value);
        assert(p[0] == entries[0]);
        assert(p.drop_first() =~= put(entries.drop_first(), key, value));
        assert(p.len() > 0);
    }
    if entries.len() > 0 && entries[0].0 == key {
        let p = entries.update(0, (key, value));
        assert(p.len() == entries.len());
        assert(p[0] == (key, value));
        assert(p.drop_first() =~= entries.drop_first());
    }
    if entries.len() == 0 {
        let p = seq![(key, value)];
        assert(p[0] == (key, value));
        assert(p.drop_first() =~= Seq::<(K, V)>::empty());
        assert(lookup(p.drop_first(), other) is None);
    }
}

pub proof fn lemma_first_key<K, V>(s: Seq<(K, V)>, key: K, i: int, v: V)
    requires
        0 <= i < s.len(),
        s[i].0 == key,
        forall|j: int| 0 <= j < i ==> s[j].0 != key,
    ensures
        lookup(s, key) == Some(s[i].1),
        put(s, key, v) == s.update(i, (key, v)),
    decreases i,
{
    if i > 0 {
        lemma_first_key(s.drop_first(), key, i - 1, v);
        assert(seq![s[0]] + s.drop_first().update(i - 1, (key, v)) =~= s.update(i, (key, v)));
    }
}

pub proof fn lemma_no_key<K, V>(s: Seq<(K, V)>, key: K, v: V)
    requires
        forall|j: int| 0 <= j < s.len() ==> s[j].0 != key,
    ensures
        lookup(s, key) is None,
        put(s, key, v) == s.push((key, v)),
    decreases s.len(),
{
    if s.len() > 0 {
        lemma_no_key(s.drop_first(), key, v);
        assert(seq![s[0]] + s.drop_first().push((key, v)) =~= s.push((key, v)));
    }
}

/// Where `key` first stands among `keys`.
pub open spec fn first_key<K, V>(s: Seq<(K, V)>, key: K, r: Option<usize>) -> bool {
    match r {
        Some(i) => i < s.len() && s[i as int].0 == key && forall|j: int| 0 <= j < i ==> s[j].0 != key,
        None => forall|j: int| 0 <= j < s.len() ==> s[j].0 != key,
    }
}

/// `entries` without any entry under `key`.
pub open spec fn drop_key<K, V>(entries: Seq<(K, V)>, key: K) -> Seq<(K, V)>
    decreases entries.len(),
{
    if entries.len() == 0 {
        entries
    } else if entries.last().0 == key {
        drop_key(entries.drop_last(), key)
    } else {
        drop_key(entries.drop_last(), key).push(entries.last())
    }
}

/// The first entry under `key` read from the back: `lookup` spelt the other
/// way round, so it grows with `push`.
pub proof fn lemma_lookup_push<K, V>(entries: Seq<(K, V)>, e: (K, V), key: K)
    ensures
        lookup(entries.push(e), key) == match lookup(entries, key) {
            Some(v) => Some(v),
            None => if e.0 == key { Some(e.1) } else { None },
        },
    decreases entries.len(),
{
    if entries.len() > 0 {
        assert(entries.push(e).drop_first() =~= entries.drop_first().push(e));
        assert(entries.push(e)[0] == entries[0]);
        lemma_lookup_push(entries.drop_first(), e, key);
    } else {
        assert(entries.push(e).drop_first() =~= Seq::<(K, V)>::empty());
        assert(entries.push(e)[0] == e);
        assert(lookup(Seq::<(K, V)>::empty(), key) is None);
    }
}

/// Dropping a key forgets it and leaves every other key alone.
pub proof fn lemma_drop_key<K, V>(entries: Seq<(K, V)>, key: K, other: K)
    ensures
        lookup(drop_key(entries, key), key) is None,
        other != key ==> lookup(drop_key(entries, key), other) == lookup(entries, other),
    decreases entries.len(),
{
    if entries.len() > 0 {
        lemma_drop_key(entries.drop_last(), key, other);
        assert(entries.drop_last().push(entries.last()) =~= entries);
        lemma_lookup_push(entries.drop_last(), entries.last(), key);
        lemma_lookup_push(entries.drop_last(), entries.last(), other);
        if entries.last().0 != key {
            lemma_lookup_push(drop_key(entries.drop_last(), key), entries.last(), key);
            lemma_lookup_push(drop_key(entries.drop_last(), key), entries.last(), other);
        }
    }
}

} // verus!

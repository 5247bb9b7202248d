//! A recency-ordered cache of suggestion lists, keyed by prefix text.
use lru::LruCache;
use std::num::NonZeroUsize;
use vstd::prelude::*;

use crate::text::views;

verus! {

/// The capacity a cache gets when it is asked for capacity zero.
pub const DEFAULT_CACHE_CAPACITY: usize = 10000;

#[verifier::external_type_specification]
#[verifier::external_body]
#[verifier::reject_recursive_types(K)]
#[verifier::reject_recursive_types(V)]
#[verifier::reject_recursive_types(S)]
pub struct ExLruCache<K, V, S>(LruCache<K, V, S>);

/// The entries of an `lru::LruCache`, least recently used first: each key's
/// text with the texts of its value.
pub uninterp spec fn lru_entries(c: LruCache<String, Vec<String>>) -> Seq<(Seq<char>, Seq<Seq<char>>)>;

/// The capacity that an `lru::LruCache` was made with.
pub uninterp spec fn lru_capacity(c: LruCache<String, Vec<String>>) -> nat;

/// An entry list of a cache, least recently used first.
pub type Entries = Seq<(Seq<char>, Seq<Seq<char>>)>;

/// No key occurs twice.
pub open spec fn distinct_keys(e: Entries) -> bool {
    forall|i: int, j: int| 0 <= i < j < e.len() ==> e[i].0 != e[j].0
}

/// The position of the entry with key `k`, or -1 when there is none.
pub open spec fn find_key(e: Entries, k: Seq<char>) -> int
    decreases e.len(),
{
    if e.len() == 0 {
        -1
    } else if e.last().0 == k {
        e.len() - 1
    } else {
        find_key(e.drop_last(), k)
    }
}

/// The value stored under `k`.
pub open spec fn lookup(e: Entries, k: Seq<char>) -> Option<Seq<Seq<char>>> {
    let i = find_key(e, k);
    if i >= 0 {
        Some(e[i].1)
    } else {
        None
    }
}

/// The entries after a read of `k`: a found entry becomes the most recently used.
pub open spec fn after_get(e: Entries, k: Seq<char>) -> Entries {
    let i = find_key(e, k);
    if i >= 0 {
        e.remove(i).push(e[i])
    } else {
        e
    }
}

/// The entries after a write of `v` under `k` into a cache of capacity
/// `cap`: an existing entry for `k` is replaced and becomes the most
/// recently used; a new key into a full cache evicts the least recently used
/// entry.
pub open spec fn after_put(e: Entries, cap: nat, k: Seq<char>, v: Seq<Seq<char>>) -> Entries {
    let i = find_key(e, k);
    if i >= 0 {
        e.remove(i).push((k, v))
    } else if e.len() == cap {
        e.drop_first().push((k, v))
    } else {
        e.push((k, v))
    }
}

/// `find_key` finds exactly the entries with the key.
pub proof fn lemma_find_key(e: Entries, k: Seq<char>)
    ensures
        -1 <= find_key(e, k) < e.len(),
        find_key(e, k) >= 0 ==> e[find_key(e, k)].0 == k,
        find_key(e, k) == -1 <==> (forall|j: int| 0 <= j < e.len() ==> e[j].0 != k),
    decreases e.len(),
{
    if e.len() > 0 {
        lemma_find_key(e.drop_last(), k);
        if e.last().0 != k {
            assert forall|j: int| 0 <= j < e.len() - 1 implies e[j] == e.drop_last()[j] by {}
        }
    }
}

/// A read keeps the keys distinct and the number of entries.
pub proof fn lemma_after_get_wf(e: Entries, k: Seq<char>)
    requires
        distinct_keys(e),
    ensures
        distinct_keys(after_get(e, k)),
        after_get(e, k).len() == e.len(),
{
    let i = find_key(e, k);
    lemma_find_key(e, k);
    if i >= 0 {
        let n = e.remove(i).push(e[i]);
        assert forall|a: int, b: int| 0 <= a < b < n.len() implies n[a].0 != n[b].0 by {
            let a0 = if a < i { a } else { a + 1 };
            assert(n[a] == e[a0]);
            if b < n.len() - 1 {
                let b0 = if b < i { b } else { b + 1 };
                assert(n[b] == e[b0]);
            }
        }
    }
}

/// A write keeps the keys distinct and the entries within the capacity.
pub proof fn lemma_after_put_wf(e: Entries, cap: nat, k: Seq<char>, v: Seq<Seq<char>>)
    requires
        distinct_keys(e),
        e.len() <= cap,
        cap > 0,
    ensures
        distinct_keys(after_put(e, cap, k, v)),
        after_put(e, cap, k, v).len() <= cap,
{
    let i = find_key(e, k);
    lemma_find_key(e, k);
    let n = after_put(e, cap, k, v);
    if i >= 0 {
        assert forall|a: int, b: int| 0 <= a < b < n.len() implies n[a].0 != n[b].0 by {
            let a0 = if a < i { a } else { a + 1 };
            assert(n[a] == e[a0]);
            if b < n.len() - 1 {
                let b0 = if b < i { b } else { b + 1 };
                assert(n[b] == e[b0]);
            }
        }
    } else if e.len() == cap {
        assert forall|a: int, b: int| 0 <= a < b < n.len() implies n[a].0 != n[b].0 by {
            assert(n[a] == e[a + 1]);
            if b < n.len() - 1 {
                assert(n[b] == e[b + 1]);
            }
        }
    } else {
        assert forall|a: int, b: int| 0 <= a < b < n.len() implies n[a].0 != n[b].0 by {
            assert(n[a] == e[a]);
            if b < n.len() - 1 {
                assert(n[b] == e[b]);
            }
        }
    }
}

/// With distinct keys, the value found under `k` is that of the entry with key `k`.
pub proof fn lemma_lookup_at(e: Entries, i: int)
    requires
        distinct_keys(e),
        0 <= i < e.len(),
    ensures
        lookup(e, e[i].0) == Some(e[i].1),
{
    lemma_find_key(e, e[i].0);
}

/// Without an entry for `k`, nothing is found under `k`.
pub proof fn lemma_lookup_absent(e: Entries, k: Seq<char>)
    requires
        forall|j: int| 0 <= j < e.len() ==> e[j].0 != k,
    ensures
        lookup(e, k) is None,
{
    lemma_find_key(e, k);
}

/// Law: a read of `k` right after a write of `v` under `k` gives back `v`.
pub proof fn lemma_get_after_put(e: Entries, cap: nat, k: Seq<char>, v: Seq<Seq<char>>)
    requires
        distinct_keys(e),
        e.len() <= cap,
        cap > 0,
    ensures
        lookup(after_put(e, cap, k, v), k) == Some(v),
{
    lemma_find_key(e, k);
}

/// Law: a write under `k` changes what is found under no other key, except
/// that a new key written into a full cache evicts the least recently used
/// entry.
pub proof fn lemma_put_other_keys(
    e: Entries,
    cap: nat,
    k: Seq<char>,
    v: Seq<Seq<char>>,
    other: Seq<char>,
)
    requires
        distinct_keys(e),
        e.len() <= cap,
        cap > 0,
        other != k,
    ensures
        (find_key(e, k) == -1 && e.len() == cap && e[0].0 == other) ==> lookup(
            after_put(e, cap, k, v),
            other,
        ) is None,
        !(find_key(e, k) == -1 && e.len() == cap && e[0].0 == other) ==> lookup(
            after_put(e, cap, k, v),
            other,
        ) == lookup(e, other),
{
    let i = find_key(e, k);
    lemma_find_key(e, k);
    lemma_find_key(e, other);
    lemma_after_put_wf(e, cap, k, v);
    let n = after_put(e, cap, k, v);
    let j = find_key(e, other);
    // the position in `n` of the old entry at `j`, when it survives
    let shift: int = if i >= 0 {
        if j < i { 0 } else { -1 }
    } else if e.len() == cap {
        -1
    } else {
        0
    };
    if j >= 0 && !(i == -1 && e.len() == cap && j == 0) {
        assert(n[j + shift] == e[j]);
        lemma_lookup_at(n, j + shift);
    } else {
        assert forall|m: int| 0 <= m < n.len() implies n[m].0 != other by {
            if m < n.len() - 1 {
                if i >= 0 {
                    let m0 = if m < i { m } else { m + 1 };
                    assert(n[m] == e[m0]);
                } else if e.len() == cap {
                    assert(n[m] == e[m + 1]);
                    if j == 0 {
                        assert(e[0].0 == other);
                    }
                } else {
                    assert(n[m] == e[m]);
                }
            }
        }
        lemma_lookup_absent(n, other);
    }
}

/// Law: a read changes what is stored under no key; it only reorders entries.
pub proof fn lemma_get_keeps_values(e: Entries, k: Seq<char>, other: Seq<char>)
    requires
        distinct_keys(e),
    ensures
        lookup(after_get(e, k), other) == lookup(e, other),
{
    let i = find_key(e, k);
    lemma_find_key(e, k);
    lemma_find_key(e, other);
    lemma_after_get_wf(e, k);
    let n = after_get(e, k);
    let j = find_key(e, other);
    if i >= 0 {
        if j >= 0 {
            let pos = if j == i { n.len() - 1 } else if j < i { j } else { j - 1 };
            assert(n[pos] == e[j]);
            lemma_lookup_at(n, pos);
        } else {
            assert forall|m: int| 0 <= m < n.len() implies n[m].0 != other by {
                if m < n.len() - 1 {
                    let m0 = if m < i { m } else { m + 1 };
                    assert(n[m] == e[m0]);
                }
            }
            lemma_lookup_absent(n, other);
        }
    }
}

/// `lru::LruCache::new`: an empty cache of capacity `cap`.
#[verifier::external_body]
fn lru_new(cap: usize) -> (c: LruCache<String, Vec<String>>)
    requires
        cap > 0,
    ensures
        lru_entries(c) == Seq::<(Seq<char>, Seq<Seq<char>>)>::empty(),
        lru_capacity(c) == cap,
{
    LruCache::new(NonZeroUsize::new(cap).unwrap())
}

/// `lru::LruCache::get`, with the found value cloned: a found entry becomes
/// the most recently used. It does not unwind: its source holds no panic on a
/// cache whose keys are distinct, and a failed allocation aborts.
#[verifier::external_body]
fn lru_get(c: &mut LruCache<String, Vec<String>>, key: &str) -> (r: Option<Vec<String>>)
    requires
        distinct_keys(lru_entries(*old(c))),
    ensures
        lru_entries(*final(c)) == after_get(lru_entries(*old(c)), key@),
        lru_capacity(*final(c)) == lru_capacity(*old(c)),
        r is Some <==> lookup(lru_entries(*old(c)), key@) is Some,
        r matches Some(v) ==> lookup(lru_entries(*old(c)), key@) == Some(views(v@)),
    no_unwind
{
    c.get(key).cloned()
}

/// `lru::LruCache::put`: writes `value` under `key`, as `after_put` says. It
/// does not unwind: its one `unwrap` removes the entry that the recency list
/// names, which the map holds, and a failed allocation aborts.
#[verifier::external_body]
fn lru_put(c: &mut LruCache<String, Vec<String>>, key: String, value: Vec<String>)
    requires
        distinct_keys(lru_entries(*old(c))),
    ensures
        lru_entries(*final(c)) == after_put(
            lru_entries(*old(c)),
            lru_capacity(*old(c)),
            key@,
            views(value@),
        ),
        lru_capacity(*final(c)) == lru_capacity(*old(c)),
    no_unwind
{
    c.put(key, value);
}

/// `lru::LruCache::clear`: removes every entry. It does not unwind.
#[verifier::external_body]
fn lru_clear(c: &mut LruCache<String, Vec<String>>)
    ensures
        lru_entries(*final(c)) == Seq::<(Seq<char>, Seq<Seq<char>>)>::empty(),
        lru_capacity(*final(c)) == lru_capacity(*old(c)),
    no_unwind
{
    c.clear();
}

/// `lru::LruCache::len`: the number of entries.
#[verifier::external_body]
fn lru_len(c: &LruCache<String, Vec<String>>) -> (n: usize)
    ensures
        n == lru_entries(*c).len(),
{
    c.len()
}

/// `lru::LruCache::is_empty`: whether there are no entries.
#[verifier::external_body]
fn lru_is_empty(c: &LruCache<String, Vec<String>>) -> (b: bool)
    ensures
        b == (lru_entries(*c).len() == 0),
{
    c.is_empty()
}

/// A least-recently-used cache of autocomplete results.
pub struct Cache {
    inner: LruCache<String, Vec<String>>,
}

impl Cache {
    /// The entries, least recently used first.
    pub closed spec fn entries(&self) -> Entries {
        lru_entries(self.inner)
    }

    /// The most entries that the cache holds.
    pub closed spec fn capacity(&self) -> nat {
        lru_capacity(self.inner)
    }

    /// Keys are distinct, and there are at most `capacity` (which is positive) entries.
    #[verifier::type_invariant]
    spec fn wf(&self) -> bool {
        &&& distinct_keys(self.entries())
        &&& self.entries().len() <= self.capacity()
        &&& self.capacity() > 0
    }

    /// An empty cache holding at most `capacity` entries, or
    /// `DEFAULT_CACHE_CAPACITY` when `capacity` is zero.
    pub fn new(capacity: usize) -> (r: Self)
        ensures
            r.entries() == Seq::<(Seq<char>, Seq<Seq<char>>)>::empty(),
            r.capacity() == if capacity == 0 {
                DEFAULT_CACHE_CAPACITY as nat
            } else {
                capacity as nat
            },
    {
        let cap = if capacity == 0 { DEFAULT_CACHE_CAPACITY } else { capacity };
        Self { inner: lru_new(cap) }
    }

    /// The value stored under `key`, which becomes the most recently used entry.
    pub fn get(&mut self, key: &str) -> (r: Option<Vec<String>>)
        ensures
            distinct_keys(final(self).entries()),
            final(self).entries().len() <= final(self).capacity(),
            r is Some <==> lookup(old(self).entries(), key@) is Some,
            r matches Some(v) ==> lookup(old(self).entries(), key@) == Some(views(v@)),
            final(self).entries() == after_get(old(self).entries(), key@),
            final(self).capacity() == old(self).capacity(),
    {
        proof {
            use_type_invariant(&*self);
            lemma_after_get_wf(self.entries(), key@);
        }
        lru_get(&mut self.inner, key)
    }

    /// Stores `value` under `key` as the most recently used entry, evicting
    /// the least recently used entry when a new key meets a full cache.
    pub fn put(&mut self, key: String, value: Vec<String>)
        ensures
            distinct_keys(final(self).entries()),
            final(self).entries().len() <= final(self).capacity(),
            final(self).entries() == after_put(
                old(self).entries(),
                old(self).capacity(),
                key@,
                views(value@),
            ),
            final(self).capacity() == old(self).capacity(),
    {
        proof {
            use_type_invariant(&*self);
            lemma_after_put_wf(self.entries(), self.capacity(), key@, views(value@));
        }
        lru_put(&mut self.inner, key, value);
    }

    /// Removes every entry.
    pub fn clear(&mut self)
        ensures
            final(self).entries() == Seq::<(Seq<char>, Seq<Seq<char>>)>::empty(),
            final(self).capacity() == old(self).capacity(),
    {
        proof {
            use_type_invariant(&*self);
        }
        lru_clear(&mut self.inner);
    }

    /// The number of entries.
    pub fn len(&self) -> (n: usize)
        ensures
            n == self.entries().len(),
            n <= self.capacity(),
    {
        proof {
            use_type_invariant(self);
        }
        lru_len(&self.inner)
    }

    /// Whether the cache holds no entry.
    pub fn is_empty(&self) -> (b: bool)
        ensures
            b == (self.entries().len() == 0),
    {
        lru_is_empty(&self.inner)
    }
}

} // verus!

//! The persistent cache: an association vector from geometry key to cache
//! entry, with unique keys and a deterministic iteration order. Lookups,
//! aging sweeps and purges all go through the index-based view.

use vstd::prelude::*;
use crate::state::{StateItem, StateV};

verus! {

/// One cache slot: a geometry key and its durable entry.
#[derive(Debug)]
pub struct StateEntry {
    pub key: u64,
    pub item: StateItem,
}

impl View for StateEntry {
    type V = (u64, StateV);

    open spec fn view(&self) -> (u64, StateV) {
        (self.key, self.item@)
    }
}

pub open spec fn entries_view(v: Seq<StateEntry>) -> Seq<(u64, StateV)> {
    v.map_values(|e: StateEntry| e@)
}

pub open spec fn keys_distinct(s: Seq<(u64, StateV)>) -> bool {
    forall|i: int, j: int| 0 <= i < j < s.len() ==> s[i].0 != s[j].0
}

/// Index of the first entry with the given key, scanning from `from`.
pub open spec fn find_key_from(s: Seq<(u64, StateV)>, k: u64, from: int) -> Option<int>
    decreases s.len() - from,
{
    if from < 0 || from >= s.len() {
        None
    } else if s[from].0 == k {
        Some(from)
    } else {
        find_key_from(s, k, from + 1)
    }
}

/// Index of the entry with the given key, if any.
pub open spec fn find_key(s: Seq<(u64, StateV)>, k: u64) -> Option<int> {
    find_key_from(s, k, 0)
}

pub open spec fn has_key(s: Seq<(u64, StateV)>, k: u64) -> bool {
    find_key(s, k) is Some
}

/// The entry stored under a key, assuming one exists.
pub open spec fn entry_of(s: Seq<(u64, StateV)>, k: u64) -> StateV {
    s[find_key(s, k).unwrap()].1
}

pub proof fn lemma_find_key_from_bounds(s: Seq<(u64, StateV)>, k: u64, from: int)
    requires
        0 <= from,
    ensures
        match find_key_from(s, k, from) {
            Some(i) => from <= i < s.len() && s[i].0 == k && (forall|j: int|
                from <= j < i ==> s[j].0 != k),
            None => forall|j: int| from <= j < s.len() ==> s[j].0 != k,
        },
    decreases s.len() - from,
{
    if from < s.len() && s[from].0 != k {
        lemma_find_key_from_bounds(s, k, from + 1);
    }
}

/// What `find_key` yields: the unique index holding the key.
pub proof fn lemma_find_key(s: Seq<(u64, StateV)>, k: u64)
    ensures
        match find_key(s, k) {
            Some(i) => 0 <= i < s.len() && s[i].0 == k && (forall|j: int|
                0 <= j < i ==> s[j].0 != k),
            None => forall|j: int| 0 <= j < s.len() ==> s[j].0 != k,
        },
{
    lemma_find_key_from_bounds(s, k, 0);
}

/// Appending entries leaves the result of a successful search unchanged.
pub proof fn lemma_find_key_push(s: Seq<(u64, StateV)>, k: u64, e: (u64, StateV), from: int)
    requires
        0 <= from <= s.len(),
    ensures
        find_key_from(s, k, from) is Some ==> find_key_from(s.push(e), k, from) == find_key_from(
            s,
            k,
            from,
        ),
        find_key_from(s, k, from) is None && e.0 == k ==> find_key_from(s.push(e), k, from)
            == Some(s.len() as int),
        find_key_from(s, k, from) is None && e.0 != k ==> find_key_from(s.push(e), k, from)
            is None,
    decreases s.len() - from,
{
    if from < s.len() {
        assert(s.push(e)[from] == s[from]);
        if s[from].0 != k {
            lemma_find_key_push(s, k, e, from + 1);
        }
    } else {
        assert(s.push(e).len() == s.len() + 1);
        if from == s.len() {
            assert(s.push(e)[from] == e);
            assert(find_key_from(s.push(e), k, from + 1) is None);
        } else {
            assert(from > s.len());
            assert(find_key_from(s.push(e), k, from) is None);
        }
    }
}

/// Updating the entry at an index (keeping its key) moves searches for
/// other keys not at all and keeps this key's search result.
pub proof fn lemma_find_key_update(
    s: Seq<(u64, StateV)>,
    k: u64,
    i: int,
    st: StateV,
    from: int,
)
    requires
        0 <= from,
        0 <= i < s.len(),
    ensures
        find_key_from(s.update(i, (s[i].0, st)), k, from) == find_key_from(s, k, from),
    decreases s.len() - from,
{
    let s2 = s.update(i, (s[i].0, st));
    assert(s2.len() == s.len());
    if from < s.len() {
        assert(s2[from].0 == s[from].0);
        if s[from].0 != k {
            lemma_find_key_update(s, k, i, st, from + 1);
        }
    }
}

/// First index with the given key in an entry vector.
pub fn find_entry(v: &Vec<StateEntry>, k: u64) -> (r: Option<usize>)
    ensures
        match r {
            Some(i) => find_key(entries_view(v@), k) == Some(i as int),
            None => find_key(entries_view(v@), k) is None,
        },
{
    let ghost s = entries_view(v@);
    let mut i: usize = 0;
    while i < v.len()
        invariant
            0 <= i <= v.len(),
            s == entries_view(v@),
            s.len() == v@.len(),
            forall|j: int| 0 <= j < i ==> s[j].0 != k,
            find_key_from(s, k, 0) == find_key_from(s, k, i as int),
        decreases v.len() - i,
    {
        proof {
            assert(s[i as int] == v@[i as int]@);
        }
        if v[i].key == k {
            return Some(i);
        }
        i = i + 1;
    }
    None
}

} // verus!

//! A table of positions that a search has valued before.

use crate::game::Game;
use std::collections::HashMap;
use vstd::prelude::*;

verus! {

/// What the table keeps of a position: its key, the value found and the
/// depth of the search that found it.
pub struct Entry<G: Game> {
    pub key: G::S,
    pub value: i64,
    pub depth: u32,
}

/// The table. Its entries are kept by the digests of their keys, those with
/// the same digest side by side.
pub struct TranspositionTable<G: Game> {
    slots: HashMap<u64, Vec<Entry<G>>>,
    band: u32,
}

/// The value and the depth under the first entry for `k` from place `i` on.
pub open spec fn find<G: Game>(bucket: Seq<Entry<G>>, k: G::S, i: int) -> Option<(i64, u32)>
    decreases bucket.len() - i,
{
    if i < 0 || i >= bucket.len() {
        None
    } else if bucket[i].key == k {
        Some((bucket[i].value, bucket[i].depth))
    } else {
        find(bucket, k, i + 1)
    }
}

/// Whether a value found at depth `have` answers a search of depth `need`:
/// where it was found at least as deep, and, for the depths from 5 to 13,
/// also where it falls short by no more than `band`.
pub open spec fn usable(need: u32, have: u32, band: u32) -> bool {
    need <= have || (need <= have + band && need > 4 && need < 14)
}

proof fn lemma_find_update<G: Game>(bucket: Seq<Entry<G>>, at: int, e: Entry<G>, k: G::S, i: int)
    requires
        0 <= i,
        0 <= at < bucket.len(),
        bucket[at].key == e.key,
        forall|j: int| 0 <= j < at ==> bucket[j].key != e.key,
    ensures
        k != e.key ==> find(bucket.update(at, e), k, i) == find(bucket, k, i),
        k == e.key && i <= at ==> find(bucket.update(at, e), k, i) == Some((e.value, e.depth)),
        k == e.key && i <= at ==> find(bucket, k, i) == Some((bucket[at].value, bucket[at].depth)),
    decreases bucket.len() - i,
{
    if i < bucket.len() {
        lemma_find_update(bucket, at, e, k, i + 1);
    }
}

proof fn lemma_find_push<G: Game>(bucket: Seq<Entry<G>>, e: Entry<G>, k: G::S, i: int)
    requires
        0 <= i,
        forall|j: int| 0 <= j < bucket.len() ==> bucket[j].key != e.key,
    ensures
        k != e.key ==> find(bucket.push(e), k, i) == find(bucket, k, i),
        k == e.key && i <= bucket.len() ==> find(bucket.push(e), k, i) == Some(
            (e.value, e.depth),
        ),
        k == e.key ==> find(bucket, k, i) is None,
    decreases bucket.len() + 1 - i,
{
    if i < bucket.len() {
        lemma_find_push(bucket, e, k, i + 1);
    } else if i == bucket.len() {
        assert(find(bucket.push(e), k, i + 1) is None);
    }
}

impl<G: Game> TranspositionTable<G> {
    /// What the table holds for the key `k`: the value and the depth.
    pub closed spec fn entry(&self, k: G::S) -> Option<(i64, u32)> {
        let h = G::digest(k);
        if self.slots@.contains_key(h) {
            find(self.slots@[h]@, k, 0)
        } else {
            None
        }
    }

    /// By how much a stored depth may fall short of the depth asked for.
    pub closed spec fn tolerance(&self) -> u32 {
        self.band
    }

    /// All that the table holds, by key.
    pub open spec fn book(&self) -> Map<G::S, (i64, u32)> {
        Map::new(|k: G::S| self.entry(k) is Some, |k: G::S| self.entry(k).unwrap())
    }

    /// Whether the table holds nothing.
    pub open spec fn is_empty(&self) -> bool {
        forall|k: G::S| self.entry(k) is None
    }

    /// An empty table with the tolerance `band`.
    pub fn new(band: u32) -> (t: Self)
        ensures
            t.is_empty(),
            t.tolerance() == band,
    {
        TranspositionTable { slots: HashMap::new(), band }
    }

    /// By how much a stored depth may fall short of the depth asked for.
    pub fn band(&self) -> (r: u32)
        ensures
            r == self.tolerance(),
    {
        self.band
    }

    /// What the table holds for the key `k`.
    pub fn peek(&self, k: &G::S) -> (r: Option<(i64, u32)>)
        ensures
            r == self.entry(*k),
    {
        let h = G::key_digest(k);
        match self.slots.get(&h) {
            None => None,
            Some(bucket) => {
                let mut i: usize = 0;
                while i < bucket.len()
                    invariant
                        i <= bucket.len(),
                        self.entry(*k) == find(bucket@, *k, 0),
                        find(bucket@, *k, i as int) == find(bucket@, *k, 0),
                    decreases bucket.len() - i,
                {
                    if G::same_key(&bucket[i].key, k) {
                        assert(find(bucket@, *k, i as int) == Some(
                            (bucket@[i as int].value, bucket@[i as int].depth),
                        ));
                        return Some((bucket[i].value, bucket[i].depth));
                    }
                    i += 1;
                }
                None
            },
        }
    }

    /// The value that the table holds for the key `k`, if it was found deep
    /// enough to answer a search of `depth` plies.
    pub fn lookup(&self, k: &G::S, depth: u32) -> (r: Option<i64>)
        ensures
            r == (match self.entry(*k) {
                Some((v, d)) => if usable(depth, d, self.tolerance()) {
                    Some(v)
                } else {
                    None
                },
                None => None,
            }),
    {
        match self.peek(k) {
            Some((v, d)) => {
                if depth <= d || (depth as u64 <= d as u64 + self.band as u64 && depth > 4 && depth
                    < 14) {
                    Some(v)
                } else {
                    None
                }
            },
            None => None,
        }
    }

    /// Stores a value for the key `k`, unless the table holds one that was
    /// found deeper. Nothing else changes.
    pub fn store(&mut self, k: G::S, value: i64, depth: u32)
        ensures
            final(self).tolerance() == old(self).tolerance(),
            final(self).entry(k) == (match old(self).entry(k) {
                Some((v0, d0)) => if depth >= d0 {
                    Some((value, depth))
                } else {
                    Some((v0, d0))
                },
                None => Some((value, depth)),
            }),
            forall|k2: G::S| k2 != k ==> final(self).entry(k2) == old(self).entry(k2),
    {
        let h = G::key_digest(&k);
        let mut bucket: Vec<Entry<G>> = match self.slots.remove(&h) {
            Some(b) => b,
            None => Vec::new(),
        };
        let ghost b0 = bucket@;
        let ghost e = Entry::<G> { key: k, value, depth };
        assert(old(self).entry(k) == find(b0, k, 0));
        let mut i: usize = 0;
        let mut found = false;
        while i < bucket.len() && !found
            invariant
                i <= bucket.len(),
                bucket@ == b0,
                forall|j: int| 0 <= j < i - (if found { 1int } else { 0int }) ==> b0[j].key != k,
                found ==> i > 0 && b0[i - 1].key == k,
            decreases bucket.len() - i,
        {
            if G::same_key(&bucket[i].key, &k) {
                found = true;
            }
            i += 1;
        }
        if found {
            let at = i - 1;
            proof {
                lemma_find_update(b0, at as int, e, k, 0);
            }
            if depth >= bucket[at].depth {
                bucket.set(at, Entry { key: k, value, depth });
                proof {
                    assert forall|k2: G::S| k2 != k implies find(bucket@, k2, 0) == find(
                        b0,
                        k2,
                        0,
                    ) by {
                        lemma_find_update(b0, at as int, e, k2, 0);
                    }
                }
            }
        } else {
            bucket.push(Entry { key: k, value, depth });
            proof {
                lemma_find_push(b0, e, k, 0);
                assert forall|k2: G::S| k2 != k implies find(bucket@, k2, 0) == find(b0, k2, 0) by {
                    lemma_find_push(b0, e, k2, 0);
                }
            }
        }
        let ghost b1 = bucket@;
        self.slots.insert(h, bucket);
        proof {
            assert forall|k2: G::S| k2 != k implies self.entry(k2) == old(self).entry(k2) by {
                if G::digest(k2) == h {
                    assert(find(b1, k2, 0) == find(b0, k2, 0));
                }
            }
        }
    }
}

} // verus!

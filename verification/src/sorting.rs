//! Ordering a list by keys.

use vstd::prelude::*;
use vstd::seq_lib::to_multiset_insert;

verus! {

/// Whether the keys of `s` never fall from left to right.
pub open spec fn ascending<T>(s: Seq<(i64, T)>) -> bool {
    forall|i: int, j: int| 0 <= i <= j < s.len() ==> s[i].0 <= s[j].0
}

/// The items of a keyed list, without their keys.
pub open spec fn items<T>(s: Seq<(i64, T)>) -> Seq<T> {
    s.map_values(|p: (i64, T)| p.1)
}

/// The place from `i` on at which an item with the key `key` goes into the
/// ordered list `s`: behind every item whose key does not exceed it.
pub open spec fn place<T>(s: Seq<(i64, T)>, key: i64, i: int) -> int
    decreases s.len() - i,
{
    if i < 0 || i >= s.len() {
        s.len() as int
    } else if s[i].0 > key {
        i
    } else {
        place(s, key, i + 1)
    }
}

/// The first `n` items of `s` in ascending order of their keys, items with
/// equal keys in the order in which they stand in `s`.
pub open spec fn sorted<T>(s: Seq<(i64, T)>, n: nat) -> Seq<(i64, T)>
    decreases n,
{
    if n == 0 || n > s.len() {
        Seq::empty()
    } else {
        let r = sorted(s, (n - 1) as nat);
        r.insert(place(r, s[n - 1].0, 0), s[n - 1])
    }
}

proof fn lemma_place<T>(s: Seq<(i64, T)>, key: i64, i: int)
    requires
        0 <= i <= s.len(),
    ensures
        i <= place(s, key, i) <= s.len(),
        forall|j: int| i <= j < place(s, key, i) ==> s[j].0 <= key,
        place(s, key, i) < s.len() ==> s[place(s, key, i)].0 > key,
    decreases s.len() - i,
{
    if i < s.len() && s[i].0 <= key {
        lemma_place(s, key, i + 1);
    }
}

/// The ordered list holds the items that were put in order, each as often
/// as it stood there, and its keys never fall.
pub proof fn lemma_sorted<T>(s: Seq<(i64, T)>, n: nat)
    requires
        n <= s.len(),
    ensures
        sorted(s, n).len() == n,
        sorted(s, n).to_multiset() == s.subrange(0, n as int).to_multiset(),
        items(sorted(s, n)).to_multiset() == items(s.subrange(0, n as int)).to_multiset(),
        ascending(sorted(s, n)),
    decreases n,
{
    if n == 0 {
        assert(s.subrange(0, 0) =~= Seq::empty());
        assert(items(Seq::<(i64, T)>::empty()) =~= Seq::empty());
    } else {
        let r = sorted(s, (n - 1) as nat);
        let x = s[n - 1];
        let j = place(r, x.0, 0);
        lemma_sorted(s, (n - 1) as nat);
        lemma_place(r, x.0, 0);
        let out = r.insert(j, x);
        let pre = s.subrange(0, n - 1);
        to_multiset_insert(r, j, x);
        assert(s.subrange(0, n as int) =~= pre.push(x));
        pre.to_multiset_ensures();
        assert(items(out) =~= items(r).insert(j, x.1));
        to_multiset_insert(items(r), j, x.1);
        assert(items(pre.push(x)) =~= items(pre).push(x.1));
        items(pre).to_multiset_ensures();
        assert forall|a: int, b: int| 0 <= a <= b < out.len() implies out[a].0 <= out[b].0 by {
            let a0 = if a < j {
                a
            } else {
                a - 1
            };
            let b0 = if b < j {
                b
            } else {
                b - 1
            };
            if a != j && b != j {
                assert(r[a0].0 <= r[b0].0);
            } else if a == j && b != j {
                assert(r[j].0 <= r[b0].0);
            }
        }
    }
}

/// A list whose keys are all the same stays as it is.
pub proof fn lemma_sorted_level<T>(s: Seq<(i64, T)>, n: nat)
    requires
        n <= s.len(),
        forall|i: int, j: int| 0 <= i < s.len() && 0 <= j < s.len() ==> s[i].0 == s[j].0,
    ensures
        sorted(s, n) == s.subrange(0, n as int),
    decreases n,
{
    if n == 0 {
        assert(s.subrange(0, 0) =~= Seq::empty());
    } else {
        let r = sorted(s, (n - 1) as nat);
        lemma_sorted_level(s, (n - 1) as nat);
        lemma_place(r, s[n - 1].0, 0);
        let j = place(r, s[n - 1].0, 0);
        if j < r.len() {
            assert(r[j] == s[j]);
        }
        assert(r.insert(j, s[n - 1]) =~= s.subrange(0, n as int));
    }
}

/// The list `s` with the key of each item in front of it.
pub open spec fn keyed<T>(s: Seq<T>, key: spec_fn(T) -> int) -> Seq<(i64, T)> {
    Seq::new(s.len(), |i: int| (key(s[i]) as i64, s[i]))
}

/// The list `s` in ascending order of the keys of its items, items with
/// equal keys in the order in which they stand in `s`.
pub open spec fn sorted_by<T>(s: Seq<T>, key: spec_fn(T) -> int) -> Seq<T> {
    items(sorted(keyed(s, key), s.len()))
}

/// The ordered list holds the items of the list that was put in order, each
/// as often as it stood there.
pub proof fn lemma_sorted_by<T>(s: Seq<T>, key: spec_fn(T) -> int)
    ensures
        sorted_by(s, key).to_multiset() == s.to_multiset(),
        sorted_by(s, key).len() == s.len(),
{
    let k = keyed(s, key);
    lemma_sorted(k, s.len());
    assert(k.subrange(0, s.len() as int) =~= k);
    assert(items(k) =~= s);
}

/// A list whose items all have the same key stays as it is.
pub proof fn lemma_sorted_by_level<T>(s: Seq<T>, key: spec_fn(T) -> int)
    requires
        forall|i: int, j: int| 0 <= i < s.len() && 0 <= j < s.len() ==> key(s[i]) == key(s[j]),
    ensures
        sorted_by(s, key) == s,
{
    let k = keyed(s, key);
    lemma_sorted_level(k, s.len());
    assert(k.subrange(0, s.len() as int) =~= k);
    assert(items(k) =~= s);
}

/// Each item of an ordered list still stands behind its own key.
pub proof fn lemma_keys<T>(k: Seq<(i64, T)>, r: Seq<(i64, T)>, key: spec_fn(T) -> int)
    requires
        r.to_multiset() == k.to_multiset(),
        forall|i: int| 0 <= i < k.len() ==> (#[trigger] k[i]).0 == key(k[i].1) as i64,
    ensures
        forall|i: int| 0 <= i < r.len() ==> (#[trigger] r[i]).0 == key(r[i].1) as i64,
{
    r.to_multiset_ensures();
    k.to_multiset_ensures();
    assert forall|i: int| 0 <= i < r.len() implies (#[trigger] r[i]).0 == key(r[i].1) as i64 by {
        assert(r.contains(r[i]));
        assert(r.to_multiset().count(r[i]) > 0);
        assert(k.contains(r[i]));
        let l = choose|l: int| 0 <= l < k.len() && k[l] == r[i];
        assert(k[l].0 == key(k[l].1) as i64);
    }
}

/// Puts a keyed list in ascending order of its keys. Items with equal keys
/// keep their order.
pub fn sort_by_key<T>(v: Vec<(i64, T)>) -> (r: Vec<(i64, T)>)
    ensures
        r@ == sorted(v@, v@.len()),
        r@.to_multiset() == v@.to_multiset(),
        items(r@).to_multiset() == items(v@).to_multiset(),
        r@.len() == v@.len(),
        ascending(r@),
{
    let mut src = v;
    let mut out: Vec<(i64, T)> = Vec::new();
    let ghost all = src@;
    let ghost mut k: nat = 0;
    assert(src@ =~= all.subrange(0, all.len() as int));
    while src.len() > 0
        invariant
            k <= all.len(),
            src@ == all.subrange(k as int, all.len() as int),
            out@ == sorted(all, k),
        decreases src.len(),
    {
        let ghost o0 = out@;
        let x = src.remove(0);
        assert(x == all[k as int]);
        let mut j: usize = 0;
        proof {
            lemma_sorted(all, k);
        }
        while j < out.len() && out[j].0 <= x.0
            invariant
                j <= out.len(),
                out@ == o0,
                place(o0, x.0, j as int) == place(o0, x.0, 0),
            decreases out.len() - j,
        {
            j += 1;
        }
        out.insert(j, x);
        proof {
            assert(src@ =~= all.subrange(k as int + 1, all.len() as int));
            k = k + 1;
        }
    }
    proof {
        lemma_sorted(all, all.len());
        assert(all.subrange(0, all.len() as int) =~= all);
    }
    out
}

} // verus!

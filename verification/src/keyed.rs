//! Sequences whose elements carry an integer key: lookup, stable sorting and the
//! canonical (strictly increasing) form that the cluster documents are kept in.

use vstd::prelude::*;

verus! {

/// The abstract values of a sequence of concrete ones.
pub open spec fn views<T: View>(s: Seq<T>) -> Seq<T::V> {
    s.map_values(|t: T| t.view())
}

/// A value that a document orders and looks up by an integer key.
pub trait Keyed: View + Sized {
    /// The key of an abstract value.
    spec fn key_of(v: Self::V) -> u64;

    fn key(&self) -> (k: u64)
        ensures
            k == Self::key_of(self.view()),
    ;
}

/// A number is its own key.
impl Keyed for u32 {
    open spec fn key_of(v: u32) -> u64 {
        v as u64
    }

    fn key(&self) -> (k: u64) {
        *self as u64
    }
}

/// `i` is the first index whose element has key `k`.
pub open spec fn first_key_at<T: Keyed>(s: Seq<T::V>, k: u64, i: int) -> bool {
    &&& 0 <= i < s.len()
    &&& T::key_of(s[i]) == k
    &&& forall|j: int| 0 <= j < i ==> T::key_of(#[trigger] s[j]) != k
}

/// Whether some element has key `k`.
pub open spec fn has_key<T: Keyed>(s: Seq<T::V>, k: u64) -> bool {
    exists|i: int| 0 <= i < s.len() && T::key_of(#[trigger] s[i]) == k
}

/// The index of the first element with key `k`.
pub open spec fn key_index<T: Keyed>(s: Seq<T::V>, k: u64) -> Option<int> {
    if exists|i: int| first_key_at::<T>(s, k, i) {
        Some(choose|i: int| first_key_at::<T>(s, k, i))
    } else {
        None
    }
}

/// The first element with key `k`.
pub open spec fn first_with_key<T: Keyed>(s: Seq<T::V>, k: u64) -> Option<T::V> {
    match key_index::<T>(s, k) {
        Some(i) => Some(s[i]),
        None => None,
    }
}

/// The elements whose key is not `k`, in order.
pub open spec fn without_key<T: Keyed>(s: Seq<T::V>, k: u64) -> Seq<T::V>
    decreases s.len(),
{
    if s.len() == 0 {
        s
    } else {
        let rest = without_key::<T>(s.drop_last(), k);
        if T::key_of(s.last()) == k {
            rest
        } else {
            rest.push(s.last())
        }
    }
}

/// The elements whose key is below `bound`, in order.
pub open spec fn keys_below<T: Keyed>(s: Seq<T::V>, bound: u64) -> Seq<T::V>
    decreases s.len(),
{
    if s.len() == 0 {
        s
    } else {
        let rest = keys_below::<T>(s.drop_last(), bound);
        if T::key_of(s.last()) < bound {
            rest.push(s.last())
        } else {
            rest
        }
    }
}

/// `v` placed behind the last element that does not have a greater key.
pub open spec fn place<T: Keyed>(s: Seq<T::V>, v: T::V) -> Seq<T::V>
    decreases s.len(),
{
    if s.len() == 0 || T::key_of(s.last()) <= T::key_of(v) {
        s.push(v)
    } else {
        place::<T>(s.drop_last(), v).push(s.last())
    }
}

/// The stable sort of `s` by key.
pub open spec fn sorted_by_key<T: Keyed>(s: Seq<T::V>) -> Seq<T::V>
    decreases s.len(),
{
    if s.len() == 0 {
        s
    } else {
        place::<T>(sorted_by_key::<T>(s.drop_last()), s.last())
    }
}

/// Keys strictly increase: sorted, and no key twice.
pub open spec fn canonical<T: Keyed>(s: Seq<T::V>) -> bool {
    forall|i: int, j: int|
        0 <= i < j < s.len() ==> T::key_of(#[trigger] s[i]) < T::key_of(#[trigger] s[j])
}

/// The element at an index is what is found by its key, where no element before it has the key.
pub proof fn lemma_first_with_key<T: Keyed>(s: Seq<T::V>, k: u64, i: int)
    requires
        first_key_at::<T>(s, k, i),
    ensures
        key_index::<T>(s, k) == Some(i),
        first_with_key::<T>(s, k) == Some(s[i]),
        has_key::<T>(s, k),
{
    let c = choose|c: int| first_key_at::<T>(s, k, c);
    assert(first_key_at::<T>(s, k, c));
    assert(c == i) by {
        if c < i {
            assert(T::key_of(s[c]) != k);
        } else if i < c {
            assert(T::key_of(s[i]) != k);
        }
    }
}

/// Without the key there is no first element that has it.
pub proof fn lemma_first_with_key_none<T: Keyed>(s: Seq<T::V>, k: u64)
    requires
        !has_key::<T>(s, k),
    ensures
        key_index::<T>(s, k) is None,
        first_with_key::<T>(s, k) is None,
{
    if exists|i: int| first_key_at::<T>(s, k, i) {
        let i = choose|i: int| first_key_at::<T>(s, k, i);
        assert(T::key_of(s[i]) == k);
    }
}

/// The index of the first element with key `k`.
pub fn find_key<T: Keyed>(v: &Vec<T>, k: u64) -> (found: Option<usize>)
    ensures
        match found {
            Some(i) => {
                &&& first_key_at::<T>(views(v@), k, i as int)
                &&& key_index::<T>(views(v@), k) == Some(i as int)
                &&& first_with_key::<T>(views(v@), k) == Some(v@[i as int]@)
            },
            None => {
                &&& !has_key::<T>(views(v@), k)
                &&& key_index::<T>(views(v@), k) is None
                &&& first_with_key::<T>(views(v@), k) is None
            },
        },
{
    let mut i: usize = 0;
    while i < v.len()
        invariant
            i <= v.len(),
            forall|j: int| 0 <= j < i ==> T::key_of(#[trigger] views(v@)[j]) != k,
        decreases v.len() - i,
    {
        if v[i].key() == k {
            proof {
                lemma_first_with_key::<T>(views(v@), k, i as int);
            }
            return Some(i);
        }
        i = i + 1;
    }
    proof {
        lemma_first_with_key_none::<T>(views(v@), k);
    }
    None
}

/// Removes every element with key `k`, keeping the order of the others.
pub fn drop_key<T: Keyed>(v: Vec<T>, k: u64) -> (kept: Vec<T>)
    ensures
        views(kept@) == without_key::<T>(views(v@), k),
{
    let mut kept: Vec<T> = Vec::new();
    let ghost all = views(v@);
    assert(views(kept@) =~= without_key::<T>(all.take(0), k));
    for x in it: v
        invariant
            all == views(it.seq()),
            views(kept@) == without_key::<T>(all.take(it.index()), k),
    {
        let ghost n = it.index();
        let ghost before = kept@;
        assert(all.take(n + 1).drop_last() =~= all.take(n));
        assert(all.take(n + 1).last() == x@);
        if x.key() != k {
            kept.push(x);
            assert(views(kept@) =~= views(before).push(x@));
        }
    }
    assert(all.take(all.len() as int) =~= all);
    kept
}

/// Keeps the elements with a key below `bound`, in order.
pub fn keep_below<T: Keyed>(v: Vec<T>, bound: u64) -> (kept: Vec<T>)
    ensures
        views(kept@) == keys_below::<T>(views(v@), bound),
{
    let mut kept: Vec<T> = Vec::new();
    let ghost all = views(v@);
    assert(views(kept@) =~= keys_below::<T>(all.take(0), bound));
    for x in it: v
        invariant
            all == views(it.seq()),
            views(kept@) == keys_below::<T>(all.take(it.index()), bound),
    {
        let ghost n = it.index();
        let ghost before = kept@;
        assert(all.take(n + 1).drop_last() =~= all.take(n));
        assert(all.take(n + 1).last() == x@);
        if x.key() < bound {
            kept.push(x);
            assert(views(kept@) =~= views(before).push(x@));
        }
    }
    assert(all.take(all.len() as int) =~= all);
    kept
}

proof fn lemma_place_at<T: Keyed>(s: Seq<T::V>, v: T::V, at: int)
    requires
        0 <= at <= s.len(),
        at > 0 ==> T::key_of(s[at - 1]) <= T::key_of(v),
        forall|j: int| at <= j < s.len() ==> T::key_of(#[trigger] s[j]) > T::key_of(v),
    ensures
        place::<T>(s, v) == s.insert(at, v),
    decreases s.len(),
{
    if at == s.len() {
        assert(s.insert(at, v) =~= s.push(v));
    } else {
        assert(T::key_of(s[s.len() - 1]) > T::key_of(v));
        lemma_place_at::<T>(s.drop_last(), v, at);
        assert(s.insert(at, v) =~= s.drop_last().insert(at, v).push(s.last()));
    }
}

/// Places `x` behind the last element that does not have a greater key.
pub fn insert_by_key<T: Keyed>(v: &mut Vec<T>, x: T)
    ensures
        views(final(v)@) == place::<T>(views(old(v)@), x@),
{
    let k: u64 = x.key();
    let mut at: usize = v.len();
    while at > 0 && v[at - 1].key() > k
        invariant
            at <= v.len(),
            v@ == old(v)@,
            k == T::key_of(x@),
            forall|j: int| at <= j < v.len() ==> T::key_of(#[trigger] views(v@)[j]) > k,
        decreases at,
    {
        at = at - 1;
        assert(views(v@)[at as int] == v@[at as int]@);
    }
    proof {
        if at > 0 {
            assert(views(v@)[at - 1] == v@[at - 1]@);
        }
        lemma_place_at::<T>(views(v@), x@, at as int);
        assert(views(v@.insert(at as int, x)) =~= views(v@).insert(at as int, x@));
    }
    v.insert(at, x);
}

/// Sorts by key; elements with equal keys keep their order.
pub fn sort_by_key<T: Keyed>(v: Vec<T>) -> (out: Vec<T>)
    ensures
        views(out@) == sorted_by_key::<T>(views(v@)),
{
    let mut out: Vec<T> = Vec::new();
    let ghost all = views(v@);
    assert(views(out@) =~= sorted_by_key::<T>(all.take(0)));
    for x in it: v
        invariant
            all == views(it.seq()),
            views(out@) == sorted_by_key::<T>(all.take(it.index())),
    {
        let ghost n = it.index();
        assert(all.take(n + 1).drop_last() =~= all.take(n));
        assert(all.take(n + 1).last() == x@);
        insert_by_key(&mut out, x);
    }
    assert(all.take(all.len() as int) =~= all);
    out
}

/// Keys do not decrease.
pub open spec fn keys_ordered<T: Keyed>(s: Seq<T::V>) -> bool {
    forall|i: int, j: int|
        0 <= i < j < s.len() ==> T::key_of(#[trigger] s[i]) <= T::key_of(#[trigger] s[j])
}

proof fn lemma_place_ordered<T: Keyed>(s: Seq<T::V>, v: T::V)
    requires
        keys_ordered::<T>(s),
    ensures
        keys_ordered::<T>(place::<T>(s, v)),
    decreases s.len(),
{
    if s.len() == 0 || T::key_of(s.last()) <= T::key_of(v) {
        let r = s.push(v);
        assert forall|i: int, j: int| 0 <= i < j < r.len() implies T::key_of(#[trigger] r[i])
            <= T::key_of(#[trigger] r[j]) by {
            if j == s.len() && i < s.len() - 1 {
                assert(T::key_of(s[i]) <= T::key_of(s[s.len() - 1]));
            }
        }
    } else {
        let d = s.drop_last();
        assert(keys_ordered::<T>(d));
        lemma_place_ordered::<T>(d, v);
        lemma_place_contains::<T>(d, v);
        let p = place::<T>(d, v);
        let r = p.push(s.last());
        assert forall|i: int, j: int| 0 <= i < j < r.len() implies T::key_of(#[trigger] r[i])
            <= T::key_of(#[trigger] r[j]) by {
            if j == p.len() {
                assert(p.contains(p[i]));
                if p[i] != v {
                    let m = choose|m: int| 0 <= m < d.len() && d[m] == p[i];
                    assert(T::key_of(s[m]) <= T::key_of(s[s.len() - 1]));
                }
            }
        }
    }
}

/// Sorting puts the keys in order and keeps the elements, each as often as it was there.
pub proof fn lemma_sorted<T: Keyed>(s: Seq<T::V>)
    ensures
        keys_ordered::<T>(sorted_by_key::<T>(s)),
        sorted_by_key::<T>(s).to_multiset() == s.to_multiset(),
        forall|x: T::V| #[trigger] sorted_by_key::<T>(s).contains(x) <==> s.contains(x),
    decreases s.len(),
{
    broadcast use vstd::seq_lib::group_to_multiset_ensures;

    let sorted = sorted_by_key::<T>(s);
    if s.len() > 0 {
        let d = s.drop_last();
        lemma_sorted::<T>(d);
        lemma_place_ordered::<T>(sorted_by_key::<T>(d), s.last());
        lemma_place_contains::<T>(sorted_by_key::<T>(d), s.last());
        assert(d.push(s.last()) =~= s);
    }
    assert forall|x: T::V| #[trigger] sorted.contains(x) <==> s.contains(x) by {
        assert(sorted.contains(x) <==> sorted.to_multiset().count(x) > 0);
        assert(s.contains(x) <==> s.to_multiset().count(x) > 0);
    }
}

/// `place` adds exactly one occurrence.
pub proof fn lemma_place_contains<T: Keyed>(s: Seq<T::V>, v: T::V)
    ensures
        place::<T>(s, v).len() == s.len() + 1,
        place::<T>(s, v).to_multiset() == s.to_multiset().insert(v),
        forall|x: T::V| #[trigger] place::<T>(s, v).contains(x) <==> (s.contains(x) || x == v),
    decreases s.len(),
{
    broadcast use vstd::seq_lib::group_to_multiset_ensures;

    if s.len() == 0 || T::key_of(s.last()) <= T::key_of(v) {
    } else {
        lemma_place_contains::<T>(s.drop_last(), v);
        assert(s.drop_last().push(s.last()) =~= s);
        assert(s.drop_last().to_multiset().insert(v).insert(s.last())
            =~= s.drop_last().to_multiset().insert(s.last()).insert(v));
    }
    assert forall|x: T::V| place::<T>(s, v).contains(x) <==> (s.contains(x) || x == v) by {
        assert(place::<T>(s, v).contains(x) <==> place::<T>(s, v).to_multiset().count(x) > 0);
        assert(s.contains(x) <==> s.to_multiset().count(x) > 0);
    }
}

/// Placing a new key into a canonical sequence leaves it canonical.
pub proof fn lemma_place_canonical<T: Keyed>(s: Seq<T::V>, v: T::V)
    requires
        canonical::<T>(s),
        !has_key::<T>(s, T::key_of(v)),
    ensures
        canonical::<T>(place::<T>(s, v)),
    decreases s.len(),
{
    if s.len() == 0 || T::key_of(s.last()) <= T::key_of(v) {
        if s.len() > 0 {
            assert(T::key_of(s[s.len() - 1]) != T::key_of(v));
        }
        let r = s.push(v);
        assert forall|i: int, j: int| 0 <= i < j < r.len() implies T::key_of(#[trigger] r[i])
            < T::key_of(#[trigger] r[j]) by {
            if j == s.len() && i < s.len() - 1 {
                assert(T::key_of(s[i]) < T::key_of(s[s.len() - 1]));
            }
        }
    } else {
        let d = s.drop_last();
        assert(canonical::<T>(d));
        assert(!has_key::<T>(d, T::key_of(v))) by {
            if has_key::<T>(d, T::key_of(v)) {
                let i = choose|i: int|
                    0 <= i < d.len() && T::key_of(#[trigger] d[i]) == T::key_of(v);
                assert(T::key_of(s[i]) == T::key_of(v));
            }
        }
        lemma_place_canonical::<T>(d, v);
        lemma_place_contains::<T>(d, v);
        let p = place::<T>(d, v);
        let r = p.push(s.last());
        assert forall|i: int, j: int| 0 <= i < j < r.len() implies T::key_of(#[trigger] r[i])
            < T::key_of(#[trigger] r[j]) by {
            if j == p.len() {
                assert(p.contains(p[i]));
                if p[i] != v {
                    assert(d.contains(p[i]));
                    let m = choose|m: int| 0 <= m < d.len() && d[m] == p[i];
                    assert(T::key_of(s[m]) < T::key_of(s[s.len() - 1]));
                }
            }
        }
    }
}

/// Removing a key keeps the rest: what is left, and nothing else, lacks the key.
pub proof fn lemma_without_key<T: Keyed>(s: Seq<T::V>, k: u64)
    ensures
        !has_key::<T>(without_key::<T>(s, k), k),
        forall|x: T::V|
            without_key::<T>(s, k).contains(x) <==> (s.contains(x) && T::key_of(x) != k),
        canonical::<T>(s) ==> canonical::<T>(without_key::<T>(s, k)),
    decreases s.len(),
{
    let r = without_key::<T>(s, k);
    if s.len() > 0 {
        let d = s.drop_last();
        lemma_without_key::<T>(d, k);
        let w = without_key::<T>(d, k);
        assert forall|x: T::V| r.contains(x) <==> (s.contains(x) && T::key_of(x) != k) by {
            assert(s =~= d.push(s.last()));
            if r.contains(x) {
                let i = choose|i: int| 0 <= i < r.len() && r[i] == x;
                if i < w.len() {
                    assert(w.contains(x));
                    let m = choose|m: int| 0 <= m < d.len() && d[m] == x;
                    assert(s[m] == x);
                } else {
                    assert(s[s.len() - 1] == x);
                }
            }
            if s.contains(x) && T::key_of(x) != k {
                let i = choose|i: int| 0 <= i < s.len() && s[i] == x;
                if i < d.len() {
                    assert(d[i] == x);
                    assert(d.contains(x));
                    assert(w.contains(x));
                    let m = choose|m: int| 0 <= m < w.len() && w[m] == x;
                    assert(r[m] == x);
                } else {
                    assert(r[r.len() - 1] == x);
                }
            }
        }
        if canonical::<T>(s) {
            assert(canonical::<T>(d));
            assert forall|i: int, j: int| 0 <= i < j < r.len() implies T::key_of(#[trigger] r[i])
                < T::key_of(#[trigger] r[j]) by {
                if j == w.len() {
                    assert(w.contains(w[i]));
                    let m = choose|m: int| 0 <= m < d.len() && d[m] == w[i];
                    assert(T::key_of(s[m]) < T::key_of(s[s.len() - 1]));
                }
            }
        }
        assert(!has_key::<T>(r, k)) by {
            if has_key::<T>(r, k) {
                let i = choose|i: int| 0 <= i < r.len() && T::key_of(#[trigger] r[i]) == k;
                assert(r.contains(r[i]));
            }
        }
    }
}

/// Sorting changes nothing in a canonical sequence.
pub proof fn lemma_sorted_canonical<T: Keyed>(s: Seq<T::V>)
    requires
        canonical::<T>(s),
    ensures
        sorted_by_key::<T>(s) == s,
    decreases s.len(),
{
    if s.len() > 0 {
        lemma_sorted_canonical::<T>(s.drop_last());
        if s.len() > 1 {
            assert(T::key_of(s[s.len() - 2]) < T::key_of(s[s.len() - 1]));
        }
        assert(s.drop_last().push(s.last()) =~= s);
    }
}

/// Two canonical sequences with the same elements are the same.
pub proof fn lemma_canonical_unique<T: Keyed>(a: Seq<T::V>, b: Seq<T::V>)
    requires
        canonical::<T>(a),
        canonical::<T>(b),
        forall|x: T::V| a.contains(x) <==> b.contains(x),
    ensures
        a == b,
    decreases a.len(),
{
    if a.len() == 0 {
        if b.len() > 0 {
            assert(b.contains(b[0]));
        }
        assert(a =~= b);
    } else {
        assert(a.contains(a.last()));
        assert(b.contains(a.last()));
        assert(b.contains(b.last()));
        assert(a.contains(b.last()));
        let i = choose|i: int| 0 <= i < b.len() && b[i] == a.last();
        let j = choose|j: int| 0 <= j < a.len() && a[j] == b.last();
        assert(i == b.len() - 1) by {
            if i < b.len() - 1 {
                assert(T::key_of(b[i]) < T::key_of(b[b.len() - 1]));
                if j < a.len() - 1 {
                    assert(T::key_of(a[j]) < T::key_of(a[a.len() - 1]));
                }
            }
        }
        let ad = a.drop_last();
        let bd = b.drop_last();
        assert forall|x: T::V| ad.contains(x) <==> bd.contains(x) by {
            if ad.contains(x) {
                let m = choose|m: int| 0 <= m < ad.len() && ad[m] == x;
                assert(T::key_of(a[m]) < T::key_of(a[a.len() - 1]));
                assert(a.contains(x));
                assert(b.contains(x));
                let n = choose|n: int| 0 <= n < b.len() && b[n] == x;
                assert(bd[n] == x);
            }
            if bd.contains(x) {
                let m = choose|m: int| 0 <= m < bd.len() && bd[m] == x;
                assert(T::key_of(b[m]) < T::key_of(b[b.len() - 1]));
                assert(b.contains(x));
                assert(a.contains(x));
                let n = choose|n: int| 0 <= n < a.len() && a[n] == x;
                assert(ad[n] == x);
            }
        }
        lemma_canonical_unique::<T>(ad, bd);
        assert(a =~= ad.push(a.last()));
        assert(b =~= bd.push(b.last()));
    }
}

/// In a canonical sequence every element is found by its key.
pub proof fn lemma_lookup<T: Keyed>(s: Seq<T::V>, v: T::V)
    requires
        canonical::<T>(s),
        s.contains(v),
    ensures
        first_with_key::<T>(s, T::key_of(v)) == Some(v),
{
    let i = choose|i: int| 0 <= i < s.len() && s[i] == v;
    assert forall|j: int| 0 <= j < i implies T::key_of(#[trigger] s[j]) != T::key_of(v) by {
        assert(T::key_of(s[j]) < T::key_of(s[i]));
    }
    lemma_first_with_key::<T>(s, T::key_of(v), i);
}

/// What is found by a key is an element with that key.
pub proof fn lemma_found<T: Keyed>(s: Seq<T::V>, k: u64)
    requires
        first_with_key::<T>(s, k) is Some,
    ensures
        s.contains(first_with_key::<T>(s, k)->0),
        T::key_of(first_with_key::<T>(s, k)->0) == k,
{
    let i = choose|i: int| first_key_at::<T>(s, k, i);
    assert(first_key_at::<T>(s, k, i));
}

/// Where an element has the key, something is found by it.
pub proof fn lemma_has_key<T: Keyed>(s: Seq<T::V>, k: u64)
    ensures
        has_key::<T>(s, k) <==> first_with_key::<T>(s, k) is Some,
{
    if has_key::<T>(s, k) {
        let i = choose|i: int| 0 <= i < s.len() && T::key_of(#[trigger] s[i]) == k;
        lemma_first_exists::<T>(s, k, i);
    } else {
        lemma_first_with_key_none::<T>(s, k);
    }
}

proof fn lemma_first_exists<T: Keyed>(s: Seq<T::V>, k: u64, i: int)
    requires
        0 <= i < s.len(),
        T::key_of(s[i]) == k,
    ensures
        exists|f: int| first_key_at::<T>(s, k, f),
    decreases i,
{
    if exists|j: int| 0 <= j < i && T::key_of(#[trigger] s[j]) == k {
        let j = choose|j: int| 0 <= j < i && T::key_of(#[trigger] s[j]) == k;
        lemma_first_exists::<T>(s, k, j);
    } else {
        assert(first_key_at::<T>(s, k, i));
    }
}

/// Two canonical sequences with the same elements answer every lookup alike.
pub proof fn lemma_same_lookup<T: Keyed>(a: Seq<T::V>, b: Seq<T::V>, k: u64)
    requires
        canonical::<T>(a),
        canonical::<T>(b),
        forall|x: T::V| T::key_of(x) == k ==> (#[trigger] a.contains(x) <==> b.contains(x)),
    ensures
        first_with_key::<T>(a, k) == first_with_key::<T>(b, k),
{
    if first_with_key::<T>(a, k) is Some {
        lemma_found::<T>(a, k);
        lemma_lookup::<T>(b, first_with_key::<T>(a, k)->0);
    }
    if first_with_key::<T>(b, k) is Some {
        lemma_found::<T>(b, k);
        let x = first_with_key::<T>(b, k)->0;
        assert(a.contains(x));
        lemma_lookup::<T>(a, x);
    }
}

/// Installing an element in place of what had its key: the sequence stays canonical, and holds
/// that element and the others.
pub proof fn lemma_installed<T: Keyed>(s: Seq<T::V>, v: T::V)
    requires
        canonical::<T>(s),
    ensures
        canonical::<T>(sorted_by_key::<T>(without_key::<T>(s, T::key_of(v)).push(v))),
        forall|x: T::V| #[trigger]
            sorted_by_key::<T>(without_key::<T>(s, T::key_of(v)).push(v)).contains(x) <==> (x == v
                || (s.contains(x) && T::key_of(x) != T::key_of(v))),
{
    let w = without_key::<T>(s, T::key_of(v));
    lemma_without_key::<T>(s, T::key_of(v));
    lemma_appended::<T>(w, v);
}

/// Sorting a canonical sequence with a new key behind it.
pub proof fn lemma_appended<T: Keyed>(s: Seq<T::V>, v: T::V)
    requires
        canonical::<T>(s),
        !has_key::<T>(s, T::key_of(v)),
    ensures
        sorted_by_key::<T>(s.push(v)) == place::<T>(s, v),
        canonical::<T>(sorted_by_key::<T>(s.push(v))),
        forall|x: T::V| #[trigger]
            sorted_by_key::<T>(s.push(v)).contains(x) <==> (s.contains(x) || x == v),
{
    assert(s.push(v).drop_last() =~= s);
    lemma_sorted_canonical::<T>(s);
    lemma_place_canonical::<T>(s, v);
    lemma_place_contains::<T>(s, v);
}

/// Keeping the keys below a bound keeps the rest.
pub proof fn lemma_keys_below<T: Keyed>(s: Seq<T::V>, bound: u64)
    ensures
        forall|x: T::V| #[trigger]
            keys_below::<T>(s, bound).contains(x) <==> (s.contains(x) && T::key_of(x) < bound),
        canonical::<T>(s) ==> canonical::<T>(keys_below::<T>(s, bound)),
    decreases s.len(),
{
    let r = keys_below::<T>(s, bound);
    if s.len() > 0 {
        let d = s.drop_last();
        lemma_keys_below::<T>(d, bound);
        let w = keys_below::<T>(d, bound);
        assert forall|x: T::V| #[trigger]
            r.contains(x) <==> (s.contains(x) && T::key_of(x) < bound) by {
            assert(s =~= d.push(s.last()));
            if r.contains(x) {
                let i = choose|i: int| 0 <= i < r.len() && r[i] == x;
                if i < w.len() {
                    assert(w.contains(x));
                    let m = choose|m: int| 0 <= m < d.len() && d[m] == x;
                    assert(s[m] == x);
                } else {
                    assert(s[s.len() - 1] == x);
                }
            }
            if s.contains(x) && T::key_of(x) < bound {
                let i = choose|i: int| 0 <= i < s.len() && s[i] == x;
                if i < d.len() {
                    assert(d[i] == x);
                    assert(d.contains(x));
                    assert(w.contains(x));
                    let m = choose|m: int| 0 <= m < w.len() && w[m] == x;
                    assert(r[m] == x);
                } else {
                    assert(r[r.len() - 1] == x);
                }
            }
        }
        if canonical::<T>(s) {
            assert(canonical::<T>(d));
            assert forall|i: int, j: int| 0 <= i < j < r.len() implies T::key_of(#[trigger] r[i])
                < T::key_of(#[trigger] r[j]) by {
                if j == w.len() {
                    assert(w.contains(w[i]));
                    let m = choose|m: int| 0 <= m < d.len() && d[m] == w[i];
                    assert(T::key_of(s[m]) < T::key_of(s[s.len() - 1]));
                }
            }
        }
    }
}

/// Sorting elements with distinct keys makes them canonical and keeps them.
pub proof fn lemma_sorted_distinct<T: Keyed>(s: Seq<T::V>)
    requires
        forall|i: int, j: int|
            0 <= i < j < s.len() ==> T::key_of(#[trigger] s[i]) != T::key_of(#[trigger] s[j]),
    ensures
        canonical::<T>(sorted_by_key::<T>(s)),
        forall|x: T::V| #[trigger] sorted_by_key::<T>(s).contains(x) <==> s.contains(x),
    decreases s.len(),
{
    if s.len() > 0 {
        let d = s.drop_last();
        let v = s.last();
        let sorted = sorted_by_key::<T>(d);
        assert forall|i: int, j: int| 0 <= i < j < d.len() implies T::key_of(#[trigger] d[i])
            != T::key_of(#[trigger] d[j]) by {
            assert(T::key_of(s[i]) != T::key_of(s[j]));
        }
        lemma_sorted_distinct::<T>(d);
        assert(!has_key::<T>(sorted, T::key_of(v))) by {
            if has_key::<T>(sorted, T::key_of(v)) {
                let i = choose|i: int|
                    0 <= i < sorted.len() && T::key_of(#[trigger] sorted[i]) == T::key_of(v);
                assert(sorted.contains(sorted[i]));
                assert(d.contains(sorted[i]));
                let m = choose|m: int| 0 <= m < d.len() && d[m] == sorted[i];
                assert(T::key_of(s[m]) != T::key_of(s[s.len() - 1]));
            }
        }
        lemma_place_canonical::<T>(sorted, v);
        lemma_place_contains::<T>(sorted, v);
        assert forall|x: T::V| #[trigger] sorted_by_key::<T>(s).contains(x) <==> s.contains(x) by {
            assert(place::<T>(sorted, v).contains(x) <==> (sorted.contains(x) || x == v));
            if s.contains(x) {
                let i = choose|i: int| 0 <= i < s.len() && s[i] == x;
                if i < d.len() {
                    assert(d[i] == x);
                }
            }
            if d.contains(x) {
                let i = choose|i: int| 0 <= i < d.len() && d[i] == x;
                assert(s[i] == x);
            }
            assert(s[s.len() - 1] == v);
        }
    }
}

/// The elements with a key, in order.
pub open spec fn of_key<T: Keyed>(s: Seq<T::V>, k: u64) -> Seq<T::V> {
    s.filter(|x: T::V| T::key_of(x) == k)
}

proof fn lemma_of_key_pushed<T: Keyed>(s: Seq<T::V>, v: T::V, k: u64)
    ensures
        of_key::<T>(s.push(v), k) == if T::key_of(v) == k {
            of_key::<T>(s, k).push(v)
        } else {
            of_key::<T>(s, k)
        },
{
    reveal(Seq::filter);
    assert(s.push(v).drop_last() =~= s);
}

proof fn lemma_place_stable<T: Keyed>(s: Seq<T::V>, v: T::V, k: u64)
    ensures
        of_key::<T>(place::<T>(s, v), k) == of_key::<T>(s.push(v), k),
    decreases s.len(),
{
    if s.len() > 0 && T::key_of(s.last()) > T::key_of(v) {
        let d = s.drop_last();
        lemma_place_stable::<T>(d, v, k);
        lemma_of_key_pushed::<T>(place::<T>(d, v), s.last(), k);
        lemma_of_key_pushed::<T>(d, v, k);
        lemma_of_key_pushed::<T>(d, s.last(), k);
        lemma_of_key_pushed::<T>(s, v, k);
        assert(d.push(s.last()) =~= s);
    }
}

/// Sorting is stable: the elements with one key are in the order in which they were.
pub proof fn lemma_sorted_stable<T: Keyed>(s: Seq<T::V>, k: u64)
    ensures
        of_key::<T>(sorted_by_key::<T>(s), k) == of_key::<T>(s, k),
    decreases s.len(),
{
    if s.len() > 0 {
        let d = s.drop_last();
        let sorted = sorted_by_key::<T>(d);
        lemma_sorted_stable::<T>(d, k);
        lemma_place_stable::<T>(sorted, s.last(), k);
        lemma_of_key_pushed::<T>(sorted, s.last(), k);
        lemma_of_key_pushed::<T>(d, s.last(), k);
        assert(d.push(s.last()) =~= s);
    }
}

/// What lacks a key, or has one below a bound, is kept as often as it is there and in its order.
pub proof fn lemma_kept_in_order<T: Keyed>(s: Seq<T::V>, k: u64)
    ensures
        without_key::<T>(s, k) == s.filter(|x: T::V| T::key_of(x) != k),
        keys_below::<T>(s, k) == s.filter(|x: T::V| T::key_of(x) < k),
    decreases s.len(),
{
    reveal(Seq::filter);
    if s.len() > 0 {
        lemma_kept_in_order::<T>(s.drop_last(), k);
    }
}

/// What is found by a key is the first element that has it, and nothing is found exactly where no
/// element has it, whatever order the elements are in.
pub proof fn lemma_lookup_decides<T: Keyed>(s: Seq<T::V>, k: u64, i: int)
    ensures
        0 <= i < s.len() && T::key_of(s[i]) == k && (forall|j: int|
            0 <= j < i ==> T::key_of(#[trigger] s[j]) != k) ==> first_with_key::<T>(s, k) == Some(
            s[i],
        ) && key_index::<T>(s, k) == Some(i),
        first_with_key::<T>(s, k) is None <==> forall|j: int|
            0 <= j < s.len() ==> T::key_of(#[trigger] s[j]) != k,
        has_key::<T>(s, k) <==> first_with_key::<T>(s, k) is Some,
{
    lemma_has_key::<T>(s, k);
    if 0 <= i < s.len() && T::key_of(s[i]) == k && (forall|j: int|
        0 <= j < i ==> T::key_of(#[trigger] s[j]) != k) {
        lemma_first_with_key::<T>(s, k, i);
    }
}

} // verus!

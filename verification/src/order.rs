//! Lists kept in order of a key, such as a day's sessions by start time.
//!
//! Insertion lands a new entry after every entry whose key is not greater,
//! so entries with equal keys keep the order they arrived in; sorting is
//! inserting each entry in turn, which is what a stable sort by key gives.

use vstd::prelude::*;

verus! {

/// An entry ordered by a whole-number key.
pub trait Keyed: Sized + View {
    spec fn key(v: Self::V) -> int;

    fn key_of(&self) -> (k: u64)
        ensures
            k == Self::key(self@),
    ;
}

/// Where an entry with key `k` goes: before the first entry whose key is
/// greater, or last.
pub open spec fn first_after<T: Keyed>(s: Seq<T::V>, k: int) -> int
    decreases s.len(),
{
    if s.len() == 0 {
        0
    } else if T::key(s[0]) > k {
        0
    } else {
        1 + first_after::<T>(s.drop_first(), k)
    }
}

pub open spec fn inserted<T: Keyed>(s: Seq<T::V>, x: T::V) -> Seq<T::V> {
    s.insert(first_after::<T>(s, T::key(x)), x)
}

/// The stable sort of a sequence by key.
pub open spec fn sorted_by_key<T: Keyed>(s: Seq<T::V>) -> Seq<T::V>
    decreases s.len(),
{
    if s.len() == 0 {
        s
    } else {
        inserted::<T>(sorted_by_key::<T>(s.drop_last()), s.last())
    }
}

pub open spec fn is_sorted<T: Keyed>(s: Seq<T::V>) -> bool {
    forall|i: int, j: int| 0 <= i < j < s.len() ==> T::key(#[trigger] s[i]) <= T::key(#[trigger] s[j])
}

pub open spec fn views<T: Keyed>(s: Seq<T>) -> Seq<T::V> {
    s.map_values(|x: T| x@)
}

pub proof fn lemma_first_after_bound<T: Keyed>(s: Seq<T::V>, k: int)
    ensures
        0 <= first_after::<T>(s, k) <= s.len(),
        forall|i: int| 0 <= i < first_after::<T>(s, k) ==> T::key(#[trigger] s[i]) <= k,
        first_after::<T>(s, k) < s.len() ==> T::key(s[first_after::<T>(s, k)]) > k,
    decreases s.len(),
{
    if s.len() > 0 && T::key(s[0]) <= k {
        lemma_first_after_bound::<T>(s.drop_first(), k);
        assert forall|i: int| 0 <= i < first_after::<T>(s, k) implies T::key(#[trigger] s[i]) <= k by {
            if i > 0 {
                assert(s[i] == s.drop_first()[i - 1]);
            }
        }
    }
}

/// Inserting into a sorted sequence keeps it sorted.
pub proof fn lemma_inserted_sorted<T: Keyed>(s: Seq<T::V>, x: T::V)
    requires
        is_sorted::<T>(s),
    ensures
        is_sorted::<T>(inserted::<T>(s, x)),
        inserted::<T>(s, x).len() == s.len() + 1,
{
    lemma_first_after_bound::<T>(s, T::key(x));
    let p = first_after::<T>(s, T::key(x));
    let r = inserted::<T>(s, x);
    assert forall|i: int, j: int| 0 <= i < j < r.len() implies T::key(#[trigger] r[i]) <= T::key(#[trigger] r[j]) by {
        if i < p && j < p {
        } else if i < p && j == p {
        } else if i < p {
            assert(r[j] == s[j - 1]);
        } else if i == p {
            assert(r[j] == s[j - 1]);
            if p < s.len() {
                assert(T::key(s[p]) > T::key(x));
                assert(s[p] == r[p + 1]);
            }
        } else {
            assert(r[i] == s[i - 1]);
            assert(r[j] == s[j - 1]);
        }
    }
}

/// A stable sort by key is sorted and keeps its length.
pub proof fn law_sorted_by_key<T: Keyed>(s: Seq<T::V>)
    ensures
        is_sorted::<T>(sorted_by_key::<T>(s)),
        sorted_by_key::<T>(s).len() == s.len(),
        sorted_by_key::<T>(s).to_multiset() == s.to_multiset(),
    decreases s.len(),
{
    if s.len() > 0 {
        law_sorted_by_key::<T>(s.drop_last());
        let t = sorted_by_key::<T>(s.drop_last());
        lemma_inserted_sorted::<T>(t, s.last());
        lemma_first_after_bound::<T>(t, T::key(s.last()));
        let p = first_after::<T>(t, T::key(s.last()));
        vstd::seq_lib::to_multiset_insert(t, p, s.last());
        s.drop_last().to_multiset_ensures();
        assert(s.drop_last().push(s.last()) =~= s);
    } else {
        assert(sorted_by_key::<T>(s) == s);
    }
}

/// Where an entry with key `k` goes in `v`.
pub fn position_after<T: Keyed>(v: &Vec<T>, k: u64) -> (at: usize)
    ensures
        at == first_after::<T>(views(v@), k as int),
        at <= v@.len(),
{
    let ghost s = views(v@);
    proof {
        lemma_first_after_bound::<T>(s, k as int);
        assert(s.subrange(0, s.len() as int) =~= s);
    }
    let mut j: usize = 0;
    while j < v.len()
        invariant
            j <= v@.len(),
            s == views(v@),
            first_after::<T>(s, k as int) == j + first_after::<T>(s.subrange(j as int, s.len() as int), k as int),
        decreases v.len() - j,
    {
        let kj = v[j].key_of();
        let ghost rest = s.subrange(j as int, s.len() as int);
        if kj > k {
            assert(rest[0] == s[j as int]);
            return j;
        }
        assert(rest.drop_first() =~= s.subrange(j + 1, s.len() as int));
        j = j + 1;
    }
    proof {
        assert(s.subrange(j as int, s.len() as int) =~= Seq::<T::V>::empty());
    }
    j
}

/// Inserts an entry after every entry whose key is not greater.
pub fn insert_by_key<T: Keyed>(v: &mut Vec<T>, x: T)
    ensures
        views(final(v)@) == inserted::<T>(views(old(v)@), x@),
{
    let k = x.key_of();
    let at = position_after(v, k);
    let ghost before = v@;
    v.insert(at, x);
    assert(views(v@) =~= views(before).insert(at as int, x@));
}

/// Sorts by key, keeping entries with equal keys in their order.
pub fn sort_by_key<T: Keyed>(v: Vec<T>) -> (sorted: Vec<T>)
    ensures
        views(sorted@) == sorted_by_key::<T>(views(v@)),
{
    let ghost s = views(v@);
    let mut rest = v;
    let mut out: Vec<T> = Vec::new();
    let mut reversed: Vec<T> = Vec::new();
    while rest.len() > 0
        invariant
            views(rest@) + views(reversed@).reverse() == s,
        decreases rest.len(),
    {
        let ghost before_rest = rest@;
        let ghost before_rev = reversed@;
        let x = rest.pop().unwrap();
        reversed.push(x);
        assert(views(rest@) =~= views(before_rest).drop_last());
        assert(views(reversed@).reverse() =~= seq![x@] + views(before_rev).reverse());
        assert(views(before_rest) =~= views(rest@).push(x@));
        assert(views(rest@) + views(reversed@).reverse() =~= views(before_rest) + views(before_rev).reverse());
    }
    assert(views(rest@) =~= Seq::<T::V>::empty());
    assert(views(reversed@).reverse() =~= s);
    while reversed.len() > 0
        invariant
            views(out@) == sorted_by_key::<T>(s.subrange(0, s.len() - views(reversed@).len())),
            views(reversed@).reverse() =~= s.subrange(s.len() - views(reversed@).len(), s.len() as int),
            views(reversed@).len() <= s.len(),
        decreases reversed.len(),
    {
        let ghost before_rev = reversed@;
        let ghost done = s.len() - before_rev.len();
        let x = reversed.pop().unwrap();
        proof {
            assert(views(before_rev) =~= views(reversed@).push(x@));
            assert(views(before_rev).reverse()[0] == x@);
            assert(s[done] == x@);
            assert(s.subrange(0, done + 1).drop_last() =~= s.subrange(0, done));
            assert(views(reversed@).reverse() =~= views(before_rev).reverse().drop_first());
        }
        insert_by_key(&mut out, x);
    }
    assert(s.subrange(0, s.len() as int) =~= s);
    out
}

} // verus!

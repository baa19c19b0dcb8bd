//! Entries identified by a key, and removal of entries whose key occurs earlier.
use vstd::prelude::*;

use crate::deep_clone::{deep_seq, DeepClone};

verus! {

/// A value that is identified by a key: two values with equal keys stand for the
/// same entry (a feature by its name, a segment by its id, a number by itself).
pub trait Identified {
    type Key;

    spec fn key(&self) -> Self::Key;

    fn same_key(&self, other: &Self) -> (r: bool)
        ensures
            r == (self.key() == other.key()),
    ;
}

impl Identified for u32 {
    type Key = u32;

    open spec fn key(&self) -> u32 {
        *self
    }

    fn same_key(&self, other: &Self) -> (r: bool) {
        *self == *other
    }
}

impl Identified for String {
    type Key = Seq<char>;

    open spec fn key(&self) -> Seq<char> {
        self@
    }

    fn same_key(&self, other: &Self) -> (r: bool) {
        *self == *other
    }
}

/// Some entry of `s` has key `k`.
pub open spec fn has_key<T: Identified>(s: Seq<T>, k: T::Key) -> bool {
    exists|i: int| 0 <= i < s.len() && #[trigger] s[i].key() == k
}

/// No two entries of `s` share a key.
pub open spec fn unique_keys<T: Identified>(s: Seq<T>) -> bool {
    forall|i: int, j: int| #![trigger s[i], s[j]] 0 <= i < j < s.len() ==> s[i].key() != s[j].key()
}

/// `x` is the first entry of `s` with its key.
pub open spec fn first_of_its_key<T: Identified>(s: Seq<T>, x: T) -> bool {
    exists|p: int|
        0 <= p < s.len() && #[trigger] s[p] == x && forall|q: int|
            0 <= q < p ==> #[trigger] s[q].key() != x.key()
}

/// The entries of `s` that are the first of their key, in the order of `s`.
pub open spec fn dedup<T: Identified>(s: Seq<T>) -> Seq<T>
    decreases s.len(),
{
    if s.len() == 0 {
        Seq::empty()
    } else {
        let d = dedup(s.drop_last());
        if has_key(d, s.last().key()) {
            d
        } else {
            d.push(s.last())
        }
    }
}

/// What `dedup` keeps: one entry per key, each the first of its key, and every key.
pub proof fn lemma_dedup<T: Identified>(s: Seq<T>)
    ensures
        unique_keys(dedup(s)),
        forall|k: T::Key| has_key(dedup(s), k) <==> has_key(s, k),
        forall|i: int| 0 <= i < dedup(s).len() ==> first_of_its_key(s, #[trigger] dedup(s)[i]),
        dedup(s).len() <= s.len(),
    decreases s.len(),
{
    if s.len() > 0 {
        let s0 = s.drop_last();
        let x = s.last();
        lemma_dedup(s0);
        let d0 = dedup(s0);
        let d = dedup(s);
        assert forall|k: T::Key| has_key(s, k) <==> (has_key(s0, k) || x.key() == k) by {
            if has_key(s, k) {
                let i = choose|i: int| 0 <= i < s.len() && #[trigger] s[i].key() == k;
                if i < s.len() - 1 {
                    assert(s0[i] == s[i]);
                }
            }
            if has_key(s0, k) {
                let i = choose|i: int| 0 <= i < s0.len() && #[trigger] s0[i].key() == k;
                assert(s[i] == s0[i]);
            }
            if x.key() == k {
                assert(s[s.len() - 1].key() == k);
            }
        }
        if has_key(d0, x.key()) {
            assert forall|i: int| 0 <= i < d.len() implies first_of_its_key(s, #[trigger] d[i]) by {
                assert(first_of_its_key(s0, d0[i]));
                let p = choose|p: int|
                    0 <= p < s0.len() && #[trigger] s0[p] == d0[i] && forall|q: int|
                        0 <= q < p ==> #[trigger] s0[q].key() != d0[i].key();
                assert(s[p] == s0[p]);
                assert forall|q: int| 0 <= q < p implies #[trigger] s[q].key() != d[i].key() by {
                    assert(s[q] == s0[q]);
                }
            }
        } else {
            assert forall|k: T::Key| has_key(d, k) <==> (has_key(d0, k) || x.key() == k) by {
                if has_key(d, k) {
                    let i = choose|i: int| 0 <= i < d.len() && #[trigger] d[i].key() == k;
                    if i < d.len() - 1 {
                        assert(d0[i] == d[i]);
                    }
                }
                if has_key(d0, k) {
                    let i = choose|i: int| 0 <= i < d0.len() && #[trigger] d0[i].key() == k;
                    assert(d[i] == d0[i]);
                }
                if x.key() == k {
                    assert(d[d.len() - 1].key() == k);
                }
            }
            assert forall|i: int, j: int| #![trigger d[i], d[j]] 0 <= i < j < d.len() implies d[i].key()
                != d[j].key() by {
                if j == d.len() - 1 {
                    assert(d[i] == d0[i]);
                    if d0[i].key() == x.key() {
                        assert(has_key(d0, x.key()));
                    }
                } else {
                    assert(d[i] == d0[i] && d[j] == d0[j]);
                }
            }
            assert forall|i: int| 0 <= i < d.len() implies first_of_its_key(s, #[trigger] d[i]) by {
                if i == d.len() - 1 {
                    let p = s.len() - 1;
                    assert(s[p] == d[i]);
                    assert forall|q: int| 0 <= q < p implies #[trigger] s[q].key() != d[i].key() by {
                        assert(s0[q] == s[q]);
                        if s0[q].key() == x.key() {
                            assert(has_key(s0, x.key()));
                        }
                    }
                } else {
                    assert(d[i] == d0[i]);
                    assert(first_of_its_key(s0, d0[i]));
                    let p = choose|p: int|
                        0 <= p < s0.len() && #[trigger] s0[p] == d0[i] && forall|q: int|
                            0 <= q < p ==> #[trigger] s0[q].key() != d0[i].key();
                    assert(s[p] == s0[p]);
                    assert forall|q: int| 0 <= q < p implies #[trigger] s[q].key() != d[i].key() by {
                        assert(s[q] == s0[q]);
                    }
                }
            }
        }
    }
}

/// A sequence whose keys are already unique is left as it is.
pub proof fn lemma_dedup_of_unique<T: Identified>(s: Seq<T>)
    requires
        unique_keys(s),
    ensures
        dedup(s) == s,
    decreases s.len(),
{
    if s.len() > 0 {
        let s0 = s.drop_last();
        assert(unique_keys(s0)) by {
            assert forall|i: int, j: int| #![trigger s0[i], s0[j]] 0 <= i < j < s0.len() implies s0[i].key()
                != s0[j].key() by {
                assert(s0[i] == s[i] && s0[j] == s[j]);
            }
        }
        lemma_dedup_of_unique(s0);
        if has_key(s0, s.last().key()) {
            let i = choose|i: int| 0 <= i < s0.len() && #[trigger] s0[i].key() == s.last().key();
            assert(s[i] == s0[i]);
            assert(s[i].key() != s[s.len() - 1].key());
        }
        assert(s0.push(s.last()) =~= s);
    }
}

/// Whether some entry of `v` has the key of `x`.
pub fn contains_key<T: Identified>(v: &Vec<T>, x: &T) -> (r: bool)
    ensures
        r == has_key(v@, x.key()),
{
    let mut i: usize = 0;
    while i < v.len()
        invariant
            i <= v.len(),
            forall|j: int| 0 <= j < i ==> #[trigger] v@[j].key() != x.key(),
        decreases v.len() - i,
    {
        if v[i].same_key(x) {
            assert(v@[i as int].key() == x.key());
            return true;
        }
        i = i + 1;
    }
    false
}

/// Keeps the first entry of each key, in order; the result is `dedup(v@)`.
pub fn dedup_vec<T: Identified>(v: Vec<T>) -> (r: Vec<T>)
    ensures
        r@ == dedup(v@),
{
    let ghost orig = v@;
    let mut rest = v;
    let mut out: Vec<T> = Vec::new();
    let ghost mut i: int = 0;
    assert(orig.take(0) =~= Seq::<T>::empty());
    assert(orig.skip(0) =~= orig);
    while rest.len() > 0
        invariant
            0 <= i <= orig.len(),
            out@ == dedup(orig.take(i)),
            rest@ == orig.skip(i),
        decreases rest.len(),
    {
        let x = rest.remove(0);
        assert(orig.take(i + 1).drop_last() =~= orig.take(i));
        assert(orig.take(i + 1).last() == x);
        if !contains_key(&out, &x) {
            out.push(x);
        }
        assert(orig.skip(i).remove(0) =~= orig.skip(i + 1));
        proof {
            i = i + 1;
        }
    }
    assert(orig.take(i) =~= orig);
    out
}

/// An identified value whose key is part of its deep view.
pub trait DeepKeyed: Identified + DeepClone {
    proof fn lemma_key_of_deep_view(a: &Self, b: &Self)
        requires
            a.deep_view() == b.deep_view(),
        ensures
            a.key() == b.key(),
    ;
}

/// The position of the first entry of `s` with key `k`, or the length of `s` if
/// there is none.
pub open spec fn key_index<T: Identified>(s: Seq<T>, k: T::Key) -> nat
    decreases s.len(),
{
    if s.len() == 0 {
        0
    } else if s[0].key() == k {
        0
    } else {
        1 + key_index(s.drop_first(), k)
    }
}

/// `s` with `x` in place of the first entry with the key of `x`, or with `x`
/// added at the end when there is no such entry.
pub open spec fn put_entry<T: Identified>(s: Seq<T>, x: T) -> Seq<T> {
    let i = key_index(s, x.key());
    if i < s.len() {
        s.update(i as int, x)
    } else {
        s.push(x)
    }
}

/// `s` without its entries with key `k`.
pub open spec fn drop_key<T: Identified>(s: Seq<T>, k: T::Key) -> Seq<T>
    decreases s.len(),
{
    if s.len() == 0 {
        s
    } else {
        let d = drop_key(s.drop_last(), k);
        if s.last().key() != k {
            d.push(s.last())
        } else {
            d
        }
    }
}

pub proof fn lemma_key_index<T: Identified>(s: Seq<T>, k: T::Key)
    ensures
        key_index(s, k) <= s.len(),
        forall|m: int| 0 <= m < key_index(s, k) ==> #[trigger] s[m].key() != k,
        key_index(s, k) < s.len() ==> s[key_index(s, k) as int].key() == k,
    decreases s.len(),
{
    if s.len() > 0 && s[0].key() != k {
        lemma_key_index(s.drop_first(), k);
        assert forall|m: int| 0 <= m < key_index(s, k) implies #[trigger] s[m].key() != k by {
            if m > 0 {
                assert(s[m] == s.drop_first()[m - 1]);
            }
        }
    }
}

pub proof fn lemma_key_index_is<T: Identified>(s: Seq<T>, k: T::Key, j: int)
    requires
        0 <= j <= s.len(),
        forall|m: int| 0 <= m < j ==> #[trigger] s[m].key() != k,
        j < s.len() ==> s[j].key() == k,
    ensures
        key_index(s, k) == j,
    decreases s.len(),
{
    if s.len() > 0 && j > 0 {
        assert(s[0].key() != k);
        assert forall|m: int| 0 <= m < j - 1 implies #[trigger] s.drop_first()[m].key() != k by {
            assert(s.drop_first()[m] == s[m + 1]);
        }
        lemma_key_index_is(s.drop_first(), k, j - 1);
    }
}

/// Two sequences with equal deep views have equal keys, position by position.
pub proof fn lemma_deep_seq_keys<T: DeepKeyed>(a: Seq<T>, b: Seq<T>)
    requires
        deep_seq(a) == deep_seq(b),
    ensures
        a.len() == b.len(),
        forall|i: int| 0 <= i < a.len() ==> (#[trigger] a[i]).key() == b[i].key(),
{
    assert(deep_seq(a).len() == a.len());
    assert(deep_seq(b).len() == b.len());
    assert forall|i: int| 0 <= i < a.len() implies (#[trigger] a[i]).key() == b[i].key() by {
        assert(deep_seq(a)[i] == a[i].deep_view());
        assert(deep_seq(b)[i] == b[i].deep_view());
        T::lemma_key_of_deep_view(&a[i], &b[i]);
    }
}

/// Puts a copy of `x` in place of the first entry of `v` with its key, or at the
/// end. `s` is a sequence with the deep view of `v`.
pub fn put_entry_vec<T: DeepKeyed>(v: &mut Vec<T>, x: &T, Ghost(s): Ghost<Seq<T>>)
    requires
        old(v).deep_view() == deep_seq(s),
    ensures
        final(v).deep_view() == deep_seq(put_entry(s, *x)),
{
    proof {
        lemma_deep_seq_keys(v@, s);
    }
    let mut i: usize = 0;
    while i < v.len() && !v[i].same_key(x)
        invariant
            i <= v.len(),
            v.len() == s.len(),
            forall|m: int| 0 <= m < i ==> #[trigger] s[m].key() != x.key(),
            forall|m: int| 0 <= m < v.len() ==> (#[trigger] v@[m]).key() == s[m].key(),
        decreases v.len() - i,
    {
        i = i + 1;
    }
    proof {
        lemma_key_index_is(s, x.key(), i as int);
    }
    let ghost old_v = v@;
    assert forall|m: int| 0 <= m < old_v.len() implies (#[trigger] old_v[m]).deep_view()
        == s[m].deep_view() by {
        assert(v.deep_view() =~= deep_seq(v@));
        assert(deep_seq(v@)[m] == deep_seq(s)[m]);
    }
    let c = x.deep_clone();
    if i < v.len() {
        v[i] = c;
        assert(v@ == old_v.update(i as int, c));
    } else {
        v.push(c);
        assert(v@ == old_v.push(c));
    }
    let ghost t = put_entry(s, *x);
    assert forall|m: int| 0 <= m < v@.len() implies (#[trigger] v@[m]).deep_view() == t[m].deep_view() by {
        if m == i {
        } else {
            assert(v@[m] == old_v[m]);
        }
    }
    assert(v.deep_view() =~= deep_seq(t));
}

/// After `put_entry(s, x)`, the first entry with the key of `x` is `x`; the entries
/// with other keys are found where they were; distinct keys stay distinct.
pub proof fn law_put_entry<T: Identified>(s: Seq<T>, x: T)
    ensures
        key_index(put_entry(s, x), x.key()) < put_entry(s, x).len(),
        put_entry(s, x)[key_index(put_entry(s, x), x.key()) as int] == x,
        forall|k: T::Key|
            k != x.key() && key_index(s, k) < s.len() ==> #[trigger] key_index(put_entry(s, x), k)
                == key_index(s, k),
        forall|k: T::Key| k != x.key() ==> (has_key(put_entry(s, x), k) <==> has_key(s, k)),
        forall|i: int| 0 <= i < s.len() && s[i].key() != x.key() ==> #[trigger] put_entry(s, x)[i] == s[i],
        unique_keys(s) ==> unique_keys(put_entry(s, x)),
{
    let r = put_entry(s, x);
    let i = key_index(s, x.key());
    lemma_key_index(s, x.key());
    if i < s.len() {
        lemma_key_index_is(r, x.key(), i as int);
    } else {
        assert forall|m: int| 0 <= m < s.len() implies #[trigger] r[m].key() != x.key() by {
            assert(r[m] == s[m]);
        }
        lemma_key_index_is(r, x.key(), s.len() as int);
    }
    assert forall|k: T::Key| k != x.key() && key_index(s, k) < s.len() implies #[trigger] key_index(
        r,
        k,
    ) == key_index(s, k) by {
        lemma_key_index(s, k);
        let j = key_index(s, k);
        assert forall|m: int| 0 <= m < j implies #[trigger] r[m].key() != k by {
            if m != i {
                assert(r[m] == s[m]);
            }
        }
        assert(j != i);
        assert(r[j as int] == s[j as int]);
        lemma_key_index_is(r, k, j as int);
    }
    assert forall|k: T::Key| k != x.key() implies (has_key(r, k) <==> has_key(s, k)) by {
        if has_key(r, k) {
            let m = choose|m: int| 0 <= m < r.len() && #[trigger] r[m].key() == k;
            if m != i && m < s.len() {
                assert(r[m] == s[m]);
            }
        }
        if has_key(s, k) {
            let m = choose|m: int| 0 <= m < s.len() && #[trigger] s[m].key() == k;
            assert(m != i);
            assert(r[m] == s[m]);
        }
    }
    assert forall|m: int| 0 <= m < s.len() && s[m].key() != x.key() implies #[trigger] r[m] == s[m] by {
    }
    if unique_keys(s) {
        assert forall|a: int, b: int| #![trigger r[a], r[b]] 0 <= a < b < r.len() implies r[a].key()
            != r[b].key() by {
            if a != i && b != i {
                if b < s.len() {
                    assert(r[a] == s[a] && r[b] == s[b]);
                } else {
                    assert(r[a] == s[a]);
                    assert(r[b] == x);
                }
            } else if a == i {
                assert(r[b] == s[b]);
                assert(s[i as int].key() == x.key());
            } else {
                assert(r[a] == s[a]);
                if i < s.len() {
                    assert(s[i as int].key() == x.key());
                } else {
                    assert(s[a].key() != x.key());
                }
            }
        }
    }
}

/// After `drop_key(s, k)`, no entry has key `k`, and the entries with other keys
/// all stay; distinct keys stay distinct.
pub proof fn law_drop_key<T: Identified>(s: Seq<T>, k: T::Key)
    ensures
        !has_key(drop_key(s, k), k),
        forall|x: T| drop_key(s, k).contains(x) <==> (s.contains(x) && x.key() != k),
        unique_keys(s) ==> unique_keys(drop_key(s, k)),
    decreases s.len(),
{
    if s.len() > 0 {
        let s0 = s.drop_last();
        let x = s.last();
        law_drop_key(s0, k);
        let d0 = drop_key(s0, k);
        let d = drop_key(s, k);
        assert forall|y: T| s.contains(y) <==> (s0.contains(y) || y == x) by {
            if s.contains(y) {
                let i = choose|i: int| 0 <= i < s.len() && s[i] == y;
                if i < s.len() - 1 {
                    assert(s0[i] == y);
                }
            }
            if s0.contains(y) {
                let i = choose|i: int| 0 <= i < s0.len() && s0[i] == y;
                assert(s[i] == y);
            }
            if y == x {
                assert(s[s.len() - 1] == y);
            }
        }
        if x.key() != k {
            assert forall|y: T| d.contains(y) <==> (d0.contains(y) || y == x) by {
                if d.contains(y) {
                    let i = choose|i: int| 0 <= i < d.len() && d[i] == y;
                    if i < d.len() - 1 {
                        assert(d0[i] == y);
                    }
                }
                if d0.contains(y) {
                    let i = choose|i: int| 0 <= i < d0.len() && d0[i] == y;
                    assert(d[i] == y);
                }
                if y == x {
                    assert(d[d.len() - 1] == y);
                }
            }
            assert(!has_key(d, k)) by {
                if has_key(d, k) {
                    let i = choose|i: int| 0 <= i < d.len() && #[trigger] d[i].key() == k;
                    if i < d.len() - 1 {
                        assert(d0[i] == d[i]);
                    }
                }
            }
            if unique_keys(s) {
                assert(unique_keys(s0)) by {
                    assert forall|i: int, j: int| #![trigger s0[i], s0[j]] 0 <= i < j < s0.len() implies s0[i].key()
                        != s0[j].key() by {
                        assert(s0[i] == s[i] && s0[j] == s[j]);
                    }
                }
                assert forall|i: int, j: int| #![trigger d[i], d[j]] 0 <= i < j < d.len() implies d[i].key()
                    != d[j].key() by {
                    if j == d.len() - 1 {
                        assert(d[i] == d0[i]);
                        assert(d0.contains(d0[i]));
                        assert(s0.contains(d0[i]));
                        let m = choose|m: int| 0 <= m < s0.len() && s0[m] == d0[i];
                        assert(s[m] == s0[m]);
                        assert(s[m].key() != s[s.len() - 1].key());
                    } else {
                        assert(d[i] == d0[i] && d[j] == d0[j]);
                    }
                }
            }
        }
    }
}

/// The entries of `s` with key `k`, in order.
pub open spec fn of_key<T: Identified>(s: Seq<T>, k: T::Key) -> Seq<T>
    decreases s.len(),
{
    if s.len() == 0 {
        Seq::empty()
    } else if s.last().key() == k {
        of_key(s.drop_last(), k).push(s.last())
    } else {
        of_key(s.drop_last(), k)
    }
}

/// Two lists hold the same entries of each key, in the same order (one is the
/// other with entries of different keys moved past each other).
pub open spec fn same_groups<T: Identified>(a: Seq<T>, b: Seq<T>) -> bool {
    forall|k: T::Key| #[trigger] of_key(a, k) == of_key(b, k)
}

pub proof fn lemma_of_key_add<T: Identified>(a: Seq<T>, b: Seq<T>, k: T::Key)
    ensures
        of_key(a + b, k) == of_key(a, k) + of_key(b, k),
    decreases b.len(),
{
    if b.len() == 0 {
        assert(a + b =~= a);
        assert(of_key(a, k) + of_key(b, k) =~= of_key(a, k));
    } else {
        lemma_of_key_add(a, b.drop_last(), k);
        assert((a + b).drop_last() =~= a + b.drop_last());
        assert((a + b).last() == b.last());
        if b.last().key() == k {
            assert(of_key(a, k) + of_key(b, k) =~= (of_key(a, k) + of_key(b.drop_last(), k)).push(
                b.last(),
            ));
        }
    }
}

/// The entries of `s` with key `k` are the entries of `s` whose key is `k`.
pub proof fn lemma_of_key_members<T: Identified>(s: Seq<T>, k: T::Key)
    ensures
        forall|y: T|
            #![trigger of_key(s, k).contains(y)]
            #![trigger s.contains(y)]
            of_key(s, k).contains(y) <==> (s.contains(y) && y.key() == k),
        (forall|j: int| 0 <= j < s.len() ==> #[trigger] s[j].key() != k) ==> of_key(s, k).len()
            == 0,
    decreases s.len(),
{
    if s.len() > 0 {
        let s0 = s.drop_last();
        let x = s.last();
        lemma_of_key_members(s0, k);
        assert forall|y: T|
            #![trigger of_key(s, k).contains(y)]
            #![trigger s.contains(y)]
            of_key(s, k).contains(y) <==> (s.contains(y) && y.key() == k) by {
            if s.contains(y) && y.key() == k {
                let j = choose|j: int| 0 <= j < s.len() && s[j] == y;
                if j < s.len() - 1 {
                    assert(s0[j] == y);
                    assert(s0.contains(y));
                    assert(of_key(s0, k).contains(y));
                    let m = choose|m: int| 0 <= m < of_key(s0, k).len() && of_key(s0, k)[m] == y;
                    if x.key() == k {
                        assert(of_key(s, k)[m] == y);
                    }
                } else {
                    assert(x == y);
                    assert(of_key(s, k)[of_key(s, k).len() - 1] == y);
                }
            }
            if of_key(s, k).contains(y) {
                let m = choose|m: int| 0 <= m < of_key(s, k).len() && of_key(s, k)[m] == y;
                if m < of_key(s0, k).len() {
                    assert(of_key(s0, k)[m] == y);
                    assert(of_key(s0, k).contains(y));
                    let j = choose|j: int| 0 <= j < s0.len() && s0[j] == y;
                    assert(s[j] == y);
                } else {
                    assert(y == x);
                    assert(s[s.len() - 1] == y);
                }
            }
        }
        if forall|j: int| 0 <= j < s.len() ==> #[trigger] s[j].key() != k {
            assert forall|j: int| 0 <= j < s0.len() implies #[trigger] s0[j].key() != k by {
                assert(s0[j] == s[j]);
            }
            assert(s[s.len() - 1].key() != k);
        }
    }
}

/// The entries of key `k` in a list of one entry.
pub proof fn lemma_of_key_single<T: Identified>(x: T, k: T::Key)
    ensures
        of_key(seq![x], k) == if x.key() == k {
            seq![x]
        } else {
            Seq::<T>::empty()
        },
{
    let one = seq![x];
    assert(one.drop_last() =~= Seq::<T>::empty());
    assert(one.last() == x);
    assert(of_key(one.drop_last(), k) == Seq::<T>::empty());
    if x.key() == k {
        assert(Seq::<T>::empty().push(x) =~= seq![x]);
    }
}

/// The entries of `s` with key `k`, where the first entry of `s` has key `k`:
/// that entry, then those of the rest.
pub proof fn lemma_of_key_front<T: Identified>(s: Seq<T>, k: T::Key)
    requires
        s.len() > 0,
    ensures
        s[0].key() == k ==> of_key(s, k) == seq![s[0]] + of_key(s.drop_first(), k),
        s[0].key() != k ==> of_key(s, k) == of_key(s.drop_first(), k),
{
    assert(s =~= seq![s[0]] + s.drop_first());
    lemma_of_key_add(seq![s[0]], s.drop_first(), k);
    lemma_of_key_single(s[0], k);
    if s[0].key() != k {
        assert(Seq::<T>::empty() + of_key(s.drop_first(), k) =~= of_key(s.drop_first(), k));
    }
}

/// Putting an entry changes only the entries of its key: the first of them is
/// replaced, or the entry is added where there was none.
pub proof fn lemma_put_entry_of_key<T: Identified>(s: Seq<T>, x: T, k: T::Key)
    ensures
        of_key(put_entry(s, x), k) == if k == x.key() {
            if of_key(s, k).len() > 0 {
                of_key(s, k).update(0, x)
            } else {
                seq![x]
            }
        } else {
            of_key(s, k)
        },
{
    let kx = x.key();
    let i = key_index(s, kx) as int;
    lemma_key_index(s, kx);
    if i < s.len() {
        let pre = s.take(i);
        let post = s.skip(i + 1);
        assert(s =~= pre + seq![s[i]] + post);
        assert(put_entry(s, x) =~= pre + seq![x] + post);
        lemma_of_key_add(pre + seq![s[i]], post, k);
        lemma_of_key_add(pre, seq![s[i]], k);
        lemma_of_key_add(pre + seq![x], post, k);
        lemma_of_key_add(pre, seq![x], k);
        lemma_of_key_single(s[i], k);
        lemma_of_key_single(x, k);
        lemma_of_key_members(pre, kx);
        assert forall|j: int| 0 <= j < pre.len() implies #[trigger] pre[j].key() != kx by {
            assert(pre[j] == s[j]);
        }
        if k != kx {
            assert(of_key(pre, k) + Seq::<T>::empty() =~= of_key(pre, k));
        }
        if k == kx {
            assert(of_key(pre, k).len() == 0);
            assert(of_key(pre, k) + seq![s[i]] =~= seq![s[i]]);
            assert(of_key(pre, k) + seq![x] =~= seq![x]);
            assert(of_key(s, k) =~= seq![s[i]] + of_key(post, k));
            assert(of_key(put_entry(s, x), k) =~= of_key(s, k).update(0, x));
        }
    } else {
        assert forall|j: int| 0 <= j < s.len() implies #[trigger] s[j].key() != kx by {
        }
        lemma_of_key_members(s, kx);
        assert(put_entry(s, x).drop_last() =~= s);
    }
}

/// Dropping a key removes the entries of that key and leaves the others.
pub proof fn lemma_drop_key_of_key<T: Identified>(s: Seq<T>, k0: T::Key, k: T::Key)
    ensures
        of_key(drop_key(s, k0), k) == if k == k0 {
            Seq::<T>::empty()
        } else {
            of_key(s, k)
        },
    decreases s.len(),
{
    if s.len() > 0 {
        lemma_drop_key_of_key(s.drop_last(), k0, k);
        let d = drop_key(s.drop_last(), k0);
        if s.last().key() != k0 {
            assert(d.push(s.last()).drop_last() =~= d);
        }
    }
}

/// Lists with the same entries of each key stay so when an entry is put.
pub proof fn lemma_put_entry_same_groups<T: Identified>(a: Seq<T>, b: Seq<T>, x: T)
    requires
        same_groups(a, b),
    ensures
        same_groups(put_entry(a, x), put_entry(b, x)),
{
    assert forall|k: T::Key| #[trigger] of_key(put_entry(a, x), k) == of_key(put_entry(b, x), k) by {
        lemma_put_entry_of_key(a, x, k);
        lemma_put_entry_of_key(b, x, k);
        assert(of_key(a, k) == of_key(b, k));
    }
}

/// Lists with the same entries of each key stay so when a key is dropped.
pub proof fn lemma_drop_key_same_groups<T: Identified>(a: Seq<T>, b: Seq<T>, k0: T::Key)
    requires
        same_groups(a, b),
    ensures
        same_groups(drop_key(a, k0), drop_key(b, k0)),
{
    assert forall|k: T::Key| #[trigger] of_key(drop_key(a, k0), k) == of_key(drop_key(b, k0), k) by {
        lemma_drop_key_of_key(a, k0, k);
        lemma_drop_key_of_key(b, k0, k);
        assert(of_key(a, k) == of_key(b, k));
    }
}

/// Lists with the same contents have their first entry of a key at the same place.
pub proof fn lemma_key_index_deep<T: DeepKeyed>(a: Seq<T>, b: Seq<T>, k: T::Key)
    requires
        deep_seq(a) == deep_seq(b),
    ensures
        key_index(a, k) == key_index(b, k),
{
    lemma_deep_seq_keys(a, b);
    lemma_key_index(a, k);
    let j = key_index(a, k) as int;
    assert forall|m: int| 0 <= m < j implies #[trigger] b[m].key() != k by {
        assert(a[m].key() == b[m].key());
    }
    if j < a.len() {
        assert(a[j].key() == b[j].key());
    }
    lemma_key_index_is(b, k, j);
}

/// Putting an entry into lists with the same contents gives lists with the same
/// contents.
pub proof fn lemma_put_entry_deep<T: DeepKeyed>(a: Seq<T>, b: Seq<T>, x: T)
    requires
        deep_seq(a) == deep_seq(b),
    ensures
        deep_seq(put_entry(a, x)) == deep_seq(put_entry(b, x)),
{
    lemma_key_index_deep(a, b, x.key());
    lemma_deep_seq_keys(a, b);
    let pa = put_entry(a, x);
    let pb = put_entry(b, x);
    assert(deep_seq(a).len() == a.len() && deep_seq(b).len() == b.len());
    assert(pa.len() == pb.len());
    assert forall|i: int| 0 <= i < pa.len() implies pa[i].deep_view() == pb[i].deep_view() by {
        let idx = key_index(a, x.key()) as int;
        if i < a.len() && i != idx {
            assert(pa[i] == a[i] && pb[i] == b[i]);
            assert(deep_seq(a)[i] == a[i].deep_view());
            assert(deep_seq(b)[i] == b[i].deep_view());
        }
    }
    assert(deep_seq(pa) =~= deep_seq(pb));
}

/// Dropping a key from lists with the same contents gives lists with the same
/// contents.
pub proof fn lemma_drop_key_deep<T: DeepKeyed>(a: Seq<T>, b: Seq<T>, k: T::Key)
    requires
        deep_seq(a) == deep_seq(b),
    ensures
        deep_seq(drop_key(a, k)) == deep_seq(drop_key(b, k)),
    decreases a.len(),
{
    lemma_deep_seq_keys(a, b);
    if a.len() > 0 {
        let a0 = a.drop_last();
        let b0 = b.drop_last();
        assert(deep_seq(a).len() == a.len() && deep_seq(b).len() == b.len());
        assert(deep_seq(a0) =~= deep_seq(b0)) by {
            assert forall|i: int| 0 <= i < a0.len() implies deep_seq(a0)[i] == deep_seq(b0)[i] by {
                assert(deep_seq(a).len() == a.len() && deep_seq(b).len() == b.len());
                assert(deep_seq(a)[i] == a[i].deep_view() && deep_seq(b)[i] == b[i].deep_view());
                assert(deep_seq(a)[i] == deep_seq(b)[i]);
                assert(a0[i] == a[i] && b0[i] == b[i]);
                assert(deep_seq(a0)[i] == a0[i].deep_view() && deep_seq(b0)[i] == b0[i].deep_view());
            }
        }
        lemma_drop_key_deep(a0, b0, k);
        let da = drop_key(a0, k);
        let db = drop_key(b0, k);
        assert(da.len() == deep_seq(da).len() && db.len() == deep_seq(db).len());
        assert(a.last().key() == b.last().key());
        if a.last().key() != k {
            assert(deep_seq(a)[a.len() - 1] == deep_seq(b)[b.len() - 1]);
            assert(deep_seq(da.push(a.last())) =~= deep_seq(db.push(b.last()))) by {
                assert forall|i: int| 0 <= i < da.len() implies deep_seq(da.push(a.last()))[i]
                    == deep_seq(db.push(b.last()))[i] by {
                    assert(deep_seq(da)[i] == deep_seq(db)[i]);
                }
            }
        }
    }
}

} // verus!

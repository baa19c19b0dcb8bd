//! Types exchanged between Unleash feature-flag servers, proxies and clients,
//! together with the rules by which they are merged, deduplicated and updated.
pub mod client_features;
pub mod client_metrics;
pub mod deep_clone;
pub mod entries;
pub mod frontend;
pub mod hashing;
pub mod ordering;
pub mod string_map;
pub mod time;

use vstd::prelude::*;

use crate::entries::{
    dedup, dedup_vec, first_of_its_key, has_key, lemma_dedup, lemma_dedup_of_unique,
    lemma_of_key_add, lemma_of_key_front, lemma_of_key_members, lemma_of_key_single, of_key,
    same_groups, unique_keys, Identified,
};
use crate::ordering::{insert_pos, is_sorted, lemma_insert_pos_bound, lemma_sort, sort_seq, Ordered};

verus! {

/// Combines two values into one, `self` taking precedence where both hold an entry.
pub trait Merge: Sized {
    fn merge(self, other: Self) -> Self;
}

/// Combines two values into one.
pub trait Upsert: Sized {
    /// If same entry exists in both self and other, should keep the one in other, if entry only exists in one, keep it.
    fn upsert(self, other: Self) -> Self;
}

/// Removes entries whose key occurs earlier.
pub trait Deduplicate<T> where T: Identified {
    fn deduplicate(self) -> Self;
}

impl<T: Identified> Deduplicate<T> for Vec<T> {
    /// Keeps the first entry of each key, in the order in which keys first occur.
    fn deduplicate(self) -> (r: Self)
        ensures
            r@ == dedup(self@),
    {
        dedup_vec(self)
    }
}

impl<T: Identified> Upsert for Vec<T> {
    /// The entries of `other`, then those of `self` whose key `other` lacks.
    fn upsert(self, other: Self) -> (r: Self)
        ensures
            r@ == dedup(other@ + self@),
    {
        let mut upserted = other;
        let mut rest = self;
        upserted.append(&mut rest);
        upserted.deduplicate()
    }
}

impl<T: Identified> Merge for Vec<T> {
    /// The entries of `self`, then those of `other` whose key `self` lacks.
    fn merge(self, other: Self) -> (r: Self)
        ensures
            r@ == dedup(self@ + other@),
    {
        let mut merged = self;
        let mut rest = other;
        merged.append(&mut rest);
        merged.deduplicate()
    }
}

/// Deduplicating leaves exactly one entry for each key of the input, the first
/// one with that key, and deduplicating again changes nothing.
pub proof fn law_deduplicate<T: Identified>(s: Seq<T>)
    ensures
        unique_keys(dedup(s)),
        forall|k: T::Key| has_key(dedup(s), k) <==> has_key(s, k),
        forall|i: int| 0 <= i < dedup(s).len() ==> first_of_its_key(s, #[trigger] dedup(s)[i]),
        dedup(dedup(s)) == dedup(s),
        unique_keys(s) ==> dedup(s) == s,
{
    lemma_dedup(s);
    lemma_dedup_of_unique(dedup(s));
    if unique_keys(s) {
        lemma_dedup_of_unique(s);
    }
}

/// Merging keeps every key of both sides once; where both sides hold a key, the
/// entry of `a` is kept. Lists with distinct keys on both sides are concatenated.
pub proof fn law_merge_keeps_left<T: Identified>(a: Seq<T>, b: Seq<T>)
    ensures
        unique_keys(dedup(a + b)),
        forall|k: T::Key| has_key(dedup(a + b), k) <==> (has_key(a, k) || has_key(b, k)),
        forall|i: int|
            0 <= i < dedup(a + b).len() && has_key(a, (#[trigger] dedup(a + b)[i]).key())
                ==> first_of_its_key(a, dedup(a + b)[i]),
        unique_keys(a + b) ==> dedup(a + b) == a + b,
{
    lemma_concat_prefers_front(a, b);
    if unique_keys(a + b) {
        lemma_dedup_of_unique(a + b);
    }
}

/// Upserting keeps every key of both sides once; where both sides hold a key,
/// the entry of `b` (the new data) is kept.
pub proof fn law_upsert_prefers_new<T: Identified>(a: Seq<T>, b: Seq<T>)
    ensures
        unique_keys(dedup(b + a)),
        forall|k: T::Key| has_key(dedup(b + a), k) <==> (has_key(a, k) || has_key(b, k)),
        forall|i: int|
            0 <= i < dedup(b + a).len() && has_key(b, (#[trigger] dedup(b + a)[i]).key())
                ==> first_of_its_key(b, dedup(b + a)[i]),
{
    lemma_concat_prefers_front(b, a);
}

proof fn lemma_concat_prefers_front<T: Identified>(a: Seq<T>, b: Seq<T>)
    ensures
        unique_keys(dedup(a + b)),
        forall|k: T::Key| has_key(dedup(a + b), k) <==> (has_key(a, k) || has_key(b, k)),
        forall|i: int|
            0 <= i < dedup(a + b).len() && has_key(a, (#[trigger] dedup(a + b)[i]).key())
                ==> first_of_its_key(a, dedup(a + b)[i]),
{
    let s = a + b;
    lemma_dedup(s);
    assert forall|k: T::Key| has_key(s, k) <==> (has_key(a, k) || has_key(b, k)) by {
        if has_key(s, k) {
            let i = choose|i: int| 0 <= i < s.len() && #[trigger] s[i].key() == k;
            if i < a.len() {
                assert(a[i] == s[i]);
            } else {
                assert(b[i - a.len()] == s[i]);
            }
        }
        if has_key(a, k) {
            let i = choose|i: int| 0 <= i < a.len() && #[trigger] a[i].key() == k;
            assert(s[i] == a[i]);
        }
        if has_key(b, k) {
            let i = choose|i: int| 0 <= i < b.len() && #[trigger] b[i].key() == k;
            assert(s[i + a.len()] == b[i]);
        }
    }
    let d = dedup(s);
    assert forall|i: int|
        0 <= i < d.len() && has_key(a, (#[trigger] d[i]).key()) implies first_of_its_key(a, d[i]) by {
        assert(first_of_its_key(s, d[i]));
        let p = choose|p: int|
            0 <= p < s.len() && #[trigger] s[p] == d[i] && forall|q: int|
                0 <= q < p ==> #[trigger] s[q].key() != d[i].key();
        let m = choose|m: int| 0 <= m < a.len() && #[trigger] a[m].key() == d[i].key();
        assert(s[m] == a[m]);
        assert(p <= m);
        assert(a[p] == s[p]);
        assert forall|q: int| 0 <= q < p implies #[trigger] a[q].key() != d[i].key() by {
            assert(a[q] == s[q]);
        }
    }
}

/// Sorting keeps the entries, hence the keys, and keeps keys distinct.
pub proof fn lemma_sort_entries<T: Ordered + Identified>(s: Seq<T>)
    ensures
        forall|x: T| sort_seq(s).contains(x) <==> s.contains(x),
        forall|k: T::Key| has_key(sort_seq(s), k) <==> has_key(s, k),
        unique_keys(s) ==> unique_keys(sort_seq(s)),
    decreases s.len(),
{
    if s.len() > 0 {
        let s0 = s.drop_last();
        let x = s.last();
        lemma_sort_entries(s0);
        lemma_sort(s0);
        let t = sort_seq(s0);
        let p = insert_pos(t, x) as int;
        crate::ordering::lemma_sort(s);
        assert(p <= t.len()) by {
            crate::ordering::lemma_sort(s0);
            lemma_insert_pos_le(t, x);
        }
        let r = t.insert(p, x);
        assert(r == sort_seq(s));
        assert forall|y: T| r.contains(y) <==> (t.contains(y) || y == x) by {
            if r.contains(y) {
                let i = choose|i: int| 0 <= i < r.len() && r[i] == y;
                if i < p {
                    assert(t[i] == y);
                } else if i > p {
                    assert(t[i - 1] == y);
                }
            }
            if t.contains(y) {
                let i = choose|i: int| 0 <= i < t.len() && t[i] == y;
                if i < p {
                    assert(r[i] == y);
                } else {
                    assert(r[i + 1] == y);
                }
            }
            if y == x {
                assert(r[p] == y);
            }
        }
        assert forall|y: T| s.contains(y) <==> (s0.contains(y) || y == x) by {
            if s.contains(y) {
                let i = choose|i: int| 0 <= i < s.len() && s[i] == y;
                if i < s.len() - 1 {
                    assert(s0[i] == y);
                }
            }
            if s0.contains(y) {
                let i = choose|i: int| 0 <= i < s0.len() && s0[i] == y;
                assert(s[i] == y);
            }
            if y == x {
                assert(s[s.len() - 1] == y);
            }
        }
        assert forall|k: T::Key| has_key(r, k) <==> has_key(s, k) by {
            if has_key(r, k) {
                let i = choose|i: int| 0 <= i < r.len() && #[trigger] r[i].key() == k;
                assert(r.contains(r[i]));
                assert(s.contains(r[i]));
                let j = choose|j: int| 0 <= j < s.len() && s[j] == r[i];
                assert(s[j].key() == k);
            }
            if has_key(s, k) {
                let i = choose|i: int| 0 <= i < s.len() && #[trigger] s[i].key() == k;
                assert(s.contains(s[i]));
                assert(r.contains(s[i]));
                let j = choose|j: int| 0 <= j < r.len() && r[j] == s[i];
                assert(r[j].key() == k);
            }
        }
        if unique_keys(s) {
            assert(unique_keys(s0)) by {
                assert forall|i: int, j: int| #![trigger s0[i], s0[j]] 0 <= i < j < s0.len() implies s0[i].key()
                    != s0[j].key() by {
                    assert(s0[i] == s[i] && s0[j] == s[j]);
                }
            }
            assert(!has_key(s0, x.key())) by {
                if has_key(s0, x.key()) {
                    let i = choose|i: int| 0 <= i < s0.len() && #[trigger] s0[i].key() == x.key();
                    assert(s[i] == s0[i]);
                    assert(s[i].key() != s[s.len() - 1].key());
                }
            }
            assert(!has_key(t, x.key()));
            assert forall|i: int, j: int| #![trigger r[i], r[j]] 0 <= i < j < r.len() implies r[i].key()
                != r[j].key() by {
                if i == p {
                    assert(r[j] == t[j - 1]);
                } else if j == p {
                    assert(r[i] == t[i]);
                } else {
                    let a = if i < p {
                        i
                    } else {
                        i - 1
                    };
                    let b = if j < p {
                        j
                    } else {
                        j - 1
                    };
                    assert(r[i] == t[a] && r[j] == t[b]);
                }
            }
        }
    }
}

proof fn lemma_insert_pos_le<T: Ordered>(s: Seq<T>, x: T)
    ensures
        insert_pos(s, x) <= s.len(),
    decreases s.len(),
{
    if s.len() > 0 && s[0].precedes(&x) {
        lemma_insert_pos_le(s.drop_first(), x);
    }
}

/// Values whose order agrees with their keys: two values precede each other both
/// ways exactly when their keys are equal.
pub trait KeyOrdered: Ordered + Identified {
    proof fn lemma_order_follows_key(a: &Self, b: &Self)
        ensures
            (a.precedes(b) && b.precedes(a)) <==> a.key() == b.key(),
    ;
}

/// Sorting is stable: the entries of each key keep their order.
pub proof fn lemma_sort_keeps_groups<T: KeyOrdered>(s: Seq<T>, k: T::Key)
    ensures
        of_key(sort_seq(s), k) == of_key(s, k),
    decreases s.len(),
{
    if s.len() > 0 {
        let s0 = s.drop_last();
        let x = s.last();
        lemma_sort_keeps_groups(s0, k);
        lemma_sort(s0);
        let t = sort_seq(s0);
        lemma_insert_pos_bound(t, x);
        let p = insert_pos(t, x) as int;
        let pre = t.take(p);
        let post = t.skip(p);
        assert(sort_seq(s) == t.insert(p, x));
        assert(t.insert(p, x) =~= pre + seq![x] + post);
        assert(t =~= pre + post);
        lemma_of_key_add(pre + seq![x], post, k);
        lemma_of_key_add(pre, seq![x], k);
        lemma_of_key_add(pre, post, k);
        lemma_of_key_single(x, k);
        if x.key() == k {
            assert forall|j: int| 0 <= j < post.len() implies #[trigger] post[j].key() != k by {
                if post[j].key() == k {
                    assert(p + j < t.len());
                    assert(post[j] == t[p + j]);
                    assert(t[p + j].key() == x.key());
                    let y = t[p + j];
                    T::lemma_order_follows_key(&y, &x);
                    assert(t[p + j].precedes(&x) && x.precedes(&t[p + j]));
                    if j > 0 {
                        assert(t[p].precedes(&t[p + j]));
                        T::lemma_trans(&t[p], &t[p + j], &x);
                    }
                }
            }
            lemma_of_key_members(post, k);
            assert(of_key(pre, k) + seq![x] + of_key(post, k) =~= of_key(t, k).push(x));
        } else {
            assert(of_key(pre, k) + Seq::<T>::empty() =~= of_key(pre, k));
        }
    }
}

/// Sorted lists with the same entries of each key are equal.
pub proof fn lemma_sorted_groups_determined<T: KeyOrdered>(a: Seq<T>, b: Seq<T>)
    requires
        is_sorted(a),
        is_sorted(b),
        same_groups(a, b),
    ensures
        a == b,
    decreases a.len(),
{
    if a.len() == 0 || b.len() == 0 {
        if b.len() > 0 {
            lemma_of_key_members(b, b[0].key());
            lemma_of_key_members(a, b[0].key());
            assert(b.contains(b[0]));
            assert(of_key(b, b[0].key()).contains(b[0]));
            assert(of_key(a, b[0].key()) == of_key(b, b[0].key()));
        }
        if a.len() > 0 {
            lemma_of_key_members(a, a[0].key());
            lemma_of_key_members(b, a[0].key());
            assert(a.contains(a[0]));
            assert(of_key(a, a[0].key()).contains(a[0]));
            assert(of_key(a, a[0].key()) == of_key(b, a[0].key()));
        }
        assert(a =~= b);
    } else {
        let k0 = a[0].key();
        let k1 = b[0].key();
        lemma_of_key_members(a, k0);
        lemma_of_key_members(b, k0);
        lemma_of_key_members(a, k1);
        lemma_of_key_members(b, k1);
        assert(a.contains(a[0]));
        assert(of_key(a, k0) == of_key(b, k0));
        assert(of_key(b, k0).contains(a[0]));
        let j = choose|j: int| 0 <= j < b.len() && b[j] == a[0];
        T::lemma_total(&b[0], &b[0]);
        if j > 0 {
            assert(b[0].precedes(&b[j]));
        }
        assert(b.contains(b[0]));
        assert(of_key(a, k1) == of_key(b, k1));
        assert(of_key(a, k1).contains(b[0]));
        let i = choose|i: int| 0 <= i < a.len() && a[i] == b[0];
        T::lemma_total(&a[0], &a[0]);
        if i > 0 {
            assert(a[0].precedes(&a[i]));
        }
        assert(a[0].precedes(&b[0]) && b[0].precedes(&a[0]));
        T::lemma_order_follows_key(&a[0], &b[0]);
        assert(k0 == k1);
        lemma_of_key_front(a, k0);
        lemma_of_key_front(b, k0);
        assert(of_key(a, k0)[0] == a[0]);
        assert(of_key(b, k0)[0] == b[0]);
        let ra = a.drop_first();
        let rb = b.drop_first();
        assert forall|k: T::Key| #[trigger] of_key(ra, k) == of_key(rb, k) by {
            lemma_of_key_front(a, k);
            lemma_of_key_front(b, k);
            assert(of_key(a, k) == of_key(b, k));
            if k == k0 {
                assert(of_key(ra, k) =~= of_key(a, k).drop_first());
                assert(of_key(rb, k) =~= of_key(b, k).drop_first());
            }
        }
        assert forall|p: int, q: int| #![trigger ra[p], ra[q]] 0 <= p < q < ra.len() implies ra[p].precedes(
            &ra[q],
        ) by {
            assert(ra[p] == a[p + 1] && ra[q] == a[q + 1]);
        }
        assert forall|p: int, q: int| #![trigger rb[p], rb[q]] 0 <= p < q < rb.len() implies rb[p].precedes(
            &rb[q],
        ) by {
            assert(rb[p] == b[p + 1] && rb[q] == b[q + 1]);
        }
        lemma_sorted_groups_determined(ra, rb);
        assert(a =~= seq![a[0]] + ra);
        assert(b =~= seq![b[0]] + rb);
    }
}

/// Lists with the same entries of each key sort to the same list.
pub proof fn lemma_sort_same_groups<T: KeyOrdered>(a: Seq<T>, b: Seq<T>)
    requires
        same_groups(a, b),
    ensures
        sort_seq(a) == sort_seq(b),
{
    lemma_sort(a);
    lemma_sort(b);
    assert forall|k: T::Key| #[trigger] of_key(sort_seq(a), k) == of_key(sort_seq(b), k) by {
        lemma_sort_keeps_groups(a, k);
        lemma_sort_keeps_groups(b, k);
        assert(of_key(a, k) == of_key(b, k));
    }
    lemma_sorted_groups_determined(sort_seq(a), sort_seq(b));
}

} // verus!

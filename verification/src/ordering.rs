//! Lexicographic order of strings, total preorders, and a stable insertion sort.
use vstd::prelude::*;

use crate::deep_clone::deep_seq;

verus! {

/// `a` comes before or equals `b` in lexicographic order of characters. (For
/// Rust strings this is the order of `str`'s `Ord`: UTF-8 keeps the order of
/// code points.)
pub open spec fn lex_le(a: Seq<char>, b: Seq<char>) -> bool
    decreases a.len(),
{
    if a.len() == 0 {
        true
    } else if b.len() == 0 {
        false
    } else if a[0] != b[0] {
        (a[0] as int) < (b[0] as int)
    } else {
        lex_le(a.drop_first(), b.drop_first())
    }
}

pub proof fn lemma_lex_total(a: Seq<char>, b: Seq<char>)
    ensures
        lex_le(a, b) || lex_le(b, a),
    decreases a.len(),
{
    if a.len() > 0 && b.len() > 0 && a[0] == b[0] {
        lemma_lex_total(a.drop_first(), b.drop_first());
    }
    if a.len() > 0 && b.len() > 0 && a[0] != b[0] {
        assert((a[0] as int) != (b[0] as int));
    }
}

pub proof fn lemma_lex_trans(a: Seq<char>, b: Seq<char>, c: Seq<char>)
    requires
        lex_le(a, b),
        lex_le(b, c),
    ensures
        lex_le(a, c),
    decreases a.len(),
{
    if a.len() > 0 && b.len() > 0 && c.len() > 0 && a[0] == b[0] && b[0] == c[0] {
        lemma_lex_trans(a.drop_first(), b.drop_first(), c.drop_first());
    }
}

pub proof fn lemma_lex_antisym(a: Seq<char>, b: Seq<char>)
    requires
        lex_le(a, b),
        lex_le(b, a),
    ensures
        a == b,
    decreases a.len(),
{
    if a.len() > 0 && b.len() > 0 {
        if a[0] != b[0] {
            assert((a[0] as int) != (b[0] as int));
        } else {
            lemma_lex_antisym(a.drop_first(), b.drop_first());
            assert(a =~= seq![a[0]] + a.drop_first());
            assert(b =~= seq![b[0]] + b.drop_first());
        }
    }
}

/// `a` comes before or equals `b` exactly when `a` is a prefix of `b`, or at the
/// first place where they differ the character of `a` is the smaller one.
pub proof fn law_lex_le_first_difference(a: Seq<char>, b: Seq<char>)
    ensures
        lex_le(a, b) <==> ((a.len() <= b.len() && a == b.take(a.len() as int)) || exists|i: int|
            0 <= i < a.len() && i < b.len() && a.take(i) == b.take(i) && (a[i] as int) < (
            b[i] as int)),
    decreases a.len(),
{
    if a.len() == 0 {
        assert(a =~= b.take(0));
    } else if b.len() == 0 {
    } else if a[0] != b[0] {
        if (a[0] as int) < (b[0] as int) {
            assert(a.take(0) =~= b.take(0));
        }
        assert forall|i: int|
            0 <= i < a.len() && i < b.len() && a.take(i) == b.take(i) implies i == 0 by {
            if i > 0 {
                assert(a.take(i)[0] == b.take(i)[0]);
            }
        }
        if a.len() <= b.len() && a == b.take(a.len() as int) {
            assert(a[0] == b.take(a.len() as int)[0]);
        }
    } else {
        let a1 = a.drop_first();
        let b1 = b.drop_first();
        law_lex_le_first_difference(a1, b1);
        assert((a.len() <= b.len() && a == b.take(a.len() as int)) <==> (a1.len() <= b1.len() && a1
            == b1.take(a1.len() as int))) by {
            if a.len() <= b.len() && a == b.take(a.len() as int) {
                assert(a1 =~= b1.take(a1.len() as int));
            }
            if a1.len() <= b1.len() && a1 == b1.take(a1.len() as int) {
                assert forall|k: int| 0 <= k < a.len() implies a[k] == b.take(a.len() as int)[k] by {
                    if k > 0 {
                        assert(a[k] == a1[k - 1]);
                        assert(a1[k - 1] == b1.take(a1.len() as int)[k - 1]);
                        assert(b[k] == b1[k - 1]);
                    }
                }
                assert(a =~= b.take(a.len() as int));
            }
        }
        if exists|i: int|
            0 <= i < a.len() && i < b.len() && a.take(i) == b.take(i) && (a[i] as int) < (
            b[i] as int) {
            let i = choose|i: int|
                0 <= i < a.len() && i < b.len() && a.take(i) == b.take(i) && (a[i] as int) < (
                b[i] as int);
            assert(i > 0);
            assert(a1.take(i - 1) =~= a.take(i).drop_first());
            assert(b1.take(i - 1) =~= b.take(i).drop_first());
            assert(a1[i - 1] == a[i] && b1[i - 1] == b[i]);
        }
        if exists|i: int|
            0 <= i < a1.len() && i < b1.len() && a1.take(i) == b1.take(i) && (a1[i] as int) < (
            b1[i] as int) {
            let i = choose|i: int|
                0 <= i < a1.len() && i < b1.len() && a1.take(i) == b1.take(i) && (a1[i] as int) < (
                b1[i] as int);
            assert(a.take(i + 1) =~= seq![a[0]] + a1.take(i));
            assert(b.take(i + 1) =~= seq![b[0]] + b1.take(i));
            assert(a[i + 1] == a1[i] && b[i + 1] == b1[i]);
        }
    }
}

/// Whether `a` comes before or equals `b` in lexicographic order.
pub fn str_le(a: &str, b: &str) -> (r: bool)
    ensures
        r == lex_le(a@, b@),
{
    let la = a.unicode_len();
    let lb = b.unicode_len();
    let mut i: usize = 0;
    assert(a@.skip(0) =~= a@);
    assert(b@.skip(0) =~= b@);
    while i < la && i < lb
        invariant
            la == a@.len(),
            lb == b@.len(),
            i <= la,
            i <= lb,
            lex_le(a@, b@) == lex_le(a@.skip(i as int), b@.skip(i as int)),
        decreases la - i,
    {
        let ca = a.get_char(i);
        let cb = b.get_char(i);
        if ca != cb {
            return (ca as u32) < (cb as u32);
        }
        assert(a@.skip(i as int).drop_first() =~= a@.skip(i + 1));
        assert(b@.skip(i as int).drop_first() =~= b@.skip(i + 1));
        i = i + 1;
    }
    i == la
}

/// Whether `a` and `b` hold the same characters.
pub fn str_eq(a: &str, b: &str) -> (r: bool)
    ensures
        r == (a@ == b@),
{
    let la = a.unicode_len();
    let lb = b.unicode_len();
    if la != lb {
        return false;
    }
    let mut i: usize = 0;
    while i < la
        invariant
            la == a@.len(),
            lb == b@.len(),
            la == lb,
            i <= la,
            forall|j: int| 0 <= j < i ==> a@[j] == b@[j],
        decreases la - i,
    {
        if a.get_char(i) != b.get_char(i) {
            return false;
        }
        i = i + 1;
    }
    assert(a@ =~= b@);
    true
}

/// A total preorder: `precedes` says that a value may stand before another in a
/// sorted sequence.
pub trait Ordered: DeepView + Sized {
    spec fn precedes(&self, other: &Self) -> bool;

    proof fn lemma_total(a: &Self, b: &Self)
        ensures
            a.precedes(b) || b.precedes(a),
    ;

    proof fn lemma_trans(a: &Self, b: &Self, c: &Self)
        requires
            a.precedes(b),
            b.precedes(c),
        ensures
            a.precedes(c),
    ;

    /// Whether one value precedes another depends on their deep views alone.
    proof fn lemma_precedes_deep(a: &Self, b: &Self, c: &Self, d: &Self)
        requires
            a.deep_view() == c.deep_view(),
            b.deep_view() == d.deep_view(),
        ensures
            a.precedes(b) == c.precedes(d),
    ;

    fn check_precedes(&self, other: &Self) -> (r: bool)
        ensures
            r == self.precedes(other),
    ;
}

impl Ordered for String {
    open spec fn precedes(&self, other: &Self) -> bool {
        lex_le(self@, other@)
    }

    proof fn lemma_total(a: &Self, b: &Self) {
        lemma_lex_total(a@, b@);
    }

    proof fn lemma_trans(a: &Self, b: &Self, c: &Self) {
        lemma_lex_trans(a@, b@, c@);
    }

    proof fn lemma_precedes_deep(a: &Self, b: &Self, c: &Self, d: &Self) {
    }

    fn check_precedes(&self, other: &Self) -> (r: bool) {
        str_le(self.as_str(), other.as_str())
    }
}

/// Every element precedes every later one.
pub open spec fn is_sorted<T: Ordered>(s: Seq<T>) -> bool {
    forall|i: int, j: int| #![trigger s[i], s[j]] 0 <= i < j < s.len() ==> s[i].precedes(&s[j])
}

/// Where a stable insertion puts `x` into `s`: after the leading elements that
/// precede it.
pub open spec fn insert_pos<T: Ordered>(s: Seq<T>, x: T) -> nat
    decreases s.len(),
{
    if s.len() == 0 {
        0
    } else if !s[0].precedes(&x) {
        0
    } else {
        1 + insert_pos(s.drop_first(), x)
    }
}

pub open spec fn insert_sorted<T: Ordered>(s: Seq<T>, x: T) -> Seq<T> {
    s.insert(insert_pos(s, x) as int, x)
}

/// The stable sort of `s`: its elements inserted one by one, in order, into a
/// sorted sequence, each after the elements already there that precede it.
pub open spec fn sort_seq<T: Ordered>(s: Seq<T>) -> Seq<T>
    decreases s.len(),
{
    if s.len() == 0 {
        s
    } else {
        insert_sorted(sort_seq(s.drop_last()), s.last())
    }
}

pub proof fn lemma_insert_pos_bound<T: Ordered>(s: Seq<T>, x: T)
    ensures
        insert_pos(s, x) <= s.len(),
        forall|k: int| 0 <= k < insert_pos(s, x) ==> #[trigger] s[k].precedes(&x),
        insert_pos(s, x) < s.len() ==> !s[insert_pos(s, x) as int].precedes(&x),
    decreases s.len(),
{
    if s.len() > 0 && s[0].precedes(&x) {
        lemma_insert_pos_bound(s.drop_first(), x);
        assert forall|k: int| 0 <= k < insert_pos(s, x) implies #[trigger] s[k].precedes(&x) by {
            if k > 0 {
                assert(s[k] == s.drop_first()[k - 1]);
            }
        }
    }
}

proof fn lemma_insert_pos_is<T: Ordered>(s: Seq<T>, x: T, j: int)
    requires
        0 <= j <= s.len(),
        forall|k: int| 0 <= k < j ==> #[trigger] s[k].precedes(&x),
        j < s.len() ==> !s[j].precedes(&x),
    ensures
        insert_pos(s, x) == j,
    decreases s.len(),
{
    if s.len() > 0 && j > 0 {
        assert(s[0].precedes(&x));
        assert forall|k: int| 0 <= k < j - 1 implies #[trigger] s.drop_first()[k].precedes(&x) by {
            assert(s.drop_first()[k] == s[k + 1]);
        }
        lemma_insert_pos_is(s.drop_first(), x, j - 1);
    }
}

/// Inserting into a sorted sequence keeps it sorted.
pub proof fn lemma_insert_sorted<T: Ordered>(s: Seq<T>, x: T)
    requires
        is_sorted(s),
    ensures
        is_sorted(insert_sorted(s, x)),
{
    lemma_insert_pos_bound(s, x);
    let p = insert_pos(s, x) as int;
    let r = insert_sorted(s, x);
    assert forall|i: int, j: int| #![trigger r[i], r[j]] 0 <= i < j < r.len() implies r[i].precedes(
        &r[j],
    ) by {
        if i < p && j < p {
            assert(r[i] == s[i] && r[j] == s[j]);
        } else if i < p && j == p {
            assert(r[i] == s[i]);
        } else if i < p && j > p {
            assert(r[i] == s[i] && r[j] == s[j - 1]);
        } else if i == p {
            assert(r[j] == s[j - 1]);
            T::lemma_total(&s[p], &x);
            if j - 1 > p {
                assert(s[p].precedes(&s[j - 1]));
                T::lemma_trans(&x, &s[p], &s[j - 1]);
            }
        } else {
            assert(r[i] == s[i - 1] && r[j] == s[j - 1]);
        }
    }
}

/// The sort is sorted, and it holds the same elements as its input.
pub proof fn lemma_sort<T: Ordered>(s: Seq<T>)
    ensures
        is_sorted(sort_seq(s)),
        sort_seq(s).to_multiset() == s.to_multiset(),
        sort_seq(s).len() == s.len(),
    decreases s.len(),
{
    if s.len() > 0 {
        let s0 = s.drop_last();
        lemma_sort(s0);
        lemma_insert_sorted(sort_seq(s0), s.last());
        lemma_insert_pos_bound(sort_seq(s0), s.last());
        let t = sort_seq(s0);
        let p = insert_pos(t, s.last()) as int;
        vstd::seq_lib::to_multiset_insert(t, p, s.last());
        vstd::seq_lib::to_multiset_insert(s0, s0.len() as int, s.last());
        assert(s0.insert(s0.len() as int, s.last()) =~= s);
    }
}

proof fn lemma_insert_pos_deep<T: Ordered>(a: Seq<T>, b: Seq<T>, x: T, y: T)
    requires
        deep_seq(a) == deep_seq(b),
        x.deep_view() == y.deep_view(),
    ensures
        insert_pos(a, x) == insert_pos(b, y),
    decreases a.len(),
{
    assert(deep_seq(a).len() == a.len() && deep_seq(b).len() == b.len());
    if a.len() > 0 {
        assert(deep_seq(a)[0] == a[0].deep_view() && deep_seq(b)[0] == b[0].deep_view());
        T::lemma_precedes_deep(&a[0], &x, &b[0], &y);
        if a[0].precedes(&x) {
            assert(deep_seq(a.drop_first()) =~= deep_seq(a).drop_first());
            assert(deep_seq(b.drop_first()) =~= deep_seq(b).drop_first());
            lemma_insert_pos_deep(a.drop_first(), b.drop_first(), x, y);
        }
    }
}

/// Sorting sequences with equal deep views gives results with equal deep views.
pub proof fn lemma_sort_deep<T: Ordered>(a: Seq<T>, b: Seq<T>)
    requires
        deep_seq(a) == deep_seq(b),
    ensures
        deep_seq(sort_seq(a)) == deep_seq(sort_seq(b)),
    decreases a.len(),
{
    assert(deep_seq(a).len() == a.len() && deep_seq(b).len() == b.len());
    if a.len() > 0 {
        let a0 = a.drop_last();
        let b0 = b.drop_last();
        assert(deep_seq(a0) =~= deep_seq(a).drop_last());
        assert(deep_seq(b0) =~= deep_seq(b).drop_last());
        lemma_sort_deep(a0, b0);
        assert(deep_seq(a)[a.len() - 1] == a.last().deep_view());
        assert(deep_seq(b)[b.len() - 1] == b.last().deep_view());
        let ta = sort_seq(a0);
        let tb = sort_seq(b0);
        lemma_insert_pos_deep(ta, tb, a.last(), b.last());
        lemma_insert_pos_bound(ta, a.last());
        let p = insert_pos(ta, a.last()) as int;
        let ra = ta.insert(p, a.last());
        let rb = tb.insert(p, b.last());
        assert(deep_seq(ta).len() == ta.len() && deep_seq(tb).len() == tb.len());
        assert forall|i: int| 0 <= i < ra.len() implies #[trigger] ra[i].deep_view()
            == rb[i].deep_view() by {
            if i < p {
                assert(deep_seq(ta)[i] == deep_seq(tb)[i]);
            } else if i > p {
                assert(deep_seq(ta)[i - 1] == deep_seq(tb)[i - 1]);
            }
        }
        assert(deep_seq(ra) =~= deep_seq(rb));
    }
}

/// Each string comes strictly before the next ones.
pub open spec fn strictly_ascending(s: Seq<Seq<char>>) -> bool {
    forall|i: int, j: int|
        #![trigger s[i], s[j]]
        0 <= i < j < s.len() ==> lex_le(s[i], s[j]) && s[i] != s[j]
}

/// Strictly ascending sequences of strings with the same elements are equal.
pub proof fn lemma_ascending_determined(x: Seq<Seq<char>>, y: Seq<Seq<char>>)
    requires
        strictly_ascending(x),
        strictly_ascending(y),
        forall|e: Seq<char>| x.contains(e) <==> y.contains(e),
    ensures
        x == y,
    decreases x.len(),
{
    if x.len() == 0 {
        if y.len() > 0 {
            assert(y.contains(y[0]));
        }
        assert(x =~= y);
    } else {
        assert(x.contains(x[0]));
        assert(y.contains(x[0]));
        let j = choose|j: int| 0 <= j < y.len() && y[j] == x[0];
        assert(y.contains(y[0]));
        assert(x.contains(y[0]));
        let i = choose|i: int| 0 <= i < x.len() && x[i] == y[0];
        if j > 0 {
            assert(lex_le(y[0], y[j]));
        } else {
            lemma_lex_total(y[0], x[0]);
        }
        if i > 0 {
            assert(lex_le(x[0], x[i]));
        } else {
            lemma_lex_total(x[0], y[0]);
        }
        lemma_lex_antisym(x[0], y[0]);
        let xr = x.drop_first();
        let yr = y.drop_first();
        assert(strictly_ascending(xr)) by {
            assert forall|a: int, b: int| #![trigger xr[a], xr[b]] 0 <= a < b < xr.len() implies lex_le(
                xr[a],
                xr[b],
            ) && xr[a] != xr[b] by {
                assert(xr[a] == x[a + 1] && xr[b] == x[b + 1]);
            }
        }
        assert(strictly_ascending(yr)) by {
            assert forall|a: int, b: int| #![trigger yr[a], yr[b]] 0 <= a < b < yr.len() implies lex_le(
                yr[a],
                yr[b],
            ) && yr[a] != yr[b] by {
                assert(yr[a] == y[a + 1] && yr[b] == y[b + 1]);
            }
        }
        assert forall|e: Seq<char>| xr.contains(e) <==> yr.contains(e) by {
            if xr.contains(e) {
                let a = choose|a: int| 0 <= a < xr.len() && xr[a] == e;
                assert(x[a + 1] == e);
                assert(x[0] != x[a + 1]);
                assert(x.contains(e));
                let b = choose|b: int| 0 <= b < y.len() && y[b] == e;
                assert(b != 0);
                assert(yr[b - 1] == e);
            }
            if yr.contains(e) {
                let a = choose|a: int| 0 <= a < yr.len() && yr[a] == e;
                assert(y[a + 1] == e);
                assert(y[0] != y[a + 1]);
                assert(y.contains(e));
                let b = choose|b: int| 0 <= b < x.len() && x[b] == e;
                assert(b != 0);
                assert(xr[b - 1] == e);
            }
        }
        lemma_ascending_determined(xr, yr);
        assert(x =~= seq![x[0]] + xr);
        assert(y =~= seq![y[0]] + yr);
    }
}

/// Sorts `v` stably; the result is `sort_seq(v@)`.
pub fn sort_vec<T: Ordered>(v: Vec<T>) -> (r: Vec<T>)
    ensures
        r@ == sort_seq(v@),
{
    let ghost orig = v@;
    let mut rest = v;
    let mut out: Vec<T> = Vec::new();
    let ghost mut i: int = 0;
    assert(orig.take(0) =~= Seq::<T>::empty());
    assert(orig.skip(0) =~= orig);
    while rest.len() > 0
        invariant
            0 <= i <= orig.len(),
            out@ == sort_seq(orig.take(i)),
            rest@ == orig.skip(i),
        decreases rest.len(),
    {
        let x = rest.remove(0);
        assert(orig.take(i + 1).drop_last() =~= orig.take(i));
        assert(orig.take(i + 1).last() == x);
        let mut j: usize = 0;
        while j < out.len() && out[j].check_precedes(&x)
            invariant
                j <= out.len(),
                forall|k: int| 0 <= k < j ==> #[trigger] out@[k].precedes(&x),
            decreases out.len() - j,
        {
            j = j + 1;
        }
        proof {
            lemma_insert_pos_is(out@, x, j as int);
        }
        out.insert(j, x);
        assert(orig.skip(i).remove(0) =~= orig.skip(i + 1));
        proof {
            i = i + 1;
        }
    }
    assert(orig.take(i) =~= orig);
    out
}

} // verus!

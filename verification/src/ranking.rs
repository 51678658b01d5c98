//! Orders and the best `k` of a sequence under one: the facts a bounded
//! insertion needs to be the sort it stands in for.
use vstd::prelude::*;
use vstd::relations::{sorted_by, total_ordering};

verus! {

/// Two sorted sequences holding the same items are the same sequence.
pub proof fn lemma_sorted_unique<T>(a: Seq<T>, b: Seq<T>, leq: spec_fn(T, T) -> bool)
    requires
        total_ordering(leq),
        sorted_by(a, leq),
        sorted_by(b, leq),
        a.to_multiset() == b.to_multiset(),
    ensures
        a == b,
    decreases a.len(),
{
    broadcast use vstd::seq_lib::group_to_multiset_ensures;
    a.to_multiset_ensures();
    b.to_multiset_ensures();
    if a.len() == 0 {
        assert(b.len() == 0);
        assert(a =~= b);
    } else {
        assert(b.len() == a.len());
        assert(a.to_multiset().count(a[0]) > 0);
        assert(b.contains(a[0]));
        let j = choose|j: int| 0 <= j < b.len() && b[j] == a[0];
        assert(leq(b[0], a[0])) by {
            if j > 0 {
                assert(leq(b[0], b[j]));
            }
        }
        assert(b.contains(b[0])) by {
            assert(b[0] == b[0]);
        }
        assert(b.to_multiset().count(b[0]) > 0);
        assert(a.contains(b[0]));
        let i = choose|i: int| 0 <= i < a.len() && a[i] == b[0];
        assert(leq(a[0], b[0])) by {
            if i > 0 {
                assert(leq(a[0], a[i]));
            }
        }
        assert(a[0] == b[0]);
        assert(a.remove(0) =~= a.drop_first());
        assert(b.remove(0) =~= b.drop_first());
        assert(a.drop_first().to_multiset() == b.drop_first().to_multiset());
        assert forall|x: int, y: int| 0 <= x < y < a.drop_first().len() implies #[trigger] leq(a.drop_first()[x], a.drop_first()[y]) by {
            assert(leq(a[x + 1], a[y + 1]));
        }
        assert forall|x: int, y: int| 0 <= x < y < b.drop_first().len() implies #[trigger] leq(b.drop_first()[x], b.drop_first()[y]) by {
            assert(leq(b[x + 1], b[y + 1]));
        }
        lemma_sorted_unique(a.drop_first(), b.drop_first(), leq);
        assert forall|k: int| 0 <= k < a.len() implies a[k] == b[k] by {
            if k > 0 {
                assert(a[k] == a.drop_first()[k - 1]);
                assert(b[k] == b.drop_first()[k - 1]);
            }
        }
        assert(a =~= b);
    }
}

/// The first `k` of `xs` in the order `leq` (all of them when there are
/// fewer).
pub open spec fn top<T>(xs: Seq<T>, leq: spec_fn(T, T) -> bool, k: int) -> Seq<T> {
    let sorted = xs.sort_by(leq);
    if k < sorted.len() {
        sorted.take(k)
    } else {
        sorted
    }
}

/// Where `x` goes in a sorted `s`: after every item at or before it.
pub open spec fn insertion_point<T>(s: Seq<T>, x: T, leq: spec_fn(T, T) -> bool) -> int
    decreases s.len(),
{
    if s.len() == 0 {
        0
    } else if !leq(s[0], x) {
        0
    } else {
        1 + insertion_point(s.drop_first(), x, leq)
    }
}

/// `x` put in its place in a sorted `c` that keeps at most `k`: dropped
/// when its place is past the `k`-th.
pub open spec fn bounded_insert<T>(c: Seq<T>, x: T, leq: spec_fn(T, T) -> bool, k: int) -> Seq<T> {
    let q = insertion_point(c, x, leq);
    if q < k {
        let d = c.insert(q, x);
        if d.len() > k {
            d.take(k)
        } else {
            d
        }
    } else {
        c
    }
}

pub proof fn lemma_insertion_point<T>(s: Seq<T>, x: T, leq: spec_fn(T, T) -> bool)
    ensures
        0 <= insertion_point(s, x, leq) <= s.len(),
        forall|i: int| 0 <= i < insertion_point(s, x, leq) ==> #[trigger] leq(s[i], x),
        insertion_point(s, x, leq) < s.len() ==> !leq(s[insertion_point(s, x, leq)], x),
    decreases s.len(),
{
    if s.len() > 0 && leq(s[0], x) {
        lemma_insertion_point(s.drop_first(), x, leq);
        assert forall|i: int| 0 <= i < insertion_point(s, x, leq) implies #[trigger] leq(s[i], x) by {
            if i > 0 {
                assert(s[i] == s.drop_first()[i - 1]);
            }
        }
    }
}

/// In a prefix, the insertion point is the whole sequence's, cut at the
/// prefix's end.
proof fn lemma_insertion_point_take<T>(s: Seq<T>, x: T, leq: spec_fn(T, T) -> bool, m: int)
    requires
        0 <= m <= s.len(),
    ensures
        insertion_point(s.take(m), x, leq) == if insertion_point(s, x, leq) < m { insertion_point(s, x, leq) } else { m },
    decreases m,
{
    lemma_insertion_point(s, x, leq);
    if m > 0 {
        assert(s.take(m)[0] == s[0]);
        if leq(s[0], x) {
            assert(s.take(m).drop_first() =~= s.drop_first().take(m - 1));
            lemma_insertion_point_take(s.drop_first(), x, leq, m - 1);
        }
    }
}

/// Putting `x` at its insertion point keeps a sorted sequence sorted.
proof fn lemma_insert_sorted<T>(s: Seq<T>, x: T, leq: spec_fn(T, T) -> bool)
    requires
        total_ordering(leq),
        sorted_by(s, leq),
    ensures
        sorted_by(s.insert(insertion_point(s, x, leq), x), leq),
{
    lemma_insertion_point(s, x, leq);
    let p = insertion_point(s, x, leq);
    let d = s.insert(p, x);
    assert forall|j: int| p <= j < s.len() implies #[trigger] leq(x, s[j]) by {
        if leq(s[j], x) {
            if j > p {
                assert(leq(s[p], s[j]));
            }
            assert(leq(s[p], x));
        }
    }
    assert forall|a: int, b: int| 0 <= a < b < d.len() implies #[trigger] leq(d[a], d[b]) by {
        if b < p {
            assert(leq(s[a], s[b]));
        } else if b == p {
            assert(leq(s[a], x));
        } else if a < p {
            assert(leq(s[a], x));
            assert(leq(x, s[b - 1]));
        } else if a == p {
            assert(leq(x, s[b - 1]));
        } else {
            assert(leq(s[a - 1], s[b - 1]));
        }
    }
}

/// Sorting one more item puts it at its insertion point.
pub proof fn lemma_sort_push<T>(xs: Seq<T>, x: T, leq: spec_fn(T, T) -> bool)
    requires
        total_ordering(leq),
    ensures
        xs.push(x).sort_by(leq) == xs.sort_by(leq).insert(insertion_point(xs.sort_by(leq), x, leq), x),
{
    broadcast use vstd::seq_lib::group_to_multiset_ensures;
    let s = xs.sort_by(leq);
    xs.lemma_sort_by_ensures(leq);
    xs.push(x).lemma_sort_by_ensures(leq);
    lemma_insertion_point(s, x, leq);
    let p = insertion_point(s, x, leq);
    lemma_insert_sorted(s, x, leq);
    vstd::seq_lib::to_multiset_insert(s, p, x);
    lemma_sorted_unique(xs.push(x).sort_by(leq), s.insert(p, x), leq);
}

/// The best `k` of one more item: that item put into the best `k` so far.
pub proof fn lemma_top_push<T>(xs: Seq<T>, x: T, leq: spec_fn(T, T) -> bool, k: int)
    requires
        total_ordering(leq),
        k >= 0,
    ensures
        top(xs.push(x), leq, k) == bounded_insert(top(xs, leq, k), x, leq, k),
{
    let s = xs.sort_by(leq);
    xs.lemma_sort_by_ensures(leq);
    broadcast use vstd::seq_lib::group_to_multiset_ensures;
    xs.to_multiset_ensures();
    s.to_multiset_ensures();
    lemma_sort_push(xs, x, leq);
    lemma_insertion_point(s, x, leq);
    let p = insertion_point(s, x, leq);
    let big = s.insert(p, x);
    let m = if k < s.len() { k } else { s.len() as int };
    let c = top(xs, leq, k);
    assert(c =~= s.take(m));
    lemma_insertion_point_take(s, x, leq, m);
    let q = insertion_point(c, x, leq);
    assert(xs.push(x).sort_by(leq) == big);
    if q < k {
        let d = c.insert(q, x);
        let want = top(xs.push(x), leq, k);
        let got = bounded_insert(c, x, leq, k);
        if p < m {
            assert(q == p);
            assert(got.len() == want.len());
            assert forall|i: int| 0 <= i < got.len() implies got[i] == want[i] by {
                if i < p {
                    assert(got[i] == s[i]);
                } else if i > p {
                    assert(got[i] == s[i - 1]);
                }
            }
            assert(got =~= want);
        } else {
            assert(q == m);
            assert(m == s.len());
            assert(p == s.len());
            assert(got =~= want);
        }
    } else {
        assert(m == k);
        let want = top(xs.push(x), leq, k);
        assert forall|i: int| 0 <= i < k implies want[i] == c[i] by {
            assert(want[i] == big[i]);
        }
        assert(want =~= c);
    }
}

} // verus!

//! Strictly sorted sequences.

use vstd::prelude::*;

verus! {

/// Every element comes before all that follow it.
pub open spec fn strictly_sorted<T>(s: Seq<T>, before: spec_fn(T, T) -> bool) -> bool {
    forall|i: int, j: int|
        0 <= i < j < s.len() ==> #[trigger] before(s[i], s[j])
}

/// Of two elements at most one comes before the other.
pub open spec fn asymmetric<T>(before: spec_fn(T, T) -> bool) -> bool {
    forall|x: T, y: T| !(#[trigger] before(x, y) && before(y, x))
}

/// There is one way to sort strictly: two sorted sequences of the same elements are equal.
pub proof fn law_sorting_is_unique<T>(a: Seq<T>, b: Seq<T>, before: spec_fn(T, T) -> bool)
    requires
        asymmetric(before),
        strictly_sorted(a, before),
        strictly_sorted(b, before),
        forall|x: T| #[trigger] a.contains(x) <==> b.contains(x),
    ensures
        a == b,
    decreases a.len(),
{
    if a.len() == 0 {
        if b.len() > 0 {
            assert(b.contains(b[0]));
            assert(a.contains(b[0]));
        }
        assert(a =~= b);
    } else {
        assert(a.contains(a[0]));
        let j = choose|j: int| 0 <= j < b.len() && b[j] == a[0];
        assert(b.contains(b[0]));
        assert(a.contains(b[0]));
        let k = choose|k: int| 0 <= k < a.len() && a[k] == b[0];
        if j > 0 {
            assert(before(b[0], b[j]));
            if k > 0 {
                assert(before(a[0], a[k]));
            }
            assert(false);
        }
        let (c, d) = (a.drop_first(), b.drop_first());
        assert(strictly_sorted(c, before)) by {
            assert forall|m: int, n: int| 0 <= m < n < c.len() implies #[trigger] before(
                c[m],
                c[n],
            ) by {
                assert(before(a[m + 1], a[n + 1]));
            }
        }
        assert(strictly_sorted(d, before)) by {
            assert forall|m: int, n: int| 0 <= m < n < d.len() implies #[trigger] before(
                d[m],
                d[n],
            ) by {
                assert(before(b[m + 1], b[n + 1]));
            }
        }
        assert forall|x: T| #[trigger] c.contains(x) <==> d.contains(x) by {
            if c.contains(x) {
                let m = choose|m: int| 0 <= m < c.len() && c[m] == x;
                assert(a[m + 1] == x);
                assert(a.contains(x));
                let n = choose|n: int| 0 <= n < b.len() && b[n] == x;
                if n == 0 {
                    assert(before(a[0], a[m + 1]));
                }
                assert(d[n - 1] == x);
            }
            if d.contains(x) {
                let m = choose|m: int| 0 <= m < d.len() && d[m] == x;
                assert(b[m + 1] == x);
                assert(b.contains(x));
                assert(a.contains(x));
                let n = choose|n: int| 0 <= n < a.len() && a[n] == x;
                if n == 0 {
                    assert(before(b[0], b[m + 1]));
                }
                assert(c[n - 1] == x);
            }
        }
        law_sorting_is_unique(c, d, before);
        assert(a =~= seq![a[0]] + c);
        assert(b =~= seq![b[0]] + d);
    }
}

/// A sorted sequence stays sorted where an element is put between those before and after it.
pub proof fn lemma_insert_keeps_sorted<T>(
    s: Seq<T>,
    p: int,
    x: T,
    before: spec_fn(T, T) -> bool,
)
    requires
        strictly_sorted(s, before),
        0 <= p <= s.len(),
        forall|i: int| 0 <= i < p ==> before(#[trigger] s[i], x),
        forall|i: int| p <= i < s.len() ==> before(x, #[trigger] s[i]),
    ensures
        strictly_sorted(s.insert(p, x), before),
        forall|y: T| #[trigger] s.insert(p, x).contains(y) <==> y == x || s.contains(y),
{
    let t = s.insert(p, x);
    assert forall|i: int, j: int| 0 <= i < j < t.len() implies #[trigger] before(t[i], t[j]) by {
        let a = if i < p { i } else { i - 1 };
        let b = if j < p { j } else { j - 1 };
        if i != p && j != p {
            assert(before(s[a], s[b]));
        } else if i == p {
            assert(t[j] == s[b]);
        } else {
            assert(t[i] == s[a]);
        }
    }
    assert forall|y: T| #[trigger] t.contains(y) <==> y == x || s.contains(y) by {
        if t.contains(y) {
            let i = choose|i: int| 0 <= i < t.len() && t[i] == y;
            if i != p {
                assert(s[if i < p { i } else { i - 1 }] == y);
            }
        }
        if s.contains(y) {
            let i = choose|i: int| 0 <= i < s.len() && s[i] == y;
            assert(t[if i < p { i } else { i + 1 }] == y);
        }
        assert(t[p] == x);
    }
}

/// A prefix that is longer by one holds one element more.
pub proof fn lemma_longer_prefix<T>(s: Seq<T>, k: int, y: T)
    requires
        0 <= k < s.len(),
    ensures
        s.take(k + 1).contains(y) <==> y == s[k] || s.take(k).contains(y),
{
    let short = s.take(k);
    let long = s.take(k + 1);
    if short.contains(y) {
        let m = choose|m: int| 0 <= m < short.len() && short[m] == y;
        assert(long[m] == y);
    }
    if long.contains(y) && y != s[k] {
        let m = choose|m: int| 0 <= m < long.len() && long[m] == y;
        assert(short[m] == y);
    }
    assert(long[k] == s[k]);
}

} // verus!

//! Counting equal items.

use crate::sort;
use crate::values;
use crate::values::Same;
use vstd::prelude::*;

verus! {

/// The sum of `w` over `s`.
pub open spec fn sum<A>(s: Seq<A>, w: spec_fn(A) -> nat) -> nat
    decreases s.len(),
{
    if s.len() == 0 {
        0
    } else {
        sum(s.drop_last(), w) + w(s.last())
    }
}

/// What one item less and one more do to a sum.
pub proof fn lemma_sum_update<A>(s: Seq<A>, w: spec_fn(A) -> nat, i: int, x: A)
    requires
        0 <= i < s.len(),
    ensures
        sum(s.update(i, x), w) + w(s[i]) == sum(s, w) + w(x),
    decreases s.len(),
{
    let t = s.update(i, x);
    if i == s.len() - 1 {
        assert(t.drop_last() =~= s.drop_last());
    } else {
        assert(t.drop_last() =~= s.drop_last().update(i, x));
        lemma_sum_update(s.drop_last(), w, i, x);
    }
}

/// The items from the `k`th on behind `acc`, each run of equal ones as one with its length.
pub open spec fn runs_from<A>(s: Seq<A>, k: int, acc: Seq<(A, u64)>) -> Seq<(A, u64)>
    decreases s.len() - k,
{
    if k >= s.len() {
        acc
    } else if acc.len() > 0 && acc.last().0 == s[k] {
        runs_from(s, k + 1, acc.drop_last().push((s[k], (acc.last().1 + 1) as u64)))
    } else {
        runs_from(s, k + 1, acc.push((s[k], 1)))
    }
}

/// The different items in order, each with how often it occurs.
pub open spec fn tallied<A>(s: Seq<A>, le: spec_fn(A, A) -> bool) -> Seq<(A, u64)> {
    runs_from(sort::sorted(s, le), 0, Seq::empty())
}

/// Two items that rank alike are one.
pub open spec fn tells_apart<A>(le: spec_fn(A, A) -> bool) -> bool {
    forall|x: A, y: A| #[trigger] le(x, y) && le(y, x) ==> x == y
}

/// The tally holds each item of `s` once, with how often it occurs.
pub open spec fn counts<A>(t: Seq<(A, u64)>, s: Seq<A>) -> bool {
    &&& forall|i: int, j: int| 0 <= i < j < t.len() ==> (#[trigger] t[i]).0 != (#[trigger] t[j]).0
    &&& forall|i: int|
        0 <= i < t.len() ==> (#[trigger] t[i]).1 == s.to_multiset().count(t[i].0) && t[i].1 > 0
    &&& forall|x: A| #[trigger]
        s.contains(x) ==> exists|i: int| 0 <= i < t.len() && (#[trigger] t[i]).0 == x
}

/// A tally holds each different item once, with the number of its occurrences.
pub proof fn law_tally_counts_occurrences<A>(s: Seq<A>, le: spec_fn(A, A) -> bool)
    requires
        sort::ranks(le),
        tells_apart(le),
        s.len() <= u64::MAX,
    ensures
        counts(tallied(s, le), s),
{
    broadcast use vstd::seq_lib::group_to_multiset_ensures;

    let by = sort::sorted(s, le);
    sort::lemma_sorted(s, le);
    let none = Seq::<(A, u64)>::empty();
    assert(by.take(0) =~= Seq::empty());
    lemma_runs(by, le, 0, none);
    let t = tallied(s, le);
    assert forall|x: A| #[trigger] s.contains(x) implies exists|i: int|
        0 <= i < t.len() && (#[trigger] t[i]).0 == x by {
        assert(by.to_multiset().count(x) == s.to_multiset().count(x));
        assert(by.contains(x));
    }
}

proof fn lemma_runs<A>(s: Seq<A>, le: spec_fn(A, A) -> bool, k: int, acc: Seq<(A, u64)>)
    requires
        tells_apart(le),
        sort::in_order(s, le),
        0 <= k <= s.len() <= u64::MAX,
        counts(acc, s.take(k)),
        k > 0 ==> acc.len() > 0 && acc.last().0 == s[k - 1],
        k == 0 ==> acc.len() == 0,
    ensures
        counts(runs_from(s, k, acc), s),
    decreases s.len() - k,
{
    broadcast use vstd::seq_lib::group_to_multiset_ensures;

    if k >= s.len() {
        assert(s.take(k) =~= s);
    } else {
        let x = s[k];
        let seen = s.take(k);
        let more = s.take(k + 1);
        assert(more =~= seen.push(x));
        assert(more.to_multiset() =~= seen.to_multiset().insert(x));
        assert(more.to_multiset().count(x) <= more.len()) by {
            lemma_count_bound(more, x);
        }
        let joined = acc.len() > 0 && acc.last().0 == x;
        let next = if joined {
            acc.drop_last().push((x, (acc.last().1 + 1) as u64))
        } else {
            acc.push((x, 1))
        };
        if !joined {
            assert(!seen.contains(x)) by {
                if seen.contains(x) {
                    let i = choose|i: int| 0 <= i < seen.len() && seen[i] == x;
                    assert(s[i] == x);
                    if i < k - 1 {
                        assert(le(s[i], s[k - 1]));
                        assert(le(s[k - 1], s[k]));
                    }
                }
            }
            assert(seen.to_multiset().count(x) == 0);
            assert forall|i: int| 0 <= i < acc.len() implies (#[trigger] acc[i]).0 != x by {
                assert(acc[i].1 > 0);
            }
        } else {
            let last = acc.len() - 1;
            assert(acc[last].1 == seen.to_multiset().count(x));
        }
        assert(counts(next, more)) by {
            assert forall|y: A| #[trigger] more.contains(y) implies exists|i: int|
                0 <= i < next.len() && (#[trigger] next[i]).0 == y by {
                if y == x {
                    assert(next[next.len() - 1].0 == y);
                } else {
                    let j = choose|j: int| 0 <= j < more.len() && more[j] == y;
                    assert(seen[j] == y);
                    assert(seen.contains(y));
                    let i = choose|i: int| 0 <= i < acc.len() && (#[trigger] acc[i]).0 == y;
                    assert(next[i].0 == y);
                }
            }
        }
        lemma_runs(s, le, k + 1, next);
    }
}

proof fn lemma_count_bound<A>(s: Seq<A>, x: A)
    ensures
        s.to_multiset().count(x) <= s.len(),
    decreases s.len(),
{
    broadcast use vstd::seq_lib::group_to_multiset_ensures;

    if s.len() == 0 {
        assert(!s.contains(x));
    } else {
        lemma_count_bound(s.drop_last(), x);
        assert(s =~= s.drop_last().push(s.last()));
    }
}

/// What counts the items still does in another order.
pub proof fn lemma_counts_permuted<A>(t: Seq<(A, u64)>, u: Seq<(A, u64)>, s: Seq<A>)
    requires
        counts(t, s),
        t.to_multiset() =~= u.to_multiset(),
    ensures
        counts(u, s),
{
    broadcast use vstd::seq_lib::group_to_multiset_ensures;

    assert forall|i: int| 0 <= i < u.len() implies t.contains(#[trigger] u[i]) by {
        assert(u.contains(u[i]));
        assert(u.to_multiset().count(u[i]) > 0);
    }
    assert(t.no_duplicates());
    t.lemma_multiset_has_no_duplicates();
    assert(u.no_duplicates()) by {
        u.lemma_multiset_has_no_duplicates_conv();
    }
    assert forall|i: int, j: int| 0 <= i < j < u.len() implies (#[trigger] u[i]).0 != (
    #[trigger] u[j]).0 by {
        let a = choose|a: int| 0 <= a < t.len() && t[a] == u[i];
        let b = choose|b: int| 0 <= b < t.len() && t[b] == u[j];
        assert(t.contains(u[i]) && t.contains(u[j]));
        assert(u[i] != u[j]);
        if a < b {
            assert(t[a].0 != t[b].0);
        } else {
            assert(t[b].0 != t[a].0);
        }
    }
    assert forall|i: int| 0 <= i < u.len() implies (#[trigger] u[i]).1 == s.to_multiset().count(
        u[i].0,
    ) && u[i].1 > 0 by {
        assert(t.contains(u[i]));
        let a = choose|a: int| 0 <= a < t.len() && t[a] == u[i];
        assert(t[a].1 > 0);
    }
    assert forall|x: A| #[trigger] s.contains(x) implies exists|i: int|
        0 <= i < u.len() && (#[trigger] u[i]).0 == x by {
        let a = choose|a: int| 0 <= a < t.len() && (#[trigger] t[a]).0 == x;
        assert(t.contains(t[a]));
        assert(t.to_multiset().count(t[a]) > 0);
        assert(u.contains(t[a]));
        let i = choose|i: int| 0 <= i < u.len() && u[i] == t[a];
        assert(u[i].0 == x);
    }
}

/// Count the different items, in the order that `f` decides and `le` describes.
pub fn tally<T: Same, F: Fn(&T, &T) -> bool>(
    v: Vec<T>,
    f: &F,
    Ghost(le): Ghost<spec_fn(T::V, T::V) -> bool>,
) -> (r: Vec<(T, u64)>)
    requires
        forall|x: &T, y: &T| #[trigger] f.requires((x, y)),
        forall|x: &T, y: &T, o: bool| #[trigger]
            f.ensures((x, y), o) ==> o == le(x.deep_view(), y.deep_view()),
    ensures
        r.deep_view() == tallied(v.deep_view(), le),
{
    let by = sort::sort_by(v, f, Ghost(le));
    let ghost bv = by.deep_view();
    let n = by.len();
    let mut rest = sort::reversed(by);
    let mut out: Vec<(T, u64)> = values::empty();
    let mut k: usize = 0;
    while rest.len() > 0
        invariant
            k <= n,
            n == bv.len(),
            rest.deep_view() == bv.skip(k as int).reverse(),
            forall|i: int| 0 <= i < out@.len() ==> (#[trigger] out@[i]).1 <= k,
            runs_from(bv, 0, Seq::empty()) == runs_from(bv, k as int, out.deep_view()),
        decreases rest@.len(),
    {
        let ghost rv = rest.deep_view();
        proof {
            assert(rv.len() == rest@.len());
            assert(rv[rv.len() - 1] == bv[k as int]);
        }
        match rest.pop() {
            None => {},
            Some(x) => {
                let ghost ov = out.deep_view();
                proof {
                    assert(x.deep_view() == bv[k as int]);
                    assert(rest.deep_view() =~= rv.drop_last());
                    assert(rv.drop_last() =~= bv.skip(k + 1).reverse());
                    assert(ov.len() == out@.len());
                }
                let m = out.len();
                let joined = if m > 0 {
                    proof {
                        assert(ov.last() == out@[m - 1].deep_view());
                    }
                    out[m - 1].0.same(&x)
                } else {
                    false
                };
                if joined {
                    let next = (x, out[m - 1].1 + 1);
                    let ghost nv = next.deep_view();
                    out.set(m - 1, next);
                    proof {
                        assert(out.deep_view() =~= ov.drop_last().push(nv));
                    }
                } else {
                    values::push(&mut out, (x, 1));
                }
                k += 1;
            },
        }
    }
    out
}

} // verus!

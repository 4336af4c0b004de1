//! A stable merge sort over the deep views of the items.

use vstd::prelude::*;

verus! {

/// Two sequences merged: while both have items, the smaller front goes first, the
/// left one where they rank alike.
pub open spec fn merged<A>(a: Seq<A>, b: Seq<A>, le: spec_fn(A, A) -> bool) -> Seq<A>
    decreases a.len() + b.len(),
{
    if a.len() == 0 {
        b
    } else if b.len() == 0 {
        a
    } else if le(a[0], b[0]) {
        seq![a[0]] + merged(a.skip(1), b, le)
    } else {
        seq![b[0]] + merged(a, b.skip(1), le)
    }
}

/// `s` in the order of `le`, items that rank alike as they stood.
pub open spec fn sorted<A>(s: Seq<A>, le: spec_fn(A, A) -> bool) -> Seq<A>
    decreases s.len(),
{
    if s.len() <= 1 {
        s
    } else {
        let h = s.len() as int / 2;
        merged(sorted(s.take(h), le), sorted(s.skip(h), le), le)
    }
}

/// Any two items rank one way or the other, and ranks chain.
pub open spec fn ranks<A>(le: spec_fn(A, A) -> bool) -> bool {
    &&& forall|x: A, y: A| #[trigger] le(x, y) || le(y, x)
    &&& forall|x: A, y: A, z: A| #[trigger] le(x, y) && #[trigger] le(y, z) ==> le(x, z)
}

/// No item ranks below an earlier one.
pub open spec fn in_order<A>(s: Seq<A>, le: spec_fn(A, A) -> bool) -> bool {
    forall|i: int, j: int| 0 <= i < j < s.len() ==> le(#[trigger] s[i], #[trigger] s[j])
}

proof fn lemma_merged<A>(a: Seq<A>, b: Seq<A>, le: spec_fn(A, A) -> bool)
    requires
        ranks(le),
        in_order(a, le),
        in_order(b, le),
    ensures
        in_order(merged(a, b, le), le),
        merged(a, b, le).to_multiset() =~= a.to_multiset().add(b.to_multiset()),
        merged(a, b, le).len() == a.len() + b.len(),
        forall|x: A| merged(a, b, le).contains(x) ==> a.contains(x) || b.contains(x),
    decreases a.len() + b.len(),
{
    broadcast use vstd::seq_lib::group_to_multiset_ensures;

    let m = merged(a, b, le);
    if a.len() == 0 {
        assert(a.to_multiset() =~= vstd::multiset::Multiset::empty());
    } else if b.len() == 0 {
        assert(b.to_multiset() =~= vstd::multiset::Multiset::empty());
    } else if le(a[0], b[0]) {
        let r = a.skip(1);
        lemma_merged(r, b, le);
        let t = merged(r, b, le);
        assert(a =~= seq![a[0]] + r);
        vstd::seq_lib::lemma_multiset_commutative(seq![a[0]], r);
        vstd::seq_lib::lemma_multiset_commutative(seq![a[0]], t);
        assert forall|i: int, j: int| 0 <= i < j < m.len() implies le(
            #[trigger] m[i],
            #[trigger] m[j],
        ) by {
            assert(m[j] == t[j - 1]);
            if i == 0 {
                assert(t.contains(t[j - 1]));
                if r.contains(t[j - 1]) {
                    let k = choose|k: int| 0 <= k < r.len() && r[k] == t[j - 1];
                    assert(a[k + 1] == t[j - 1]);
                    assert(le(a[0], a[k + 1]));
                } else {
                    let k = choose|k: int| 0 <= k < b.len() && b[k] == t[j - 1];
                    assert(le(b[0], b[k]) || k == 0);
                }
            } else {
                assert(m[i] == t[i - 1]);
            }
        }
        assert forall|x: A| m.contains(x) implies a.contains(x) || b.contains(x) by {
            let k = choose|k: int| 0 <= k < m.len() && m[k] == x;
            if k == 0 {
                assert(a[0] == x);
            } else {
                assert(t[k - 1] == x);
                assert(t.contains(x));
                if r.contains(x) {
                    let l = choose|l: int| 0 <= l < r.len() && r[l] == x;
                    assert(a[l + 1] == x);
                }
            }
        }
    } else {
        let r = b.skip(1);
        lemma_merged(a, r, le);
        let t = merged(a, r, le);
        assert(b =~= seq![b[0]] + r);
        vstd::seq_lib::lemma_multiset_commutative(seq![b[0]], r);
        vstd::seq_lib::lemma_multiset_commutative(seq![b[0]], t);
        assert forall|i: int, j: int| 0 <= i < j < m.len() implies le(
            #[trigger] m[i],
            #[trigger] m[j],
        ) by {
            assert(m[j] == t[j - 1]);
            if i == 0 {
                assert(le(b[0], a[0]));
                assert(t.contains(t[j - 1]));
                if r.contains(t[j - 1]) {
                    let k = choose|k: int| 0 <= k < r.len() && r[k] == t[j - 1];
                    assert(b[k + 1] == t[j - 1]);
                    assert(le(b[0], b[k + 1]));
                } else {
                    let k = choose|k: int| 0 <= k < a.len() && a[k] == t[j - 1];
                    assert(le(a[0], a[k]) || k == 0);
                }
            } else {
                assert(m[i] == t[i - 1]);
            }
        }
        assert forall|x: A| m.contains(x) implies a.contains(x) || b.contains(x) by {
            let k = choose|k: int| 0 <= k < m.len() && m[k] == x;
            if k == 0 {
                assert(b[0] == x);
            } else {
                assert(t[k - 1] == x);
                assert(t.contains(x));
                if r.contains(x) {
                    let l = choose|l: int| 0 <= l < r.len() && r[l] == x;
                    assert(b[l + 1] == x);
                }
            }
        }
    }
}

/// Sorting orders the items and neither drops nor adds one.
pub proof fn lemma_sorted<A>(s: Seq<A>, le: spec_fn(A, A) -> bool)
    requires
        ranks(le),
    ensures
        in_order(sorted(s, le), le),
        sorted(s, le).to_multiset() =~= s.to_multiset(),
        sorted(s, le).len() == s.len(),
    decreases s.len(),
{
    if s.len() > 1 {
        let h = s.len() as int / 2;
        lemma_sorted(s.take(h), le);
        lemma_sorted(s.skip(h), le);
        lemma_merged(sorted(s.take(h), le), sorted(s.skip(h), le), le);
        vstd::seq_lib::lemma_multiset_commutative(s.take(h), s.skip(h));
        assert(s =~= s.take(h) + s.skip(h));
    }
}

/// Sorting keeps exactly the members.
pub proof fn lemma_sorted_contains<A>(s: Seq<A>, le: spec_fn(A, A) -> bool, x: A)
    requires
        ranks(le),
    ensures
        sorted(s, le).contains(x) == s.contains(x),
{
    broadcast use vstd::seq_lib::group_to_multiset_ensures;

    lemma_sorted(s, le);
    assert(sorted(s, le).to_multiset().count(x) == s.to_multiset().count(x));
}

/// What holds of every item holds of every item in order.
pub proof fn lemma_sorted_all<A>(s: Seq<A>, le: spec_fn(A, A) -> bool, p: spec_fn(A) -> bool)
    requires
        ranks(le),
        forall|i: int| 0 <= i < s.len() ==> p(#[trigger] s[i]),
    ensures
        forall|i: int| 0 <= i < sorted(s, le).len() ==> p(#[trigger] sorted(s, le)[i]),
{
    assert forall|i: int| 0 <= i < sorted(s, le).len() implies p(#[trigger] sorted(s, le)[i]) by {
        let x = sorted(s, le)[i];
        assert(sorted(s, le).contains(x));
        lemma_sorted_contains(s, le, x);
        let j = choose|j: int| 0 <= j < s.len() && s[j] == x;
        assert(p(s[j]));
    }
}

fn merge_into<T: DeepView, F: Fn(&T, &T) -> bool>(
    a: Vec<T>,
    b: Vec<T>,
    f: &F,
    Ghost(le): Ghost<spec_fn(T::V, T::V) -> bool>,
) -> (r: Vec<T>)
    requires
        forall|x: &T, y: &T| #[trigger] f.requires((x, y)),
        forall|x: &T, y: &T, o: bool| #[trigger]
            f.ensures((x, y), o) ==> o == le(x.deep_view(), y.deep_view()),
    ensures
        r.deep_view() == merged(a.deep_view(), b.deep_view(), le),
{
    let ghost want = merged(a.deep_view(), b.deep_view(), le);
    // Both runs are taken from their backs.
    let mut ra = reversed(a);
    let mut rb = reversed(b);
    let mut out: Vec<T> = Vec::new();
    let ghost mut ga = a.deep_view();
    let ghost mut gb = b.deep_view();
    while ra.len() > 0 && rb.len() > 0
        invariant
            forall|x: &T, y: &T| #[trigger] f.requires((x, y)),
            forall|x: &T, y: &T, o: bool| #[trigger]
                f.ensures((x, y), o) ==> o == le(x.deep_view(), y.deep_view()),
            ra.deep_view() == ga.reverse(),
            rb.deep_view() == gb.reverse(),
            want == out.deep_view() + merged(ga, gb, le),
        decreases ra.len() + rb.len(),
    {
        let ghost before = out.deep_view();
        let ghost xa = ra.deep_view();
        let ghost xb = rb.deep_view();
        proof {
            assert(xa[xa.len() - 1] == ga[0]);
            assert(xb[xb.len() - 1] == gb[0]);
        }
        if f(&ra[ra.len() - 1], &rb[rb.len() - 1]) {
            match ra.pop() {
                None => {},
                Some(x) => {
                    out.push(x);
                },
            }
            proof {
                assert(ra.deep_view() =~= xa.drop_last());
                assert(xa.drop_last() =~= ga.skip(1).reverse());
                assert(out.deep_view() =~= before.push(ga[0]));
                assert(before + (seq![ga[0]] + merged(ga.skip(1), gb, le)) =~= before.push(ga[0])
                    + merged(ga.skip(1), gb, le));
                ga = ga.skip(1);
            }
        } else {
            match rb.pop() {
                None => {},
                Some(x) => {
                    out.push(x);
                },
            }
            proof {
                assert(rb.deep_view() =~= xb.drop_last());
                assert(xb.drop_last() =~= gb.skip(1).reverse());
                assert(out.deep_view() =~= before.push(gb[0]));
                assert(before + (seq![gb[0]] + merged(ga, gb.skip(1), le)) =~= before.push(gb[0])
                    + merged(ga, gb.skip(1), le));
                gb = gb.skip(1);
            }
        }
    }
    let ghost front = out.deep_view();
    let rest = if ra.len() > 0 {
        reversed(ra)
    } else {
        reversed(rb)
    };
    proof {
        assert(ga.reverse().reverse() =~= ga);
        assert(gb.reverse().reverse() =~= gb);
        assert(ra.deep_view().len() == ra@.len());
        assert(rb.deep_view().len() == rb@.len());
        assert(rest.deep_view() == merged(ga, gb, le));
    }
    let mut rest = rest;
    let ghost tail = rest.deep_view();
    out.append(&mut rest);
    proof {
        assert(out.deep_view() =~= front + tail);
    }
    out
}

/// The items back to front.
pub fn reversed<T: DeepView>(v: Vec<T>) -> (r: Vec<T>)
    ensures
        r@ == v@.reverse(),
        r.deep_view() == v.deep_view().reverse(),
{
    let ghost all = v@;
    let mut v = v;
    let mut out: Vec<T> = Vec::new();
    while v.len() > 0
        invariant
            v@.len() <= all.len(),
            v@ == all.take(v@.len() as int),
            out@ == all.skip(v@.len() as int).reverse(),
        decreases v.len(),
    {
        let ghost n = v@.len() as int;
        match v.pop() {
            None => {},
            Some(x) => {
                out.push(x);
            },
        }
        proof {
            assert(all.skip(n).reverse().push(all[n - 1]) =~= all.skip(n - 1).reverse());
        }
    }
    proof {
        assert(all.skip(0) =~= all);
        assert(out.deep_view() =~= Seq::new(
            all.len(),
            |i: int| all[i].deep_view(),
        ).reverse());
    }
    out
}

/// `v` in the order that `f` decides and `le` describes.
pub fn sort_by<T: DeepView, F: Fn(&T, &T) -> bool>(
    v: Vec<T>,
    f: &F,
    Ghost(le): Ghost<spec_fn(T::V, T::V) -> bool>,
) -> (r: Vec<T>)
    requires
        forall|x: &T, y: &T| #[trigger] f.requires((x, y)),
        forall|x: &T, y: &T, o: bool| #[trigger]
            f.ensures((x, y), o) ==> o == le(x.deep_view(), y.deep_view()),
    ensures
        r.deep_view() == sorted(v.deep_view(), le),
    decreases v.len(),
{
    if v.len() <= 1 {
        return v;
    }
    let ghost all = v.deep_view();
    let h = v.len() / 2;
    let mut v = v;
    let b = v.split_off(h);
    proof {
        assert(v.deep_view() =~= all.take(h as int));
        assert(b.deep_view() =~= all.skip(h as int));
    }
    let a = sort_by(v, f, Ghost(le));
    let b = sort_by(b, f, Ghost(le));
    merge_into(a, b, f, Ghost(le))
}

} // verus!

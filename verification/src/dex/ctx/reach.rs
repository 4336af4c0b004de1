//! Distances: the fewest call frames between a frame that holds a lock and the entry to
//! a method.

use crate::dex::ctx::assemble;
use crate::dex::ctx::assemble::{Link, LinkV};
use vstd::prelude::*;

verus! {

/// The fewest frames between a holder of lock `l` and entry to method `m`, where it is
/// at most `d`: one if the lock is held at a call of `m`, else one more than that of a
/// caller.
pub open spec fn known(calls: Seq<LinkV>, m: usize, l: usize, d: nat) -> Option<nat>
    decreases d,
{
    if d == 0 {
        None
    } else {
        match known(calls, m, l, (d - 1) as nat) {
            Some(x) => Some(x),
            None => if exists|k: int|
                0 <= k < calls.len() && (#[trigger] calls[k]).targets.contains(m) && (if d == 1 {
                    calls[k].held.contains(l)
                } else {
                    known(calls, calls[k].caller, l, (d - 1) as nat) == Some((d - 1) as nat)
                }) {
                Some(d)
            } else {
                None
            },
        }
    }
}

/// Lock `l` is held at the call, or `d - 1` frames above its caller's entry.
pub open spec fn arrives(calls: Seq<LinkV>, c: LinkV, l: usize, d: nat) -> bool {
    if d == 1 {
        c.held.contains(l)
    } else {
        known(calls, c.caller, l, (d - 1) as nat) == Some((d - 1) as nat)
    }
}

/// How far a held lock propagates: a lock held at a call always reaches the callee.
pub open spec fn horizon(max_depth: u8) -> nat {
    if max_depth == 0 {
        1
    } else {
        max_depth as nat
    }
}

/// The fewest frames between a holder of lock `l` and entry to method `m`.
pub open spec fn distance(calls: Seq<LinkV>, max_depth: u8, m: usize, l: usize) -> Option<nat> {
    known(calls, m, l, horizon(max_depth))
}

/// A call path by which lock `l` comes to be held on entry to `m`: the calls from the
/// one that holds the lock down to the one that reaches `m`.
pub open spec fn path(calls: Seq<LinkV>, p: Seq<int>, m: usize, l: usize) -> bool {
    &&& p.len() > 0
    &&& forall|i: int| 0 <= i < p.len() ==> 0 <= #[trigger] p[i] < calls.len()
    &&& calls[p[0]].held.contains(l)
    &&& calls[p.last()].targets.contains(m)
    &&& forall|i: int, j: int|
        0 <= i && j == i + 1 && j < p.len() ==> calls[#[trigger] p[i]].targets.contains(
            calls[#[trigger] p[j]].caller,
        )
}

/// A distance that is known stays as it is.
pub proof fn lemma_known_stays(calls: Seq<LinkV>, m: usize, l: usize, d: nat, e: nat)
    requires
        d <= e,
        known(calls, m, l, d) is Some,
    ensures
        known(calls, m, l, e) == known(calls, m, l, d),
    decreases e - d,
{
    if d < e {
        lemma_known_stays(calls, m, l, d, (e - 1) as nat);
    }
}

/// A known distance lies within the bound, and is known at itself.
pub proof fn lemma_known_bound(calls: Seq<LinkV>, m: usize, l: usize, d: nat)
    ensures
        known(calls, m, l, d) matches Some(x) ==> 1 <= x <= d && known(calls, m, l, x) == Some(x),
    decreases d,
{
    if d > 0 {
        lemma_known_bound(calls, m, l, (d - 1) as nat);
    }
}

/// A distance is at least one and fits a byte.
pub proof fn lemma_distance_fits(calls: Seq<LinkV>, max_depth: u8, m: usize, l: usize)
    ensures
        distance(calls, max_depth, m, l) matches Some(x) ==> 1 <= x <= 255,
{
    lemma_known_bound(calls, m, l, horizon(max_depth));
}

/// No path is shorter than the distance: where a call path of `n` frames leads to a
/// method, its distance is at most `n`.
pub proof fn law_distance_is_least(
    calls: Seq<LinkV>,
    p: Seq<int>,
    m: usize,
    l: usize,
    d: nat,
)
    requires
        path(calls, p, m, l),
        p.len() <= d,
    ensures
        known(calls, m, l, d) matches Some(x) && x <= p.len(),
    decreases p.len(),
{
    let n = p.len();
    let k = p.last();
    assert(0 <= p[n - 1] < calls.len());
    if n == 1 {
        assert(calls[k].targets.contains(m) && calls[k].held.contains(l));
        reveal_with_fuel(known, 2);
        assert(known(calls, m, l, 0) is None);
        assert(known(calls, m, l, 1) == Some(1nat));
        lemma_known_stays(calls, m, l, 1, d);
    } else {
        let q = p.drop_last();
        let c = calls[k].caller;
        assert(path(calls, q, c, l)) by {
            assert forall|i: int| 0 <= i < q.len() implies 0 <= #[trigger] q[i] < calls.len() by {
                assert(q[i] == p[i]);
            }
            assert(q[0] == p[0]);
            assert(q.last() == p[n - 2]);
            assert(calls[p[n - 2]].targets.contains(calls[p[n - 1]].caller));
            assert forall|i: int, j: int| 0 <= i && j == i + 1 && j < q.len() implies calls[
                #[trigger] q[i]].targets.contains(calls[#[trigger] q[j]].caller) by {
                assert(q[i] == p[i] && q[j] == p[j]);
            }
        }
        law_distance_is_least(calls, q, c, l, (d - 1) as nat);
        let x = known(calls, c, l, (d - 1) as nat)->0;
        lemma_known_bound(calls, c, l, (d - 1) as nat);
        assert(known(calls, c, l, x) == Some(x));
        let y = (x + 1) as nat;
        assert((y - 1) as nat == x);
        if known(calls, m, l, x) is None {
            assert(calls[k].targets.contains(m));
            assert(known(calls, m, l, y) == Some(y));
            lemma_known_stays(calls, m, l, y, d);
        } else {
            lemma_known_bound(calls, m, l, x);
            lemma_known_stays(calls, m, l, x, d);
        }
    }
}

/// Every distance is backed by a call path of that many frames.
pub proof fn law_distance_has_path(calls: Seq<LinkV>, m: usize, l: usize, d: nat) -> (p: Seq<int>)
    requires
        known(calls, m, l, d) is Some,
    ensures
        path(calls, p, m, l),
        known(calls, m, l, d) == Some(p.len()),
    decreases d,
{
    if known(calls, m, l, (d - 1) as nat) is Some {
        law_distance_has_path(calls, m, l, (d - 1) as nat)
    } else {
        let k = choose|k: int|
            0 <= k < calls.len() && (#[trigger] calls[k]).targets.contains(m) && (if d == 1 {
                calls[k].held.contains(l)
            } else {
                known(calls, calls[k].caller, l, (d - 1) as nat) == Some((d - 1) as nat)
            });
        if d == 1 {
            let p = seq![k];
            assert(path(calls, p, m, l));
            p
        } else {
            let q = law_distance_has_path(calls, calls[k].caller, l, (d - 1) as nat);
            let p = q.push(k);
            assert forall|i: int| 0 <= i < p.len() implies 0 <= #[trigger] p[i] < calls.len() by {
                if i < q.len() {
                    assert(p[i] == q[i]);
                }
            }
            assert(p[0] == q[0]);
            assert forall|i: int, j: int| 0 <= i && j == i + 1 && j < p.len() implies calls[
                #[trigger] p[i]].targets.contains(calls[#[trigger] p[j]].caller) by {
                if j < q.len() {
                    assert(p[i] == q[i] && p[j] == q[j]);
                } else {
                    assert(p[i] == q.last());
                }
            }
            assert(path(calls, p, m, l));
            p
        }
    }
}

/// In strictly ascending lock order.
pub open spec fn ascending(row: Seq<(usize, u8)>) -> bool {
    forall|i: int, j: int| 0 <= i < j < row.len() ==> (#[trigger] row[i]).0 < (#[trigger] row[j]).0
}

/// Some entry is of that lock.
pub open spec fn has_lock(row: Seq<(usize, u8)>, l: usize) -> bool {
    exists|i: int| 0 <= i < row.len() && (#[trigger] row[i]).0 == l
}

/// Where lock `l` stands, or belongs.
pub fn seek(row: &Vec<(usize, u8)>, l: usize) -> (p: usize)
    requires
        ascending(row@),
    ensures
        p <= row@.len(),
        forall|i: int| 0 <= i < p ==> (#[trigger] row@[i]).0 < l,
        forall|i: int| p <= i < row@.len() ==> l <= (#[trigger] row@[i]).0,
{
    let mut lo: usize = 0;
    let mut hi = row.len();
    while lo < hi
        invariant
            lo <= hi <= row@.len(),
            ascending(row@),
            forall|i: int| 0 <= i < lo ==> (#[trigger] row@[i]).0 < l,
            forall|i: int| hi <= i < row@.len() ==> l <= (#[trigger] row@[i]).0,
        decreases hi - lo,
    {
        let mid = lo + (hi - lo) / 2;
        if row[mid].0 < l {
            lo = mid + 1;
        } else {
            hi = mid;
        }
    }
    lo
}

fn add_one(row: &mut Vec<(usize, u8)>, l: usize, d: u8)
    requires
        ascending(old(row)@),
    ensures
        ascending(final(row)@),
        forall|e: (usize, u8)| #[trigger]
            final(row)@.contains(e) <==> old(row)@.contains(e) || e == (l, d) && !has_lock(
                old(row)@,
                l,
            ),
{
    let p = seek(row, l);
    let ghost before = row@;
    if p < row.len() && row[p].0 == l {
        proof {
            assert(has_lock(before, l));
        }
    } else {
        row.insert(p, (l, d));
        proof {
            assert(!has_lock(before, l));
            assert(row@ == before.insert(p as int, (l, d)));
            assert forall|i: int, j: int| 0 <= i < j < row@.len() implies (#[trigger] row@[i]).0
                < (#[trigger] row@[j]).0 by {
                let bi = if i < p {
                    i
                } else {
                    i - 1
                };
                let bj = if j < p {
                    j
                } else {
                    j - 1
                };
                if i != p {
                    assert(row@[i] == before[bi]);
                }
                if j != p {
                    assert(row@[j] == before[bj]);
                }
            }
            assert forall|e: (usize, u8)| #[trigger]
                row@.contains(e) <==> before.contains(e) || e == (l, d) by {
                if row@.contains(e) {
                    let i = choose|i: int| 0 <= i < row@.len() && row@[i] == e;
                    if i < p {
                        assert(before[i] == e);
                    } else if i > p {
                        assert(before[i - 1] == e);
                    }
                }
                if before.contains(e) {
                    let i = choose|i: int| 0 <= i < before.len() && before[i] == e;
                    if i < p {
                        assert(row@[i] == e);
                    } else {
                        assert(row@[i + 1] == e);
                    }
                }
                assert(row@[p as int] == (l, d));
            }
        }
    }
}

proof fn lemma_has_lock(row: Seq<(usize, u8)>, l: usize)
    ensures
        has_lock(row, l) <==> exists|d: u8| #[trigger] row.contains((l, d)),
{
    if has_lock(row, l) {
        let i = choose|i: int| 0 <= i < row.len() && (#[trigger] row[i]).0 == l;
        assert(row[i] == (l, row[i].1));
        assert(row.contains((l, row[i].1)));
    }
    if exists|d: u8| #[trigger] row.contains((l, d)) {
        let d = choose|d: u8| #[trigger] row.contains((l, d));
        let i = choose|i: int| 0 <= i < row.len() && row[i] == (l, d);
        assert(row[i].0 == l);
    }
}

fn add_all(row: &mut Vec<(usize, u8)>, ls: &Vec<usize>, d: u8)
    requires
        ascending(old(row)@),
    ensures
        ascending(final(row)@),
        forall|e: (usize, u8)| #[trigger]
            final(row)@.contains(e) <==> old(row)@.contains(e) || e.1 == d && ls@.contains(e.0)
                && !has_lock(old(row)@, e.0),
{
    let ghost before = row@;
    let mut k: usize = 0;
    while k < ls.len()
        invariant
            k <= ls@.len(),
            ascending(row@),
            forall|e: (usize, u8)| #[trigger]
                row@.contains(e) <==> before.contains(e) || e.1 == d && ls@.take(
                    k as int,
                ).contains(e.0) && !has_lock(before, e.0),
        decreases ls@.len() - k,
    {
        let l = ls[k];
        let ghost prev = row@;
        add_one(row, l, d);
        proof {
            assert forall|e: (usize, u8)| #[trigger]
                row@.contains(e) <==> before.contains(e) || e.1 == d && ls@.take(k + 1).contains(
                    e.0,
                ) && !has_lock(before, e.0) by {
                let t = ls@.take(k as int);
                let u = ls@.take(k + 1);
                assert(u =~= t.push(l));
                lemma_has_lock(prev, l);
                lemma_has_lock(before, l);
                if t.contains(e.0) {
                    let i = choose|i: int| 0 <= i < t.len() && t[i] == e.0;
                    assert(u[i] == e.0);
                }
                assert(u[k as int] == l);
                if u.contains(e.0) && e.0 != l {
                    let i = choose|i: int| 0 <= i < u.len() && u[i] == e.0;
                    assert(t[i] == e.0);
                }
                if e.0 == l {
                    assert(prev.contains((l, d)) ==> before.contains((l, d)) || t.contains(l)
                        && !has_lock(before, l));
                    if has_lock(prev, l) && !has_lock(before, l) {
                        let x = choose|x: u8| #[trigger] prev.contains((l, x));
                        assert(x == d);
                    }
                    if has_lock(before, l) {
                        let x = choose|x: u8| #[trigger] before.contains((l, x));
                        assert(prev.contains((l, x)));
                    }
                }
            }
        }
        k += 1;
    }
    proof {
        assert(ls@.take(k as int) =~= ls@);
    }
}

/// What is known of lock `l` at `m` when the first `k` calls brought what is `d` frames
/// away.
pub open spec fn partial(calls: Seq<LinkV>, m: usize, l: usize, d: nat, k: int) -> Option<nat> {
    match known(calls, m, l, (d - 1) as nat) {
        Some(x) => Some(x),
        None => if exists|j: int|
            0 <= j < k && (#[trigger] calls[j]).targets.contains(m) && arrives(calls, calls[j], l, d) {
            Some(d)
        } else {
            None
        },
    }
}

/// The rows hold what is known so far.
pub open spec fn rows_hold(rows: Seq<Seq<(usize, u8)>>, calls: Seq<LinkV>, d: nat, k: int) -> bool {
    forall|m: int, e: (usize, u8)|
        0 <= m < rows.len() ==> (#[trigger] rows[m].contains(e) <==> partial(
            calls,
            m as usize,
            e.0,
            d,
            k,
        ) == Some(e.1 as nat))
}

/// The contents of the rows.
pub open spec fn row_views(rows: &Vec<Vec<(usize, u8)>>) -> Seq<Seq<(usize, u8)>> {
    Seq::new(rows@.len(), |i: int| rows@[i]@)
}

fn arriving(
    rows: &Vec<Vec<(usize, u8)>>,
    c: &Link,
    d: u8,
    Ghost(calls): Ghost<Seq<LinkV>>,
    Ghost(k): Ghost<int>,
) -> (r: Vec<usize>)
    requires
        d >= 1,
        c.caller < rows@.len(),
        rows_hold(row_views(rows), calls, d as nat, k),
    ensures
        forall|l: usize| r@.contains(l) <==> #[trigger] arrives(
            calls,
            c.deep_view(),
            l,
            d as nat,
        ),
{
    if d == 1 {
        let mut out: Vec<usize> = Vec::new();
        let mut i: usize = 0;
        while i < c.held.len()
            invariant
                i <= c.held@.len(),
                out@ == c.held@.take(i as int),
            decreases c.held@.len() - i,
        {
            out.push(c.held[i]);
            proof {
                assert(c.held@.take(i + 1) =~= c.held@.take(i as int).push(c.held@[i as int]));
            }
            i += 1;
        }
        proof {
            assert(out@ =~= c.held@);
        }
        return out;
    }
    let row = &rows[c.caller];
    let mut out: Vec<usize> = Vec::new();
    let mut i: usize = 0;
    while i < row.len()
        invariant
            i <= row@.len(),
            d >= 1,
            forall|l: usize| #[trigger]
                out@.contains(l) <==> row@.take(i as int).contains((l, (d - 1) as u8)),
        decreases row@.len() - i,
    {
        let (l, x) = row[i];
        let ghost before = out@;
        let ghost t = row@.take(i as int);
        let ghost u = row@.take(i + 1);
        proof {
            assert(u =~= t.push((l, x)));
        }
        if x == d - 1 {
            out.push(l);
        }
        proof {
            assert forall|y: usize| #[trigger] out@.contains(y) <==> u.contains(
                (y, (d - 1) as u8),
            ) by {
                let e = (y, (d - 1) as u8);
                if u.contains(e) {
                    let j = choose|j: int| 0 <= j < u.len() && u[j] == e;
                    if j < t.len() {
                        assert(t[j] == e);
                        assert(before.contains(y));
                        let q = choose|q: int| 0 <= q < before.len() && before[q] == y;
                        assert(out@[q] == y);
                    } else {
                        assert(out@[before.len() as int] == y);
                    }
                }
                if out@.contains(y) {
                    let q = choose|q: int| 0 <= q < out@.len() && out@[q] == y;
                    if q < before.len() {
                        assert(before[q] == y);
                        assert(before.contains(y));
                        let j = choose|j: int| 0 <= j < t.len() && t[j] == e;
                        assert(u[j] == e);
                    } else {
                        assert(u[i as int] == e);
                    }
                }
            }
        }
        i += 1;
    }
    proof {
        assert(row@.take(i as int) =~= row@);
        assert forall|l: usize| out@.contains(l) <==> #[trigger] arrives(
            calls,
            c.deep_view(),
            l,
            d as nat,
        ) by {
            let e = (l, (d - 1) as u8);
            assert(row_views(rows)[c.caller as int] == row@);
            assert(row_views(rows)[c.caller as int].contains(e) <==> partial(
                calls,
                c.caller,
                l,
                d as nat,
                k,
            ) == Some((d - 1) as nat));
            lemma_known_bound(calls, c.caller, l, (d - 1) as nat);
        }
    }
    out
}

proof fn lemma_level_done(calls: Seq<LinkV>, m: usize, l: usize, d: nat)
    requires
        d >= 1,
    ensures
        partial(calls, m, l, d, calls.len() as int) == known(calls, m, l, d),
{
    if known(calls, m, l, (d - 1) as nat) is None {
        if exists|j: int|
            0 <= j < calls.len() && (#[trigger] calls[j]).targets.contains(m) && arrives(
                calls,
                calls[j],
                l,
                d,
            ) {
            let j = choose|j: int|
                0 <= j < calls.len() && (#[trigger] calls[j]).targets.contains(m) && arrives(
                    calls,
                    calls[j],
                    l,
                    d,
                );
            assert(calls[j].targets.contains(m));
        }
    }
}

/// For each method the locks that may be held on its entry, in ascending order, with
/// their distances.
pub fn distances(calls: &Vec<Link>, methods: usize, max_depth: u8, Ghost(locks): Ghost<int>) -> (r:
    Vec<Vec<(usize, u8)>>)
    requires
        forall|i: int|
            0 <= i < calls@.len() ==> assemble::link_ok(
                #[trigger] calls.deep_view()[i],
                methods as int,
                locks,
            ),
    ensures
        r@.len() == methods,
        forall|m: int| 0 <= m < r@.len() ==> ascending(#[trigger] r@[m]@),
        forall|m: int, e: (usize, u8)|
            0 <= m < r@.len() ==> (#[trigger] r@[m]@.contains(e) <==> distance(
                calls.deep_view(),
                max_depth,
                m as usize,
                e.0,
            ) == Some(e.1 as nat)),
{
    let ghost cv = calls.deep_view();
    let mut rows: Vec<Vec<(usize, u8)>> = Vec::new();
    let mut i: usize = 0;
    while i < methods
        invariant
            i <= methods,
            rows@.len() == i,
            forall|m: int| 0 <= m < i ==> (#[trigger] rows@[m])@.len() == 0,
        decreases methods - i,
    {
        rows.push(Vec::new());
        i += 1;
    }
    let top: u32 = if max_depth == 0 {
        1
    } else {
        max_depth as u32
    };
    let mut d: u32 = 1;
    while d <= top
        invariant
            1 <= d <= top + 1,
            top == horizon(max_depth),
            top <= 255,
            cv == calls.deep_view(),
            rows@.len() == methods,
            forall|i: int|
                0 <= i < calls@.len() ==> assemble::link_ok(
                    #[trigger] cv[i],
                    methods as int,
                    locks,
                ),
            forall|m: int| 0 <= m < rows@.len() ==> ascending(#[trigger] rows@[m]@),
            rows_hold(row_views(&rows), cv, d as nat, 0),
        decreases top + 1 - d,
    {
        let mut k: usize = 0;
        while k < calls.len()
            invariant
                k <= calls@.len(),
                1 <= d <= top,
                top <= 255,
                cv == calls.deep_view(),
                rows@.len() == methods,
                forall|i: int|
                    0 <= i < calls@.len() ==> assemble::link_ok(
                        #[trigger] cv[i],
                        methods as int,
                        locks,
                    ),
                forall|m: int| 0 <= m < rows@.len() ==> ascending(#[trigger] rows@[m]@),
                rows_hold(row_views(&rows), cv, d as nat, k as int),
            decreases calls@.len() - k,
        {
            let c = &calls[k];
            proof {
                assert(cv[k as int] == c.deep_view());
                assert(assemble::link_ok(cv[k as int], methods as int, locks));
            }
            let ls = arriving(&rows, c, d as u8, Ghost(cv), Ghost(k as int));
            let ghost start = row_views(&rows);
            let mut t: usize = 0;
            while t < c.targets.len()
                invariant
                    t <= c.targets@.len(),
                    1 <= d <= 255,
                    c.deep_view() == cv[k as int],
                    rows@.len() == methods,
                    start.len() == methods,
                    assemble::link_ok(cv[k as int], methods as int, locks),
                    forall|m: int| 0 <= m < rows@.len() ==> ascending(#[trigger] rows@[m]@),
                    forall|l: usize| ls@.contains(l) <==> #[trigger] arrives(
                        cv,
                        cv[k as int],
                        l,
                        d as nat,
                    ),
                    rows_hold(start, cv, d as nat, k as int),
                    forall|m: int, e: (usize, u8)|
                        0 <= m < rows@.len() ==> (#[trigger] rows@[m]@.contains(e)
                            <==> start[m].contains(e) || e.1 == d && ls@.contains(e.0)
                            && !has_lock(start[m], e.0) && c.targets@.take(t as int).contains(
                            m as usize,
                        )),
                decreases c.targets@.len() - t,
            {
                let g = c.targets[t];
                proof {
                    assert(cv[k as int].targets[t as int] < methods);
                }
                let ghost before = rows@;
                let mut row: Vec<(usize, u8)> = Vec::new();
                std::mem::swap(&mut rows[g], &mut row);
                let ghost old_row = row@;
                proof {
                    assert(row == before[g as int]);
                    assert(ascending(before[g as int]@));
                }
                add_all(&mut row, &ls, d as u8);
                let ghost new_row = row@;
                rows.set(g, row);
                proof {
                    assert(rows@[g as int]@ == new_row);
                    assert(forall|m: int|
                        0 <= m < rows@.len() && m != g ==> #[trigger] rows@[m] == before[m]);
                    let ts = c.targets@.take(t as int);
                    let us = c.targets@.take(t + 1);
                    assert(us =~= ts.push(g));
                    assert forall|m: int, e: (usize, u8)| 0 <= m < rows@.len() implies (
                    #[trigger] rows@[m]@.contains(e) <==> start[m].contains(e) || e.1 == d
                        && ls@.contains(e.0) && !has_lock(start[m], e.0) && us.contains(
                        m as usize,
                    )) by {
                        assert(before[m]@.contains(e) <==> start[m].contains(e) || e.1 == d
                            && ls@.contains(e.0) && !has_lock(start[m], e.0) && ts.contains(
                            m as usize,
                        ));
                        if ts.contains(m as usize) {
                            let q = choose|q: int| 0 <= q < ts.len() && ts[q] == m as usize;
                            assert(us[q] == m as usize);
                        }
                        assert(us[t as int] == g);
                        if us.contains(m as usize) && m != g {
                            let q = choose|q: int| 0 <= q < us.len() && us[q] == m as usize;
                            assert(ts[q] == m as usize);
                        }
                        if m == g {
                            lemma_has_lock(old_row, e.0);
                            lemma_has_lock(start[m], e.0);
                            if has_lock(old_row, e.0) && !has_lock(start[m], e.0) {
                                let x = choose|x: u8| #[trigger] old_row.contains((e.0, x));
                                assert(before[m]@.contains((e.0, x)));
                            }
                            if has_lock(start[m], e.0) {
                                let x = choose|x: u8| #[trigger] start[m].contains((e.0, x));
                                assert(before[m]@.contains((e.0, x)));
                            }
                        }
                    }
                    assert forall|m: int| 0 <= m < rows@.len() implies ascending(
                        #[trigger] rows@[m]@,
                    ) by {
                        if m != g {
                            assert(rows@[m] == before[m]);
                            assert(ascending(before[m]@));
                        }
                    }
                }
                t += 1;
            }
            proof {
                assert(c.targets@.take(t as int) =~= c.targets@);
                let fin = row_views(&rows);
                assert forall|m: int, e: (usize, u8)| 0 <= m < fin.len() implies (
                #[trigger] fin[m].contains(e) <==> partial(cv, m as usize, e.0, d as nat, k + 1)
                    == Some(e.1 as nat)) by {
                    lemma_step(start, cv, d as nat, k as int, m, e, ls@);
                    assert(rows@[m]@.contains(e) <==> start[m].contains(e) || e.1 == d
                        && ls@.contains(e.0) && !has_lock(start[m], e.0) && c.targets@.contains(
                        m as usize,
                    ));
                }
            }
            k += 1;
        }
        proof {
            let fin = row_views(&rows);
            assert forall|m: int, e: (usize, u8)| 0 <= m < fin.len() implies (
            #[trigger] fin[m].contains(e) <==> partial(cv, m as usize, e.0, (d + 1) as nat, 0)
                == Some(e.1 as nat)) by {
                lemma_level_done(cv, m as usize, e.0, d as nat);
            }
        }
        d += 1;
    }
    proof {
        let fin = row_views(&rows);
        assert forall|m: int, e: (usize, u8)| 0 <= m < rows@.len() implies (
        #[trigger] rows@[m]@.contains(e) <==> distance(cv, max_depth, m as usize, e.0) == Some(
            e.1 as nat,
        )) by {
            assert(fin[m] == rows@[m]@);
            assert(fin[m].contains(e) <==> partial(cv, m as usize, e.0, d as nat, 0) == Some(
                e.1 as nat,
            ));
        }
    }
    rows
}

proof fn lemma_step(
    start: Seq<Seq<(usize, u8)>>,
    calls: Seq<LinkV>,
    d: nat,
    k: int,
    m: int,
    e: (usize, u8),
    ls: Seq<usize>,
)
    requires
        1 <= d <= 255,
        0 <= m < start.len(),
        0 <= k < calls.len(),
        rows_hold(start, calls, d, k),
        forall|l: usize| ls.contains(l) <==> #[trigger] arrives(calls, calls[k], l, d),
    ensures
        (start[m].contains(e) || e.1 == d && ls.contains(e.0) && !has_lock(start[m], e.0)
            && calls[k].targets.contains(m as usize)) <==> partial(calls, m as usize, e.0, d, k + 1)
            == Some(e.1 as nat),
{
    let mm = m as usize;
    let l = e.0;
    let p = partial(calls, mm, l, d, k);
    let q = partial(calls, mm, l, d, k + 1);
    assert(start[m].contains(e) <==> p == Some(e.1 as nat));
    lemma_has_lock(start[m], l);
    lemma_known_bound(calls, mm, l, (d - 1) as nat);
    assert(ls.contains(l) <==> arrives(calls, calls[k], l, d));
    if p is Some {
        let x = p->0 as u8;
        assert(start[m].contains((l, x)) <==> p == Some(x as nat));
        assert(has_lock(start[m], l));
        assert(q == p);
    } else {
        if has_lock(start[m], l) {
            let x = choose|x: u8| #[trigger] start[m].contains((l, x));
            assert(start[m].contains((l, x)) <==> p == Some(x as nat));
        }
        if calls[k].targets.contains(mm) && arrives(calls, calls[k], l, d) {
            assert(calls[k].targets.contains(mm));
            assert(q == Some(d));
        } else {
            if q is Some {
                let j = choose|j: int|
                    0 <= j < k + 1 && (#[trigger] calls[j]).targets.contains(mm) && arrives(
                        calls,
                        calls[j],
                        l,
                        d,
                    );
                assert(j < k);
                assert(calls[j].targets.contains(mm));
            }
        }
    }
}

} // verus!

//! What holds of every index that is built from a program: distances are shortest call
//! paths, and witnesses are such paths.

use crate::dex::ctx::assemble;
use crate::dex::ctx::assemble::LinkV;
use crate::dex::ctx::index::{Hop, IndexV, Options};
use crate::dex::ctx::order;
use crate::dex::ctx::query;
use crate::dex::ctx::reach;
use crate::dex::ctx::sound;
use crate::dex::ctx::whole;
use crate::dex::model::DexV;
use vstd::prelude::*;

verus! {

proof fn lemma_flat_grows<A>(lists: Seq<Seq<A>>, k: int, acc: Seq<A>)
    requires
        0 <= k,
    ensures
        order::flat(lists, k, acc).len() >= acc.len(),
        order::flat(lists, k, acc).take(acc.len() as int) == acc,
    decreases lists.len() - k,
{
    if k < lists.len() {
        let next = acc + lists[k];
        lemma_flat_grows(lists, k + 1, next);
        assert(order::flat(lists, k, acc) == order::flat(lists, k + 1, next));
        assert(order::flat(lists, k, acc).take(acc.len() as int) =~= next.take(acc.len() as int));
        assert(next.take(acc.len() as int) =~= acc);
    } else {
        assert(acc.take(acc.len() as int) =~= acc);
    }
}

/// The offsets cut the flattened lists back into the lists.
spec fn cut_back<A>(lists: Seq<Seq<A>>, flat: Seq<A>, off: Seq<usize>, rows: int) -> bool {
    forall|m: int, j: int|
        0 <= m < rows && j == m + 1 ==> #[trigger] off[m] <= #[trigger] off[j] <= flat.len()
            && flat.subrange(off[m] as int, off[j] as int) == lists[m]
}

proof fn lemma_cut_back<A>(
    lists: Seq<Seq<A>>,
    k: int,
    acc: Seq<A>,
    off: Seq<usize>,
)
    requires
        0 <= k <= lists.len(),
        off.len() == k + 1,
        off[k] == acc.len(),
        cut_back(lists, acc, off, k),
        order::flat(lists, k, acc).len() <= usize::MAX,
    ensures
        ({
            let f = order::flat(lists, k, acc);
            let o = order::offsets(lists, k, acc.len() as int, off);
            o.len() == lists.len() + 1 && cut_back(lists, f, o, lists.len() as int)
        }),
    decreases lists.len() - k,
{
    if k < lists.len() {
        let next = acc + lists[k];
        let off2 = off.push(next.len() as usize);
        lemma_flat_grows(lists, k + 1, next);
        assert(order::flat(lists, k, acc) == order::flat(lists, k + 1, next));
        assert forall|m: int, j: int| 0 <= m < k + 1 && j == m + 1 implies #[trigger] off2[m]
            <= #[trigger] off2[j] <= next.len() && next.subrange(off2[m] as int, off2[j] as int)
            == lists[m] by {
            if m < k {
                assert(off2[m] == off[m] && off2[j] == off[j]);
                assert(next.subrange(off[m] as int, off[j] as int) =~= acc.subrange(
                    off[m] as int,
                    off[j] as int,
                ));
            } else {
                assert(next.subrange(acc.len() as int, next.len() as int) =~= lists[k]);
            }
        }
        lemma_cut_back(lists, k + 1, next, off2);
        assert(order::offsets(lists, k, acc.len() as int, off) == order::offsets(
            lists,
            k + 1,
            next.len() as int,
            off2,
        ));
    }
}

proof fn lemma_called(lists: Seq<Seq<usize>>, ts: Seq<usize>, j: int, k: usize, m: int)
    requires
        0 <= j <= ts.len(),
        0 <= m < lists.len(),
        forall|i: int| 0 <= i < ts.len() ==> #[trigger] ts[i] < lists.len(),
    ensures
        order::called(lists, ts, j, k).len() == lists.len(),
        forall|x: usize| #[trigger]
            order::called(lists, ts, j, k)[m].contains(x) <==> lists[m].contains(x) || x == k && (
            exists|i: int| j <= i < ts.len() && #[trigger] ts[i] == m),
    decreases ts.len() - j,
{
    if j < ts.len() {
        let t = ts[j] as int;
        let next = lists.update(t, lists[t].push(k));
        lemma_called(next, ts, j + 1, k, m);
        let r = order::called(lists, ts, j, k);
        assert(r == order::called(next, ts, j + 1, k));
        assert forall|x: usize| #[trigger] r[m].contains(x) <==> lists[m].contains(x) || x == k && (
        exists|i: int| j <= i < ts.len() && #[trigger] ts[i] == m) by {
            assert(r[m].contains(x) <==> next[m].contains(x) || x == k && (exists|i: int|
                j + 1 <= i < ts.len() && #[trigger] ts[i] == m));
            if t == m {
                assert(ts[j] == m);
                let old = lists[m];
                if old.contains(x) {
                    let i = choose|i: int| 0 <= i < old.len() && old[i] == x;
                    assert(next[m][i] == x);
                }
                assert(next[m][old.len() as int] == k);
                if next[m].contains(x) {
                    let i = choose|i: int| 0 <= i < next[m].len() && next[m][i] == x;
                    if i < old.len() {
                        assert(old[i] == x);
                    }
                }
            }
        }
    }
}

proof fn lemma_callers(lists: Seq<Seq<usize>>, calls: Seq<LinkV>, k: int, m: int, locks: int)
    requires
        0 <= k <= calls.len() <= usize::MAX,
        0 <= m < lists.len() <= usize::MAX,
        forall|i: int|
            0 <= i < calls.len() ==> assemble::link_ok(
                #[trigger] calls[i],
                lists.len() as int,
                locks,
            ),
    ensures
        order::callers_from(lists, calls, k).len() == lists.len(),
        forall|x: usize| #[trigger]
            order::callers_from(lists, calls, k)[m].contains(x) <==> lists[m].contains(x) || k <= x
                < calls.len() && calls[x as int].targets.contains(m as usize),
    decreases calls.len() - k,
{
    if k < calls.len() {
        let ts = calls[k].targets;
        assert(assemble::link_ok(calls[k], lists.len() as int, locks));
        let next = order::called(lists, ts, 0, k as usize);
        lemma_called(lists, ts, 0, k as usize, m);
        lemma_callers(next, calls, k + 1, m, locks);
        let r = order::callers_from(lists, calls, k);
        assert(r == order::callers_from(next, calls, k + 1));
        assert forall|x: usize| #[trigger] r[m].contains(x) <==> lists[m].contains(x) || k <= x
            < calls.len() && calls[x as int].targets.contains(m as usize) by {
            assert(r[m].contains(x) <==> next[m].contains(x) || k + 1 <= x < calls.len()
                && calls[x as int].targets.contains(m as usize));
            assert(next[m].contains(x) <==> lists[m].contains(x) || x == k as usize && (exists|
                i: int,
            |
                0 <= i < ts.len() && #[trigger] ts[i] == m));
            if x == k {
                if ts.contains(m as usize) {
                    let i = choose|i: int| 0 <= i < ts.len() && ts[i] == m as usize;
                    assert(ts[i] == m);
                }
                if exists|i: int| 0 <= i < ts.len() && #[trigger] ts[i] == m {
                    let i = choose|i: int| 0 <= i < ts.len() && #[trigger] ts[i] == m;
                    assert(ts[i] == m as usize);
                }
            }
        }
    }
}

/// The calls of the board, which stands behind the index.
pub open spec fn links(d: DexV, opts: Options) -> Seq<LinkV> {
    assemble::board(d, opts.cha_cap).calls
}

/// The call graph behind an index that fits its numbers is consistent.
pub proof fn lemma_indexed(d: DexV, opts: Options)
    requires
        whole::fits(d, opts),
    ensures
        assemble::board_ok(assemble::board(d, opts.cha_cap), d.methods().len() as int),
        assemble::board(d, opts.cha_cap).recs.len() == d.methods().len(),
{
    sound::lemma_board_len(d, opts.cha_cap);
    sound::lemma_board(d, opts.cha_cap);
}

proof fn lemma_row(d: DexV, opts: Options, m: u32)
    requires
        whole::fits(d, opts),
        m < d.methods().len(),
    ensures
        ({
            let v = whole::built(d, opts);
            let rs = whole::rows_of(d, opts);
            let a = v.may_off[m as int] as int;
            let b = v.may_off[m + 1] as int;
            &&& a <= b <= v.may_lock.len()
            &&& b - a == rs[m as int].len()
            &&& forall|i: int|
                0 <= i < b - a ==> (#[trigger] v.may_lock[a + i]) == rs[m as int][i].0 as u32
                    && v.may_dist[a + i] == rs[m as int][i].1
        }),
{
    lemma_indexed(d, opts);
    let v = whole::built(d, opts);
    let rs = whole::rows_of(d, opts);
    let f = order::flat(rs, 0, Seq::empty());
    let o = order::offsets(rs, 0, 0, seq![0usize]);
    assert(f.len() <= usize::MAX);
    assert(cut_back(rs, Seq::<(usize, u8)>::empty(), seq![0usize], 0));
    lemma_cut_back(rs, 0, Seq::empty(), seq![0usize]);
    let mi = m as int;
    assert(Seq::<(usize, u8)>::empty().len() == 0);
    assert(cut_back(rs, f, o, rs.len() as int));
    assert(rs.len() == d.methods().len());
    let mj = mi + 1;
    assert(o[mi] <= o[mj]);
    assert(o[mi] <= o[mi + 1] <= f.len() && f.subrange(o[mi] as int, o[mi + 1] as int) == rs[mi]);
    assert(v.may_off[mi] == o[mi] as u32 && v.may_off[mi + 1] == o[mi + 1] as u32);
    let a = o[mi] as int;
    assert forall|i: int| 0 <= i < o[mi + 1] - a implies (#[trigger] v.may_lock[a + i])
        == rs[mi][i].0 as u32 && v.may_dist[a + i] == rs[mi][i].1 by {
        assert(f.subrange(a, o[mi + 1] as int)[i] == f[a + i]);
    }
}

proof fn lemma_dist_finds(v: IndexV, lock: u32, i: int, end: int, j: int)
    requires
        i <= j < end,
        v.may_lock[j] == lock,
    ensures
        dist_hit(v, lock, i, end),
    decreases end - i,
{
    if v.may_lock[i] != lock {
        lemma_dist_finds(v, lock, i + 1, end, j);
        let k = choose|k: int|
            i + 1 <= k < end && #[trigger] v.may_lock[k] == lock && query::dist_from(
                v,
                lock,
                i + 1,
                end,
            ) == Some(v.may_dist[k]);
        assert(v.may_lock[k] == lock);
    }
}

/// The search finds an entry of the lock.
spec fn dist_hit(v: IndexV, lock: u32, i: int, end: int) -> bool {
    exists|k: int|
        i <= k < end && #[trigger] v.may_lock[k] == lock && query::dist_from(v, lock, i, end)
            == Some(v.may_dist[k])
}

proof fn lemma_dist_is_hit(v: IndexV, lock: u32, i: int, end: int)
    requires
        query::dist_from(v, lock, i, end) is Some,
    ensures
        dist_hit(v, lock, i, end),
    decreases end - i,
{
    if i < end {
        lemma_dist_finds_or_skips(v, lock, i, end);
    }
}

proof fn lemma_dist_finds_or_skips(v: IndexV, lock: u32, i: int, end: int)
    requires
        i < end,
        query::dist_from(v, lock, i, end) is Some,
    ensures
        dist_hit(v, lock, i, end),
    decreases end - i,
{
    if v.may_lock[i] == lock {
        lemma_dist_finds(v, lock, i, end, i);
    } else {
        if i + 1 < end {
            lemma_dist_finds_or_skips(v, lock, i + 1, end);
            let k = choose|k: int|
                i + 1 <= k < end && #[trigger] v.may_lock[k] == lock && query::dist_from(
                    v,
                    lock,
                    i + 1,
                    end,
                ) == Some(v.may_dist[k]);
            lemma_dist_finds(v, lock, i, end, k);
        }
    }
}

/// The distance that an index gives is the fewest call frames between a holder of the lock
/// and entry to the method, and it gives one exactly where there is one within the
/// horizon.
pub proof fn law_dist_is_distance(d: DexV, opts: Options, m: u32, l: u32)
    requires
        whole::fits(d, opts),
        m < d.methods().len(),
        l < whole::built(d, opts).locks.len(),
    ensures
        match whole::built(d, opts).dist(m, l) {
            Some(x) => reach::distance(links(d, opts), opts.max_depth, m as usize, l as usize)
                == Some(x as nat),
            None => reach::distance(links(d, opts), opts.max_depth, m as usize, l as usize)
                is None,
        },
{
    lemma_indexed(d, opts);
    let v = whole::built(d, opts);
    let calls = links(d, opts);
    let rs = whole::rows_of(d, opts);
    let row = rs[m as int];
    let n = v.locks.len() as int;
    let a = v.may_off[m as int] as int;
    let b = v.may_off[m + 1] as int;
    lemma_row(d, opts, m);
    order::lemma_row_from(calls, opts.max_depth, m as usize, 0, n, Seq::empty());
    assert(row == order::row_from(calls, opts.max_depth, m as usize, 0, n, Seq::empty()));
    let want = reach::distance(calls, opts.max_depth, m as usize, l as usize);
    if v.dist(m, l) is Some {
        lemma_dist_is_hit(v, l, a, b);
        let k = choose|k: int|
            a <= k < b && #[trigger] v.may_lock[k] == l && query::dist_from(v, l, a, b) == Some(
                v.may_dist[k],
            );
        let i = k - a;
        assert(v.may_lock[a + i] == row[i].0 as u32);
        assert(row.contains(row[i]));
        assert(row[i].0 < n);
        assert(row[i].0 == l as usize);
    } else if want is Some {
        reach::lemma_distance_fits(calls, opts.max_depth, m as usize, l as usize);
        let e = (l as usize, want->0 as u8);
        assert(row.contains(e));
        let i = choose|i: int| 0 <= i < row.len() && row[i] == e;
        assert(v.may_lock[a + i] == row[i].0 as u32);
        lemma_dist_finds(v, l, a, b, a + i);
    }
}

proof fn lemma_caller_row(d: DexV, opts: Options, m: u32)
    requires
        whole::fits(d, opts),
        m < d.methods().len(),
    ensures
        ({
            let v = whole::built(d, opts);
            let a = v.caller_off[m as int] as int;
            let b = v.caller_off[m + 1] as int;
            &&& a <= b <= v.callers.len()
            &&& forall|i: int|
                a <= i < b ==> (#[trigger] v.callers[i]) < v.calls.len() && links(d, opts)[
                    v.callers[i] as int
                ].targets.contains(m as usize)
            &&& forall|k: int|
                0 <= k < v.calls.len() && (#[trigger] links(d, opts)[k]).targets.contains(
                    m as usize,
                ) ==> exists|i: int| a <= i < b && #[trigger] v.callers[i] == k
        }),
{
    lemma_indexed(d, opts);
    let v = whole::built(d, opts);
    let calls = links(d, opts);
    let bd = assemble::board(d, opts.cha_cap);
    let cs = whole::callers_in(d, opts);
    let n = d.methods().len();
    let f = order::flat(cs, 0, Seq::empty());
    let o = order::offsets(cs, 0, 0, seq![0usize]);
    let none = Seq::new(n, |i: int| Seq::<usize>::empty());
    assert(cut_back(cs, Seq::<usize>::empty(), seq![0usize], 0));
    lemma_cut_back(cs, 0, Seq::empty(), seq![0usize]);
    lemma_callers(none, calls, 0, m as int, bd.locks.len() as int);
    let mi = m as int;
    let row = cs[mi];
    assert(Seq::<usize>::empty().len() == 0);
    assert(cut_back(cs, f, o, cs.len() as int));
    assert(cs.len() == n);
    let mj = mi + 1;
    assert(o[mi] <= o[mj]);
    assert(o[mi] <= o[mi + 1] <= f.len() && f.subrange(o[mi] as int, o[mi + 1] as int) == row);
    let a = o[mi] as int;
    let b = o[mi + 1] as int;
    assert forall|i: int| a <= i < b implies (#[trigger] v.callers[i]) < v.calls.len() && calls[
    v.callers[i] as int].targets.contains(m as usize) by {
        assert(f.subrange(a, b)[i - a] == f[i]);
        assert(row.contains(row[i - a]));
    }
    assert forall|k: int|
        0 <= k < v.calls.len() && (#[trigger] calls[k]).targets.contains(
            m as usize,
        ) implies exists|i: int| a <= i < b && #[trigger] v.callers[i] == k by {
        assert(row.contains(k as usize));
        let j = choose|j: int| 0 <= j < row.len() && row[j] == k as usize;
        assert(f.subrange(a, b)[j] == f[a + j]);
        assert(v.callers[a + j] == k);
    }
}

proof fn lemma_bringing(v: IndexV, lock: u32, d: nat, i: int, end: int)
    ensures
        match query::bringing(v, lock, d, i, end) {
            Some(k) => brought(v, lock, d, i, end, k),
            None => forall|j: int|
                i <= j < end ==> !query::steps(v, #[trigger] v.callers[j], lock, d),
        },
    decreases end - i,
{
    if i < end && !query::steps(v, v.callers[i], lock, d) {
        lemma_bringing(v, lock, d, i + 1, end);
        match query::bringing(v, lock, d, i + 1, end) {
            Some(k) => {
                let j = choose|j: int| i + 1 <= j < end && #[trigger] v.callers[j] == k;
                assert(v.callers[j] == k);
            },
            None => {},
        }
    } else if i < end {
        assert(v.callers[i] == v.callers[i]);
    }
}

/// `k` stands among the entries and brings the lock.
spec fn brought(v: IndexV, lock: u32, d: nat, i: int, end: int, k: u32) -> bool {
    query::steps(v, k, lock, d) && exists|j: int| i <= j < end && #[trigger] v.callers[j] == k
}

/// The calls of a chain, each of which reaches the caller of the one before it; the last
/// one holds the lock.
spec fn chained(calls: Seq<LinkV>, ch: Seq<u32>, m: usize, l: usize) -> bool {
    &&& forall|i: int| 0 <= i < ch.len() ==> #[trigger] ch[i] < calls.len()
    &&& ch.len() > 0 ==> calls[ch[0] as int].targets.contains(m)
    &&& forall|i: int, j: int|
        0 <= i && j == i + 1 && j < ch.len() ==> calls[#[trigger] ch[j] as int].targets.contains(
            calls[#[trigger] ch[i] as int].caller,
        )
}

proof fn lemma_chain(
    d: DexV,
    opts: Options,
    m: u32,
    cur: u32,
    l: u32,
    n: nat,
    acc: Seq<u32>,
)
    requires
        whole::fits(d, opts),
        cur < d.methods().len(),
        l < whole::built(d, opts).locks.len(),
        n > 0,
        reach::distance(links(d, opts), opts.max_depth, cur as usize, l as usize) == Some(n),
        chained(links(d, opts), acc, m as usize, l as usize),
        if acc.len() == 0 {
            cur == m
        } else {
            links(d, opts)[acc.last() as int].caller == cur
        },
    ensures
        query::chain(whole::built(d, opts), cur, l, n, acc) matches Some(ch) && ch.len()
            == acc.len() + n && chained(links(d, opts), ch, m as usize, l as usize)
            && links(d, opts)[ch.last() as int].held.contains(l as usize),
    decreases n,
{
    lemma_indexed(d, opts);
    let v = whole::built(d, opts);
    let calls = links(d, opts);
    let bd = assemble::board(d, opts.cha_cap);
    let h = reach::horizon(opts.max_depth);
    let mu = cur as usize;
    let lu = l as usize;
    let a = v.caller_off[cur as int] as int;
    let b = v.caller_off[cur + 1] as int;
    lemma_caller_row(d, opts, cur);
    // A call that brings the lock exists.
    reach::lemma_known_bound(calls, mu, lu, h);
    assert(reach::known(calls, mu, lu, n) == Some(n));
    reach::lemma_known_bound(calls, mu, lu, (n - 1) as nat);
    assert(reach::known(calls, mu, lu, (n - 1) as nat) is None);
    let k0 = choose|k: int|
        0 <= k < calls.len() && (#[trigger] calls[k]).targets.contains(mu) && (if n == 1 {
            calls[k].held.contains(lu)
        } else {
            reach::known(calls, calls[k].caller, lu, (n - 1) as nat) == Some((n - 1) as nat)
        });
    assert(0 <= k0 < calls.len() && calls[k0].targets.contains(mu));
    lemma_steps(d, opts, k0 as u32, l, n);
    let i0 = choose|i: int| a <= i < b && #[trigger] v.callers[i] == k0;
    assert(v.callers[i0] == k0 as u32);
    lemma_bringing(v, l, n, a, b);
    let k = query::bringing(v, l, n, a, b)->0;
    assert(brought(v, l, n, a, b, k));
    let j = choose|j: int| a <= j < b && #[trigger] v.callers[j] == k;
    assert(calls[v.callers[j] as int].targets.contains(mu));
    lemma_steps(d, opts, k, l, n);
    assert(assemble::link_ok(calls[k as int], d.methods().len() as int, bd.locks.len() as int));
    let next = acc.push(k);
    let caller = v.calls[k as int].caller;
    assert(caller == calls[k as int].caller);
    assert(chained(calls, next, m as usize, lu)) by {
        assert forall|i: int, j: int| 0 <= i && j == i + 1 && j < next.len() implies calls[
        #[trigger] next[j] as int].targets.contains(calls[#[trigger] next[i] as int].caller) by {
            if j < acc.len() {
                assert(next[j] == acc[j] && next[i] == acc[i]);
            } else {
                assert(next[i] == acc.last());
            }
        }
    }
    if n == 1 {
        assert(query::chain(v, caller, l, 0, next) == Some(next));
        assert(next.last() == k);
    } else {
        lemma_chain(d, opts, m, caller, l, (n - 1) as nat, next);
    }
    assert(query::chain(v, cur, l, n, acc) == query::chain(v, caller, l, (n - 1) as nat, next));
}

/// A stored call brings the lock exactly where the call does.
proof fn lemma_steps(d: DexV, opts: Options, k: u32, l: u32, n: nat)
    requires
        whole::fits(d, opts),
        k < links(d, opts).len(),
        l < whole::built(d, opts).locks.len(),
        0 < n <= reach::horizon(opts.max_depth),
    ensures
        query::steps(whole::built(d, opts), k, l, n) <==> if n == 1 {
            links(d, opts)[k as int].held.contains(l as usize)
        } else {
            reach::distance(
                links(d, opts),
                opts.max_depth,
                links(d, opts)[k as int].caller,
                l as usize,
            ) == Some((n - 1) as nat)
        },
        n > 1 ==> (reach::distance(
            links(d, opts),
            opts.max_depth,
            links(d, opts)[k as int].caller,
            l as usize,
        ) == Some((n - 1) as nat) <==> reach::known(
            links(d, opts),
            links(d, opts)[k as int].caller,
            l as usize,
            (n - 1) as nat,
        ) == Some((n - 1) as nat)),
{
    lemma_indexed(d, opts);
    let v = whole::built(d, opts);
    let calls = links(d, opts);
    let bd = assemble::board(d, opts.cha_cap);
    let c = calls[k as int];
    let lu = l as usize;
    assert(assemble::link_ok(c, d.methods().len() as int, bd.locks.len() as int));
    assert(v.calls[k as int] == whole::call_ix(c));
    let caller = v.calls[k as int].caller;
    assert(caller == c.caller);
    let held = v.calls[k as int].held;
    if c.held.contains(lu) {
        let i = choose|i: int| 0 <= i < c.held.len() && c.held[i] == lu;
        assert(held[i] == l);
    }
    if held.contains(l) {
        let i = choose|i: int| 0 <= i < held.len() && held[i] == l;
        assert(c.held[i] < bd.locks.len());
        assert(c.held[i] == lu);
    }
    law_dist_is_distance(d, opts, caller, l);
    let h = reach::horizon(opts.max_depth);
    if n > 1 {
        if reach::known(calls, c.caller, lu, (n - 1) as nat) == Some((n - 1) as nat) {
            reach::lemma_known_stays(calls, c.caller, lu, (n - 1) as nat, h);
        }
        if reach::known(calls, c.caller, lu, h) == Some((n - 1) as nat) {
            reach::lemma_known_bound(calls, c.caller, lu, h);
        }
    }
}

/// The frames of a witness are the callers along a call path that brings the lock to the
/// method, from the frame that holds it.
pub open spec fn follows(
    calls: Seq<LinkV>,
    hops: Seq<Hop>,
    p: Seq<int>,
    m: u32,
    l: u32,
) -> bool {
    &&& reach::path(calls, p, m as usize, l as usize)
    &&& hops.len() == p.len() + 1
    &&& forall|i: int|
        0 <= i < p.len() ==> (#[trigger] hops[i]).method == calls[p[i]].caller && hops[i].call
            == Some(calls[p[i]].line)
    &&& hops.last().method == m
    &&& hops.last().call is None
}

/// Every lock that may be held on entry to a method has a witness, which is a call path
/// of as many frames as the lock's distance; and no other lock has one.
pub proof fn law_witness_is_shortest_path(d: DexV, opts: Options, m: u32, l: u32) -> (p: Seq<int>)
    requires
        whole::fits(d, opts),
        m < d.methods().len(),
        l < whole::built(d, opts).locks.len(),
    ensures
        match whole::built(d, opts).dist(m, l) {
            None => whole::built(d, opts).witness(m, l) is None,
            Some(x) => whole::built(d, opts).witness(m, l) matches Some(hops) && follows(
                links(d, opts),
                hops,
                p,
                m,
                l,
            ) && p.len() == x,
        },
{
    lemma_indexed(d, opts);
    let v = whole::built(d, opts);
    let calls = links(d, opts);
    law_dist_is_distance(d, opts, m, l);
    match v.dist(m, l) {
        None => Seq::empty(),
        Some(x) => {
            reach::lemma_distance_fits(calls, opts.max_depth, m as usize, l as usize);
            lemma_chain(d, opts, m, m, l, x as nat, Seq::empty());
            let ch = query::chain(v, m, l, x as nat, Seq::empty())->0;
            let n = ch.len() as int;
            let p = Seq::new(ch.len(), |i: int| ch[n - 1 - i] as int);
            assert forall|i: int, j: int| 0 <= i && j == i + 1 && j < p.len() implies calls[
            #[trigger] p[i]].targets.contains(calls[#[trigger] p[j]].caller) by {
                let a = n - 1 - j;
                let b = n - 1 - i;
                assert(calls[ch[b] as int].targets.contains(calls[ch[a] as int].caller));
            }
            assert forall|i: int| 0 <= i < p.len() implies 0 <= #[trigger] p[i] < calls.len() by {
                assert(ch[n - 1 - i] < calls.len());
            }
            assert(p[0] == ch.last() as int);
            assert(p.last() == ch[0] as int);
            let hops = v.witness(m, l)->0;
            let bd = assemble::board(d, opts.cha_cap);
            assert forall|i: int| 0 <= i < p.len() implies (#[trigger] hops[i]).method == calls[
            p[i]].caller && hops[i].call == Some(calls[p[i]].line) by {
                let k = ch[n - 1 - i] as int;
                assert(v.calls[k] == whole::call_ix(calls[k]));
                assert(assemble::link_ok(
                    calls[k],
                    d.methods().len() as int,
                    bd.locks.len() as int,
                ));
            }
            assert(follows(calls, hops, p, m, l));
            p
        },
    }
}

} // verus!

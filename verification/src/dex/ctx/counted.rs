//! What the edges of the lock-order graph count, which locks wait for one another, and who
//! calls whom.

use crate::dex::ctx::assemble::LinkV;
use crate::dex::ctx::cycles;
use crate::dex::ctx::index::{Hop, IndexV, OrderEdge};
use crate::dex::ctx::order;
use crate::dex::ctx::order::EdgeV;
use crate::dex::ctx::query;
use crate::dex::model::DexV;
use crate::dex::race;
use crate::dex::race::FindingV;
use crate::graph;
use vstd::prelude::*;

verus! {

/// The edges stand by what they lead to, one for each.
pub open spec fn climbing(list: Seq<EdgeV>) -> bool {
    forall|i: int, j: int| 0 <= i < j < list.len() ==> (#[trigger] list[i]).to < (#[trigger] list[j]).to
}

/// The edge with one more site: counted once more, and with the place of the nearer one.
pub open spec fn once_more(a: EdgeV, e: EdgeV) -> EdgeV {
    let near = if e.dist < a.dist {
        e
    } else {
        a
    };
    EdgeV {
        count: if a.count < u32::MAX {
            (a.count + 1) as u32
        } else {
            u32::MAX
        },
        ..near
    }
}

proof fn lemma_bumped(list: Seq<EdgeV>, e: EdgeV, k: int, x: EdgeV)
    requires
        climbing(list),
        0 <= k <= list.len(),
        forall|i: int| 0 <= i < k ==> (#[trigger] list[i]).to < e.to,
    ensures
        ({
            let r = order::bumped(list, e, k);
            &&& climbing(r)
            &&& x.to != e.to ==> (r.contains(x) <==> list.contains(x))
            &&& forall|i: int|
                0 <= i < list.len() && (#[trigger] list[i]).to == e.to ==> r.contains(
                    once_more(list[i], e),
                ) && r.len() == list.len()
            &&& (forall|i: int| 0 <= i < list.len() ==> (#[trigger] list[i]).to != e.to) ==> r.contains(e)
                && r.len() == list.len() + 1
        }),
    decreases list.len() - k,
{
    if k >= list.len() {
        let r = list.push(e);
        assert(r[list.len() as int] == e);
        if x.to != e.to {
            crate::dex::ctx::answers::lemma_pushed(list, e, x);
        }
    } else if list[k].to == e.to {
        let y = once_more(list[k], e);
        let r = list.update(k, y);
        assert(order::bumped(list, e, k) == r);
        assert(r[k] == y);
        if x.to != e.to {
            if list.contains(x) {
                let i = choose|i: int| 0 <= i < list.len() && list[i] == x;
                assert(r[i] == x);
            }
            if r.contains(x) {
                let i = choose|i: int| 0 <= i < r.len() && r[i] == x;
                assert(list[i] == x);
            }
        }
        assert forall|i: int| 0 <= i < list.len() && (#[trigger] list[i]).to == e.to implies i == k by {}
    } else if list[k].to > e.to {
        let r = list.insert(k, e);
        assert(r[k] == e);
        assert forall|i: int, j: int| 0 <= i < j < r.len() implies (#[trigger] r[i]).to < (#[trigger] r[j]).to by {
            let a = if i < k {
                i
            } else {
                i - 1
            };
            let b = if j < k {
                j
            } else {
                j - 1
            };
            if i != k && j != k {
                assert(r[i] == list[a] && r[j] == list[b]);
            } else if j == k {
                assert(r[i] == list[i]);
            } else {
                assert(r[j] == list[b]);
                if b > k {
                    assert(list[k].to < list[b].to);
                }
            }
        }
        if x.to != e.to {
            if list.contains(x) {
                let i = choose|i: int| 0 <= i < list.len() && list[i] == x;
                assert(r[if i < k { i } else { i + 1 }] == x);
            }
            if r.contains(x) {
                let i = choose|i: int| 0 <= i < r.len() && r[i] == x;
                assert(list[if i < k { i } else { i - 1 }] == x);
            }
        }
    } else {
        lemma_bumped(list, e, k + 1, x);
    }
}

/// One more site of an edge counts it once more, and keeps the place of the nearer site, of two
/// equally near ones the first; a new edge is counted once; and no other edge changes.
pub proof fn law_edges_count_their_sites(list: Seq<EdgeV>, e: EdgeV, x: EdgeV)
    requires
        climbing(list),
    ensures
        ({
            let r = order::bumped(list, e, 0);
            &&& climbing(r)
            &&& x.to != e.to ==> (r.contains(x) <==> list.contains(x))
            &&& forall|i: int|
                0 <= i < list.len() && (#[trigger] list[i]).to == e.to ==> r.contains(
                    once_more(list[i], e),
                ) && r.len() == list.len()
            &&& (forall|i: int| 0 <= i < list.len() ==> (#[trigger] list[i]).to != e.to) ==> r.contains(e)
                && r.len() == list.len() + 1
        }),
{
    lemma_bumped(list, e, 0, x);
}

proof fn lemma_called(lists: Seq<Seq<usize>>, ts: Seq<usize>, j: int, k: usize, m: int, x: usize)
    requires
        0 <= j,
        0 <= m < lists.len(),
        forall|i: int| 0 <= i < ts.len() ==> #[trigger] ts[i] < lists.len(),
    ensures
        order::called(lists, ts, j, k).len() == lists.len(),
        order::called(lists, ts, j, k)[m].contains(x) <==> lists[m].contains(x) || x == k && exists|i: int|
            j <= i < ts.len() && #[trigger] ts[i] == m,
    decreases ts.len() - j,
{
    if j < ts.len() {
        let t = ts[j] as int;
        let next = lists.update(t, lists[t].push(k));
        lemma_called(next, ts, j + 1, k, m, x);
        crate::dex::ctx::answers::lemma_pushed(lists[t], k, x);
    }
}

proof fn lemma_callers(lists: Seq<Seq<usize>>, calls: Seq<LinkV>, k: int, m: int, x: usize)
    requires
        0 <= k,
        calls.len() <= usize::MAX,
        0 <= m < lists.len(),
        m <= usize::MAX,
        forall|c: int, i: int|
            0 <= c < calls.len() && 0 <= i < calls[c].targets.len() ==> #[trigger] calls[c].targets[i]
                < lists.len(),
    ensures
        order::callers_from(lists, calls, k)[m].contains(x) <==> lists[m].contains(x) || k <= x
            < calls.len() && calls[x as int].targets.contains(m as usize),
    decreases calls.len() - k,
{
    if k < calls.len() {
        let ts = calls[k].targets;
        lemma_called(lists, ts, 0, k as usize, m, x);
        assert(ts.contains(m as usize) <==> exists|i: int| 0 <= i < ts.len() && #[trigger] ts[i] == m);
        lemma_callers(order::called(lists, ts, 0, k as usize), calls, k + 1, m, x);
    }
}

/// The call sites that reach a method are exactly the calls that have it among their targets.
pub proof fn law_callers_are_the_calls_that_reach(calls: Seq<LinkV>, methods: nat, m: usize, x: usize)
    requires
        calls.len() <= usize::MAX,
        m < methods,
        forall|c: int, i: int|
            0 <= c < calls.len() && 0 <= i < calls[c].targets.len() ==> #[trigger] calls[c].targets[i]
                < methods,
    ensures
        order::callers(calls, methods)[m as int].contains(x) <==> x < calls.len()
            && calls[x as int].targets.contains(m),
{
    let none = Seq::new(methods, |i: int| Seq::<usize>::empty());
    assert(none[m as int] =~= Seq::empty());
    lemma_callers(none, calls, 0, m as int, x);
}

/// A way along the edges from lock to lock.
pub open spec fn way(es: Seq<OrderEdge>, p: Seq<u32>, x: u32, y: u32) -> bool {
    &&& p.len() >= 1
    &&& p[0] == x
    &&& p.last() == y
    &&& forall|i: int|
        0 <= i < p.len() - 1 ==> exists|j: int|
            0 <= j < es.len() && (#[trigger] es[j]).from == #[trigger] p[i] && es[j].to == p[i + 1]
}

/// Some way leads from the one lock to the other.
pub open spec fn follows(es: Seq<OrderEdge>, x: u32, y: u32) -> bool {
    exists|p: Seq<u32>| #[trigger] way(es, p, x, y)
}

proof fn lemma_follows(es: Seq<OrderEdge>, x: u32, y: u32)
    ensures
        follows(es, x, y) <==> graph::leads(cycles::points(es), x as usize, y as usize),
{
    let rel = cycles::points(es);
    if follows(es, x, y) {
        let p = choose|p: Seq<u32>| #[trigger] way(es, p, x, y);
        let q = Seq::new(p.len(), |i: int| p[i] as usize);
        assert forall|i: int, j: int| 0 <= i && j == i + 1 && j < q.len() implies rel(
            #[trigger] q[i],
            #[trigger] q[j],
        ) by {
            let e = choose|e: int|
                0 <= e < es.len() && (#[trigger] es[e]).from == p[i] && es[e].to == p[i + 1];
            assert(cycles::joins(es[e], q[i], q[j]));
        }
        assert(graph::walks(rel, q, x as usize, y as usize));
    }
    if graph::leads(rel, x as usize, y as usize) {
        let (a, b) = (x as usize, y as usize);
        let q = choose|q: Seq<usize>| graph::walks(rel, q, a, b);
        let p = Seq::new(q.len(), |i: int| q[i] as u32);
        assert forall|i: int| 0 <= i < q.len() implies #[trigger] q[i] == p[i] by {
            if i + 1 < q.len() {
                let j = i + 1;
                assert(rel(q[i], q[j]));
            } else if i > 0 {
                let h = i - 1;
                assert(rel(q[h], q[i]));
            }
        }
        assert forall|i: int| 0 <= i < p.len() - 1 implies exists|j: int|
            0 <= j < es.len() && (#[trigger] es[j]).from == #[trigger] p[i] && es[j].to == p[i + 1] by {
            let j = i + 1;
            assert(rel(q[i], q[j]));
            let e = choose|e: int| 0 <= e < es.len() && cycles::joins(#[trigger] es[e], q[i], q[j]);
            assert(q[i] == p[i] && q[j] == p[j]);
            assert(es[e].from == p[i] && es[e].to == p[i + 1]);
        }
        assert(way(es, p, x, y));
    }
}

/// Two locks are in one group exactly where a way leads from each to the other; a group has at
/// least two, no lock is in two groups, and the larger groups come first.
pub proof fn law_groups_are_locks_that_wait_for_one_another(
    v: IndexV,
    cyc: Seq<Seq<u32>>,
    x: u32,
    y: u32,
    i: int,
    j: int,
)
    requires
        cycles::are_cycles(v, cyc),
        x < v.locks.len(),
        y < v.locks.len(),
        x != y,
    ensures
        (exists|g: int| 0 <= g < cyc.len() && (#[trigger] cyc[g]).contains(x) && cyc[g].contains(y)) <==> (
        follows(v.order, x, y) && follows(v.order, y, x)),
        0 <= i < cyc.len() ==> cyc[i].len() >= 2,
        0 <= i < j < cyc.len() ==> cyc[i].len() >= cyc[j].len(),
        0 <= i < j < cyc.len() ==> !(cyc[i].contains(x) && cyc[j].contains(x)),
{
    lemma_follows(v.order, x, y);
    lemma_follows(v.order, y, x);
    if exists|g: int| 0 <= g < cyc.len() && (#[trigger] cyc[g]).contains(x) && cyc[g].contains(y) {
        let g = choose|g: int| 0 <= g < cyc.len() && (#[trigger] cyc[g]).contains(x) && cyc[g].contains(y);
        assert(cycles::component(v, cyc[g]));
        assert(cycles::mutual(v.order, x, y));
    }
    if follows(v.order, x, y) && follows(v.order, y, x) {
        assert(cycles::mutual(v.order, x, y));
        assert(cycles::covered(cyc, x));
        let g = choose|g: int| 0 <= g < cyc.len() && (#[trigger] cyc[g]).contains(x);
        assert(cycles::component(v, cyc[g]));
        assert(cyc[g].contains(y));
    }
    if 0 <= i < cyc.len() {
        assert(cycles::component(v, cyc[i]));
    }
    if 0 <= i < j < cyc.len() && cyc[i].contains(x) && cyc[j].contains(x) {
        let a = cyc[i];
        let b = cyc[j];
        assert(cycles::component(v, a) && cycles::component(v, b));
        assert forall|z: u32| a.contains(z) <==> b.contains(z) by {}
        lemma_same(a, b);
        assert(a == b);
        assert(false);
    }
}

proof fn lemma_same(a: Seq<u32>, b: Seq<u32>)
    requires
        query::climbs(a),
        query::climbs(b),
        forall|z: u32| a.contains(z) <==> b.contains(z),
    ensures
        a == b,
    decreases a.len(),
{
    if a.len() == 0 {
        if b.len() > 0 {
            assert(b.contains(b[0]));
        }
        assert(a =~= b);
    } else {
        assert(a.contains(a.last()));
        assert(b.len() > 0);
        assert(b.contains(b.last()));
        let i = choose|i: int| 0 <= i < b.len() && b[i] == a.last();
        let j = choose|j: int| 0 <= j < a.len() && a[j] == b.last();
        assert(a.last() == b.last());
        let p = a.drop_last();
        let q = b.drop_last();
        assert forall|z: u32| p.contains(z) <==> q.contains(z) by {
            if p.contains(z) {
                let k = choose|k: int| 0 <= k < p.len() && p[k] == z;
                assert(a[k] == z);
                assert(a.contains(z));
                let h = choose|h: int| 0 <= h < b.len() && b[h] == z;
                assert(z < a.last());
                assert(q[h] == z);
            }
            if q.contains(z) {
                let k = choose|k: int| 0 <= k < q.len() && q[k] == z;
                assert(b[k] == z);
                assert(b.contains(z));
                let h = choose|h: int| 0 <= h < a.len() && a[h] == z;
                assert(z < b.last());
                assert(p[h] == z);
            }
        }
        lemma_same(p, q);
        assert(p.push(a.last()) =~= a);
        assert(q.push(b.last()) =~= b);
    }
}

/// Code runs concurrently exactly where a thread enters, or where code that runs concurrently
/// calls it.
pub proof fn law_concurrency_follows_the_calls(d: DexV, v: IndexV, m: u32)
    requires
        v.methods.len() <= u32::MAX,
    ensures
        race::is_concurrent(d, v, m as int) <==> {
            ||| race::roots(d).contains(m as usize)
            ||| exists|x: u32, k: int|
                x < v.methods.len() && #[trigger] race::is_concurrent(d, v, x as int)
                    && v.methods[x as int].calls.0 <= k < v.methods[x as int].calls.1 && (
                #[trigger] v.calls[k]).targets.contains(m)
        },
{
    let rel = race::calls_in(v);
    let from = race::roots(d);
    let y = m as usize;
    if race::is_concurrent(d, v, m as int) {
        let i = choose|i: int| 0 <= i < from.len() && graph::leads(rel, #[trigger] from[i], y);
        let z = from[i];
        let p = choose|p: Seq<usize>| graph::walks(rel, p, z, y);
        if p.len() == 1 {
            assert(from.contains(from[i]));
        } else {
            let n = p.len() - 2;
            let h = p.len() - 1;
            assert(rel(p[n], p[h]));
            let q = p.drop_last();
            assert forall|a: int, b: int| 0 <= a && b == a + 1 && b < q.len() implies rel(
                #[trigger] q[a],
                #[trigger] q[b],
            ) by {
                assert(rel(p[a], p[b]));
            }
            assert(graph::walks(rel, q, from[i], p[n]));
            assert(graph::leads(rel, from[i], p[n]));
            let x = p[n] as u32;
            assert(race::is_concurrent(d, v, x as int));
            let k = choose|k: int|
                v.methods[p[n] as int].calls.0 <= k < v.methods[p[n] as int].calls.1 && (
                #[trigger] v.calls[k]).targets.contains(p[h] as u32);
            assert(v.calls[k].targets.contains(m));
        }
    }
    if from.contains(y) {
        let i = choose|i: int| 0 <= i < from.len() && from[i] == y;
        graph::lemma_leads_self(rel, y);
        assert(graph::leads(rel, from[i], y));
    }
    if exists|x: u32, k: int|
        x < v.methods.len() && #[trigger] race::is_concurrent(d, v, x as int)
            && v.methods[x as int].calls.0 <= k < v.methods[x as int].calls.1 && (
        #[trigger] v.calls[k]).targets.contains(m) {
        let (x, k) = choose|x: u32, k: int|
            x < v.methods.len() && #[trigger] race::is_concurrent(d, v, x as int)
                && v.methods[x as int].calls.0 <= k < v.methods[x as int].calls.1 && (
            #[trigger] v.calls[k]).targets.contains(m);
        let i = choose|i: int| 0 <= i < from.len() && graph::leads(rel, #[trigger] from[i], x as usize);
        assert(rel(x as usize, y));
        graph::lemma_leads_step(rel, from[i], x as usize, y);
        assert(graph::leads(rel, from[i], y));
    }
}

/// A finding shows the first five of the accesses that hold the guard, or all of fewer.
pub proof fn law_findings_show_the_first_examples(f: FindingV, i: int)
    ensures
        race::examples_of(f).len() == if f.guarded_at.len() < 5 {
            f.guarded_at.len() as int
        } else {
            5
        },
        0 <= i < race::examples_of(f).len() ==> race::examples_of(f)[i] == f.guarded_at[i],
{
}

proof fn lemma_dist(v: IndexV, lock: u32, i: int, end: int)
    ensures
        query::dist_from(v, lock, i, end) is Some <==> exists|j: int|
            i <= j < end && #[trigger] v.may_lock[j] == lock,
    decreases end - i,
{
    if i < end && v.may_lock[i] != lock {
        lemma_dist(v, lock, i + 1, end);
    }
}

/// A lock is held around an edge exactly where it is held when a span takes the edge's lock at
/// its line, or may be held on entry to its method.
pub proof fn law_gates_are_held_around_the_edge(v: IndexV, e: OrderEdge, x: u32)
    requires
        v.may_off[e.method as int] <= v.may_off[e.method + 1],
    ensures
        query::around(v, e, x) <==> {
            ||| exists|i: int|
                {
                    &&& 0 <= i < v.methods[e.method as int].spans.len()
                    &&& (#[trigger] v.methods[e.method as int].spans[i]).lock == e.to
                    &&& v.methods[e.method as int].spans[i].enter == e.line
                    &&& v.methods[e.method as int].spans[i].held.contains(x)
                }
            ||| exists|d: u8| #[trigger] v.row(e.method).contains((x, d))
        },
{
    let a = v.may_off[e.method as int] as int;
    let b = v.may_off[e.method + 1] as int;
    let row = v.row(e.method);
    lemma_dist(v, x, a, b);
    if v.dist(e.method, x) is Some {
        let j = choose|j: int| a <= j < b && #[trigger] v.may_lock[j] == x;
        assert(row[j - a] == (x, v.may_dist[j]));
        assert(row.contains((x, v.may_dist[j])));
    }
    if exists|d: u8| #[trigger] row.contains((x, d)) {
        let d = choose|d: u8| #[trigger] row.contains((x, d));
        let i = choose|i: int| 0 <= i < row.len() && row[i] == (x, d);
        assert(v.may_lock[a + i] == x);
    }
    let ss = v.methods[e.method as int].spans;
    if query::held_with(ss, e.to, e.line, x) {
        let i = choose|i: int|
            0 <= i < ss.len() && (#[trigger] ss[i]).lock == e.to && ss[i].enter == e.line
                && ss[i].held.contains(x);
        assert(v.methods[e.method as int].spans[i].lock == e.to);
    }
}

/// The frames of a witness: it ends at the method, which neither takes the lock nor calls; every
/// frame before makes a call; and the first alone takes the lock, where it holds it at its call.
pub proof fn law_witnesses_take_the_lock_first(v: IndexV, m: u32, lock: u32, i: int)
    ensures
        v.witness(m, lock) matches Some(p) ==> {
            &&& p.len() >= 1
            &&& p.last() == Hop { method: m, acquire: None, call: None }
            &&& 0 <= i < p.len() - 1 ==> p[i].call is Some
            &&& 0 < i < p.len() ==> p[i].acquire is None
            &&& p.len() > 1 ==> p[0].acquire == query::taken_at(
                v.methods[p[0].method as int].spans,
                lock,
                p[0].call->0,
                0,
            )
        },
{
}

} // verus!

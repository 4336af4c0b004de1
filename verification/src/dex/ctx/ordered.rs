//! What holds of every lock-order graph: its edges are exactly the nested acquisitions, and
//! its inversions the pairs that are acquired in both orders.

use crate::dex::ctx::assemble;
use crate::dex::ctx::assemble::{RecV, SpanV};
use crate::dex::ctx::index::{IndexV, Options, OrderEdge};
use crate::dex::ctx::laws;
use crate::dex::ctx::order;
use crate::dex::ctx::order::EdgeV;
use crate::dex::ctx::query;
use crate::dex::ctx::reach;
use crate::dex::ctx::whole;
use crate::dex::model::DexV;
use vstd::prelude::*;

verus! {

/// The rows of distances by method.
type Rows = Seq<Seq<(usize, u8)>>;

/// The edge is that of span `k` of method `m`: the span takes the lock it leads to, which
/// is not held yet, while the lock it starts at is held so many frames away.
spec fn edge_at(recs: Seq<RecV>, rs: Rows, depth: u8, e: EdgeV, m: int, k: int) -> bool {
    &&& 0 <= m < recs.len()
    &&& 0 <= k < recs[m].spans.len()
    &&& e.method == m as usize
    &&& e.line == recs[m].spans[k].enter
    &&& e.to == recs[m].spans[k].lock
    &&& !order::reentrant(recs[m].spans[k], rs[m], depth)
    &&& order::froms(recs[m].spans[k], rs[m], depth).contains((e.from, e.dist))
}

/// Some span has the edge.
spec fn backed(recs: Seq<RecV>, rs: Rows, depth: u8, e: EdgeV) -> bool {
    exists|m: int, k: int| #[trigger] edge_at(recs, rs, depth, e, m, k)
}

/// Each edge is some span's, and stands with the lock it starts at.
spec fn all_backed(edges: Seq<Seq<EdgeV>>, recs: Seq<RecV>, rs: Rows, depth: u8) -> bool {
    forall|i: int, j: int|
        0 <= i < edges.len() && 0 <= j < edges[i].len() ==> (#[trigger] edges[i][j]).from == i
            && backed(recs, rs, depth, edges[i][j])
}

/// An edge leads from `a` to `b`.
spec fn leads_to(edges: Seq<Seq<EdgeV>>, a: int, b: usize) -> bool {
    0 <= a < edges.len() && has_to(edges[a], b)
}

spec fn has_to(list: Seq<EdgeV>, b: usize) -> bool {
    exists|j: int| 0 <= j < list.len() && (#[trigger] list[j]).to == b
}

/// No edge is lost.
spec fn grown(old: Seq<Seq<EdgeV>>, new: Seq<Seq<EdgeV>>) -> bool {
    &&& old.len() == new.len()
    &&& forall|a: int, b: usize| #[trigger] leads_to(old, a, b) ==> leads_to(new, a, b)
}

proof fn lemma_bumped(
    list: Seq<EdgeV>,
    e: EdgeV,
    k: int,
    from: int,
    recs: Seq<RecV>,
    rs: Rows,
    depth: u8,
)
    requires
        0 <= k,
        e.from == from,
        backed(recs, rs, depth, e),
        forall|j: int|
            0 <= j < list.len() ==> (#[trigger] list[j]).from == from && backed(
                recs,
                rs,
                depth,
                list[j],
            ),
    ensures
        ({
            let r = order::bumped(list, e, k);
            &&& forall|j: int|
                0 <= j < r.len() ==> (#[trigger] r[j]).from == from && backed(
                    recs,
                    rs,
                    depth,
                    r[j],
                )
            &&& has_to(r, e.to)
            &&& forall|b: usize| #[trigger] has_to(list, b) ==> has_to(r, b)
        }),
    decreases list.len() - k,
{
    let r = order::bumped(list, e, k);
    if k >= list.len() {
        assert(r[list.len() as int] == e);
        assert forall|b: usize| #[trigger] has_to(list, b) implies has_to(r, b) by {
            let j = choose|j: int| 0 <= j < list.len() && (#[trigger] list[j]).to == b;
            assert(r[j] == list[j]);
        }
    } else if list[k].to == e.to {
        let x = if e.dist < list[k].dist {
            EdgeV { count: order::counted(list[k].count), ..e }
        } else {
            EdgeV { count: order::counted(list[k].count), ..list[k] }
        };
        assert(r == list.update(k, x));
        assert(backed(recs, rs, depth, x)) by {
            let y = if e.dist < list[k].dist {
                e
            } else {
                list[k]
            };
            assert(backed(recs, rs, depth, y));
            let (m, s) = choose|m: int, s: int| #[trigger] edge_at(recs, rs, depth, y, m, s);
            assert(edge_at(recs, rs, depth, x, m, s));
        }
        assert(r[k].to == e.to);
        assert forall|b: usize| #[trigger] has_to(list, b) implies has_to(r, b) by {
            let j = choose|j: int| 0 <= j < list.len() && (#[trigger] list[j]).to == b;
            assert(r[j].to == b);
        }
    } else if list[k].to > e.to {
        assert(r == list.insert(k, e));
        assert(r[k] == e);
        assert forall|j: int| 0 <= j < r.len() implies (#[trigger] r[j]).from == from && backed(
            recs,
            rs,
            depth,
            r[j],
        ) by {
            if j < k {
                assert(r[j] == list[j]);
            } else if j > k {
                assert(r[j] == list[j - 1]);
            }
        }
        assert forall|b: usize| #[trigger] has_to(list, b) implies has_to(r, b) by {
            let j = choose|j: int| 0 <= j < list.len() && (#[trigger] list[j]).to == b;
            if j < k {
                assert(r[j] == list[j]);
            } else {
                assert(r[j + 1] == list[j]);
            }
        }
    } else {
        lemma_bumped(list, e, k + 1, from, recs, rs, depth);
    }
}

/// The held locks exist.
spec fn in_range(fs: Seq<(usize, u8)>, n: int) -> bool {
    forall|i: int| 0 <= i < fs.len() ==> (#[trigger] fs[i]).0 < n
}

proof fn lemma_span_edges(
    edges: Seq<Seq<EdgeV>>,
    k: int,
    recs: Seq<RecV>,
    rs: Rows,
    depth: u8,
    m: int,
    s: int,
)
    requires
        0 <= k,
        0 <= m < recs.len() <= usize::MAX,
        0 <= s < recs[m].spans.len(),
        !order::reentrant(recs[m].spans[s], rs[m], depth),
        in_range(order::froms(recs[m].spans[s], rs[m], depth), edges.len() as int),
        all_backed(edges, recs, rs, depth),
    ensures
        ({
            let fs = order::froms(recs[m].spans[s], rs[m], depth);
            let r = order::span_edges(edges, fs, k, recs[m].spans[s], m as usize);
            &&& all_backed(r, recs, rs, depth)
            &&& grown(edges, r)
            &&& forall|i: int|
                k <= i < fs.len() ==> leads_to(
                    r,
                    (#[trigger] fs[i]).0 as int,
                    recs[m].spans[s].lock,
                )
        }),
    decreases order::froms(recs[m].spans[s], rs[m], depth).len() - k,
{
    let sp = recs[m].spans[s];
    let fs = order::froms(sp, rs[m], depth);
    if k < fs.len() {
        let e = EdgeV {
            from: fs[k].0,
            to: sp.lock,
            count: 1,
            method: m as usize,
            line: sp.enter,
            dist: fs[k].1,
        };
        assert(fs.contains(fs[k]));
        assert(edge_at(recs, rs, depth, e, m, s));
        let f = e.from as int;
        let next = edges.update(f, order::bumped(edges[f], e, 0));
        lemma_bumped(edges[f], e, 0, f, recs, rs, depth);
        assert(all_backed(next, recs, rs, depth)) by {
            assert forall|i: int, j: int|
                0 <= i < next.len() && 0 <= j < next[i].len() implies (
            #[trigger] next[i][j]).from == i && backed(recs, rs, depth, next[i][j]) by {
                if i != f {
                    assert(next[i] == edges[i]);
                }
            }
        }
        assert(grown(edges, next)) by {
            assert forall|a: int, b: usize| #[trigger] leads_to(edges, a, b) implies leads_to(
                next,
                a,
                b,
            ) by {
                assert(has_to(edges[a], b));
                if a != f {
                    assert(next[a] == edges[a]);
                }
            }
        }
        lemma_span_edges(next, k + 1, recs, rs, depth, m, s);
        let r = order::span_edges(edges, fs, k, sp, m as usize);
        assert(r == order::span_edges(next, fs, k + 1, sp, m as usize));
        assert(leads_to(next, f, sp.lock));
        assert(grown(edges, r)) by {
            assert forall|a: int, b: usize| #[trigger] leads_to(edges, a, b) implies leads_to(
                r,
                a,
                b,
            ) by {
                assert(leads_to(next, a, b));
            }
        }
    }
}

/// Span `s` has its edges.
spec fn placed(edges: Seq<Seq<EdgeV>>, sp: SpanV, row: Seq<(usize, u8)>, depth: u8) -> bool {
    !order::reentrant(sp, row, depth) ==> forall|i: int|
        0 <= i < order::froms(sp, row, depth).len() ==> leads_to(
            edges,
            (#[trigger] order::froms(sp, row, depth)[i]).0 as int,
            sp.lock,
        )
}

proof fn lemma_placed_stays(
    old: Seq<Seq<EdgeV>>,
    new: Seq<Seq<EdgeV>>,
    sp: SpanV,
    row: Seq<(usize, u8)>,
    depth: u8,
)
    requires
        grown(old, new),
        placed(old, sp, row, depth),
    ensures
        placed(new, sp, row, depth),
{
    if !order::reentrant(sp, row, depth) {
        let fs = order::froms(sp, row, depth);
        assert forall|i: int| 0 <= i < fs.len() implies leads_to(
            new,
            (#[trigger] fs[i]).0 as int,
            sp.lock,
        ) by {
            assert(leads_to(old, fs[i].0 as int, sp.lock));
        }
    }
}

proof fn lemma_method_edges(
    edges: Seq<Seq<EdgeV>>,
    recs: Seq<RecV>,
    rs: Rows,
    depth: u8,
    m: int,
    k: int,
)
    requires
        0 <= k,
        0 <= m < recs.len() <= usize::MAX,
        forall|s: int|
            0 <= s < recs[m].spans.len() ==> in_range(
                order::froms(#[trigger] recs[m].spans[s], rs[m], depth),
                edges.len() as int,
            ),
        all_backed(edges, recs, rs, depth),
    ensures
        ({
            let r = order::method_edges(edges, recs[m].spans, rs[m], depth, m as usize, k);
            &&& all_backed(r, recs, rs, depth)
            &&& grown(edges, r)
            &&& forall|s: int|
                k <= s < recs[m].spans.len() ==> placed(
                    r,
                    #[trigger] recs[m].spans[s],
                    rs[m],
                    depth,
                )
        }),
    decreases recs[m].spans.len() - k,
{
    let ss = recs[m].spans;
    if k < ss.len() {
        let next = if order::reentrant(ss[k], rs[m], depth) {
            edges
        } else {
            order::span_edges(edges, order::froms(ss[k], rs[m], depth), 0, ss[k], m as usize)
        };
        if !order::reentrant(ss[k], rs[m], depth) {
            lemma_span_edges(edges, 0, recs, rs, depth, m, k);
        }
        assert(grown(edges, next));
        assert(placed(next, ss[k], rs[m], depth));
        lemma_method_edges(next, recs, rs, depth, m, k + 1);
        let r = order::method_edges(edges, ss, rs[m], depth, m as usize, k);
        assert(r == order::method_edges(next, ss, rs[m], depth, m as usize, k + 1));
        lemma_placed_stays(next, r, ss[k], rs[m], depth);
        assert(grown(edges, r)) by {
            assert forall|a: int, b: usize| #[trigger] leads_to(edges, a, b) implies leads_to(
                r,
                a,
                b,
            ) by {
                assert(leads_to(next, a, b));
            }
        }
    }
}

proof fn lemma_edges_from(edges: Seq<Seq<EdgeV>>, recs: Seq<RecV>, rs: Rows, depth: u8, k: int)
    requires
        0 <= k,
        recs.len() <= usize::MAX,
        forall|m: int, s: int|
            0 <= m < recs.len() && 0 <= s < recs[m].spans.len() ==> in_range(
                order::froms(#[trigger] recs[m].spans[s], rs[m], depth),
                edges.len() as int,
            ),
        all_backed(edges, recs, rs, depth),
    ensures
        ({
            let r = order::edges_from(edges, recs, rs, depth, k);
            &&& all_backed(r, recs, rs, depth)
            &&& grown(edges, r)
            &&& forall|m: int, s: int|
                k <= m < recs.len() && 0 <= s < recs[m].spans.len() ==> placed(
                    r,
                    #[trigger] recs[m].spans[s],
                    rs[m],
                    depth,
                )
        }),
    decreases recs.len() - k,
{
    if k < recs.len() {
        let next = order::method_edges(edges, recs[k].spans, rs[k], depth, k as usize, 0);
        lemma_method_edges(edges, recs, rs, depth, k, 0);
        lemma_edges_from(next, recs, rs, depth, k + 1);
        let r = order::edges_from(edges, recs, rs, depth, k);
        assert(r == order::edges_from(next, recs, rs, depth, k + 1));
        assert(grown(edges, r)) by {
            assert forall|a: int, b: usize| #[trigger] leads_to(edges, a, b) implies leads_to(
                r,
                a,
                b,
            ) by {
                assert(leads_to(next, a, b));
            }
        }
        assert forall|m: int, s: int|
            k <= m < recs.len() && 0 <= s < recs[m].spans.len() implies placed(
            r,
            #[trigger] recs[m].spans[s],
            rs[m],
            depth,
        ) by {
            if m == k {
                lemma_placed_stays(next, r, recs[m].spans[s], rs[m], depth);
            }
        }
    }
}

/// Flattening keeps every item, and makes up none.
proof fn lemma_flat<A>(lists: Seq<Seq<A>>, k: int, acc: Seq<A>)
    requires
        0 <= k,
    ensures
        ({
            let r = order::flat(lists, k, acc);
            &&& forall|x: A| acc.contains(x) ==> #[trigger] r.contains(x)
            &&& forall|i: int, j: int|
                k <= i < lists.len() && 0 <= j < lists[i].len() ==> r.contains(
                    #[trigger] lists[i][j],
                )
            &&& forall|x: A| #[trigger]
                r.contains(x) ==> acc.contains(x) || exists|i: int, j: int|
                    k <= i < lists.len() && 0 <= j < lists[i].len() && #[trigger] lists[i][j] == x
        }),
    decreases lists.len() - k,
{
    if k < lists.len() {
        let next = acc + lists[k];
        lemma_flat(lists, k + 1, next);
        let r = order::flat(lists, k, acc);
        assert(r == order::flat(lists, k + 1, next));
        assert forall|x: A| acc.contains(x) implies #[trigger] r.contains(x) by {
            let i = choose|i: int| 0 <= i < acc.len() && acc[i] == x;
            assert(next[i] == x);
            assert(next.contains(x));
        }
        assert forall|i: int, j: int|
            k <= i < lists.len() && 0 <= j < lists[i].len() implies r.contains(
            #[trigger] lists[i][j],
        ) by {
            if i == k {
                assert(next[acc.len() + j] == lists[i][j]);
                assert(next.contains(lists[i][j]));
            }
        }
        assert forall|x: A| #[trigger] r.contains(x) implies acc.contains(x) || exists|
            i: int,
            j: int,
        |
            k <= i < lists.len() && 0 <= j < lists[i].len() && #[trigger] lists[i][j] == x by {
            if next.contains(x) {
                let i = choose|i: int| 0 <= i < next.len() && next[i] == x;
                if i < acc.len() {
                    assert(acc[i] == x);
                } else {
                    assert(lists[k][i - acc.len()] == x);
                }
            }
        }
    }
}

proof fn lemma_held_here(held: Seq<usize>, k: int, acc: Seq<(usize, u8)>, e: (usize, u8))
    requires
        0 <= k,
    ensures
        order::held_here(held, k, acc).contains(e) <==> acc.contains(e) || e.1 == 0 && exists|
            i: int,
        |
            k <= i < held.len() && #[trigger] held[i] == e.0,
    decreases held.len() - k,
{
    if k < held.len() {
        let x = (held[k], 0u8);
        lemma_held_here(held, k + 1, acc.push(x), e);
        lemma_pushed(acc, x, e);
    }
}

proof fn lemma_pushed<A>(s: Seq<A>, x: A, e: A)
    ensures
        s.push(x).contains(e) <==> s.contains(e) || e == x,
{
    if s.contains(e) {
        let i = choose|i: int| 0 <= i < s.len() && s[i] == e;
        assert(s.push(x)[i] == e);
    }
    assert(s.push(x)[s.len() as int] == x);
    if s.push(x).contains(e) {
        let i = choose|i: int| 0 <= i < s.push(x).len() && s.push(x)[i] == e;
        if i < s.len() {
            assert(s[i] == e);
        }
    }
}

proof fn lemma_held_above(
    row: Seq<(usize, u8)>,
    depth: u8,
    k: int,
    acc: Seq<(usize, u8)>,
    e: (usize, u8),
)
    requires
        0 <= k,
    ensures
        order::held_above(row, depth, k, acc).contains(e) <==> acc.contains(e) || e.1 <= depth
            && exists|i: int| k <= i < row.len() && #[trigger] row[i] == e,
    decreases row.len() - k,
{
    if k < row.len() {
        if row[k].1 <= depth {
            lemma_held_above(row, depth, k + 1, acc.push(row[k]), e);
            lemma_pushed(acc, row[k], e);
        } else {
            lemma_held_above(row, depth, k + 1, acc, e);
        }
    }
}

/// What is held when a span begins: what the method holds, and what is held on its entry
/// within the depth.
proof fn lemma_froms(s: SpanV, row: Seq<(usize, u8)>, depth: u8, e: (usize, u8))
    ensures
        order::froms(s, row, depth).contains(e) <==> e.1 == 0 && s.held.contains(e.0) || e.1
            <= depth && row.contains(e),
{
    let here = order::held_here(s.held, 0, Seq::empty());
    lemma_held_here(s.held, 0, Seq::empty(), e);
    lemma_held_above(row, depth, 0, here, e);
    if s.held.contains(e.0) {
        let i = choose|i: int| 0 <= i < s.held.len() && s.held[i] == e.0;
        assert(s.held[i] == e.0);
    }
    if row.contains(e) {
        let i = choose|i: int| 0 <= i < row.len() && row[i] == e;
        assert(row[i] == e);
    }
}

/// Lock `l` is held when span `k` of method `m` begins, `dist` frames away: the method
/// holds it itself, or it is held on entry within the depth of the order graph.
pub open spec fn begins_under(v: IndexV, depth: u8, m: u32, k: int, l: u32, dist: u8) -> bool {
    ||| dist == 0 && v.methods[m as int].spans[k].held.contains(l)
    ||| dist <= depth && v.dist(m, l) == Some(dist)
}

/// Lock `l` is held when span `k` of method `m` begins.
pub open spec fn held_at_start(v: IndexV, depth: u8, m: u32, k: int, l: u32) -> bool {
    exists|dist: u8| #[trigger] begins_under(v, depth, m, k, l, dist)
}

/// What the order graph is made of is what the index says is held.
proof fn lemma_begins(d: DexV, opts: Options, m: u32, k: int, l: u32, dist: u8)
    requires
        whole::fits(d, opts),
        m < d.methods().len(),
        0 <= k < whole::built(d, opts).methods[m as int].spans.len(),
        l < whole::built(d, opts).locks.len(),
    ensures
        begins_under(whole::built(d, opts), opts.order_depth, m, k, l, dist) <==> order::froms(
            assemble::board(d, opts.cha_cap).recs[m as int].spans[k],
            whole::rows_of(d, opts)[m as int],
            opts.order_depth,
        ).contains((l as usize, dist)),
{
    let v = whole::built(d, opts);
    let b = assemble::board(d, opts.cha_cap);
    let row = whole::rows_of(d, opts)[m as int];
    let n = b.locks.len() as int;
    laws::lemma_indexed(d, opts);
    let s = b.recs[m as int].spans[k];
    lemma_froms(s, row, opts.order_depth, (l as usize, dist));
    laws::law_dist_is_distance(d, opts, m, l);
    order::lemma_row_from(b.calls, opts.max_depth, m as usize, 0, n, Seq::empty());
    assert(row == order::row_from(b.calls, opts.max_depth, m as usize, 0, n, Seq::empty()));
    assert(row.contains((l as usize, dist)) <==> reach::distance(
        b.calls,
        opts.max_depth,
        m as usize,
        l as usize,
    ) == Some(dist as nat));
    assert(assemble::rec_ok(
        b.recs[m as int],
        b.files.len() as int,
        n,
        b.calls.len() as int,
    ));
    assert(assemble::span_ok(s, n));
    let stored = v.methods[m as int].spans[k].held;
    assert(stored == whole::narrow(s.held));
    if s.held.contains(l as usize) {
        let i = choose|i: int| 0 <= i < s.held.len() && s.held[i] == l as usize;
        assert(stored[i] == l);
    }
    if stored.contains(l) {
        let i = choose|i: int| 0 <= i < stored.len() && stored[i] == l;
        assert(s.held[i] < n);
        assert(s.held[i] == l as usize);
    }
}

/// The parts that the order graph is made of.
proof fn lemma_order(d: DexV, opts: Options) -> (edges: Seq<Seq<EdgeV>>)
    requires
        whole::fits(d, opts),
    ensures
        ({
            let b = assemble::board(d, opts.cha_cap);
            let rs = whole::rows_of(d, opts);
            &&& order::order(b.recs, rs, opts.order_depth, b.locks.len()) == order::flat(
                edges,
                0,
                Seq::empty(),
            )
            &&& edges.len() == b.locks.len()
            &&& all_backed(edges, b.recs, rs, opts.order_depth)
            &&& forall|m: int, s: int|
                0 <= m < b.recs.len() && 0 <= s < b.recs[m].spans.len() ==> placed(
                    edges,
                    #[trigger] b.recs[m].spans[s],
                    rs[m],
                    opts.order_depth,
                )
        }),
{
    let b = assemble::board(d, opts.cha_cap);
    let rs = whole::rows_of(d, opts);
    let n = b.locks.len() as int;
    let none = Seq::new(b.locks.len(), |i: int| Seq::<EdgeV>::empty());
    laws::lemma_indexed(d, opts);
    assert forall|m: int, s: int|
        0 <= m < b.recs.len() && 0 <= s < b.recs[m].spans.len() implies in_range(
        order::froms(#[trigger] b.recs[m].spans[s], rs[m], opts.order_depth),
        none.len() as int,
    ) by {
        let sp = b.recs[m].spans[s];
        let fs = order::froms(sp, rs[m], opts.order_depth);
        assert(assemble::rec_ok(b.recs[m], b.files.len() as int, n, b.calls.len() as int));
        assert(assemble::span_ok(sp, n));
        order::lemma_row_from(b.calls, opts.max_depth, m as usize, 0, n, Seq::empty());
        assert(rs[m] == order::row_from(b.calls, opts.max_depth, m as usize, 0, n, Seq::empty()));
        assert forall|i: int| 0 <= i < fs.len() implies (#[trigger] fs[i]).0 < n by {
            assert(fs.contains(fs[i]));
            lemma_froms(sp, rs[m], opts.order_depth, fs[i]);
            if sp.held.contains(fs[i].0) {
                let j = choose|j: int| 0 <= j < sp.held.len() && sp.held[j] == fs[i].0;
                assert(sp.held[j] < n);
            }
        }
    }
    lemma_edges_from(none, b.recs, rs, opts.order_depth, 0);
    order::edges_from(none, b.recs, rs, opts.order_depth, 0)
}

/// Each edge of the lock-order graph is backed by the site it names: there the lock it
/// leads to is acquired, not being held yet, while the lock it starts at is held as many
/// frames away as it says. So no lock is ordered behind itself.
pub proof fn law_order_edges_are_backed(d: DexV, opts: Options, j: int) -> (k: int)
    requires
        whole::fits(d, opts),
        0 <= j < whole::built(d, opts).order.len(),
    ensures
        ({
            let v = whole::built(d, opts);
            let e = v.order[j];
            let spans = v.methods[e.method as int].spans;
            &&& e.method < v.methods.len()
            &&& 0 <= k < spans.len()
            &&& spans[k].lock == e.to
            &&& spans[k].enter == e.line
            &&& begins_under(v, opts.order_depth, e.method, k, e.from, e.dist)
            &&& !held_at_start(v, opts.order_depth, e.method, k, e.to)
            &&& e.from != e.to
        }),
{
    let v = whole::built(d, opts);
    let b = assemble::board(d, opts.cha_cap);
    let rs = whole::rows_of(d, opts);
    let all = order::order(b.recs, rs, opts.order_depth, b.locks.len());
    let e = v.order[j];
    let x = all[j];
    let edges = lemma_order(d, opts);
    laws::lemma_indexed(d, opts);
    lemma_flat(edges, 0, Seq::empty());
    assert(all.contains(x));
    let (a, c) = choose|a: int, c: int|
        0 <= a < edges.len() && 0 <= c < edges[a].len() && #[trigger] edges[a][c] == x;
    assert(edges[a][c].from == a && backed(b.recs, rs, opts.order_depth, x));
    let (m, k) = choose|m: int, k: int| #[trigger]
        edge_at(b.recs, rs, opts.order_depth, x, m, k);
    let sp = b.recs[m].spans[k];
    assert(assemble::rec_ok(
        b.recs[m],
        b.files.len() as int,
        b.locks.len() as int,
        b.calls.len() as int,
    ));
    assert(assemble::span_ok(sp, b.locks.len() as int));
    assert(e == whole::edge_ix(x));
    assert(v.methods[m] == whole::method_ix(b.recs[m]));
    assert(v.methods[m].spans[k] == whole::span_ix(sp));
    lemma_begins(d, opts, m as u32, k, e.from, e.dist);
    let fs = order::froms(sp, rs[m], opts.order_depth);
    assert forall|dist: u8| !(#[trigger] begins_under(
        v,
        opts.order_depth,
        m as u32,
        k,
        e.to,
        dist,
    )) by {
        lemma_begins(d, opts, m as u32, k, e.to, dist);
        if fs.contains((sp.lock, dist)) {
            let i = choose|i: int| 0 <= i < fs.len() && fs[i] == (sp.lock, dist);
            assert(fs[i].0 == sp.lock);
            assert(reach::has_lock(fs, sp.lock));
        }
    }
    assert(begins_under(v, opts.order_depth, m as u32, k, e.from, e.dist));
    k
}

/// Every nested acquisition is ordered: where a lock is acquired that is not held yet, each
/// lock that is held then has an edge to it.
pub proof fn law_nested_acquisitions_are_ordered(
    d: DexV,
    opts: Options,
    m: u32,
    k: int,
    l: u32,
) -> (j: int)
    requires
        whole::fits(d, opts),
        m < whole::built(d, opts).methods.len(),
        0 <= k < whole::built(d, opts).methods[m as int].spans.len(),
        l < whole::built(d, opts).locks.len(),
        held_at_start(whole::built(d, opts), opts.order_depth, m, k, l),
        !held_at_start(
            whole::built(d, opts),
            opts.order_depth,
            m,
            k,
            whole::built(d, opts).methods[m as int].spans[k].lock,
        ),
    ensures
        ({
            let v = whole::built(d, opts);
            &&& 0 <= j < v.order.len()
            &&& v.order[j].from == l
            &&& v.order[j].to == v.methods[m as int].spans[k].lock
        }),
{
    let v = whole::built(d, opts);
    let b = assemble::board(d, opts.cha_cap);
    let rs = whole::rows_of(d, opts);
    let all = order::order(b.recs, rs, opts.order_depth, b.locks.len());
    let edges = lemma_order(d, opts);
    laws::lemma_indexed(d, opts);
    lemma_flat(edges, 0, Seq::empty());
    let sp = b.recs[m as int].spans[k];
    let fs = order::froms(sp, rs[m as int], opts.order_depth);
    assert(assemble::rec_ok(
        b.recs[m as int],
        b.files.len() as int,
        b.locks.len() as int,
        b.calls.len() as int,
    ));
    assert(assemble::span_ok(sp, b.locks.len() as int));
    assert(v.methods[m as int].spans[k] == whole::span_ix(sp));
    if order::reentrant(sp, rs[m as int], opts.order_depth) {
        let i = choose|i: int| 0 <= i < fs.len() && (#[trigger] fs[i]).0 == sp.lock;
        assert(fs.contains(fs[i]));
        lemma_begins(d, opts, m, k, sp.lock as u32, fs[i].1);
        assert(begins_under(v, opts.order_depth, m, k, sp.lock as u32, fs[i].1));
    }
    let dist = choose|dist: u8| #[trigger] begins_under(v, opts.order_depth, m, k, l, dist);
    lemma_begins(d, opts, m, k, l, dist);
    let i = choose|i: int| 0 <= i < fs.len() && fs[i] == (l as usize, dist);
    assert(placed(edges, sp, rs[m as int], opts.order_depth));
    assert(leads_to(edges, fs[i].0 as int, sp.lock));
    let c = choose|c: int| 0 <= c < edges[l as int].len() && (#[trigger] edges[l as int][c]).to
        == sp.lock;
    let x = edges[l as int][c];
    assert(x.from == l);
    assert(all.contains(x));
    let j = choose|j: int| 0 <= j < all.len() && all[j] == x;
    assert(v.order[j] == whole::edge_ix(x));
    j
}

proof fn lemma_edge_of(list: Seq<OrderEdge>, from: u32, to: u32, k: int)
    requires
        0 <= k,
    ensures
        match query::edge_of(list, from, to, k) {
            Some(e) => list.contains(e) && e.from == from && e.to == to,
            None => forall|i: int|
                k <= i < list.len() ==> (#[trigger] list[i]).from != from || list[i].to != to,
        },
    decreases list.len() - k,
{
    if k < list.len() {
        assert(list.contains(list[k]));
        lemma_edge_of(list, from, to, k + 1);
    }
}

proof fn lemma_gate(v: IndexV, a: OrderEdge, b: OrderEdge, k: int)
    requires
        0 <= k,
        v.locks.len() <= u32::MAX,
    ensures
        match query::gate_from(v, a, b, k) {
            Some(g) => gates(v, a, b, g),
            None => forall|g: u32| k <= g < v.locks.len() ==> !(#[trigger] gates(v, a, b, g)),
        },
    decreases v.locks.len() - k,
{
    if k < v.locks.len() {
        lemma_gate(v, a, b, k + 1);
    }
}

/// Both orders occur under the lock, which is neither of the pair.
pub open spec fn gates(v: IndexV, a: OrderEdge, b: OrderEdge, g: u32) -> bool {
    &&& g < v.locks.len()
    &&& g != a.from && g != a.to
    &&& query::around(v, a, g) && query::around(v, b, g)
}

/// A pair of edges in opposite orders, with a lock that gates both where there is one.
pub open spec fn inversion(v: IndexV, p: (OrderEdge, OrderEdge, Option<u32>)) -> bool {
    &&& v.order.contains(p.0) && v.order.contains(p.1)
    &&& p.0.from == p.1.to && p.0.to == p.1.from && p.0.from < p.0.to
    &&& match p.2 {
        Some(g) => gates(v, p.0, p.1, g),
        None => forall|g: u32| !(#[trigger] gates(v, p.0, p.1, g)),
    }
}

proof fn lemma_inverted(v: IndexV, k: int, acc: Seq<(OrderEdge, OrderEdge, Option<u32>)>)
    requires
        0 <= k,
        v.locks.len() <= u32::MAX,
    ensures
        ({
            let r = query::inverted(v, k, acc);
            &&& acc.len() <= r.len()
            &&& forall|i: int| 0 <= i < acc.len() ==> r[i] == #[trigger] acc[i]
            &&& forall|i: int| acc.len() <= i < r.len() ==> inversion(v, #[trigger] r[i])
            &&& forall|i: int, j: int|
                k <= i < v.order.len() && 0 <= j < v.order.len() && (
                #[trigger] v.order[i]).from == (#[trigger] v.order[j]).to && v.order[i].to
                    == v.order[j].from && v.order[i].from < v.order[i].to ==> exists|n: int|
                    0 <= n < r.len() && (#[trigger] r[n]).0 == v.order[i]
        }),
    decreases v.order.len() - k,
{
    if k < v.order.len() {
        let a = v.order[k];
        let next = match query::edge_of(v.order, a.to, a.from, 0) {
            Some(b) => if a.from < a.to {
                acc.push((a, b, query::gate_from(v, a, b, 0)))
            } else {
                acc
            },
            None => acc,
        };
        lemma_edge_of(v.order, a.to, a.from, 0);
        assert(v.order.contains(a));
        match query::edge_of(v.order, a.to, a.from, 0) {
            Some(b) => {
                lemma_gate(v, a, b, 0);
                assert(a.from < a.to ==> inversion(v, (a, b, query::gate_from(v, a, b, 0))));
            },
            None => {},
        }
        lemma_inverted(v, k + 1, next);
        let r = query::inverted(v, k, acc);
        assert(r == query::inverted(v, k + 1, next));
        assert forall|i: int| 0 <= i < acc.len() implies r[i] == #[trigger] acc[i] by {
            assert(next[i] == acc[i]);
        }
        assert forall|i: int| acc.len() <= i < r.len() implies inversion(v, #[trigger] r[i]) by {
            if i < next.len() {
                assert(r[i] == next[i]);
            }
        }
        assert forall|i: int, j: int|
            k <= i < v.order.len() && 0 <= j < v.order.len() && (#[trigger] v.order[i]).from == (
            #[trigger] v.order[j]).to && v.order[i].to == v.order[j].from && v.order[i].from
                < v.order[i].to implies exists|n: int|
            0 <= n < r.len() && (#[trigger] r[n]).0 == v.order[i] by {
            if i == k {
                assert(query::edge_of(v.order, a.to, a.from, 0) is Some);
                assert(r[acc.len() as int] == next[acc.len() as int]);
            }
        }
    }
}

/// The inversions are exactly the pairs of locks that are acquired in both orders: each has
/// both edges, every such pair is there, and an inversion names a lock that gates it exactly
/// where there is one.
pub proof fn law_inversions_are_both_orders(v: IndexV)
    requires
        v.locks.len() <= u32::MAX,
    ensures
        forall|i: int| 0 <= i < v.inversions().len() ==> inversion(v, #[trigger] v.inversions()[i]),
        forall|i: int, j: int|
            0 <= i < v.order.len() && 0 <= j < v.order.len() && (#[trigger] v.order[i]).from == (
            #[trigger] v.order[j]).to && v.order[i].to == v.order[j].from && v.order[i].from
                < v.order[i].to ==> exists|n: int|
                0 <= n < v.inversions().len() && (#[trigger] v.inversions()[n]).0 == v.order[i],
{
    let r = v.inversions();
    lemma_inverted(v, 0, Seq::empty());
    assert(r == query::inverted(v, 0, Seq::empty()));
    assert forall|i: int, j: int|
        0 <= i < v.order.len() && 0 <= j < v.order.len() && (#[trigger] v.order[i]).from == (
        #[trigger] v.order[j]).to && v.order[i].to == v.order[j].from && v.order[i].from
            < v.order[i].to implies exists|n: int|
        0 <= n < r.len() && (#[trigger] r[n]).0 == v.order[i] by {}
}

} // verus!

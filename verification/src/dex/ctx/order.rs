//! The lock-order graph (`Y -> X`: X acquired while Y is held), the callers of each
//! method, and rows laid end to end.

use crate::dex::ctx::assemble;
use crate::dex::ctx::assemble::{Link, LinkV, Rec, RecV, SpanV, Spot};
use crate::dex::ctx::reach;
use crate::values;
use vstd::prelude::*;

verus! {

/// `to` is acquired while `from` is held; `method`/`line` is one such site and `dist`
/// how many frames away `from` was taken there.
pub struct EdgeV {
    pub from: usize,
    pub to: usize,
    pub count: u32,
    pub method: usize,
    pub line: u32,
    pub dist: u8,
}

/// The rows of distances of the methods, from the `l`th lock on, behind `acc`.
pub open spec fn row_from(
    calls: Seq<LinkV>,
    max_depth: u8,
    m: usize,
    l: int,
    n: int,
    acc: Seq<(usize, u8)>,
) -> Seq<(usize, u8)>
    decreases n - l,
{
    if l >= n {
        acc
    } else {
        row_from(
            calls,
            max_depth,
            m,
            l + 1,
            n,
            match reach::distance(calls, max_depth, m, l as usize) {
                Some(d) => acc.push((l as usize, d as u8)),
                None => acc,
            },
        )
    }
}

/// For each method the locks that may be held on its entry, in ascending order, with
/// their distances.
pub open spec fn rows(calls: Seq<LinkV>, max_depth: u8, methods: nat, locks: nat) -> Seq<
    Seq<(usize, u8)>,
> {
    Seq::new(
        methods,
        |m: int| row_from(calls, max_depth, m as usize, 0, locks as int, Seq::empty()),
    )
}

/// A row climbs and holds exactly the distances.
pub proof fn lemma_row_from(
    calls: Seq<LinkV>,
    max_depth: u8,
    m: usize,
    l: int,
    n: int,
    acc: Seq<(usize, u8)>,
)
    requires
        0 <= l <= n <= usize::MAX,
        reach::ascending(acc),
        forall|i: int| 0 <= i < acc.len() ==> (#[trigger] acc[i]).0 < l,
    ensures
        ({
            let r = row_from(calls, max_depth, m, l, n, acc);
            &&& reach::ascending(r)
            &&& forall|e: (usize, u8)| #[trigger]
                r.contains(e) <==> acc.contains(e) || l <= e.0 < n && reach::distance(
                    calls,
                    max_depth,
                    m,
                    e.0,
                ) == Some(e.1 as nat)
        }),
    decreases n - l,
{
    if l < n {
        let next = match reach::distance(calls, max_depth, m, l as usize) {
            Some(d) => acc.push((l as usize, d as u8)),
            None => acc,
        };
        reach::lemma_distance_fits(calls, max_depth, m, l as usize);
        assert forall|e: (usize, u8)| #[trigger]
            next.contains(e) <==> acc.contains(e) || e.0 == l && reach::distance(
                calls,
                max_depth,
                m,
                e.0,
            ) == Some(e.1 as nat) by {
            if next.contains(e) {
                let i = choose|i: int| 0 <= i < next.len() && next[i] == e;
                if i < acc.len() {
                    assert(acc[i] == e);
                }
            }
            if acc.contains(e) {
                let i = choose|i: int| 0 <= i < acc.len() && acc[i] == e;
                assert(next[i] == e);
            }
            if e.0 == l && reach::distance(calls, max_depth, m, e.0) == Some(e.1 as nat) {
                assert(next[acc.len() as int] == e);
            }
        }
        lemma_row_from(calls, max_depth, m, l + 1, n, next);
        let r = row_from(calls, max_depth, m, l, n, acc);
        assert forall|e: (usize, u8)| #[trigger]
            r.contains(e) <==> acc.contains(e) || l <= e.0 < n && reach::distance(
                calls,
                max_depth,
                m,
                e.0,
            ) == Some(e.1 as nat) by {
            assert(r.contains(e) <==> next.contains(e) || l + 1 <= e.0 < n && reach::distance(
                calls,
                max_depth,
                m,
                e.0,
            ) == Some(e.1 as nat));
        }
    }
}

proof fn lemma_same_rows(a: Seq<(usize, u8)>, b: Seq<(usize, u8)>)
    requires
        reach::ascending(a),
        reach::ascending(b),
        forall|e: (usize, u8)| #[trigger] a.contains(e) <==> b.contains(e),
    ensures
        a == b,
    decreases a.len() + b.len(),
{
    if a.len() == 0 {
        if b.len() > 0 {
            assert(b.contains(b[0]));
            assert(a.contains(b[0]));
        }
        assert(a =~= b);
    } else if b.len() == 0 {
        assert(a.contains(a[0]));
        assert(b.contains(a[0]));
    } else {
        let x = a.last();
        let y = b.last();
        assert(a.contains(x) && b.contains(y));
        assert(b.contains(x) && a.contains(y));
        let i = choose|i: int| 0 <= i < b.len() && b[i] == x;
        let j = choose|j: int| 0 <= j < a.len() && a[j] == y;
        assert(x == y) by {
            if i < b.len() - 1 && j < a.len() - 1 {
                assert(b[i].0 < b[b.len() - 1].0);
                assert(a[j].0 < a[a.len() - 1].0);
            }
        }
        let c = a.drop_last();
        let d = b.drop_last();
        assert forall|e: (usize, u8)| #[trigger] c.contains(e) <==> d.contains(e) by {
            if c.contains(e) {
                let p = choose|p: int| 0 <= p < c.len() && c[p] == e;
                assert(a[p] == e);
                assert(a[p].0 < a[a.len() - 1].0);
                assert(a.contains(e));
                assert(b.contains(e));
                let q = choose|q: int| 0 <= q < b.len() && b[q] == e;
                assert(q < b.len() - 1);
                assert(d[q] == e);
            }
            if d.contains(e) {
                let p = choose|p: int| 0 <= p < d.len() && d[p] == e;
                assert(b[p] == e);
                assert(b[p].0 < b[b.len() - 1].0);
                assert(b.contains(e));
                assert(a.contains(e));
                let q = choose|q: int| 0 <= q < a.len() && a[q] == e;
                assert(q < a.len() - 1);
                assert(c[q] == e);
            }
        }
        lemma_same_rows(c, d);
        assert(a =~= c.push(x));
        assert(b =~= d.push(y));
    }
}

/// The rows that the distances give are the specified ones.
pub proof fn lemma_rows(
    calls: Seq<LinkV>,
    max_depth: u8,
    methods: nat,
    locks: nat,
    r: Seq<Seq<(usize, u8)>>,
)
    requires
        locks <= usize::MAX,
        r.len() == methods,
        forall|i: int|
            0 <= i < calls.len() ==> assemble::link_ok(
                #[trigger] calls[i],
                methods as int,
                locks as int,
            ),
        forall|m: int| 0 <= m < r.len() ==> reach::ascending(#[trigger] r[m]),
        forall|m: int, e: (usize, u8)|
            0 <= m < r.len() ==> (#[trigger] r[m].contains(e) <==> reach::distance(
                calls,
                max_depth,
                m as usize,
                e.0,
            ) == Some(e.1 as nat)),
    ensures
        r == rows(calls, max_depth, methods, locks),
        forall|m: int, i: int|
            0 <= m < r.len() && 0 <= i < r[m].len() ==> (#[trigger] r[m][i]).0 < locks,
{
    assert forall|m: int| 0 <= m < r.len() implies #[trigger] r[m] == row_from(
        calls,
        max_depth,
        m as usize,
        0,
        locks as int,
        Seq::empty(),
    ) && forall|i: int| 0 <= i < r[m].len() ==> (#[trigger] r[m][i]).0 < locks by {
        let mm = m as usize;
        lemma_row_from(calls, max_depth, mm, 0, locks as int, Seq::empty());
        let w = row_from(calls, max_depth, mm, 0, locks as int, Seq::empty());
        assert forall|e: (usize, u8)| r[m].contains(e) implies e.0 < locks by {
            let p = reach::law_distance_has_path(calls, mm, e.0, reach::horizon(max_depth));
            assert(0 <= p[0] < calls.len());
            assert(assemble::link_ok(calls[p[0]], methods as int, locks as int));
            let h = calls[p[0]].held;
            let i = choose|i: int| 0 <= i < h.len() && h[i] == e.0;
            assert(h[i] < locks);
        }
        assert forall|e: (usize, u8)| #[trigger] r[m].contains(e) <==> w.contains(e) by {}
        assert(reach::ascending(r[m]));
        lemma_same_rows(r[m], w);
        assert forall|i: int| 0 <= i < r[m].len() implies (#[trigger] r[m][i]).0 < locks by {
            assert(r[m].contains(r[m][i]));
        }
    }
    assert(r =~= rows(calls, max_depth, methods, locks));
}

/// One more.
pub open spec fn counted(n: u32) -> u32 {
    if n == u32::MAX {
        n
    } else {
        (n + 1) as u32
    }
}

/// The edges of one lock with one more site, from the `k`th on; they stand by what they
/// lead to. The nearest site is the one kept.
pub open spec fn bumped(list: Seq<EdgeV>, e: EdgeV, k: int) -> Seq<EdgeV>
    decreases list.len() - k,
{
    if k >= list.len() {
        list.push(e)
    } else if list[k].to == e.to {
        list.update(
            k,
            if e.dist < list[k].dist {
                EdgeV { count: counted(list[k].count), ..e }
            } else {
                EdgeV { count: counted(list[k].count), ..list[k] }
            },
        )
    } else if list[k].to > e.to {
        list.insert(k, e)
    } else {
        bumped(list, e, k + 1)
    }
}

/// The locks held in the same method, from the `k`th on, behind `acc`.
pub open spec fn held_here(held: Seq<usize>, k: int, acc: Seq<(usize, u8)>) -> Seq<(usize, u8)>
    decreases held.len() - k,
{
    if k >= held.len() {
        acc
    } else {
        held_here(held, k + 1, acc.push((held[k], 0)))
    }
}

/// The locks held on entry within `depth` frames, from the `k`th on, behind `acc`.
pub open spec fn held_above(
    row: Seq<(usize, u8)>,
    depth: u8,
    k: int,
    acc: Seq<(usize, u8)>,
) -> Seq<(usize, u8)>
    decreases row.len() - k,
{
    if k >= row.len() {
        acc
    } else {
        held_above(
            row,
            depth,
            k + 1,
            if row[k].1 <= depth {
                acc.push(row[k])
            } else {
                acc
            },
        )
    }
}

/// What is held when a span begins, with the frames to it.
pub open spec fn froms(s: SpanV, row: Seq<(usize, u8)>, depth: u8) -> Seq<(usize, u8)> {
    held_above(row, depth, 0, held_here(s.held, 0, Seq::empty()))
}

/// The lock is already held when the span begins: a reentrant acquisition orders nothing.
pub open spec fn reentrant(s: SpanV, row: Seq<(usize, u8)>, depth: u8) -> bool {
    reach::has_lock(froms(s, row, depth), s.lock)
}

/// The edges of a span from the `k`th held lock on.
pub open spec fn span_edges(
    edges: Seq<Seq<EdgeV>>,
    fs: Seq<(usize, u8)>,
    k: int,
    s: SpanV,
    m: usize,
) -> Seq<Seq<EdgeV>>
    decreases fs.len() - k,
{
    if k >= fs.len() {
        edges
    } else {
        let e = EdgeV {
            from: fs[k].0,
            to: s.lock,
            count: 1,
            method: m,
            line: s.enter,
            dist: fs[k].1,
        };
        span_edges(
            edges.update(e.from as int, bumped(edges[e.from as int], e, 0)),
            fs,
            k + 1,
            s,
            m,
        )
    }
}

/// The edges of the spans of one method from the `k`th on.
pub open spec fn method_edges(
    edges: Seq<Seq<EdgeV>>,
    ss: Seq<SpanV>,
    row: Seq<(usize, u8)>,
    depth: u8,
    m: usize,
    k: int,
) -> Seq<Seq<EdgeV>>
    decreases ss.len() - k,
{
    if k >= ss.len() {
        edges
    } else {
        method_edges(
            if reentrant(ss[k], row, depth) {
                edges
            } else {
                span_edges(edges, froms(ss[k], row, depth), 0, ss[k], m)
            },
            ss,
            row,
            depth,
            m,
            k + 1,
        )
    }
}

/// The edges of the methods from the `k`th on.
pub open spec fn edges_from(
    edges: Seq<Seq<EdgeV>>,
    recs: Seq<RecV>,
    rs: Seq<Seq<(usize, u8)>>,
    depth: u8,
    k: int,
) -> Seq<Seq<EdgeV>>
    decreases recs.len() - k,
{
    if k >= recs.len() {
        edges
    } else {
        edges_from(
            method_edges(edges, recs[k].spans, rs[k], depth, k as usize, 0),
            recs,
            rs,
            depth,
            k + 1,
        )
    }
}

/// The lists from the `k`th on, behind `acc`.
pub open spec fn flat<A>(lists: Seq<Seq<A>>, k: int, acc: Seq<A>) -> Seq<A>
    decreases lists.len() - k,
{
    if k >= lists.len() {
        acc
    } else {
        flat(lists, k + 1, acc + lists[k])
    }
}

/// Where each list begins among the flattened ones, and where the last one ends; `at`
/// items stand before the `k`th.
pub open spec fn offsets<A>(lists: Seq<Seq<A>>, k: int, at: int, acc: Seq<usize>) -> Seq<usize>
    decreases lists.len() - k,
{
    if k >= lists.len() {
        acc
    } else {
        offsets(lists, k + 1, at + lists[k].len(), acc.push((at + lists[k].len()) as usize))
    }
}

/// The lock-order graph, by the lock held, then by the lock acquired.
pub open spec fn order(
    recs: Seq<RecV>,
    rs: Seq<Seq<(usize, u8)>>,
    depth: u8,
    locks: nat,
) -> Seq<EdgeV> {
    flat(
        edges_from(Seq::new(locks, |i: int| Seq::empty()), recs, rs, depth, 0),
        0,
        Seq::empty(),
    )
}

/// Call `k` reaches the targets from the `j`th on.
pub open spec fn called(lists: Seq<Seq<usize>>, ts: Seq<usize>, j: int, k: usize) -> Seq<
    Seq<usize>,
>
    decreases ts.len() - j,
{
    if j >= ts.len() {
        lists
    } else {
        called(lists.update(ts[j] as int, lists[ts[j] as int].push(k)), ts, j + 1, k)
    }
}

/// The calls from the `k`th on, by target.
pub open spec fn callers_from(lists: Seq<Seq<usize>>, calls: Seq<LinkV>, k: int) -> Seq<Seq<usize>>
    decreases calls.len() - k,
{
    if k >= calls.len() {
        lists
    } else {
        callers_from(called(lists, calls[k].targets, 0, k as usize), calls, k + 1)
    }
}

/// The call sites that reach each method.
pub open spec fn callers(calls: Seq<LinkV>, methods: nat) -> Seq<Seq<usize>> {
    callers_from(Seq::new(methods, |i: int| Seq::empty()), calls, 0)
}

/// An edge of the lock-order graph.
pub struct Edge {
    pub from: usize,
    pub to: usize,
    pub count: u32,
    pub method: usize,
    pub line: u32,
    pub dist: u8,
}

impl DeepView for Edge {
    type V = EdgeV;

    open spec fn deep_view(&self) -> EdgeV {
        EdgeV {
            from: self.from,
            to: self.to,
            count: self.count,
            method: self.method,
            line: self.line,
            dist: self.dist,
        }
    }
}

/// Every edge of list `i` starts at lock `i` and leads to a lock, from a method.
pub open spec fn edges_ok(edges: Seq<Seq<EdgeV>>, methods: int) -> bool {
    forall|i: int, j: int|
        0 <= i < edges.len() && 0 <= j < edges[i].len() ==> edge_ok(
            #[trigger] edges[i][j],
            methods,
            edges.len() as int,
        )
}

/// The edge's locks and method exist.
pub open spec fn edge_ok(e: EdgeV, methods: int, locks: int) -> bool {
    e.from < locks && e.to < locks && e.method < methods
}

fn bump(list: &mut Vec<Edge>, e: Edge, Ghost(methods): Ghost<int>, Ghost(locks): Ghost<int>)
    requires
        edge_ok(e.deep_view(), methods, locks),
        forall|j: int|
            0 <= j < old(list)@.len() ==> edge_ok(
                #[trigger] old(list).deep_view()[j],
                methods,
                locks,
            ),
    ensures
        final(list).deep_view() == bumped(old(list).deep_view(), e.deep_view(), 0),
        forall|j: int|
            0 <= j < final(list)@.len() ==> edge_ok(
                #[trigger] final(list).deep_view()[j],
                methods,
                locks,
            ),
{
    let ghost lv = list.deep_view();
    let ghost ev = e.deep_view();
    let mut k: usize = 0;
    while k < list.len()
        invariant
            k <= list@.len(),
            lv == list.deep_view(),
            lv == old(list).deep_view(),
            ev == e.deep_view(),
            edge_ok(ev, methods, locks),
            forall|j: int| 0 <= j < lv.len() ==> edge_ok(#[trigger] lv[j], methods, locks),
            bumped(lv, ev, 0) == bumped(lv, ev, k as int),
        decreases list@.len() - k,
    {
        proof {
            assert(lv[k as int] == list@[k as int].deep_view());
        }
        let to = list[k].to;
        if to == e.to {
            let old_count = list[k].count;
            let count = if old_count == u32::MAX {
                old_count
            } else {
                old_count + 1
            };
            let new = if e.dist < list[k].dist {
                Edge {
                    from: e.from,
                    to: e.to,
                    count,
                    method: e.method,
                    line: e.line,
                    dist: e.dist,
                }
            } else {
                let o = &list[k];
                Edge {
                    from: o.from,
                    to: o.to,
                    count,
                    method: o.method,
                    line: o.line,
                    dist: o.dist,
                }
            };
            let ghost nv = new.deep_view();
            list.set(k, new);
            proof {
                assert(list.deep_view() =~= lv.update(k as int, nv));
            }
            return ;
        }
        if to > e.to {
            list.insert(k, e);
            proof {
                assert(list.deep_view() =~= lv.insert(k as int, ev));
                assert forall|j: int| 0 <= j < list@.len() implies edge_ok(
                    #[trigger] list.deep_view()[j],
                    methods,
                    locks,
                ) by {
                    if j < k {
                        assert(list.deep_view()[j] == lv[j]);
                    } else if j > k {
                        assert(list.deep_view()[j] == lv[j - 1]);
                    }
                }
            }
            return ;
        }
        k += 1;
    }
    values::push(list, e);
}

fn find_froms(s: &Spot, row: &Vec<(usize, u8)>, depth: u8) -> (r: Vec<(usize, u8)>)
    ensures
        r@ == froms(s.deep_view(), row@, depth),
{
    let mut out: Vec<(usize, u8)> = Vec::new();
    let ghost hv = s.held@;
    let mut k: usize = 0;
    while k < s.held.len()
        invariant
            k <= s.held@.len(),
            hv == s.held@,
            held_here(hv, 0, Seq::empty()) == held_here(hv, k as int, out@),
        decreases s.held@.len() - k,
    {
        out.push((s.held[k], 0));
        k += 1;
    }
    let ghost begin = out@;
    let mut k: usize = 0;
    while k < row.len()
        invariant
            k <= row@.len(),
            held_above(row@, depth, 0, begin) == held_above(row@, depth, k as int, out@),
        decreases row@.len() - k,
    {
        if row[k].1 <= depth {
            out.push(row[k]);
        }
        k += 1;
    }
    out
}

fn lists_lock(fs: &Vec<(usize, u8)>, l: usize) -> (r: bool)
    ensures
        r == reach::has_lock(fs@, l),
{
    let mut k: usize = 0;
    while k < fs.len()
        invariant
            k <= fs@.len(),
            forall|i: int| 0 <= i < k ==> (#[trigger] fs@[i]).0 != l,
        decreases fs@.len() - k,
    {
        if fs[k].0 == l {
            return true;
        }
        k += 1;
    }
    false
}

proof fn lemma_froms_ok(
    held: Seq<usize>,
    k: int,
    acc: Seq<(usize, u8)>,
    locks: int,
)
    requires
        0 <= k,
        forall|i: int| 0 <= i < held.len() ==> #[trigger] held[i] < locks,
        forall|i: int| 0 <= i < acc.len() ==> (#[trigger] acc[i]).0 < locks,
    ensures
        forall|i: int|
            0 <= i < held_here(held, k, acc).len() ==> (#[trigger] held_here(held, k, acc)[i]).0
                < locks,
    decreases held.len() - k,
{
    if k < held.len() {
        lemma_froms_ok(held, k + 1, acc.push((held[k], 0)), locks);
        assert(held_here(held, k, acc) == held_here(held, k + 1, acc.push((held[k], 0))));
    }
}

proof fn lemma_above_ok(
    row: Seq<(usize, u8)>,
    depth: u8,
    k: int,
    acc: Seq<(usize, u8)>,
    locks: int,
)
    requires
        0 <= k,
        forall|i: int| 0 <= i < row.len() ==> (#[trigger] row[i]).0 < locks,
        forall|i: int| 0 <= i < acc.len() ==> (#[trigger] acc[i]).0 < locks,
    ensures
        forall|i: int|
            0 <= i < held_above(row, depth, k, acc).len() ==> (
            #[trigger] held_above(row, depth, k, acc)[i]).0 < locks,
    decreases row.len() - k,
{
    if k < row.len() {
        let next = if row[k].1 <= depth {
            acc.push(row[k])
        } else {
            acc
        };
        lemma_above_ok(row, depth, k + 1, next, locks);
        assert(held_above(row, depth, k, acc) == held_above(row, depth, k + 1, next));
    }
}

fn add_span(
    edges: &mut Vec<Vec<Edge>>,
    fs: &Vec<(usize, u8)>,
    s: &Spot,
    m: usize,
    Ghost(methods): Ghost<int>,
)
    requires
        edges_ok(old(edges).deep_view(), methods),
        s.lock < old(edges)@.len(),
        m < methods,
        forall|i: int| 0 <= i < fs@.len() ==> (#[trigger] fs@[i]).0 < old(edges)@.len(),
    ensures
        final(edges)@.len() == old(edges)@.len(),
        edges_ok(final(edges).deep_view(), methods),
        final(edges).deep_view() == span_edges(
            old(edges).deep_view(),
            fs@,
            0,
            s.deep_view(),
            m,
        ),
{
    let ghost begin = edges.deep_view();
    let ghost sv = s.deep_view();
    let ghost locks = edges@.len() as int;
    let mut k: usize = 0;
    while k < fs.len()
        invariant
            k <= fs@.len(),
            sv == s.deep_view(),
            edges@.len() == locks,
            locks == old(edges)@.len(),
            edges_ok(edges.deep_view(), methods),
            s.lock < locks,
            m < methods,
            forall|i: int| 0 <= i < fs@.len() ==> (#[trigger] fs@[i]).0 < locks,
            span_edges(begin, fs@, 0, sv, m) == span_edges(
                edges.deep_view(),
                fs@,
                k as int,
                sv,
                m,
            ),
        decreases fs@.len() - k,
    {
        let (from, dist) = fs[k];
        let e = Edge { from, to: s.lock, count: 1, method: m, line: s.enter, dist };
        let ghost ev = edges.deep_view();
        let ghost before = edges@;
        proof {
            assert(ev[from as int] == before[from as int].deep_view());
            assert forall|j: int| 0 <= j < before[from as int]@.len() implies edge_ok(
                #[trigger] before[from as int].deep_view()[j],
                methods,
                locks,
            ) by {
                assert(edge_ok(ev[from as int][j], methods, locks));
            }
        }
        let mut list: Vec<Edge> = Vec::new();
        std::mem::swap(&mut edges[from], &mut list);
        bump(&mut list, e, Ghost(methods), Ghost(locks));
        let ghost lv = list.deep_view();
        edges.set(from, list);
        proof {
            let nv = edges.deep_view();
            assert(nv =~= ev.update(from as int, lv));
            assert forall|i: int, j: int| 0 <= i < nv.len() && 0 <= j < nv[i].len() implies edge_ok(
                #[trigger] nv[i][j],
                methods,
                nv.len() as int,
            ) by {
                if i == from {
                    assert(edge_ok(lv[j], methods, locks));
                } else {
                    assert(nv[i] == ev[i]);
                    assert(edge_ok(ev[i][j], methods, locks));
                }
            }
        }
        k += 1;
    }
}

/// Lay the lists end to end.
pub fn flatten<T: DeepView>(lists: Vec<Vec<T>>) -> (r: (Vec<T>, Vec<usize>))
    ensures
        r.0.deep_view() == flat(lists.deep_view(), 0, Seq::empty()),
        r.1@ == offsets(lists.deep_view(), 0, 0, seq![0usize]),
        r.1@.len() == lists@.len() + 1,
        forall|i: int, j: int|
            0 <= i <= j < r.1@.len() ==> #[trigger] r.1@[i] <= #[trigger] r.1@[j] <= r.0@.len(),
{
    let ghost lv = lists.deep_view();
    let mut rest = crate::sort::reversed(lists);
    let mut out: Vec<T> = values::empty();
    let mut off: Vec<usize> = Vec::new();
    off.push(0);
    let ghost mut k: int = 0;
    proof {
        assert(off@ =~= seq![0usize]);
    }
    while rest.len() > 0
        invariant
            0 <= k <= lv.len(),
            rest.deep_view() == lv.skip(k).reverse(),
            off@.len() == k + 1,
            off@[k] == out@.len(),
            forall|i: int, j: int|
                0 <= i <= j < off@.len() ==> #[trigger] off@[i] <= #[trigger] off@[j] <= out@.len(),
            flat(lv, 0, Seq::empty()) == flat(lv, k, out.deep_view()),
            offsets(lv, 0, 0, seq![0usize]) == offsets(lv, k, out@.len() as int, off@),
        decreases rest@.len(),
    {
        let ghost rv = rest.deep_view();
        proof {
            assert(rv.len() == rest@.len());
            assert(rv[rv.len() - 1] == lv[k]);
        }
        match rest.pop() {
            None => {},
            Some(list) => {
                let ghost a = out.deep_view();
                let ghost b = list.deep_view();
                let ghost before = out@.len();
                let ghost offs = off@;
                proof {
                    assert(b == lv[k]);
                    assert(b.len() == list@.len());
                }
                let mut list = list;
                out.append(&mut list);
                off.push(out.len());
                proof {
                    assert(out.deep_view() =~= a + b);
                    assert(rest.deep_view() =~= rv.drop_last());
                    assert(rv.drop_last() =~= lv.skip(k + 1).reverse());
                    assert forall|i: int, j: int| 0 <= i <= j < off@.len() implies #[trigger] off@[i]
                        <= #[trigger] off@[j] <= out@.len() by {
                        if j < off@.len() - 1 {
                            assert(off@[i] == offs[i] && off@[j] == offs[j]);
                        } else if i < off@.len() - 1 {
                            assert(off@[i] == offs[i]);
                            assert(offs[i] <= offs[k]);
                        }
                    }
                    k = k + 1;
                }
            },
        }
    }
    (out, off)
}

/// The lock-order graph, by the lock held, then by the lock acquired.
pub fn find_order(
    recs: &Vec<Rec>,
    rs: &Vec<Vec<(usize, u8)>>,
    depth: u8,
    locks: usize,
    Ghost(files): Ghost<int>,
    Ghost(calls): Ghost<int>,
) -> (r: Vec<Edge>)
    requires
        rs@.len() == recs@.len(),
        forall|i: int|
            0 <= i < recs@.len() ==> assemble::rec_ok(
                #[trigger] recs.deep_view()[i],
                files,
                locks as int,
                calls,
            ),
        forall|m: int, i: int|
            0 <= m < rs@.len() && 0 <= i < rs@[m]@.len() ==> (#[trigger] rs@[m]@[i]).0 < locks,
    ensures
        r.deep_view() == order(
            recs.deep_view(),
            reach::row_views(rs),
            depth,
            locks as nat,
        ),
        forall|j: int|
            0 <= j < r@.len() ==> edge_ok(
                #[trigger] r.deep_view()[j],
                recs@.len() as int,
                locks as int,
            ),
{
    let ghost rv = recs.deep_view();
    let ghost rows = reach::row_views(rs);
    let ghost methods = recs@.len() as int;
    let mut edges: Vec<Vec<Edge>> = values::empty();
    let mut i: usize = 0;
    while i < locks
        invariant
            i <= locks,
            edges@.len() == i,
            edges.deep_view() == Seq::new(i as nat, |i: int| Seq::<EdgeV>::empty()),
        decreases locks - i,
    {
        values::push(&mut edges, values::empty());
        proof {
            assert(edges.deep_view() =~= Seq::new((i + 1) as nat, |i: int| Seq::<EdgeV>::empty()));
        }
        i += 1;
    }
    let ghost begin = edges.deep_view();
    let mut k: usize = 0;
    while k < recs.len()
        invariant
            k <= recs@.len(),
            rv == recs.deep_view(),
            rows == reach::row_views(rs),
            methods == recs@.len(),
            rs@.len() == recs@.len(),
            edges@.len() == locks,
            edges_ok(edges.deep_view(), methods),
            forall|i: int|
                0 <= i < recs@.len() ==> assemble::rec_ok(
                    #[trigger] rv[i],
                    files,
                    locks as int,
                    calls,
                ),
            forall|m: int, i: int|
                0 <= m < rs@.len() && 0 <= i < rs@[m]@.len() ==> (#[trigger] rs@[m]@[i]).0 < locks,
            edges_from(begin, rv, rows, depth, 0) == edges_from(
                edges.deep_view(),
                rv,
                rows,
                depth,
                k as int,
            ),
        decreases recs@.len() - k,
    {
        let spans = &recs[k].spans;
        let row = &rs[k];
        let ghost sv = spans.deep_view();
        let ghost start = edges.deep_view();
        proof {
            assert(rv[k as int] == recs@[k as int].deep_view());
            assert(assemble::rec_ok(rv[k as int], files, locks as int, calls));
            assert(rows[k as int] == row@);
            assert forall|i: int| 0 <= i < row@.len() implies (#[trigger] row@[i]).0 < locks by {
                assert(rs@[k as int]@[i].0 < locks);
            }
        }
        let mut j: usize = 0;
        while j < spans.len()
            invariant
                j <= spans@.len(),
                k < methods,
                sv == spans.deep_view(),
                edges@.len() == locks,
                edges_ok(edges.deep_view(), methods),
                forall|i: int|
                    0 <= i < sv.len() ==> assemble::span_ok(#[trigger] sv[i], locks as int),
                forall|i: int| 0 <= i < row@.len() ==> (#[trigger] row@[i]).0 < locks,
                method_edges(start, sv, row@, depth, k, 0) == method_edges(
                    edges.deep_view(),
                    sv,
                    row@,
                    depth,
                    k,
                    j as int,
                ),
            decreases spans@.len() - j,
        {
            let s = &spans[j];
            proof {
                assert(sv[j as int] == s.deep_view());
                assert(assemble::span_ok(sv[j as int], locks as int));
                lemma_froms_ok(s.held@, 0, Seq::empty(), locks as int);
                lemma_above_ok(
                    row@,
                    depth,
                    0,
                    held_here(s.held@, 0, Seq::empty()),
                    locks as int,
                );
            }
            let fs = find_froms(s, row, depth);
            if !lists_lock(&fs, s.lock) {
                add_span(&mut edges, &fs, s, k, Ghost(methods));
            }
            j += 1;
        }
        k += 1;
    }
    let ghost fin = edges.deep_view();
    let (out, _) = flatten(edges);
    proof {
        lemma_flat_ok(fin, 0, Seq::empty(), methods);
    }
    out
}

proof fn lemma_flat_ok(edges: Seq<Seq<EdgeV>>, k: int, acc: Seq<EdgeV>, methods: int)
    requires
        0 <= k,
        edges_ok(edges, methods),
        forall|j: int|
            0 <= j < acc.len() ==> edge_ok(#[trigger] acc[j], methods, edges.len() as int),
    ensures
        forall|j: int|
            0 <= j < flat(edges, k, acc).len() ==> edge_ok(
                #[trigger] flat(edges, k, acc)[j],
                methods,
                edges.len() as int,
            ),
    decreases edges.len() - k,
{
    if k < edges.len() {
        let next = acc + edges[k];
        assert forall|j: int| 0 <= j < next.len() implies edge_ok(
            #[trigger] next[j],
            methods,
            edges.len() as int,
        ) by {
            if j >= acc.len() {
                assert(edge_ok(edges[k][j - acc.len()], methods, edges.len() as int));
            }
        }
        lemma_flat_ok(edges, k + 1, next, methods);
        assert(flat(edges, k, acc) == flat(edges, k + 1, next));
    }
}

/// The call sites that reach each method.
pub fn find_callers(calls: &Vec<Link>, methods: usize, Ghost(locks): Ghost<int>) -> (r: Vec<
    Vec<usize>,
>)
    requires
        forall|i: int|
            0 <= i < calls@.len() ==> assemble::link_ok(
                #[trigger] calls.deep_view()[i],
                methods as int,
                locks,
            ),
    ensures
        r@.len() == methods,
        r.deep_view() == callers(calls.deep_view(), methods as nat),
        forall|m: int, i: int|
            0 <= m < r@.len() && 0 <= i < r@[m]@.len() ==> (#[trigger] r@[m]@[i]) < calls@.len(),
{
    let ghost cv = calls.deep_view();
    let mut lists: Vec<Vec<usize>> = values::empty();
    let mut i: usize = 0;
    while i < methods
        invariant
            i <= methods,
            lists@.len() == i,
            lists.deep_view() == Seq::new(i as nat, |i: int| Seq::<usize>::empty()),
            forall|m: int| 0 <= m < i ==> (#[trigger] lists@[m])@.len() == 0,
        decreases methods - i,
    {
        values::push(&mut lists, values::empty());
        proof {
            assert(lists.deep_view() =~= Seq::new((i + 1) as nat, |i: int| Seq::<usize>::empty()));
        }
        i += 1;
    }
    let ghost begin = lists.deep_view();
    let mut k: usize = 0;
    while k < calls.len()
        invariant
            k <= calls@.len(),
            cv == calls.deep_view(),
            lists@.len() == methods,
            forall|i: int|
                0 <= i < calls@.len() ==> assemble::link_ok(
                    #[trigger] cv[i],
                    methods as int,
                    locks,
                ),
            forall|m: int, i: int|
                0 <= m < lists@.len() && 0 <= i < lists@[m]@.len() ==> (#[trigger] lists@[m]@[i])
                    < k,
            callers_from(begin, cv, 0) == callers_from(lists.deep_view(), cv, k as int),
        decreases calls@.len() - k,
    {
        let ts = &calls[k].targets;
        let ghost start = lists.deep_view();
        proof {
            assert(cv[k as int] == calls@[k as int].deep_view());
            assert(assemble::link_ok(cv[k as int], methods as int, locks));
        }
        let mut j: usize = 0;
        while j < ts.len()
            invariant
                j <= ts@.len(),
                lists@.len() == methods,
                forall|i: int| 0 <= i < ts@.len() ==> #[trigger] ts@[i] < methods,
                forall|m: int, i: int|
                    0 <= m < lists@.len() && 0 <= i < lists@[m]@.len() ==> (
                    #[trigger] lists@[m]@[i]) <= k,
                called(start, ts@, 0, k) == called(lists.deep_view(), ts@, j as int, k),
            decreases ts@.len() - j,
        {
            let t = ts[j];
            let ghost before = lists@;
            let ghost bv = lists.deep_view();
            proof {
                assert(bv[t as int] == before[t as int].deep_view());
            }
            let mut list: Vec<usize> = Vec::new();
            std::mem::swap(&mut lists[t], &mut list);
            let ghost old_list = list@;
            values::push(&mut list, k);
            let ghost lv = list.deep_view();
            let ghost new_list = list@;
            lists.set(t, list);
            proof {
                assert(lists.deep_view() =~= bv.update(t as int, lv));
                assert forall|m: int, i: int|
                    0 <= m < lists@.len() && 0 <= i < lists@[m]@.len() implies (
                #[trigger] lists@[m]@[i]) <= k by {
                    if m == t {
                        if i < old_list.len() {
                            assert(before[m]@[i] <= k);
                        }
                    } else {
                        assert(lists@[m] == before[m]);
                        assert(before[m]@[i] <= k);
                    }
                }
            }
            j += 1;
        }
        k += 1;
    }
    lists
}

} // verus!

//! What the lines of a report say, and how many there are.

use crate::dex::ctx::index::{Hop, IndexV, OrderEdge};
use crate::lockctx::ask;
use crate::lockctx::report;
use crate::sort;
use crate::text;
use vstd::prelude::*;

verus! {

/// A line of a method, by its file.
pub open spec fn place(v: IndexV, m: u32, line: u32) -> Seq<char> {
    v.files[v.methods[m as int].file as int] + ":"@ + text::dec(line as nat)
}

/// What a frame says that it does.
pub open spec fn deed(v: IndexV, h: Hop) -> Seq<char> {
    if h.acquire is Some && h.call is Some {
        "  (acquires at "@ + place(v, h.method, h.acquire->0) + "; calls at "@ + place(
            v,
            h.method,
            h.call->0,
        ) + ")"@
    } else if h.acquire is Some {
        "  (acquires at "@ + place(v, h.method, h.acquire->0) + ")"@
    } else if h.call is Some {
        "  (calls at "@ + place(v, h.method, h.call->0) + ")"@
    } else {
        Seq::empty()
    }
}

/// The line of a frame.
pub open spec fn frame_line(v: IndexV, h: Hop, first: bool) -> Seq<char> {
    (if first {
        "      via "@
    } else {
        "          -> "@
    }) + v.methods[h.method as int].key + deed(v, h) + "\n"@
}

proof fn lemma_frame(acc: Seq<char>, v: IndexV, h: Hop, first: bool)
    ensures
        report::note(
            acc + (if first {
                "      via "@
            } else {
                "          -> "@
            }) + v.methods[h.method as int].key,
            v,
            h,
        ) + "\n"@ == acc + frame_line(v, h, first),
{
    let head = acc + (if first {
        "      via "@
    } else {
        "          -> "@
    }) + v.methods[h.method as int].key;
    assert(report::note(head, v, h) =~= head + deed(v, h));
    assert(head + deed(v, h) + "\n"@ =~= acc + frame_line(v, h, first));
}

proof fn lemma_path(acc: Seq<char>, v: IndexV, path: Seq<Hop>, h: Hop, i: int)
    requires
        0 <= i <= path.len(),
    ensures
        report::path_lines(acc, v, path.push(h), i) == report::path_lines(acc, v, path, i)
            + frame_line(v, h, path.len() == 0),
    decreases path.len() - i,
{
    let more = path.push(h);
    lemma_frame(acc, v, more[i], i == 0);
    let next = acc + frame_line(v, more[i], i == 0);
    assert(report::path_lines(acc, v, more, i) == report::path_lines(next, v, more, i + 1));
    if i < path.len() {
        assert(report::path_lines(acc, v, path, i) == report::path_lines(next, v, path, i + 1));
        lemma_path(next, v, path, h, i + 1);
    }
}

/// A path is written a line a frame, in order: the method, and the places in its file at which
/// it takes the lock and makes the next call.
pub proof fn law_paths_are_written_frame_by_frame(acc: Seq<char>, v: IndexV, path: Seq<Hop>, h: Hop)
    ensures
        report::path_lines(acc, v, Seq::empty(), 0) == acc,
        report::path_lines(acc, v, path.push(h), 0) == report::path_lines(acc, v, path, 0)
            + frame_line(v, h, path.len() == 0),
{
    lemma_path(acc, v, path, h, 0);
}

/// The line of a held lock.
pub open spec fn held_line(v: IndexV, m: u32, line: u32, l: u32) -> Seq<char> {
    "    "@ + v.locks[l as int] + "   (acquired at "@ + (match crate::dex::ctx::query::taken_at(
        v.methods[m as int].spans,
        l,
        line,
        0,
    ) {
        Some(a) => place(v, m, a),
        None => ""@,
    }) + ")\n"@
}

proof fn lemma_held(acc: Seq<char>, v: IndexV, m: u32, line: u32, held: Seq<u32>, l: u32, k: int)
    requires
        0 <= k <= held.len(),
    ensures
        report::held_lines(acc, v, m, line, held.push(l), k) == report::held_lines(
            acc,
            v,
            m,
            line,
            held,
            k,
        ) + held_line(v, m, line, l),
    decreases held.len() - k,
{
    let more = held.push(l);
    let x = more[k];
    let at = match crate::dex::ctx::query::taken_at(v.methods[m as int].spans, x, line, 0) {
        Some(a) => ask::loc_text(v, m, a),
        None => ""@,
    };
    let next = acc + "    "@ + v.locks[x as int] + "   (acquired at "@ + at + ")\n"@;
    assert(next =~= acc + held_line(v, m, line, x));
    assert(report::held_lines(acc, v, m, line, more, k) == report::held_lines(
        next,
        v,
        m,
        line,
        more,
        k + 1,
    ));
    if k < held.len() {
        lemma_held(next, v, m, line, held, l, k + 1);
    }
}

/// The locks that a method holds are written a line each, with where it took them.
pub proof fn law_held_locks_are_written_one_by_one(
    acc: Seq<char>,
    v: IndexV,
    m: u32,
    line: u32,
    held: Seq<u32>,
    l: u32,
)
    ensures
        report::held_lines(acc, v, m, line, Seq::empty(), 0) == acc,
        report::held_lines(acc, v, m, line, held.push(l), 0) == report::held_lines(
            acc,
            v,
            m,
            line,
            held,
            0,
        ) + held_line(v, m, line, l),
{
    lemma_held(acc, v, m, line, held, l, 0);
}

/// A text with the way that a lock comes, where one is known.
pub open spec fn with_way(acc: Seq<char>, v: IndexV, m: u32, l: u32) -> Seq<char> {
    if v.witness(m, l) is Some {
        report::path_lines(acc, v, v.witness(m, l)->0, 0)
    } else {
        acc
    }
}

proof fn lemma_may(
    acc: Seq<char>,
    v: IndexV,
    m: u32,
    may: Seq<(u32, u8)>,
    depth: u8,
    e: (u32, u8),
    k: int,
)
    requires
        0 <= k <= may.len(),
        forall|i: int| 0 <= i < may.len() ==> (#[trigger] may[i]).1 <= depth,
    ensures
        report::may_lines(acc, v, m, may.push(e), depth, k) == if e.1 <= depth {
            with_way(
                report::may_lines(acc, v, m, may, depth, k) + "    [d="@ + text::dec(e.1 as nat)
                    + "] "@ + v.locks[e.0 as int] + "\n"@,
                v,
                m,
                e.0,
            )
        } else {
            report::may_lines(acc, v, m, may, depth, k)
        },
    decreases may.len() - k,
{
    let more = may.push(e);
    if k < may.len() {
        assert(may[k].1 <= depth);
        assert(more[k] == may[k]);
        let (l, d) = may[k];
        let next = report::witness_lines(
            acc + "    [d="@ + text::dec(d as nat) + "] "@ + v.locks[l as int] + "\n"@,
            v,
            m,
            l,
        );
        lemma_may(next, v, m, may, depth, e, k + 1);
        assert(report::may_lines(acc, v, m, more, depth, k) == report::may_lines(
            next,
            v,
            m,
            more,
            depth,
            k + 1,
        ));
    } else {
        assert(more[k] == e);
        if e.1 <= depth {
            let next = report::witness_lines(
                acc + "    [d="@ + text::dec(e.1 as nat) + "] "@ + v.locks[e.0 as int] + "\n"@,
                v,
                m,
                e.0,
            );
            assert(report::may_lines(acc, v, m, more, depth, k) == report::may_lines(
                next,
                v,
                m,
                more,
                depth,
                k + 1,
            ));
        }
    }
}

/// The locks that may be held on entry are written, nearest first, as far as they lie within
/// the depth: each with its distance, its name, and the way it comes.
pub proof fn law_entry_locks_are_written_within_the_depth(
    acc: Seq<char>,
    v: IndexV,
    m: u32,
    may: Seq<(u32, u8)>,
    depth: u8,
    e: (u32, u8),
)
    requires
        forall|i: int| 0 <= i < may.len() ==> (#[trigger] may[i]).1 <= depth,
    ensures
        report::may_lines(acc, v, m, Seq::empty(), depth, 0) == acc,
        report::may_lines(acc, v, m, may.push(e), depth, 0) == if e.1 <= depth {
            with_way(
                report::may_lines(acc, v, m, may, depth, 0) + "    [d="@ + text::dec(e.1 as nat)
                    + "] "@ + v.locks[e.0 as int] + "\n"@,
                v,
                m,
                e.0,
            )
        } else {
            report::may_lines(acc, v, m, may, depth, 0)
        },
{
    lemma_may(acc, v, m, may, depth, e, 0);
}

/// The line of a site.
pub open spec fn site_line(v: IndexV, s: (u32, u32)) -> Seq<char> {
    "    "@ + place(v, s.0, s.1) + "  "@ + v.methods[s.0 as int].key + "\n"@
}

proof fn lemma_sites(acc: Seq<char>, v: IndexV, sites: Seq<(u32, u32)>, k: int, n: int)
    requires
        0 <= k <= n < sites.len(),
    ensures
        report::site_lines(acc, v, sites, k, n + 1) == report::site_lines(acc, v, sites, k, n)
            + site_line(v, sites[n]),
    decreases n - k,
{
    let (m, line) = sites[k];
    let next = acc + "    "@ + ask::loc_text(v, m, line) + "  "@ + v.methods[m as int].key + "\n"@;
    assert(next =~= acc + site_line(v, sites[k]));
    assert(report::site_lines(acc, v, sites, k, n + 1) == report::site_lines(
        next,
        v,
        sites,
        k + 1,
        n + 1,
    ));
    if k < n {
        lemma_sites(next, v, sites, k + 1, n);
    }
}

/// The line of a holder.
pub open spec fn holder_line(v: IndexV, h: (u32, u8)) -> Seq<char> {
    "    [d="@ + text::dec(h.1 as nat) + "] "@ + v.methods[h.0 as int].key + "\n"@
}

proof fn lemma_holders(acc: Seq<char>, v: IndexV, hs: Seq<(u32, u8)>, k: int, n: int)
    requires
        0 <= k <= n < hs.len(),
    ensures
        report::holder_lines(acc, v, hs, k, n + 1) == report::holder_lines(acc, v, hs, k, n)
            + holder_line(v, hs[n]),
    decreases n - k,
{
    let (m, d) = hs[k];
    let next = acc + "    [d="@ + text::dec(d as nat) + "] "@ + v.methods[m as int].key + "\n"@;
    assert(next =~= acc + holder_line(v, hs[k]));
    assert(report::holder_lines(acc, v, hs, k, n + 1) == report::holder_lines(
        next,
        v,
        hs,
        k + 1,
        n + 1,
    ));
    if k < n {
        lemma_holders(next, v, hs, k + 1, n);
    }
}

/// The line of an edge: the lock at its other end, how often, how near, and where.
pub open spec fn edge_line(v: IndexV, e: OrderEdge, out: bool) -> Seq<char> {
    (if out {
        "    -> "@ + v.locks[e.to as int]
    } else {
        "    <- "@ + v.locks[e.from as int]
    }) + "   ("@ + text::dec(e.count as nat) + "x, d="@ + text::dec(e.dist as nat) + ", e.g. "@
        + place(v, e.method, e.line) + ")\n"@
}

proof fn lemma_edges(acc: Seq<char>, v: IndexV, es: Seq<OrderEdge>, out: bool, k: int, n: int)
    requires
        0 <= k <= n < es.len(),
    ensures
        report::edge_lines(acc, v, es, out, k, n + 1) == report::edge_lines(acc, v, es, out, k, n)
            + edge_line(v, es[n], out),
    decreases n - k,
{
    let e = es[k];
    let head = if out {
        acc + "    -> "@ + v.locks[e.to as int]
    } else {
        acc + "    <- "@ + v.locks[e.from as int]
    };
    let next = head + "   ("@ + text::dec(e.count as nat) + "x, d="@ + text::dec(e.dist as nat)
        + ", e.g. "@ + ask::loc_text(v, e.method, e.line) + ")\n"@;
    assert(next =~= acc + edge_line(v, e, out));
    assert(report::edge_lines(acc, v, es, out, k, n + 1) == report::edge_lines(
        next,
        v,
        es,
        out,
        k + 1,
        n + 1,
    ));
    if k < n {
        lemma_edges(next, v, es, out, k + 1, n);
    }
}

/// The sites, the holders and the edges of a lock are written a line each, in order.
pub proof fn law_locks_are_written_line_by_line(
    acc: Seq<char>,
    v: IndexV,
    sites: Seq<(u32, u32)>,
    hs: Seq<(u32, u8)>,
    es: Seq<OrderEdge>,
    out: bool,
    n: int,
)
    requires
        0 <= n,
    ensures
        report::site_lines(acc, v, sites, 0, 0) == acc,
        n < sites.len() ==> report::site_lines(acc, v, sites, 0, n + 1) == report::site_lines(
            acc,
            v,
            sites,
            0,
            n,
        ) + site_line(v, sites[n]),
        report::holder_lines(acc, v, hs, 0, 0) == acc,
        n < hs.len() ==> report::holder_lines(acc, v, hs, 0, n + 1) == report::holder_lines(
            acc,
            v,
            hs,
            0,
            n,
        ) + holder_line(v, hs[n]),
        report::edge_lines(acc, v, es, out, 0, 0) == acc,
        n < es.len() ==> report::edge_lines(acc, v, es, out, 0, n + 1) == report::edge_lines(
            acc,
            v,
            es,
            out,
            0,
            n,
        ) + edge_line(v, es[n], out),
{
    if n < sites.len() {
        lemma_sites(acc, v, sites, 0, n);
    }
    if n < hs.len() {
        lemma_holders(acc, v, hs, 0, n);
    }
    if n < es.len() {
        lemma_edges(acc, v, es, out, 0, n);
    }
}

/// The edges of a lock are written nearest first, and of those equally near the most frequent
/// first; none is lost.
pub proof fn law_edges_are_written_nearest_first(es: Seq<OrderEdge>, i: int, j: int, e: OrderEdge)
    requires
        0 <= i < j < es.len(),
    ensures
        ({
            let by = sort::sorted(es, report::edge_le());
            &&& by.len() == es.len()
            &&& by[i].dist <= by[j].dist
            &&& by[i].dist == by[j].dist ==> by[i].count >= by[j].count
            &&& by.contains(e) <==> es.contains(e)
        }),
{
    let le = report::edge_le();
    sort::lemma_sorted(es, le);
    sort::lemma_sorted_contains(es, le, e);
    assert(le(sort::sorted(es, le)[i], sort::sorted(es, le)[j]));
}

proof fn lemma_within(list: Seq<(u32, u8)>, depth: u8, k: int)
    requires
        0 <= k <= list.len(),
    ensures
        report::within(list, depth, 0) == report::within(list, depth, k) + list.take(k).filter(
            |e: (u32, u8)| e.1 <= depth,
        ).len(),
    decreases k,
{
    reveal(Seq::filter);
    if k > 0 {
        lemma_within(list, depth, k - 1);
        assert(list.take(k).drop_last() =~= list.take(k - 1));
    }
}

proof fn lemma_near(list: Seq<(u32, u8)>, depth: u8, k: int)
    requires
        0 <= k <= list.len(),
    ensures
        report::near(list, depth) == report::near_from(
            list,
            depth,
            k,
            list.take(k).filter(|e: (u32, u8)| e.1 <= depth),
        ),
    decreases k,
{
    reveal(Seq::filter);
    if k > 0 {
        lemma_near(list, depth, k - 1);
        assert(list.take(k).drop_last() =~= list.take(k - 1));
    } else {
        assert(list.take(0).filter(|e: (u32, u8)| e.1 <= depth) =~= Seq::empty());
    }
}

proof fn lemma_ungated(inv: Seq<(OrderEdge, OrderEdge, Option<u32>)>, k: int)
    requires
        0 <= k <= inv.len(),
    ensures
        report::ungated(inv, 0) == report::ungated(inv, k) + inv.take(k).filter(
            |p: (OrderEdge, OrderEdge, Option<u32>)| p.2 is None,
        ).len(),
    decreases k,
{
    reveal(Seq::filter);
    if k > 0 {
        lemma_ungated(inv, k - 1);
        assert(inv.take(k).drop_last() =~= inv.take(k - 1));
    }
}

/// What a report counts, and what it keeps: the entries within the depth, in their order, and
/// the pairs that no lock gates.
pub proof fn law_reports_count_what_they_keep(
    list: Seq<(u32, u8)>,
    depth: u8,
    inv: Seq<(OrderEdge, OrderEdge, Option<u32>)>,
)
    ensures
        report::within(list, depth, 0) == list.filter(|e: (u32, u8)| e.1 <= depth).len(),
        report::near(list, depth) == list.filter(|e: (u32, u8)| e.1 <= depth),
        report::ungated(inv, 0) == inv.filter(
            |p: (OrderEdge, OrderEdge, Option<u32>)| p.2 is None,
        ).len(),
{
    lemma_within(list, depth, list.len() as int);
    lemma_near(list, depth, list.len() as int);
    lemma_ungated(inv, inv.len() as int);
    assert(list.take(list.len() as int) =~= list);
    assert(inv.take(inv.len() as int) =~= inv);
}

/// One order of a pair: the two locks, how often, how near, and where.
pub open spec fn one_order(v: IndexV, e: OrderEdge) -> Seq<char> {
    "    "@ + ask::short_name(v.locks[e.from as int]) + " -> "@ + ask::short_name(
        v.locks[e.to as int],
    ) + "   ("@ + text::dec(e.count as nat) + "x, d="@ + text::dec(e.dist as nat) + ", e.g. "@
        + place(v, e.method, e.line) + " in "@ + v.methods[e.method as int].key + ")\n"@
}

/// The lines of a pair that no lock gates.
pub open spec fn open_pair(v: IndexV, p: (OrderEdge, OrderEdge, Option<u32>)) -> Seq<char> {
    "\n  "@ + v.locks[p.0.from as int] + "  <->  "@ + v.locks[p.0.to as int] + "\n"@ + one_order(
        v,
        p.0,
    ) + one_order(v, p.1)
}

/// The line of a pair that a lock gates.
pub open spec fn gated_pair(v: IndexV, p: (OrderEdge, OrderEdge, Option<u32>)) -> Seq<char> {
    "  "@ + ask::short_name(v.locks[p.0.from as int]) + "  <->  "@ + ask::short_name(
        v.locks[p.0.to as int],
    ) + "   under "@ + ask::short_name(v.locks[p.2->0 as int]) + "   ("@ + text::dec(
        p.0.count as nat,
    ) + "x / "@ + text::dec(p.1.count as nat) + "x)\n"@
}

proof fn lemma_order_line(acc: Seq<char>, v: IndexV, e: OrderEdge)
    ensures
        report::order_line(acc, v, e) == acc + one_order(v, e),
{
    assert(report::order_line(acc, v, e) =~= acc + one_order(v, e));
}

proof fn lemma_open(
    acc: Seq<char>,
    v: IndexV,
    inv: Seq<(OrderEdge, OrderEdge, Option<u32>)>,
    p: (OrderEdge, OrderEdge, Option<u32>),
    k: int,
    shown: int,
)
    requires
        0 <= k <= inv.len(),
        0 <= shown,
    ensures
        report::open_pairs(acc, v, inv.push(p), k, shown) == report::open_pairs(
            acc,
            v,
            inv,
            k,
            shown,
        ) + if p.2 is None && shown + report::ungated(inv, k) < 40 {
            open_pair(v, p)
        } else {
            Seq::empty()
        },
    decreases inv.len() - k,
{
    let more = inv.push(p);
    let x = more[k];
    let (a, b, _) = x;
    let head = acc + "\n  "@ + v.locks[a.from as int] + "  <->  "@ + v.locks[a.to as int] + "\n"@;
    lemma_order_line(head, v, a);
    lemma_order_line(report::order_line(head, v, a), v, b);
    let next = report::order_line(report::order_line(head, v, a), v, b);
    assert(next =~= acc + open_pair(v, x));
    assert(acc + Seq::<char>::empty() =~= acc);
    if k < inv.len() {
        if shown < 40 {
            if inv[k].2 is None {
                lemma_open(next, v, inv, p, k + 1, shown + 1);
            } else {
                lemma_open(acc, v, inv, p, k + 1, shown);
            }
        }
    } else if shown < 40 {
        if p.2 is None {
            assert(report::open_pairs(acc, v, more, k, shown) == report::open_pairs(
                next,
                v,
                more,
                k + 1,
                shown + 1,
            ));
        } else {
            assert(report::open_pairs(acc, v, more, k, shown) == report::open_pairs(
                acc,
                v,
                more,
                k + 1,
                shown,
            ));
        }
    }
}

proof fn lemma_gated(
    acc: Seq<char>,
    v: IndexV,
    inv: Seq<(OrderEdge, OrderEdge, Option<u32>)>,
    p: (OrderEdge, OrderEdge, Option<u32>),
    k: int,
    shown: int,
)
    requires
        0 <= k <= inv.len(),
        0 <= shown,
    ensures
        report::gated_pairs(acc, v, inv.push(p), k, shown) == report::gated_pairs(
            acc,
            v,
            inv,
            k,
            shown,
        ) + if p.2 is Some && shown + (inv.len() - k - report::ungated(inv, k)) < 30 {
            gated_pair(v, p)
        } else {
            Seq::empty()
        },
        report::ungated(inv, k) <= inv.len() - k,
    decreases inv.len() - k,
{
    let more = inv.push(p);
    let x = more[k];
    let (a, b, _) = x;
    let next = acc + "  "@ + ask::short_name(v.locks[a.from as int]) + "  <->  "@ + ask::short_name(
        v.locks[a.to as int],
    ) + "   under "@ + ask::short_name(v.locks[x.2->0 as int]) + "   ("@ + text::dec(a.count as nat)
        + "x / "@ + text::dec(b.count as nat) + "x)\n"@;
    assert(next =~= acc + gated_pair(v, x));
    assert(acc + Seq::<char>::empty() =~= acc);
    if k < inv.len() {
        if inv[k].2 is Some {
            lemma_gated(next, v, inv, p, k + 1, shown + 1);
        } else {
            lemma_gated(acc, v, inv, p, k + 1, shown);
        }
    } else if shown < 30 {
        if p.2 is Some {
            assert(report::gated_pairs(acc, v, more, k, shown) == report::gated_pairs(
                next,
                v,
                more,
                k + 1,
                shown + 1,
            ));
        } else {
            assert(report::gated_pairs(acc, v, more, k, shown) == report::gated_pairs(
                acc,
                v,
                more,
                k + 1,
                shown,
            ));
        }
    }
}

/// Of the pairs, the first forty that no lock gates are written with both of their orders, and
/// the first thirty that one gates with its name; no pair is written in both lists.
pub proof fn law_pairs_are_written_by_their_gate(
    acc: Seq<char>,
    v: IndexV,
    inv: Seq<(OrderEdge, OrderEdge, Option<u32>)>,
    p: (OrderEdge, OrderEdge, Option<u32>),
)
    ensures
        ({
            let free = inv.filter(|q: (OrderEdge, OrderEdge, Option<u32>)| q.2 is None).len();
            &&& report::open_pairs(acc, v, inv.push(p), 0, 0) == report::open_pairs(acc, v, inv, 0, 0)
                + if p.2 is None && free < 40 {
                open_pair(v, p)
            } else {
                Seq::empty()
            }
            &&& report::gated_pairs(acc, v, inv.push(p), 0, 0) == report::gated_pairs(
                acc,
                v,
                inv,
                0,
                0,
            ) + if p.2 is Some && inv.len() - free < 30 {
                gated_pair(v, p)
            } else {
                Seq::empty()
            }
        }),
{
    lemma_open(acc, v, inv, p, 0, 0);
    lemma_gated(acc, v, inv, p, 0, 0);
    law_reports_count_what_they_keep(Seq::empty(), 0, inv);
}

/// The line of a binder call: its place, its caller, its target, and the lock held.
pub open spec fn binder_line(v: IndexV, s: (u32, u32, u32, u8)) -> Seq<char> {
    let c = v.calls[s.0 as int];
    "  "@ + place(v, c.caller, c.line) + "  "@ + v.methods[c.caller as int].key + "  ->  "@
        + v.methods[s.1 as int].key + "   holding "@ + v.locks[s.2 as int] + "\n"@
}

/// The heading of the calls at a distance.
pub open spec fn distance_line(d: u8) -> Seq<char> {
    "\n-- d="@ + text::dec(d as nat) + " --\n"@
}

proof fn lemma_binder(
    acc: Seq<char>,
    v: IndexV,
    sites: Seq<(u32, u32, u32, u8)>,
    last: u8,
    k: int,
    n: int,
)
    requires
        0 <= k <= n < sites.len(),
    ensures
        ({
            let before = report::binder_lines(acc, v, sites, last, k, n);
            let was = if k == n {
                last
            } else {
                sites[n - 1].3
            };
            let s = sites[n];
            let head = if s.3 == was {
                before + binder_line(v, s)
            } else {
                before + distance_line(s.3) + binder_line(v, s)
            };
            report::binder_lines(acc, v, sites, last, k, n + 1) == if s.3 == 0 {
                head
            } else {
                with_way(head, v, v.calls[s.0 as int].caller, s.2)
            }
        }),
    decreases n - k,
{
    let (call, t, l, d) = sites[k];
    let c = v.calls[call as int];
    let head = if d != last {
        acc + "\n-- d="@ + text::dec(d as nat) + " --\n"@
    } else {
        acc
    };
    let line = head + "  "@ + ask::loc_text(v, c.caller, c.line) + "  "@
        + v.methods[c.caller as int].key + "  ->  "@ + v.methods[t as int].key + "   holding "@
        + v.locks[l as int] + "\n"@;
    if d != last {
        assert(line =~= acc + distance_line(d) + binder_line(v, sites[k]));
    } else {
        assert(line =~= acc + binder_line(v, sites[k]));
    }
    let next = if d > 0 {
        report::witness_lines(line, v, c.caller, l)
    } else {
        line
    };
    assert(report::binder_lines(acc, v, sites, last, k, n + 1) == report::binder_lines(
        next,
        v,
        sites,
        d,
        k + 1,
        n + 1,
    ));
    if k < n {
        lemma_binder(next, v, sites, d, k + 1, n);
    }
}

/// The binder calls are written a line each, under a heading wherever the distance changes,
/// and with the way the lock comes where the caller does not hold it itself.
pub proof fn law_binder_calls_are_written_by_distance(
    acc: Seq<char>,
    v: IndexV,
    sites: Seq<(u32, u32, u32, u8)>,
    last: u8,
    n: int,
)
    requires
        0 <= n < sites.len(),
    ensures
        ({
            let before = report::binder_lines(acc, v, sites, last, 0, n);
            let was = if n == 0 {
                last
            } else {
                sites[n - 1].3
            };
            let s = sites[n];
            let head = if s.3 == was {
                before + binder_line(v, s)
            } else {
                before + distance_line(s.3) + binder_line(v, s)
            };
            report::binder_lines(acc, v, sites, last, 0, n + 1) == if s.3 == 0 {
                head
            } else {
                with_way(head, v, v.calls[s.0 as int].caller, s.2)
            }
        }),
{
    lemma_binder(acc, v, sites, last, 0, n);
}

proof fn lemma_names(acc: Seq<char>, v: IndexV, c: Seq<u32>, k: int, n: int)
    requires
        0 <= k <= n < c.len(),
    ensures
        report::group_names(acc, v, c, k, n + 1) == report::group_names(acc, v, c, k, n) + (if n == 0 {
            Seq::empty()
        } else {
            ", "@
        }) + ask::short_name(v.locks[c[n] as int]),
    decreases n - k,
{
    let next = (if k == 0 {
        acc
    } else {
        acc + ", "@
    }) + ask::short_name(v.locks[c[k] as int]);
    assert(report::group_names(acc, v, c, k, n + 1) == report::group_names(next, v, c, k + 1, n + 1));
    if k < n {
        lemma_names(next, v, c, k + 1, n);
    } else {
        assert(acc + Seq::<char>::empty() =~= acc);
    }
}

/// The locks of a group are written by their short names, with commas between.
pub proof fn law_groups_are_written_with_commas(acc: Seq<char>, v: IndexV, c: Seq<u32>, n: int)
    requires
        0 <= n < c.len(),
    ensures
        report::group_names(acc, v, c, 0, 0) == acc,
        report::group_names(acc, v, c, 0, n + 1) == report::group_names(acc, v, c, 0, n) + (if n == 0 {
            Seq::empty()
        } else {
            ", "@
        }) + ask::short_name(v.locks[c[n] as int]),
{
    lemma_names(acc, v, c, 0, n);
}

} // verus!

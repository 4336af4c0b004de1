//! What the answers say of the index they come from.

use crate::dex::ctx::answers as ctx_answers;
use crate::dex::ctx::cycles;
use crate::dex::ctx::index::{Hop, IndexV, OrderEdge, SpanIx};
use crate::dex::ctx::query as ctx_query;
use crate::lockctx::answer;
use crate::lockctx::answer::{AnswerV, BinderCallV, EdgeV, FrameV, HeldV, HolderV, LockInfoV, MayV, PointV, SiteV};
use crate::lockctx::ask;
use crate::lockctx::ask::Query;
use crate::lockctx::report;
use crate::sort;
use vstd::prelude::*;

verus! {

/// A path with its methods and files by name.
pub open spec fn told_path(v: IndexV, p: Option<Seq<Hop>>) -> Option<Seq<FrameV>> {
    match p {
        None => None,
        Some(hops) => Some(
            hops.map_values(
                |h: Hop|
                    FrameV {
                        method: v.methods[h.method as int].key,
                        file: v.files[v.methods[h.method as int].file as int],
                        acquire: h.acquire,
                        call: h.call,
                    },
            ),
        ),
    }
}

/// An edge with its locks, its method and its file by name.
pub open spec fn told_edge(v: IndexV, e: OrderEdge) -> EdgeV {
    EdgeV {
        from: v.locks[e.from as int],
        to: v.locks[e.to as int],
        count: e.count,
        dist: e.dist,
        method: v.methods[e.method as int].key,
        file: v.files[v.methods[e.method as int].file as int],
        line: e.line,
    }
}

proof fn lemma_witness(v: IndexV, m: u32, l: u32)
    ensures
        answer::witness_frames(v, m, l) == told_path(v, v.witness(m, l)),
{
    if let Some(p) = v.witness(m, l) {
        assert(answer::witness_frames(v, m, l)->0 =~= told_path(v, v.witness(m, l))->0);
    }
}

proof fn lemma_mays(
    v: IndexV,
    m: u32,
    may: Seq<(u32, u8)>,
    depth: u8,
    k: int,
    acc: Seq<MayV>,
    x: MayV,
)
    requires
        0 <= k,
    ensures
        answer::mays_from(v, m, may, depth, k, acc).contains(x) <==> acc.contains(x) || exists|i: int|
            k <= i < may.len() && (#[trigger] may[i]).1 <= depth && x == (MayV {
                lock: v.locks[may[i].0 as int],
                dist: may[i].1,
                path: told_path(v, v.witness(m, may[i].0)),
            }),
    decreases may.len() - k,
{
    if k < may.len() {
        let (l, d) = may[k];
        let y = MayV { lock: v.locks[l as int], dist: d, path: answer::witness_frames(v, m, l) };
        lemma_witness(v, m, l);
        if d <= depth {
            lemma_mays(v, m, may, depth, k + 1, acc.push(y), x);
            ctx_answers::lemma_pushed(acc, y, x);
        } else {
            lemma_mays(v, m, may, depth, k + 1, acc, x);
        }
    }
}

proof fn lemma_mays_near(v: IndexV, m: u32, may: Seq<(u32, u8)>, depth: u8, k: int, acc: Seq<MayV>)
    requires
        0 <= k,
        forall|i: int, j: int| 0 <= i < j < may.len() ==> (#[trigger] may[i]).1 <= (#[trigger] may[j]).1,
        forall|i: int, j: int| 0 <= i < j < acc.len() ==> (#[trigger] acc[i]).dist <= (#[trigger] acc[j]).dist,
        forall|i: int, j: int|
            0 <= i < acc.len() && k <= j < may.len() ==> (#[trigger] acc[i]).dist <= (#[trigger] may[j]).1,
    ensures
        forall|i: int, j: int|
            0 <= i < j < answer::mays_from(v, m, may, depth, k, acc).len() ==> (
            #[trigger] answer::mays_from(v, m, may, depth, k, acc)[i]).dist <= (
            #[trigger] answer::mays_from(v, m, may, depth, k, acc)[j]).dist,
    decreases may.len() - k,
{
    if k < may.len() {
        let (l, d) = may[k];
        let y = MayV { lock: v.locks[l as int], dist: d, path: answer::witness_frames(v, m, l) };
        if d <= depth {
            let next = acc.push(y);
            assert forall|i: int, j: int| 0 <= i < next.len() && k + 1 <= j < may.len() implies (
            #[trigger] next[i]).dist <= (#[trigger] may[j]).1 by {
                if i < acc.len() {
                    assert(next[i] == acc[i]);
                } else {
                    assert(may[k].1 <= may[j].1);
                }
            }
            assert forall|i: int, j: int| 0 <= i < j < next.len() implies (#[trigger] next[i]).dist
                <= (#[trigger] next[j]).dist by {
                if j == acc.len() {
                    assert(acc[i].dist <= may[k].1);
                }
            }
            lemma_mays_near(v, m, may, depth, k + 1, next);
        } else {
            lemma_mays_near(v, m, may, depth, k + 1, acc);
        }
    }
}

/// What is said of a span that covers the line: its lock by name, and where that was taken.
pub open spec fn holds(v: IndexV, m: u32, line: u32, s: SpanIx, x: HeldV) -> bool {
    &&& s.enter <= line < s.exit
    &&& x.lock == v.locks[s.lock as int]
    &&& x.acquired_at == ctx_query::taken_at(v.methods[m as int].spans, s.lock, line, 0)
}

/// What is said of a line of a method: the method and its file by name; exactly the locks of
/// its spans that cover the line; and exactly the locks of its row within the depth, each with
/// its distance and its witness, nearest first.
pub open spec fn tells_point(v: IndexV, m: u32, line: u32, depth: u8, p: PointV) -> bool {
    &&& p.method == v.methods[m as int].key
    &&& p.file == v.files[v.methods[m as int].file as int]
    &&& p.line == line
    &&& forall|x: HeldV| #[trigger]
        p.held.contains(x) <==> exists|i: int|
            0 <= i < v.methods[m as int].spans.len() && holds(
                v,
                m,
                line,
                #[trigger] v.methods[m as int].spans[i],
                x,
            )
    &&& forall|x: MayV| #[trigger]
        p.may_held.contains(x) <==> exists|e: (u32, u8)| #[trigger]
            v.row(m).contains(e) && e.1 <= depth && x == (MayV {
                lock: v.locks[e.0 as int],
                dist: e.1,
                path: told_path(v, v.witness(m, e.0)),
            })
    &&& forall|i: int, j: int|
        0 <= i < j < p.may_held.len() ==> (#[trigger] p.may_held[i]).dist <= (
        #[trigger] p.may_held[j]).dist
}

proof fn lemma_near_ranks()
    ensures
        sort::ranks(ctx_query::near_le()),
{
}

proof fn lemma_point(v: IndexV, m: u32, line: u32, depth: u8, held: Seq<u32>)
    requires
        ask::held_list(v, m, line, held),
    ensures
        tells_point(v, m, line, depth, answer::point_info(v, m, line, depth, held)),
{
    let p = answer::point_info(v, m, line, depth, held);
    let ss = v.methods[m as int].spans;
    assert forall|x: HeldV| #[trigger] p.held.contains(x) <==> exists|i: int|
        0 <= i < ss.len() && holds(v, m, line, #[trigger] ss[i], x) by {
        if p.held.contains(x) {
            let k = choose|k: int| 0 <= k < p.held.len() && p.held[k] == x;
            assert(held.contains(held[k]));
            let i = choose|i: int|
                0 <= i < ss.len() && (#[trigger] ss[i]).lock == held[k] && ctx_query::covers(
                    ss[i],
                    line,
                );
            assert(ss[i].enter <= line < ss[i].exit);
        }
        if exists|i: int|
            0 <= i < ss.len() && holds(v, m, line, #[trigger] ss[i], x) {
            let i = choose|i: int|
                0 <= i < ss.len() && holds(v, m, line, #[trigger] ss[i], x);
            assert(ctx_query::span_holds(ss, ss[i].lock, line));
            assert(held.contains(ss[i].lock));
            let k = choose|k: int| 0 <= k < held.len() && held[k] == ss[i].lock;
            assert(p.held[k] == x);
        }
    }
    let le = ctx_query::near_le();
    lemma_near_ranks();
    let may = sort::sorted(v.row(m), le);
    sort::lemma_sorted(v.row(m), le);
    assert forall|i: int, j: int| 0 <= i < j < may.len() implies (#[trigger] may[i]).1 <= (
    #[trigger] may[j]).1 by {
        assert(le(may[i], may[j]));
    }
    lemma_mays_near(v, m, may, depth, 0, Seq::empty());
    assert forall|x: MayV| #[trigger] p.may_held.contains(x) <==> exists|e: (u32, u8)| #[trigger]
        v.row(m).contains(e) && e.1 <= depth && x == (MayV {
            lock: v.locks[e.0 as int],
            dist: e.1,
            path: told_path(v, v.witness(m, e.0)),
        }) by {
        lemma_mays(v, m, may, depth, 0, Seq::empty(), x);
        if p.may_held.contains(x) {
            let i = choose|i: int|
                0 <= i < may.len() && (#[trigger] may[i]).1 <= depth && x == (MayV {
                    lock: v.locks[may[i].0 as int],
                    dist: may[i].1,
                    path: told_path(v, v.witness(m, may[i].0)),
                });
            assert(may.contains(may[i]));
            sort::lemma_sorted_contains(v.row(m), le, may[i]);
        }
        if exists|e: (u32, u8)| #[trigger]
            v.row(m).contains(e) && e.1 <= depth && x == (MayV {
                lock: v.locks[e.0 as int],
                dist: e.1,
                path: told_path(v, v.witness(m, e.0)),
            }) {
            let e = choose|e: (u32, u8)| #[trigger]
                v.row(m).contains(e) && e.1 <= depth && x == (MayV {
                    lock: v.locks[e.0 as int],
                    dist: e.1,
                    path: told_path(v, v.witness(m, e.0)),
                });
            sort::lemma_sorted_contains(v.row(m), le, e);
            let i = choose|i: int| 0 <= i < may.len() && may[i] == e;
            assert(may[i].1 <= depth);
        }
    }
}

/// A line is answered with a point for each method that covers it, at that line.
pub proof fn law_lines_are_answered_by_their_methods(
    v: IndexV,
    file: String,
    line: u32,
    depth: u8,
    r: AnswerV,
)
    requires
        answer::tells(v, Query::At { file, line }, depth, r),
    ensures
        r matches AnswerV::Points(ps) && ps.len() == v.located(file@, line).len() && forall|k: int|
            0 <= k < ps.len() ==> tells_point(
                v,
                v.located(file@, line)[k],
                line,
                depth,
                #[trigger] ps[k],
            ),
{
    let ms = v.located(file@, line);
    let held = choose|held: Seq<Seq<u32>>| #[trigger]
        report::held_lists(v, ms, report::asked(line), held, ms.len() as int) && r == AnswerV::Points(
            answer::point_infos(v, ms, report::asked(line), depth, held),
        );
    let ps = r->Points_0;
    assert forall|k: int| 0 <= k < ps.len() implies tells_point(v, ms[k], line, depth, #[trigger] ps[k]) by {
        assert(ask::held_list(v, ms[k], report::asked(line)(ms[k]), held[k]));
        lemma_point(v, ms[k], line, depth, held[k]);
    }
}

/// A needle is answered with a point for each method whose key holds it, at the method's
/// first line.
pub proof fn law_methods_are_answered_at_their_first_line(
    v: IndexV,
    needle: String,
    depth: u8,
    r: AnswerV,
)
    requires
        answer::tells(v, Query::Method(needle), depth, r),
    ensures
        ({
            let ms = ctx_query::keyed(v.methods, needle@, 0, Seq::empty());
            r matches AnswerV::Points(ps) && ps.len() == ms.len() && forall|k: int|
                0 <= k < ps.len() ==> tells_point(
                    v,
                    ms[k],
                    v.methods[ms[k] as int].line_lo,
                    depth,
                    #[trigger] ps[k],
                )
        }),
{
    let ms = ctx_query::keyed(v.methods, needle@, 0, Seq::empty());
    let at = report::first_line(v);
    let held = choose|held: Seq<Seq<u32>>| #[trigger]
        report::held_lists(v, ms, at, held, ms.len() as int) && r == AnswerV::Points(
            answer::point_infos(v, ms, at, depth, held),
        );
    let ps = r->Points_0;
    assert forall|k: int| 0 <= k < ps.len() implies tells_point(
        v,
        ms[k],
        v.methods[ms[k] as int].line_lo,
        depth,
        #[trigger] ps[k],
    ) by {
        assert(ask::held_list(v, ms[k], at(ms[k]), held[k]));
        lemma_point(v, ms[k], v.methods[ms[k] as int].line_lo, depth, held[k]);
    }
}

proof fn lemma_holders(
    v: IndexV,
    hs: Seq<(u32, u8)>,
    depth: u8,
    k: int,
    acc: Seq<HolderV>,
    x: HolderV,
)
    requires
        0 <= k,
    ensures
        answer::holders_from(v, hs, depth, k, acc).contains(x) <==> acc.contains(x) || exists|i: int|
            k <= i < hs.len() && (#[trigger] hs[i]).1 <= depth && x == (HolderV {
                method: v.methods[hs[i].0 as int].key,
                dist: hs[i].1,
            }),
    decreases hs.len() - k,
{
    if k < hs.len() {
        let y = HolderV { method: v.methods[hs[k].0 as int].key, dist: hs[k].1 };
        if hs[k].1 <= depth {
            lemma_holders(v, hs, depth, k + 1, acc.push(y), x);
            ctx_answers::lemma_pushed(acc, y, x);
        } else {
            lemma_holders(v, hs, depth, k + 1, acc, x);
        }
    }
}

/// What is said of a lock: its name; exactly the places at which a span takes it; exactly its
/// holders within the depth; and exactly the edges that leave it, and those that arrive.
pub open spec fn tells_lock(v: IndexV, l: u32, depth: u8, p: LockInfoV) -> bool {
    &&& p.lock == v.locks[l as int]
    &&& forall|x: SiteV| #[trigger]
        p.sites.contains(x) <==> exists|m: u32, i: int|
            {
                &&& m < v.methods.len()
                &&& 0 <= i < v.methods[m as int].spans.len()
                &&& (#[trigger] v.methods[m as int].spans[i]).lock == l
                &&& x == SiteV {
                    method: v.methods[m as int].key,
                    file: v.files[v.methods[m as int].file as int],
                    line: v.methods[m as int].spans[i].enter,
                }
            }
    &&& forall|x: HolderV| #[trigger]
        p.holders.contains(x) <==> exists|e: (u32, u8)| #[trigger]
            v.holders(l).contains(e) && e.1 <= depth && x == (HolderV {
                method: v.methods[e.0 as int].key,
                dist: e.1,
            })
    &&& forall|x: EdgeV| #[trigger]
        p.held_while_acquiring.contains(x) <==> exists|e: OrderEdge| #[trigger]
            v.order.contains(e) && e.from == l && x == told_edge(v, e)
    &&& forall|x: EdgeV| #[trigger]
        p.acquired_while_holding.contains(x) <==> exists|e: OrderEdge| #[trigger]
            v.order.contains(e) && e.to == l && x == told_edge(v, e)
}

proof fn lemma_sites(v: IndexV, l: u32, depth: u8, sites: Seq<(u32, u32)>, x: SiteV)
    requires
        ask::site_list(v, l, sites),
    ensures
        answer::lock_info(v, l, depth, sites).sites.contains(x) <==> exists|m: u32, i: int|
            {
                &&& m < v.methods.len()
                &&& 0 <= i < v.methods[m as int].spans.len()
                &&& (#[trigger] v.methods[m as int].spans[i]).lock == l
                &&& x == SiteV {
                    method: v.methods[m as int].key,
                    file: v.files[v.methods[m as int].file as int],
                    line: v.methods[m as int].spans[i].enter,
                }
            },
{
    let p = answer::lock_info(v, l, depth, sites);
    if p.sites.contains(x) {
        let k = choose|k: int| 0 <= k < p.sites.len() && p.sites[k] == x;
        let (m, line) = sites[k];
        assert(sites[k] == (m, line));
        assert(sites.contains((m, line)));
        let ss = v.methods[m as int].spans;
        let i = choose|i: int| 0 <= i < ss.len() && (#[trigger] ss[i]).lock == l && ss[i].enter == line;
        assert(v.methods[m as int].spans[i].lock == l);
    }
    if exists|m: u32, i: int|
        {
            &&& m < v.methods.len()
            &&& 0 <= i < v.methods[m as int].spans.len()
            &&& (#[trigger] v.methods[m as int].spans[i]).lock == l
            &&& x == SiteV {
                method: v.methods[m as int].key,
                file: v.files[v.methods[m as int].file as int],
                line: v.methods[m as int].spans[i].enter,
            }
        } {
        let (m, i) = choose|m: u32, i: int|
            {
                &&& m < v.methods.len()
                &&& 0 <= i < v.methods[m as int].spans.len()
                &&& (#[trigger] v.methods[m as int].spans[i]).lock == l
                &&& x == SiteV {
                    method: v.methods[m as int].key,
                    file: v.files[v.methods[m as int].file as int],
                    line: v.methods[m as int].spans[i].enter,
                }
            };
        let line = v.methods[m as int].spans[i].enter;
        assert(ctx_query::span_takes(v.methods[m as int].spans, l, line));
        assert(sites.contains((m, line)));
        let k = choose|k: int| 0 <= k < sites.len() && sites[k] == (m, line);
        assert(p.sites[k] == x);
    }
}

proof fn lemma_edges(v: IndexV, p: spec_fn(OrderEdge) -> bool, x: EdgeV)
    ensures
        answer::edge_infos(v, v.order.filter(p)).contains(x) <==> exists|e: OrderEdge| #[trigger]
            v.order.contains(e) && p(e) && x == told_edge(v, e),
{
    let es = v.order.filter(p);
    let r = answer::edge_infos(v, es);
    if r.contains(x) {
        let k = choose|k: int| 0 <= k < r.len() && r[k] == x;
        assert(es.contains(es[k]));
        ctx_answers::lemma_filtered(v.order, p, es[k]);
    }
    if exists|e: OrderEdge| #[trigger] v.order.contains(e) && p(e) && x == told_edge(v, e) {
        let e = choose|e: OrderEdge| #[trigger] v.order.contains(e) && p(e) && x == told_edge(v, e);
        ctx_answers::lemma_filtered(v.order, p, e);
        let k = choose|k: int| 0 <= k < es.len() && es[k] == e;
        assert(r[k] == x);
    }
}

proof fn lemma_lock(v: IndexV, l: u32, depth: u8, sites: Seq<(u32, u32)>)
    requires
        ask::site_list(v, l, sites),
    ensures
        tells_lock(v, l, depth, answer::lock_info(v, l, depth, sites)),
{
    let p = answer::lock_info(v, l, depth, sites);
    let hs = v.holders(l);
    assert forall|x: SiteV| #[trigger] p.sites.contains(x) <==> exists|m: u32, i: int|
        {
            &&& m < v.methods.len()
            &&& 0 <= i < v.methods[m as int].spans.len()
            &&& (#[trigger] v.methods[m as int].spans[i]).lock == l
            &&& x == SiteV {
                method: v.methods[m as int].key,
                file: v.files[v.methods[m as int].file as int],
                line: v.methods[m as int].spans[i].enter,
            }
        } by {
        lemma_sites(v, l, depth, sites, x);
    }
    assert forall|x: HolderV| #[trigger] p.holders.contains(x) <==> exists|e: (u32, u8)| #[trigger]
        hs.contains(e) && e.1 <= depth && x == (HolderV {
            method: v.methods[e.0 as int].key,
            dist: e.1,
        }) by {
        lemma_holders(v, hs, depth, 0, Seq::empty(), x);
        if p.holders.contains(x) {
            let i = choose|i: int|
                0 <= i < hs.len() && (#[trigger] hs[i]).1 <= depth && x == (HolderV {
                    method: v.methods[hs[i].0 as int].key,
                    dist: hs[i].1,
                });
            assert(hs.contains(hs[i]));
        }
        if exists|e: (u32, u8)| #[trigger]
            hs.contains(e) && e.1 <= depth && x == (HolderV {
                method: v.methods[e.0 as int].key,
                dist: e.1,
            }) {
            let e = choose|e: (u32, u8)| #[trigger]
                hs.contains(e) && e.1 <= depth && x == (HolderV {
                    method: v.methods[e.0 as int].key,
                    dist: e.1,
                });
            let i = choose|i: int| 0 <= i < hs.len() && hs[i] == e;
            assert(hs[i].1 <= depth);
        }
    }
    assert forall|x: EdgeV| #[trigger] p.held_while_acquiring.contains(x) <==> exists|e: OrderEdge| #[trigger]
        v.order.contains(e) && e.from == l && x == told_edge(v, e) by {
        lemma_edges(v, ctx_query::leaves(l), x);
    }
    assert forall|x: EdgeV| #[trigger] p.acquired_while_holding.contains(x) <==> exists|
        e: OrderEdge,
    | #[trigger]
        v.order.contains(e) && e.to == l && x == told_edge(v, e) by {
        lemma_edges(v, ctx_query::arrives(l), x);
    }
}

/// A needle is answered with what is known of each lock whose name holds it.
pub proof fn law_locks_are_answered_with_what_is_known(
    v: IndexV,
    needle: String,
    depth: u8,
    r: AnswerV,
)
    requires
        answer::tells(v, Query::Lock(needle), depth, r),
    ensures
        ({
            let ls = ctx_query::named(v.locks, needle@, 0, Seq::empty());
            r matches AnswerV::Locks(ps) && ps.len() == ls.len() && forall|k: int|
                0 <= k < ps.len() ==> tells_lock(v, ls[k], depth, #[trigger] ps[k])
        }),
{
    let ls = ctx_query::named(v.locks, needle@, 0, Seq::empty());
    let sites = choose|sites: Seq<Seq<(u32, u32)>>| #[trigger]
        report::site_lists(v, ls, sites, ls.len() as int) && r == AnswerV::Locks(
            Seq::new(ls.len(), |k: int| answer::lock_info(v, ls[k], depth, sites[k])),
        );
    let ps = r->Locks_0;
    assert forall|k: int| 0 <= k < ps.len() implies tells_lock(v, ls[k], depth, #[trigger] ps[k]) by {
        assert(ask::site_list(v, ls[k], sites[k]));
        lemma_lock(v, ls[k], depth, sites[k]);
    }
}

/// The cycles are answered with every inversion, both of its edges and its gate by name, and
/// with the names of the locks of each group.
pub proof fn law_cycles_are_answered_by_name(v: IndexV, depth: u8, r: AnswerV) -> (cyc: Seq<Seq<u32>>)
    requires
        answer::tells(v, Query::Cycles, depth, r),
    ensures
        cycles::are_cycles(v, cyc),
        r matches AnswerV::Cycles { inversions, groups } && {
            let inv = v.inversions();
            &&& inversions.len() == inv.len()
            &&& forall|i: int|
                0 <= i < inv.len() ==> (#[trigger] inversions[i]).a == told_edge(v, inv[i].0)
                    && inversions[i].b == told_edge(v, inv[i].1) && (inversions[i].gate is Some
                    <==> inv[i].2 is Some) && (inv[i].2 matches Some(g) ==> inversions[i].gate == Some(
                    v.locks[g as int],
                ))
            &&& groups == cyc.map_values(|c: Seq<u32>| c.map_values(|l: u32| v.locks[l as int]))
        },
{
    let cyc = choose|cyc: Seq<Seq<u32>>| #[trigger]
        cycles::are_cycles(v, cyc) && r == (AnswerV::Cycles {
            inversions: Seq::new(
                v.inversions().len(),
                |i: int| answer::inversion_info(v, v.inversions()[i]),
            ),
            groups: Seq::new(cyc.len(), |i: int| answer::group_info(v, cyc[i])),
        });
    let want = cyc.map_values(|c: Seq<u32>| c.map_values(|l: u32| v.locks[l as int]));
    match r {
        AnswerV::Cycles { inversions, groups } => {
            assert forall|i: int| 0 <= i < cyc.len() implies #[trigger] groups[i] == want[i] by {
                assert(groups[i] =~= want[i]);
            }
            assert(groups =~= want);
        },
        _ => {},
    }
    cyc
}

/// The binder calls are answered each with its caller, its place, its target, the lock and the
/// distance, and with the way from the holder where that is not the caller itself.
pub proof fn law_binder_calls_are_answered_by_name(v: IndexV, depth: u8, r: AnswerV)
    requires
        answer::tells(v, Query::Binder, depth, r),
    ensures
        r matches AnswerV::Binder(bs) && bs.len() == v.binder_sites(depth).len() && forall|i: int|
            0 <= i < bs.len() ==> {
                let s = v.binder_sites(depth)[i];
                let c = v.calls[s.0 as int];
                #[trigger] bs[i] == BinderCallV {
                    caller: v.methods[c.caller as int].key,
                    file: v.files[v.methods[c.caller as int].file as int],
                    line: c.line,
                    callee: v.methods[s.1 as int].key,
                    lock: v.locks[s.2 as int],
                    dist: s.3,
                    path: if s.3 == 0 {
                        None
                    } else {
                        told_path(v, v.witness(c.caller, s.2))
                    },
                }
            },
{
    let bs = r->Binder_0;
    assert forall|i: int| 0 <= i < bs.len() implies {
        let s = v.binder_sites(depth)[i];
        let c = v.calls[s.0 as int];
        #[trigger] bs[i] == BinderCallV {
            caller: v.methods[c.caller as int].key,
            file: v.files[v.methods[c.caller as int].file as int],
            line: c.line,
            callee: v.methods[s.1 as int].key,
            lock: v.locks[s.2 as int],
            dist: s.3,
            path: if s.3 == 0 {
                None
            } else {
                told_path(v, v.witness(c.caller, s.2))
            },
        }
    } by {
        let s = v.binder_sites(depth)[i];
        lemma_witness(v, v.calls[s.0 as int].caller, s.2);
    }
}

/// A short name is the last two parts of a dotted one; one of fewer parts stays.
pub proof fn law_short_names_keep_two_parts(pkg: Seq<char>, owner: Seq<char>, member: Seq<char>)
    requires
        !owner.contains('.'),
        !member.contains('.'),
    ensures
        ask::short_name(pkg + seq!['.'] + owner + seq!['.'] + member) == owner + seq!['.'] + member,
        ask::short_name(owner + seq!['.'] + member) == owner + seq!['.'] + member,
        ask::short_name(member) == member,
{
    let dot = seq!['.'];
    let a = pkg + dot + owner;
    crate::dex::named::lemma_last_index(a, '.', member);
    let s = a + dot + member;
    assert(s =~= pkg + dot + owner + dot + member);
    assert(s.take(a.len() as int) =~= a);
    crate::dex::named::lemma_last_index(pkg, '.', owner);
    assert(s.skip((pkg.len() + 1) as int) =~= owner + dot + member);
    crate::dex::named::lemma_last_index(owner, '.', member);
    let t = owner + dot + member;
    assert(t.take(owner.len() as int) =~= owner);
    crate::dex::named::lemma_last_index(pkg, '.', member);
}

} // verus!

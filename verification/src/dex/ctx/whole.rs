//! Building the index from a program.

use crate::dex::binder;
use crate::dex::ctx::assemble;
use crate::dex::ctx::assemble::{BoardV, Link, LinkV, Rec, RecV, SpanV};
use crate::dex::ctx::index;
use crate::dex::ctx::index::{
    Call, CallIx, Index, IndexV, MethodIx, MethodRec, Options, OrderEdge, Span, SpanIx,
};
use crate::dex::ctx::order;
use crate::dex::ctx::order::{Edge, EdgeV};
use crate::dex::ctx::reach;
use crate::dex::model::{Dex, DexV, Method, MethodV};
use crate::text;
use crate::values;
use vstd::prelude::*;

verus! {

/// The numbers as they are stored.
pub open spec fn narrow(s: Seq<usize>) -> Seq<u32> {
    Seq::new(s.len(), |i: int| s[i] as u32)
}

/// A span as it is stored.
pub open spec fn span_ix(s: SpanV) -> SpanIx {
    SpanIx { lock: s.lock as u32, enter: s.enter, exit: s.exit, held: narrow(s.held) }
}

/// A call site as it is stored.
pub open spec fn call_ix(c: LinkV) -> CallIx {
    CallIx {
        caller: c.caller as u32,
        line: c.line,
        held: narrow(c.held),
        targets: narrow(c.targets),
    }
}

/// A method as it is stored.
pub open spec fn method_ix(m: RecV) -> MethodIx {
    MethodIx {
        key: m.key,
        file: m.file as u32,
        line_lo: m.line_lo,
        line_hi: m.line_hi,
        spans: Seq::new(m.spans.len(), |i: int| span_ix(m.spans[i])),
        calls: (m.calls.0 as u32, m.calls.1 as u32),
    }
}

/// An edge as it is stored.
pub open spec fn edge_ix(e: EdgeV) -> OrderEdge {
    OrderEdge {
        from: e.from as u32,
        to: e.to as u32,
        count: e.count,
        method: e.method as u32,
        line: e.line,
        dist: e.dist,
    }
}

/// A call of the method is a binder call: its body transacts, or it is an operation that
/// an AIDL interface declares.
pub open spec fn is_remote(m: MethodV, ifaces: Seq<Seq<char>>) -> bool {
    binder::has_transact(m) || m.insns.len() == 0 && ifaces.contains(m.class) && !(text::begins(
        m.name,
        "<"@,
    ) || m.name == "asBinder"@ || m.name == "getInterfaceDescriptor"@)
}

/// The methods from the `k`th on whose call is a binder call, behind `acc`.
pub open spec fn remote_from(
    ms: Seq<MethodV>,
    ifaces: Seq<Seq<char>>,
    k: int,
    acc: Seq<u32>,
) -> Seq<u32>
    decreases ms.len() - k,
{
    if k >= ms.len() {
        acc
    } else {
        remote_from(
            ms,
            ifaces,
            k + 1,
            if is_remote(ms[k], ifaces) {
                acc.push(k as u32)
            } else {
                acc
            },
        )
    }
}

/// The rows of distances.
pub open spec fn rows_of(d: DexV, opts: Options) -> Seq<Seq<(usize, u8)>> {
    let b = assemble::board(d, opts.cha_cap);
    order::rows(b.calls, opts.max_depth, d.methods().len(), b.locks.len())
}

/// The call sites that reach each method.
pub open spec fn callers_in(d: DexV, opts: Options) -> Seq<Seq<usize>> {
    order::callers(assemble::board(d, opts.cha_cap).calls, d.methods().len())
}

/// The index of a program.
pub open spec fn built(d: DexV, opts: Options) -> IndexV {
    let b = assemble::board(d, opts.cha_cap);
    let rs = rows_of(d, opts);
    let may = order::flat(rs, 0, Seq::empty());
    let cs = callers_in(d, opts);
    let edges = order::order(b.recs, rs, opts.order_depth, b.locks.len());
    IndexV {
        methods: Seq::new(b.recs.len(), |i: int| method_ix(b.recs[i])),
        locks: b.locks,
        files: b.files,
        calls: Seq::new(b.calls.len(), |i: int| call_ix(b.calls[i])),
        callers: narrow(order::flat(cs, 0, Seq::empty())),
        caller_off: narrow(order::offsets(cs, 0, 0, seq![0usize])),
        may_off: narrow(order::offsets(rs, 0, 0, seq![0usize])),
        may_lock: Seq::new(may.len(), |i: int| may[i].0 as u32),
        may_dist: Seq::new(may.len(), |i: int| may[i].1),
        order: Seq::new(edges.len(), |i: int| edge_ix(edges[i])),
        binder: remote_from(
            d.methods(),
            binder::aidl_from(d.classes, 0, Seq::empty()),
            0,
            Seq::empty(),
        ),
    }
}

/// Every table of the program's index is small enough for its numbers.
pub open spec fn fits(d: DexV, opts: Options) -> bool {
    let b = assemble::board(d, opts.cha_cap);
    &&& b.recs.len() <= u32::MAX && b.locks.len() <= u32::MAX && b.files.len() <= u32::MAX
    &&& b.calls.len() <= u32::MAX
    &&& order::flat(callers_in(d, opts), 0, Seq::empty()).len() <= u32::MAX
    &&& order::flat(rows_of(d, opts), 0, Seq::empty()).len() <= u32::MAX
}

fn narrowed(s: &Vec<usize>) -> (r: Vec<u32>)
    ensures
        r@ == narrow(s@),
{
    let mut out: Vec<u32> = Vec::new();
    let mut k: usize = 0;
    while k < s.len()
        invariant
            k <= s@.len(),
            out@ == narrow(s@.take(k as int)),
        decreases s@.len() - k,
    {
        out.push(
            #[verifier::truncate]
            (s[k] as u32),
        );
        k += 1;
        proof {
            assert(out@ =~= narrow(s@.take(k as int)));
        }
    }
    proof {
        assert(s@.take(k as int) =~= s@);
    }
    out
}

fn stored_method(m: &Rec) -> (r: MethodRec)
    ensures
        r.deep_view() == method_ix(m.deep_view()),
{
    let ghost mv = m.deep_view();
    let mut spans: Vec<Span> = values::empty();
    let mut k: usize = 0;
    while k < m.spans.len()
        invariant
            k <= m.spans@.len(),
            mv == m.deep_view(),
            spans.deep_view() == Seq::new(k as nat, |i: int| span_ix(mv.spans[i])),
        decreases m.spans@.len() - k,
    {
        let s = &m.spans[k];
        proof {
            assert(mv.spans[k as int] == s.deep_view());
        }
        let held = narrowed(&s.held);
        values::push(
            &mut spans,
            Span {
                lock: #[verifier::truncate]
                (s.lock as u32),
                enter: s.enter,
                exit: s.exit,
                held,
            },
        );
        k += 1;
        proof {
            assert(spans.deep_view() =~= Seq::new(k as nat, |i: int| span_ix(mv.spans[i])));
        }
    }
    MethodRec {
        key: m.key.clone(),
        file: #[verifier::truncate]
        (m.file as u32),
        line_lo: m.line_lo,
        line_hi: m.line_hi,
        spans,
        calls: (
            #[verifier::truncate]
            (m.calls.0 as u32),
            #[verifier::truncate]
            (m.calls.1 as u32),
        ),
    }
}

fn stored_methods(ms: &Vec<Rec>) -> (r: Vec<MethodRec>)
    ensures
        r.deep_view() == Seq::new(ms@.len(), |i: int| method_ix(ms.deep_view()[i])),
{
    let ghost mv = ms.deep_view();
    let mut out: Vec<MethodRec> = values::empty();
    let mut k: usize = 0;
    while k < ms.len()
        invariant
            k <= ms@.len(),
            mv == ms.deep_view(),
            out.deep_view() == Seq::new(k as nat, |i: int| method_ix(mv[i])),
        decreases ms@.len() - k,
    {
        proof {
            assert(mv[k as int] == ms@[k as int].deep_view());
        }
        let m = stored_method(&ms[k]);
        values::push(&mut out, m);
        k += 1;
        proof {
            assert(out.deep_view() =~= Seq::new(k as nat, |i: int| method_ix(mv[i])));
        }
    }
    out
}

fn stored_calls(cs: &Vec<Link>) -> (r: Vec<Call>)
    ensures
        r.deep_view() == Seq::new(cs@.len(), |i: int| call_ix(cs.deep_view()[i])),
{
    let ghost cv = cs.deep_view();
    let mut out: Vec<Call> = values::empty();
    let mut k: usize = 0;
    while k < cs.len()
        invariant
            k <= cs@.len(),
            cv == cs.deep_view(),
            out.deep_view() == Seq::new(k as nat, |i: int| call_ix(cv[i])),
        decreases cs@.len() - k,
    {
        let c = &cs[k];
        proof {
            assert(cv[k as int] == c.deep_view());
        }
        let held = narrowed(&c.held);
        let targets = narrowed(&c.targets);
        values::push(
            &mut out,
            Call {
                caller: #[verifier::truncate]
                (c.caller as u32),
                line: c.line,
                held,
                targets,
            },
        );
        k += 1;
        proof {
            assert(out.deep_view() =~= Seq::new(k as nat, |i: int| call_ix(cv[i])));
        }
    }
    out
}

fn stored_edges(es: &Vec<Edge>) -> (r: Vec<OrderEdge>)
    ensures
        r@ == Seq::new(es@.len(), |i: int| edge_ix(es.deep_view()[i])),
{
    let ghost ev = es.deep_view();
    let mut out: Vec<OrderEdge> = Vec::new();
    let mut k: usize = 0;
    while k < es.len()
        invariant
            k <= es@.len(),
            ev == es.deep_view(),
            out@ == Seq::new(k as nat, |i: int| edge_ix(ev[i])),
        decreases es@.len() - k,
    {
        let e = &es[k];
        proof {
            assert(ev[k as int] == e.deep_view());
        }
        out.push(
            OrderEdge {
                from: #[verifier::truncate]
                (e.from as u32),
                to: #[verifier::truncate]
                (e.to as u32),
                count: e.count,
                method: #[verifier::truncate]
                (e.method as u32),
                line: e.line,
                dist: e.dist,
            },
        );
        k += 1;
        proof {
            assert(out@ =~= Seq::new(k as nat, |i: int| edge_ix(ev[i])));
        }
    }
    out
}

fn stored_may(may: &Vec<(usize, u8)>) -> (r: (Vec<u32>, Vec<u8>))
    ensures
        r.0@ == Seq::new(may@.len(), |i: int| may@[i].0 as u32),
        r.1@ == Seq::new(may@.len(), |i: int| may@[i].1),
{
    let mut locks: Vec<u32> = Vec::new();
    let mut dists: Vec<u8> = Vec::new();
    let mut k: usize = 0;
    while k < may.len()
        invariant
            k <= may@.len(),
            locks@ == Seq::new(k as nat, |i: int| may@[i].0 as u32),
            dists@ == Seq::new(k as nat, |i: int| may@[i].1),
        decreases may@.len() - k,
    {
        let (l, d) = may[k];
        locks.push(
            #[verifier::truncate]
            (l as u32),
        );
        dists.push(d);
        k += 1;
        proof {
            assert(locks@ =~= Seq::new(k as nat, |i: int| may@[i].0 as u32));
            assert(dists@ =~= Seq::new(k as nat, |i: int| may@[i].1));
        }
    }
    (locks, dists)
}

fn find_remote(dex: &Dex, ms: &Vec<&Method>) -> (r: Vec<u32>)
    requires
        ms.deep_view() == dex.deep_view().methods(),
    ensures
        r@ == remote_from(
            ms.deep_view(),
            binder::aidl_from(dex.deep_view().classes, 0, Seq::empty()),
            0,
            Seq::empty(),
        ),
        ms@.len() <= u32::MAX ==> index::all_below(r@, ms@.len() as int),
{
    let ghost mv = ms.deep_view();
    let ifaces = binder::binder_interfaces(dex);
    let mut out: Vec<u32> = Vec::new();
    let mut k: usize = 0;
    while k < ms.len()
        invariant
            k <= ms@.len(),
            mv == ms.deep_view(),
            ifaces.wf(),
            remote_from(mv, ifaces@, 0, Seq::empty()) == remote_from(
                mv,
                ifaces@,
                k as int,
                out@,
            ),
            ms@.len() <= u32::MAX ==> index::all_below(out@, k as int),
        decreases ms@.len() - k,
    {
        let m: &Method = ms[k];
        proof {
            assert(mv[k as int] == m.deep_view());
        }
        let operation = m.insns.len() == 0 && ifaces.contains(m.class.as_str()) && !(
        text::starts_with(m.name.as_str(), "<") || text::str_eq(m.name.as_str(), "asBinder")
            || text::str_eq(m.name.as_str(), "getInterfaceDescriptor"));
        if binder::does_transact(m) || operation {
            out.push(
                #[verifier::truncate]
                (k as u32),
            );
        }
        k += 1;
    }
    out
}

/// The stored numbers of a consistent board that fits are consistent.
proof fn lemma_stored(b: BoardV, methods: int)
    requires
        assemble::board_ok(b, methods),
        methods <= u32::MAX,
        b.locks.len() <= u32::MAX,
        b.files.len() <= u32::MAX,
        b.calls.len() <= u32::MAX,
    ensures
        forall|i: int|
            0 <= i < b.recs.len() ==> index::method_in(
                #[trigger] method_ix(b.recs[i]),
                b.files.len() as int,
                b.locks.len() as int,
                b.calls.len() as int,
            ),
        forall|i: int|
            0 <= i < b.calls.len() ==> index::call_in(
                #[trigger] call_ix(b.calls[i]),
                methods,
                b.locks.len() as int,
            ),
{
    let locks = b.locks.len() as int;
    assert forall|i: int| 0 <= i < b.recs.len() implies index::method_in(
        #[trigger] method_ix(b.recs[i]),
        b.files.len() as int,
        locks,
        b.calls.len() as int,
    ) by {
        let m = b.recs[i];
        assert(assemble::rec_ok(m, b.files.len() as int, locks, b.calls.len() as int));
        assert forall|j: int| 0 <= j < m.spans.len() implies index::span_in(
            #[trigger] method_ix(m).spans[j],
            locks,
        ) by {
            assert(assemble::span_ok(m.spans[j], locks));
            let s = m.spans[j];
            assert forall|h: int| 0 <= h < s.held.len() implies #[trigger] narrow(s.held)[h]
                < locks by {
                assert(s.held[h] < locks);
            }
        }
    }
    assert forall|i: int| 0 <= i < b.calls.len() implies index::call_in(
        #[trigger] call_ix(b.calls[i]),
        methods,
        locks,
    ) by {
        let c = b.calls[i];
        assert(assemble::link_ok(c, methods, locks));
        assert forall|h: int| 0 <= h < c.held.len() implies #[trigger] narrow(c.held)[h] < locks by {
            assert(c.held[h] < locks);
        }
        assert forall|h: int| 0 <= h < c.targets.len() implies #[trigger] narrow(c.targets)[h]
            < methods by {
            assert(c.targets[h] < methods);
        }
    }
}

proof fn lemma_flat_all<A>(
    lists: Seq<Seq<A>>,
    k: int,
    acc: Seq<A>,
    p: spec_fn(A) -> bool,
)
    requires
        0 <= k,
        forall|i: int, j: int|
            0 <= i < lists.len() && 0 <= j < lists[i].len() ==> p(#[trigger] lists[i][j]),
        forall|j: int| 0 <= j < acc.len() ==> p(#[trigger] acc[j]),
    ensures
        forall|j: int|
            0 <= j < order::flat(lists, k, acc).len() ==> p(#[trigger] order::flat(lists, k, acc)[j]),
    decreases lists.len() - k,
{
    if k < lists.len() {
        let next = acc + lists[k];
        assert forall|j: int| 0 <= j < next.len() implies p(#[trigger] next[j]) by {
            if j >= acc.len() {
                assert(p(lists[k][j - acc.len()]));
            }
        }
        lemma_flat_all(lists, k + 1, next, p);
        assert(order::flat(lists, k, acc) == order::flat(lists, k + 1, next));
    }
}

/// Build the index of a program.
pub fn build(dex: &Dex, opts: &Options) -> (r: Index)
    ensures
        r.deep_view() == built(dex.deep_view(), *opts),
        r.deep_view().methods.len() == dex.deep_view().methods().len(),
        fits(dex.deep_view(), *opts) ==> r.deep_view().wf(),
{
    let ghost d = dex.deep_view();
    let ghost fit = fits(d, *opts);
    let ms = dex.methods();
    let n = ms.len();
    let b = assemble::assemble(dex, &ms, opts.cha_cap);
    let ghost bv = b.deep_view();
    let nlocks = b.locks.len();
    let cs = order::find_callers(&b.calls, n, Ghost(nlocks as int));
    let ghost cv = cs.deep_view();
    let (callers, caller_off) = order::flatten(cs);
    let rs = reach::distances(&b.calls, n, opts.max_depth, Ghost(nlocks as int));
    let ghost rows = reach::row_views(&rs);
    proof {
        order::lemma_rows(bv.calls, opts.max_depth, n as nat, nlocks as nat, rows);
        assert(rows == rows_of(d, *opts));
        assert forall|m: int| 0 <= m < rows.len() implies #[trigger] rs.deep_view()[m] == rows[m] by {
            assert(rs@[m].deep_view() =~= rs@[m]@);
        }
        assert(rs.deep_view() =~= rows);
        assert forall|m: int, i: int|
            0 <= m < rs@.len() && 0 <= i < rs@[m]@.len() implies (#[trigger] rs@[m]@[i]).0
            < nlocks by {
            assert(rows[m][i].0 < nlocks);
        }
    }
    let edges = order::find_order(
        &b.recs,
        &rs,
        opts.order_depth,
        nlocks,
        Ghost(bv.files.len() as int),
        Ghost(bv.calls.len() as int),
    );
    let ghost ev = edges.deep_view();
    let (may, may_off) = order::flatten(rs);
    let binder = find_remote(dex, &ms);
    let (may_lock, may_dist) = stored_may(&may);
    let methods = stored_methods(&b.recs);
    let calls = stored_calls(&b.calls);
    let edges = stored_edges(&edges);
    let callers_stored = narrowed(&callers);
    let caller_off_stored = narrowed(&caller_off);
    let may_off_stored = narrowed(&may_off);
    let r = Index {
        methods,
        locks: b.locks.into_list(),
        files: b.files.into_list(),
        calls,
        callers: callers_stored,
        caller_off: caller_off_stored,
        may_off: may_off_stored,
        may_lock,
        may_dist,
        order: edges,
        binder,
    };
    proof {
        assert(callers.deep_view() =~= callers@);
        assert(may.deep_view() =~= may@);
        let v = r.deep_view();
        assert(v =~= built(d, *opts));
        if fit {
            lemma_stored(bv, n as int);
            assert forall|i: int| 0 <= i < v.methods.len() implies index::method_in(
                #[trigger] v.methods[i],
                v.files.len() as int,
                v.locks.len() as int,
                v.calls.len() as int,
            ) by {
                assert(v.methods[i] == method_ix(bv.recs[i]));
            }
            assert forall|i: int| 0 <= i < v.calls.len() implies index::call_in(
                #[trigger] v.calls[i],
                n as int,
                nlocks as int,
            ) by {
                assert(v.calls[i] == call_ix(bv.calls[i]));
            }
            let below_calls = |x: usize| x < bv.calls.len();
            assert forall|i: int, j: int| 0 <= i < cv.len() && 0 <= j < cv[i].len() implies
                below_calls(#[trigger] cv[i][j]) by {
                assert(cs@[i]@[j] < bv.calls.len());
            }
            lemma_flat_all(cv, 0, Seq::empty(), below_calls);
            assert(index::all_below(v.callers, bv.calls.len() as int)) by {
                assert forall|i: int| 0 <= i < v.callers.len() implies #[trigger] v.callers[i]
                    < bv.calls.len() by {
                    assert(below_calls(order::flat(cv, 0, Seq::empty())[i]));
                }
            }
            let below_locks = |x: (usize, u8)| x.0 < nlocks;
            lemma_flat_all(rows, 0, Seq::empty(), below_locks);
            assert(index::all_below(v.may_lock, nlocks as int)) by {
                assert forall|i: int| 0 <= i < v.may_lock.len() implies #[trigger] v.may_lock[i]
                    < nlocks by {
                    assert(below_locks(order::flat(rows, 0, Seq::empty())[i]));
                }
            }
            assert(index::cuts(v.caller_off, n as int, v.callers.len() as int));
            assert(index::cuts(v.may_off, n as int, v.may_lock.len() as int));
            assert forall|i: int| 0 <= i < v.order.len() implies index::edge_in(
                #[trigger] v.order[i],
                n as int,
                nlocks as int,
            ) by {
                assert(order::edge_ok(ev[i], n as int, nlocks as int));
                assert(v.order[i] == edge_ix(ev[i]));
            }
            assert(v.wf());
        }
    }
    r
}

} // verus!

//! The answer as data, for machines.

use crate::dex::ctx::cycles;
use crate::dex::ctx::index;
use crate::dex::ctx::index::{Hop, Index, IndexV, OrderEdge};
use crate::dex::ctx::query as ctx_query;
use crate::lockctx::ask;
use crate::lockctx::ask::Query;
use crate::lockctx::report;
use crate::sort;
use crate::values;
use vstd::prelude::*;

verus! {

/// One frame of a witness path.
#[derive(Debug)]
pub struct Frame {
    pub method: String,
    pub file: String,
    pub acquire: Option<u32>,
    pub call: Option<u32>,
}

/// A lock that a method holds at a line, and where it took it.
#[derive(Debug)]
pub struct Held {
    pub lock: String,
    pub acquired_at: Option<u32>,
}

/// A lock that may be held on entry to a method.
#[derive(Debug)]
pub struct May {
    pub lock: String,
    pub dist: u8,
    pub path: Option<Vec<Frame>>,
}

/// What is known of a line of a method.
#[derive(Debug)]
pub struct Point {
    pub method: String,
    pub file: String,
    pub line: u32,
    pub held: Vec<Held>,
    pub may_held: Vec<May>,
}

/// A place at which a lock is taken.
#[derive(Debug)]
pub struct Site {
    pub method: String,
    pub file: String,
    pub line: u32,
}

/// A method on whose entry a lock may be held.
#[derive(Debug)]
pub struct Holder {
    pub method: String,
    pub dist: u8,
}

/// An edge of the lock-order graph.
#[derive(Debug)]
pub struct Edge {
    pub from: String,
    pub to: String,
    pub count: u32,
    pub dist: u8,
    pub method: String,
    pub file: String,
    pub line: u32,
}

/// What is known of a lock.
#[derive(Debug)]
pub struct LockInfo {
    pub lock: String,
    pub sites: Vec<Site>,
    pub holders: Vec<Holder>,
    pub held_while_acquiring: Vec<Edge>,
    pub acquired_while_holding: Vec<Edge>,
}

/// A lock pair acquired in both orders.
#[derive(Debug)]
pub struct Inversion {
    pub a: Edge,
    pub b: Edge,
    pub gate: Option<String>,
}

/// A binder call made while a lock is held.
#[derive(Debug)]
pub struct BinderCall {
    pub caller: String,
    pub file: String,
    pub line: u32,
    pub callee: String,
    pub lock: String,
    pub dist: u8,
    pub path: Option<Vec<Frame>>,
}

/// The answer to a question.
#[derive(Debug)]
pub enum Answer {
    Points(Vec<Point>),
    Locks(Vec<LockInfo>),
    Cycles { inversions: Vec<Inversion>, groups: Vec<Vec<String>> },
    Binder(Vec<BinderCall>),
}

/// What a frame holds.
pub struct FrameV {
    pub method: Seq<char>,
    pub file: Seq<char>,
    pub acquire: Option<u32>,
    pub call: Option<u32>,
}

/// What a held lock holds.
pub struct HeldV {
    pub lock: Seq<char>,
    pub acquired_at: Option<u32>,
}

/// What a lock that may be held holds.
pub struct MayV {
    pub lock: Seq<char>,
    pub dist: u8,
    pub path: Option<Seq<FrameV>>,
}

/// What a point holds.
pub struct PointV {
    pub method: Seq<char>,
    pub file: Seq<char>,
    pub line: u32,
    pub held: Seq<HeldV>,
    pub may_held: Seq<MayV>,
}

/// What a site holds.
pub struct SiteV {
    pub method: Seq<char>,
    pub file: Seq<char>,
    pub line: u32,
}

/// What a holder holds.
pub struct HolderV {
    pub method: Seq<char>,
    pub dist: u8,
}

/// What an edge holds.
pub struct EdgeV {
    pub from: Seq<char>,
    pub to: Seq<char>,
    pub count: u32,
    pub dist: u8,
    pub method: Seq<char>,
    pub file: Seq<char>,
    pub line: u32,
}

/// What is known of a lock.
pub struct LockInfoV {
    pub lock: Seq<char>,
    pub sites: Seq<SiteV>,
    pub holders: Seq<HolderV>,
    pub held_while_acquiring: Seq<EdgeV>,
    pub acquired_while_holding: Seq<EdgeV>,
}

/// What an inversion holds.
pub struct InversionV {
    pub a: EdgeV,
    pub b: EdgeV,
    pub gate: Option<Seq<char>>,
}

/// What a binder call holds.
pub struct BinderCallV {
    pub caller: Seq<char>,
    pub file: Seq<char>,
    pub line: u32,
    pub callee: Seq<char>,
    pub lock: Seq<char>,
    pub dist: u8,
    pub path: Option<Seq<FrameV>>,
}

/// What an answer holds.
pub enum AnswerV {
    Points(Seq<PointV>),
    Locks(Seq<LockInfoV>),
    Cycles { inversions: Seq<InversionV>, groups: Seq<Seq<Seq<char>>> },
    Binder(Seq<BinderCallV>),
}

impl DeepView for Frame {
    type V = FrameV;

    open spec fn deep_view(&self) -> FrameV {
        FrameV {
            method: self.method@,
            file: self.file@,
            acquire: self.acquire,
            call: self.call,
        }
    }
}

impl DeepView for Held {
    type V = HeldV;

    open spec fn deep_view(&self) -> HeldV {
        HeldV { lock: self.lock@, acquired_at: self.acquired_at }
    }
}

impl DeepView for May {
    type V = MayV;

    open spec fn deep_view(&self) -> MayV {
        MayV { lock: self.lock@, dist: self.dist, path: self.path.deep_view() }
    }
}

impl DeepView for Point {
    type V = PointV;

    open spec fn deep_view(&self) -> PointV {
        PointV {
            method: self.method@,
            file: self.file@,
            line: self.line,
            held: self.held.deep_view(),
            may_held: self.may_held.deep_view(),
        }
    }
}

impl DeepView for Site {
    type V = SiteV;

    open spec fn deep_view(&self) -> SiteV {
        SiteV { method: self.method@, file: self.file@, line: self.line }
    }
}

impl DeepView for Holder {
    type V = HolderV;

    open spec fn deep_view(&self) -> HolderV {
        HolderV { method: self.method@, dist: self.dist }
    }
}

impl DeepView for Edge {
    type V = EdgeV;

    open spec fn deep_view(&self) -> EdgeV {
        EdgeV {
            from: self.from@,
            to: self.to@,
            count: self.count,
            dist: self.dist,
            method: self.method@,
            file: self.file@,
            line: self.line,
        }
    }
}

impl DeepView for LockInfo {
    type V = LockInfoV;

    open spec fn deep_view(&self) -> LockInfoV {
        LockInfoV {
            lock: self.lock@,
            sites: self.sites.deep_view(),
            holders: self.holders.deep_view(),
            held_while_acquiring: self.held_while_acquiring.deep_view(),
            acquired_while_holding: self.acquired_while_holding.deep_view(),
        }
    }
}

impl DeepView for Inversion {
    type V = InversionV;

    open spec fn deep_view(&self) -> InversionV {
        InversionV {
            a: self.a.deep_view(),
            b: self.b.deep_view(),
            gate: self.gate.deep_view(),
        }
    }
}

impl DeepView for BinderCall {
    type V = BinderCallV;

    open spec fn deep_view(&self) -> BinderCallV {
        BinderCallV {
            caller: self.caller@,
            file: self.file@,
            line: self.line,
            callee: self.callee@,
            lock: self.lock@,
            dist: self.dist,
            path: self.path.deep_view(),
        }
    }
}

impl DeepView for Answer {
    type V = AnswerV;

    open spec fn deep_view(&self) -> AnswerV {
        match self {
            Answer::Points(ps) => AnswerV::Points(ps.deep_view()),
            Answer::Locks(ls) => AnswerV::Locks(ls.deep_view()),
            Answer::Cycles { inversions, groups } => AnswerV::Cycles {
                inversions: inversions.deep_view(),
                groups: groups.deep_view(),
            },
            Answer::Binder(bs) => AnswerV::Binder(bs.deep_view()),
        }
    }
}

/// The file of a method.
pub open spec fn file_name(v: IndexV, m: u32) -> Seq<char> {
    v.files[v.methods[m as int].file as int]
}

/// A frame of a path.
pub open spec fn frame(v: IndexV, h: Hop) -> FrameV {
    FrameV {
        method: v.methods[h.method as int].key,
        file: file_name(v, h.method),
        acquire: h.acquire,
        call: h.call,
    }
}

/// The witness of a lock, where there is one.
pub open spec fn witness_frames(v: IndexV, m: u32, l: u32) -> Option<Seq<FrameV>> {
    match v.witness(m, l) {
        Some(p) => Some(Seq::new(p.len(), |i: int| frame(v, p[i]))),
        None => None,
    }
}

/// A lock held at a line.
pub open spec fn held_info(v: IndexV, m: u32, line: u32, l: u32) -> HeldV {
    HeldV {
        lock: v.locks[l as int],
        acquired_at: ctx_query::taken_at(v.methods[m as int].spans, l, line, 0),
    }
}

/// The locks that may be held within `depth` frames, from the `k`th on, behind `acc`.
pub open spec fn mays_from(
    v: IndexV,
    m: u32,
    may: Seq<(u32, u8)>,
    depth: u8,
    k: int,
    acc: Seq<MayV>,
) -> Seq<MayV>
    decreases may.len() - k,
{
    if k >= may.len() {
        acc
    } else {
        let (l, d) = may[k];
        mays_from(
            v,
            m,
            may,
            depth,
            k + 1,
            if d <= depth {
                acc.push(
                    MayV { lock: v.locks[l as int], dist: d, path: witness_frames(v, m, l) },
                )
            } else {
                acc
            },
        )
    }
}

/// What is known of a line of a method that holds `held` there.
pub open spec fn point_info(v: IndexV, m: u32, line: u32, depth: u8, held: Seq<u32>) -> PointV {
    PointV {
        method: v.methods[m as int].key,
        file: file_name(v, m),
        line,
        held: Seq::new(held.len(), |i: int| held_info(v, m, line, held[i])),
        may_held: mays_from(
            v,
            m,
            sort::sorted(v.row(m), ctx_query::near_le()),
            depth,
            0,
            Seq::empty(),
        ),
    }
}

/// A place at which a lock is taken.
pub open spec fn site_info(v: IndexV, s: (u32, u32)) -> SiteV {
    SiteV { method: v.methods[s.0 as int].key, file: file_name(v, s.0), line: s.1 }
}

/// The holders within `depth` frames, from the `k`th on, behind `acc`.
pub open spec fn holders_from(
    v: IndexV,
    hs: Seq<(u32, u8)>,
    depth: u8,
    k: int,
    acc: Seq<HolderV>,
) -> Seq<HolderV>
    decreases hs.len() - k,
{
    if k >= hs.len() {
        acc
    } else {
        holders_from(
            v,
            hs,
            depth,
            k + 1,
            if hs[k].1 <= depth {
                acc.push(HolderV { method: v.methods[hs[k].0 as int].key, dist: hs[k].1 })
            } else {
                acc
            },
        )
    }
}

/// An edge by names.
pub open spec fn edge_info(v: IndexV, e: OrderEdge) -> EdgeV {
    EdgeV {
        from: v.locks[e.from as int],
        to: v.locks[e.to as int],
        count: e.count,
        dist: e.dist,
        method: v.methods[e.method as int].key,
        file: file_name(v, e.method),
        line: e.line,
    }
}

/// Edges by names.
pub open spec fn edge_infos(v: IndexV, es: Seq<OrderEdge>) -> Seq<EdgeV> {
    Seq::new(es.len(), |i: int| edge_info(v, es[i]))
}

/// What is known of a lock that is taken at `sites`.
pub open spec fn lock_info(v: IndexV, l: u32, depth: u8, sites: Seq<(u32, u32)>) -> LockInfoV {
    LockInfoV {
        lock: v.locks[l as int],
        sites: Seq::new(sites.len(), |i: int| site_info(v, sites[i])),
        holders: holders_from(v, v.holders(l), depth, 0, Seq::empty()),
        held_while_acquiring: edge_infos(v, v.order.filter(ctx_query::leaves(l))),
        acquired_while_holding: edge_infos(v, v.order.filter(ctx_query::arrives(l))),
    }
}

/// A lock pair by names.
pub open spec fn inversion_info(v: IndexV, p: (OrderEdge, OrderEdge, Option<u32>)) -> InversionV {
    InversionV {
        a: edge_info(v, p.0),
        b: edge_info(v, p.1),
        gate: match p.2 {
            Some(g) => Some(v.locks[g as int]),
            None => None,
        },
    }
}

/// A binder call by names.
pub open spec fn binder_info(v: IndexV, s: (u32, u32, u32, u8)) -> BinderCallV {
    let c = v.calls[s.0 as int];
    BinderCallV {
        caller: v.methods[c.caller as int].key,
        file: file_name(v, c.caller),
        line: c.line,
        callee: v.methods[s.1 as int].key,
        lock: v.locks[s.2 as int],
        dist: s.3,
        path: if s.3 > 0 {
            witness_frames(v, c.caller, s.2)
        } else {
            None
        },
    }
}

/// The points of the methods, at the line that `at` gives for each.
pub open spec fn point_infos(
    v: IndexV,
    ms: Seq<u32>,
    at: spec_fn(u32) -> u32,
    depth: u8,
    held: Seq<Seq<u32>>,
) -> Seq<PointV> {
    Seq::new(ms.len(), |k: int| point_info(v, ms[k], at(ms[k]), depth, held[k]))
}

/// `r` is the answer to the question, as data.
pub open spec fn tells(v: IndexV, q: Query, depth: u8, r: AnswerV) -> bool {
    match q {
        Query::At { file, line } => {
            let ms = v.located(file@, line);
            exists|held: Seq<Seq<u32>>| #[trigger]
                report::held_lists(v, ms, report::asked(line), held, ms.len() as int) && r
                    == AnswerV::Points(point_infos(v, ms, report::asked(line), depth, held))
        },
        Query::Method(needle) => {
            let ms = ctx_query::keyed(v.methods, needle@, 0, Seq::empty());
            exists|held: Seq<Seq<u32>>| #[trigger]
                report::held_lists(v, ms, report::first_line(v), held, ms.len() as int) && r
                    == AnswerV::Points(point_infos(v, ms, report::first_line(v), depth, held))
        },
        Query::Lock(needle) => {
            let ls = ctx_query::named(v.locks, needle@, 0, Seq::empty());
            exists|sites: Seq<Seq<(u32, u32)>>| #[trigger]
                report::site_lists(v, ls, sites, ls.len() as int) && r == AnswerV::Locks(
                    Seq::new(ls.len(), |k: int| lock_info(v, ls[k], depth, sites[k])),
                )
        },
        Query::Cycles => exists|cyc: Seq<Seq<u32>>| #[trigger]
            cycles::are_cycles(v, cyc) && r == (AnswerV::Cycles {
                inversions: Seq::new(
                    v.inversions().len(),
                    |i: int| inversion_info(v, v.inversions()[i]),
                ),
                groups: Seq::new(cyc.len(), |i: int| group_info(v, cyc[i])),
            }),
        Query::Binder => r == AnswerV::Binder(
            Seq::new(
                v.binder_sites(depth).len(),
                |i: int| binder_info(v, v.binder_sites(depth)[i]),
            ),
        ),
    }
}

/// A group by names.
pub open spec fn group_info(v: IndexV, c: Seq<u32>) -> Seq<Seq<char>> {
    Seq::new(c.len(), |i: int| v.locks[c[i] as int])
}

fn witness_of(idx: &Index, m: u32, l: u32) -> (r: Option<Vec<Frame>>)
    requires
        idx.deep_view().wf(),
        m < idx.deep_view().methods.len(),
    ensures
        r.deep_view() == witness_frames(idx.deep_view(), m, l),
{
    let ghost v = idx.deep_view();
    let p = match idx.witness(m, l) {
        None => {
            return None;
        },
        Some(p) => p,
    };
    let mut out: Vec<Frame> = values::empty();
    let mut i: usize = 0;
    while i < p.len()
        invariant
            i <= p@.len(),
            v == idx.deep_view(),
            v.wf(),
            forall|i: int| 0 <= i < p@.len() ==> (#[trigger] p@[i]).method < v.methods.len(),
            out.deep_view() == Seq::new(i as nat, |j: int| frame(v, p@[j])),
        decreases p@.len() - i,
    {
        let h = p[i];
        values::push(
            &mut out,
            Frame {
                method: ask::key_of(idx, h.method).to_string(),
                file: ask::file_of(idx, h.method).to_string(),
                acquire: h.acquire,
                call: h.call,
            },
        );
        i += 1;
        proof {
            assert(out.deep_view() =~= Seq::new(i as nat, |j: int| frame(v, p@[j])));
        }
    }
    proof {
        assert(p.deep_view() =~= p@);
        assert(out.deep_view() =~= witness_frames(v, m, l)->0);
    }
    Some(out)
}

fn point_of(idx: &Index, m: u32, line: u32, depth: u8, held: &Vec<u32>) -> (r: Point)
    requires
        idx.deep_view().wf(),
        m < idx.deep_view().methods.len(),
        index::all_below(held@, idx.deep_view().locks.len() as int),
    ensures
        r.deep_view() == point_info(idx.deep_view(), m, line, depth, held@),
{
    let ghost v = idx.deep_view();
    let mut hs: Vec<Held> = values::empty();
    let mut k: usize = 0;
    while k < held.len()
        invariant
            k <= held@.len(),
            v == idx.deep_view(),
            v.wf(),
            m < v.methods.len(),
            index::all_below(held@, v.locks.len() as int),
            hs.deep_view() == Seq::new(k as nat, |i: int| held_info(v, m, line, held@[i])),
        decreases held@.len() - k,
    {
        let l = held[k];
        proof {
            assert(held@[k as int] < v.locks.len());
        }
        values::push(
            &mut hs,
            Held {
                lock: ask::lock_of(idx, l).to_string(),
                acquired_at: idx.taken(m, l, line),
            },
        );
        k += 1;
        proof {
            assert(hs.deep_view() =~= Seq::new(
                k as nat,
                |i: int| held_info(v, m, line, held@[i]),
            ));
        }
    }
    let may = idx.may_held(m);
    let mut ms: Vec<May> = values::empty();
    let mut k: usize = 0;
    while k < may.len()
        invariant
            k <= may@.len(),
            v == idx.deep_view(),
            v.wf(),
            m < v.methods.len(),
            forall|i: int| 0 <= i < may@.len() ==> (#[trigger] may@[i]).0 < v.locks.len(),
            mays_from(v, m, may@, depth, 0, Seq::empty()) == mays_from(
                v,
                m,
                may@,
                depth,
                k as int,
                ms.deep_view(),
            ),
        decreases may@.len() - k,
    {
        let (l, d) = may[k];
        proof {
            assert(may@[k as int].0 < v.locks.len());
        }
        if d <= depth {
            let path = witness_of(idx, m, l);
            values::push(
                &mut ms,
                May { lock: ask::lock_of(idx, l).to_string(), dist: d, path },
            );
        }
        k += 1;
    }
    Point {
        method: ask::key_of(idx, m).to_string(),
        file: ask::file_of(idx, m).to_string(),
        line,
        held: hs,
        may_held: ms,
    }
}

fn points_of(
    idx: &Index,
    ms: &Vec<u32>,
    line: Option<u32>,
    depth: u8,
    Ghost(at): Ghost<spec_fn(u32) -> u32>,
) -> (r: (Vec<Point>, Ghost<Seq<Seq<u32>>>))
    requires
        idx.deep_view().wf(),
        index::all_below(ms@, idx.deep_view().methods.len() as int),
        at == match line {
            Some(l) => report::asked(l),
            None => report::first_line(idx.deep_view()),
        },
    ensures
        report::held_lists(idx.deep_view(), ms@, at, r.1@, ms@.len() as int),
        r.0.deep_view() == point_infos(idx.deep_view(), ms@, at, depth, r.1@),
{
    let ghost v = idx.deep_view();
    let ghost mut held: Seq<Seq<u32>> = Seq::empty();
    let mut out: Vec<Point> = values::empty();
    let mut k: usize = 0;
    while k < ms.len()
        invariant
            k <= ms@.len(),
            v == idx.deep_view(),
            v.wf(),
            index::all_below(ms@, v.methods.len() as int),
            at == match line {
                Some(l) => report::asked(l),
                None => report::first_line(v),
            },
            report::held_lists(v, ms@, at, held, k as int),
            out.deep_view() == Seq::new(
                k as nat,
                |i: int| point_info(v, ms@[i], at(ms@[i]), depth, held[i]),
            ),
        decreases ms@.len() - k,
    {
        let m = ms[k];
        proof {
            assert(ms@[k as int] < v.methods.len());
            assert(v.methods[m as int] == idx.methods@[m as int].deep_view());
        }
        let l = match line {
            Some(l) => l,
            None => idx.methods[m as usize].line_lo,
        };
        let hs = ask::held_at(idx, m, l);
        let p = point_of(idx, m, l, depth, &hs);
        let ghost old_held = held;
        let ghost old_out = out.deep_view();
        values::push(&mut out, p);
        k += 1;
        proof {
            held = held.push(hs@);
            assert forall|i: int| 0 <= i < k implies ask::held_list(
                v,
                ms@[i],
                at(ms@[i]),
                #[trigger] held[i],
            ) by {
                if i < k - 1 {
                    assert(held[i] == old_held[i]);
                }
            }
            assert(out.deep_view() =~= Seq::new(
                k as nat,
                |i: int| point_info(v, ms@[i], at(ms@[i]), depth, held[i]),
            ));
        }
    }
    proof {
        assert(out.deep_view() =~= point_infos(v, ms@, at, depth, held));
    }
    (out, Ghost(held))
}

fn edge_of(idx: &Index, e: &OrderEdge) -> (r: Edge)
    requires
        idx.deep_view().wf(),
        index::edge_in(
            *e,
            idx.deep_view().methods.len() as int,
            idx.deep_view().locks.len() as int,
        ),
    ensures
        r.deep_view() == edge_info(idx.deep_view(), *e),
{
    Edge {
        from: ask::lock_of(idx, e.from).to_string(),
        to: ask::lock_of(idx, e.to).to_string(),
        count: e.count,
        dist: e.dist,
        method: ask::key_of(idx, e.method).to_string(),
        file: ask::file_of(idx, e.method).to_string(),
        line: e.line,
    }
}

fn edges_of(idx: &Index, es: &Vec<&OrderEdge>) -> (r: Vec<Edge>)
    requires
        idx.deep_view().wf(),
        forall|i: int|
            0 <= i < es@.len() ==> index::edge_in(
                *#[trigger] es@[i],
                idx.deep_view().methods.len() as int,
                idx.deep_view().locks.len() as int,
            ),
    ensures
        r.deep_view() == edge_infos(idx.deep_view(), es.deep_view()),
{
    let ghost v = idx.deep_view();
    let ghost ev = es.deep_view();
    let mut out: Vec<Edge> = values::empty();
    let mut k: usize = 0;
    while k < es.len()
        invariant
            k <= es@.len(),
            v == idx.deep_view(),
            v.wf(),
            ev == es.deep_view(),
            forall|i: int|
                0 <= i < es@.len() ==> index::edge_in(
                    *#[trigger] es@[i],
                    v.methods.len() as int,
                    v.locks.len() as int,
                ),
            out.deep_view() == Seq::new(k as nat, |i: int| edge_info(v, ev[i])),
        decreases es@.len() - k,
    {
        let e = edge_of(idx, es[k]);
        proof {
            assert(ev[k as int] == *es@[k as int]);
        }
        values::push(&mut out, e);
        k += 1;
        proof {
            assert(out.deep_view() =~= Seq::new(k as nat, |i: int| edge_info(v, ev[i])));
        }
    }
    proof {
        assert(out.deep_view() =~= edge_infos(v, ev));
    }
    out
}

fn lock_info_of(idx: &Index, l: u32, depth: u8) -> (r: (LockInfo, Vec<(u32, u32)>))
    requires
        idx.deep_view().wf(),
        l < idx.deep_view().locks.len(),
    ensures
        ask::site_list(idx.deep_view(), l, r.1@),
        r.0.deep_view() == lock_info(idx.deep_view(), l, depth, r.1@),
{
    let ghost v = idx.deep_view();
    let places = idx.sites(l);
    let mut sites: Vec<Site> = values::empty();
    let mut k: usize = 0;
    while k < places.len()
        invariant
            k <= places@.len(),
            v == idx.deep_view(),
            v.wf(),
            ask::site_list(v, l, places@),
            sites.deep_view() == Seq::new(k as nat, |i: int| site_info(v, places@[i])),
        decreases places@.len() - k,
    {
        let (m, line) = places[k];
        proof {
            assert(places@[k as int] == (m, line));
            assert(places@.contains((m, line)));
        }
        values::push(
            &mut sites,
            Site {
                method: ask::key_of(idx, m).to_string(),
                file: ask::file_of(idx, m).to_string(),
                line,
            },
        );
        k += 1;
        proof {
            assert(sites.deep_view() =~= Seq::new(k as nat, |i: int| site_info(v, places@[i])));
        }
    }
    let hs = idx.holders(l);
    let mut holders: Vec<Holder> = values::empty();
    let mut k: usize = 0;
    while k < hs.len()
        invariant
            k <= hs@.len(),
            v == idx.deep_view(),
            forall|i: int| 0 <= i < hs@.len() ==> (#[trigger] hs@[i]).0 < v.methods.len(),
            holders_from(v, hs@, depth, 0, Seq::empty()) == holders_from(
                v,
                hs@,
                depth,
                k as int,
                holders.deep_view(),
            ),
        decreases hs@.len() - k,
    {
        let (m, d) = hs[k];
        proof {
            assert(hs@[k as int].0 < v.methods.len());
        }
        if d <= depth {
            values::push(
                &mut holders,
                Holder { method: ask::key_of(idx, m).to_string(), dist: d },
            );
        }
        k += 1;
    }
    let outs = idx.order_out(l);
    let ins = idx.order_in(l);
    let info = LockInfo {
        lock: ask::lock_of(idx, l).to_string(),
        sites,
        holders,
        held_while_acquiring: edges_of(idx, &outs),
        acquired_while_holding: edges_of(idx, &ins),
    };
    proof {
        assert(info.sites.deep_view() =~= lock_info(v, l, depth, places@).sites);
    }
    (info, places)
}

fn locks_of(idx: &Index, ls: &Vec<u32>, depth: u8) -> (r: (
    Vec<LockInfo>,
    Ghost<Seq<Seq<(u32, u32)>>>,
))
    requires
        idx.deep_view().wf(),
        index::all_below(ls@, idx.deep_view().locks.len() as int),
    ensures
        report::site_lists(idx.deep_view(), ls@, r.1@, ls@.len() as int),
        r.0.deep_view() == Seq::new(
            ls@.len(),
            |k: int| lock_info(idx.deep_view(), ls@[k], depth, r.1@[k]),
        ),
{
    let ghost v = idx.deep_view();
    let ghost mut sites: Seq<Seq<(u32, u32)>> = Seq::empty();
    let mut out: Vec<LockInfo> = values::empty();
    let mut k: usize = 0;
    while k < ls.len()
        invariant
            k <= ls@.len(),
            v == idx.deep_view(),
            v.wf(),
            index::all_below(ls@, v.locks.len() as int),
            report::site_lists(v, ls@, sites, k as int),
            out.deep_view() == Seq::new(k as nat, |i: int| lock_info(v, ls@[i], depth, sites[i])),
        decreases ls@.len() - k,
    {
        let l = ls[k];
        proof {
            assert(ls@[k as int] < v.locks.len());
        }
        let ghost old_sites = sites;
        let (info, places) = lock_info_of(idx, l, depth);
        values::push(&mut out, info);
        k += 1;
        proof {
            sites = sites.push(places@);
            assert forall|i: int| 0 <= i < k implies ask::site_list(
                v,
                ls@[i],
                #[trigger] sites[i],
            ) by {
                if i < k - 1 {
                    assert(sites[i] == old_sites[i]);
                }
            }
            assert(out.deep_view() =~= Seq::new(
                k as nat,
                |i: int| lock_info(v, ls@[i], depth, sites[i]),
            ));
        }
    }
    (out, Ghost(sites))
}

fn inversions_of(idx: &Index) -> (r: Vec<Inversion>)
    requires
        idx.deep_view().wf(),
    ensures
        r.deep_view() == Seq::new(
            idx.deep_view().inversions().len(),
            |i: int| inversion_info(idx.deep_view(), idx.deep_view().inversions()[i]),
        ),
{
    let ghost v = idx.deep_view();
    let inv = idx.inversions();
    let mut out: Vec<Inversion> = values::empty();
    let mut k: usize = 0;
    while k < inv.len()
        invariant
            k <= inv@.len(),
            v == idx.deep_view(),
            v.wf(),
            forall|i: int|
                0 <= i < inv@.len() ==> ctx_query::known_pair(v, #[trigger] inv@[i]),
            out.deep_view() == Seq::new(k as nat, |i: int| inversion_info(v, inv@[i])),
        decreases inv@.len() - k,
    {
        let (a, b, g) = inv[k];
        proof {
            assert(ctx_query::known_pair(v, inv@[k as int]));
        }
        let gate = match g {
            Some(g) => Some(ask::lock_of(idx, g).to_string()),
            None => None,
        };
        let x = Inversion { a: edge_of(idx, &a), b: edge_of(idx, &b), gate };
        proof {
            assert(x.deep_view() == inversion_info(v, inv@[k as int]));
        }
        values::push(&mut out, x);
        k += 1;
        proof {
            assert(out.deep_view() =~= Seq::new(k as nat, |i: int| inversion_info(v, inv@[i])));
        }
    }
    out
}

fn groups_of(idx: &Index, cyc: &Vec<Vec<u32>>) -> (r: Vec<Vec<String>>)
    requires
        cycles::are_cycles(idx.deep_view(), cyc.deep_view()),
    ensures
        r.deep_view() == Seq::new(
            cyc@.len(),
            |i: int| group_info(idx.deep_view(), cyc.deep_view()[i]),
        ),
{
    let ghost v = idx.deep_view();
    let ghost cv = cyc.deep_view();
    let mut out: Vec<Vec<String>> = values::empty();
    let mut k: usize = 0;
    while k < cyc.len()
        invariant
            k <= cyc@.len(),
            v == idx.deep_view(),
            cv == cyc.deep_view(),
            cycles::are_cycles(v, cv),
            out.deep_view() == Seq::new(k as nat, |i: int| group_info(v, cv[i])),
        decreases cyc@.len() - k,
    {
        let c = &cyc[k];
        proof {
            assert(cv[k as int] =~= c@);
            assert(cycles::component(v, cv[k as int]));
        }
        let mut names: Vec<String> = values::empty();
        let mut j: usize = 0;
        while j < c.len()
            invariant
                j <= c@.len(),
                v == idx.deep_view(),
                index::all_below(c@, v.locks.len() as int),
                names.deep_view() == Seq::new(j as nat, |i: int| v.locks[c@[i] as int]),
            decreases c@.len() - j,
        {
            proof {
                assert(c@[j as int] < v.locks.len());
            }
            values::push(&mut names, ask::lock_of(idx, c[j]).to_string());
            j += 1;
            proof {
                assert(names.deep_view() =~= Seq::new(j as nat, |i: int| v.locks[c@[i] as int]));
            }
        }
        proof {
            assert(names.deep_view() =~= group_info(v, cv[k as int]));
        }
        values::push(&mut out, names);
        k += 1;
        proof {
            assert(out.deep_view() =~= Seq::new(k as nat, |i: int| group_info(v, cv[i])));
        }
    }
    out
}

fn binder_of(idx: &Index, depth: u8) -> (r: Vec<BinderCall>)
    requires
        idx.deep_view().wf(),
    ensures
        r.deep_view() == Seq::new(
            idx.deep_view().binder_sites(depth).len(),
            |i: int| binder_info(idx.deep_view(), idx.deep_view().binder_sites(depth)[i]),
        ),
{
    let ghost v = idx.deep_view();
    let sites = idx.binder_sites(depth);
    let mut out: Vec<BinderCall> = values::empty();
    let mut k: usize = 0;
    while k < sites.len()
        invariant
            k <= sites@.len(),
            v == idx.deep_view(),
            v.wf(),
            forall|i: int|
                0 <= i < sites@.len() ==> ctx_query::known_site(v, #[trigger] sites@[i]),
            out.deep_view() == Seq::new(k as nat, |i: int| binder_info(v, sites@[i])),
        decreases sites@.len() - k,
    {
        let (call, t, l, d) = sites[k];
        proof {
            assert(ctx_query::known_site(v, sites@[k as int]));
            assert(v.calls[call as int] == idx.calls@[call as int].deep_view());
            assert(index::call_in(
                v.calls[call as int],
                v.methods.len() as int,
                v.locks.len() as int,
            ));
        }
        let c = &idx.calls[call as usize];
        let path = if d > 0 {
            witness_of(idx, c.caller, l)
        } else {
            None
        };
        let x = BinderCall {
            caller: ask::key_of(idx, c.caller).to_string(),
            file: ask::file_of(idx, c.caller).to_string(),
            line: c.line,
            callee: ask::key_of(idx, t).to_string(),
            lock: ask::lock_of(idx, l).to_string(),
            dist: d,
            path,
        };
        proof {
            assert(x.deep_view() == binder_info(v, sites@[k as int]));
        }
        values::push(&mut out, x);
        k += 1;
        proof {
            assert(out.deep_view() =~= Seq::new(k as nat, |i: int| binder_info(v, sites@[i])));
        }
    }
    out
}

/// The same answer as the report, as data.
pub fn query_json(idx: &Index, q: &Query, depth: u8) -> (r: Answer)
    requires
        idx.deep_view().wf(),
    ensures
        tells(idx.deep_view(), *q, depth, r.deep_view()),
{
    let ghost v = idx.deep_view();
    match q {
        Query::At { file, line } => {
            let ms = idx.locate(file.as_str(), *line);
            proof {
                report::lemma_located(v, file@, *line);
            }
            let (ps, held) = points_of(
                idx,
                &ms,
                Some(*line),
                depth,
                Ghost(report::asked(*line)),
            );
            proof {
                assert(report::held_lists(
                    v,
                    ms@,
                    report::asked(*line),
                    held@,
                    ms@.len() as int,
                ));
            }
            Answer::Points(ps)
        },
        Query::Method(needle) => {
            let ms = idx.find_methods(needle.as_str());
            proof {
                report::lemma_keyed(v, needle@, 0, Seq::empty());
            }
            let (ps, held) = points_of(idx, &ms, None, depth, Ghost(report::first_line(v)));
            proof {
                assert(report::held_lists(
                    v,
                    ms@,
                    report::first_line(v),
                    held@,
                    ms@.len() as int,
                ));
            }
            Answer::Points(ps)
        },
        Query::Lock(needle) => {
            let ls = idx.find_locks(needle.as_str());
            proof {
                report::lemma_named(v, needle@, 0, Seq::empty());
            }
            let (infos, sites) = locks_of(idx, &ls, depth);
            proof {
                assert(report::site_lists(v, ls@, sites@, ls@.len() as int));
            }
            Answer::Locks(infos)
        },
        Query::Cycles => {
            let inversions = inversions_of(idx);
            let cyc = idx.cycles();
            let groups = groups_of(idx, &cyc);
            proof {
                assert(cycles::are_cycles(v, cyc.deep_view()));
                assert(cyc.deep_view().len() == cyc@.len());
            }
            Answer::Cycles { inversions, groups }
        },
        Query::Binder => Answer::Binder(binder_of(idx, depth)),
    }
}

} // verus!

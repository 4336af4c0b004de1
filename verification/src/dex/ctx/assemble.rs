//! The interned call graph: methods with their lock spans, and linked call sites.

use crate::dex::ctx::link;
use crate::dex::ctx::link::Linker;
use crate::dex::ctx::scan;
use crate::dex::ctx::scan::{NamedCall, NamedCallV, NamedSpan, NamedSpanV, SitesV};
use crate::dex::ctx::sound;
use crate::dex::ctx::types;
use crate::dex::ctx::types::{Kind, KindV, TypesV};
use crate::dex::flow;
use crate::dex::flow::EffectsV;
use crate::dex::model::{ClassV, Dex, DexV, Method, MethodV};
use crate::dict;
use crate::dict::{Dict, DictV};
use crate::names;
use crate::names::Names;
use crate::text;
use crate::values;
use crate::values::Dup;
use vstd::prelude::*;

verus! {

/// A lock acquisition and the lines it is held over.
pub struct SpanV {
    pub lock: usize,
    pub enter: u32,
    pub exit: u32,
    pub held: Seq<usize>,
}

/// A call site with its targets.
pub struct LinkV {
    pub caller: usize,
    pub line: u32,
    pub held: Seq<usize>,
    pub targets: Seq<usize>,
}

/// A method: its key, its file, its lines, its spans, and the range of its calls.
pub struct RecV {
    pub key: Seq<char>,
    pub file: usize,
    pub line_lo: u32,
    pub line_hi: u32,
    pub spans: Seq<SpanV>,
    pub calls: (usize, usize),
}

/// The interned call graph.
pub struct BoardV {
    pub locks: Seq<Seq<char>>,
    pub files: Seq<Seq<char>>,
    pub recs: Seq<RecV>,
    pub calls: Seq<LinkV>,
}

/// The number of `x`.
pub open spec fn number(s: Seq<Seq<char>>, x: Seq<char>) -> usize {
    (names::position(s, x)->0) as usize
}

/// The numbers of the names from the `k`th on, behind `ids`; new names go to the end of
/// the locks.
pub open spec fn interned(
    locks: Seq<Seq<char>>,
    ns: Seq<Seq<char>>,
    k: int,
    ids: Seq<usize>,
) -> (Seq<Seq<char>>, Seq<usize>)
    decreases ns.len() - k,
{
    if k >= ns.len() {
        (locks, ids)
    } else {
        let more = names::with(locks, ns[k]);
        interned(more, ns, k + 1, ids.push(number(more, ns[k])))
    }
}

/// The spans from the `k`th on, behind `acc`.
pub open spec fn spans_from(
    locks: Seq<Seq<char>>,
    ss: Seq<NamedSpanV>,
    k: int,
    acc: Seq<SpanV>,
) -> (Seq<Seq<char>>, Seq<SpanV>)
    decreases ss.len() - k,
{
    if k >= ss.len() {
        (locks, acc)
    } else {
        let own = names::with(locks, ss[k].lock);
        let (more, held) = interned(own, ss[k].held, 0, Seq::empty());
        let s = SpanV {
            lock: number(own, ss[k].lock),
            enter: ss[k].enter,
            exit: ss[k].exit,
            held,
        };
        spans_from(more, ss, k + 1, acc.push(s))
    }
}

/// The classes passed in for the receiver, where that is a formal of method `caller`.
pub open spec fn passed_in(types: TypesV, caller: usize, recv: KindV) -> Seq<Seq<char>> {
    match recv {
        KindV::Formal(j) => dict::list_at(types, types::formal(caller, j as nat)),
        _ => Seq::empty(),
    }
}

/// What a call of method `caller` reaches.
pub open spec fn reached(
    ms: Seq<MethodV>,
    cs: Seq<ClassV>,
    cap: usize,
    types: TypesV,
    caller: usize,
    c: NamedCallV,
) -> Seq<usize> {
    let recv = types::receiver_at(types::typed_calls(ms[caller as int]), c.at, 0);
    link::refined(
        ms,
        cs,
        cap,
        c.class,
        flow::declared(c.name, c.sig),
        c.kind,
        recv,
        passed_in(types, caller, recv),
    )
}

/// The calls of method `caller` from the `k`th on, behind `acc`.
pub open spec fn calls_from(
    ms: Seq<MethodV>,
    cs: Seq<ClassV>,
    cap: usize,
    types: TypesV,
    caller: usize,
    locks: Seq<Seq<char>>,
    list: Seq<NamedCallV>,
    k: int,
    acc: Seq<LinkV>,
) -> (Seq<Seq<char>>, Seq<LinkV>)
    decreases list.len() - k,
{
    if k >= list.len() {
        (locks, acc)
    } else {
        let c = list[k];
        let (more, held) = interned(locks, c.held, 0, Seq::empty());
        let l = LinkV {
            caller,
            line: c.line,
            held,
            targets: reached(ms, cs, cap, types, caller, c),
        };
        calls_from(ms, cs, cap, types, caller, more, list, k + 1, acc.push(l))
    }
}

/// The least and the greatest line of the positions from the `k`th on.
pub open spec fn lines_from(ps: Seq<(u32, u32)>, k: int, lo: u32, hi: u32) -> (u32, u32)
    decreases ps.len() - k,
{
    if k >= ps.len() {
        (lo, hi)
    } else {
        let l = ps[k].1;
        lines_from(
            ps,
            k + 1,
            if l < lo {
                l
            } else {
                lo
            },
            if l > hi {
                l
            } else {
                hi
            },
        )
    }
}

/// The lines of a method; none where it has no positions.
pub open spec fn lines(m: MethodV) -> (u32, u32) {
    let (lo, hi) = lines_from(m.positions, 0, u32::MAX, 0);
    if lo == u32::MAX {
        (scan::NO_LINE, scan::NO_LINE)
    } else {
        (lo, hi)
    }
}

/// With one more method.
pub open spec fn placed(
    ms: Seq<MethodV>,
    cs: Seq<ClassV>,
    cap: usize,
    types: TypesV,
    fx: EffectsV,
    t: SitesV,
    k: int,
    b: BoardV,
) -> BoardV {
    let m = ms[k];
    let sc = scan::scanned(m, fx, t);
    let files = match m.source_file {
        Some(f) => names::with(b.files, f),
        None => b.files,
    };
    let (own, spans) = spans_from(b.locks, sc.spans, 0, Seq::empty());
    let (more, calls) = calls_from(ms, cs, cap, types, k as usize, own, sc.calls, 0, b.calls);
    BoardV {
        locks: more,
        files,
        recs: b.recs.push(
            RecV {
                key: m.key(),
                file: match m.source_file {
                    Some(f) => number(files, f),
                    None => 0,
                },
                line_lo: lines(m).0,
                line_hi: lines(m).1,
                spans,
                calls: (b.calls.len() as usize, calls.len() as usize),
            },
        ),
        calls,
    }
}

/// With the methods from the `k`th on.
pub open spec fn placed_from(
    ms: Seq<MethodV>,
    cs: Seq<ClassV>,
    cap: usize,
    types: TypesV,
    fx: EffectsV,
    t: SitesV,
    k: int,
    b: BoardV,
) -> BoardV
    decreases ms.len() - k,
{
    if k >= ms.len() {
        b
    } else {
        placed_from(ms, cs, cap, types, fx, t, k + 1, placed(ms, cs, cap, types, fx, t, k, b))
    }
}

/// The graph without a method; the file without a name comes first.
pub open spec fn blank() -> BoardV {
    BoardV { locks: Seq::empty(), files: seq![""@], recs: Seq::empty(), calls: Seq::empty() }
}

/// The interned call graph of a program.
pub open spec fn board(d: DexV, cap: usize) -> BoardV {
    placed_from(
        d.methods(),
        d.classes,
        cap,
        types::passed_classes(d.methods(), d.classes, cap),
        flow::all_effects(d),
        scan::sites_from(crate::dex::acquire::acquired(d), 0, DictV::none()),
        0,
        blank(),
    )
}

/// The span's locks exist.
pub open spec fn span_ok(s: SpanV, locks: int) -> bool {
    s.lock < locks && forall|i: int| 0 <= i < s.held.len() ==> #[trigger] s.held[i] < locks
}

/// The call's caller, locks and targets exist.
pub open spec fn link_ok(c: LinkV, methods: int, locks: int) -> bool {
    &&& c.caller < methods
    &&& forall|i: int| 0 <= i < c.held.len() ==> #[trigger] c.held[i] < locks
    &&& forall|i: int| 0 <= i < c.targets.len() ==> #[trigger] c.targets[i] < methods
}

/// The method's file, spans and calls exist.
pub open spec fn rec_ok(r: RecV, files: int, locks: int, calls: int) -> bool {
    &&& r.file < files
    &&& r.calls.0 <= r.calls.1 <= calls
    &&& forall|i: int| 0 <= i < r.spans.len() ==> span_ok(#[trigger] r.spans[i], locks)
}

/// Everything that the graph names exists.
pub open spec fn board_ok(b: BoardV, methods: int) -> bool {
    &&& forall|i: int|
        0 <= i < b.recs.len() ==> rec_ok(
            #[trigger] b.recs[i],
            b.files.len() as int,
            b.locks.len() as int,
            b.calls.len() as int,
        )
    &&& forall|i: int|
        0 <= i < b.calls.len() ==> link_ok(#[trigger] b.calls[i], methods, b.locks.len() as int)
}

/// A lock acquisition and the lines it is held over.
pub struct Spot {
    pub lock: usize,
    pub enter: u32,
    pub exit: u32,
    pub held: Vec<usize>,
}

/// A call site with its targets.
pub struct Link {
    pub caller: usize,
    pub line: u32,
    pub held: Vec<usize>,
    pub targets: Vec<usize>,
}

/// A method.
pub struct Rec {
    pub key: String,
    pub file: usize,
    pub line_lo: u32,
    pub line_hi: u32,
    pub spans: Vec<Spot>,
    pub calls: (usize, usize),
}

/// The interned call graph.
pub struct Board {
    pub locks: Names,
    pub files: Names,
    pub recs: Vec<Rec>,
    pub calls: Vec<Link>,
}

impl DeepView for Spot {
    type V = SpanV;

    open spec fn deep_view(&self) -> SpanV {
        SpanV { lock: self.lock, enter: self.enter, exit: self.exit, held: self.held@ }
    }
}

impl DeepView for Link {
    type V = LinkV;

    open spec fn deep_view(&self) -> LinkV {
        LinkV {
            caller: self.caller,
            line: self.line,
            held: self.held@,
            targets: self.targets@,
        }
    }
}

impl DeepView for Rec {
    type V = RecV;

    open spec fn deep_view(&self) -> RecV {
        RecV {
            key: self.key@,
            file: self.file,
            line_lo: self.line_lo,
            line_hi: self.line_hi,
            spans: self.spans.deep_view(),
            calls: self.calls,
        }
    }
}

impl DeepView for Board {
    type V = BoardV;

    open spec fn deep_view(&self) -> BoardV {
        BoardV {
            locks: self.locks@,
            files: self.files@,
            recs: self.recs.deep_view(),
            calls: self.calls.deep_view(),
        }
    }
}

fn intern_all(locks: &mut Names, ns: &Vec<String>) -> (r: Vec<usize>)
    requires
        old(locks).wf(),
    ensures
        final(locks).wf(),
        (final(locks)@, r@) == interned(old(locks)@, ns.deep_view(), 0, Seq::empty()),
{
    let ghost nv = ns.deep_view();
    let ghost begin = locks@;
    let mut out: Vec<usize> = Vec::new();
    let mut k: usize = 0;
    while k < ns.len()
        invariant
            k <= ns@.len(),
            nv == ns.deep_view(),
            locks.wf(),
            interned(begin, nv, 0, Seq::empty()) == interned(locks@, nv, k as int, out@),
        decreases ns@.len() - k,
    {
        proof {
            assert(nv[k as int] == ns@[k as int]@);
        }
        let i = locks.intern(ns[k].as_str());
        out.push(i);
        k += 1;
    }
    out
}

fn place_spans(locks: &mut Names, ss: &Vec<NamedSpan>) -> (r: Vec<Spot>)
    requires
        old(locks).wf(),
    ensures
        final(locks).wf(),
        (final(locks)@, r.deep_view()) == spans_from(
            old(locks)@,
            ss.deep_view(),
            0,
            Seq::empty(),
        ),
{
    let ghost sv = ss.deep_view();
    let ghost begin = locks@;
    let mut out: Vec<Spot> = values::empty();
    let mut k: usize = 0;
    while k < ss.len()
        invariant
            k <= ss@.len(),
            sv == ss.deep_view(),
            locks.wf(),
            spans_from(begin, sv, 0, Seq::empty()) == spans_from(
                locks@,
                sv,
                k as int,
                out.deep_view(),
            ),
        decreases ss@.len() - k,
    {
        proof {
            assert(sv[k as int] == ss@[k as int].deep_view());
        }
        let lock = locks.intern(ss[k].lock.as_str());
        let held = intern_all(locks, &ss[k].held);
        let s = Spot { lock, enter: ss[k].enter, exit: ss[k].exit, held };
        values::push(&mut out, s);
        k += 1;
    }
    out
}

fn line_range(m: &Method) -> (r: (u32, u32))
    ensures
        r == lines(m.deep_view()),
{
    let ghost pv = m.positions@;
    let mut lo: u32 = u32::MAX;
    let mut hi: u32 = 0;
    let mut k: usize = 0;
    while k < m.positions.len()
        invariant
            k <= m.positions@.len(),
            pv == m.positions@,
            lines_from(pv, 0, u32::MAX, 0) == lines_from(pv, k as int, lo, hi),
        decreases m.positions@.len() - k,
    {
        let l = m.positions[k].1;
        if l < lo {
            lo = l;
        }
        if l > hi {
            hi = l;
        }
        k += 1;
    }
    if lo == u32::MAX {
        (scan::NO_LINE, scan::NO_LINE)
    } else {
        (lo, hi)
    }
}

fn find_passed(types: &Dict<Vec<String>>, caller: usize, recv: &Kind) -> (r: Vec<String>)
    requires
        types.wf(),
    ensures
        r.deep_view() == passed_in(types@, caller, recv.deep_view()),
{
    match recv {
        Kind::Formal(j) => {
            let f = types::formal_name(caller, *j as u64);
            match types.get(f.as_str()) {
                Some(list) => list.dup(),
                None => values::empty(),
            }
        },
        _ => values::empty(),
    }
}

fn place_calls(
    linker: &mut Linker,
    cap: usize,
    types: &Dict<Vec<String>>,
    caller: usize,
    m: &Method,
    locks: &mut Names,
    list: &Vec<NamedCall>,
    calls: &mut Vec<Link>,
    Ghost(ms): Ghost<Seq<MethodV>>,
    Ghost(cs): Ghost<Seq<ClassV>>,
)
    requires
        old(linker).of(ms, cs),
        old(locks).wf(),
        types.wf(),
        caller < ms.len(),
        ms[caller as int] == m.deep_view(),
    ensures
        final(linker).of(ms, cs),
        final(locks).wf(),
        (final(locks)@, final(calls).deep_view()) == calls_from(
            ms,
            cs,
            cap,
            types@,
            caller,
            old(locks)@,
            list.deep_view(),
            0,
            old(calls).deep_view(),
        ),
{
    let typed = types::find_calls(m);
    let ghost tv = typed.deep_view();
    let ghost lv = list.deep_view();
    let ghost begin = locks@;
    let ghost cv = calls.deep_view();
    let mut k: usize = 0;
    while k < list.len()
        invariant
            k <= list@.len(),
            lv == list.deep_view(),
            linker.of(ms, cs),
            locks.wf(),
            types.wf(),
            caller < ms.len(),
            tv == typed.deep_view(),
            tv == types::typed_calls(ms[caller as int]),
            calls_from(ms, cs, cap, types@, caller, begin, lv, 0, cv) == calls_from(
                ms,
                cs,
                cap,
                types@,
                caller,
                locks@,
                lv,
                k as int,
                calls.deep_view(),
            ),
        decreases list@.len() - k,
    {
        proof {
            assert(lv[k as int] == list@[k as int].deep_view());
        }
        let c = &list[k];
        let held = intern_all(locks, &c.held);
        let d = text::cat3(c.name.as_str(), ":", c.sig.as_str());
        let recv = types::find_receiver(&typed, c.at);
        let passed = find_passed(types, caller, &recv);
        let targets = linker.refine(
            cap,
            c.class.as_str(),
            d.as_str(),
            c.kind,
            recv,
            passed,
            Ghost(ms),
            Ghost(cs),
        );
        values::push(calls, Link { caller, line: c.line, held, targets });
        k += 1;
    }
}

/// Scan, intern and link every method of a program.
pub fn assemble(dex: &Dex, ms: &Vec<&Method>, cap: usize) -> (r: Board)
    requires
        ms.deep_view() == dex.deep_view().methods(),
    ensures
        r.locks.wf(),
        r.files.wf(),
        r.deep_view() == board(dex.deep_view(), cap),
        board_ok(r.deep_view(), ms@.len() as int),
        r.recs@.len() == ms@.len(),
{
    let ghost mv = ms.deep_view();
    let ghost cs = dex.deep_view().classes;
    let acqs = crate::dex::acquire::acquisitions(dex);
    let t = scan::site_table(&acqs);
    let fx = flow::effects(dex);
    let mut linker = Linker::new(dex, ms);
    let types = types::find_classes(&mut linker, ms, cap, Ghost(mv), Ghost(cs));
    let mut files = Names::new();
    files.intern("");
    proof {
        assert(files@ =~= seq![""@]);
    }
    let mut b = Board {
        locks: Names::new(),
        files,
        recs: values::empty(),
        calls: values::empty(),
    };
    let ghost begin = b.deep_view();
    let mut k: usize = 0;
    while k < ms.len()
        invariant
            k <= ms@.len(),
            mv == ms.deep_view(),
            t.wf(),
            fx.wf(),
            types.wf(),
            linker.of(mv, cs),
            b.locks.wf(),
            b.files.wf(),
            placed_from(mv, cs, cap, types@, fx@, t@, 0, begin) == placed_from(
                mv,
                cs,
                cap,
                types@,
                fx@,
                t@,
                k as int,
                b.deep_view(),
            ),
        decreases ms@.len() - k,
    {
        let m = ms[k];
        proof {
            assert(mv[k as int] == m.deep_view());
        }
        let sc = scan::scan(m, &fx, &t);
        let file: usize = match &m.source_file {
            Some(f) => b.files.intern(f.as_str()),
            None => 0,
        };
        let (line_lo, line_hi) = line_range(m);
        let spans = place_spans(&mut b.locks, &sc.spans);
        let c0 = b.calls.len();
        place_calls(
            &mut linker,
            cap,
            &types,
            k,
            m,
            &mut b.locks,
            &sc.calls,
            &mut b.calls,
            Ghost(mv),
            Ghost(cs),
        );
        let rec = Rec {
            key: m.key(),
            file,
            line_lo,
            line_hi,
            spans,
            calls: (c0, b.calls.len()),
        };
        values::push(&mut b.recs, rec);
        k += 1;
    }
    proof {
        b.locks.lemma_len();
        b.files.lemma_len();
        assert(b.calls.deep_view().len() == b.calls.len());
        sound::lemma_board(dex.deep_view(), cap);
        sound::lemma_board_len(dex.deep_view(), cap);
    }
    b
}

} // verus!

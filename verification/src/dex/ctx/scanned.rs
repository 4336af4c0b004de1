//! What the records of the index say of the methods they were made of: the spans, the call
//! sites, the lines, and what each call may reach.

use crate::dex::acquire;
use crate::dex::acquire::AcquisitionV;
use crate::dex::binder;
use crate::dex::ctx::answers;
use crate::dex::ctx::assemble;
use crate::dex::ctx::link;
use crate::dex::ctx::scan;
use crate::dex::ctx::scan::{NamedCallV, NamedSpanV, ScanV, SitesV};
use crate::dex::ctx::whole;
use crate::dex::ctx::Options;
use crate::dex::flow;
use crate::dex::flow::{EffectsV, EventV};
use crate::dex::hierarchy;
use crate::dex::model::{ClassV, DexV, InvokeKind, LockV, MethodV};
use crate::dex::remote;
use crate::dict;
use crate::dict::DictV;
use vstd::prelude::*;

verus! {

/// A call site as it is recorded: with what it calls, where it stands, and the names of the
/// locks held that have one.
pub open spec fn as_call(canon: DictV<Seq<char>>) -> spec_fn(EventV) -> NamedCallV {
    |e: EventV|
        NamedCallV {
            class: e->inv.class,
            name: e->inv.name,
            sig: e->inv.sig,
            kind: e->inv.kind,
            at: e->at,
            line: match e->Call_line {
                Some(l) => l,
                None => 0,
            },
            held: e->Call_held.filter(|l: LockV| !l.is_opaque()).map_values(
                |l: LockV| scan::canon_name(canon, l),
            ),
        }
}

/// The calls among the events, as they are recorded.
pub open spec fn calls_of(canon: DictV<Seq<char>>, es: Seq<EventV>) -> Seq<NamedCallV> {
    es.filter(|e: EventV| e is Call).map_values(as_call(canon))
}

proof fn lemma_canon_names(canon: DictV<Seq<char>>, ls: Seq<LockV>, k: int)
    requires
        0 <= k <= ls.len(),
    ensures
        scan::canon_names(
            canon,
            ls,
            k,
            ls.take(k).map_values(|l: LockV| scan::canon_name(canon, l)),
        ) == ls.map_values(|l: LockV| scan::canon_name(canon, l)),
    decreases ls.len() - k,
{
    let f = |l: LockV| scan::canon_name(canon, l);
    if k < ls.len() {
        lemma_canon_names(canon, ls, k + 1);
        assert(ls.take(k + 1).map_values(f) =~= ls.take(k).map_values(f).push(f(ls[k])));
    } else {
        assert(ls.take(k) =~= ls);
    }
}

proof fn lemma_all_canon(canon: DictV<Seq<char>>, ls: Seq<LockV>)
    ensures
        scan::canon_names(canon, ls, 0, Seq::empty()) == ls.map_values(
            |l: LockV| scan::canon_name(canon, l),
        ),
{
    lemma_canon_names(canon, ls, 0);
    assert(ls.take(0).map_values(|l: LockV| scan::canon_name(canon, l)) =~= Seq::empty());
}

proof fn lemma_seen_calls(canon: DictV<Seq<char>>, es: Seq<EventV>, k: int, st: ScanV)
    requires
        0 <= k <= es.len(),
        st.calls == calls_of(canon, es.take(k)),
    ensures
        scan::all_seen(canon, es, k, st).calls == calls_of(canon, es),
    decreases es.len() - k,
{
    reveal(Seq::filter);
    if k < es.len() {
        let next = scan::seen(canon, st, es[k]);
        assert(es.take(k + 1).drop_last() =~= es.take(k));
        assert(es.take(k + 1).last() == es[k]);
        if es[k] is Call {
            let held = es[k]->Call_held;
            let p = |l: LockV| !l.is_opaque();
            remote::lemma_clear(held, 0);
            assert(held.take(0) =~= Seq::empty());
            assert(held.take(0).filter(p) =~= Seq::empty());
            lemma_all_canon(canon, held.filter(p));
            assert(next.calls == st.calls.push(as_call(canon)(es[k])));
            assert(calls_of(canon, es.take(k + 1)) =~= calls_of(canon, es.take(k)).push(
                as_call(canon)(es[k]),
            ));
        } else {
            assert(next.calls == st.calls);
        }
        lemma_seen_calls(canon, es, k + 1, next);
    } else {
        assert(es.take(k) =~= es);
    }
}

/// The names under which the locks of a method are recorded.
pub open spec fn canon_of(m: MethodV, fx: EffectsV, t: SitesV) -> DictV<Seq<char>> {
    scan::canon_from(t, m.key(), flow::events(m, fx, Seq::empty()), 0, DictV::none())
}

/// The call sites of a method are recorded as they happen, each with what it calls, its line,
/// and the locks held there that have a name.
pub proof fn law_call_sites_are_recorded(m: MethodV, fx: EffectsV, t: SitesV)
    ensures
        scan::scanned(m, fx, t).calls == calls_of(
            canon_of(m, fx, t),
            flow::events(m, fx, Seq::empty()),
        ),
{
    reveal(Seq::filter);
    let es = flow::events(m, fx, Seq::empty());
    let canon = canon_of(m, fx, t);
    let st = ScanV { open: Seq::empty(), spans: Seq::empty(), calls: Seq::empty() };
    assert(es.take(0) =~= Seq::empty());
    assert(calls_of(canon, es.take(0)) =~= st.calls);
    lemma_seen_calls(canon, es, 0, st);
}

/// The span that an acquisition begins: of that lock, from that line on, under what was held.
pub open spec fn begins(canon: DictV<Seq<char>>, e: EventV, s: NamedSpanV) -> bool {
    e matches EventV::Acquire { lock, held, line } && {
        &&& s.ground == lock.name()
        &&& s.lock == scan::canon_name(canon, lock)
        &&& s.enter == (match line {
            Some(l) => l,
            None => 0,
        })
        &&& s.held == held.map_values(|l: LockV| scan::canon_name(canon, l))
    }
}

/// Each span was begun by an acquisition, and ends behind the line at which it was.
pub open spec fn spans_begun(canon: DictV<Seq<char>>, es: Seq<EventV>, ss: Seq<NamedSpanV>) -> bool {
    forall|j: int|
        #![trigger ss[j]]
        0 <= j < ss.len() ==> (exists|i: int|
            0 <= i < es.len() && begins(canon, #[trigger] es[i], ss[j])) && (ss[j].enter
            < ss[j].exit || ss[j].enter == u32::MAX)
}

/// How many events are acquisitions.
pub open spec fn acquisitions(es: Seq<EventV>) -> nat {
    es.filter(|e: EventV| e is Acquire).len()
}

proof fn lemma_seen_spans(canon: DictV<Seq<char>>, es: Seq<EventV>, k: int, st: ScanV)
    requires
        0 <= k <= es.len(),
        spans_begun(canon, es, st.open),
        spans_begun(canon, es, st.spans),
        st.open.len() + st.spans.len() == acquisitions(es.take(k)),
    ensures
        ({
            let r = scan::all_seen(canon, es, k, st);
            &&& spans_begun(canon, es, r.open)
            &&& spans_begun(canon, es, r.spans)
            &&& r.open.len() + r.spans.len() == acquisitions(es)
        }),
    decreases es.len() - k,
{
    reveal(Seq::filter);
    if k < es.len() {
        let next = scan::seen(canon, st, es[k]);
        assert(es.take(k + 1).drop_last() =~= es.take(k));
        assert(es.take(k + 1).last() == es[k]);
        match es[k] {
            EventV::Acquire { lock, held, line } => {
                lemma_all_canon(canon, held);
                let s = next.open.last();
                assert(begins(canon, es[k], s));
                assert forall|j: int| #![trigger next.open[j]] 0 <= j < next.open.len() implies (
                exists|i: int| 0 <= i < es.len() && begins(canon, #[trigger] es[i], next.open[j]))
                    && (next.open[j].enter < next.open[j].exit || next.open[j].enter == u32::MAX) by {
                    if j < st.open.len() {
                        assert(next.open[j] == st.open[j]);
                    }
                }
            },
            EventV::Release { lock, line } => {
                let g = lock.name();
                lemma_last_span(st.open, g, st.open.len() as int);
                lemma_last_span(st.spans, g, st.spans.len() as int);
                match scan::last_span(st.open, g, st.open.len() as int) {
                    Some(p) => {
                        assert forall|j: int| #![trigger next.open[j]] 0 <= j < next.open.len() implies (
                        exists|i: int|
                            0 <= i < es.len() && begins(canon, #[trigger] es[i], next.open[j])) && (
                        next.open[j].enter < next.open[j].exit || next.open[j].enter == u32::MAX) by {
                            if j < p {
                                assert(next.open[j] == st.open[j]);
                            } else {
                                assert(next.open[j] == st.open[j + 1]);
                            }
                        }
                        let s = st.open[p];
                        let i = choose|i: int| 0 <= i < es.len() && begins(canon, #[trigger] es[i], s);
                        assert(begins(canon, es[i], next.spans.last()));
                        assert forall|j: int| #![trigger next.spans[j]] 0 <= j < next.spans.len() implies (
                        exists|i: int|
                            0 <= i < es.len() && begins(canon, #[trigger] es[i], next.spans[j])) && (
                        next.spans[j].enter < next.spans[j].exit || next.spans[j].enter == u32::MAX) by {
                            if j < st.spans.len() {
                                assert(next.spans[j] == st.spans[j]);
                            }
                        }
                    },
                    None => match scan::last_span(st.spans, g, st.spans.len() as int) {
                        Some(p) => {
                            let s = st.spans[p];
                            let i = choose|i: int|
                                0 <= i < es.len() && begins(canon, #[trigger] es[i], s);
                            assert(begins(canon, es[i], next.spans[p]));
                            assert forall|j: int| #![trigger next.spans[j]] 0 <= j < next.spans.len() implies (
                            exists|i: int|
                                0 <= i < es.len() && begins(canon, #[trigger] es[i], next.spans[j]))
                                && (next.spans[j].enter < next.spans[j].exit || next.spans[j].enter
                                == u32::MAX) by {
                                if j != p {
                                    assert(next.spans[j] == st.spans[j]);
                                }
                            }
                        },
                        None => {},
                    },
                }
            },
            _ => {},
        }
        lemma_seen_spans(canon, es, k + 1, next);
    } else {
        assert(es.take(k) =~= es);
    }
}

proof fn lemma_last_span(spans: Seq<NamedSpanV>, ground: Seq<char>, k: int)
    requires
        0 <= k <= spans.len(),
    ensures
        match scan::last_span(spans, ground, k) {
            Some(p) => 0 <= p < k && spans[p].ground == ground && forall|i: int|
                p < i < k ==> (#[trigger] spans[i]).ground != ground,
            None => forall|i: int| 0 <= i < k ==> (#[trigger] spans[i]).ground != ground,
        },
    decreases k,
{
    if k > 0 && spans[k - 1].ground != ground {
        lemma_last_span(spans, ground, k - 1);
    }
}

/// A method has a span for each of its acquisitions: as many, each begun by one of them, of
/// its lock and from its line on, and covering that line.
pub proof fn law_spans_begin_at_acquisitions(m: MethodV, fx: EffectsV, t: SitesV)
    ensures
        ({
            let es = flow::events(m, fx, Seq::empty());
            let ss = scan::scanned(m, fx, t).spans;
            ss.len() == acquisitions(es) && spans_begun(canon_of(m, fx, t), es, ss)
        }),
{
    reveal(Seq::filter);
    let es = flow::events(m, fx, Seq::empty());
    let canon = canon_of(m, fx, t);
    let st = ScanV { open: Seq::empty(), spans: Seq::empty(), calls: Seq::empty() };
    assert(es.take(0) =~= Seq::empty());
    lemma_seen_spans(canon, es, 0, st);
    let r = scan::all_seen(canon, es, 0, st);
    let ss = scan::scanned(m, fx, t).spans;
    assert forall|j: int| #![trigger ss[j]] 0 <= j < ss.len() implies (exists|i: int|
        0 <= i < es.len() && begins(canon, #[trigger] es[i], ss[j])) && (ss[j].enter < ss[j].exit
        || ss[j].enter == u32::MAX) by {
        if j < r.spans.len() {
            assert(ss[j] == r.spans[j]);
        } else {
            assert(ss[j] == r.open[j - r.spans.len()]);
        }
    }
}

/// A span ends where its lock is released: at that line, but never on the line at which it
/// began. The innermost open span of the lock is the one that ends; a release when none is
/// open makes the last one reach as far; and one that is never released is held to the end.
pub proof fn law_spans_end_at_releases(
    canon: DictV<Seq<char>>,
    st: ScanV,
    lock: LockV,
    line: u32,
    p: int,
)
    requires
        0 <= p < st.open.len(),
        st.open[p].ground == lock.name(),
        forall|i: int| p < i < st.open.len() ==> (#[trigger] st.open[i]).ground != lock.name(),
    ensures
        ({
            let r = scan::seen(canon, st, EventV::Release { lock, line: Some(line) });
            let s = st.open[p];
            &&& r.open == st.open.take(p) + st.open.skip(p + 1)
            &&& r.spans.len() == st.spans.len() + 1
            &&& r.spans.drop_last() == st.spans
            &&& r.spans.last().lock == s.lock && r.spans.last().enter == s.enter
            &&& r.spans.last().held == s.held
            &&& line > s.enter ==> r.spans.last().exit == line
            &&& line <= s.enter < u32::MAX ==> r.spans.last().exit == s.enter + 1
        }),
{
    lemma_last_span(st.open, lock.name(), st.open.len() as int);
    let r = scan::seen(canon, st, EventV::Release { lock, line: Some(line) });
    assert(st.open.remove(p) =~= st.open.take(p) + st.open.skip(p + 1));
    assert(r.spans.drop_last() =~= st.spans);
}

/// A release of a lock whose spans are all closed makes the last of them reach to its line,
/// and none end sooner.
pub proof fn law_later_releases_extend_the_span(
    canon: DictV<Seq<char>>,
    st: ScanV,
    lock: LockV,
    line: u32,
    p: int,
)
    requires
        forall|i: int| 0 <= i < st.open.len() ==> (#[trigger] st.open[i]).ground != lock.name(),
        0 <= p < st.spans.len(),
        st.spans[p].ground == lock.name(),
        forall|i: int| p < i < st.spans.len() ==> (#[trigger] st.spans[i]).ground != lock.name(),
    ensures
        ({
            let r = scan::seen(canon, st, EventV::Release { lock, line: Some(line) });
            &&& r.open == st.open
            &&& r.spans.len() == st.spans.len()
            &&& forall|i: int| 0 <= i < r.spans.len() && i != p ==> #[trigger] r.spans[i] == st.spans[i]
            &&& r.spans[p].enter == st.spans[p].enter && r.spans[p].lock == st.spans[p].lock
            &&& r.spans[p].exit >= line && r.spans[p].exit >= st.spans[p].exit
            &&& r.spans[p].exit == line || r.spans[p].exit == st.spans[p].exit
        }),
{
    lemma_last_span(st.open, lock.name(), st.open.len() as int);
    lemma_last_span(st.spans, lock.name(), st.spans.len() as int);
}

/// An acquisition opens a span that is held to the end until it is released.
pub proof fn law_unreleased_spans_reach_the_end(
    canon: DictV<Seq<char>>,
    st: ScanV,
    lock: LockV,
    held: Seq<LockV>,
    line: Option<u32>,
)
    ensures
        ({
            let e = EventV::Acquire { lock, held, line };
            let r = scan::seen(canon, st, e);
            &&& r.spans == st.spans
            &&& r.open.drop_last() == st.open
            &&& begins(canon, e, r.open.last())
            &&& r.open.last().exit == u32::MAX
        }),
{
    lemma_all_canon(canon, held);
    let r = scan::seen(canon, st, EventV::Acquire { lock, held, line });
    assert(r.open.drop_last() =~= st.open);
}

/// The line of an acquisition, none being line zero.
pub open spec fn site_line(a: AcquisitionV) -> u32 {
    match a.line {
        Some(l) => l,
        None => 0,
    }
}

/// Every acquisition of that method at that line takes that lock, and there is one.
pub open spec fn only_takes(list: Seq<AcquisitionV>, key: Seq<char>, line: u32, c: Seq<char>) -> bool {
    &&& exists|i: int|
        0 <= i < list.len() && (#[trigger] list[i]).method == key && site_line(list[i]) == line
    &&& forall|i: int|
        0 <= i < list.len() && (#[trigger] list[i]).method == key && site_line(list[i]) == line
            ==> list[i].lock == c
}

/// Some acquisition is of that method at that line.
pub open spec fn takes_some(list: Seq<AcquisitionV>, key: Seq<char>, line: u32) -> bool {
    exists|i: int|
        0 <= i < list.len() && (#[trigger] list[i]).method == key && site_line(list[i]) == line
}

proof fn lemma_line_at(list: Seq<(u32, Option<Seq<char>>)>, line: u32, k: int)
    requires
        0 <= k,
    ensures
        match scan::line_at(list, line, k) {
            Some(p) => k <= p < list.len() && list[p].0 == line && forall|i: int|
                k <= i < p ==> (#[trigger] list[i]).0 != line,
            None => forall|i: int| k <= i < list.len() ==> (#[trigger] list[i]).0 != line,
        },
    decreases list.len() - k,
{
    if k < list.len() && list[k].0 != line {
        lemma_line_at(list, line, k + 1);
    }
}

/// The table knows the lock of a line exactly where all acquisitions there agree.
spec fn knows(t: SitesV, list: Seq<AcquisitionV>, key: Seq<char>, line: u32) -> bool {
    let l = dict::list_at(t, key);
    match scan::line_at(l, line, 0) {
        Some(p) => takes_some(list, key, line) && match l[p].1 {
            Some(c) => only_takes(list, key, line, c),
            None => forall|c: Seq<char>| !#[trigger] only_takes(list, key, line, c),
        },
        None => !takes_some(list, key, line),
    }
}

proof fn lemma_more_takes(list: Seq<AcquisitionV>, k: int, key: Seq<char>, line: u32)
    requires
        0 <= k < list.len(),
    ensures
        ({
            let a = list[k];
            let here = a.method == key && site_line(a) == line;
            &&& takes_some(list.take(k + 1), key, line) <==> takes_some(list.take(k), key, line)
                || here
            &&& forall|c: Seq<char>| #[trigger]
                only_takes(list.take(k + 1), key, line, c) <==> if here {
                    a.lock == c && (only_takes(list.take(k), key, line, c) || !takes_some(
                        list.take(k),
                        key,
                        line,
                    ))
                } else {
                    only_takes(list.take(k), key, line, c)
                }
        }),
{
    let s = list.take(k);
    let t = list.take(k + 1);
    let a = list[k];
    let here = a.method == key && site_line(a) == line;
    assert(t[k] == a);
    assert forall|i: int| 0 <= i < k implies #[trigger] t[i] == s[i] by {}
    assert forall|i: int| 0 <= i < k implies t[i] == #[trigger] s[i] by {}
    if takes_some(s, key, line) {
        let i = choose|i: int|
            0 <= i < s.len() && (#[trigger] s[i]).method == key && site_line(s[i]) == line;
        assert(t[i].method == key);
    }
    if takes_some(t, key, line) && !here {
        let i = choose|i: int|
            0 <= i < t.len() && (#[trigger] t[i]).method == key && site_line(t[i]) == line;
        assert(s[i].method == key);
    }
    assert forall|c: Seq<char>| #[trigger]
        only_takes(t, key, line, c) <==> if here {
            a.lock == c && (only_takes(s, key, line, c) || !takes_some(s, key, line))
        } else {
            only_takes(s, key, line, c)
        } by {
        if only_takes(t, key, line, c) {
            assert forall|i: int|
                0 <= i < s.len() && (#[trigger] s[i]).method == key && site_line(s[i])
                    == line implies s[i].lock == c by {
                assert(t[i] == s[i]);
            }
        }
    }
}

proof fn lemma_noted(t: SitesV, list: Seq<AcquisitionV>, k: int, key: Seq<char>, line: u32)
    requires
        0 <= k < list.len(),
        forall|x: Seq<char>, n: u32| #[trigger] knows(t, list.take(k), x, n),
    ensures
        knows(scan::site_noted(t, list[k]), list.take(k + 1), key, line),
{
    let a = list[k];
    let n = site_line(a);
    let next = scan::site_noted(t, a);
    let old = dict::list_at(t, a.method);
    lemma_more_takes(list, k, key, line);
    assert(knows(t, list.take(k), key, line));
    assert(knows(t, list.take(k), a.method, n));
    lemma_line_at(old, n, 0);
    if key != a.method {
        assert(dict::list_at(next, key) == dict::list_at(t, key));
    } else {
        let l = dict::list_at(next, key);
        lemma_line_at(old, line, 0);
        lemma_line_at(l, line, 0);
        match scan::line_at(old, n, 0) {
            None => {
                assert(l == old.push((n, Some(a.lock))));
                if line == n {
                    assert(l[old.len() as int].0 == n);
                } else {
                    lemma_same_line(old, l, line);
                }
            },
            Some(p) => {
                if old[p].1 == Some(a.lock) {
                    assert(l =~= old);
                } else {
                    assert(l == old.update(p, (n, None)));
                    if line == n {
                        assert(scan::line_at(l, line, 0) == Some(p)) by {
                            let q = scan::line_at(l, line, 0)->0;
                            assert(l[p].0 == line);
                            if q < p {
                                assert(old[q].0 == line);
                            }
                        }
                    } else {
                        lemma_same_line(old, l, line);
                    }
                }
            },
        }
    }
}

/// Two tables that agree but on another line find a line alike.
proof fn lemma_same_line(
    a: Seq<(u32, Option<Seq<char>>)>,
    b: Seq<(u32, Option<Seq<char>>)>,
    line: u32,
)
    requires
        a.len() <= b.len(),
        forall|i: int| 0 <= i < a.len() ==> (#[trigger] a[i] == b[i] || a[i].0 == b[i].0 && a[i].0 != line),
        forall|i: int| a.len() <= i < b.len() ==> (#[trigger] b[i]).0 != line,
    ensures
        scan::line_at(a, line, 0) == scan::line_at(b, line, 0),
        scan::line_at(a, line, 0) matches Some(p) ==> a[p] == b[p],
{
    lemma_line_at(a, line, 0);
    lemma_line_at(b, line, 0);
    match (scan::line_at(a, line, 0), scan::line_at(b, line, 0)) {
        (Some(p), Some(q)) => {
            assert(a[p] == b[p] || a[p].0 == b[p].0 && a[p].0 != line);
            assert(q < a.len());
            assert(a[q] == b[q] || a[q].0 == b[q].0 && a[q].0 != line);
        },
        (Some(p), None) => {
            assert(a[p] == b[p] || a[p].0 == b[p].0 && a[p].0 != line);
        },
        (None, Some(q)) => {
            if q < a.len() {
                assert(a[q] == b[q] || a[q].0 == b[q].0 && a[q].0 != line);
            }
        },
        _ => {},
    }
}

proof fn lemma_sites(list: Seq<AcquisitionV>, k: int, t: SitesV, key: Seq<char>, line: u32)
    requires
        0 <= k <= list.len(),
        forall|x: Seq<char>, n: u32| #[trigger] knows(t, list.take(k), x, n),
    ensures
        knows(scan::sites_from(list, k, t), list, key, line),
    decreases list.len() - k,
{
    if k < list.len() {
        let next = scan::site_noted(t, list[k]);
        assert forall|x: Seq<char>, n: u32| #[trigger] knows(next, list.take(k + 1), x, n) by {
            lemma_noted(t, list, k, x, n);
        }
        lemma_sites(list, k + 1, next, key, line);
    } else {
        assert(list.take(k) =~= list);
        assert(knows(t, list.take(k), key, line));
    }
}

/// The lock of a line of a method is known exactly where every acquisition there is of that
/// lock; where two differ, nothing is known.
pub proof fn law_site_names_are_unambiguous(
    list: Seq<AcquisitionV>,
    key: Seq<char>,
    line: u32,
    c: Seq<char>,
)
    ensures
        scan::site_name(scan::sites_from(list, 0, DictV::none()), key, line) == Some(c)
            <==> only_takes(list, key, line, c),
{
    assert forall|x: Seq<char>, n: u32| #[trigger]
        knows(DictV::none(), list.take(0), x, n) by {
        assert(dict::list_at(DictV::<Seq<(u32, Option<Seq<char>>)>>::none(), x) =~= Seq::empty());
    }
    lemma_sites(list, 0, DictV::none(), key, line);
    let t = scan::sites_from(list, 0, DictV::none());
    assert(knows(t, list, key, line));
    let l = dict::list_at(t, key);
    match scan::line_at(l, line, 0) {
        Some(p) => match l[p].1 {
            Some(x) => {
                if only_takes(list, key, line, c) {
                    let i = choose|i: int|
                        0 <= i < list.len() && (#[trigger] list[i]).method == key && site_line(
                            list[i],
                        ) == line;
                    assert(list[i].lock == c && list[i].lock == x);
                }
            },
            None => {},
        },
        None => {
            assert(only_takes(list, key, line, c) ==> takes_some(list, key, line));
        },
    }
}

/// The lines that a method covers run from the least to the greatest of its line table, and
/// both are in it.
pub proof fn law_methods_cover_their_lines(m: MethodV, i: int)
    requires
        0 <= i < m.positions.len(),
        m.positions[i].1 < u32::MAX,
    ensures
        assemble::lines(m).0 <= m.positions[i].1 <= assemble::lines(m).1,
        exists|j: int| 0 <= j < m.positions.len() && (#[trigger] m.positions[j]).1 == assemble::lines(m).0,
        exists|j: int| 0 <= j < m.positions.len() && (#[trigger] m.positions[j]).1 == assemble::lines(m).1,
{
    lemma_lines(m.positions, 0, u32::MAX, 0);
    let (lo, hi) = assemble::lines_from(m.positions, 0, u32::MAX, 0);
    let x = m.positions[i];
}

proof fn lemma_lines(ps: Seq<(u32, u32)>, k: int, lo: u32, hi: u32)
    requires
        0 <= k <= ps.len(),
    ensures
        ({
            let (a, b) = assemble::lines_from(ps, k, lo, hi);
            &&& a <= lo && hi <= b
            &&& forall|i: int| k <= i < ps.len() ==> a <= (#[trigger] ps[i]).1 <= b
            &&& a == lo || exists|i: int| k <= i < ps.len() && (#[trigger] ps[i]).1 == a
            &&& b == hi || exists|i: int| k <= i < ps.len() && (#[trigger] ps[i]).1 == b
            &&& hi == 0 && lo == u32::MAX && k < ps.len() ==> exists|i: int|
                k <= i < ps.len() && (#[trigger] ps[i]).1 == b
        }),
    decreases ps.len() - k,
{
    if k < ps.len() {
        let l = ps[k].1;
        let x = if l < lo {
            l
        } else {
            lo
        };
        let y = if l > hi {
            l
        } else {
            hi
        };
        lemma_lines(ps, k + 1, x, y);
        if hi == 0 && lo == u32::MAX {
            let (a, b) = assemble::lines_from(ps, k, lo, hi);
            if b == y {
                assert(ps[k].1 == b);
            }
        }
    }
}

/// The last method of that key.
pub open spec fn is_last_of(ms: Seq<MethodV>, t: int, key: Seq<char>) -> bool {
    &&& 0 <= t < ms.len()
    &&& ms[t].key() == key
    &&& forall|i: int| t < i < ms.len() ==> (#[trigger] ms[i]).key() != key
}

proof fn lemma_last_of(ms: Seq<MethodV>, k: int, acc: DictV<usize>, key: Seq<char>)
    requires
        0 <= k,
        ms.len() <= usize::MAX,
    ensures
        match acquire::last_of(ms, k, acc).get(key) {
            Some(t) => (k <= t && is_last_of(ms, t as int, key)) || (acc.get(key) == Some(t)
                && forall|i: int| k <= i < ms.len() ==> (#[trigger] ms[i]).key() != key),
            None => acc.get(key) is None && forall|i: int|
                k <= i < ms.len() ==> (#[trigger] ms[i]).key() != key,
        },
    decreases ms.len() - k,
{
    if k < ms.len() {
        lemma_last_of(ms, k + 1, acc.put(ms[k].key(), k as usize), key);
    }
}

proof fn lemma_decls(ms: Seq<MethodV>, k: int, acc: DictV<Seq<usize>>, decl: Seq<char>, t: usize)
    requires
        0 <= k,
        ms.len() <= usize::MAX,
    ensures
        dict::list_at(link::decls_from(ms, k, acc), decl).contains(t) <==> dict::list_at(
            acc,
            decl,
        ).contains(t) || (k <= t < ms.len() && ms[t as int].name + ":"@ + ms[t as int].sig == decl),
    decreases ms.len() - k,
{
    if k < ms.len() {
        let d = flow::declared(ms[k].name, ms[k].sig);
        let next = dict::put_more(acc, d, k as usize);
        lemma_decls(ms, k + 1, next, decl, t);
        answers::lemma_pushed(dict::list_at(acc, d), k as usize, t);
        if d == decl {
            assert(dict::list_at(next, decl) == dict::list_at(acc, decl).push(k as usize));
        } else {
            assert(dict::list_at(next, decl) == dict::list_at(acc, decl));
        }
    }
}

/// How many methods are declared so.
pub open spec fn declarations(ms: Seq<MethodV>, decl: Seq<char>) -> nat {
    ms.filter(|m: MethodV| m.name + ":"@ + m.sig == decl).len()
}

proof fn lemma_decl_count(ms: Seq<MethodV>, k: int, acc: DictV<Seq<usize>>, decl: Seq<char>)
    requires
        0 <= k <= ms.len(),
        dict::list_at(acc, decl).len() == declarations(ms.take(k), decl),
    ensures
        dict::list_at(link::decls_from(ms, k, acc), decl).len() == declarations(ms, decl),
    decreases ms.len() - k,
{
    reveal(Seq::filter);
    if k < ms.len() {
        let d = flow::declared(ms[k].name, ms[k].sig);
        let next = dict::put_more(acc, d, k as usize);
        assert(ms.take(k + 1).drop_last() =~= ms.take(k));
        assert(ms.take(k + 1).last() == ms[k]);
        if d == decl {
            assert(dict::list_at(next, decl) == dict::list_at(acc, decl).push(k as usize));
        } else {
            assert(dict::list_at(next, decl) == dict::list_at(acc, decl));
        }
        lemma_decl_count(ms, k + 1, next, decl);
    } else {
        assert(ms.take(k) =~= ms);
    }
}

proof fn lemma_overrides(
    ms: Seq<MethodV>,
    cs: Seq<ClassV>,
    class: Seq<char>,
    ds: Seq<usize>,
    j: int,
    acc: Seq<usize>,
    t: usize,
)
    requires
        0 <= j,
    ensures
        link::overrides(ms, cs, class, ds, j, acc).contains(t) <==> acc.contains(t) || ((exists|
            i: int,
        |
            j <= i < ds.len() && #[trigger] ds[i] == t) && (ms[t as int].class == class
            || hierarchy::is_above(hierarchy::parents(cs), ms[t as int].class, class))),
    decreases ds.len() - j,
{
    if j < ds.len() {
        let dc = ms[ds[j] as int].class;
        hierarchy::law_ancestors_are_all_above(cs, dc);
        let next = if !acc.contains(ds[j]) && (dc == class || hierarchy::ancestors(
            cs,
            dc,
        ).contains(class)) {
            acc.push(ds[j])
        } else {
            acc
        };
        answers::lemma_pushed(acc, ds[j], t);
        lemma_overrides(ms, cs, class, ds, j + 1, next, t);
    }
}

/// What a call may reach: the method that it names in its class or, where that has none, in
/// the nearest class above that has one; and, where it is dispatched and no more methods than
/// the bound are declared so, every method so declared in the class or below it.
pub proof fn law_calls_reach_the_named_method_and_overrides(
    ms: Seq<MethodV>,
    cs: Seq<ClassV>,
    cap: usize,
    class: Seq<char>,
    decl: Seq<char>,
    kind: InvokeKind,
    t: usize,
)
    requires
        ms.len() <= usize::MAX,
    ensures
        is_last_of(ms, t as int, class + "."@ + decl) ==> link::targets(
            ms,
            cs,
            cap,
            class,
            decl,
            kind,
        ).contains(t),
        (kind == InvokeKind::Virtual || kind == InvokeKind::Interface) && declarations(ms, decl)
            <= cap && t < ms.len() && ms[t as int].name + ":"@ + ms[t as int].sig == decl && (
        ms[t as int].class == class || hierarchy::is_above(
            hierarchy::parents(cs),
            ms[t as int].class,
            class,
        )) ==> link::targets(ms, cs, cap, class, decl, kind).contains(t),
        link::targets(ms, cs, cap, class, decl, kind).contains(t) ==> {
            ||| is_last_of(ms, t as int, class + "."@ + decl)
            ||| (forall|i: int| 0 <= i < ms.len() ==> (#[trigger] ms[i]).key() != class + "."@ + decl)
                && exists|up: Seq<char>| #[trigger]
                hierarchy::is_above(hierarchy::parents(cs), class, up) && is_last_of(
                    ms,
                    t as int,
                    up + "."@ + decl,
                )
            ||| (kind == InvokeKind::Virtual || kind == InvokeKind::Interface) && declarations(
                ms,
                decl,
            ) <= cap && t < ms.len() && ms[t as int].name + ":"@ + ms[t as int].sig == decl && (
            ms[t as int].class == class || hierarchy::is_above(
                hierarchy::parents(cs),
                ms[t as int].class,
                class,
            ))
        },
{
    reveal(Seq::filter);
    let none = DictV::<Seq<usize>>::none();
    let ids = acquire::last_of(ms, 0, DictV::none());
    let ds = dict::list_at(link::decls_from(ms, 0, none), decl);
    let first = match link::static_target(cs, ids, class, decl) {
        Some(x) => seq![x],
        None => Seq::empty(),
    };
    assert(dict::list_at(none, decl) =~= Seq::empty());
    assert(ms.take(0) =~= Seq::empty());
    lemma_decl_count(ms, 0, none, decl);
    lemma_decls(ms, 0, none, decl, t);
    lemma_overrides(ms, cs, class, ds, 0, first, t);
    lemma_last_of(ms, 0, DictV::none(), class + "."@ + decl);
    hierarchy::law_ancestors_are_all_above(cs, class);
    lemma_first_declaring(ms, hierarchy::ancestors(cs, class), decl, 0);
    if ds.contains(t) {
        let i = choose|i: int| 0 <= i < ds.len() && ds[i] == t;
        assert(ds[i] == t);
    }
    let own = class + "."@ + decl;
    if is_last_of(ms, t as int, own) {
        let id = ids.get(own);
        assert(ms[t as int].key() == own);
        assert(id is Some);
        let u = id->0;
        assert(ms[u as int].key() == own);
        assert(u == t);
        assert(first[0] == t);
        assert(first.contains(t));
    }
    if first.contains(t) && !is_last_of(ms, t as int, own) {
        assert(first[0] == t);
        assert(ids.get(own) is None);
        let up = hierarchy::ancestors(cs, class);
        let i = choose|i: int|
            0 <= i < up.len() && is_last_of(ms, t as int, #[trigger] up[i] + "."@ + decl);
        assert(up.contains(up[i]));
        assert(hierarchy::is_above(hierarchy::parents(cs), class, up[i]));
    }
}

proof fn lemma_first_declaring(ms: Seq<MethodV>, up: Seq<Seq<char>>, decl: Seq<char>, k: int)
    requires
        0 <= k,
        ms.len() <= usize::MAX,
    ensures
        match link::first_declaring(acquire::last_of(ms, 0, DictV::none()), up, decl, k) {
            Some(t) => exists|i: int|
                k <= i < up.len() && is_last_of(ms, t as int, #[trigger] up[i] + "."@ + decl),
            None => forall|i: int, j: int|
                k <= i < up.len() && 0 <= j < ms.len() ==> (#[trigger] ms[j]).key()
                    != #[trigger] up[i] + "."@ + decl,
        },
    decreases up.len() - k,
{
    if k < up.len() {
        lemma_last_of(ms, 0, DictV::none(), up[k] + "."@ + decl);
        lemma_first_declaring(ms, up, decl, k + 1);
        match acquire::last_of(ms, 0, DictV::none()).get(up[k] + "."@ + decl) {
            Some(t) => {
                assert(is_last_of(ms, t as int, up[k] + "."@ + decl));
            },
            None => {},
        }
    }
}

/// The methods whose call is a binder call: those whose body has a transaction, and the
/// operations that an AIDL type declares without a body, its plumbing left out.
pub proof fn law_binder_methods_are_remote(d: DexV, opts: Options, m: u32)
    requires
        d.methods().len() <= u32::MAX,
    ensures
        whole::built(d, opts).binder.contains(m) <==> m < d.methods().len() && {
            let x = d.methods()[m as int];
            ||| exists|k: int|
                0 <= k < x.insns.len() && (#[trigger] x.insns[k].op matches crate::dex::model::OpV::Invoke(
                    inv,
                ) && remote::is_transaction(inv))
            ||| {
                &&& x.insns.len() == 0
                &&& remote::is_aidl_type(d, x.class)
                &&& !(exists|rest: Seq<char>| x.name == #[trigger] ("<"@ + rest))
                &&& x.name != "asBinder"@
                &&& x.name != "getInterfaceDescriptor"@
            }
        },
{
    let ifaces = binder::aidl_from(d.classes, 0, Seq::empty());
    lemma_remote_from(d.methods(), ifaces, 0, Seq::empty(), m);
    if m < d.methods().len() {
        let x = d.methods()[m as int];
        remote::lemma_has_transact(x);
        remote::lemma_begins(x.name, "<"@);
        remote::law_aidl_types_stand_below_iinterface(d, x.class);
    }
}

proof fn lemma_remote_from(ms: Seq<MethodV>, ifaces: Seq<Seq<char>>, k: int, acc: Seq<u32>, m: u32)
    requires
        0 <= k,
        ms.len() <= u32::MAX,
    ensures
        whole::remote_from(ms, ifaces, k, acc).contains(m) <==> acc.contains(m) || (k <= m < ms.len()
            && whole::is_remote(ms[m as int], ifaces)),
    decreases ms.len() - k,
{
    if k < ms.len() {
        let next = if whole::is_remote(ms[k], ifaces) {
            acc.push(k as u32)
        } else {
            acc
        };
        lemma_remote_from(ms, ifaces, k + 1, next, m);
        answers::lemma_pushed(acc, k as u32, m);
    }
}

/// The event acquires a lock of that name.
pub open spec fn acquires(e: EventV, name: Seq<char>) -> bool {
    e matches EventV::Acquire { lock, held, line } && lock.name() == name
}

proof fn lemma_canon(
    t: scan::SitesV,
    key: Seq<char>,
    es: Seq<EventV>,
    k: int,
    acc: DictV<Seq<char>>,
    name: Seq<char>,
    i: int,
)
    requires
        0 <= k <= i <= es.len(),
        i < es.len() ==> acquires(es[i], name),
        forall|j: int| k <= j < i ==> !acquires(#[trigger] es[j], name),
    ensures
        acc.get(name) is Some ==> scan::canon_from(t, key, es, k, acc).get(name) == acc.get(name),
        acc.get(name) is None && i == es.len() ==> scan::canon_from(t, key, es, k, acc).get(name) is None,
        acc.get(name) is None && i < es.len() ==> scan::canon_from(t, key, es, k, acc).get(name) == Some(
            match scan::site_name(
                t,
                key,
                match es[i]->Acquire_line {
                    Some(x) => x,
                    None => 0,
                },
            ) {
                Some(c) => c,
                None => name,
            },
        ),
    decreases es.len() - k,
{
    if k < es.len() {
        let next = match es[k] {
            EventV::Acquire { lock, held, line } => if acc.map.contains_key(lock.name()) {
                acc
            } else {
                acc.put(
                    lock.name(),
                    match scan::site_name(t, key, scan::line_or(line)) {
                        Some(c) => c,
                        None => lock.name(),
                    },
                )
            },
            _ => acc,
        };
        assert(scan::canon_from(t, key, es, k, acc) == scan::canon_from(t, key, es, k + 1, next));
        if k < i {
            assert(!acquires(es[k], name));
            assert(next.get(name) == acc.get(name));
            lemma_canon(t, key, es, k + 1, next, name, i);
        } else {
            assert(next.get(name) is Some);
            lemma_stays(t, key, es, k + 1, next, name);
        }
    }
}

proof fn lemma_stays(
    t: scan::SitesV,
    key: Seq<char>,
    es: Seq<EventV>,
    k: int,
    acc: DictV<Seq<char>>,
    name: Seq<char>,
)
    requires
        0 <= k,
        acc.get(name) is Some,
    ensures
        scan::canon_from(t, key, es, k, acc).get(name) == acc.get(name),
    decreases es.len() - k,
{
    if k < es.len() {
        let next = match es[k] {
            EventV::Acquire { lock, held, line } => if acc.map.contains_key(lock.name()) {
                acc
            } else {
                acc.put(
                    lock.name(),
                    match scan::site_name(t, key, scan::line_or(line)) {
                        Some(c) => c,
                        None => lock.name(),
                    },
                )
            },
            _ => acc,
        };
        assert(scan::canon_from(t, key, es, k, acc) == scan::canon_from(t, key, es, k + 1, next));
        lemma_stays(t, key, es, k + 1, next, name);
    }
}

/// In a method a lock goes by the name of the site where the method first takes it, where that
/// has one, and by its own name where it has none or the method never takes it.
pub proof fn law_locks_go_by_their_first_site(
    t: scan::SitesV,
    key: Seq<char>,
    es: Seq<EventV>,
    l: LockV,
    i: int,
)
    requires
        0 <= i <= es.len(),
        i < es.len() ==> acquires(es[i], l.name()),
        forall|j: int| 0 <= j < i ==> !acquires(#[trigger] es[j], l.name()),
    ensures
        ({
            let canon = scan::canon_from(t, key, es, 0, DictV::none());
            &&& i == es.len() ==> scan::canon_name(canon, l) == l.name()
            &&& i < es.len() ==> scan::canon_name(canon, l) == match scan::site_name(
                t,
                key,
                match es[i]->Acquire_line {
                    Some(x) => x,
                    None => 0,
                },
            ) {
                Some(c) => c,
                None => l.name(),
            }
        }),
{
    lemma_canon(t, key, es, 0, DictV::none(), l.name(), i);
}

} // verus!

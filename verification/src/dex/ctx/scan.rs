//! The lock spans and call sites of one method, by canonical name.

use crate::dex::acquire::{Acquisition, AcquisitionV};
use crate::dex::flow;
use crate::dex::flow::{Effect, EffectsV, Event, EventV};
use crate::dex::model::{InvokeKind, Lock, LockV, Method, MethodV};
use crate::dict;
use crate::dict::{Dict, DictV};
use crate::text;
use crate::values;
use crate::values::Dup;
use vstd::prelude::*;

verus! {

/// Line used when a method has no debug position for an instruction.
pub const NO_LINE: u32 = 0;

/// A span whose release was not observed is held to the end of the method.
pub const TO_END: u32 = 0xffff_ffff;

/// The canonical lock of each acquisition site, by method and line; nothing where two
/// different acquisitions share a line.
pub type SitesV = DictV<Seq<(u32, Option<Seq<char>>)>>;

/// The first entry of that line from the `k`th on.
pub open spec fn line_at(list: Seq<(u32, Option<Seq<char>>)>, line: u32, k: int) -> Option<int>
    decreases list.len() - k,
{
    if k >= list.len() {
        None
    } else if list[k].0 == line {
        Some(k)
    } else {
        line_at(list, line, k + 1)
    }
}

/// The line, or the stand-in for none.
pub open spec fn line_or(l: Option<u32>) -> u32 {
    match l {
        Some(x) => x,
        None => NO_LINE,
    }
}

/// With one more acquisition.
pub open spec fn site_noted(t: SitesV, a: AcquisitionV) -> SitesV {
    let list = dict::list_at(t, a.method);
    let line = line_or(a.line);
    match line_at(list, line, 0) {
        None => t.put(a.method, list.push((line, Some(a.lock)))),
        Some(p) => if list[p].1 == Some(a.lock) {
            t
        } else {
            t.put(a.method, list.update(p, (line, None)))
        },
    }
}

/// The acquisitions from the `k`th on, behind `acc`.
pub open spec fn sites_from(list: Seq<AcquisitionV>, k: int, acc: SitesV) -> SitesV
    decreases list.len() - k,
{
    if k >= list.len() {
        acc
    } else {
        sites_from(list, k + 1, site_noted(acc, list[k]))
    }
}

/// The canonical lock at a line of a method.
pub open spec fn site_name(t: SitesV, key: Seq<char>, line: u32) -> Option<Seq<char>> {
    let list = dict::list_at(t, key);
    match line_at(list, line, 0) {
        Some(p) => list[p].1,
        None => None,
    }
}

/// The canonical name of each lock that the events from the `k`th on acquire, behind
/// `acc`: that of the site where it is first acquired, else its own.
pub open spec fn canon_from(
    t: SitesV,
    key: Seq<char>,
    es: Seq<EventV>,
    k: int,
    acc: DictV<Seq<char>>,
) -> DictV<Seq<char>>
    decreases es.len() - k,
{
    if k >= es.len() {
        acc
    } else {
        canon_from(
            t,
            key,
            es,
            k + 1,
            match es[k] {
                EventV::Acquire { lock, held, line } => if acc.map.contains_key(lock.name()) {
                    acc
                } else {
                    acc.put(
                        lock.name(),
                        match site_name(t, key, line_or(line)) {
                            Some(c) => c,
                            None => lock.name(),
                        },
                    )
                },
                _ => acc,
            },
        )
    }
}

/// The canonical name of a lock.
pub open spec fn canon_name(canon: DictV<Seq<char>>, l: LockV) -> Seq<char> {
    match canon.get(l.name()) {
        Some(c) => c,
        None => l.name(),
    }
}

/// The canonical names of the locks from the `k`th on, behind `acc`.
pub open spec fn canon_names(
    canon: DictV<Seq<char>>,
    ls: Seq<LockV>,
    k: int,
    acc: Seq<Seq<char>>,
) -> Seq<Seq<char>>
    decreases ls.len() - k,
{
    if k >= ls.len() {
        acc
    } else {
        canon_names(canon, ls, k + 1, acc.push(canon_name(canon, ls[k])))
    }
}

/// A lock and the lines it is held over; `ground` is its name in the method.
pub struct NamedSpanV {
    pub ground: Seq<char>,
    pub lock: Seq<char>,
    pub enter: u32,
    pub exit: u32,
    pub held: Seq<Seq<char>>,
}

/// A call site before its targets are known; `at` is its offset.
pub struct NamedCallV {
    pub class: Seq<char>,
    pub name: Seq<char>,
    pub sig: Seq<char>,
    pub kind: InvokeKind,
    pub at: u32,
    pub line: u32,
    pub held: Seq<Seq<char>>,
}

/// What was seen of a method: the locks not yet released, the spans, the calls.
pub struct ScanV {
    pub open: Seq<NamedSpanV>,
    pub spans: Seq<NamedSpanV>,
    pub calls: Seq<NamedCallV>,
}

/// The last of the first `k` spans of that lock.
pub open spec fn last_span(spans: Seq<NamedSpanV>, ground: Seq<char>, k: int) -> Option<int>
    decreases k,
{
    if k <= 0 {
        None
    } else if spans[k - 1].ground == ground {
        Some(k - 1)
    } else {
        last_span(spans, ground, k - 1)
    }
}

/// The larger of two lines.
pub open spec fn later(a: u32, b: u32) -> u32 {
    if a < b {
        b
    } else {
        a
    }
}

/// The line behind `l`.
pub open spec fn next_line(l: u32) -> u32 {
    if l == u32::MAX {
        l
    } else {
        (l + 1) as u32
    }
}

/// A span released at `line`, exclusively; one opened and closed on one line still
/// covers it.
pub open spec fn closed_at(s: NamedSpanV, line: u32) -> NamedSpanV {
    NamedSpanV { exit: later(line, next_line(s.enter)), ..s }
}

/// What one event adds. A block may be left on several paths: its first release closes
/// its span, a later one extends it.
pub open spec fn seen(canon: DictV<Seq<char>>, st: ScanV, e: EventV) -> ScanV {
    match e {
        EventV::Acquire { lock, held, line } => ScanV {
            open: st.open.push(
                NamedSpanV {
                    ground: lock.name(),
                    lock: canon_name(canon, lock),
                    enter: line_or(line),
                    exit: TO_END,
                    held: canon_names(canon, held, 0, Seq::empty()),
                },
            ),
            ..st
        },
        EventV::Release { lock, line } => {
            let g = lock.name();
            match last_span(st.open, g, st.open.len() as int) {
                Some(p) => ScanV {
                    open: st.open.remove(p),
                    spans: st.spans.push(closed_at(st.open[p], line_or(line))),
                    ..st
                },
                None => match last_span(st.spans, g, st.spans.len() as int) {
                    Some(p) => ScanV {
                        spans: st.spans.update(
                            p,
                            NamedSpanV {
                                exit: later(line_or(line), st.spans[p].exit),
                                ..st.spans[p]
                            },
                        ),
                        ..st
                    },
                    None => st,
                },
            }
        },
        EventV::Call { inv, held, line, at } => ScanV {
            calls: st.calls.push(
                NamedCallV {
                    class: inv.class,
                    name: inv.name,
                    sig: inv.sig,
                    kind: inv.kind,
                    at,
                    line: line_or(line),
                    held: canon_names(canon, flow::clear(held, 0, Seq::empty()), 0, Seq::empty()),
                },
            ),
            ..st
        },
        EventV::Field { class, field, write, held, line } => st,
    }
}

/// What the events from the `k`th on add to `st`.
pub open spec fn all_seen(canon: DictV<Seq<char>>, es: Seq<EventV>, k: int, st: ScanV) -> ScanV
    decreases es.len() - k,
{
    if k >= es.len() {
        st
    } else {
        all_seen(canon, es, k + 1, seen(canon, st, es[k]))
    }
}

/// The spans and calls of a method; what is still open at its end is held to its end.
pub open spec fn scanned(m: MethodV, fx: EffectsV, t: SitesV) -> ScanV {
    let es = flow::events(m, fx, Seq::empty());
    let canon = canon_from(t, m.key(), es, 0, DictV::none());
    let st = all_seen(
        canon,
        es,
        0,
        ScanV { open: Seq::empty(), spans: Seq::empty(), calls: Seq::empty() },
    );
    ScanV { open: Seq::empty(), spans: st.spans + st.open, calls: st.calls }
}

/// A lock and the lines it is held over; `ground` is its name in the method.
pub struct NamedSpan {
    pub ground: String,
    pub lock: String,
    pub enter: u32,
    pub exit: u32,
    pub held: Vec<String>,
}

/// A call site before its targets are known; `at` is its offset.
pub struct NamedCall {
    pub class: String,
    pub name: String,
    pub sig: String,
    pub kind: InvokeKind,
    pub at: u32,
    pub line: u32,
    pub held: Vec<String>,
}

/// The spans and calls of a method.
pub struct Scan {
    pub open: Vec<NamedSpan>,
    pub spans: Vec<NamedSpan>,
    pub calls: Vec<NamedCall>,
}

impl DeepView for NamedSpan {
    type V = NamedSpanV;

    open spec fn deep_view(&self) -> NamedSpanV {
        NamedSpanV {
            ground: self.ground@,
            lock: self.lock@,
            enter: self.enter,
            exit: self.exit,
            held: self.held.deep_view(),
        }
    }
}

impl DeepView for NamedCall {
    type V = NamedCallV;

    open spec fn deep_view(&self) -> NamedCallV {
        NamedCallV {
            class: self.class@,
            name: self.name@,
            sig: self.sig@,
            kind: self.kind,
            at: self.at,
            line: self.line,
            held: self.held.deep_view(),
        }
    }
}

impl DeepView for Scan {
    type V = ScanV;

    open spec fn deep_view(&self) -> ScanV {
        ScanV {
            open: self.open.deep_view(),
            spans: self.spans.deep_view(),
            calls: self.calls.deep_view(),
        }
    }
}

fn find_line(list: &Vec<(u32, Option<String>)>, line: u32) -> (r: Option<usize>)
    ensures
        match r {
            Some(p) => p < list@.len() && line_at(list.deep_view(), line, 0) == Some(p as int),
            None => line_at(list.deep_view(), line, 0) is None,
        },
{
    let ghost lv = list.deep_view();
    let mut k: usize = 0;
    while k < list.len()
        invariant
            k <= list@.len(),
            lv == list.deep_view(),
            line_at(lv, line, 0) == line_at(lv, line, k as int),
        decreases list@.len() - k,
    {
        proof {
            assert(lv[k as int] == list@[k as int].deep_view());
        }
        if list[k].0 == line {
            return Some(k);
        }
        k += 1;
    }
    None
}

fn line_of(l: Option<u32>) -> (r: u32)
    ensures
        r == line_or(l),
{
    match l {
        Some(x) => x,
        None => NO_LINE,
    }
}

/// The canonical lock of each acquisition site, by method and line.
pub fn site_table(list: &Vec<Acquisition>) -> (r: Dict<Vec<(u32, Option<String>)>>)
    ensures
        r.wf(),
        r@ == sites_from(list.deep_view(), 0, DictV::none()),
{
    let ghost lv = list.deep_view();
    let mut t: Dict<Vec<(u32, Option<String>)>> = Dict::new();
    let mut k: usize = 0;
    while k < list.len()
        invariant
            k <= list@.len(),
            lv == list.deep_view(),
            t.wf(),
            sites_from(lv, 0, DictV::none()) == sites_from(lv, k as int, t@),
        decreases list@.len() - k,
    {
        proof {
            assert(lv[k as int] == list@[k as int].deep_view());
        }
        let a = &list[k];
        let line = line_of(a.line);
        let mut at: Vec<(u32, Option<String>)> = match t.get(a.method.as_str()) {
            Some(l) => l.dup(),
            None => values::empty(),
        };
        let ghost av = at.deep_view();
        match find_line(&at, line) {
            None => {
                values::push(&mut at, (line, Some(a.lock.dup())));
                t.set(a.method.as_str(), at);
            },
            Some(p) => {
                proof {
                    assert(av[p as int] == at@[p as int].deep_view());
                }
                let same = match &at[p].1 {
                    Some(prev) => text::str_eq(prev.as_str(), a.lock.as_str()),
                    None => false,
                };
                if !same {
                    at.set(p, (line, None));
                    proof {
                        assert(at.deep_view() =~= av.update(p as int, (line, None)));
                    }
                    t.set(a.method.as_str(), at);
                }
            },
        }
        k += 1;
    }
    t
}

fn name_at(t: &Dict<Vec<(u32, Option<String>)>>, key: &str, line: u32) -> (r: Option<String>)
    requires
        t.wf(),
    ensures
        r.deep_view() == site_name(t@, key@, line),
{
    match t.get(key) {
        None => None,
        Some(list) => match find_line(list, line) {
            Some(p) => {
                proof {
                    assert(list.deep_view()[p as int] == list@[p as int].deep_view());
                }
                list[p].1.dup()
            },
            None => None,
        },
    }
}

fn find_canon(t: &Dict<Vec<(u32, Option<String>)>>, key: &str, es: &Vec<Event>) -> (r: Dict<String>)
    requires
        t.wf(),
    ensures
        r.wf(),
        r@ == canon_from(t@, key@, es.deep_view(), 0, DictV::none()),
{
    let ghost ev = es.deep_view();
    let mut out: Dict<String> = Dict::new();
    let mut k: usize = 0;
    while k < es.len()
        invariant
            k <= es@.len(),
            ev == es.deep_view(),
            t.wf(),
            out.wf(),
            canon_from(t@, key@, ev, 0, DictV::none()) == canon_from(t@, key@, ev, k as int, out@),
        decreases es@.len() - k,
    {
        proof {
            assert(ev[k as int] == es@[k as int].deep_view());
        }
        match &es[k] {
            Event::Acquire { lock, held, line } => {
                let g = lock.name();
                if !out.has(g.as_str()) {
                    let c = match name_at(t, key, line_of(*line)) {
                        Some(c) => c,
                        None => lock.name(),
                    };
                    out.set(g.as_str(), c);
                }
            },
            _ => {},
        }
        k += 1;
    }
    out
}

fn name_of(canon: &Dict<String>, l: &Lock) -> (r: String)
    requires
        canon.wf(),
    ensures
        r@ == canon_name(canon@, l.deep_view()),
{
    let g = l.name();
    match canon.get(g.as_str()) {
        Some(c) => c.dup(),
        None => l.name(),
    }
}

fn names_of(canon: &Dict<String>, ls: &Vec<Lock>) -> (r: Vec<String>)
    requires
        canon.wf(),
    ensures
        r.deep_view() == canon_names(canon@, ls.deep_view(), 0, Seq::empty()),
{
    let ghost lv = ls.deep_view();
    let mut out: Vec<String> = values::empty();
    let mut k: usize = 0;
    while k < ls.len()
        invariant
            k <= ls@.len(),
            lv == ls.deep_view(),
            canon.wf(),
            canon_names(canon@, lv, 0, Seq::empty()) == canon_names(
                canon@,
                lv,
                k as int,
                out.deep_view(),
            ),
        decreases ls@.len() - k,
    {
        proof {
            assert(lv[k as int] == ls@[k as int].deep_view());
        }
        values::push(&mut out, name_of(canon, &ls[k]));
        k += 1;
    }
    out
}

fn find_span(spans: &Vec<NamedSpan>, ground: &str) -> (r: Option<usize>)
    ensures
        match r {
            Some(p) => p < spans@.len() && last_span(
                spans.deep_view(),
                ground@,
                spans@.len() as int,
            ) == Some(p as int),
            None => last_span(spans.deep_view(), ground@, spans@.len() as int) is None,
        },
{
    let ghost sv = spans.deep_view();
    let mut k = spans.len();
    while k > 0
        invariant
            k <= spans@.len(),
            sv == spans.deep_view(),
            last_span(sv, ground@, spans@.len() as int) == last_span(sv, ground@, k as int),
        decreases k,
    {
        proof {
            assert(sv[k - 1] == spans@[k - 1].deep_view());
        }
        if text::str_eq(spans[k - 1].ground.as_str(), ground) {
            return Some(k - 1);
        }
        k -= 1;
    }
    None
}

fn max_line(a: u32, b: u32) -> (r: u32)
    ensures
        r == later(a, b),
{
    if a < b {
        b
    } else {
        a
    }
}

impl Scan {
    fn release(&mut self, ground: &str, line: u32)
        ensures
            final(self).deep_view() == ({
                let st = old(self).deep_view();
                match last_span(st.open, ground@, st.open.len() as int) {
                    Some(p) => ScanV {
                        open: st.open.remove(p),
                        spans: st.spans.push(closed_at(st.open[p], line)),
                        ..st
                    },
                    None => match last_span(st.spans, ground@, st.spans.len() as int) {
                        Some(p) => ScanV {
                            spans: st.spans.update(
                                p,
                                NamedSpanV {
                                    exit: later(line, st.spans[p].exit),
                                    ..st.spans[p]
                                },
                            ),
                            ..st
                        },
                        None => st,
                    },
                }
            }),
    {
        let ghost st = self.deep_view();
        match find_span(&self.open, ground) {
            Some(p) => {
                let mut s = self.open.remove(p);
                proof {
                    assert(self.open.deep_view() =~= st.open.remove(p as int));
                    assert(s.deep_view() == st.open[p as int]);
                }
                let end = if s.enter == u32::MAX {
                    s.enter
                } else {
                    s.enter + 1
                };
                s.exit = max_line(line, end);
                values::push(&mut self.spans, s);
            },
            None => match find_span(&self.spans, ground) {
                Some(p) => {
                    proof {
                        assert(st.spans[p as int] == self.spans@[p as int].deep_view());
                    }
                    let s = &self.spans[p];
                    let longer = NamedSpan {
                        ground: s.ground.dup(),
                        lock: s.lock.dup(),
                        enter: s.enter,
                        exit: max_line(line, s.exit),
                        held: s.held.dup(),
                    };
                    let ghost lv = longer.deep_view();
                    self.spans.set(p, longer);
                    proof {
                        assert(self.spans.deep_view() =~= st.spans.update(p as int, lv));
                    }
                },
                None => {},
            },
        }
    }

    fn see(&mut self, canon: &Dict<String>, e: &Event)
        requires
            canon.wf(),
        ensures
            final(self).deep_view() == seen(canon@, old(self).deep_view(), e.deep_view()),
    {
        match e {
            Event::Acquire { lock, held, line } => {
                let s = NamedSpan {
                    ground: lock.name(),
                    lock: name_of(canon, lock),
                    enter: line_of(*line),
                    exit: TO_END,
                    held: names_of(canon, held),
                };
                values::push(&mut self.open, s);
            },
            Event::Release { lock, line } => {
                self.release(lock.name().as_str(), line_of(*line));
            },
            Event::Call { inv, held, line, at } => {
                let c = NamedCall {
                    class: inv.class.dup(),
                    name: inv.name.dup(),
                    sig: inv.sig.dup(),
                    kind: inv.kind,
                    at: *at,
                    line: line_of(*line),
                    held: names_of(canon, &flow::keep_clear(held)),
                };
                values::push(&mut self.calls, c);
            },
            Event::Field { class, field, write, held, line } => {},
        }
    }
}

/// The spans and calls of a method, by canonical name.
pub fn scan(m: &Method, fx: &Dict<Effect>, t: &Dict<Vec<(u32, Option<String>)>>) -> (r: Scan)
    requires
        fx.wf(),
        t.wf(),
    ensures
        r.deep_view() == scanned(m.deep_view(), fx@, t@),
{
    let none: Vec<Lock> = values::empty();
    let es = flow::walk(m, &none, fx);
    let ghost ev = es.deep_view();
    let canon = find_canon(t, m.key().as_str(), &es);
    let mut st = Scan { open: values::empty(), spans: values::empty(), calls: values::empty() };
    let ghost begin = st.deep_view();
    let mut k: usize = 0;
    while k < es.len()
        invariant
            k <= es@.len(),
            ev == es.deep_view(),
            canon.wf(),
            all_seen(canon@, ev, 0, begin) == all_seen(canon@, ev, k as int, st.deep_view()),
        decreases es@.len() - k,
    {
        proof {
            assert(ev[k as int] == es@[k as int].deep_view());
        }
        st.see(&canon, &es[k]);
        k += 1;
    }
    let Scan { open, spans, calls } = st;
    let mut open = open;
    let mut spans = spans;
    let ghost a = spans.deep_view();
    let ghost b = open.deep_view();
    spans.append(&mut open);
    proof {
        assert(spans.deep_view() =~= a + b);
    }
    Scan { open: values::empty(), spans, calls }
}

} // verus!

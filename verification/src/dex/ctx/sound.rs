//! Everything that the interned call graph names exists.

use crate::dex::acquire;
use crate::dex::ctx::assemble;
use crate::dex::ctx::assemble::{BoardV, LinkV, SpanV};
use crate::dex::ctx::link;
use crate::dex::ctx::scan;
use crate::dex::ctx::scan::{NamedCallV, NamedSpanV, SitesV};
use crate::dex::ctx::types::{KindV, TypesV};
use crate::dex::flow;
use crate::dex::flow::EffectsV;
use crate::dex::model::{ClassV, DexV, InvokeKind, MethodV};
use crate::dict;
use crate::dict::DictV;
use crate::names;
use vstd::prelude::*;

verus! {

/// Each of the numbers is less than `n`.
pub open spec fn below(s: Seq<usize>, n: int) -> bool {
    forall|i: int| 0 <= i < s.len() ==> #[trigger] s[i] < n
}

proof fn lemma_number(s: Seq<Seq<char>>, x: Seq<char>)
    requires
        names::with(s, x).len() <= usize::MAX,
    ensures
        assemble::number(names::with(s, x), x) < names::with(s, x).len(),
{
    names::lemma_with(s, x);
    names::lemma_position(names::with(s, x), x);
}

proof fn lemma_ids(ms: Seq<MethodV>, k: int, acc: DictV<usize>)
    requires
        0 <= k,
        ms.len() <= usize::MAX,
        forall|x: Seq<char>| #[trigger] acc.map.contains_key(x) ==> acc.map[x] < ms.len(),
    ensures
        ({
            let r = acquire::last_of(ms, k, acc);
            forall|x: Seq<char>| #[trigger] r.map.contains_key(x) ==> r.map[x] < ms.len()
        }),
    decreases ms.len() - k,
{
    if k < ms.len() {
        let next = acc.put(ms[k].key(), k as usize);
        lemma_ids(ms, k + 1, next);
        assert(acquire::last_of(ms, k, acc) == acquire::last_of(ms, k + 1, next));
    }
}

proof fn lemma_decls(ms: Seq<MethodV>, k: int, acc: DictV<Seq<usize>>)
    requires
        0 <= k,
        ms.len() <= usize::MAX,
        forall|x: Seq<char>| #[trigger]
            acc.map.contains_key(x) ==> below(acc.map[x], ms.len() as int),
    ensures
        ({
            let r = link::decls_from(ms, k, acc);
            forall|x: Seq<char>| #[trigger]
                r.map.contains_key(x) ==> below(r.map[x], ms.len() as int)
        }),
    decreases ms.len() - k,
{
    if k < ms.len() {
        let d = flow::declared(ms[k].name, ms[k].sig);
        let next = dict::put_more(acc, d, k as usize);
        assert forall|x: Seq<char>| #[trigger] next.map.contains_key(x) implies below(
            next.map[x],
            ms.len() as int,
        ) by {
            if x != d {
                assert(acc.map.contains_key(x));
            } else if acc.map.contains_key(d) {
                assert(below(acc.map[d], ms.len() as int));
            }
        }
        lemma_decls(ms, k + 1, next);
        assert(link::decls_from(ms, k, acc) == link::decls_from(ms, k + 1, next));
    }
}

proof fn lemma_declaring(ids: DictV<usize>, up: Seq<Seq<char>>, decl: Seq<char>, k: int, n: int)
    requires
        forall|x: Seq<char>| #[trigger] ids.map.contains_key(x) ==> ids.map[x] < n,
    ensures
        link::first_declaring(ids, up, decl, k) matches Some(t) ==> t < n,
    decreases up.len() - k,
{
    if k < up.len() {
        assert(ids.map.contains_key(link::member(up[k], decl)) ==> ids.map[link::member(
            up[k],
            decl,
        )] < n);
        lemma_declaring(ids, up, decl, k + 1, n);
    }
}

proof fn lemma_static(ms: Seq<MethodV>, cs: Seq<ClassV>, class: Seq<char>, decl: Seq<char>)
    requires
        ms.len() <= usize::MAX,
    ensures
        link::static_target(cs, acquire::last_of(ms, 0, DictV::none()), class, decl) matches Some(
            t,
        ) ==> t < ms.len(),
{
    let ids = acquire::last_of(ms, 0, DictV::none());
    lemma_ids(ms, 0, DictV::none());
    assert(ids.map.contains_key(link::member(class, decl)) ==> ids.map[link::member(class, decl)]
        < ms.len());
    lemma_declaring(
        ids,
        crate::dex::hierarchy::ancestors(cs, class),
        decl,
        0,
        ms.len() as int,
    );
}

proof fn lemma_overrides(
    ms: Seq<MethodV>,
    cs: Seq<ClassV>,
    class: Seq<char>,
    ds: Seq<usize>,
    j: int,
    acc: Seq<usize>,
)
    requires
        0 <= j,
        below(ds, ms.len() as int),
        below(acc, ms.len() as int),
    ensures
        below(link::overrides(ms, cs, class, ds, j, acc), ms.len() as int),
    decreases ds.len() - j,
{
    if j < ds.len() {
        lemma_overrides(ms, cs, class, ds, j + 1, acc);
        lemma_overrides(ms, cs, class, ds, j + 1, acc.push(ds[j]));
    }
}

proof fn lemma_class_methods(
    ms: Seq<MethodV>,
    cs: Seq<ClassV>,
    classes: Seq<Seq<char>>,
    decl: Seq<char>,
    k: int,
    acc: Seq<usize>,
)
    requires
        0 <= k,
        ms.len() <= usize::MAX,
        below(acc, ms.len() as int),
    ensures
        below(link::class_methods(ms, cs, classes, decl, k, acc), ms.len() as int),
    decreases classes.len() - k,
{
    if k < classes.len() {
        lemma_static(ms, cs, classes[k], decl);
        lemma_class_methods(ms, cs, classes, decl, k + 1, acc);
        match link::static_target(cs, acquire::last_of(ms, 0, DictV::none()), classes[k], decl) {
            Some(t) => {
                lemma_class_methods(ms, cs, classes, decl, k + 1, acc.push(t));
            },
            None => {},
        }
    }
}

/// Every call target is a method of the program.
pub proof fn lemma_refined(
    ms: Seq<MethodV>,
    cs: Seq<ClassV>,
    cap: usize,
    class: Seq<char>,
    decl: Seq<char>,
    kind: InvokeKind,
    recv: KindV,
    passed: Seq<Seq<char>>,
)
    requires
        ms.len() <= usize::MAX,
    ensures
        below(link::refined(ms, cs, cap, class, decl, kind, recv, passed), ms.len() as int),
{
    let n = ms.len() as int;
    let classes = match recv {
        KindV::Unknown => Seq::empty(),
        KindV::Class(c) => seq![c],
        KindV::Formal(_) => passed,
    };
    lemma_class_methods(ms, cs, classes, decl, 0, Seq::empty());
    lemma_static(ms, cs, class, decl);
    let decls = link::decls_from(ms, 0, DictV::none());
    let ds = dict::list_at(decls, decl);
    lemma_decls(ms, 0, DictV::none());
    if decls.map.contains_key(decl) {
        assert(below(decls.map[decl], n));
    }
    let ids = acquire::last_of(ms, 0, DictV::none());
    let first = match link::static_target(cs, ids, class, decl) {
        Some(t) => seq![t],
        None => Seq::empty(),
    };
    lemma_overrides(ms, cs, class, ds, 0, first);
}

proof fn lemma_interned_grows(locks: Seq<Seq<char>>, ns: Seq<Seq<char>>, k: int, ids: Seq<usize>)
    ensures
        locks.len() <= assemble::interned(locks, ns, k, ids).0.len(),
    decreases ns.len() - k,
{
    if k < ns.len() {
        let more = names::with(locks, ns[k]);
        names::lemma_with(locks, ns[k]);
        lemma_interned_grows(more, ns, k + 1, ids.push(assemble::number(more, ns[k])));
    }
}

proof fn lemma_interned(locks: Seq<Seq<char>>, ns: Seq<Seq<char>>, k: int, ids: Seq<usize>)
    requires
        assemble::interned(locks, ns, k, ids).0.len() <= usize::MAX,
        below(ids, locks.len() as int),
    ensures
        ({
            let r = assemble::interned(locks, ns, k, ids);
            below(r.1, r.0.len() as int)
        }),
    decreases ns.len() - k,
{
    if k < ns.len() {
        let more = names::with(locks, ns[k]);
        let next = ids.push(assemble::number(more, ns[k]));
        names::lemma_with(locks, ns[k]);
        lemma_interned_grows(more, ns, k + 1, next);
        lemma_number(locks, ns[k]);
        lemma_interned(more, ns, k + 1, next);
    }
}

/// Each span is in order over `n` locks.
spec fn spans_in(s: Seq<SpanV>, n: int) -> bool {
    forall|i: int| 0 <= i < s.len() ==> assemble::span_ok(#[trigger] s[i], n)
}

/// Each call is in order over `n` locks.
spec fn links_in(s: Seq<LinkV>, methods: int, n: int) -> bool {
    forall|i: int| 0 <= i < s.len() ==> assemble::link_ok(#[trigger] s[i], methods, n)
}

proof fn lemma_more_spans(s: Seq<SpanV>, n: int, more: int)
    requires
        spans_in(s, n),
        n <= more,
    ensures
        spans_in(s, more),
{
    assert forall|i: int| 0 <= i < s.len() implies assemble::span_ok(#[trigger] s[i], more) by {
        assert(assemble::span_ok(s[i], n));
    }
}

proof fn lemma_more_links(s: Seq<LinkV>, methods: int, n: int, more: int)
    requires
        links_in(s, methods, n),
        n <= more,
    ensures
        links_in(s, methods, more),
{
    assert forall|i: int| 0 <= i < s.len() implies assemble::link_ok(
        #[trigger] s[i],
        methods,
        more,
    ) by {
        assert(assemble::link_ok(s[i], methods, n));
    }
}

proof fn lemma_spans_grow(locks: Seq<Seq<char>>, ss: Seq<NamedSpanV>, k: int, acc: Seq<SpanV>)
    ensures
        locks.len() <= assemble::spans_from(locks, ss, k, acc).0.len(),
    decreases ss.len() - k,
{
    if k < ss.len() {
        let own = names::with(locks, ss[k].lock);
        names::lemma_with(locks, ss[k].lock);
        let (more, held) = assemble::interned(own, ss[k].held, 0, Seq::empty());
        lemma_interned_grows(own, ss[k].held, 0, Seq::empty());
        let s = SpanV {
            lock: assemble::number(own, ss[k].lock),
            enter: ss[k].enter,
            exit: ss[k].exit,
            held,
        };
        lemma_spans_grow(more, ss, k + 1, acc.push(s));
    }
}

proof fn lemma_spans(locks: Seq<Seq<char>>, ss: Seq<NamedSpanV>, k: int, acc: Seq<SpanV>)
    requires
        assemble::spans_from(locks, ss, k, acc).0.len() <= usize::MAX,
        spans_in(acc, locks.len() as int),
    ensures
        ({
            let r = assemble::spans_from(locks, ss, k, acc);
            spans_in(r.1, r.0.len() as int)
        }),
    decreases ss.len() - k,
{
    if k < ss.len() {
        let own = names::with(locks, ss[k].lock);
        names::lemma_with(locks, ss[k].lock);
        let (more, held) = assemble::interned(own, ss[k].held, 0, Seq::empty());
        lemma_interned_grows(own, ss[k].held, 0, Seq::empty());
        let s = SpanV {
            lock: assemble::number(own, ss[k].lock),
            enter: ss[k].enter,
            exit: ss[k].exit,
            held,
        };
        lemma_spans_grow(more, ss, k + 1, acc.push(s));
        lemma_interned(own, ss[k].held, 0, Seq::empty());
        lemma_number(locks, ss[k].lock);
        lemma_more_spans(acc, locks.len() as int, more.len() as int);
        assert(assemble::span_ok(s, more.len() as int));
        lemma_spans(more, ss, k + 1, acc.push(s));
    }
}

proof fn lemma_calls_grow(
    ms: Seq<MethodV>,
    cs: Seq<ClassV>,
    cap: usize,
    types: TypesV,
    caller: usize,
    locks: Seq<Seq<char>>,
    list: Seq<NamedCallV>,
    k: int,
    acc: Seq<LinkV>,
)
    ensures
        ({
            let r = assemble::calls_from(ms, cs, cap, types, caller, locks, list, k, acc);
            locks.len() <= r.0.len() && acc.len() <= r.1.len()
        }),
    decreases list.len() - k,
{
    if k < list.len() {
        let c = list[k];
        let (more, held) = assemble::interned(locks, c.held, 0, Seq::empty());
        lemma_interned_grows(locks, c.held, 0, Seq::empty());
        let l = LinkV {
            caller,
            line: c.line,
            held,
            targets: assemble::reached(ms, cs, cap, types, caller, c),
        };
        lemma_calls_grow(ms, cs, cap, types, caller, more, list, k + 1, acc.push(l));
    }
}

proof fn lemma_calls(
    ms: Seq<MethodV>,
    cs: Seq<ClassV>,
    cap: usize,
    types: TypesV,
    caller: usize,
    locks: Seq<Seq<char>>,
    list: Seq<NamedCallV>,
    k: int,
    acc: Seq<LinkV>,
)
    requires
        ms.len() <= usize::MAX,
        caller < ms.len(),
        assemble::calls_from(ms, cs, cap, types, caller, locks, list, k, acc).0.len()
            <= usize::MAX,
        links_in(acc, ms.len() as int, locks.len() as int),
    ensures
        ({
            let r = assemble::calls_from(ms, cs, cap, types, caller, locks, list, k, acc);
            links_in(r.1, ms.len() as int, r.0.len() as int)
        }),
    decreases list.len() - k,
{
    if k < list.len() {
        let c = list[k];
        let n = ms.len() as int;
        let (more, held) = assemble::interned(locks, c.held, 0, Seq::empty());
        lemma_interned_grows(locks, c.held, 0, Seq::empty());
        let l = LinkV {
            caller,
            line: c.line,
            held,
            targets: assemble::reached(ms, cs, cap, types, caller, c),
        };
        lemma_calls_grow(ms, cs, cap, types, caller, more, list, k + 1, acc.push(l));
        lemma_interned(locks, c.held, 0, Seq::empty());
        let recv = crate::dex::ctx::types::receiver_at(
            crate::dex::ctx::types::typed_calls(ms[caller as int]),
            c.at,
            0,
        );
        lemma_refined(
            ms,
            cs,
            cap,
            c.class,
            flow::declared(c.name, c.sig),
            c.kind,
            recv,
            assemble::passed_in(types, caller, recv),
        );
        lemma_more_links(acc, n, locks.len() as int, more.len() as int);
        assert(below(l.held, more.len() as int) && below(l.targets, n));
        assert(assemble::link_ok(l, n, more.len() as int));
        lemma_calls(ms, cs, cap, types, caller, more, list, k + 1, acc.push(l));
    }
}

proof fn lemma_placed_grows(
    ms: Seq<MethodV>,
    cs: Seq<ClassV>,
    cap: usize,
    types: TypesV,
    fx: EffectsV,
    t: SitesV,
    k: int,
    b: BoardV,
)
    ensures
        ({
            let r = assemble::placed(ms, cs, cap, types, fx, t, k, b);
            &&& b.locks.len() <= r.locks.len()
            &&& b.files.len() <= r.files.len()
            &&& b.calls.len() <= r.calls.len()
            &&& r.recs.len() == b.recs.len() + 1
        }),
{
    let m = ms[k];
    let sc = scan::scanned(m, fx, t);
    match m.source_file {
        Some(f) => {
            names::lemma_with(b.files, f);
        },
        None => {},
    }
    let (own, spans) = assemble::spans_from(b.locks, sc.spans, 0, Seq::empty());
    lemma_spans_grow(b.locks, sc.spans, 0, Seq::empty());
    lemma_calls_grow(ms, cs, cap, types, k as usize, own, sc.calls, 0, b.calls);
}

proof fn lemma_board_grows(
    ms: Seq<MethodV>,
    cs: Seq<ClassV>,
    cap: usize,
    types: TypesV,
    fx: EffectsV,
    t: SitesV,
    k: int,
    b: BoardV,
)
    requires
        0 <= k <= ms.len(),
    ensures
        ({
            let r = assemble::placed_from(ms, cs, cap, types, fx, t, k, b);
            &&& b.locks.len() <= r.locks.len()
            &&& b.files.len() <= r.files.len()
            &&& b.calls.len() <= r.calls.len()
            &&& r.recs.len() == b.recs.len() + ms.len() - k
        }),
    decreases ms.len() - k,
{
    if k < ms.len() {
        lemma_placed_grows(ms, cs, cap, types, fx, t, k, b);
        let next = assemble::placed(ms, cs, cap, types, fx, t, k, b);
        lemma_board_grows(ms, cs, cap, types, fx, t, k + 1, next);
    }
}

proof fn lemma_placed(
    ms: Seq<MethodV>,
    cs: Seq<ClassV>,
    cap: usize,
    types: TypesV,
    fx: EffectsV,
    t: SitesV,
    k: int,
    b: BoardV,
)
    requires
        0 <= k < ms.len() <= usize::MAX,
        b.files.len() >= 1,
        assemble::board_ok(b, ms.len() as int),
        ({
            let r = assemble::placed(ms, cs, cap, types, fx, t, k, b);
            r.locks.len() <= usize::MAX && r.files.len() <= usize::MAX && r.calls.len()
                <= usize::MAX
        }),
    ensures
        assemble::board_ok(assemble::placed(ms, cs, cap, types, fx, t, k, b), ms.len() as int),
{
    let n = ms.len() as int;
    let r = assemble::placed(ms, cs, cap, types, fx, t, k, b);
    let m = ms[k];
    let sc = scan::scanned(m, fx, t);
    lemma_placed_grows(ms, cs, cap, types, fx, t, k, b);
    match m.source_file {
        Some(f) => {
            lemma_number(b.files, f);
        },
        None => {},
    }
    let (own, spans) = assemble::spans_from(b.locks, sc.spans, 0, Seq::empty());
    lemma_spans_grow(b.locks, sc.spans, 0, Seq::empty());
    lemma_calls_grow(ms, cs, cap, types, k as usize, own, sc.calls, 0, b.calls);
    lemma_spans(b.locks, sc.spans, 0, Seq::empty());
    assert(links_in(b.calls, n, b.locks.len() as int));
    lemma_more_links(b.calls, n, b.locks.len() as int, own.len() as int);
    lemma_calls(ms, cs, cap, types, k as usize, own, sc.calls, 0, b.calls);
    assert(links_in(r.calls, n, r.locks.len() as int));
    let locks = r.locks.len() as int;
    assert forall|i: int| 0 <= i < r.recs.len() implies assemble::rec_ok(
        #[trigger] r.recs[i],
        r.files.len() as int,
        locks,
        r.calls.len() as int,
    ) by {
        if i < b.recs.len() {
            assert(r.recs[i] == b.recs[i]);
            assert(assemble::rec_ok(
                b.recs[i],
                b.files.len() as int,
                b.locks.len() as int,
                b.calls.len() as int,
            ));
            assert(spans_in(b.recs[i].spans, b.locks.len() as int));
            lemma_more_spans(b.recs[i].spans, b.locks.len() as int, locks);
        } else {
            lemma_more_spans(spans, own.len() as int, locks);
        }
    }
}

proof fn lemma_placed_from(
    ms: Seq<MethodV>,
    cs: Seq<ClassV>,
    cap: usize,
    types: TypesV,
    fx: EffectsV,
    t: SitesV,
    k: int,
    b: BoardV,
)
    requires
        0 <= k <= ms.len() <= usize::MAX,
        b.files.len() >= 1,
        assemble::board_ok(b, ms.len() as int),
        ({
            let r = assemble::placed_from(ms, cs, cap, types, fx, t, k, b);
            r.locks.len() <= usize::MAX && r.files.len() <= usize::MAX && r.calls.len()
                <= usize::MAX
        }),
    ensures
        assemble::board_ok(assemble::placed_from(ms, cs, cap, types, fx, t, k, b), ms.len() as int),
    decreases ms.len() - k,
{
    if k < ms.len() {
        let next = assemble::placed(ms, cs, cap, types, fx, t, k, b);
        lemma_placed_grows(ms, cs, cap, types, fx, t, k, b);
        lemma_board_grows(ms, cs, cap, types, fx, t, k + 1, next);
        lemma_placed(ms, cs, cap, types, fx, t, k, b);
        lemma_placed_from(ms, cs, cap, types, fx, t, k + 1, next);
    }
}

/// The graph has each method of the program.
pub proof fn lemma_board_len(d: DexV, cap: usize)
    ensures
        assemble::board(d, cap).recs.len() == d.methods().len(),
{
    lemma_board_grows(
        d.methods(),
        d.classes,
        cap,
        crate::dex::ctx::types::passed_classes(d.methods(), d.classes, cap),
        flow::all_effects(d),
        scan::sites_from(acquire::acquired(d), 0, DictV::none()),
        0,
        assemble::blank(),
    );
}

/// Whatever the call graph of a program names, it has.
pub proof fn lemma_board(d: DexV, cap: usize)
    requires
        d.methods().len() <= usize::MAX,
        assemble::board(d, cap).locks.len() <= usize::MAX,
        assemble::board(d, cap).files.len() <= usize::MAX,
        assemble::board(d, cap).calls.len() <= usize::MAX,
    ensures
        assemble::board_ok(assemble::board(d, cap), d.methods().len() as int),
{
    lemma_placed_from(
        d.methods(),
        d.classes,
        cap,
        crate::dex::ctx::types::passed_classes(d.methods(), d.classes, cap),
        flow::all_effects(d),
        scan::sites_from(acquire::acquired(d), 0, DictV::none()),
        0,
        assemble::blank(),
    );
}

} // verus!

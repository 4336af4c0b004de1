//! That the index holds of each method what was seen of it: under its number the key, the
//! file, the lines, the spans and the calls, with every lock by its name.

use crate::dex::acquire;
use crate::dex::ctx::assemble;
use crate::dex::ctx::assemble::{BoardV, LinkV, SpanV};
use crate::dex::ctx::index::IndexV;
use crate::dex::ctx::scan;
use crate::dex::ctx::scan::{NamedCallV, NamedSpanV, ScanV, SitesV};
use crate::dex::ctx::sound;
use crate::dex::ctx::types;
use crate::dex::ctx::types::TypesV;
use crate::dex::ctx::whole;
use crate::dex::ctx::Options;
use crate::dex::flow;
use crate::dex::flow::EffectsV;
use crate::dex::model::{ClassV, DexV, MethodV};
use crate::dict::DictV;
use crate::names;
use vstd::prelude::*;

verus! {

/// The names stay, each under its number.
pub open spec fn keeps(a: Seq<Seq<char>>, b: Seq<Seq<char>>) -> bool {
    a.len() <= b.len() && forall|i: int| 0 <= i < a.len() ==> #[trigger] b[i] == a[i]
}

/// The numbers are those of the names.
pub open spec fn number_names(locks: Seq<Seq<char>>, ids: Seq<usize>, ns: Seq<Seq<char>>) -> bool {
    &&& ids.len() == ns.len()
    &&& forall|i: int|
        #![trigger ids[i]]
        0 <= i < ids.len() ==> ids[i] < locks.len() && locks[ids[i] as int] == ns[i]
}

proof fn lemma_keeps(a: Seq<Seq<char>>, b: Seq<Seq<char>>, ids: Seq<usize>, ns: Seq<Seq<char>>)
    requires
        keeps(a, b),
        number_names(a, ids, ns),
    ensures
        number_names(b, ids, ns),
{
    assert forall|i: int| #![trigger ids[i]] 0 <= i < ids.len() implies ids[i] < b.len()
        && b[ids[i] as int] == ns[i] by {
        assert(a[ids[i] as int] == ns[i]);
    }
}

proof fn lemma_with(s: Seq<Seq<char>>, x: Seq<char>)
    ensures
        keeps(s, names::with(s, x)),
        names::with(s, x).len() <= usize::MAX ==> assemble::number(names::with(s, x), x)
            < names::with(s, x).len() && names::with(s, x)[assemble::number(names::with(s, x), x) as int]
            == x,
{
    names::lemma_with(s, x);
    names::lemma_position(names::with(s, x), x);
}

proof fn lemma_interned_keeps(locks: Seq<Seq<char>>, ns: Seq<Seq<char>>, k: int, ids: Seq<usize>)
    ensures
        keeps(locks, assemble::interned(locks, ns, k, ids).0),
    decreases ns.len() - k,
{
    if k < ns.len() {
        let more = names::with(locks, ns[k]);
        lemma_with(locks, ns[k]);
        lemma_interned_keeps(more, ns, k + 1, ids.push(assemble::number(more, ns[k])));
    }
}

proof fn lemma_interned(locks: Seq<Seq<char>>, ns: Seq<Seq<char>>, k: int, ids: Seq<usize>)
    requires
        0 <= k <= ns.len(),
        assemble::interned(locks, ns, k, ids).0.len() <= usize::MAX,
        number_names(locks, ids, ns.take(k)),
    ensures
        number_names(
            assemble::interned(locks, ns, k, ids).0,
            assemble::interned(locks, ns, k, ids).1,
            ns,
        ),
    decreases ns.len() - k,
{
    if k < ns.len() {
        let more = names::with(locks, ns[k]);
        let n = assemble::number(more, ns[k]);
        let next = ids.push(n);
        lemma_with(locks, ns[k]);
        lemma_interned_keeps(more, ns, k + 1, next);
        lemma_keeps(locks, more, ids, ns.take(k));
        assert(number_names(more, next, ns.take(k + 1))) by {
            assert forall|i: int| #![trigger next[i]] 0 <= i < next.len() implies next[i]
                < more.len() && more[next[i] as int] == ns.take(k + 1)[i] by {
                if i < ids.len() {
                    assert(next[i] == ids[i]);
                }
            }
        }
        lemma_interned(more, ns, k + 1, next);
    } else {
        assert(ns.take(k) =~= ns);
    }
}

/// The span is the one that was seen.
pub open spec fn is_span(locks: Seq<Seq<char>>, s: SpanV, n: NamedSpanV) -> bool {
    &&& s.lock < locks.len() && locks[s.lock as int] == n.lock
    &&& s.enter == n.enter
    &&& s.exit == n.exit
    &&& number_names(locks, s.held, n.held)
}

/// The call is the one that was seen.
pub open spec fn is_call(locks: Seq<Seq<char>>, c: LinkV, caller: int, n: NamedCallV, to: Seq<usize>) -> bool {
    &&& c.caller == caller
    &&& c.line == n.line
    &&& number_names(locks, c.held, n.held)
    &&& c.targets == to
}

proof fn lemma_spans_keep(locks: Seq<Seq<char>>, ss: Seq<NamedSpanV>, k: int, acc: Seq<SpanV>)
    ensures
        keeps(locks, assemble::spans_from(locks, ss, k, acc).0),
    decreases ss.len() - k,
{
    if k < ss.len() {
        let own = names::with(locks, ss[k].lock);
        lemma_with(locks, ss[k].lock);
        let (more, held) = assemble::interned(own, ss[k].held, 0, Seq::empty());
        lemma_interned_keeps(own, ss[k].held, 0, Seq::empty());
        let s = SpanV {
            lock: assemble::number(own, ss[k].lock),
            enter: ss[k].enter,
            exit: ss[k].exit,
            held,
        };
        lemma_spans_keep(more, ss, k + 1, acc.push(s));
    }
}

proof fn lemma_is_span_keeps(a: Seq<Seq<char>>, b: Seq<Seq<char>>, s: SpanV, n: NamedSpanV)
    requires
        keeps(a, b),
        is_span(a, s, n),
    ensures
        is_span(b, s, n),
{
    lemma_keeps(a, b, s.held, n.held);
    assert(b[s.lock as int] == a[s.lock as int]);
}

proof fn lemma_spans(locks: Seq<Seq<char>>, ss: Seq<NamedSpanV>, k: int, acc: Seq<SpanV>)
    requires
        0 <= k <= ss.len(),
        acc.len() == k,
        assemble::spans_from(locks, ss, k, acc).0.len() <= usize::MAX,
        forall|i: int| 0 <= i < k ==> is_span(locks, #[trigger] acc[i], ss[i]),
    ensures
        ({
            let (more, r) = assemble::spans_from(locks, ss, k, acc);
            &&& r.len() == ss.len()
            &&& forall|i: int| 0 <= i < ss.len() ==> is_span(more, #[trigger] r[i], ss[i])
        }),
    decreases ss.len() - k,
{
    if k < ss.len() {
        let own = names::with(locks, ss[k].lock);
        lemma_with(locks, ss[k].lock);
        let (more, held) = assemble::interned(own, ss[k].held, 0, Seq::empty());
        lemma_interned_keeps(own, ss[k].held, 0, Seq::empty());
        let s = SpanV {
            lock: assemble::number(own, ss[k].lock),
            enter: ss[k].enter,
            exit: ss[k].exit,
            held,
        };
        let next = acc.push(s);
        lemma_spans_keep(more, ss, k + 1, next);
        lemma_interned(own, ss[k].held, 0, Seq::empty());
        assert(more[s.lock as int] == own[s.lock as int]);
        assert forall|i: int| 0 <= i < k + 1 implies is_span(more, #[trigger] next[i], ss[i]) by {
            if i < k {
                assert(is_span(locks, acc[i], ss[i]));
                assert forall|j: int| 0 <= j < locks.len() implies #[trigger] more[j] == locks[j] by {
                    assert(own[j] == locks[j]);
                }
                lemma_is_span_keeps(locks, more, acc[i], ss[i]);
            }
        }
        lemma_spans(more, ss, k + 1, next);
    }
}

proof fn lemma_calls_keep(
    ms: Seq<MethodV>,
    cs: Seq<ClassV>,
    cap: usize,
    types: TypesV,
    caller: usize,
    locks: Seq<Seq<char>>,
    list: Seq<NamedCallV>,
    k: int,
    acc: Seq<LinkV>,
)
    requires
        0 <= k <= list.len(),
    ensures
        ({
            let (more, r) = assemble::calls_from(ms, cs, cap, types, caller, locks, list, k, acc);
            &&& keeps(locks, more)
            &&& r.len() == acc.len() + list.len() - k
            &&& forall|i: int| 0 <= i < acc.len() ==> #[trigger] r[i] == acc[i]
        }),
    decreases list.len() - k,
{
    if k < list.len() {
        let c = list[k];
        let (more, held) = assemble::interned(locks, c.held, 0, Seq::empty());
        lemma_interned_keeps(locks, c.held, 0, Seq::empty());
        let l = LinkV {
            caller,
            line: c.line,
            held,
            targets: assemble::reached(ms, cs, cap, types, caller, c),
        };
        lemma_calls_keep(ms, cs, cap, types, caller, more, list, k + 1, acc.push(l));
        let (last, r) = assemble::calls_from(ms, cs, cap, types, caller, locks, list, k, acc);
        assert forall|j: int| 0 <= j < locks.len() implies #[trigger] last[j] == locks[j] by {
            assert(more[j] == locks[j]);
        }
        assert forall|i: int| 0 <= i < acc.len() implies #[trigger] r[i] == acc[i] by {
            assert(r[i] == acc.push(l)[i]);
        }
    }
}

proof fn lemma_calls(
    ms: Seq<MethodV>,
    cs: Seq<ClassV>,
    cap: usize,
    types: TypesV,
    caller: usize,
    locks: Seq<Seq<char>>,
    list: Seq<NamedCallV>,
    k: int,
    acc: Seq<LinkV>,
    j: int,
)
    requires
        0 <= k <= j < list.len(),
        assemble::calls_from(ms, cs, cap, types, caller, locks, list, k, acc).0.len() <= usize::MAX,
    ensures
        ({
            let (more, r) = assemble::calls_from(ms, cs, cap, types, caller, locks, list, k, acc);
            is_call(
                more,
                r[acc.len() + j - k],
                caller as int,
                list[j],
                assemble::reached(ms, cs, cap, types, caller, list[j]),
            )
        }),
    decreases list.len() - k,
{
    let c = list[k];
    let (more, held) = assemble::interned(locks, c.held, 0, Seq::empty());
    lemma_interned_keeps(locks, c.held, 0, Seq::empty());
    let l = LinkV {
        caller,
        line: c.line,
        held,
        targets: assemble::reached(ms, cs, cap, types, caller, c),
    };
    lemma_calls_keep(ms, cs, cap, types, caller, more, list, k + 1, acc.push(l));
    if j > k {
        lemma_calls(ms, cs, cap, types, caller, more, list, k + 1, acc.push(l), j);
    } else {
        let (last, r) = assemble::calls_from(ms, cs, cap, types, caller, locks, list, k, acc);
        lemma_interned(locks, c.held, 0, Seq::empty());
        lemma_keeps(more, last, held, c.held);
        assert(r[acc.len() as int] == acc.push(l)[acc.len() as int]);
    }
}

/// What is recorded of the `k`th method.
pub open spec fn is_rec(
    b: BoardV,
    ms: Seq<MethodV>,
    cs: Seq<ClassV>,
    cap: usize,
    types: TypesV,
    fx: EffectsV,
    t: SitesV,
    k: int,
) -> bool {
    let r = b.recs[k];
    let sc = scan::scanned(ms[k], fx, t);
    &&& r.key == ms[k].key()
    &&& r.file < b.files.len()
    &&& b.files[r.file as int] == (match ms[k].source_file {
        Some(f) => f,
        None => ""@,
    })
    &&& (r.line_lo, r.line_hi) == assemble::lines(ms[k])
    &&& r.spans.len() == sc.spans.len()
    &&& forall|i: int| 0 <= i < sc.spans.len() ==> is_span(b.locks, #[trigger] r.spans[i], sc.spans[i])
    &&& r.calls.0 + sc.calls.len() == r.calls.1
    &&& r.calls.1 <= b.calls.len()
    &&& forall|i: int|
        #![trigger sc.calls[i]]
        0 <= i < sc.calls.len() ==> is_call(
            b.locks,
            b.calls[r.calls.0 + i],
            k,
            sc.calls[i],
            assemble::reached(ms, cs, cap, types, k as usize, sc.calls[i]),
        )
}

/// Everything recorded stays.
pub open spec fn board_keeps(a: BoardV, b: BoardV) -> bool {
    &&& keeps(a.locks, b.locks)
    &&& keeps(a.files, b.files)
    &&& a.recs.len() <= b.recs.len()
    &&& forall|i: int| 0 <= i < a.recs.len() ==> #[trigger] b.recs[i] == a.recs[i]
    &&& a.calls.len() <= b.calls.len()
    &&& forall|i: int| 0 <= i < a.calls.len() ==> #[trigger] b.calls[i] == a.calls[i]
}

proof fn lemma_rec_keeps(
    a: BoardV,
    b: BoardV,
    ms: Seq<MethodV>,
    cs: Seq<ClassV>,
    cap: usize,
    types: TypesV,
    fx: EffectsV,
    t: SitesV,
    k: int,
)
    requires
        board_keeps(a, b),
        0 <= k < a.recs.len(),
        is_rec(a, ms, cs, cap, types, fx, t, k),
    ensures
        is_rec(b, ms, cs, cap, types, fx, t, k),
{
    let r = a.recs[k];
    let sc = scan::scanned(ms[k], fx, t);
    assert(b.recs[k] == r);
    assert(b.files[r.file as int] == a.files[r.file as int]);
    assert forall|i: int| 0 <= i < sc.spans.len() implies is_span(
        b.locks,
        #[trigger] r.spans[i],
        sc.spans[i],
    ) by {
        lemma_is_span_keeps(a.locks, b.locks, r.spans[i], sc.spans[i]);
    }
    assert forall|i: int| #![trigger sc.calls[i]] 0 <= i < sc.calls.len() implies is_call(
        b.locks,
        b.calls[r.calls.0 + i],
        k,
        sc.calls[i],
        assemble::reached(ms, cs, cap, types, k as usize, sc.calls[i]),
    ) by {
        let c = a.calls[r.calls.0 + i];
        assert(is_call(
            a.locks,
            c,
            k,
            sc.calls[i],
            assemble::reached(ms, cs, cap, types, k as usize, sc.calls[i]),
        ));
        assert(b.calls[r.calls.0 + i] == c);
        lemma_keeps(a.locks, b.locks, c.held, sc.calls[i].held);
    }
}

proof fn lemma_placed(
    ms: Seq<MethodV>,
    cs: Seq<ClassV>,
    cap: usize,
    types: TypesV,
    fx: EffectsV,
    t: SitesV,
    k: int,
    b: BoardV,
)
    requires
        0 <= k < ms.len() <= usize::MAX,
        b.recs.len() == k,
        b.files.len() >= 1,
        b.files[0] == ""@,
    ensures
        ({
            let r = assemble::placed(ms, cs, cap, types, fx, t, k, b);
            &&& board_keeps(b, r)
            &&& r.recs.len() == k + 1
            &&& r.locks.len() <= usize::MAX && r.files.len() <= usize::MAX && r.calls.len()
                <= usize::MAX ==> is_rec(r, ms, cs, cap, types, fx, t, k)
        }),
{
    let m = ms[k];
    let sc = scan::scanned(m, fx, t);
    let r = assemble::placed(ms, cs, cap, types, fx, t, k, b);
    let files = match m.source_file {
        Some(f) => names::with(b.files, f),
        None => b.files,
    };
    match m.source_file {
        Some(f) => {
            lemma_with(b.files, f);
        },
        None => {},
    }
    let (own, spans) = assemble::spans_from(b.locks, sc.spans, 0, Seq::empty());
    lemma_spans_keep(b.locks, sc.spans, 0, Seq::empty());
    lemma_calls_keep(ms, cs, cap, types, k as usize, own, sc.calls, 0, b.calls);
    assert forall|j: int| 0 <= j < b.locks.len() implies #[trigger] r.locks[j] == b.locks[j] by {
        assert(own[j] == b.locks[j]);
    }
    if r.locks.len() <= usize::MAX && r.files.len() <= usize::MAX && r.calls.len() <= usize::MAX {
        lemma_spans(b.locks, sc.spans, 0, Seq::empty());
        assert forall|i: int| 0 <= i < sc.spans.len() implies is_span(
            r.locks,
            #[trigger] spans[i],
            sc.spans[i],
        ) by {
            lemma_is_span_keeps(own, r.locks, spans[i], sc.spans[i]);
        }
        assert forall|i: int| #![trigger sc.calls[i]] 0 <= i < sc.calls.len() implies is_call(
            r.locks,
            r.calls[b.calls.len() + i],
            k,
            sc.calls[i],
            assemble::reached(ms, cs, cap, types, k as usize, sc.calls[i]),
        ) by {
            lemma_calls(ms, cs, cap, types, k as usize, own, sc.calls, 0, b.calls, i);
        }
    }
}

proof fn lemma_placed_from(
    ms: Seq<MethodV>,
    cs: Seq<ClassV>,
    cap: usize,
    types: TypesV,
    fx: EffectsV,
    t: SitesV,
    k: int,
    b: BoardV,
    j: int,
)
    requires
        0 <= k <= ms.len() <= usize::MAX,
        0 <= j < ms.len(),
        b.recs.len() == k,
        b.files.len() >= 1,
        b.files[0] == ""@,
        ({
            let r = assemble::placed_from(ms, cs, cap, types, fx, t, k, b);
            r.locks.len() <= usize::MAX && r.files.len() <= usize::MAX && r.calls.len()
                <= usize::MAX
        }),
        j < k ==> is_rec(b, ms, cs, cap, types, fx, t, j),
    ensures
        is_rec(
            assemble::placed_from(ms, cs, cap, types, fx, t, k, b),
            ms,
            cs,
            cap,
            types,
            fx,
            t,
            j,
        ),
        board_keeps(b, assemble::placed_from(ms, cs, cap, types, fx, t, k, b)),
    decreases ms.len() - k,
{
    if k < ms.len() {
        let next = assemble::placed(ms, cs, cap, types, fx, t, k, b);
        let r = assemble::placed_from(ms, cs, cap, types, fx, t, k, b);
        lemma_placed(ms, cs, cap, types, fx, t, k, b);
        lemma_from_keeps(ms, cs, cap, types, fx, t, k + 1, next);
        if j < k {
            lemma_rec_keeps(b, next, ms, cs, cap, types, fx, t, j);
        }
        lemma_placed_from(ms, cs, cap, types, fx, t, k + 1, next, j);
        lemma_chain(b, next, r);
    }
}

proof fn lemma_chain(a: BoardV, b: BoardV, c: BoardV)
    requires
        board_keeps(a, b),
        board_keeps(b, c),
    ensures
        board_keeps(a, c),
{
    assert forall|i: int| 0 <= i < a.locks.len() implies #[trigger] c.locks[i] == a.locks[i] by {
        assert(b.locks[i] == a.locks[i]);
    }
    assert forall|i: int| 0 <= i < a.files.len() implies #[trigger] c.files[i] == a.files[i] by {
        assert(b.files[i] == a.files[i]);
    }
    assert forall|i: int| 0 <= i < a.recs.len() implies #[trigger] c.recs[i] == a.recs[i] by {
        assert(b.recs[i] == a.recs[i]);
    }
    assert forall|i: int| 0 <= i < a.calls.len() implies #[trigger] c.calls[i] == a.calls[i] by {
        assert(b.calls[i] == a.calls[i]);
    }
}

proof fn lemma_from_keeps(
    ms: Seq<MethodV>,
    cs: Seq<ClassV>,
    cap: usize,
    types: TypesV,
    fx: EffectsV,
    t: SitesV,
    k: int,
    b: BoardV,
)
    requires
        0 <= k <= ms.len() <= usize::MAX,
        b.recs.len() == k,
        b.files.len() >= 1,
        b.files[0] == ""@,
    ensures
        board_keeps(b, assemble::placed_from(ms, cs, cap, types, fx, t, k, b)),
    decreases ms.len() - k,
{
    if k < ms.len() {
        let next = assemble::placed(ms, cs, cap, types, fx, t, k, b);
        lemma_placed(ms, cs, cap, types, fx, t, k, b);
        lemma_from_keeps(ms, cs, cap, types, fx, t, k + 1, next);
        lemma_chain(b, next, assemble::placed_from(ms, cs, cap, types, fx, t, k, b));
    }
}

/// What was seen of the `k`th method of a program.
pub open spec fn seen_of(d: DexV, k: int) -> ScanV {
    scan::scanned(
        d.methods()[k],
        flow::all_effects(d),
        scan::sites_from(acquire::acquired(d), 0, DictV::none()),
    )
}

/// The numbers are those of the names.
pub open spec fn names_are(v: IndexV, ids: Seq<u32>, ns: Seq<Seq<char>>) -> bool {
    &&& ids.len() == ns.len()
    &&& forall|i: int|
        #![trigger ids[i]]
        0 <= i < ids.len() ==> ids[i] < v.locks.len() && v.locks[ids[i] as int] == ns[i]
}

/// The index has a record of each method, under its number: its key, the name of its file,
/// its lines, each span with its lock and what was held, by their names, and its calls, each
/// with its line and what was held.
pub proof fn law_index_records_each_method(d: DexV, opts: Options, k: int)
    requires
        whole::fits(d, opts),
        0 <= k < d.methods().len(),
    ensures
        ({
            let v = whole::built(d, opts);
            let m = d.methods()[k];
            let r = v.methods[k];
            let sc = seen_of(d, k);
            &&& v.methods.len() == d.methods().len()
            &&& r.key == m.key()
            &&& r.file < v.files.len() && v.files[r.file as int] == (match m.source_file {
                Some(f) => f,
                None => ""@,
            })
            &&& (r.line_lo, r.line_hi) == assemble::lines(m)
            &&& r.spans.len() == sc.spans.len()
            &&& forall|i: int|
                #![trigger r.spans[i]]
                0 <= i < sc.spans.len() ==> {
                    &&& r.spans[i].lock < v.locks.len() && v.locks[r.spans[i].lock as int]
                        == sc.spans[i].lock
                    &&& r.spans[i].enter == sc.spans[i].enter
                    &&& r.spans[i].exit == sc.spans[i].exit
                    &&& names_are(v, r.spans[i].held, sc.spans[i].held)
                }
            &&& r.calls.0 + sc.calls.len() == r.calls.1
            &&& forall|i: int|
                #![trigger sc.calls[i]]
                0 <= i < sc.calls.len() ==> {
                    let c = v.calls[r.calls.0 + i];
                    &&& c.caller == k
                    &&& c.line == sc.calls[i].line
                    &&& names_are(v, c.held, sc.calls[i].held)
                }
        }),
{
    sound::lemma_board_len(d, opts.cha_cap);
    let ms = d.methods();
    let ty = types::passed_classes(ms, d.classes, opts.cha_cap);
    let fx = flow::all_effects(d);
    let t = scan::sites_from(acquire::acquired(d), 0, DictV::none());
    lemma_placed_from(ms, d.classes, opts.cha_cap, ty, fx, t, 0, assemble::blank(), k);
    let b = assemble::board(d, opts.cha_cap);
    let v = whole::built(d, opts);
    let r = v.methods[k];
    let sc = seen_of(d, k);
    assert(is_rec(b, ms, d.classes, opts.cha_cap, ty, fx, t, k));
    let rec = b.recs[k];
    assert forall|i: int| #![trigger r.spans[i]] 0 <= i < sc.spans.len() implies {
        &&& r.spans[i].lock < v.locks.len() && v.locks[r.spans[i].lock as int] == sc.spans[i].lock
        &&& r.spans[i].enter == sc.spans[i].enter
        &&& r.spans[i].exit == sc.spans[i].exit
        &&& names_are(v, r.spans[i].held, sc.spans[i].held)
    } by {
        let s = rec.spans[i];
        assert(is_span(b.locks, s, sc.spans[i]));
        assert(r.spans[i] == whole::span_ix(s));
        assert forall|j: int| #![trigger r.spans[i].held[j]] 0 <= j < r.spans[i].held.len() implies r.spans[i].held[j]
            < v.locks.len() && v.locks[r.spans[i].held[j] as int] == sc.spans[i].held[j] by {
            assert(s.held[j] < b.locks.len());
        }
    }
    assert forall|i: int| #![trigger sc.calls[i]] 0 <= i < sc.calls.len() implies {
        let c = v.calls[r.calls.0 + i];
        &&& c.caller == k
        &&& c.line == sc.calls[i].line
        &&& names_are(v, c.held, sc.calls[i].held)
    } by {
        let l = b.calls[rec.calls.0 + i];
        let c = v.calls[r.calls.0 + i];
        assert(is_call(
            b.locks,
            l,
            k,
            sc.calls[i],
            assemble::reached(ms, d.classes, opts.cha_cap, ty, k as usize, sc.calls[i]),
        ));
        assert(c == whole::call_ix(l));
        assert forall|j: int| #![trigger c.held[j]] 0 <= j < c.held.len() implies c.held[j]
            < v.locks.len() && v.locks[c.held[j] as int] == sc.calls[i].held[j] by {
            assert(l.held[j] < b.locks.len());
        }
    }
}

} // verus!

//! Where control flows to, what a path may take away, and what a method does to its callers.

use crate::dex::ctx::answers;
use crate::dex::flow;
use crate::dex::flow::{EffectV, EffectsV, GraphV, StateV};
use crate::dex::held;
use crate::dex::model::{DexV, LockV, MethodV, OpV};
use crate::dict::DictV;
use vstd::prelude::*;

verus! {

/// A state of that kind comes over an edge from `k` to `t`.
pub open spec fn comes(m: MethodV, fx: EffectsV, st: StateV, k: int, t: int, name: Seq<char>, n: nat) -> bool {
    exists|o: StateV| #[trigger] held::leads(m, fx, st, k, t, o) && flow::times(o.held, name) == n
}

/// What is known before each instruction is what was known, or how often the lock is held is
/// what comes over an edge; and it stays as it was where no edge leads.
spec fn by_edges(
    m: MethodV,
    fx: EffectsV,
    st: StateV,
    k: int,
    g: GraphV,
    r: GraphV,
    name: Seq<char>,
) -> bool {
    &&& r.states.len() == g.states.len()
    &&& forall|t: int|
        0 <= t < g.states.len() ==> {
            ||| #[trigger] r.states[t] == g.states[t]
            ||| (exists|o: StateV| #[trigger] held::leads(m, fx, st, k, t, o)) && r.states[t] is Some && {
                ||| (g.states[t] matches Some(a) && flow::times(r.states[t]->0.held, name)
                    == flow::times(a.held, name))
                ||| comes(m, fx, st, k, t, name, flow::times(r.states[t]->0.held, name))
            }
        }
}

proof fn lemma_reached(
    m: MethodV,
    fx: EffectsV,
    st: StateV,
    k: int,
    g: GraphV,
    r: GraphV,
    to: Option<int>,
    o: StateV,
    name: Seq<char>,
)
    requires
        by_edges(m, fx, st, k, g, r, name),
        to matches Some(t) ==> (0 <= t < g.states.len() ==> held::leads(m, fx, st, k, t, o)),
    ensures
        by_edges(m, fx, st, k, g, flow::reached(r, to, o), name),
{
    let q = flow::reached(r, to, o);
    if let Some(t) = to {
        if 0 <= t < g.states.len() {
            if let Some(a) = r.states[t] {
                held::law_join_keeps_the_smaller_count(a, o, name);
            }
            assert forall|i: int| 0 <= i < g.states.len() implies {
                ||| #[trigger] q.states[i] == g.states[i]
                ||| (exists|o: StateV| #[trigger] held::leads(m, fx, st, k, i, o)) && q.states[i] is Some && {
                    ||| (g.states[i] matches Some(a) && flow::times(q.states[i]->0.held, name)
                        == flow::times(a.held, name))
                    ||| comes(m, fx, st, k, i, name, flow::times(q.states[i]->0.held, name))
                }
            } by {
                if i != t {
                    assert(q.states[i] == r.states[i]);
                } else {
                    assert(held::leads(m, fx, st, k, i, o));
                    assert(comes(m, fx, st, k, i, name, flow::times(o.held, name)));
                    assert(r.states[i] == r.states[t]);
                }
            }
        }
    }
}

proof fn lemma_handlers(
    m: MethodV,
    fx: EffectsV,
    st: StateV,
    k: int,
    g: GraphV,
    r: GraphV,
    j: int,
    name: Seq<char>,
)
    requires
        0 <= j,
        0 <= k < m.insns.len(),
        by_edges(m, fx, st, k, g, r, name),
    ensures
        by_edges(m, fx, st, k, g, flow::handlers(m, r, m.insns[k].offset, j, st), name),
    decreases m.catches.len() - j,
{
    if j < m.catches.len() {
        let (from, to, at) = m.catches[j];
        let off = m.insns[k].offset;
        if from <= off && off < to {
            let t = flow::index_at(m.insns, at, 0);
            assert(held::covers(m.catches[j], off));
            lemma_reached(m, fx, st, k, g, r, t, st, name);
            lemma_handlers(m, fx, st, k, g, flow::reached(r, t, st), j + 1, name);
        } else {
            lemma_handlers(m, fx, st, k, g, r, j + 1, name);
        }
    }
}

proof fn lemma_all(
    m: MethodV,
    fx: EffectsV,
    st: StateV,
    k: int,
    g: GraphV,
    r: GraphV,
    ts: Seq<u32>,
    j: int,
    name: Seq<char>,
)
    requires
        0 <= j,
        0 <= k < m.insns.len(),
        m.insns[k].op == OpV::Switch(ts),
        by_edges(m, fx, st, k, g, r, name),
    ensures
        by_edges(
            m,
            fx,
            st,
            k,
            g,
            flow::reached_all(m, r, ts, j, flow::step(m, fx, st, m.insns[k]).0),
            name,
        ),
    decreases ts.len() - j,
{
    if j < ts.len() {
        let out = flow::step(m, fx, st, m.insns[k]).0;
        let t = flow::index_at(m.insns, ts[j], 0);
        lemma_reached(m, fx, st, k, g, r, t, out, name);
        lemma_all(m, fx, st, k, g, flow::reached(r, t, out), ts, j + 1, name);
    }
}

/// An instruction changes what is known only where a branch, the fall through or an exception
/// edge leads from it; and a lock is held there as often as before, or as often as it is over
/// such an edge: no path takes away what another did not lack.
pub proof fn law_only_edges_change_what_is_known(
    m: MethodV,
    fx: EffectsV,
    g: GraphV,
    k: int,
    t: int,
    name: Seq<char>,
)
    requires
        0 <= k < m.insns.len(),
        g.states.len() == m.insns.len(),
        g.states[k] is Some,
        0 <= t < m.insns.len(),
    ensures
        ({
            let r = flow::spread(m, fx, g, k);
            let st = g.states[k]->0;
            &&& r.states.len() == g.states.len()
            &&& (forall|o: StateV| !#[trigger] held::leads(m, fx, st, k, t, o)) ==> r.states[t] == g.states[t]
            &&& r.states[t] matches Some(b) ==> {
                ||| (g.states[t] matches Some(a) && flow::times(b.held, name) == flow::times(a.held, name))
                ||| comes(m, fx, st, k, t, name, flow::times(b.held, name))
            }
        }),
{
    let st = g.states[k]->0;
    let insn = m.insns[k];
    let out = flow::step(m, fx, st, insn).0;
    assert(by_edges(m, fx, st, k, g, g, name));
    lemma_handlers(m, fx, st, k, g, g, 0, name);
    let c = flow::handlers(m, g, insn.offset, 0, st);
    match insn.op {
        OpV::Goto(x) => {
            lemma_reached(m, fx, st, k, g, c, flow::index_at(m.insns, x, 0), out, name);
        },
        OpV::Branch(x) => {
            lemma_reached(m, fx, st, k, g, c, Some(k + 1), out, name);
            lemma_reached(
                m,
                fx,
                st,
                k,
                g,
                flow::reached(c, Some(k + 1), out),
                flow::index_at(m.insns, x, 0),
                out,
                name,
            );
        },
        OpV::BranchZero { reg, target } => {
            let a = flow::succeeded(out, reg);
            let b = flow::failed(out, reg);
            lemma_reached(m, fx, st, k, g, c, Some(k + 1), a, name);
            lemma_reached(
                m,
                fx,
                st,
                k,
                g,
                flow::reached(c, Some(k + 1), a),
                flow::index_at(m.insns, target, 0),
                b,
                name,
            );
        },
        OpV::BranchNonzero { reg, target } => {
            let a = flow::succeeded(out, reg);
            let b = flow::failed(out, reg);
            lemma_reached(m, fx, st, k, g, c, Some(k + 1), b, name);
            lemma_reached(
                m,
                fx,
                st,
                k,
                g,
                flow::reached(c, Some(k + 1), b),
                flow::index_at(m.insns, target, 0),
                a,
                name,
            );
        },
        OpV::Switch(ts) => {
            lemma_reached(m, fx, st, k, g, c, Some(k + 1), out, name);
            lemma_all(m, fx, st, k, g, flow::reached(c, Some(k + 1), out), ts, 0, name);
        },
        OpV::Throw => {},
        OpV::Return(_) => {},
        _ => {
            lemma_reached(m, fx, st, k, g, c, Some(k + 1), out, name);
        },
    }
    let r = flow::spread(m, fx, g, k);
    assert(by_edges(m, fx, st, k, g, r, name));
    assert(r.states[t] == r.states[t]);
}

/// Where control flows from an instruction: to the next, unless it jumps for good, throws or
/// returns; to its targets; and from within a try block to the handler.
pub proof fn law_control_flows_to_targets_and_handlers(
    m: MethodV,
    fx: EffectsV,
    st: StateV,
    k: int,
    t: int,
)
    requires
        0 <= k < m.insns.len(),
    ensures
        (exists|o: StateV| #[trigger] held::leads(m, fx, st, k, t, o)) <==> {
            let op = m.insns[k].op;
            ||| t == k + 1 && !(op is Goto) && !(op is Throw) && !(op is Return)
            ||| (exists|x: u32| #[trigger]
                crate::dex::ctx::typed::goes_to(op, x) && flow::index_at(m.insns, x, 0) == Some(t))
            ||| (exists|j: int|
                0 <= j < m.catches.len() && (#[trigger] m.catches[j]).0 <= m.insns[k].offset
                    < m.catches[j].1 && flow::index_at(m.insns, m.catches[j].2, 0) == Some(t))
        },
{
    let op = m.insns[k].op;
    let out = flow::step(m, fx, st, m.insns[k]).0;
    if exists|o: StateV| #[trigger] held::leads(m, fx, st, k, t, o) {
        let o = choose|o: StateV| #[trigger] held::leads(m, fx, st, k, t, o);
        match op {
            OpV::Goto(x) => {
                assert(crate::dex::ctx::typed::goes_to(op, x));
            },
            OpV::Branch(x) => {
                assert(crate::dex::ctx::typed::goes_to(op, x));
            },
            OpV::BranchZero { reg, target } => {
                assert(crate::dex::ctx::typed::goes_to(op, target));
            },
            OpV::BranchNonzero { reg, target } => {
                assert(crate::dex::ctx::typed::goes_to(op, target));
            },
            OpV::Switch(ts) => {
                if exists|j: int|
                    0 <= j < ts.len() && flow::index_at(m.insns, #[trigger] ts[j], 0) == Some(t) {
                    let j = choose|j: int|
                        0 <= j < ts.len() && flow::index_at(m.insns, #[trigger] ts[j], 0) == Some(t);
                    assert(ts.contains(ts[j]));
                    assert(crate::dex::ctx::typed::goes_to(op, ts[j]));
                }
            },
            _ => {},
        }
    }
    if t == k + 1 && !(op is Goto) && !(op is Throw) && !(op is Return) {
        match op {
            OpV::BranchZero { reg, target } => {
                assert(held::leads(m, fx, st, k, t, flow::succeeded(out, reg)));
            },
            OpV::BranchNonzero { reg, target } => {
                assert(held::leads(m, fx, st, k, t, flow::failed(out, reg)));
            },
            _ => {
                assert(held::leads(m, fx, st, k, t, out));
            },
        }
    }
    if exists|x: u32| #[trigger]
        crate::dex::ctx::typed::goes_to(op, x) && flow::index_at(m.insns, x, 0) == Some(t) {
        let x = choose|x: u32| #[trigger]
            crate::dex::ctx::typed::goes_to(op, x) && flow::index_at(m.insns, x, 0) == Some(t);
        match op {
            OpV::BranchZero { reg, target } => {
                assert(held::leads(m, fx, st, k, t, flow::failed(out, reg)));
            },
            OpV::BranchNonzero { reg, target } => {
                assert(held::leads(m, fx, st, k, t, flow::succeeded(out, reg)));
            },
            OpV::Switch(ts) => {
                let j = choose|j: int| 0 <= j < ts.len() && ts[j] == x;
                assert(flow::index_at(m.insns, ts[j], 0) == Some(t));
                assert(held::leads(m, fx, st, k, t, out));
            },
            _ => {
                assert(held::leads(m, fx, st, k, t, out));
            },
        }
    }
    if exists|j: int|
        0 <= j < m.catches.len() && (#[trigger] m.catches[j]).0 <= m.insns[k].offset < m.catches[j].1
            && flow::index_at(m.insns, m.catches[j].2, 0) == Some(t) {
        let j = choose|j: int|
            0 <= j < m.catches.len() && (#[trigger] m.catches[j]).0 <= m.insns[k].offset
                < m.catches[j].1 && flow::index_at(m.insns, m.catches[j].2, 0) == Some(t);
        assert(held::covers(m.catches[j], m.insns[k].offset));
        assert(held::leads(m, fx, st, k, t, st));
    }
}

/// The method may return at the instruction.
pub open spec fn returns_at(m: MethodV, sts: Seq<Option<StateV>>, k: int) -> bool {
    0 <= k < m.insns.len() && m.insns[k].op is Return && sts[k] is Some
}

proof fn lemma_names(a: Seq<Seq<char>>, b: Seq<Seq<char>>, k: int, acc: Seq<Seq<char>>, n: Seq<char>)
    requires
        0 <= k,
    ensures
        flow::common_names(a, b, k, acc).contains(n) <==> acc.contains(n) || b.contains(n) && exists|i: int|
            k <= i < a.len() && #[trigger] a[i] == n,
    decreases a.len() - k,
{
    if k < a.len() {
        if b.contains(a[k]) {
            lemma_names(a, b, k + 1, acc.push(a[k]), n);
            answers::lemma_pushed(acc, a[k], n);
        } else {
            lemma_names(a, b, k + 1, acc, n);
        }
    }
}

proof fn lemma_net(
    m: MethodV,
    sts: Seq<Option<StateV>>,
    k: int,
    acc: Option<EffectV>,
    name: Seq<char>,
)
    requires
        0 <= k,
    ensures
        ({
            let r = flow::net_from(m, sts, k, acc);
            &&& r is None <==> acc is None && forall|i: int| k <= i ==> !#[trigger] returns_at(m, sts, i)
            &&& r matches Some(e) ==> {
                &&& acc matches Some(a) ==> flow::times(e.takes, name) <= flow::times(a.takes, name)
                &&& forall|i: int|
                    k <= i && #[trigger] returns_at(m, sts, i) ==> flow::times(e.takes, name)
                        <= flow::times(sts[i]->0.held, name)
                &&& (acc matches Some(a) && flow::times(e.takes, name) == flow::times(a.takes, name))
                    || exists|i: int|
                    k <= i && #[trigger] returns_at(m, sts, i) && flow::times(e.takes, name)
                        == flow::times(sts[i]->0.held, name)
                &&& e.frees.contains(name) <==> {
                    &&& acc matches Some(a) ==> a.frees.contains(name)
                    &&& forall|i: int|
                        k <= i && #[trigger] returns_at(m, sts, i) ==> sts[i]->0.freed.contains(name)
                }
            }
        }),
    decreases m.insns.len() - k,
{
    if k < m.insns.len() {
        if returns_at(m, sts, k) {
            let st = sts[k]->0;
            let next = match acc {
                None => EffectV { takes: st.held, frees: st.freed },
                Some(e) => EffectV {
                    takes: flow::common(e.takes, st.held, 0, Seq::empty()),
                    frees: flow::common_names(e.frees, st.freed, 0, Seq::empty()),
                },
            };
            if let Some(e) = acc {
                held::law_join_keeps_the_smaller_count(
                    StateV { held: e.takes, ..st },
                    st,
                    name,
                );
                lemma_names(e.frees, st.freed, 0, Seq::empty(), name);
                assert(e.frees.contains(name) <==> exists|i: int|
                    0 <= i < e.frees.len() && #[trigger] e.frees[i] == name);
            }
            lemma_net(m, sts, k + 1, Some(next), name);
            assert(flow::net_from(m, sts, k, acc) == flow::net_from(m, sts, k + 1, Some(next)));
        } else {
            lemma_net(m, sts, k + 1, acc, name);
            assert(flow::net_from(m, sts, k, acc) == flow::net_from(m, sts, k + 1, acc));
        }
        assert(forall|i: int| k <= i && #[trigger] returns_at(m, sts, i) ==> i == k || k + 1 <= i);
    }
}

proof fn lemma_clear(ls: Seq<LockV>, k: int, acc: Seq<LockV>)
    requires
        0 <= k <= ls.len(),
        acc == ls.take(k).filter(|l: LockV| !l.is_opaque()),
    ensures
        flow::clear(ls, k, acc) == ls.filter(|l: LockV| !l.is_opaque()),
    decreases ls.len() - k,
{
    reveal(Seq::filter);
    if k < ls.len() {
        assert(ls.take(k + 1).drop_last() =~= ls.take(k));
        lemma_clear(
            ls,
            k + 1,
            if ls[k].is_opaque() {
                acc
            } else {
                acc.push(ls[k])
            },
        );
    } else {
        assert(ls.take(k) =~= ls);
    }
}

proof fn lemma_named(held: Seq<LockV>, k: int, name: Seq<char>)
    requires
        0 <= k <= held.len(),
    ensures
        flow::last_named(held, k, name) is Some <==> exists|i: int|
            0 <= i < k && (#[trigger] held[i]).name() == name,
    decreases k,
{
    if k > 0 {
        lemma_named(held, k - 1, name);
    }
}

/// Some lock of the list has that name.
pub open spec fn has_name(ls: Seq<LockV>, name: Seq<char>) -> bool {
    exists|i: int| 0 <= i < ls.len() && (#[trigger] ls[i]).name() == name
}

proof fn lemma_has(ls: Seq<LockV>, name: Seq<char>)
    ensures
        flow::is_named(ls, name) <==> has_name(ls, name),
{
    lemma_named(ls, ls.len() as int, name);
}

proof fn lemma_once(ls: Seq<LockV>, k: int, acc: Seq<LockV>, name: Seq<char>)
    requires
        0 <= k,
        forall|i: int, j: int|
            0 <= i < j < acc.len() ==> (#[trigger] acc[i]).name() != (#[trigger] acc[j]).name(),
    ensures
        ({
            let r = flow::once(ls, k, acc);
            &&& has_name(r, name) <==> has_name(acc, name) || exists|i: int|
                k <= i < ls.len() && (#[trigger] ls[i]).name() == name
            &&& forall|i: int, j: int|
                0 <= i < j < r.len() ==> (#[trigger] r[i]).name() != (#[trigger] r[j]).name()
        }),
    decreases ls.len() - k,
{
    if k < ls.len() {
        lemma_has(acc, ls[k].name());
        if flow::is_named(acc, ls[k].name()) {
            lemma_once(ls, k + 1, acc, name);
        } else {
            let next = acc.push(ls[k]);
            assert forall|i: int, j: int| 0 <= i < j < next.len() implies (#[trigger] next[i]).name() != (
            #[trigger] next[j]).name() by {
                if j == acc.len() {
                    assert(acc[i].name() != ls[k].name());
                }
            }
            lemma_once(ls, k + 1, next, name);
            if has_name(acc, name) {
                let i = choose|i: int| 0 <= i < acc.len() && (#[trigger] acc[i]).name() == name;
                assert(next[i].name() == name);
            }
            assert(next[acc.len() as int] == ls[k]);
        }
    }
}

/// What a method does to its callers: it takes a lock as often as it holds it wherever it
/// returns, and lets go of those of its caller that it has let go of wherever it returns; one
/// that never returns does nothing. A lock that means nothing outside does not count, and each
/// counts once.
pub proof fn law_effects_hold_at_every_return(m: MethodV, fx: EffectsV, name: Seq<char>) -> (all: Seq<LockV>)
    ensures
        ({
            let sts = flow::states(m, fx, Seq::empty());
            let e = flow::net(m, fx);
            let never = forall|i: int| 0 <= i ==> !#[trigger] returns_at(m, sts, i);
            &&& never ==> e.takes.len() == 0 && e.frees.len() == 0
            &&& !never ==> {
                &&& e.frees.contains(name) <==> forall|i: int|
                    0 <= i && #[trigger] returns_at(m, sts, i) ==> sts[i]->0.freed.contains(name)
                &&& forall|i: int|
                    0 <= i && #[trigger] returns_at(m, sts, i) ==> flow::times(all, name)
                        <= flow::times(sts[i]->0.held, name)
                &&& exists|i: int|
                    0 <= i && #[trigger] returns_at(m, sts, i) && flow::times(all, name) == flow::times(
                        sts[i]->0.held,
                        name,
                    )
                &&& has_name(e.takes, name) <==> has_name(
                    all.filter(|l: LockV| !l.is_opaque()),
                    name,
                )
                &&& forall|i: int, j: int|
                    0 <= i < j < e.takes.len() ==> (#[trigger] e.takes[i]).name() != (
                    #[trigger] e.takes[j]).name()
            }
        }),
{
    let sts = flow::states(m, fx, Seq::empty());
    let r = flow::net_from(m, sts, 0, None);
    lemma_net(m, sts, 0, None, name);
    match r {
        None => Seq::empty(),
        Some(e) => {
            reveal(Seq::filter);
            assert(e.takes.take(0).filter(|l: LockV| !l.is_opaque()) =~= Seq::empty());
            lemma_clear(e.takes, 0, Seq::empty());
            let kept = e.takes.filter(|l: LockV| !l.is_opaque());
            lemma_once(kept, 0, Seq::empty(), name);
            e.takes
        },
    }
}

/// An effect that has changed sixty-four times is given up, and so is what is held on entry to a
/// method after a thousand and twenty-four changes; nothing is given up before.
pub proof fn law_what_keeps_changing_is_given_up(d: DexV, closed_world: bool, key: Seq<char>)
    ensures
        flow::unsettled(d, key) <==> (flow::effects_settled(
            d.methods(),
            DictV::none(),
            DictV::none(),
        ).1.get(key) matches Some(n) && n >= 64),
        held::entry_unsettled(d, closed_world, key) <==> (flow::entry_solved(d, closed_world).1.get(
            key,
        ) matches Some(n) && n >= 1024),
{
}

} // verus!

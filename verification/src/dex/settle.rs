//! Why the held-lock dataflow comes to rest: a pass that changes something reaches an
//! instruction for the first time, or else only drops what was known.

use crate::dex::flow;
use crate::dex::flow::{EffectsV, GraphV, StateV};
use crate::dex::held;
use crate::dex::model::{LockV, MethodV, OpV};
use crate::dex::regs;
use crate::tally;
use vstd::prelude::*;

verus! {

/// One for something.
pub open spec fn one<A>(x: Option<A>) -> nat {
    if x is Some {
        1
    } else {
        0
    }
}

/// How much is known at a program point.
pub open spec fn size(st: StateV) -> nat {
    st.regs.dom().len() + st.tries.dom().len() + st.held.len() + st.freed.len() + one(st.last_ret)
        + one(st.last_try)
}

/// How many instructions are not reached yet.
pub open spec fn waiting(sts: Seq<Option<StateV>>) -> nat {
    tally::sum(sts, |x: Option<StateV>| (1 - one(x)) as nat)
}

/// How much is known in all.
pub open spec fn known(sts: Seq<Option<StateV>>) -> nat {
    tally::sum(
        sts,
        |x: Option<StateV>|
            match x {
                Some(st) => size(st),
                None => 0,
            },
    )
}

/// Less is left to reach, or as much, and no more is known.
pub open spec fn no_more(g: GraphV, r: GraphV) -> bool {
    ||| waiting(r.states) < waiting(g.states)
    ||| waiting(r.states) == waiting(g.states) && known(r.states) <= known(g.states)
}

/// Less is left to reach, or as much, and less is known.
pub open spec fn less(g: GraphV, r: GraphV) -> bool {
    ||| waiting(r.states) < waiting(g.states)
    ||| waiting(r.states) == waiting(g.states) && known(r.states) < known(g.states)
}

/// What was done never leaves more to do, and a change leaves less.
pub open spec fn settles(g: GraphV, r: GraphV) -> bool {
    no_more(g, r) && (r.changed && !g.changed ==> less(g, r))
}

proof fn lemma_finite(s: Set<u32>)
    ensures
        s.finite(),
{
    <u32 as vstd::set_lib::FiniteFull>::full_properties();
    vstd::set_lib::lemma_set_subset_finite(Set::<u32>::full(), s);
}

proof fn lemma_joined(a: StateV, o: StateV)
    ensures
        size(flow::joined(a, o)) <= size(a),
        flow::dropped(a, flow::joined(a, o)) ==> size(flow::joined(a, o)) < size(a),
{
    held::lemma_common(a.held, o.held, 0, Seq::empty());
    held::lemma_common_names(a.freed, o.freed, 0, Seq::empty());
    lemma_agreed(a.regs, o.regs);
    lemma_agreed(a.tries, o.tries);
}

proof fn lemma_agreed(a: Map<u32, LockV>, b: Map<u32, LockV>)
    ensures
        regs::agreed(a, b).dom().len() <= a.dom().len(),
        regs::agreed(a, b) != a ==> regs::agreed(a, b).dom().len() < a.dom().len(),
{
    let j = regs::agreed(a, b);
    lemma_finite(a.dom());
    assert(j.dom().subset_of(a.dom()));
    vstd::set_lib::lemma_len_subset(j.dom(), a.dom());
    if j.dom().len() == a.dom().len() {
        vstd::set_lib::lemma_subset_equality(j.dom(), a.dom());
        assert forall|r: u32| #[trigger] a.contains_key(r) implies j.contains_key(r) && j[r]
            == a[r] by {
            assert(a.dom().contains(r));
            assert(j.dom().contains(r));
        }
        assert(j =~= a);
    }
}

proof fn lemma_reached(g: GraphV, t: Option<int>, o: StateV)
    ensures
        settles(g, flow::reached(g, t, o)),
{
    match t {
        None => {},
        Some(t) => if 0 <= t < g.states.len() {
            let x = match g.states[t] {
                None => o,
                Some(a) => flow::joined(a, o),
            };
            match g.states[t] {
                None => {},
                Some(a) => {
                    lemma_joined(a, o);
                },
            }
            tally::lemma_sum_update(
                g.states,
                |x: Option<StateV>| (1 - one(x)) as nat,
                t,
                Some(x),
            );
            tally::lemma_sum_update(
                g.states,
                |x: Option<StateV>|
                    match x {
                        Some(st) => size(st),
                        None => 0,
                    },
                t,
                Some(x),
            );
        },
    }
}

proof fn lemma_reached_all(m: MethodV, g: GraphV, ts: Seq<u32>, j: int, o: StateV)
    ensures
        settles(g, flow::reached_all(m, g, ts, j, o)),
    decreases ts.len() - j,
{
    if j < ts.len() {
        let t = flow::index_at(m.insns, ts[j], 0);
        lemma_reached(g, t, o);
        lemma_reached_all(m, flow::reached(g, t, o), ts, j + 1, o);
    }
}

proof fn lemma_handlers(m: MethodV, g: GraphV, offset: u32, j: int, o: StateV)
    ensures
        settles(g, flow::handlers(m, g, offset, j, o)),
    decreases m.catches.len() - j,
{
    if j < m.catches.len() {
        let (from, to, at) = m.catches[j];
        let t = flow::index_at(m.insns, at, 0);
        lemma_reached(g, t, o);
        lemma_handlers(m, flow::reached(g, t, o), offset, j + 1, o);
        lemma_handlers(m, g, offset, j + 1, o);
    }
}

proof fn lemma_spread(m: MethodV, fx: EffectsV, g: GraphV, k: int)
    ensures
        settles(g, flow::spread(m, fx, g, k)),
{
    match g.states[k] {
        None => {},
        Some(st) => {
            let insn = m.insns[k];
            let out = flow::step(m, fx, st, insn).0;
            let caught = flow::handlers(m, g, insn.offset, 0, st);
            lemma_handlers(m, g, insn.offset, 0, st);
            match insn.op {
                OpV::Goto(t) => {
                    lemma_reached(caught, flow::index_at(m.insns, t, 0), out);
                },
                OpV::Branch(t) => {
                    let mid = flow::reached(caught, Some(k + 1), out);
                    lemma_reached(caught, Some(k + 1), out);
                    lemma_reached(mid, flow::index_at(m.insns, t, 0), out);
                },
                OpV::BranchZero { reg, target } => {
                    let mid = flow::reached(caught, Some(k + 1), flow::succeeded(out, reg));
                    let to = flow::index_at(m.insns, target, 0);
                    lemma_reached(caught, Some(k + 1), flow::succeeded(out, reg));
                    lemma_reached(mid, to, flow::failed(out, reg));
                },
                OpV::BranchNonzero { reg, target } => {
                    let mid = flow::reached(caught, Some(k + 1), flow::failed(out, reg));
                    let to = flow::index_at(m.insns, target, 0);
                    lemma_reached(caught, Some(k + 1), flow::failed(out, reg));
                    lemma_reached(mid, to, flow::succeeded(out, reg));
                },
                OpV::Switch(ts) => {
                    let mid = flow::reached(caught, Some(k + 1), out);
                    lemma_reached(caught, Some(k + 1), out);
                    lemma_reached_all(m, mid, ts, 0, out);
                },
                _ => {
                    lemma_reached(caught, Some(k + 1), out);
                },
            }
        },
    }
}

/// A pass that changes something leaves less to do.
pub proof fn lemma_pass(m: MethodV, fx: EffectsV, g: GraphV, k: int)
    ensures
        settles(g, flow::pass(m, fx, g, k)),
    decreases m.insns.len() - k,
{
    if k < m.insns.len() {
        lemma_spread(m, fx, g, k);
        lemma_pass(m, fx, flow::spread(m, fx, g, k), k + 1);
    }
}

} // verus!

//! Held-lock dataflow shared by the hazard analyses.
//!
//! [`walk`] is the intra-procedural pass: it solves, for every instruction of a method,
//! which locks are held there (monitor-enter/exit, j.u.c `Lock.lock`/`unlock`, and an
//! `entry` seed), and reports every acquisition, release, call and field access with the
//! locks held at it. The pass follows control flow: a `synchronized` block with an early
//! `return` compiles to a `monitor-exit` on that path before the block's remaining code,
//! and every block has a catch-all handler that exits the monitor and rethrows, so the
//! held set is a forward dataflow over branch, switch, fall-through and exception edges.
//! What is held where paths join is what is held on all of them, as often as it is held on
//! each. A `tryLock` is held on its success path only: from the branch on that finds that
//! its result was not zero. `readLock()` and `writeLock()` views are the parent lock in that
//! mode, and a lock taken or released through a helper is tracked by the helper's net effect
//! ([`effects`]).
//!
//! [`entry_held`] lifts that past the caller-holds-the-lock convention (`…Locked` /
//! `@GuardedBy` helpers, where the lock is taken one frame up): it infers the locks held
//! on entry to each *private* method as the intersection of the held sets at all of its
//! call sites, solved round by round over the call graph. A private method is callable
//! only from within its own class, so every call site is inside the analyzed DEX and the
//! intersection is over the complete set of callers; any other method could be called
//! from outside with no lock held and gets an empty entry set. In a closed world a method
//! whose (name, signature) no other class declares counts too: it cannot be an override,
//! so every call with that signature resolves to it.

use crate::dex::juc;
use crate::dex::juc::LockCall;
use crate::dex::model::{Dex, DexV, Insn, InsnV, Invoke, InvokeV, Lock, LockV, Method, MethodV, Mode, Op, OpV, Root, RootV};
use crate::dex::regs;
use crate::dex::regs::Regs;
use crate::dex::rounds;
use crate::dex::rounds::SpentV;
use crate::dex::settle;
use crate::dict;
use crate::dict::{Dict, DictV};
use crate::names;
use crate::names::Names;
use crate::sort;
use crate::text;
use crate::values;
use crate::values::{Dup, Same};
use std::collections::HashMap;
use vstd::prelude::*;

verus! {

broadcast use vstd::std_specs::hash::group_hash_axioms;

/// What is known at a program point.
pub struct StateV {
    /// the lock each register holds.
    pub regs: Map<u32, LockV>,
    /// the locks held, in the order in which they were taken.
    pub held: Seq<LockV>,
    /// what the last call gave.
    pub last_ret: Option<LockV>,
    /// names of the locks released without being held: the caller's.
    pub freed: Seq<Seq<char>>,
    /// the lock whose `tryLock` result each register holds, where it is not tested yet.
    pub tries: Map<u32, LockV>,
    /// the lock that the last call tried.
    pub last_try: Option<LockV>,
}

/// A method's net lock effect on its caller.
pub struct EffectV {
    pub takes: Seq<LockV>,
    pub frees: Seq<Seq<char>>,
}

/// What happens at an instruction, and the locks held before it.
pub enum EventV {
    Acquire { lock: LockV, held: Seq<LockV>, line: Option<u32> },
    Release { lock: LockV, line: Option<u32> },
    Call { inv: InvokeV, held: Seq<LockV>, line: Option<u32>, at: u32 },
    Field {
        class: Seq<char>,
        field: Seq<char>,
        write: bool,
        held: Seq<LockV>,
        line: Option<u32>,
    },
}

/// What happens at an instruction, and the locks held before it.
pub enum Event<'a> {
    Acquire { lock: Lock, held: Vec<Lock>, line: Option<u32> },
    Release { lock: Lock, line: Option<u32> },
    Call { inv: &'a Invoke, held: Vec<Lock>, line: Option<u32>, at: u32 },
    Field { class: &'a str, field: &'a str, write: bool, held: Vec<Lock>, line: Option<u32> },
}

impl<'a> DeepView for Event<'a> {
    type V = EventV;

    open spec fn deep_view(&self) -> EventV {
        match self {
            Event::Acquire { lock, held, line } => EventV::Acquire {
                lock: lock.deep_view(),
                held: held.deep_view(),
                line: *line,
            },
            Event::Release { lock, line } => EventV::Release {
                lock: lock.deep_view(),
                line: *line,
            },
            Event::Call { inv, held, line, at } => EventV::Call {
                inv: inv.deep_view(),
                held: held.deep_view(),
                line: *line,
                at: *at,
            },
            Event::Field { class, field, write, held, line } => EventV::Field {
                class: class@,
                field: field@,
                write: *write,
                held: held.deep_view(),
                line: *line,
            },
        }
    }
}

/// A method's net lock effect on its caller.
pub struct Effect {
    pub takes: Vec<Lock>,
    pub frees: Vec<String>,
}

impl DeepView for Effect {
    type V = EffectV;

    open spec fn deep_view(&self) -> EffectV {
        EffectV { takes: self.takes.deep_view(), frees: self.frees.deep_view() }
    }
}

impl Dup for Effect {
    fn dup(&self) -> (r: Self) {
        Effect { takes: self.takes.dup(), frees: self.frees.dup() }
    }
}

impl Same for Effect {
    fn same(&self, other: &Self) -> (r: bool) {
        self.takes.same(&other.takes) && self.frees.same(&other.frees)
    }
}

/// The effects of methods by key.
pub type EffectsV = DictV<EffectV>;

/// Where the last lock of that name stands, among the first `k`.
pub open spec fn last_named(held: Seq<LockV>, k: int, name: Seq<char>) -> Option<int>
    decreases k,
{
    if k <= 0 {
        None
    } else if held[k - 1].name() == name {
        Some(k - 1)
    } else {
        last_named(held, k - 1, name)
    }
}

/// A lock of that name is among them.
pub open spec fn is_named(held: Seq<LockV>, name: Seq<char>) -> bool {
    last_named(held, held.len() as int, name) is Some
}

/// How many of the locks have that name.
pub open spec fn times(held: Seq<LockV>, name: Seq<char>) -> nat
    decreases held.len(),
{
    if held.len() == 0 {
        0
    } else {
        times(held.drop_last(), name) + if held.last().name() == name {
            1nat
        } else {
            0
        }
    }
}

/// The results of tries of a lock of that name say nothing any more.
pub open spec fn forgotten(st: StateV, name: Seq<char>) -> StateV {
    StateV { tries: regs::without_named(st.tries, name), ..st }
}

/// Without the last lock of that name; a release of a lock that is not held is one of
/// the caller's.
pub open spec fn freed(st: StateV, name: Seq<char>) -> StateV {
    match last_named(st.held, st.held.len() as int, name) {
        Some(p) => StateV { held: st.held.remove(p), ..forgotten(st, name) },
        None => StateV { freed: names::with(st.freed, name), ..forgotten(st, name) },
    }
}

/// Without the locks of those names, from the `k`th on.
pub open spec fn all_freed(st: StateV, list: Seq<Seq<char>>, k: int) -> StateV
    decreases list.len() - k,
{
    if k >= list.len() {
        st
    } else {
        all_freed(freed(st, list[k]), list, k + 1)
    }
}

/// The lock that a monitor-exit releases: the last of the operand's name, else the one
/// taken last.
pub open spec fn exited(st: StateV, name: Option<Seq<char>>) -> Option<int> {
    let found = match name {
        Some(n) => last_named(st.held, st.held.len() as int, n),
        None => None,
    };
    match found {
        Some(p) => Some(p),
        None => if st.held.len() > 0 {
            Some(st.held.len() - 1)
        } else {
            None
        },
    }
}

/// The lock outside its method, in a mode of its own where it is a view.
pub open spec fn viewed(l: Option<LockV>, mode: Mode) -> Option<LockV> {
    match l {
        Some(l) => Some(l.with_mode(mode)),
        None => None,
    }
}

/// A result is lost where its register is written over.
pub open spec fn overwritten(st: StateV, dst: u32) -> StateV {
    StateV { tries: st.tries.remove(dst), ..st }
}

/// The state behind a call, and what happens at it.
pub open spec fn after_call(
    m: MethodV,
    fx: EffectsV,
    st: StateV,
    inv: InvokeV,
    line: Option<u32>,
    at: u32,
) -> (StateV, Option<EventV>) {
    let recv = regs::receiver(st.regs, inv);
    let st0 = StateV { last_ret: None, last_try: None, ..st };
    let call = Some(EventV::Call { inv, held: st.held, line, at });
    match juc::meaning(inv.class, inv.name) {
        Some(LockCall::Acquire) => match recv {
            Some(l) => taken(m, st0, l, line),
            None => (st0, None),
        },
        Some(LockCall::TryAcquire) => match recv {
            Some(l) => {
                let g = l.ground(m.class, m.key());
                (
                    StateV { last_try: Some(g), ..forgotten(st0, g.name()) },
                    Some(EventV::Acquire { lock: g, held: st.held, line }),
                )
            },
            None => (st0, None),
        },
        Some(LockCall::Release) => match recv {
            Some(l) => {
                let g = l.ground(m.class, m.key());
                match last_named(st.held, st.held.len() as int, g.name()) {
                    Some(p) => (
                        freed(st0, g.name()),
                        Some(EventV::Release { lock: st.held[p], line }),
                    ),
                    None => (freed(st0, g.name()), None),
                }
            },
            None => (st0, None),
        },
        Some(LockCall::ReadView) => (StateV { last_ret: viewed(recv, Mode::Read), ..st0 }, call),
        Some(LockCall::WriteView) => (StateV { last_ret: viewed(recv, Mode::Write), ..st0 }, call),
        None => match fx.get(inv.key()) {
            Some(e) => {
                let rel = all_freed(st0, e.frees, 0);
                (StateV { held: rel.held + e.takes, ..rel }, call)
            },
            None => (st0, call),
        },
    }
}

/// The state behind an acquisition, and the acquisition.
pub open spec fn taken(m: MethodV, st: StateV, l: LockV, line: Option<u32>) -> (
    StateV,
    Option<EventV>,
) {
    let g = l.ground(m.class, m.key());
    (
        StateV { held: st.held.push(g), ..st },
        Some(EventV::Acquire { lock: g, held: st.held, line }),
    )
}

/// The state behind an instruction, and what happens at it.
pub open spec fn step(m: MethodV, fx: EffectsV, st: StateV, insn: InsnV) -> (
    StateV,
    Option<EventV>,
) {
    let line = m.line_at(insn.offset);
    match insn.op {
        OpV::Iget { dst, base, class, field, ty } => (
            StateV {
                regs: st.regs.insert(dst, LockV::field(RootV::Recv(class), field)),
                ..overwritten(st, dst)
            },
            Some(EventV::Field { class, field, write: false, held: st.held, line }),
        ),
        OpV::Sget { dst, class, field } => (
            StateV {
                regs: st.regs.insert(dst, LockV::field(RootV::Static(class), field)),
                ..overwritten(st, dst)
            },
            Some(EventV::Field { class, field, write: false, held: st.held, line }),
        ),
        OpV::Iput { src, base, class, field } => (
            st,
            Some(EventV::Field { class, field, write: true, held: st.held, line }),
        ),
        OpV::Sput { src, class, field } => (
            st,
            Some(EventV::Field { class, field, write: true, held: st.held, line }),
        ),
        OpV::ConstClass { dst, class } => (
            StateV {
                regs: st.regs.insert(dst, LockV::new(RootV::ClassConst(class))),
                ..overwritten(st, dst)
            },
            None,
        ),
        OpV::Move { dst, src } => (
            StateV {
                regs: regs::with_reg(st.regs, dst, regs::reg(st.regs, src)),
                tries: regs::with_reg(st.tries, dst, regs::reg(st.tries, src)),
                ..st
            },
            None,
        ),
        OpV::NewInstance { dst, class } => (
            StateV { regs: st.regs.remove(dst), ..overwritten(st, dst) },
            None,
        ),
        OpV::MoveResult { dst } => (
            StateV {
                regs: regs::with_reg(st.regs, dst, st.last_ret),
                last_ret: None,
                tries: regs::with_reg(st.tries, dst, st.last_try),
                last_try: None,
                ..st
            },
            None,
        ),
        OpV::Def(dst) => (
            StateV { regs: st.regs.remove(dst), ..overwritten(st, dst) },
            None,
        ),
        OpV::MonitorEnter(r) => match regs::reg(st.regs, r) {
            Some(l) => taken(m, st, l, line),
            None => (st, None),
        },
        OpV::MonitorExit(r) => {
            let name = match regs::reg(st.regs, r) {
                Some(l) => Some(l.ground(m.class, m.key()).name()),
                None => None,
            };
            match exited(st, name) {
                Some(p) => (
                    StateV { held: st.held.remove(p), ..st },
                    Some(EventV::Release { lock: st.held[p], line }),
                ),
                None => (st, None),
            }
        },
        OpV::Invoke(inv) => after_call(m, fx, st, inv, line, insn.offset),
        OpV::Other => match insn.writes {
            Some(dst) => (
                StateV { regs: st.regs.remove(dst), ..overwritten(st, dst) },
                None,
            ),
            None => (st, None),
        },
        _ => (st, None),
    }
}

/// The locks of `a` from the `k`th on that `b` holds too, behind `acc`: each as often as it
/// is held in both.
pub open spec fn common(a: Seq<LockV>, b: Seq<LockV>, k: int, acc: Seq<LockV>) -> Seq<LockV>
    decreases a.len() - k,
{
    if k >= a.len() {
        acc
    } else {
        common(
            a,
            b,
            k + 1,
            if times(acc, a[k].name()) < times(b, a[k].name()) {
                acc.push(a[k])
            } else {
                acc
            },
        )
    }
}

/// The names of `a` from the `k`th on that `b` has too, behind `acc`.
pub open spec fn common_names(
    a: Seq<Seq<char>>,
    b: Seq<Seq<char>>,
    k: int,
    acc: Seq<Seq<char>>,
) -> Seq<Seq<char>>
    decreases a.len() - k,
{
    if k >= a.len() {
        acc
    } else {
        common_names(
            a,
            b,
            k + 1,
            if b.contains(a[k]) {
                acc.push(a[k])
            } else {
                acc
            },
        )
    }
}

/// What holds on both paths.
pub open spec fn joined(a: StateV, b: StateV) -> StateV {
    StateV {
        regs: regs::agreed(a.regs, b.regs),
        held: common(a.held, b.held, 0, Seq::empty()),
        last_ret: if a.last_ret == b.last_ret {
            a.last_ret
        } else {
            None
        },
        freed: common_names(a.freed, b.freed, 0, Seq::empty()),
        tries: regs::agreed(a.tries, b.tries),
        last_try: if a.last_try == b.last_try {
            a.last_try
        } else {
            None
        },
    }
}

/// The state where the register is not zero: if it holds a result, the lock was taken.
pub open spec fn succeeded(st: StateV, reg: u32) -> StateV {
    match regs::reg(st.tries, reg) {
        Some(g) => StateV { held: st.held.push(g), ..forgotten(st, g.name()) },
        None => st,
    }
}

/// The state where the register is zero: if it holds a result, the lock was not taken.
pub open spec fn failed(st: StateV, reg: u32) -> StateV {
    match regs::reg(st.tries, reg) {
        Some(g) => forgotten(st, g.name()),
        None => st,
    }
}

/// Something was dropped from `a` to `b`.
pub open spec fn dropped(a: StateV, b: StateV) -> bool {
    a.regs != b.regs || a.held.len() != b.held.len() || a.last_ret != b.last_ret || a.freed.len()
        != b.freed.len() || a.tries != b.tries || a.last_try != b.last_try
}

/// The states before each instruction, where it is reached, and whether the pass at hand
/// changed one.
pub struct GraphV {
    pub states: Seq<Option<StateV>>,
    pub changed: bool,
}

/// A path with the state `st` reaches instruction `t`.
pub open spec fn reached(g: GraphV, t: Option<int>, st: StateV) -> GraphV {
    match t {
        None => g,
        Some(t) => if t < 0 || t >= g.states.len() {
            g
        } else {
            match g.states[t] {
                None => GraphV { states: g.states.update(t, Some(st)), changed: true },
                Some(a) => GraphV {
                    states: g.states.update(t, Some(joined(a, st))),
                    changed: g.changed || dropped(a, joined(a, st)),
                },
            }
        },
    }
}

/// The first instruction from the `k`th on that stands at `offset`.
pub open spec fn index_at(insns: Seq<InsnV>, offset: u32, k: int) -> Option<int>
    decreases insns.len() - k,
{
    if k >= insns.len() {
        None
    } else if insns[k].offset == offset {
        Some(k)
    } else {
        index_at(insns, offset, k + 1)
    }
}

/// Paths with the state `st` reach the offsets `ts` from the `j`th on.
pub open spec fn reached_all(m: MethodV, g: GraphV, ts: Seq<u32>, j: int, st: StateV) -> GraphV
    decreases ts.len() - j,
{
    if j >= ts.len() {
        g
    } else {
        reached_all(m, reached(g, index_at(m.insns, ts[j], 0), st), ts, j + 1, st)
    }
}

/// The handlers from the `j`th on that cover `offset` are reached with the state `st`.
pub open spec fn handlers(m: MethodV, g: GraphV, offset: u32, j: int, st: StateV) -> GraphV
    decreases m.catches.len() - j,
{
    if j >= m.catches.len() {
        g
    } else {
        let (from, to, at) = m.catches[j];
        handlers(
            m,
            if from <= offset && offset < to {
                reached(g, index_at(m.insns, at, 0), st)
            } else {
                g
            },
            offset,
            j + 1,
            st,
        )
    }
}

/// The paths out of instruction `k`: to its handlers with the state before it, to its
/// successors with the state behind it.
pub open spec fn spread(m: MethodV, fx: EffectsV, g: GraphV, k: int) -> GraphV {
    match g.states[k] {
        None => g,
        Some(st) => {
            let insn = m.insns[k];
            let out = step(m, fx, st, insn).0;
            let caught = handlers(m, g, insn.offset, 0, st);
            match insn.op {
                OpV::Goto(t) => reached(caught, index_at(m.insns, t, 0), out),
                OpV::Branch(t) => reached(
                    reached(caught, Some(k + 1), out),
                    index_at(m.insns, t, 0),
                    out,
                ),
                OpV::BranchZero { reg, target } => reached(
                    reached(caught, Some(k + 1), succeeded(out, reg)),
                    index_at(m.insns, target, 0),
                    failed(out, reg),
                ),
                OpV::BranchNonzero { reg, target } => reached(
                    reached(caught, Some(k + 1), failed(out, reg)),
                    index_at(m.insns, target, 0),
                    succeeded(out, reg),
                ),
                OpV::Switch(ts) => reached_all(m, reached(caught, Some(k + 1), out), ts, 0, out),
                OpV::Throw => caught,
                OpV::Return(_) => caught,
                _ => reached(caught, Some(k + 1), out),
            }
        },
    }
}

/// One pass over the instructions from the `k`th on.
pub open spec fn pass(m: MethodV, fx: EffectsV, g: GraphV, k: int) -> GraphV
    decreases m.insns.len() - k,
{
    if k >= m.insns.len() {
        g
    } else {
        pass(m, fx, spread(m, fx, g, k), k + 1)
    }
}

/// Passes until one changes nothing.
pub open spec fn settled(
    m: MethodV,
    fx: EffectsV,
    states: Seq<Option<StateV>>,
) -> Seq<Option<StateV>>
    decreases settle::waiting(states), settle::known(states),
{
    let g = pass(m, fx, GraphV { states, changed: false }, 0);
    if g.changed {
        proof {
            settle::lemma_pass(m, fx, GraphV { states, changed: false }, 0);
        }
        settled(m, fx, g.states)
    } else {
        g.states
    }
}

/// The state on entry: of an instance method the receiver and the formals, and the locks
/// that its callers hold.
pub open spec fn start(m: MethodV, entry: Seq<LockV>) -> StateV {
    StateV {
        regs: if m.this_reg() is Some {
            regs::on_entry(m)
        } else {
            Map::empty()
        },
        held: entry,
        last_ret: None,
        freed: Seq::empty(),
        tries: Map::empty(),
        last_try: None,
    }
}

/// The states before the first pass: only the first instruction is reached.
pub open spec fn first(m: MethodV, entry: Seq<LockV>) -> Seq<Option<StateV>> {
    Seq::new(
        m.insns.len(),
        |k: int|
            if k == 0 {
                Some(start(m, entry))
            } else {
                None
            },
    )
}

/// The states before each instruction of a method.
pub open spec fn states(m: MethodV, fx: EffectsV, entry: Seq<LockV>) -> Seq<Option<StateV>> {
    settled(m, fx, first(m, entry))
}

/// What happens at the instructions from the `k`th on, behind `acc`.
pub open spec fn events_from(
    m: MethodV,
    fx: EffectsV,
    sts: Seq<Option<StateV>>,
    k: int,
    acc: Seq<EventV>,
) -> Seq<EventV>
    decreases m.insns.len() - k,
{
    if k >= m.insns.len() {
        acc
    } else {
        events_from(
            m,
            fx,
            sts,
            k + 1,
            match sts[k] {
                Some(st) => match step(m, fx, st, m.insns[k]).1 {
                    Some(e) => acc.push(e),
                    None => acc,
                },
                None => acc,
            },
        )
    }
}

/// What happens in a method, in program order, where the locks `entry` are held on entry.
pub open spec fn events(m: MethodV, fx: EffectsV, entry: Seq<LockV>) -> Seq<EventV> {
    events_from(m, fx, states(m, fx, entry), 0, Seq::empty())
}

/// What is known at a program point.
struct State {
    regs: Regs,
    held: Vec<Lock>,
    last_ret: Option<Lock>,
    freed: Vec<String>,
    tries: Regs,
    last_try: Option<Lock>,
}

impl DeepView for State {
    type V = StateV;

    closed spec fn deep_view(&self) -> StateV {
        StateV {
            regs: self.regs@,
            held: self.held.deep_view(),
            last_ret: self.last_ret.deep_view(),
            freed: self.freed.deep_view(),
            tries: self.tries@,
            last_try: self.last_try.deep_view(),
        }
    }
}

fn find_last(held: &Vec<Lock>, name: &str) -> (r: Option<usize>)
    ensures
        match r {
            Some(p) => p < held@.len() && last_named(
                held.deep_view(),
                held@.len() as int,
                name@,
            ) == Some(p as int),
            None => last_named(held.deep_view(), held@.len() as int, name@) is None,
        },
{
    let ghost hv = held.deep_view();
    let mut k = held.len();
    while k > 0
        invariant
            k <= held@.len(),
            hv == held.deep_view(),
            last_named(hv, held@.len() as int, name@) == last_named(hv, k as int, name@),
        decreases k,
    {
        proof {
            assert(hv[k - 1] == held@[k - 1].deep_view());
        }
        if text::str_eq(held[k - 1].name().as_str(), name) {
            return Some(k - 1);
        }
        k -= 1;
    }
    None
}

fn remove_at(held: &mut Vec<Lock>, p: usize) -> (l: Lock)
    requires
        p < old(held)@.len(),
    ensures
        final(held).deep_view() == old(held).deep_view().remove(p as int),
        l.deep_view() == old(held).deep_view()[p as int],
{
    let ghost before = held.deep_view();
    let l = held.remove(p);
    proof {
        assert(held.deep_view() =~= before.remove(p as int));
    }
    l
}

fn count_named(held: &Vec<Lock>, name: &str) -> (r: usize)
    ensures
        r == times(held.deep_view(), name@),
{
    let ghost hv = held.deep_view();
    let mut n: usize = 0;
    let mut k: usize = 0;
    proof {
        assert(hv.take(0) =~= Seq::empty());
    }
    while k < held.len()
        invariant
            n <= k <= held@.len(),
            hv == held.deep_view(),
            n == times(hv.take(k as int), name@),
        decreases held@.len() - k,
    {
        proof {
            assert(hv[k as int] == held@[k as int].deep_view());
            assert(hv.take(k + 1).drop_last() =~= hv.take(k as int));
            assert(hv.take(k + 1).last() == hv[k as int]);
        }
        if text::str_eq(held[k].name().as_str(), name) {
            n += 1;
        }
        k += 1;
    }
    proof {
        assert(hv.take(k as int) =~= hv);
    }
    n
}

fn keep_common(a: &Vec<Lock>, b: &Vec<Lock>) -> (r: Vec<Lock>)
    ensures
        r.deep_view() == common(a.deep_view(), b.deep_view(), 0, Seq::empty()),
{
    let ghost av = a.deep_view();
    let ghost bv = b.deep_view();
    let mut out: Vec<Lock> = values::empty();
    let mut k: usize = 0;
    while k < a.len()
        invariant
            k <= a@.len(),
            av == a.deep_view(),
            bv == b.deep_view(),
            common(av, bv, 0, Seq::empty()) == common(av, bv, k as int, out.deep_view()),
        decreases a@.len() - k,
    {
        proof {
            assert(av[k as int] == a@[k as int].deep_view());
        }
        let name = a[k].name();
        if count_named(&out, name.as_str()) < count_named(b, name.as_str()) {
            values::push(&mut out, a[k].dup());
        }
        k += 1;
    }
    out
}

fn keep_common_names(a: &Vec<String>, b: &Vec<String>) -> (r: Vec<String>)
    ensures
        r.deep_view() == common_names(a.deep_view(), b.deep_view(), 0, Seq::empty()),
{
    let ghost av = a.deep_view();
    let ghost bv = b.deep_view();
    let mut out: Vec<String> = values::empty();
    let mut k: usize = 0;
    while k < a.len()
        invariant
            k <= a@.len(),
            av == a.deep_view(),
            bv == b.deep_view(),
            common_names(av, bv, 0, Seq::empty()) == common_names(
                av,
                bv,
                k as int,
                out.deep_view(),
            ),
        decreases a@.len() - k,
    {
        proof {
            assert(av[k as int] == a@[k as int].deep_view());
        }
        if names::list_has(b, a[k].as_str()) {
            values::push(&mut out, a[k].dup());
        }
        k += 1;
    }
    out
}

impl State {
    spec fn wf(&self) -> bool {
        self.regs.wf() && self.tries.wf()
    }

    fn copy(&self) -> (s: State)
        requires
            self.wf(),
        ensures
            s.wf(),
            s.deep_view() == self.deep_view(),
    {
        State {
            regs: self.regs.copy(),
            held: self.held.dup(),
            last_ret: self.last_ret.dup(),
            freed: self.freed.dup(),
            tries: self.tries.copy(),
            last_try: self.last_try.dup(),
        }
    }

    fn overwrite(&mut self, dst: u32)
        requires
            old(self).wf(),
        ensures
            final(self).wf(),
            final(self).deep_view() == overwritten(old(self).deep_view(), dst),
    {
        self.tries.clear(dst);
    }

    fn succeed(&mut self, reg: u32)
        requires
            old(self).wf(),
        ensures
            final(self).wf(),
            final(self).deep_view() == succeeded(old(self).deep_view(), reg),
    {
        match regs::known(self.tries.get(reg)) {
            None => {},
            Some(g) => {
                self.tries.forget(g.name().as_str());
                values::push(&mut self.held, g);
            },
        }
    }

    fn fail(&mut self, reg: u32)
        requires
            old(self).wf(),
        ensures
            final(self).wf(),
            final(self).deep_view() == failed(old(self).deep_view(), reg),
    {
        match regs::known(self.tries.get(reg)) {
            None => {},
            Some(g) => {
                self.tries.forget(g.name().as_str());
            },
        }
    }

    fn join(&mut self, other: &State) -> (changed: bool)
        requires
            old(self).wf(),
        ensures
            final(self).wf(),
            final(self).deep_view() == joined(old(self).deep_view(), other.deep_view()),
            changed == dropped(old(self).deep_view(), final(self).deep_view()),
    {
        let held = keep_common(&self.held, &other.held);
        let freed = keep_common_names(&self.freed, &other.freed);
        let same_ret = self.last_ret.same(&other.last_ret);
        let lost_ret = !same_ret && self.last_ret.is_some();
        let same_try = self.last_try.same(&other.last_try);
        let lost_try = !same_try && self.last_try.is_some();
        let lost_regs = self.regs.agree(&other.regs);
        let lost_tries = self.tries.agree(&other.tries);
        let changed = lost_regs || lost_tries || held.len() != self.held.len() || freed.len()
            != self.freed.len() || lost_ret || lost_try;
        if !same_ret {
            self.last_ret = None;
        }
        if !same_try {
            self.last_try = None;
        }
        self.held = held;
        self.freed = freed;
        changed
    }

    fn free(&mut self, name: &str) -> (r: Option<Lock>)
        requires
            old(self).wf(),
        ensures
            final(self).wf(),
            final(self).deep_view() == freed(old(self).deep_view(), name@),
            match last_named(
                old(self).deep_view().held,
                old(self).deep_view().held.len() as int,
                name@,
            ) {
                Some(p) => r.deep_view() == Some(old(self).deep_view().held[p]),
                None => r is None,
            },
    {
        self.tries.forget(name);
        match find_last(&self.held, name) {
            Some(p) => Some(remove_at(&mut self.held, p)),
            None => {
                if !names::list_has(&self.freed, name) {
                    values::push(&mut self.freed, name.to_string());
                }
                None
            },
        }
    }

    fn take(&mut self, m: &Method, l: &Lock, line: Option<u32>) -> (e: Event<'static>)
        requires
            old(self).wf(),
        ensures
            final(self).wf(),
            (final(self).deep_view(), Some(e.deep_view())) == taken(
                m.deep_view(),
                old(self).deep_view(),
                l.deep_view(),
                line,
            ),
    {
        let g = l.ground(m.class.as_str(), m.key().as_str());
        let held = self.held.dup();
        values::push(&mut self.held, g.dup());
        Event::Acquire { lock: g, held, line }
    }

    fn apply(&mut self, e: &Effect)
        requires
            old(self).wf(),
        ensures
            final(self).wf(),
            final(self).deep_view() == ({
                let rel = all_freed(old(self).deep_view(), e.deep_view().frees, 0);
                StateV { held: rel.held + e.deep_view().takes, ..rel }
            }),
    {
        let ghost fv = e.frees.deep_view();
        let ghost begin = self.deep_view();
        let mut k: usize = 0;
        while k < e.frees.len()
            invariant
                self.wf(),
                fv == e.frees.deep_view(),
                k <= e.frees@.len(),
                all_freed(begin, fv, 0) == all_freed(self.deep_view(), fv, k as int),
            decreases e.frees@.len() - k,
        {
            proof {
                assert(fv[k as int] == e.frees@[k as int]@);
            }
            self.free(e.frees[k].as_str());
            k += 1;
        }
        let mut more = e.takes.dup();
        let ghost a = self.held.deep_view();
        let ghost b = more.deep_view();
        self.held.append(&mut more);
        proof {
            assert(self.held.deep_view() =~= a + b);
        }
    }

    fn call<'a>(
        &mut self,
        m: &Method,
        fx: &Dict<Effect>,
        inv: &'a Invoke,
        line: Option<u32>,
        at: u32,
    ) -> (e: Option<Event<'a>>)
        requires
            old(self).wf(),
            fx.wf(),
        ensures
            final(self).wf(),
            (final(self).deep_view(), e.deep_view()) == after_call(
                m.deep_view(),
                fx@,
                old(self).deep_view(),
                inv.deep_view(),
                line,
                at,
            ),
    {
        let recv = regs::receiver_of(&self.regs, inv);
        self.last_ret = None;
        self.last_try = None;
        match juc::classify(inv.class.as_str(), inv.name.as_str()) {
            Some(LockCall::Acquire) => match recv {
                Some(l) => Some(self.take(m, &l, line)),
                None => None,
            },
            Some(LockCall::TryAcquire) => match recv {
                Some(l) => {
                    let lock = l.ground(m.class.as_str(), m.key().as_str());
                    self.tries.forget(lock.name().as_str());
                    self.last_try = Some(lock.dup());
                    Some(Event::Acquire { lock, held: self.held.dup(), line })
                },
                None => None,
            },
            Some(LockCall::Release) => match recv {
                Some(l) => {
                    let name = l.ground(m.class.as_str(), m.key().as_str()).name();
                    match self.free(name.as_str()) {
                        Some(lock) => Some(Event::Release { lock, line }),
                        None => None,
                    }
                },
                None => None,
            },
            Some(LockCall::ReadView) => {
                self.last_ret = match recv {
                    Some(l) => Some(l.with_mode(Mode::Read)),
                    None => None,
                };
                Some(Event::Call { inv, held: self.held.dup(), line, at })
            },
            Some(LockCall::WriteView) => {
                self.last_ret = match recv {
                    Some(l) => Some(l.with_mode(Mode::Write)),
                    None => None,
                };
                Some(Event::Call { inv, held: self.held.dup(), line, at })
            },
            None => {
                let held = self.held.dup();
                match fx.get(inv.key().as_str()) {
                    Some(e) => self.apply(e),
                    None => {},
                }
                Some(Event::Call { inv, held, line, at })
            },
        }
    }

    /// Carry the state over an instruction; gives what happens at it.
    fn step<'a>(&mut self, m: &Method, fx: &Dict<Effect>, insn: &'a Insn) -> (e: Option<Event<'a>>)
        requires
            old(self).wf(),
            fx.wf(),
        ensures
            final(self).wf(),
            (final(self).deep_view(), e.deep_view()) == step(
                m.deep_view(),
                fx@,
                old(self).deep_view(),
                insn.deep_view(),
            ),
    {
        let line = m.line_at(insn.offset);
        match &insn.op {
            Op::Iget { dst, base, class, field, ty } => {
                let held = self.held.dup();
                self.regs.set(*dst, Lock::field(Root::Recv(class.dup()), field.dup()));
                self.overwrite(*dst);
                Some(
                    Event::Field {
                        class: class.as_str(),
                        field: field.as_str(),
                        write: false,
                        held,
                        line,
                    },
                )
            },
            Op::Sget { dst, class, field } => {
                let held = self.held.dup();
                self.regs.set(*dst, Lock::field(Root::Static(class.dup()), field.dup()));
                self.overwrite(*dst);
                Some(
                    Event::Field {
                        class: class.as_str(),
                        field: field.as_str(),
                        write: false,
                        held,
                        line,
                    },
                )
            },
            Op::Iput { src, base, class, field } => Some(
                Event::Field {
                    class: class.as_str(),
                    field: field.as_str(),
                    write: true,
                    held: self.held.dup(),
                    line,
                },
            ),
            Op::Sput { src, class, field } => Some(
                Event::Field {
                    class: class.as_str(),
                    field: field.as_str(),
                    write: true,
                    held: self.held.dup(),
                    line,
                },
            ),
            Op::ConstClass { dst, class } => {
                self.regs.set(*dst, Lock::new(Root::ClassConst(class.dup())));
                self.overwrite(*dst);
                None
            },
            Op::Move { dst, src } => {
                let v = regs::known(self.regs.get(*src));
                self.regs.put(*dst, v);
                let t = regs::known(self.tries.get(*src));
                self.tries.put(*dst, t);
                None
            },
            Op::NewInstance { dst, class } => {
                self.regs.clear(*dst);
                self.overwrite(*dst);
                None
            },
            Op::MoveResult { dst } => {
                let v = self.last_ret.take();
                self.regs.put(*dst, v);
                let t = self.last_try.take();
                self.tries.put(*dst, t);
                None
            },
            Op::Def(dst) => {
                self.regs.clear(*dst);
                self.overwrite(*dst);
                None
            },
            Op::MonitorEnter(r) => match regs::known(self.regs.get(*r)) {
                Some(l) => Some(self.take(m, &l, line)),
                None => None,
            },
            Op::MonitorExit(r) => {
                let found = match self.regs.get(*r) {
                    Some(l) => {
                        let name = l.ground(m.class.as_str(), m.key().as_str()).name();
                        find_last(&self.held, name.as_str())
                    },
                    None => None,
                };
                match found {
                    Some(p) => Some(Event::Release { lock: remove_at(&mut self.held, p), line }),
                    None => {
                        let n = self.held.len();
                        if n > 0 {
                            Some(
                                Event::Release { lock: remove_at(&mut self.held, n - 1), line },
                            )
                        } else {
                            None
                        }
                    },
                }
            },
            Op::Invoke(inv) => self.call(m, fx, inv, line, insn.offset),
            Op::Other => {
                match insn.writes {
                    Some(dst) => {
                        self.regs.clear(dst);
                        self.overwrite(dst);
                    },
                    None => {},
                }
                None
            },
            _ => None,
        }
    }
}

/// Where each offset's instruction stands.
struct Offsets {
    map: HashMap<u32, usize>,
}

impl Offsets {
    spec fn of(&self, insns: Seq<InsnV>) -> bool {
        forall|o: u32| #[trigger]
            index_at(insns, o, 0) == (if self.map@.contains_key(o) {
                Some(self.map@[o] as int)
            } else {
                None::<int>
            })
    }

    fn new(m: &Method) -> (r: Offsets)
        ensures
            r.of(m.deep_view().insns),
    {
        let ghost iv = m.insns.deep_view();
        let mut map: HashMap<u32, usize> = HashMap::new();
        let mut k = m.insns.len();
        while k > 0
            invariant
                k <= m.insns@.len(),
                iv == m.insns.deep_view(),
                forall|o: u32| #[trigger]
                    index_at(iv, o, k as int) == (if map@.contains_key(o) {
                        Some(map@[o] as int)
                    } else {
                        None::<int>
                    }),
            decreases k,
        {
            k -= 1;
            let ghost before = map@;
            proof {
                assert(iv[k as int] == m.insns@[k as int].deep_view());
            }
            map.insert(m.insns[k].offset, k);
            proof {
                assert forall|o: u32| #[trigger]
                    index_at(iv, o, k as int) == (if map@.contains_key(o) {
                        Some(map@[o] as int)
                    } else {
                        None::<int>
                    }) by {
                    assert(index_at(iv, o, k + 1) == (if before.contains_key(o) {
                        Some(before[o] as int)
                    } else {
                        None::<int>
                    }));
                }
            }
        }
        Offsets { map }
    }

    fn find(&self, offset: u32, Ghost(insns): Ghost<Seq<InsnV>>) -> (r: Option<usize>)
        requires
            self.of(insns),
        ensures
            match r {
                Some(t) => index_at(insns, offset, 0) == Some(t as int),
                None => index_at(insns, offset, 0) is None,
            },
    {
        proof {
            assert(index_at(insns, offset, 0) == (if self.map@.contains_key(offset) {
                Some(self.map@[offset] as int)
            } else {
                None::<int>
            }));
        }
        match self.map.get(&offset) {
            Some(t) => Some(*t),
            None => None,
        }
    }
}

/// The states before each instruction, and whether the pass at hand changed one.
struct Graph {
    states: Vec<Option<State>>,
    changed: bool,
}

impl Graph {
    spec fn wf(&self) -> bool {
        forall|t: int|
            0 <= t < self.states@.len() ==> (#[trigger] self.states@[t] matches Some(s) ==> s.wf())
    }

    spec fn model(&self) -> GraphV {
        GraphV { states: self.states.deep_view(), changed: self.changed }
    }

    fn reach(&mut self, t: Option<usize>, st: &State)
        requires
            old(self).wf(),
            st.wf(),
        ensures
            final(self).wf(),
            final(self).model() == reached(
                old(self).model(),
                match t {
                    Some(t) => Some(t as int),
                    None => None,
                },
                st.deep_view(),
            ),
    {
        match t {
            None => {},
            Some(t) => {
                if t < self.states.len() {
                    let ghost before = self.model();
                    let ghost bs = self.states@;
                    proof {
                        assert(before.states[t as int] == bs[t as int].deep_view());
                    }
                    let mut slot: Option<State> = None;
                    std::mem::swap(&mut self.states[t], &mut slot);
                    match slot {
                        None => {
                            let s = st.copy();
                            self.states.set(t, Some(s));
                            self.changed = true;
                        },
                        Some(mut a) => {
                            let c = a.join(st);
                            self.states.set(t, Some(a));
                            if c {
                                self.changed = true;
                            }
                        },
                    }
                    proof {
                        let want = reached(before, Some(t as int), st.deep_view());
                        assert(self.states.deep_view() =~= want.states);
                    }
                }
            },
        }
    }

    fn reach_all(
        &mut self,
        m: &Method,
        offs: &Offsets,
        ts: &Vec<u32>,
        st: &State,
    )
        requires
            old(self).wf(),
            st.wf(),
            offs.of(m.deep_view().insns),
        ensures
            final(self).wf(),
            final(self).model() == reached_all(
                m.deep_view(),
                old(self).model(),
                ts@,
                0,
                st.deep_view(),
            ),
    {
        let ghost mv = m.deep_view();
        let ghost begin = self.model();
        let mut j: usize = 0;
        while j < ts.len()
            invariant
                j <= ts@.len(),
                self.wf(),
                st.wf(),
                mv == m.deep_view(),
                offs.of(mv.insns),
                reached_all(mv, begin, ts@, 0, st.deep_view()) == reached_all(
                    mv,
                    self.model(),
                    ts@,
                    j as int,
                    st.deep_view(),
                ),
            decreases ts@.len() - j,
        {
            let t = offs.find(ts[j], Ghost(mv.insns));
            self.reach(t, st);
            j += 1;
        }
    }

    fn handle(&mut self, m: &Method, offs: &Offsets, offset: u32, st: &State)
        requires
            old(self).wf(),
            st.wf(),
            offs.of(m.deep_view().insns),
        ensures
            final(self).wf(),
            final(self).model() == handlers(
                m.deep_view(),
                old(self).model(),
                offset,
                0,
                st.deep_view(),
            ),
    {
        let ghost mv = m.deep_view();
        let ghost begin = self.model();
        let mut j: usize = 0;
        while j < m.catches.len()
            invariant
                j <= m.catches@.len(),
                self.wf(),
                st.wf(),
                mv == m.deep_view(),
                offs.of(mv.insns),
                handlers(mv, begin, offset, 0, st.deep_view()) == handlers(
                    mv,
                    self.model(),
                    offset,
                    j as int,
                    st.deep_view(),
                ),
            decreases m.catches@.len() - j,
        {
            let (from, to, at) = m.catches[j];
            if from <= offset && offset < to {
                let t = offs.find(at, Ghost(mv.insns));
                self.reach(t, st);
            }
            j += 1;
        }
    }

    fn spread(&mut self, m: &Method, fx: &Dict<Effect>, offs: &Offsets, k: usize)
        requires
            old(self).wf(),
            fx.wf(),
            offs.of(m.deep_view().insns),
            k < m.insns@.len(),
            k < old(self).states@.len(),
        ensures
            final(self).wf(),
            final(self).model() == spread(m.deep_view(), fx@, old(self).model(), k as int),
    {
        let ghost mv = m.deep_view();
        let n = m.insns.len();
        let next = if k < n {
            k + 1
        } else {
            k
        };
        let before = match &self.states[k] {
            Some(st) => st.copy(),
            None => {
                return;
            },
        };
        proof {
            assert(self.model().states[k as int] == self.states@[k as int].deep_view());
            assert(mv.insns[k as int] == m.insns@[k as int].deep_view());
        }
        let insn = &m.insns[k];
        let mut out = before.copy();
        out.step(m, fx, insn);
        self.handle(m, offs, insn.offset, &before);
        match &insn.op {
            Op::Goto(t) => {
                let t = offs.find(*t, Ghost(mv.insns));
                self.reach(t, &out);
            },
            Op::Branch(t) => {
                self.reach(Some(next), &out);
                let t = offs.find(*t, Ghost(mv.insns));
                self.reach(t, &out);
            },
            Op::BranchZero { reg, target } => {
                let mut other = out.copy();
                out.succeed(*reg);
                other.fail(*reg);
                self.reach(Some(next), &out);
                let t = offs.find(*target, Ghost(mv.insns));
                self.reach(t, &other);
            },
            Op::BranchNonzero { reg, target } => {
                let mut other = out.copy();
                out.succeed(*reg);
                other.fail(*reg);
                self.reach(Some(next), &other);
                let t = offs.find(*target, Ghost(mv.insns));
                self.reach(t, &out);
            },
            Op::Switch(ts) => {
                self.reach(Some(next), &out);
                self.reach_all(m, offs, ts, &out);
            },
            Op::Throw => {},
            Op::Return(_) => {},
            _ => {
                self.reach(Some(next), &out);
            },
        }
    }
}

proof fn lemma_handlers_len(m: MethodV, g: GraphV, offset: u32, j: int, st: StateV)
    ensures
        handlers(m, g, offset, j, st).states.len() == g.states.len(),
    decreases m.catches.len() - j,
{
    if j < m.catches.len() {
        let (from, to, at) = m.catches[j];
        let next = if from <= offset && offset < to {
            reached(g, index_at(m.insns, at, 0), st)
        } else {
            g
        };
        lemma_handlers_len(m, next, offset, j + 1, st);
    }
}

proof fn lemma_reached_all_len(m: MethodV, g: GraphV, ts: Seq<u32>, j: int, st: StateV)
    ensures
        reached_all(m, g, ts, j, st).states.len() == g.states.len(),
    decreases ts.len() - j,
{
    if j < ts.len() {
        lemma_reached_all_len(m, reached(g, index_at(m.insns, ts[j], 0), st), ts, j + 1, st);
    }
}

proof fn lemma_spread_len(m: MethodV, fx: EffectsV, g: GraphV, k: int)
    ensures
        spread(m, fx, g, k).states.len() == g.states.len(),
{
    match g.states[k] {
        None => {},
        Some(st) => {
            let insn = m.insns[k];
            let out = step(m, fx, st, insn).0;
            lemma_handlers_len(m, g, insn.offset, 0, st);
            let caught = handlers(m, g, insn.offset, 0, st);
            match insn.op {
                OpV::Switch(ts) => {
                    lemma_reached_all_len(m, reached(caught, Some(k + 1), out), ts, 0, out);
                },
                _ => {},
            }
        },
    }
}

fn solve(m: &Method, fx: &Dict<Effect>, entry: &Vec<Lock>) -> (r: Vec<Option<State>>)
    requires
        fx.wf(),
    ensures
        r.deep_view() == states(m.deep_view(), fx@, entry.deep_view()),
        r@.len() == m.insns@.len(),
        forall|t: int| 0 <= t < r@.len() ==> (#[trigger] r@[t] matches Some(s) ==> s.wf()),
{
    let ghost mv = m.deep_view();
    let n = m.insns.len();
    let offs = Offsets::new(m);
    let ghost want = first(mv, entry.deep_view());
    let mut sts: Vec<Option<State>> = Vec::new();
    let mut k: usize = 0;
    while k < n
        invariant
            k <= n,
            n == m.insns@.len(),
            mv == m.deep_view(),
            want == first(mv, entry.deep_view()),
            sts@.len() == k,
            forall|t: int| 0 <= t < k ==> (#[trigger] sts@[t] matches Some(s) ==> s.wf()),
            forall|t: int| 0 <= t < k ==> (#[trigger] sts@[t]).deep_view() == want[t],
        decreases n - k,
    {
        if k == 0 {
            let rs = match m.this_reg() {
                Some(_) => Regs::entry(m),
                None => Regs::new(),
            };
            let st = State {
                regs: rs,
                held: entry.dup(),
                last_ret: None,
                freed: values::empty(),
                tries: Regs::new(),
                last_try: None,
            };
            sts.push(Some(st));
        } else {
            sts.push(None);
        }
        k += 1;
    }
    proof {
        assert(sts.deep_view() =~= want);
    }
    let mut g = Graph { states: sts, changed: false };
    loop
        invariant_except_break
            states(mv, fx@, entry.deep_view()) == settled(mv, fx@, g.states.deep_view()),
        invariant
            n == m.insns@.len(),
            mv == m.deep_view(),
            fx.wf(),
            offs.of(mv.insns),
            g.wf(),
            g.states@.len() == n,
        ensures
            states(mv, fx@, entry.deep_view()) == g.states.deep_view(),
        decreases
            settle::waiting(g.states.deep_view()),
            settle::known(g.states.deep_view()),
    {
        g.changed = false;
        let ghost begin = g.model();
        let mut k: usize = 0;
        while k < n
            invariant
                k <= n,
                n == m.insns@.len(),
                mv == m.deep_view(),
                fx.wf(),
                offs.of(mv.insns),
                g.wf(),
                g.states@.len() == n,
                pass(mv, fx@, begin, 0) == pass(mv, fx@, g.model(), k as int),
            decreases n - k,
        {
            proof {
                lemma_spread_len(mv, fx@, g.model(), k as int);
            }
            let ghost prev = g.model();
            g.spread(m, fx, &offs, k);
            proof {
                assert(g.states.deep_view().len() == prev.states.len());
            }
            k += 1;
        }
        proof {
            settle::lemma_pass(mv, fx@, begin, 0);
        }
        if !g.changed {
            break ;
        }
    }
    g.states
}

/// What happens in a method, in program order, with the locks held at each point, where
/// the locks `entry` are held on entry and `fx` are the effects of helpers.
pub fn walk<'a>(m: &'a Method, entry: &Vec<Lock>, fx: &Dict<Effect>) -> (r: Vec<Event<'a>>)
    requires
        fx.wf(),
    ensures
        r.deep_view() == events(m.deep_view(), fx@, entry.deep_view()),
{
    let ghost mv = m.deep_view();
    let sts = solve(m, fx, entry);
    let ghost sv = sts.deep_view();
    let mut out: Vec<Event<'a>> = values::empty();
    let mut k: usize = 0;
    while k < m.insns.len()
        invariant
            k <= m.insns@.len(),
            mv == m.deep_view(),
            fx.wf(),
            sv == sts.deep_view(),
            sts@.len() == m.insns@.len(),
            forall|t: int| 0 <= t < sts@.len() ==> (#[trigger] sts@[t] matches Some(s) ==> s.wf()),
            events_from(mv, fx@, sv, 0, Seq::empty()) == events_from(
                mv,
                fx@,
                sv,
                k as int,
                out.deep_view(),
            ),
        decreases m.insns@.len() - k,
    {
        proof {
            assert(sv[k as int] == sts@[k as int].deep_view());
            assert(mv.insns[k as int] == m.insns@[k as int].deep_view());
        }
        match &sts[k] {
            Some(st) => {
                let mut st = st.copy();
                match st.step(m, fx, &m.insns[k]) {
                    Some(e) => values::push(&mut out, e),
                    None => {},
                }
            },
            None => {},
        }
        k += 1;
    }
    out
}

/// What all `return`s from the `k`th instruction on agree on, and `acc`.
pub open spec fn net_from(
    m: MethodV,
    sts: Seq<Option<StateV>>,
    k: int,
    acc: Option<EffectV>,
) -> Option<EffectV>
    decreases m.insns.len() - k,
{
    if k >= m.insns.len() {
        acc
    } else {
        net_from(
            m,
            sts,
            k + 1,
            match (m.insns[k].op, sts[k]) {
                (OpV::Return(_), Some(st)) => Some(
                    match acc {
                        None => EffectV { takes: st.held, frees: st.freed },
                        Some(e) => EffectV {
                            takes: common(e.takes, st.held, 0, Seq::empty()),
                            frees: common_names(e.frees, st.freed, 0, Seq::empty()),
                        },
                    },
                ),
                _ => acc,
            },
        )
    }
}

/// The locks from the `k`th on that do not escape the analysis, behind `acc`.
pub open spec fn clear(ls: Seq<LockV>, k: int, acc: Seq<LockV>) -> Seq<LockV>
    decreases ls.len() - k,
{
    if k >= ls.len() {
        acc
    } else {
        clear(
            ls,
            k + 1,
            if ls[k].is_opaque() {
                acc
            } else {
                acc.push(ls[k])
            },
        )
    }
}

/// The locks from the `k`th on, one of each name, behind `acc`.
pub open spec fn once(ls: Seq<LockV>, k: int, acc: Seq<LockV>) -> Seq<LockV>
    decreases ls.len() - k,
{
    if k >= ls.len() {
        acc
    } else {
        once(
            ls,
            k + 1,
            if is_named(acc, ls[k].name()) {
                acc
            } else {
                acc.push(ls[k])
            },
        )
    }
}

/// A method's net lock effect on its caller: what it holds at every `return`, one of each
/// name, and what it released that it did not hold.
pub open spec fn net(m: MethodV, fx: EffectsV) -> EffectV {
    match net_from(m, states(m, fx, Seq::empty()), 0, None) {
        None => EffectV { takes: Seq::empty(), frees: Seq::empty() },
        Some(e) => EffectV {
            takes: once(clear(e.takes, 0, Seq::empty()), 0, Seq::empty()),
            frees: e.frees,
        },
    }
}

/// How often a method's net effect may change before it counts as none: recursion can keep
/// an unbalanced one changing for ever.
pub const MAX_EFFECT_CHANGES: u32 = 64;

/// How often the locks held on entry to a method may change before none counts as held: a
/// backstop, as they grow by a lock or more each time.
pub const MAX_ENTRY_CHANGES: u32 = 1024;

/// The keys of the methods.
pub open spec fn keys_of(ms: Seq<MethodV>) -> Seq<Seq<char>> {
    Seq::new(ms.len(), |k: int| ms[k].key())
}

/// The effects of the methods from the `k`th on under the effects `fx`, behind `acc`.
pub open spec fn effects_round(
    ms: Seq<MethodV>,
    fx: EffectsV,
    spent: SpentV,
    k: int,
    acc: EffectsV,
) -> EffectsV
    decreases ms.len() - k,
{
    if k >= ms.len() {
        acc
    } else {
        let e = net(ms[k], fx);
        effects_round(
            ms,
            fx,
            spent,
            k + 1,
            if !rounds::is_unsettled(MAX_EFFECT_CHANGES, spent, ms[k].key()) && (e.takes.len() > 0
                || e.frees.len() > 0) {
                acc.put(ms[k].key(), e)
            } else {
                acc
            },
        )
    }
}

/// Rounds of effects until none changes.
pub open spec fn effects_settled(ms: Seq<MethodV>, fx: EffectsV, spent: SpentV) -> (
    EffectsV,
    SpentV,
)
    decreases rounds::left(MAX_EFFECT_CHANGES, keys_of(ms), spent, 0),
{
    let keys = keys_of(ms);
    let next = effects_round(ms, fx, spent, 0, DictV::none());
    if rounds::any_shifts(MAX_EFFECT_CHANGES, keys, fx, next, spent) {
        proof {
            rounds::lemma_left_falls(MAX_EFFECT_CHANGES, keys, fx, next, spent);
        }
        let more = rounds::spent_on(MAX_EFFECT_CHANGES, keys, fx, next, spent, 0);
        effects_settled(ms, rounds::steady(MAX_EFFECT_CHANGES, next, more, 0, DictV::none()), more)
    } else {
        (fx, spent)
    }
}

/// Every method's net lock effect on its callers.
pub open spec fn all_effects(d: DexV) -> EffectsV {
    effects_settled(d.methods(), DictV::none(), DictV::none()).0
}

/// The method's effect keeps changing and counts as none.
pub open spec fn unsettled(d: DexV, key: Seq<char>) -> bool {
    let spent = effects_settled(d.methods(), DictV::none(), DictV::none()).1;
    rounds::is_unsettled(MAX_EFFECT_CHANGES, spent, key)
}

/// The locks that do not escape the analysis.
pub fn keep_clear(ls: &Vec<Lock>) -> (r: Vec<Lock>)
    ensures
        r.deep_view() == clear(ls.deep_view(), 0, Seq::empty()),
{
    let ghost lv = ls.deep_view();
    let mut out: Vec<Lock> = values::empty();
    let mut k: usize = 0;
    while k < ls.len()
        invariant
            k <= ls@.len(),
            lv == ls.deep_view(),
            clear(lv, 0, Seq::empty()) == clear(lv, k as int, out.deep_view()),
        decreases ls@.len() - k,
    {
        proof {
            assert(lv[k as int] == ls@[k as int].deep_view());
        }
        if !ls[k].is_opaque() {
            values::push(&mut out, ls[k].dup());
        }
        k += 1;
    }
    out
}

fn keep_once(ls: &Vec<Lock>) -> (r: Vec<Lock>)
    ensures
        r.deep_view() == once(ls.deep_view(), 0, Seq::empty()),
{
    let ghost lv = ls.deep_view();
    let mut out: Vec<Lock> = values::empty();
    let mut k: usize = 0;
    while k < ls.len()
        invariant
            k <= ls@.len(),
            lv == ls.deep_view(),
            once(lv, 0, Seq::empty()) == once(lv, k as int, out.deep_view()),
        decreases ls@.len() - k,
    {
        proof {
            assert(lv[k as int] == ls@[k as int].deep_view());
        }
        if find_last(&out, ls[k].name().as_str()).is_none() {
            values::push(&mut out, ls[k].dup());
        }
        k += 1;
    }
    out
}

fn net_effect(m: &Method, fx: &Dict<Effect>) -> (r: Effect)
    requires
        fx.wf(),
    ensures
        r.deep_view() == net(m.deep_view(), fx@),
{
    let ghost mv = m.deep_view();
    let entry: Vec<Lock> = values::empty();
    let sts = solve(m, fx, &entry);
    let ghost sv = sts.deep_view();
    let mut acc: Option<Effect> = None;
    let mut k: usize = 0;
    while k < m.insns.len()
        invariant
            k <= m.insns@.len(),
            mv == m.deep_view(),
            sv == sts.deep_view(),
            sts@.len() == m.insns@.len(),
            net_from(mv, sv, 0, None) == net_from(mv, sv, k as int, acc.deep_view()),
        decreases m.insns@.len() - k,
    {
        proof {
            assert(sv[k as int] == sts@[k as int].deep_view());
            assert(mv.insns[k as int] == m.insns@[k as int].deep_view());
        }
        match (&m.insns[k].op, &sts[k]) {
            (Op::Return(_), Some(st)) => {
                let e = match &acc {
                    None => Effect { takes: st.held.dup(), frees: st.freed.dup() },
                    Some(e) => Effect {
                        takes: keep_common(&e.takes, &st.held),
                        frees: keep_common_names(&e.frees, &st.freed),
                    },
                };
                acc = Some(e);
            },
            _ => {},
        }
        k += 1;
    }
    match acc {
        None => Effect { takes: values::empty(), frees: values::empty() },
        Some(e) => {
            let takes = keep_once(&keep_clear(&e.takes));
            Effect { takes, frees: e.frees }
        },
    }
}

fn find_round(ms: &Vec<&Method>, fx: &Dict<Effect>, spent: &Dict<u32>) -> (r: Dict<Effect>)
    requires
        fx.wf(),
        spent.wf(),
    ensures
        r.wf(),
        r@ == effects_round(ms.deep_view(), fx@, spent@, 0, DictV::none()),
{
    let ghost mv = ms.deep_view();
    let mut next: Dict<Effect> = Dict::new();
    let mut k: usize = 0;
    while k < ms.len()
        invariant
            k <= ms@.len(),
            mv == ms.deep_view(),
            fx.wf(),
            spent.wf(),
            next.wf(),
            effects_round(mv, fx@, spent@, 0, DictV::none()) == effects_round(
                mv,
                fx@,
                spent@,
                k as int,
                next@,
            ),
        decreases ms@.len() - k,
    {
        proof {
            assert(mv[k as int] == ms@[k as int].deep_view());
        }
        let key = ms[k].key();
        if rounds::count_changes(spent, key.as_str()) < MAX_EFFECT_CHANGES {
            let e = net_effect(ms[k], fx);
            if e.takes.len() > 0 || e.frees.len() > 0 {
                next.set(key.as_str(), e);
            }
        }
        k += 1;
    }
    next
}

fn key_list(ms: &Vec<&Method>) -> (r: Vec<String>)
    ensures
        r.deep_view() == keys_of(ms.deep_view()),
{
    let ghost mv = ms.deep_view();
    let mut out: Vec<String> = values::empty();
    let mut k: usize = 0;
    while k < ms.len()
        invariant
            k <= ms@.len(),
            mv == ms.deep_view(),
            out.deep_view() == keys_of(mv).take(k as int),
        decreases ms@.len() - k,
    {
        proof {
            assert(mv[k as int] == ms@[k as int].deep_view());
        }
        values::push(&mut out, ms[k].key());
        k += 1;
        proof {
            assert(keys_of(mv).take(k as int) =~= keys_of(mv).take(k - 1).push(
                keys_of(mv)[k - 1],
            ));
        }
    }
    proof {
        assert(keys_of(mv).take(k as int) =~= keys_of(mv));
    }
    out
}

/// Every method's net lock effect on its callers, solved round by round to a fixpoint.
pub fn effects(dex: &Dex) -> (r: Dict<Effect>)
    ensures
        r.wf(),
        r@ == all_effects(dex.deep_view()),
{
    let ms = dex.methods();
    let ghost mv = ms.deep_view();
    let keys = key_list(&ms);
    let ghost kv = keys.deep_view();
    let mut fx: Dict<Effect> = Dict::new();
    let mut spent: Dict<u32> = Dict::new();
    loop
        invariant
            mv == ms.deep_view(),
            mv == dex.deep_view().methods(),
            kv == keys.deep_view(),
            kv == keys_of(mv),
            fx.wf(),
            spent.wf(),
            effects_settled(mv, DictV::none(), DictV::none()) == effects_settled(mv, fx@, spent@),
        decreases rounds::left(MAX_EFFECT_CHANGES, kv, spent@, 0),
    {
        let next = find_round(&ms, &fx, &spent);
        let ghost before = spent@;
        if !rounds::spend(MAX_EFFECT_CHANGES, &keys, &fx, &next, &mut spent) {
            return fx;
        }
        proof {
            rounds::lemma_left_falls(MAX_EFFECT_CHANGES, kv, fx@, next@, before);
        }
        fx = rounds::keep_steady(MAX_EFFECT_CHANGES, &next, &spent);
    }
}

/// A method as it is declared: `name:sig`.
pub open spec fn declared(name: Seq<char>, sig: Seq<char>) -> Seq<char> {
    name + ":"@ + sig
}

/// The class that alone declares each `name:sig`, of the methods from the `k`th on,
/// behind `acc`; nothing where several do.
pub open spec fn owners(ms: Seq<MethodV>, k: int, acc: DictV<Option<Seq<char>>>) -> DictV<
    Option<Seq<char>>,
>
    decreases ms.len() - k,
{
    if k >= ms.len() {
        acc
    } else {
        let d = declared(ms[k].name, ms[k].sig);
        owners(
            ms,
            k + 1,
            match acc.get(d) {
                None => acc.put(d, Some(ms[k].class)),
                Some(o) => if o == Some(ms[k].class) {
                    acc
                } else {
                    acc.put(d, None)
                },
            },
        )
    }
}

/// All callers of the method are known: it is private, or in a closed world the only one
/// so declared.
pub open spec fn callers_known(
    m: MethodV,
    own: DictV<Option<Seq<char>>>,
    closed_world: bool,
) -> bool {
    m.is_private() || closed_world && own.get(declared(m.name, m.sig)) == Some(Some(m.class))
}

/// The keys of the methods from the `k`th on whose callers are all known, behind `acc`.
pub open spec fn eligible(
    ms: Seq<MethodV>,
    own: DictV<Option<Seq<char>>>,
    closed_world: bool,
    k: int,
    acc: Seq<Seq<char>>,
) -> Seq<Seq<char>>
    decreases ms.len() - k,
{
    if k >= ms.len() {
        acc
    } else {
        eligible(
            ms,
            own,
            closed_world,
            k + 1,
            if callers_known(ms[k], own, closed_world) {
                names::with(acc, ms[k].key())
            } else {
                acc
            },
        )
    }
}

/// The held sets by callee.
pub type HeldAt = DictV<Seq<Seq<LockV>>>;

/// The calls among the events from the `k`th on that reach an eligible method, behind
/// `acc`.
pub open spec fn held_in(es: Seq<EventV>, keys: Seq<Seq<char>>, k: int, acc: HeldAt) -> HeldAt
    decreases es.len() - k,
{
    if k >= es.len() {
        acc
    } else {
        held_in(
            es,
            keys,
            k + 1,
            match es[k] {
                EventV::Call { inv, held, line, at } => if keys.contains(inv.key()) {
                    dict::put_more(acc, inv.key(), held)
                } else {
                    acc
                },
                _ => acc,
            },
        )
    }
}

/// The calls of the methods from the `k`th on that reach an eligible method, behind
/// `acc`, where `entry` is held on entry.
pub open spec fn held_from(
    ms: Seq<MethodV>,
    fx: EffectsV,
    keys: Seq<Seq<char>>,
    entry: DictV<Seq<LockV>>,
    k: int,
    acc: HeldAt,
) -> HeldAt
    decreases ms.len() - k,
{
    if k >= ms.len() {
        acc
    } else {
        let es = events(ms[k], fx, dict::list_at(entry, ms[k].key()));
        held_from(ms, fx, keys, entry, k + 1, held_in(es, keys, 0, acc))
    }
}

/// A lock of that name that does not escape the analysis is among them.
pub open spec fn clearly_held(ls: Seq<LockV>, name: Seq<char>) -> bool {
    exists|i: int|
        0 <= i < ls.len() && !(#[trigger] ls[i]).is_opaque() && ls[i].name() == name
}

/// A lock of that name is in each set from the `k`th on.
pub open spec fn in_all(sets: Seq<Seq<LockV>>, name: Seq<char>, k: int) -> bool {
    forall|j: int| k <= j < sets.len() ==> clearly_held(#[trigger] sets[j], name)
}

/// The locks from the `k`th on that do not escape the analysis, by name, behind `acc`.
pub open spec fn by_name(ls: Seq<LockV>, k: int, acc: DictV<LockV>) -> DictV<LockV>
    decreases ls.len() - k,
{
    if k >= ls.len() {
        acc
    } else {
        by_name(
            ls,
            k + 1,
            if ls[k].is_opaque() {
                acc
            } else {
                acc.put(ls[k].name(), ls[k])
            },
        )
    }
}

/// Of the named locks from the `k`th on those that are in every other set, behind `acc`.
pub open spec fn in_every(
    d: DictV<LockV>,
    sets: Seq<Seq<LockV>>,
    k: int,
    acc: Seq<LockV>,
) -> Seq<LockV>
    decreases d.keys.len() - k,
{
    if k >= d.keys.len() {
        acc
    } else {
        in_every(
            d,
            sets,
            k + 1,
            if in_all(sets, d.keys[k], 1) {
                acc.push(d.map[d.keys[k]])
            } else {
                acc
            },
        )
    }
}

/// Locks stand by name.
pub open spec fn lock_le() -> spec_fn(LockV, LockV) -> bool {
    |a: LockV, b: LockV| text::lex_le(a.name(), b.name())
}

/// The locks held in every set, by canonical name; those that escape the analysis never
/// count. In the order of their names.
pub open spec fn intersection(sets: Seq<Seq<LockV>>) -> Seq<LockV> {
    if sets.len() == 0 {
        Seq::empty()
    } else {
        sort::sorted(
            in_every(by_name(sets[0], 0, DictV::none()), sets, 0, Seq::empty()),
            lock_le(),
        )
    }
}

/// A lock is held on entry exactly where a lock of its name is held at every call site.
pub proof fn law_entry_locks_are_held_at_every_site(sets: Seq<Seq<LockV>>, name: Seq<char>)
    requires
        sets.len() > 0,
    ensures
        clearly_held(intersection(sets), name) <==> in_all(sets, name, 0),
{
    let d = by_name(sets[0], 0, DictV::none());
    let kept = in_every(d, sets, 0, Seq::empty());
    lemma_by_name(sets[0], 0, DictV::none(), name);
    lemma_in_every(d, sets, 0, Seq::empty(), name);
    text::lemma_lex_order();
    let out = intersection(sets);
    if clearly_held(out, name) {
        let i = choose|i: int|
            0 <= i < out.len() && !(#[trigger] out[i]).is_opaque() && out[i].name() == name;
        assert(out.contains(out[i]));
        sort::lemma_sorted_contains(kept, lock_le(), out[i]);
        let j = choose|j: int| 0 <= j < kept.len() && kept[j] == out[i];
        assert(clearly_held(kept, name));
        assert forall|j: int| 0 <= j < sets.len() implies clearly_held(#[trigger] sets[j], name) by {
            if j > 0 {
                assert(in_all(sets, name, 1));
            }
        }
    }
    if in_all(sets, name, 0) {
        assert(clearly_held(sets[0], name));
        assert(in_all(sets, name, 1));
        let j = choose|j: int|
            0 <= j < kept.len() && !(#[trigger] kept[j]).is_opaque() && kept[j].name() == name;
        assert(kept.contains(kept[j]));
        sort::lemma_sorted_contains(kept, lock_le(), kept[j]);
        let i = choose|i: int| 0 <= i < out.len() && out[i] == kept[j];
        assert(!out[i].is_opaque() && out[i].name() == name);
    }
}

/// The named locks are listed as they are mapped, each under its own name.
spec fn by_own_name(d: DictV<LockV>) -> bool {
    &&& forall|k: Seq<char>| #[trigger] d.map.contains_key(k) <==> d.keys.contains(k)
    &&& forall|k: Seq<char>| #[trigger]
        d.map.contains_key(k) ==> d.map[k].name() == k && !d.map[k].is_opaque()
}

proof fn lemma_by_name(ls: Seq<LockV>, k: int, acc: DictV<LockV>, name: Seq<char>)
    requires
        0 <= k,
        by_own_name(acc),
    ensures
        by_own_name(by_name(ls, k, acc)),
        by_name(ls, k, acc).map.contains_key(name) <==> acc.map.contains_key(name) || exists|i: int|
            k <= i < ls.len() && !(#[trigger] ls[i]).is_opaque() && ls[i].name() == name,
    decreases ls.len() - k,
{
    if k < ls.len() {
        let next = if ls[k].is_opaque() {
            acc
        } else {
            acc.put(ls[k].name(), ls[k])
        };
        assert(by_own_name(next)) by {
            assert forall|x: Seq<char>| #[trigger] next.map.contains_key(x) <==> next.keys.contains(
                x,
            ) by {
                if !ls[k].is_opaque() {
                    names::lemma_with(acc.keys, ls[k].name());
                }
            }
        }
        lemma_by_name(ls, k + 1, next, name);
        assert(by_name(ls, k, acc) == by_name(ls, k + 1, next));
    }
}

proof fn lemma_in_every(
    d: DictV<LockV>,
    sets: Seq<Seq<LockV>>,
    k: int,
    acc: Seq<LockV>,
    name: Seq<char>,
)
    requires
        0 <= k,
        by_own_name(d),
    ensures
        clearly_held(in_every(d, sets, k, acc), name) <==> clearly_held(acc, name) || (in_all(
            sets,
            name,
            1,
        ) && exists|i: int| k <= i < d.keys.len() && #[trigger] d.keys[i] == name),
    decreases d.keys.len() - k,
{
    if k < d.keys.len() {
        let x = d.keys[k];
        let kept = in_all(sets, x, 1);
        let next = if kept {
            acc.push(d.map[x])
        } else {
            acc
        };
        assert(d.keys.contains(x));
        assert(d.map.contains_key(x));
        lemma_in_every(d, sets, k + 1, next, name);
        assert(in_every(d, sets, k, acc) == in_every(d, sets, k + 1, next));
        assert(clearly_held(next, name) <==> clearly_held(acc, name) || (kept && x == name)) by {
            if clearly_held(acc, name) {
                let i = choose|i: int|
                    0 <= i < acc.len() && !(#[trigger] acc[i]).is_opaque() && acc[i].name() == name;
                assert(next[i] == acc[i]);
            }
            if kept && x == name {
                assert(next[next.len() - 1] == d.map[x]);
            }
            if clearly_held(next, name) {
                let i = choose|i: int|
                    0 <= i < next.len() && !(#[trigger] next[i]).is_opaque() && next[i].name()
                        == name;
                if i < acc.len() {
                    assert(acc[i] == next[i]);
                }
            }
        }
    }
}

/// The intersections of the held sets from the `k`th on, behind `acc`.
pub open spec fn entries_from(sites: HeldAt, k: int, acc: DictV<Seq<LockV>>) -> DictV<Seq<LockV>>
    decreases sites.keys.len() - k,
{
    if k >= sites.keys.len() {
        acc
    } else {
        let inter = intersection(dict::list_at(sites, sites.keys[k]));
        entries_from(
            sites,
            k + 1,
            if inter.len() > 0 {
                acc.put(sites.keys[k], inter)
            } else {
                acc
            },
        )
    }
}

/// One round: what is held on entry, given what was. Where it keeps changing, nothing is.
pub open spec fn entry_round(
    ms: Seq<MethodV>,
    fx: EffectsV,
    keys: Seq<Seq<char>>,
    entry: DictV<Seq<LockV>>,
    spent: SpentV,
) -> DictV<Seq<LockV>> {
    rounds::steady(
        MAX_ENTRY_CHANGES,
        entries_from(held_from(ms, fx, keys, entry, 0, DictV::none()), 0, DictV::none()),
        spent,
        0,
        DictV::none(),
    )
}

/// Rounds until none changes.
pub open spec fn entry_settled(
    ms: Seq<MethodV>,
    fx: EffectsV,
    keys: Seq<Seq<char>>,
    entry: DictV<Seq<LockV>>,
    spent: SpentV,
) -> (DictV<Seq<LockV>>, SpentV)
    decreases rounds::left(MAX_ENTRY_CHANGES, keys, spent, 0),
{
    let next = entry_round(ms, fx, keys, entry, spent);
    if rounds::any_shifts(MAX_ENTRY_CHANGES, keys, entry, next, spent) {
        proof {
            rounds::lemma_left_falls(MAX_ENTRY_CHANGES, keys, entry, next, spent);
        }
        let more = rounds::spent_on(MAX_ENTRY_CHANGES, keys, entry, next, spent, 0);
        let kept = rounds::steady(MAX_ENTRY_CHANGES, next, more, 0, DictV::none());
        entry_settled(ms, fx, keys, kept, more)
    } else {
        (entry, spent)
    }
}

/// The keys of the methods whose callers are all known.
pub open spec fn known_keys(d: DexV, closed_world: bool) -> Seq<Seq<char>> {
    let ms = d.methods();
    eligible(ms, owners(ms, 0, DictV::none()), closed_world, 0, Seq::empty())
}

/// The locks held on entry to each method whose callers are all known, and how often each
/// changed.
pub open spec fn entry_solved(d: DexV, closed_world: bool) -> (DictV<Seq<LockV>>, SpentV) {
    entry_settled(
        d.methods(),
        all_effects(d),
        known_keys(d, closed_world),
        DictV::none(),
        DictV::none(),
    )
}

/// The locks held on entry to each method whose callers are all known.
pub open spec fn held_on_entry(d: DexV, closed_world: bool) -> DictV<Seq<LockV>> {
    entry_solved(d, closed_world).0
}

fn declared_text(name: &str, sig: &str) -> (r: String)
    ensures
        r@ == declared(name@, sig@),
{
    text::cat3(name, ":", sig)
}

fn find_owners(ms: &Vec<&Method>) -> (r: Dict<Option<String>>)
    ensures
        r.wf(),
        r@ == owners(ms.deep_view(), 0, DictV::none()),
{
    let ghost mv = ms.deep_view();
    let mut out: Dict<Option<String>> = Dict::new();
    let mut k: usize = 0;
    while k < ms.len()
        invariant
            k <= ms@.len(),
            mv == ms.deep_view(),
            out.wf(),
            owners(mv, 0, DictV::none()) == owners(mv, k as int, out@),
        decreases ms@.len() - k,
    {
        proof {
            assert(mv[k as int] == ms@[k as int].deep_view());
        }
        let d = declared_text(ms[k].name.as_str(), ms[k].sig.as_str());
        let known: u8 = match out.get(d.as_str()) {
            None => 0,
            Some(None) => 2,
            Some(Some(c)) => if c.same(&ms[k].class) {
                1
            } else {
                2
            },
        };
        if known == 0 {
            out.set(d.as_str(), Some(ms[k].class.dup()));
        } else if known == 2 {
            out.set(d.as_str(), None);
        }
        k += 1;
    }
    out
}

fn find_eligible(ms: &Vec<&Method>, closed_world: bool) -> (r: Names)
    ensures
        r.wf(),
        r@ == eligible(
            ms.deep_view(),
            owners(ms.deep_view(), 0, DictV::none()),
            closed_world,
            0,
            Seq::empty(),
        ),
{
    let ghost mv = ms.deep_view();
    let own = find_owners(ms);
    let mut out = Names::new();
    let mut k: usize = 0;
    while k < ms.len()
        invariant
            k <= ms@.len(),
            mv == ms.deep_view(),
            own.wf(),
            out.wf(),
            eligible(mv, own@, closed_world, 0, Seq::empty()) == eligible(
                mv,
                own@,
                closed_world,
                k as int,
                out@,
            ),
        decreases ms@.len() - k,
    {
        proof {
            assert(mv[k as int] == ms@[k as int].deep_view());
        }
        let mut known = ms[k].is_private();
        if !known && closed_world {
            let d = declared_text(ms[k].name.as_str(), ms[k].sig.as_str());
            known = match own.get(d.as_str()) {
                Some(Some(c)) => c.same(&ms[k].class),
                _ => false,
            };
        }
        if known {
            out.intern(ms[k].key().as_str());
        }
        k += 1;
    }
    out
}

fn has_clear(ls: &Vec<Lock>, name: &str) -> (r: bool)
    ensures
        r == clearly_held(ls.deep_view(), name@),
{
    let ghost lv = ls.deep_view();
    let mut k: usize = 0;
    while k < ls.len()
        invariant
            k <= ls@.len(),
            lv == ls.deep_view(),
            forall|i: int| 0 <= i < k ==> (#[trigger] lv[i]).is_opaque() || lv[i].name() != name@,
        decreases ls@.len() - k,
    {
        proof {
            assert(lv[k as int] == ls@[k as int].deep_view());
        }
        if !ls[k].is_opaque() && text::str_eq(ls[k].name().as_str(), name) {
            return true;
        }
        k += 1;
    }
    false
}

fn in_all_others(sets: &Vec<Vec<Lock>>, name: &str) -> (r: bool)
    ensures
        r == in_all(sets.deep_view(), name@, 1),
{
    let ghost sv = sets.deep_view();
    let mut k: usize = 1;
    while k < sets.len()
        invariant
            1 <= k,
            sv == sets.deep_view(),
            forall|j: int| 1 <= j < k && j < sv.len() ==> clearly_held(#[trigger] sv[j], name@),
        decreases sets@.len() - k,
    {
        proof {
            assert(sv[k as int] == sets@[k as int].deep_view());
        }
        if !has_clear(&sets[k], name) {
            return false;
        }
        k += 1;
    }
    true
}

fn lock_in_order(a: &Lock, b: &Lock) -> (r: bool)
    ensures
        r == text::lex_le(a.deep_view().name(), b.deep_view().name()),
{
    text::str_le(a.name().as_str(), b.name().as_str())
}

/// Intersect held-lock sets by canonical name (a lock counts only if held at every
/// site), dropping opaque locks. Sorted by name.
fn intersect(sets: &Vec<Vec<Lock>>) -> (r: Vec<Lock>)
    ensures
        r.deep_view() == intersection(sets.deep_view()),
{
    let ghost sv = sets.deep_view();
    if sets.len() == 0 {
        return values::empty();
    }
    proof {
        assert(sv[0] == sets@[0].deep_view());
    }
    let first = &sets[0];
    let ghost fv = first.deep_view();
    let mut d: Dict<Lock> = Dict::new();
    let mut k: usize = 0;
    while k < first.len()
        invariant
            k <= first@.len(),
            fv == first.deep_view(),
            d.wf(),
            by_name(fv, 0, DictV::none()) == by_name(fv, k as int, d@),
        decreases first@.len() - k,
    {
        proof {
            assert(fv[k as int] == first@[k as int].deep_view());
        }
        if !first[k].is_opaque() {
            d.set(first[k].name().as_str(), first[k].dup());
        }
        k += 1;
    }
    let mut out: Vec<Lock> = values::empty();
    let mut k: usize = 0;
    while k < d.len()
        invariant
            sv == sets.deep_view(),
            d.wf(),
            k <= d@.keys.len(),
            in_every(d@, sv, 0, Seq::empty()) == in_every(d@, sv, k as int, out.deep_view()),
        decreases d@.keys.len() - k,
    {
        if in_all_others(sets, d.key_at(k)) {
            values::push(&mut out, d.val_at(k).dup());
        }
        k += 1;
    }
    sort::sort_by(out, &lock_in_order, Ghost(lock_le()))
}

fn seed(entry: &Dict<Vec<Lock>>, key: &str) -> (r: Vec<Lock>)
    requires
        entry.wf(),
    ensures
        r.deep_view() == dict::list_at(entry@, key@),
{
    match entry.get(key) {
        Some(l) => l.dup(),
        None => values::empty(),
    }
}

fn gather(
    ms: &Vec<&Method>,
    fx: &Dict<Effect>,
    keys: &Names,
    entry: &Dict<Vec<Lock>>,
) -> (r: Dict<Vec<Vec<Lock>>>)
    requires
        fx.wf(),
        keys.wf(),
        entry.wf(),
    ensures
        r.wf(),
        r@ == held_from(ms.deep_view(), fx@, keys@, entry@, 0, DictV::none()),
{
    let ghost mv = ms.deep_view();
    let mut out: Dict<Vec<Vec<Lock>>> = Dict::new();
    let mut k: usize = 0;
    while k < ms.len()
        invariant
            k <= ms@.len(),
            mv == ms.deep_view(),
            fx.wf(),
            keys.wf(),
            entry.wf(),
            out.wf(),
            held_from(mv, fx@, keys@, entry@, 0, DictV::none()) == held_from(
                mv,
                fx@,
                keys@,
                entry@,
                k as int,
                out@,
            ),
        decreases ms@.len() - k,
    {
        proof {
            assert(mv[k as int] == ms@[k as int].deep_view());
        }
        let es = walk(ms[k], &seed(entry, ms[k].key().as_str()), fx);
        let ghost ev = es.deep_view();
        let ghost begin = out@;
        let mut j: usize = 0;
        while j < es.len()
            invariant
                j <= es@.len(),
                ev == es.deep_view(),
                keys.wf(),
                out.wf(),
                held_in(ev, keys@, 0, begin) == held_in(ev, keys@, j as int, out@),
            decreases es@.len() - j,
        {
            proof {
                assert(ev[j as int] == es@[j as int].deep_view());
            }
            match &es[j] {
                Event::Call { inv, held, line, at } => {
                    let key = inv.key();
                    if keys.contains(key.as_str()) {
                        out.push_to(key.as_str(), held.dup());
                    }
                },
                _ => {},
            }
            j += 1;
        }
        k += 1;
    }
    out
}

/// Locks held on entry to each method whose callers are all known, inferred
/// interprocedurally. Keyed by method key; a method absent from the map has no inferred
/// entry lock. The locks of each stand in the order of their names.
pub fn entry_held(dex: &Dex, closed_world: bool) -> (r: Dict<Vec<Lock>>)
    ensures
        r.wf(),
        r@ == held_on_entry(dex.deep_view(), closed_world),
{
    let ms = dex.methods();
    let ghost mv = ms.deep_view();
    let fx = effects(dex);
    let keys = find_eligible(&ms, closed_world);
    let list = list_names(&keys);
    let ghost kv = keys@;
    let mut entry: Dict<Vec<Lock>> = Dict::new();
    let mut spent: Dict<u32> = Dict::new();
    loop
        invariant
            mv == ms.deep_view(),
            mv == dex.deep_view().methods(),
            fx.wf(),
            fx@ == all_effects(dex.deep_view()),
            keys.wf(),
            kv == keys@,
            kv == list.deep_view(),
            kv == known_keys(dex.deep_view(), closed_world),
            entry.wf(),
            spent.wf(),
            entry_solved(dex.deep_view(), closed_world) == entry_settled(
                mv,
                fx@,
                kv,
                entry@,
                spent@,
            ),
        decreases rounds::left(MAX_ENTRY_CHANGES, kv, spent@, 0),
    {
        let sites = gather(&ms, &fx, &keys, &entry);
        let mut all: Dict<Vec<Lock>> = Dict::new();
        let mut k: usize = 0;
        while k < sites.len()
            invariant
                sites.wf(),
                k <= sites@.keys.len(),
                all.wf(),
                entries_from(sites@, 0, DictV::none()) == entries_from(sites@, k as int, all@),
            decreases sites@.keys.len() - k,
        {
            let inter = intersect(sites.val_at(k));
            if inter.len() > 0 {
                all.set(sites.key_at(k), inter);
            }
            k += 1;
        }
        let next = rounds::keep_steady(MAX_ENTRY_CHANGES, &all, &spent);
        let ghost before = spent@;
        if !rounds::spend(MAX_ENTRY_CHANGES, &list, &entry, &next, &mut spent) {
            return entry;
        }
        proof {
            rounds::lemma_left_falls(MAX_ENTRY_CHANGES, kv, entry@, next@, before);
        }
        entry = rounds::keep_steady(MAX_ENTRY_CHANGES, &next, &spent);
    }
}

fn list_names(ns: &Names) -> (r: Vec<String>)
    ensures
        r.deep_view() == ns@,
{
    let mut out: Vec<String> = values::empty();
    let mut k: usize = 0;
    while k < ns.len()
        invariant
            k <= ns@.len(),
            out.deep_view() == ns@.take(k as int),
        decreases ns@.len() - k,
    {
        values::push(&mut out, ns.at(k).to_string());
        k += 1;
        proof {
            assert(ns@.take(k as int) =~= ns@.take(k - 1).push(ns@[k - 1]));
        }
    }
    proof {
        assert(ns@.take(k as int) =~= ns@);
    }
    out
}

} // verus!

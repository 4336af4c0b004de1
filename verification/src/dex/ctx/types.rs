//! Which class a call's receiver has: known from the bytecode (`new`, `this`, a field's
//! declared type), or, for a formal parameter, from what callers actually pass in.
//!
//! For every formal, the classes that callers pass — directly, or by handing on a formal of
//! their own — are collected, and a call on the formal reaches exactly those classes'
//! methods. So `each(a) { a.go(); }` called with a lambda reaches that lambda, while a callee
//! that only stores its argument reaches nothing through it. There is no list of "async"
//! method names: what runs a callback is read from the code.

use crate::dex::ctx::link;
use crate::dex::ctx::link::Linker;
use crate::dex::flow;
use crate::dex::model::{ClassV, Insn, InsnV, Invoke, InvokeV, Method, MethodV, Op, OpV};
use crate::dict;
use crate::dict::{Dict, DictV};
use crate::text;
use crate::values;
use crate::values::Dup;
use std::collections::HashSet;
use vstd::prelude::*;

verus! {

broadcast use vstd::std_specs::hash::group_hash_axioms;

/// What is known of the class of a value.
pub enum KindV {
    Unknown,
    Class(Seq<char>),
    /// That of the formal in the parameter register of that number.
    Formal(u32),
}

/// What is known of the class of a value.
#[derive(Debug)]
pub enum Kind {
    Unknown,
    Class(String),
    Formal(u32),
}

impl DeepView for Kind {
    type V = KindV;

    open spec fn deep_view(&self) -> KindV {
        match self {
            Kind::Unknown => KindV::Unknown,
            Kind::Class(c) => KindV::Class(c@),
            Kind::Formal(j) => KindV::Formal(*j),
        }
    }
}

impl Dup for Kind {
    fn dup(&self) -> (r: Self) {
        match self {
            Kind::Unknown => Kind::Unknown,
            Kind::Class(c) => Kind::Class(c.dup()),
            Kind::Formal(j) => Kind::Formal(*j),
        }
    }
}

/// Where an instruction jumps.
pub open spec fn jumps(op: OpV) -> Seq<u32> {
    match op {
        OpV::Goto(t) => seq![t],
        OpV::Branch(t) => seq![t],
        OpV::BranchZero { reg, target } => seq![target],
        OpV::BranchNonzero { reg, target } => seq![target],
        OpV::Switch(ts) => ts,
        _ => Seq::empty(),
    }
}

/// With the numbers from the `k`th on.
pub open spec fn with_numbers(acc: Set<u32>, ns: Seq<u32>, k: int) -> Set<u32>
    decreases ns.len() - k,
{
    if k >= ns.len() {
        acc
    } else {
        with_numbers(acc.insert(ns[k]), ns, k + 1)
    }
}

/// With where the instructions from the `k`th on jump.
pub open spec fn jumps_from(insns: Seq<InsnV>, k: int, acc: Set<u32>) -> Set<u32>
    decreases insns.len() - k,
{
    if k >= insns.len() {
        acc
    } else {
        jumps_from(insns, k + 1, with_numbers(acc, jumps(insns[k].op), 0))
    }
}

/// With the handlers from the `k`th on.
pub open spec fn handlers_from(catches: Seq<(u32, u32, u32)>, k: int, acc: Set<u32>) -> Set<u32>
    decreases catches.len() - k,
{
    if k >= catches.len() {
        acc
    } else {
        handlers_from(catches, k + 1, acc.insert(catches[k].2))
    }
}

/// The offsets that are reached other than from the instruction before.
pub open spec fn entries(m: MethodV) -> Set<u32> {
    handlers_from(m.catches, 0, jumps_from(m.insns, 0, Set::empty()))
}

/// The register that an instruction defines.
pub open spec fn defines(insn: InsnV) -> Option<u32> {
    match insn.op {
        OpV::Move { dst, src } => Some(dst),
        OpV::MoveResult { dst } => Some(dst),
        OpV::ConstClass { dst, class } => Some(dst),
        OpV::NewInstance { dst, class } => Some(dst),
        OpV::Iget { dst, base, class, field, ty } => Some(dst),
        OpV::Sget { dst, class, field } => Some(dst),
        OpV::Def(dst) => Some(dst),
        OpV::Other => insn.writes,
        _ => None,
    }
}

/// With the registers that the instructions from the `k`th on define.
pub open spec fn defined_from(insns: Seq<InsnV>, k: int, acc: Set<u32>) -> Set<u32>
    decreases insns.len() - k,
{
    if k >= insns.len() {
        acc
    } else {
        defined_from(
            insns,
            k + 1,
            match defines(insns[k]) {
                Some(r) => acc.insert(r),
                None => acc,
            },
        )
    }
}

/// What is known of registers; of two entries for one, the last counts.
pub type KnownV = Seq<(u32, KindV)>;

/// What is known of a register.
pub open spec fn known(ks: KnownV, r: u32) -> KindV
    decreases ks.len(),
{
    if ks.len() == 0 {
        KindV::Unknown
    } else if ks.last().0 == r {
        ks.last().1
    } else {
        known(ks.drop_last(), r)
    }
}

/// What is known everywhere in a method, of its parameters from the `j`th on, behind `acc`:
/// a parameter register that is never defined again holds its parameter.
pub open spec fn params_from(m: MethodV, defined: Set<u32>, j: int, acc: KnownV) -> KnownV
    decreases m.ins - j,
{
    if j >= m.ins {
        acc
    } else {
        let r = (m.first_param() + j) as u32;
        params_from(
            m,
            defined,
            j + 1,
            if defined.contains(r) {
                acc
            } else if j == 0 && m.this_reg() is Some {
                acc.push((r, KindV::Class(m.class)))
            } else {
                acc.push((r, KindV::Formal(j as u32)))
            },
        )
    }
}

/// What is known everywhere in a method.
pub open spec fn always(m: MethodV) -> KnownV {
    params_from(m, defined_from(m.insns, 0, Set::empty()), 0, Seq::empty())
}

/// What is known behind an instruction.
pub open spec fn behind(ks: KnownV, insn: InsnV) -> KnownV {
    match insn.op {
        OpV::NewInstance { dst, class } => ks.push((dst, KindV::Class(class))),
        OpV::Iget { dst, base, class, field, ty } => ks.push(
            (
                dst,
                match ty {
                    Some(t) => KindV::Class(t),
                    None => KindV::Unknown,
                },
            ),
        ),
        OpV::Move { dst, src } => ks.push((dst, known(ks, src))),
        _ => match defines(insn) {
            Some(dst) => ks.push((dst, KindV::Unknown)),
            None => ks,
        },
    }
}

/// What is known of the registers from the `k`th on, behind `acc`.
pub open spec fn kinds_from(ks: KnownV, args: Seq<u32>, k: int, acc: Seq<KindV>) -> Seq<KindV>
    decreases args.len() - k,
{
    if k >= args.len() {
        acc
    } else {
        kinds_from(ks, args, k + 1, acc.push(known(ks, args[k])))
    }
}

/// A call, where it stands, and what is known of its arguments.
pub struct TypedCallV {
    pub at: u32,
    pub inv: InvokeV,
    pub kinds: Seq<KindV>,
}

/// The calls from the `k`th instruction on, behind `acc`, where `ks` is known. What is known
/// is carried from an instruction to the next, except to one that is reached otherwise.
pub open spec fn calls_from(
    m: MethodV,
    entries: Set<u32>,
    always: KnownV,
    k: int,
    ks: KnownV,
    acc: Seq<TypedCallV>,
) -> Seq<TypedCallV>
    decreases m.insns.len() - k,
{
    if k >= m.insns.len() {
        acc
    } else {
        let i = m.insns[k];
        let here = if entries.contains(i.offset) {
            always
        } else {
            ks
        };
        calls_from(
            m,
            entries,
            always,
            k + 1,
            behind(here, i),
            match i.op {
                OpV::Invoke(inv) => acc.push(
                    TypedCallV {
                        at: i.offset,
                        inv,
                        kinds: kinds_from(here, inv.args, 0, Seq::empty()),
                    },
                ),
                _ => acc,
            },
        )
    }
}

/// The calls of a method with what is known of their arguments.
pub open spec fn typed_calls(m: MethodV) -> Seq<TypedCallV> {
    calls_from(m, entries(m), always(m), 0, always(m), Seq::empty())
}

/// What is known of the receiver of the call at that offset, among the calls from the `k`th
/// on.
pub open spec fn receiver_at(cs: Seq<TypedCallV>, at: u32, k: int) -> KindV
    decreases cs.len() - k,
{
    if k >= cs.len() {
        KindV::Unknown
    } else if cs[k].at == at {
        if cs[k].kinds.len() > 0 {
            cs[k].kinds[0]
        } else {
            KindV::Unknown
        }
    } else {
        receiver_at(cs, at, k + 1)
    }
}

/// A formal of a method by name.
pub open spec fn formal(t: usize, j: nat) -> Seq<char> {
    text::dec(t as nat) + ":"@ + text::dec(j)
}

/// What is passed in: an object of a class, or what came in through another formal.
pub enum GivenV {
    Class(Seq<char>),
    Formal(Seq<char>),
}

/// Something passed to a formal.
pub struct PassV {
    pub to: Seq<char>,
    pub given: GivenV,
}

/// What method `k` passes to `t` in the arguments from the `a`th on, behind `acc`.
pub open spec fn args_passed(k: usize, t: usize, kinds: Seq<KindV>, a: int, acc: Seq<PassV>) -> Seq<
    PassV,
>
    decreases kinds.len() - a,
{
    if a >= kinds.len() {
        acc
    } else {
        args_passed(
            k,
            t,
            kinds,
            a + 1,
            match kinds[a] {
                KindV::Unknown => acc,
                KindV::Class(c) => acc.push(
                    PassV { to: formal(t, a as nat), given: GivenV::Class(c) },
                ),
                KindV::Formal(j) => acc.push(
                    PassV {
                        to: formal(t, a as nat),
                        given: GivenV::Formal(formal(k, j as nat)),
                    },
                ),
            },
        )
    }
}

/// What method `k` passes to the targets from the `i`th on, behind `acc`.
pub open spec fn targets_passed(
    k: usize,
    ts: Seq<usize>,
    kinds: Seq<KindV>,
    i: int,
    acc: Seq<PassV>,
) -> Seq<PassV>
    decreases ts.len() - i,
{
    if i >= ts.len() {
        acc
    } else {
        targets_passed(k, ts, kinds, i + 1, args_passed(k, ts[i], kinds, 0, acc))
    }
}

/// What method `k` passes in its calls from the `i`th on, behind `acc`.
pub open spec fn calls_passed(
    ms: Seq<MethodV>,
    cs: Seq<ClassV>,
    cap: usize,
    k: usize,
    calls: Seq<TypedCallV>,
    i: int,
    acc: Seq<PassV>,
) -> Seq<PassV>
    decreases calls.len() - i,
{
    if i >= calls.len() {
        acc
    } else {
        let c = calls[i];
        let ts = link::targets(
            ms,
            cs,
            cap,
            c.inv.class,
            flow::declared(c.inv.name, c.inv.sig),
            c.inv.kind,
        );
        calls_passed(ms, cs, cap, k, calls, i + 1, targets_passed(k, ts, c.kinds, 0, acc))
    }
}

/// What the methods from the `k`th on pass, behind `acc`.
pub open spec fn passed_from(
    ms: Seq<MethodV>,
    cs: Seq<ClassV>,
    cap: usize,
    k: int,
    acc: Seq<PassV>,
) -> Seq<PassV>
    decreases ms.len() - k,
{
    if k >= ms.len() {
        acc
    } else {
        passed_from(
            ms,
            cs,
            cap,
            k + 1,
            calls_passed(ms, cs, cap, k as usize, typed_calls(ms[k]), 0, acc),
        )
    }
}

/// The classes of each formal.
pub type TypesV = DictV<Seq<Seq<char>>>;

/// With the classes from the `i`th on at a formal; says whether one was new.
pub open spec fn with_classes(t: TypesV, to: Seq<char>, cs: Seq<Seq<char>>, i: int, grew: bool) -> (
    TypesV,
    bool,
)
    decreases cs.len() - i,
{
    if i >= cs.len() {
        (t, grew)
    } else if dict::list_at(t, to).contains(cs[i]) {
        with_classes(t, to, cs, i + 1, grew)
    } else {
        with_classes(dict::put_more(t, to, cs[i]), to, cs, i + 1, true)
    }
}

/// The classes that are passed in.
pub open spec fn gives(t: TypesV, g: GivenV) -> Seq<Seq<char>> {
    match g {
        GivenV::Class(c) => seq![c],
        GivenV::Formal(f) => dict::list_at(t, f),
    }
}

/// With what is passed from the `k`th on; says whether a class was new.
pub open spec fn round(ps: Seq<PassV>, k: int, t: TypesV, grew: bool) -> (TypesV, bool)
    decreases ps.len() - k,
{
    if k >= ps.len() {
        (t, grew)
    } else {
        let (more, g) = with_classes(t, ps[k].to, gives(t, ps[k].given), 0, grew);
        round(ps, k + 1, more, g)
    }
}

/// The classes of each formal, when nothing is added any more.
pub open spec fn settled(ps: Seq<PassV>, t: TypesV, fuel: nat) -> TypesV
    decreases fuel,
{
    if fuel == 0 {
        t
    } else {
        let (more, grew) = round(ps, 0, t, false);
        if grew {
            settled(ps, more, (fuel - 1) as nat)
        } else {
            more
        }
    }
}

/// No more rounds than that can add something: each adds a class that is passed somewhere to
/// a formal that something is passed to.
pub open spec fn enough(ps: Seq<PassV>) -> nat {
    missing(ps, DictV::none(), 0) + 1
}

/// The classes that callers pass in for each formal of a program.
pub open spec fn passed_classes(ms: Seq<MethodV>, cs: Seq<ClassV>, cap: usize) -> TypesV {
    let ps = passed_from(ms, cs, cap, 0, Seq::empty());
    settled(ps, DictV::none(), enough(ps))
}

/// How many of the classes passed from the `j`th pass on are not known of the formal.
pub open spec fn lacking(ps: Seq<PassV>, t: TypesV, to: Seq<char>, j: int) -> nat
    decreases ps.len() - j,
{
    if j >= ps.len() {
        0
    } else {
        lacking(ps, t, to, j + 1) + match ps[j].given {
            GivenV::Class(c) => if dict::list_at(t, to).contains(c) {
                0nat
            } else {
                1
            },
            GivenV::Formal(_) => 0,
        }
    }
}

/// How many classes the formals of the passes from the `k`th on may still get.
pub open spec fn missing(ps: Seq<PassV>, t: TypesV, k: int) -> nat
    decreases ps.len() - k,
{
    if k >= ps.len() {
        0
    } else {
        missing(ps, t, k + 1) + lacking(ps, t, ps[k].to, 0)
    }
}

/// A call, where it stands, and what is known of its arguments.
pub struct TypedCall<'a> {
    pub at: u32,
    pub inv: &'a Invoke,
    pub kinds: Vec<Kind>,
}

impl<'a> DeepView for TypedCall<'a> {
    type V = TypedCallV;

    open spec fn deep_view(&self) -> TypedCallV {
        TypedCallV { at: self.at, inv: self.inv.deep_view(), kinds: self.kinds.deep_view() }
    }
}

fn add_numbers(acc: &mut HashSet<u32>, ns: &Vec<u32>)
    ensures
        final(acc)@ == with_numbers(old(acc)@, ns@, 0),
{
    let ghost start = acc@;
    let mut k: usize = 0;
    while k < ns.len()
        invariant
            k <= ns@.len(),
            with_numbers(start, ns@, 0) == with_numbers(acc@, ns@, k as int),
        decreases ns@.len() - k,
    {
        acc.insert(ns[k]);
        k += 1;
    }
}

fn find_entries(m: &Method) -> (r: HashSet<u32>)
    ensures
        r@ == entries(m.deep_view()),
{
    let ghost iv = m.insns.deep_view();
    let mut acc: HashSet<u32> = HashSet::new();
    let mut k: usize = 0;
    while k < m.insns.len()
        invariant
            k <= m.insns@.len(),
            iv == m.insns.deep_view(),
            jumps_from(iv, 0, Set::empty()) == jumps_from(iv, k as int, acc@),
        decreases m.insns@.len() - k,
    {
        proof {
            assert(iv[k as int] == m.insns@[k as int].deep_view());
        }
        let ghost before = acc@;
        match &m.insns[k].op {
            Op::Goto(t) => {
                acc.insert(*t);
                proof {
                    assert(with_numbers(before.insert(*t), seq![*t], 1) == acc@);
                    assert(with_numbers(before, seq![*t], 0) == acc@);
                }
            },
            Op::Branch(t) => {
                acc.insert(*t);
                proof {
                    assert(with_numbers(before.insert(*t), seq![*t], 1) == acc@);
                    assert(with_numbers(before, seq![*t], 0) == acc@);
                }
            },
            Op::BranchZero { reg, target } | Op::BranchNonzero { reg, target } => {
                acc.insert(*target);
                proof {
                    assert(with_numbers(before.insert(*target), seq![*target], 1) == acc@);
                    assert(with_numbers(before, seq![*target], 0) == acc@);
                }
            },
            Op::Switch(ts) => {
                add_numbers(&mut acc, ts);
            },
            _ => {},
        }
        k += 1;
    }
    let ghost jumped = acc@;
    let mut k: usize = 0;
    while k < m.catches.len()
        invariant
            k <= m.catches@.len(),
            handlers_from(m.catches@, 0, jumped) == handlers_from(m.catches@, k as int, acc@),
        decreases m.catches@.len() - k,
    {
        acc.insert(m.catches[k].2);
        k += 1;
    }
    acc
}

fn defined_by(insn: &Insn) -> (r: Option<u32>)
    ensures
        r == defines(insn.deep_view()),
{
    match &insn.op {
        Op::Move { dst, src } => Some(*dst),
        Op::MoveResult { dst } => Some(*dst),
        Op::ConstClass { dst, class } => Some(*dst),
        Op::NewInstance { dst, class } => Some(*dst),
        Op::Iget { dst, base, class, field, ty } => Some(*dst),
        Op::Sget { dst, class, field } => Some(*dst),
        Op::Def(dst) => Some(*dst),
        Op::Other => insn.writes,
        _ => None,
    }
}

fn find_defined(m: &Method) -> (r: HashSet<u32>)
    ensures
        r@ == defined_from(m.deep_view().insns, 0, Set::empty()),
{
    let ghost iv = m.insns.deep_view();
    let mut acc: HashSet<u32> = HashSet::new();
    let mut k: usize = 0;
    while k < m.insns.len()
        invariant
            k <= m.insns@.len(),
            iv == m.insns.deep_view(),
            defined_from(iv, 0, Set::empty()) == defined_from(iv, k as int, acc@),
        decreases m.insns@.len() - k,
    {
        proof {
            assert(iv[k as int] == m.insns@[k as int].deep_view());
        }
        match defined_by(&m.insns[k]) {
            Some(r) => {
                acc.insert(r);
            },
            None => {},
        }
        k += 1;
    }
    acc
}

fn look_up(ks: &Vec<(u32, Kind)>, r: u32) -> (kind: Kind)
    ensures
        kind.deep_view() == known(ks.deep_view(), r),
{
    let ghost kv = ks.deep_view();
    let mut k = ks.len();
    proof {
        assert(kv.take(k as int) =~= kv);
    }
    while k > 0
        invariant
            k <= ks@.len(),
            kv == ks.deep_view(),
            known(kv, r) == known(kv.take(k as int), r),
        decreases k,
    {
        proof {
            assert(kv.take(k as int).drop_last() =~= kv.take(k - 1));
            assert(kv.take(k as int).last() == ks@[k - 1].deep_view());
        }
        if ks[k - 1].0 == r {
            return ks[k - 1].1.dup();
        }
        k -= 1;
    }
    Kind::Unknown
}

fn find_always(m: &Method) -> (r: Vec<(u32, Kind)>)
    ensures
        r.deep_view() == always(m.deep_view()),
{
    let ghost mv = m.deep_view();
    let defined = find_defined(m);
    let base = m.first_param();
    let has_this = m.this_reg().is_some();
    let mut out: Vec<(u32, Kind)> = values::empty();
    let mut j: u32 = 0;
    while j < m.ins
        invariant
            j <= m.ins,
            mv == m.deep_view(),
            base == mv.first_param(),
            has_this == (mv.this_reg() is Some),
            params_from(mv, defined@, 0, Seq::empty()) == params_from(
                mv,
                defined@,
                j as int,
                out.deep_view(),
            ),
        decreases m.ins - j,
    {
        let r = base + j;
        if !defined.contains(&r) {
            let kind = if j == 0 && has_this {
                Kind::Class(m.class.dup())
            } else {
                Kind::Formal(j)
            };
            values::push(&mut out, (r, kind));
        }
        j += 1;
    }
    out
}

fn carry(ks: &mut Vec<(u32, Kind)>, insn: &Insn)
    ensures
        final(ks).deep_view() == behind(old(ks).deep_view(), insn.deep_view()),
{
    match &insn.op {
        Op::NewInstance { dst, class } => {
            values::push(ks, (*dst, Kind::Class(class.dup())));
        },
        Op::Iget { dst, base, class, field, ty } => {
            let kind = match ty {
                Some(t) => Kind::Class(t.dup()),
                None => Kind::Unknown,
            };
            values::push(ks, (*dst, kind));
        },
        Op::Move { dst, src } => {
            let kind = look_up(ks, *src);
            values::push(ks, (*dst, kind));
        },
        _ => {
            match defined_by(insn) {
                Some(dst) => {
                    values::push(ks, (dst, Kind::Unknown));
                },
                None => {},
            }
        },
    }
}

fn kinds_of(ks: &Vec<(u32, Kind)>, args: &Vec<u32>) -> (r: Vec<Kind>)
    ensures
        r.deep_view() == kinds_from(ks.deep_view(), args@, 0, Seq::empty()),
{
    let ghost kv = ks.deep_view();
    let mut out: Vec<Kind> = values::empty();
    let mut k: usize = 0;
    while k < args.len()
        invariant
            k <= args@.len(),
            kv == ks.deep_view(),
            kinds_from(kv, args@, 0, Seq::empty()) == kinds_from(
                kv,
                args@,
                k as int,
                out.deep_view(),
            ),
        decreases args@.len() - k,
    {
        values::push(&mut out, look_up(ks, args[k]));
        k += 1;
    }
    out
}

/// The calls of a method with what is known of their arguments.
pub fn find_calls<'a>(m: &'a Method) -> (r: Vec<TypedCall<'a>>)
    ensures
        r.deep_view() == typed_calls(m.deep_view()),
{
    let ghost mv = m.deep_view();
    let entries = find_entries(m);
    let always = find_always(m);
    let ghost ev = entries@;
    let ghost av = always.deep_view();
    let mut ks = always.dup();
    let mut out: Vec<TypedCall<'a>> = values::empty();
    let mut k: usize = 0;
    while k < m.insns.len()
        invariant
            k <= m.insns@.len(),
            mv == m.deep_view(),
            ev == entries@,
            av == always.deep_view(),
            calls_from(mv, ev, av, 0, av, Seq::empty()) == calls_from(
                mv,
                ev,
                av,
                k as int,
                ks.deep_view(),
                out.deep_view(),
            ),
        decreases m.insns@.len() - k,
    {
        let i = &m.insns[k];
        proof {
            assert(mv.insns[k as int] == i.deep_view());
        }
        if entries.contains(&i.offset) {
            ks = always.dup();
        }
        match &i.op {
            Op::Invoke(inv) => {
                let kinds = kinds_of(&ks, &inv.args);
                values::push(&mut out, TypedCall { at: i.offset, inv, kinds });
            },
            _ => {},
        }
        carry(&mut ks, i);
        k += 1;
    }
    out
}

/// What is known of the receiver of the call at that offset.
pub fn find_receiver<'a>(cs: &Vec<TypedCall<'a>>, at: u32) -> (r: Kind)
    ensures
        r.deep_view() == receiver_at(cs.deep_view(), at, 0),
{
    let ghost cv = cs.deep_view();
    let mut k: usize = 0;
    while k < cs.len()
        invariant
            k <= cs@.len(),
            cv == cs.deep_view(),
            receiver_at(cv, at, 0) == receiver_at(cv, at, k as int),
        decreases cs@.len() - k,
    {
        proof {
            assert(cv[k as int] == cs@[k as int].deep_view());
        }
        if cs[k].at == at {
            let ghost kv = cs@[k as int].kinds.deep_view();
            proof {
                assert(kv.len() == cs@[k as int].kinds@.len());
            }
            if cs[k].kinds.len() > 0 {
                return cs[k].kinds[0].dup();
            }
            return Kind::Unknown;
        }
        k += 1;
    }
    Kind::Unknown
}

/// What is passed in.
pub enum Given {
    Class(String),
    Formal(String),
}

/// Something passed to a formal.
pub struct Pass {
    pub to: String,
    pub given: Given,
}

impl DeepView for Given {
    type V = GivenV;

    open spec fn deep_view(&self) -> GivenV {
        match self {
            Given::Class(c) => GivenV::Class(c@),
            Given::Formal(f) => GivenV::Formal(f@),
        }
    }
}

impl DeepView for Pass {
    type V = PassV;

    open spec fn deep_view(&self) -> PassV {
        PassV { to: self.to@, given: self.given.deep_view() }
    }
}

/// A formal of a method by name.
pub fn formal_name(t: usize, j: u64) -> (r: String)
    ensures
        r@ == formal(t, j as nat),
{
    let a = text::dec_of(t as u64);
    let b = text::dec_of(j);
    text::cat3(a.as_str(), ":", b.as_str())
}

fn pass_args(k: usize, t: usize, kinds: &Vec<Kind>, out: &mut Vec<Pass>)
    ensures
        final(out).deep_view() == args_passed(k, t, kinds.deep_view(), 0, old(out).deep_view()),
{
    let ghost kv = kinds.deep_view();
    let ghost begin = out.deep_view();
    let mut a: usize = 0;
    while a < kinds.len()
        invariant
            a <= kinds@.len(),
            kv == kinds.deep_view(),
            args_passed(k, t, kv, 0, begin) == args_passed(k, t, kv, a as int, out.deep_view()),
        decreases kinds@.len() - a,
    {
        proof {
            assert(kv[a as int] == kinds@[a as int].deep_view());
        }
        match &kinds[a] {
            Kind::Unknown => {},
            Kind::Class(c) => {
                let to = formal_name(t, a as u64);
                values::push(out, Pass { to, given: Given::Class(c.dup()) });
            },
            Kind::Formal(j) => {
                let to = formal_name(t, a as u64);
                let from = formal_name(k, *j as u64);
                values::push(out, Pass { to, given: Given::Formal(from) });
            },
        }
        a += 1;
    }
}

fn pass_targets(k: usize, ts: &Vec<usize>, kinds: &Vec<Kind>, out: &mut Vec<Pass>)
    ensures
        final(out).deep_view() == targets_passed(
            k,
            ts@,
            kinds.deep_view(),
            0,
            old(out).deep_view(),
        ),
{
    let ghost kv = kinds.deep_view();
    let ghost begin = out.deep_view();
    let mut i: usize = 0;
    while i < ts.len()
        invariant
            i <= ts@.len(),
            kv == kinds.deep_view(),
            targets_passed(k, ts@, kv, 0, begin) == targets_passed(
                k,
                ts@,
                kv,
                i as int,
                out.deep_view(),
            ),
        decreases ts@.len() - i,
    {
        pass_args(k, ts[i], kinds, out);
        i += 1;
    }
}

fn find_passed(
    linker: &mut Linker,
    ms: &Vec<&Method>,
    cap: usize,
    Ghost(mv): Ghost<Seq<MethodV>>,
    Ghost(cs): Ghost<Seq<ClassV>>,
) -> (r: Vec<Pass>)
    requires
        ms.deep_view() == mv,
        old(linker).of(mv, cs),
    ensures
        final(linker).of(mv, cs),
        r.deep_view() == passed_from(mv, cs, cap, 0, Seq::empty()),
{
    let mut out: Vec<Pass> = values::empty();
    let mut k: usize = 0;
    while k < ms.len()
        invariant
            k <= ms@.len(),
            ms.deep_view() == mv,
            linker.of(mv, cs),
            passed_from(mv, cs, cap, 0, Seq::empty()) == passed_from(
                mv,
                cs,
                cap,
                k as int,
                out.deep_view(),
            ),
        decreases ms@.len() - k,
    {
        proof {
            assert(mv[k as int] == ms@[k as int].deep_view());
        }
        let calls = find_calls(ms[k]);
        let ghost cv = calls.deep_view();
        let ghost begin = out.deep_view();
        let mut i: usize = 0;
        while i < calls.len()
            invariant
                i <= calls@.len(),
                cv == calls.deep_view(),
                linker.of(mv, cs),
                calls_passed(mv, cs, cap, k, cv, 0, begin) == calls_passed(
                    mv,
                    cs,
                    cap,
                    k,
                    cv,
                    i as int,
                    out.deep_view(),
                ),
            decreases calls@.len() - i,
        {
            let c = &calls[i];
            proof {
                assert(cv[i as int] == c.deep_view());
            }
            let d = text::cat3(c.inv.name.as_str(), ":", c.inv.sig.as_str());
            let ts = linker.link(
                cap,
                c.inv.class.as_str(),
                d.as_str(),
                c.inv.kind,
                Ghost(mv),
                Ghost(cs),
            );
            pass_targets(k, &ts, &c.kinds, &mut out);
            i += 1;
        }
        k += 1;
    }
    out
}

fn lists_class(list: &Vec<String>, c: &str) -> (r: bool)
    ensures
        r == list.deep_view().contains(c@),
{
    let ghost lv = list.deep_view();
    let mut k: usize = 0;
    while k < list.len()
        invariant
            k <= list@.len(),
            lv == list.deep_view(),
            forall|i: int| 0 <= i < k ==> lv[i] != c@,
        decreases list@.len() - k,
    {
        proof {
            assert(lv[k as int] == list@[k as int]@);
        }
        if text::str_eq(list[k].as_str(), c) {
            return true;
        }
        k += 1;
    }
    false
}

fn add_classes(t: &mut Dict<Vec<String>>, to: &str, cs: &Vec<String>, grew: bool) -> (r: bool)
    requires
        old(t).wf(),
    ensures
        final(t).wf(),
        (final(t)@, r) == with_classes(old(t)@, to@, cs.deep_view(), 0, grew),
{
    let ghost cv = cs.deep_view();
    let ghost begin = t@;
    let mut more = grew;
    let mut i: usize = 0;
    while i < cs.len()
        invariant
            i <= cs@.len(),
            cv == cs.deep_view(),
            t.wf(),
            with_classes(begin, to@, cv, 0, grew) == with_classes(t@, to@, cv, i as int, more),
        decreases cs@.len() - i,
    {
        proof {
            assert(cv[i as int] == cs@[i as int]@);
        }
        let there = match t.get(to) {
            Some(list) => lists_class(list, cs[i].as_str()),
            None => false,
        };
        if !there {
            t.push_to(to, cs[i].dup());
            more = true;
        }
        i += 1;
    }
    more
}

fn add_round(ps: &Vec<Pass>, t: &mut Dict<Vec<String>>) -> (r: bool)
    requires
        old(t).wf(),
    ensures
        final(t).wf(),
        (final(t)@, r) == round(ps.deep_view(), 0, old(t)@, false),
{
    let ghost pv = ps.deep_view();
    let ghost begin = t@;
    let mut grew = false;
    let mut k: usize = 0;
    while k < ps.len()
        invariant
            k <= ps@.len(),
            pv == ps.deep_view(),
            t.wf(),
            round(pv, 0, begin, false) == round(pv, k as int, t@, grew),
        decreases ps@.len() - k,
    {
        proof {
            assert(pv[k as int] == ps@[k as int].deep_view());
        }
        let given: Vec<String> = match &ps[k].given {
            Given::Class(c) => {
                let one = vec![c.dup()];
                proof {
                    assert(one.deep_view() =~= seq![c@]);
                }
                one
            },
            Given::Formal(f) => match t.get(f.as_str()) {
                Some(list) => list.dup(),
                None => values::empty(),
            },
        };
        grew = add_classes(t, ps[k].to.as_str(), &given, grew);
        k += 1;
    }
    grew
}

/// The classes that callers pass in for each formal of a program.
pub fn find_classes(
    linker: &mut Linker,
    ms: &Vec<&Method>,
    cap: usize,
    Ghost(mv): Ghost<Seq<MethodV>>,
    Ghost(cs): Ghost<Seq<ClassV>>,
) -> (r: Dict<Vec<String>>)
    requires
        ms.deep_view() == mv,
        old(linker).of(mv, cs),
    ensures
        final(linker).of(mv, cs),
        r.wf(),
        r@ == passed_classes(mv, cs, cap),
{
    let ps = find_passed(linker, ms, cap, Ghost(mv), Ghost(cs));
    let ghost pv = ps.deep_view();
    let mut t: Dict<Vec<String>> = Dict::new();
    let ghost mut fuel = enough(pv);
    let mut more = true;
    while more
        invariant
            t.wf(),
            pv == ps.deep_view(),
            grounded(pv, t@),
            more ==> missing(pv, t@, 0) < fuel,
            passed_classes(mv, cs, cap) == (if more {
                settled(pv, t@, fuel)
            } else {
                t@
            }),
        decreases fuel + (if more { 1nat } else { 0 }),
    {
        proof {
            lemma_round(pv, 0, t@, false);
            lemma_round_fills(pv, 0, t@, false);
            fuel = (fuel - 1) as nat;
        }
        more = add_round(&ps, &mut t);
    }
    t
}

/// The passes of the chain hand on what the first of them gives: each gives the formal that
/// the one before it is passed to.
pub open spec fn hands_on(ps: Seq<PassV>, chain: Seq<int>) -> bool {
    &&& chain.len() > 0
    &&& forall|i: int| 0 <= i < chain.len() ==> 0 <= #[trigger] chain[i] < ps.len()
    &&& forall|i: int, j: int|
        0 <= i && j == i + 1 && j < chain.len() ==> ps[#[trigger] chain[j]].given
            == GivenV::Formal(ps[#[trigger] chain[i]].to)
}

/// The chain brings an object of the class to the formal.
pub open spec fn brings(ps: Seq<PassV>, chain: Seq<int>, c: Seq<char>, f: Seq<char>) -> bool {
    hands_on(ps, chain) && ps[chain[0]].given == GivenV::Class(c) && ps[chain.last()].to == f
}

/// An object of the class arrives at the formal: some chain of passes brings it.
pub open spec fn arrives(ps: Seq<PassV>, c: Seq<char>, f: Seq<char>) -> bool {
    exists|chain: Seq<int>| brings(ps, chain, c, f)
}

/// Every class of a formal arrives there.
pub open spec fn grounded(ps: Seq<PassV>, t: TypesV) -> bool {
    forall|f: Seq<char>, c: Seq<char>| #[trigger]
        dict::list_at(t, f).contains(c) ==> arrives(ps, c, f)
}

/// A class is known of a formal only where callers pass an object of it in, directly or by
/// handing on formals of their own: a target is never invented.
pub proof fn law_known_classes_arrive(
    ms: Seq<MethodV>,
    cs: Seq<ClassV>,
    cap: usize,
    f: Seq<char>,
    c: Seq<char>,
)
    requires
        dict::list_at(passed_classes(ms, cs, cap), f).contains(c),
    ensures
        arrives(passed_from(ms, cs, cap, 0, Seq::empty()), c, f),
{
    let ps = passed_from(ms, cs, cap, 0, Seq::empty());
    lemma_settled(ps, DictV::none(), enough(ps));
}

/// Every class that callers pass in for a formal, directly or by handing on formals of their
/// own, is known of it: no target is missed.
pub proof fn law_arriving_classes_are_known(
    ms: Seq<MethodV>,
    cs: Seq<ClassV>,
    cap: usize,
    f: Seq<char>,
    c: Seq<char>,
)
    requires
        arrives(passed_from(ms, cs, cap, 0, Seq::empty()), c, f),
    ensures
        dict::list_at(passed_classes(ms, cs, cap), f).contains(c),
{
    let ps = passed_from(ms, cs, cap, 0, Seq::empty());
    let t = passed_classes(ms, cs, cap);
    lemma_rest(ps, DictV::none(), enough(ps));
    let chain = choose|chain: Seq<int>| brings(ps, chain, c, f);
    lemma_quiet(ps, 0, t);
    lemma_brought(ps, t, chain, c);
}

proof fn lemma_brought(ps: Seq<PassV>, t: TypesV, chain: Seq<int>, c: Seq<char>)
    requires
        hands_on(ps, chain),
        ps[chain[0]].given == GivenV::Class(c),
        forall|k: int, x: Seq<char>|
            0 <= k < ps.len() && #[trigger] gives(t, ps[k].given).contains(x) ==> dict::list_at(
                t,
                ps[k].to,
            ).contains(x),
    ensures
        dict::list_at(t, ps[chain.last()].to).contains(c),
    decreases chain.len(),
{
    let n = chain.len() - 1;
    let last = chain[n];
    if n == 0 {
        assert(gives(t, ps[last].given)[0] == c);
        assert(gives(t, ps[last].given).contains(c));
    } else {
        let front = chain.drop_last();
        assert(hands_on(ps, front)) by {
            assert forall|i: int, j: int|
                0 <= i && j == i + 1 && j < front.len() implies ps[#[trigger] front[j]].given
                == GivenV::Formal(ps[#[trigger] front[i]].to) by {
                assert(front[i] == chain[i] && front[j] == chain[j]);
            }
        }
        lemma_brought(ps, t, front, c);
        assert(ps[chain[n]].given == GivenV::Formal(ps[chain[n - 1]].to));
        assert(gives(t, ps[last].given).contains(c));
    }
}

proof fn lemma_classes_quiet(t: TypesV, to: Seq<char>, cs: Seq<Seq<char>>, i: int, grew: bool)
    requires
        0 <= i,
        !with_classes(t, to, cs, i, grew).1,
    ensures
        !grew,
        with_classes(t, to, cs, i, grew).0 == t,
        forall|j: int| i <= j < cs.len() ==> dict::list_at(t, to).contains(#[trigger] cs[j]),
    decreases cs.len() - i,
{
    if i < cs.len() {
        if dict::list_at(t, to).contains(cs[i]) {
            lemma_classes_quiet(t, to, cs, i + 1, grew);
        } else {
            lemma_classes_quiet(dict::put_more(t, to, cs[i]), to, cs, i + 1, true);
        }
    }
}

proof fn lemma_round_grew(ps: Seq<PassV>, k: int, t: TypesV)
    requires
        0 <= k,
    ensures
        round(ps, k, t, true).1,
    decreases ps.len() - k,
{
    if k < ps.len() {
        let (more, g) = with_classes(t, ps[k].to, gives(t, ps[k].given), 0, true);
        if !g {
            lemma_classes_quiet(t, ps[k].to, gives(t, ps[k].given), 0, true);
        }
        lemma_round_grew(ps, k + 1, more);
    }
}

proof fn lemma_quiet(ps: Seq<PassV>, k: int, t: TypesV)
    requires
        0 <= k,
        !round(ps, k, t, false).1,
    ensures
        forall|j: int, x: Seq<char>|
            k <= j < ps.len() && #[trigger] gives(t, ps[j].given).contains(x) ==> dict::list_at(
                t,
                ps[j].to,
            ).contains(x),
    decreases ps.len() - k,
{
    if k < ps.len() {
        let all = gives(t, ps[k].given);
        let (more, g) = with_classes(t, ps[k].to, all, 0, false);
        if g {
            lemma_round_grew(ps, k + 1, more);
        }
        lemma_classes_quiet(t, ps[k].to, all, 0, false);
        lemma_quiet(ps, k + 1, t);
        assert forall|j: int, x: Seq<char>|
            k <= j < ps.len() && #[trigger] gives(
                t,
                ps[j].given,
            ).contains(x) implies dict::list_at(t, ps[j].to).contains(x) by {
            if j == k {
                let i = choose|i: int| 0 <= i < all.len() && all[i] == x;
                assert(dict::list_at(t, ps[k].to).contains(all[i]));
            }
        }
    }
}

proof fn lemma_arrival(ps: Seq<PassV>, t: TypesV, k: int, c: Seq<char>)
    requires
        grounded(ps, t),
        0 <= k < ps.len(),
        gives(t, ps[k].given).contains(c),
    ensures
        arrives(ps, c, ps[k].to),
{
    match ps[k].given {
        GivenV::Class(x) => {
            let chain = seq![k];
            assert(brings(ps, chain, c, ps[k].to));
        },
        GivenV::Formal(f) => {
            assert(arrives(ps, c, f));
            let front = choose|chain: Seq<int>| brings(ps, chain, c, f);
            let chain = front.push(k);
            assert forall|i: int, j: int|
                0 <= i && j == i + 1 && j < chain.len() implies ps[#[trigger] chain[j]].given
                == GivenV::Formal(ps[#[trigger] chain[i]].to) by {
                if j < front.len() {
                    assert(front[i] == chain[i] && front[j] == chain[j]);
                } else {
                    assert(chain[i] == front.last());
                }
            }
            assert(brings(ps, chain, c, ps[k].to));
        },
    }
}

proof fn lemma_with_classes(
    ps: Seq<PassV>,
    t: TypesV,
    to: Seq<char>,
    cs: Seq<Seq<char>>,
    i: int,
    grew: bool,
)
    requires
        grounded(ps, t),
        0 <= i,
        forall|j: int| i <= j < cs.len() ==> arrives(ps, #[trigger] cs[j], to),
    ensures
        grounded(ps, with_classes(t, to, cs, i, grew).0),
    decreases cs.len() - i,
{
    if i < cs.len() {
        if dict::list_at(t, to).contains(cs[i]) {
            lemma_with_classes(ps, t, to, cs, i + 1, grew);
        } else {
            let next = dict::put_more(t, to, cs[i]);
            let list = dict::list_at(t, to);
            assert forall|f: Seq<char>, c: Seq<char>| #[trigger]
                dict::list_at(next, f).contains(c) implies arrives(ps, c, f) by {
                if f == to {
                    let p = choose|p: int|
                        0 <= p < dict::list_at(next, f).len() && dict::list_at(next, f)[p] == c;
                    if p < list.len() {
                        assert(list[p] == c);
                        assert(dict::list_at(t, f).contains(c));
                    } else {
                        assert(arrives(ps, cs[i], to));
                    }
                } else {
                    assert(dict::list_at(t, f).contains(c));
                }
            }
            lemma_with_classes(ps, next, to, cs, i + 1, true);
        }
    }
}

proof fn lemma_round(ps: Seq<PassV>, k: int, t: TypesV, grew: bool)
    requires
        0 <= k,
        grounded(ps, t),
    ensures
        grounded(ps, round(ps, k, t, grew).0),
    decreases ps.len() - k,
{
    if k < ps.len() {
        let all = gives(t, ps[k].given);
        assert forall|j: int| 0 <= j < all.len() implies arrives(
            ps,
            #[trigger] all[j],
            ps[k].to,
        ) by {
            assert(all.contains(all[j]));
            lemma_arrival(ps, t, k, all[j]);
        }
        lemma_with_classes(ps, t, ps[k].to, all, 0, grew);
        let (more, g) = with_classes(t, ps[k].to, all, 0, grew);
        lemma_round(ps, k + 1, more, g);
    }
}

proof fn lemma_settled(ps: Seq<PassV>, t: TypesV, fuel: nat)
    requires
        grounded(ps, t),
    ensures
        grounded(ps, settled(ps, t, fuel)),
    decreases fuel,
{
    if fuel > 0 {
        lemma_round(ps, 0, t, false);
        let (more, grew) = round(ps, 0, t, false);
        if grew {
            lemma_settled(ps, more, (fuel - 1) as nat);
        }
    }
}

proof fn lemma_lacking(
    ps: Seq<PassV>,
    t: TypesV,
    to: Seq<char>,
    c: Seq<char>,
    x: Seq<char>,
    j: int,
    p: int,
)
    requires
        0 <= j,
    ensures
        lacking(ps, dict::put_more(t, to, c), x, j) <= lacking(ps, t, x, j),
        x == to && j <= p < ps.len() && ps[p].given == GivenV::Class(c) && !dict::list_at(
            t,
            to,
        ).contains(c) ==> lacking(ps, dict::put_more(t, to, c), x, j) < lacking(ps, t, x, j),
    decreases ps.len() - j,
{
    if j < ps.len() {
        lemma_lacking(ps, t, to, c, x, j + 1, p);
        let list = dict::list_at(t, to);
        let next = dict::put_more(t, to, c);
        match ps[j].given {
            GivenV::Class(d) => {
                if dict::list_at(t, x).contains(d) && x == to {
                    let i = choose|i: int| 0 <= i < list.len() && list[i] == d;
                    assert(dict::list_at(next, to)[i] == d);
                }
                if x == to && d == c {
                    assert(dict::list_at(next, to)[list.len() as int] == c);
                }
            },
            GivenV::Formal(_) => {},
        }
    }
}

proof fn lemma_missing(
    ps: Seq<PassV>,
    t: TypesV,
    to: Seq<char>,
    c: Seq<char>,
    k: int,
    q: int,
    p: int,
)
    requires
        0 <= k,
    ensures
        missing(ps, dict::put_more(t, to, c), k) <= missing(ps, t, k),
        k <= q < ps.len() && ps[q].to == to && 0 <= p < ps.len() && ps[p].given == GivenV::Class(c)
            && !dict::list_at(t, to).contains(c) ==> missing(ps, dict::put_more(t, to, c), k)
            < missing(ps, t, k),
    decreases ps.len() - k,
{
    if k < ps.len() {
        lemma_missing(ps, t, to, c, k + 1, q, p);
        lemma_lacking(ps, t, to, c, ps[k].to, 0, p);
    }
}

/// What arrives somewhere is passed somewhere.
proof fn lemma_passed(ps: Seq<PassV>, c: Seq<char>, f: Seq<char>) -> (p: int)
    requires
        arrives(ps, c, f),
    ensures
        0 <= p < ps.len(),
        ps[p].given == GivenV::Class(c),
{
    let chain = choose|chain: Seq<int>| brings(ps, chain, c, f);
    assert(0 <= chain[0] < ps.len());
    chain[0]
}

proof fn lemma_classes_fill(
    ps: Seq<PassV>,
    t: TypesV,
    q: int,
    cs: Seq<Seq<char>>,
    i: int,
    grew: bool,
)
    requires
        0 <= i,
        0 <= q < ps.len(),
        forall|j: int| i <= j < cs.len() ==> arrives(ps, #[trigger] cs[j], ps[q].to),
    ensures
        ({
            let r = with_classes(t, ps[q].to, cs, i, grew);
            &&& missing(ps, r.0, 0) <= missing(ps, t, 0)
            &&& r.1 && !grew ==> missing(ps, r.0, 0) < missing(ps, t, 0)
        }),
    decreases cs.len() - i,
{
    let to = ps[q].to;
    if i < cs.len() {
        if dict::list_at(t, to).contains(cs[i]) {
            lemma_classes_fill(ps, t, q, cs, i + 1, grew);
        } else {
            assert(arrives(ps, cs[i], to));
            let p = lemma_passed(ps, cs[i], to);
            lemma_missing(ps, t, to, cs[i], 0, q, p);
            lemma_classes_fill(ps, dict::put_more(t, to, cs[i]), q, cs, i + 1, true);
        }
    }
}

/// A round that adds something leaves less to add.
proof fn lemma_round_fills(ps: Seq<PassV>, k: int, t: TypesV, grew: bool)
    requires
        0 <= k,
        grounded(ps, t),
    ensures
        ({
            let r = round(ps, k, t, grew);
            &&& missing(ps, r.0, 0) <= missing(ps, t, 0)
            &&& r.1 && !grew ==> missing(ps, r.0, 0) < missing(ps, t, 0)
        }),
    decreases ps.len() - k,
{
    if k < ps.len() {
        let all = gives(t, ps[k].given);
        assert forall|j: int| 0 <= j < all.len() implies arrives(
            ps,
            #[trigger] all[j],
            ps[k].to,
        ) by {
            assert(all.contains(all[j]));
            lemma_arrival(ps, t, k, all[j]);
        }
        lemma_classes_fill(ps, t, k, all, 0, grew);
        lemma_with_classes(ps, t, ps[k].to, all, 0, grew);
        let (more, g) = with_classes(t, ps[k].to, all, 0, grew);
        lemma_round_fills(ps, k + 1, more, g);
    }
}

/// A round that adds nothing leaves what was known.
proof fn lemma_round_still(ps: Seq<PassV>, k: int, t: TypesV)
    requires
        0 <= k,
        !round(ps, k, t, false).1,
    ensures
        round(ps, k, t, false).0 == t,
    decreases ps.len() - k,
{
    if k < ps.len() {
        let all = gives(t, ps[k].given);
        let (more, g) = with_classes(t, ps[k].to, all, 0, false);
        if g {
            lemma_round_grew(ps, k + 1, more);
        }
        lemma_classes_quiet(t, ps[k].to, all, 0, false);
        lemma_round_still(ps, k + 1, t);
    }
}

/// After enough rounds a further one adds nothing.
proof fn lemma_rest(ps: Seq<PassV>, t: TypesV, fuel: nat)
    requires
        grounded(ps, t),
        missing(ps, t, 0) < fuel,
    ensures
        !round(ps, 0, settled(ps, t, fuel), false).1,
    decreases fuel,
{
    let (more, grew) = round(ps, 0, t, false);
    lemma_round(ps, 0, t, false);
    lemma_round_fills(ps, 0, t, false);
    if grew {
        lemma_rest(ps, more, (fuel - 1) as nat);
    } else {
        lemma_round_still(ps, 0, t);
    }
}

} // verus!

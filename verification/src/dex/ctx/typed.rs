//! What is known of the classes of values, where it is known, and what calls pass on.

use crate::dex::ctx::answers;
use crate::dex::ctx::assemble;
use crate::dex::ctx::link;
use crate::dex::ctx::scan::NamedCallV;
use crate::dex::ctx::types;
use crate::dex::ctx::types::{GivenV, KindV, KnownV, PassV, TypedCallV, TypesV};
use crate::dex::flow;
use crate::dex::model::{ClassV, InsnV, InvokeKind, MethodV, OpV};
use crate::dict;
use crate::text;
use vstd::prelude::*;

verus! {

/// The instruction may go on at that offset other than to the next.
pub open spec fn goes_to(op: OpV, o: u32) -> bool {
    ||| op == OpV::Goto(o)
    ||| op == OpV::Branch(o)
    ||| (op is BranchZero && op->BranchZero_target == o)
    ||| (op is BranchNonzero && op->BranchNonzero_target == o)
    ||| (op is Switch && op->Switch_0.contains(o))
}

proof fn lemma_numbers(acc: Set<u32>, ns: Seq<u32>, k: int, o: u32)
    requires
        0 <= k,
    ensures
        types::with_numbers(acc, ns, k).contains(o) <==> acc.contains(o) || exists|i: int|
            k <= i < ns.len() && #[trigger] ns[i] == o,
    decreases ns.len() - k,
{
    if k < ns.len() {
        lemma_numbers(acc.insert(ns[k]), ns, k + 1, o);
    }
}

proof fn lemma_jumps(op: OpV, o: u32)
    ensures
        types::jumps(op).contains(o) <==> goes_to(op, o),
{
    match op {
        OpV::Goto(t) => {
            assert(seq![t][0] == t);
        },
        OpV::Branch(t) => {
            assert(seq![t][0] == t);
        },
        OpV::BranchZero { reg, target } => {
            assert(seq![target][0] == target);
        },
        OpV::BranchNonzero { reg, target } => {
            assert(seq![target][0] == target);
        },
        _ => {},
    }
}

proof fn lemma_jumps_from(insns: Seq<InsnV>, k: int, acc: Set<u32>, o: u32)
    requires
        0 <= k,
    ensures
        types::jumps_from(insns, k, acc).contains(o) <==> acc.contains(o) || exists|i: int|
            k <= i < insns.len() && goes_to((#[trigger] insns[i]).op, o),
    decreases insns.len() - k,
{
    if k < insns.len() {
        let js = types::jumps(insns[k].op);
        lemma_numbers(acc, js, 0, o);
        lemma_jumps(insns[k].op, o);
        assert(js.contains(o) <==> exists|i: int| 0 <= i < js.len() && #[trigger] js[i] == o);
        lemma_jumps_from(insns, k + 1, types::with_numbers(acc, js, 0), o);
    }
}

proof fn lemma_handlers(catches: Seq<(u32, u32, u32)>, k: int, acc: Set<u32>, o: u32)
    requires
        0 <= k,
    ensures
        types::handlers_from(catches, k, acc).contains(o) <==> acc.contains(o) || exists|i: int|
            k <= i < catches.len() && (#[trigger] catches[i]).2 == o,
    decreases catches.len() - k,
{
    if k < catches.len() {
        lemma_handlers(catches, k + 1, acc.insert(catches[k].2), o);
    }
}

/// What was known of the registers is forgotten exactly where a jump or a handler may lead.
pub proof fn law_entries_are_jumps_and_handlers(m: MethodV, o: u32)
    ensures
        types::entries(m).contains(o) <==> {
            ||| exists|i: int| 0 <= i < m.insns.len() && goes_to((#[trigger] m.insns[i]).op, o)
            ||| exists|i: int| 0 <= i < m.catches.len() && (#[trigger] m.catches[i]).2 == o
        },
{
    lemma_jumps_from(m.insns, 0, Set::empty(), o);
    lemma_handlers(m.catches, 0, types::jumps_from(m.insns, 0, Set::empty()), o);
}

/// The instruction puts a value into the register.
pub open spec fn puts(insn: InsnV, r: u32) -> bool {
    ||| (insn.op is Move && insn.op->Move_dst == r)
    ||| (insn.op is MoveResult && insn.op->MoveResult_dst == r)
    ||| (insn.op is ConstClass && insn.op->ConstClass_dst == r)
    ||| (insn.op is NewInstance && insn.op->NewInstance_dst == r)
    ||| (insn.op is Iget && insn.op->Iget_dst == r)
    ||| (insn.op is Sget && insn.op->Sget_dst == r)
    ||| insn.op == OpV::Def(r)
    ||| (insn.op == OpV::Other && insn.writes == Some(r))
}

proof fn lemma_known(ks: KnownV, r: u32, k: KindV, x: u32)
    ensures
        types::known(ks.push((r, k)), x) == if x == r {
            k
        } else {
            types::known(ks, x)
        },
{
    assert(ks.push((r, k)).drop_last() =~= ks);
}

/// Behind an instruction: a new object is of its class, a value read from a field of the
/// field's type, a moved one of the class it was before; nothing is known of any other value
/// put into a register; and what is known of the other registers stays.
pub proof fn law_classes_are_known_behind(ks: KnownV, insn: InsnV, r: u32)
    ensures
        ({
            let now = types::known(types::behind(ks, insn), r);
            &&& !puts(insn, r) ==> now == types::known(ks, r)
            &&& puts(insn, r) ==> now == match insn.op {
                OpV::NewInstance { dst, class } => KindV::Class(class),
                OpV::Move { dst, src } => types::known(ks, src),
                OpV::Iget { dst, base, class, field, ty } => if ty is Some {
                    KindV::Class(ty->0)
                } else {
                    KindV::Unknown
                },
                _ => KindV::Unknown,
            }
        }),
{
    match insn.op {
        OpV::NewInstance { dst, class } => {
            lemma_known(ks, dst, KindV::Class(class), r);
        },
        OpV::Iget { dst, base, class, field, ty } => {
            lemma_known(
                ks,
                dst,
                match ty {
                    Some(t) => KindV::Class(t),
                    None => KindV::Unknown,
                },
                r,
            );
        },
        OpV::Move { dst, src } => {
            lemma_known(ks, dst, types::known(ks, src), r);
        },
        _ => match types::defines(insn) {
            Some(dst) => {
                lemma_known(ks, dst, KindV::Unknown, r);
            },
            None => {},
        },
    }
}

proof fn lemma_defined(insns: Seq<InsnV>, k: int, acc: Set<u32>, r: u32)
    requires
        0 <= k,
    ensures
        types::defined_from(insns, k, acc).contains(r) <==> acc.contains(r) || exists|i: int|
            k <= i < insns.len() && puts(#[trigger] insns[i], r),
    decreases insns.len() - k,
{
    if k < insns.len() {
        assert(puts(insns[k], r) <==> types::defines(insns[k]) == Some(r));
        lemma_defined(
            insns,
            k + 1,
            match types::defines(insns[k]) {
                Some(x) => acc.insert(x),
                None => acc,
            },
            r,
        );
    }
}

proof fn lemma_params(m: MethodV, defined: Set<u32>, j: int, acc: KnownV, r: u32)
    requires
        0 <= j <= m.ins,
        m.ins <= m.registers,
    ensures
        types::known(types::params_from(m, defined, j, acc), r) == {
            let i = r - m.first_param();
            if j <= i < m.ins && !defined.contains(r) {
                if i == 0 && m.this_reg() is Some {
                    KindV::Class(m.class)
                } else {
                    KindV::Formal(i as u32)
                }
            } else {
                types::known(acc, r)
            }
        },
    decreases m.ins - j,
{
    if j < m.ins {
        let x = (m.first_param() + j) as u32;
        assert(x == m.first_param() + j);
        let k = if j == 0 && m.this_reg() is Some {
            KindV::Class(m.class)
        } else {
            KindV::Formal(j as u32)
        };
        if defined.contains(x) {
            lemma_params(m, defined, j + 1, acc, r);
        } else {
            lemma_params(m, defined, j + 1, acc.push((x, k)), r);
            lemma_known(acc, x, k, r);
        }
    }
}

/// What is known everywhere in a method is known of its parameters that no instruction
/// replaces: the receiver is of the method's class, and every other is the formal of its
/// number, counted from the first parameter register.
pub proof fn law_untouched_parameters_are_always_known(m: MethodV, r: u32)
    requires
        m.ins <= m.registers,
    ensures
        ({
            let j = r - (m.registers - m.ins);
            let kept = 0 <= j < m.ins && forall|i: int|
                0 <= i < m.insns.len() ==> !puts(#[trigger] m.insns[i], r);
            &&& kept && j == 0 && !m.is_static() ==> types::known(types::always(m), r)
                == KindV::Class(m.class)
            &&& kept && (j > 0 || m.is_static()) ==> types::known(types::always(m), r)
                == KindV::Formal(j as u32)
            &&& !kept ==> types::known(types::always(m), r) == KindV::Unknown
        }),
{
    let defined = types::defined_from(m.insns, 0, Set::empty());
    lemma_defined(m.insns, 0, Set::empty(), r);
    lemma_params(m, defined, 0, Seq::empty(), r);
}

proof fn lemma_kinds(ks: KnownV, args: Seq<u32>, k: int, acc: Seq<KindV>)
    requires
        0 <= k <= args.len(),
        acc == args.take(k).map_values(|a: u32| types::known(ks, a)),
    ensures
        types::kinds_from(ks, args, k, acc) == args.map_values(|a: u32| types::known(ks, a)),
    decreases args.len() - k,
{
    if k < args.len() {
        let next = acc.push(types::known(ks, args[k]));
        assert(next =~= args.take(k + 1).map_values(|a: u32| types::known(ks, a)));
        lemma_kinds(ks, args, k + 1, next);
    } else {
        assert(args.take(k) =~= args);
    }
}

/// Every call of a method is there, with where it stands and what is known of each of its
/// arguments: what the instruction before leaves, or, where a jump may lead, what is known
/// everywhere.
pub proof fn law_calls_are_typed_where_they_stand(
    m: MethodV,
    entries: Set<u32>,
    always: KnownV,
    k: int,
    ks: KnownV,
    acc: Seq<TypedCallV>,
)
    requires
        0 <= k < m.insns.len(),
    ensures
        ({
            let i = m.insns[k];
            let here = if entries.contains(i.offset) {
                always
            } else {
                ks
            };
            let next = types::behind(here, i);
            &&& i.op matches OpV::Invoke(inv) ==> types::calls_from(m, entries, always, k, ks, acc)
                == types::calls_from(
                m,
                entries,
                always,
                k + 1,
                next,
                acc.push(
                    TypedCallV {
                        at: i.offset,
                        inv,
                        kinds: inv.args.map_values(|a: u32| types::known(here, a)),
                    },
                ),
            )
            &&& !(i.op is Invoke) ==> types::calls_from(m, entries, always, k, ks, acc)
                == types::calls_from(m, entries, always, k + 1, next, acc)
        }),
        types::calls_from(m, entries, always, m.insns.len() as int, ks, acc) == acc,
{
    let i = m.insns[k];
    let here = if entries.contains(i.offset) {
        always
    } else {
        ks
    };
    if let OpV::Invoke(inv) = i.op {
        assert(inv.args.take(0).map_values(|a: u32| types::known(here, a)) =~= Seq::empty());
        lemma_kinds(here, inv.args, 0, Seq::empty());
    }
}

/// The receiver of a call is its first argument; of two calls at one offset the first counts.
pub proof fn law_receivers_are_first_arguments(cs: Seq<TypedCallV>, at: u32, i: int, k: int)
    requires
        0 <= k <= i < cs.len(),
        cs[i].at == at,
        forall|j: int| k <= j < i ==> (#[trigger] cs[j]).at != at,
    ensures
        cs[i].kinds.len() > 0 ==> types::receiver_at(cs, at, k) == cs[i].kinds[0],
        cs[i].kinds.len() == 0 ==> types::receiver_at(cs, at, k) == KindV::Unknown,
    decreases i - k,
{
    if k < i {
        assert(cs[k].at != at);
        law_receivers_are_first_arguments(cs, at, i, k + 1);
    }
}

/// Method `k` passes that to the `a`th argument of `t`.
pub open spec fn arg_gives(k: usize, t: usize, kind: KindV, a: int, p: PassV) -> bool {
    &&& p.to == text::dec(t as nat) + ":"@ + text::dec(a as nat)
    &&& match kind {
        KindV::Unknown => false,
        KindV::Class(c) => p.given == GivenV::Class(c),
        KindV::Formal(j) => p.given == GivenV::Formal(
            text::dec(k as nat) + ":"@ + text::dec(j as nat),
        ),
    }
}

/// Method `k` passes that to `t`, in one of the arguments.
pub open spec fn target_gives(k: usize, t: usize, kinds: Seq<KindV>, p: PassV) -> bool {
    exists|a: int| 0 <= a < kinds.len() && arg_gives(k, t, #[trigger] kinds[a], a, p)
}

/// Method `k` passes that to one of the methods that a call may reach.
pub open spec fn call_gives(
    ms: Seq<MethodV>,
    cs: Seq<ClassV>,
    cap: usize,
    k: usize,
    c: TypedCallV,
    p: PassV,
) -> bool {
    exists|t: usize| #[trigger]
        link::targets(
            ms,
            cs,
            cap,
            c.inv.class,
            c.inv.name + ":"@ + c.inv.sig,
            c.inv.kind,
        ).contains(t) && target_gives(k, t, c.kinds, p)
}

/// Method `k` passes that in one of its calls.
pub open spec fn method_gives(
    ms: Seq<MethodV>,
    cs: Seq<ClassV>,
    cap: usize,
    k: usize,
    p: PassV,
) -> bool {
    exists|i: int|
        0 <= i < types::typed_calls(ms[k as int]).len() && call_gives(
            ms,
            cs,
            cap,
            k,
            #[trigger] types::typed_calls(ms[k as int])[i],
            p,
        )
}

proof fn lemma_args(k: usize, t: usize, kinds: Seq<KindV>, a: int, acc: Seq<PassV>, p: PassV)
    requires
        0 <= a,
    ensures
        types::args_passed(k, t, kinds, a, acc).contains(p) <==> acc.contains(p) || exists|i: int|
            a <= i < kinds.len() && arg_gives(k, t, #[trigger] kinds[i], i, p),
    decreases kinds.len() - a,
{
    if a < kinds.len() {
        match kinds[a] {
            KindV::Unknown => {
                lemma_args(k, t, kinds, a + 1, acc, p);
            },
            KindV::Class(c) => {
                let x = PassV { to: types::formal(t, a as nat), given: GivenV::Class(c) };
                lemma_args(k, t, kinds, a + 1, acc.push(x), p);
                answers::lemma_pushed(acc, x, p);
                assert(p == x <==> arg_gives(k, t, kinds[a], a, p));
            },
            KindV::Formal(j) => {
                let x = PassV {
                    to: types::formal(t, a as nat),
                    given: GivenV::Formal(types::formal(k, j as nat)),
                };
                lemma_args(k, t, kinds, a + 1, acc.push(x), p);
                answers::lemma_pushed(acc, x, p);
                assert(p == x <==> arg_gives(k, t, kinds[a], a, p));
            },
        }
    }
}

proof fn lemma_targets(
    k: usize,
    ts: Seq<usize>,
    kinds: Seq<KindV>,
    i: int,
    acc: Seq<PassV>,
    p: PassV,
)
    requires
        0 <= i,
    ensures
        types::targets_passed(k, ts, kinds, i, acc).contains(p) <==> acc.contains(p) || exists|j: int|
            i <= j < ts.len() && target_gives(k, #[trigger] ts[j], kinds, p),
    decreases ts.len() - i,
{
    if i < ts.len() {
        lemma_args(k, ts[i], kinds, 0, acc, p);
        lemma_targets(k, ts, kinds, i + 1, types::args_passed(k, ts[i], kinds, 0, acc), p);
    }
}

proof fn lemma_calls(
    ms: Seq<MethodV>,
    cs: Seq<ClassV>,
    cap: usize,
    k: usize,
    calls: Seq<TypedCallV>,
    i: int,
    acc: Seq<PassV>,
    p: PassV,
)
    requires
        0 <= i,
    ensures
        types::calls_passed(ms, cs, cap, k, calls, i, acc).contains(p) <==> acc.contains(p) || exists|
            j: int,
        |
            i <= j < calls.len() && call_gives(ms, cs, cap, k, #[trigger] calls[j], p),
    decreases calls.len() - i,
{
    if i < calls.len() {
        let c = calls[i];
        let ts = link::targets(
            ms,
            cs,
            cap,
            c.inv.class,
            flow::declared(c.inv.name, c.inv.sig),
            c.inv.kind,
        );
        lemma_targets(k, ts, c.kinds, 0, acc, p);
        if call_gives(ms, cs, cap, k, c, p) {
            let t = choose|t: usize| #[trigger] ts.contains(t) && target_gives(k, t, c.kinds, p);
            let j = choose|j: int| 0 <= j < ts.len() && ts[j] == t;
            assert(target_gives(k, ts[j], c.kinds, p));
        }
        if exists|j: int| 0 <= j < ts.len() && target_gives(k, #[trigger] ts[j], c.kinds, p) {
            let j = choose|j: int| 0 <= j < ts.len() && target_gives(k, #[trigger] ts[j], c.kinds, p);
            assert(ts.contains(ts[j]));
        }
        lemma_calls(
            ms,
            cs,
            cap,
            k,
            calls,
            i + 1,
            types::targets_passed(k, ts, c.kinds, 0, acc),
            p,
        );
    }
}

proof fn lemma_passed(
    ms: Seq<MethodV>,
    cs: Seq<ClassV>,
    cap: usize,
    k: int,
    acc: Seq<PassV>,
    p: PassV,
)
    requires
        0 <= k,
        ms.len() <= usize::MAX,
    ensures
        types::passed_from(ms, cs, cap, k, acc).contains(p) <==> acc.contains(p) || exists|i: usize|
            k <= i < ms.len() && #[trigger] method_gives(ms, cs, cap, i, p),
    decreases ms.len() - k,
{
    if k < ms.len() {
        let calls = types::typed_calls(ms[k]);
        lemma_calls(ms, cs, cap, k as usize, calls, 0, acc, p);
        let next = types::calls_passed(ms, cs, cap, k as usize, calls, 0, acc);
        lemma_passed(ms, cs, cap, k + 1, next, p);
        assert(method_gives(ms, cs, cap, k as usize, p) <==> exists|j: int|
            0 <= j < calls.len() && call_gives(ms, cs, cap, k as usize, #[trigger] calls[j], p));
    }
}

/// What is passed to formals is exactly this: of every call of every method, to every method it
/// may reach, for every argument of which something is known, that to the formal of its
/// number.
pub proof fn law_passes_are_the_known_arguments(ms: Seq<MethodV>, cs: Seq<ClassV>, cap: usize, p: PassV)
    requires
        ms.len() <= usize::MAX,
    ensures
        types::passed_from(ms, cs, cap, 0, Seq::empty()).contains(p) <==> exists|k: usize|
            k < ms.len() && #[trigger] method_gives(ms, cs, cap, k, p),
{
    lemma_passed(ms, cs, cap, 0, Seq::empty(), p);
}

/// The class has the method or inherits it, and it has a body.
pub open spec fn runs(
    ms: Seq<MethodV>,
    cs: Seq<ClassV>,
    class: Seq<char>,
    decl: Seq<char>,
    t: usize,
) -> bool {
    link::targets(ms, cs, 0, class, decl, InvokeKind::Static) == seq![t] && ms[t as int].insns.len() > 0
}

proof fn lemma_own(
    ms: Seq<MethodV>,
    cs: Seq<ClassV>,
    classes: Seq<Seq<char>>,
    decl: Seq<char>,
    k: int,
    acc: Seq<usize>,
    t: usize,
)
    requires
        0 <= k,
    ensures
        link::class_methods(ms, cs, classes, decl, k, acc).contains(t) <==> acc.contains(t) || exists|
            i: int,
        |
            k <= i < classes.len() && runs(ms, cs, #[trigger] classes[i], decl, t),
    decreases classes.len() - k,
{
    if k < classes.len() {
        let ids = crate::dex::acquire::last_of(ms, 0, crate::dict::DictV::none());
        let r = link::static_target(cs, ids, classes[k], decl);
        let one = link::targets(ms, cs, 0, classes[k], decl, InvokeKind::Static);
        match r {
            Some(x) => {
                assert(one == seq![x]);
                assert(one[0] == x);
                assert(runs(ms, cs, classes[k], decl, t) <==> t == x && ms[x as int].insns.len() > 0) by {
                    if one == seq![t] {
                        assert(seq![t][0] == t);
                    }
                }
                answers::lemma_pushed(acc, x, t);
                if ms[x as int].insns.len() > 0 && !acc.contains(x) {
                    lemma_own(ms, cs, classes, decl, k + 1, acc.push(x), t);
                } else {
                    lemma_own(ms, cs, classes, decl, k + 1, acc, t);
                }
            },
            None => {
                assert(one.len() == 0);
                assert(seq![t].len() == 1);
                lemma_own(ms, cs, classes, decl, k + 1, acc, t);
            },
        }
    }
}

/// A dispatched call on an object of a known class reaches exactly the method that the class
/// has or inherits, where that has a body; one on a formal exactly those of the classes that
/// are passed in. Where there is none, and for every other call, the declared class decides.
pub proof fn law_known_receivers_decide_the_target(
    ms: Seq<MethodV>,
    cs: Seq<ClassV>,
    cap: usize,
    class: Seq<char>,
    decl: Seq<char>,
    kind: InvokeKind,
    recv: KindV,
    passed: Seq<Seq<char>>,
    t: usize,
)
    ensures
        ({
            let r = link::refined(ms, cs, cap, class, decl, kind, recv, passed);
            let wide = link::targets(ms, cs, cap, class, decl, kind);
            let dispatched = kind == InvokeKind::Virtual || kind == InvokeKind::Interface;
            &&& !dispatched ==> r == wide
            &&& recv is Unknown ==> r == wide
            &&& recv matches KindV::Class(c) ==> {
                &&& dispatched && runs(ms, cs, c, decl, t) ==> r == seq![t]
                &&& (forall|x: usize| !#[trigger] runs(ms, cs, c, decl, x)) ==> r == wide
            }
            &&& recv is Formal && dispatched && (exists|i: int, x: usize|
                0 <= i < passed.len() && #[trigger] runs(ms, cs, passed[i], decl, x)) ==> (r.contains(t)
                <==> exists|i: int| 0 <= i < passed.len() && runs(ms, cs, #[trigger] passed[i], decl, t))
            &&& recv is Formal && (forall|i: int, x: usize|
                0 <= i < passed.len() ==> !#[trigger] runs(ms, cs, passed[i], decl, x)) ==> r == wide
        }),
{
    match recv {
        KindV::Unknown => {},
        KindV::Class(c) => {
            let own = link::class_methods(ms, cs, seq![c], decl, 0, Seq::empty());
            lemma_own(ms, cs, seq![c], decl, 0, Seq::empty(), t);
            assert(seq![c][0] == c);
            reveal_with_fuel(link::class_methods, 2);
            if runs(ms, cs, c, decl, t) {
                assert(own.contains(t));
                assert(own.len() <= 1);
                assert(own =~= seq![t]);
            }
            if own.len() > 0 {
                lemma_own(ms, cs, seq![c], decl, 0, Seq::empty(), own[0]);
                assert(own.contains(own[0]));
            }
        },
        KindV::Formal(_) => {
            let own = link::class_methods(ms, cs, passed, decl, 0, Seq::empty());
            lemma_own(ms, cs, passed, decl, 0, Seq::empty(), t);
            if own.len() > 0 {
                lemma_own(ms, cs, passed, decl, 0, Seq::empty(), own[0]);
                assert(own.contains(own[0]));
                let i = choose|i: int| 0 <= i < passed.len() && runs(ms, cs, #[trigger] passed[i], decl, own[0]);
                assert(runs(ms, cs, passed[i], decl, own[0]));
            }
            if exists|i: int, x: usize|
                0 <= i < passed.len() && #[trigger] runs(ms, cs, passed[i], decl, x) {
                let (i, x) = choose|i: int, x: usize|
                    0 <= i < passed.len() && #[trigger] runs(ms, cs, passed[i], decl, x);
                lemma_own(ms, cs, passed, decl, 0, Seq::empty(), x);
                assert(own.contains(x));
            }
        },
    }
}

/// What a call reaches is decided by what is known of its receiver where it stands: by its
/// class, or, where it is a formal of the caller, by the classes that are passed in for that
/// formal.
pub proof fn law_calls_reach_by_their_receiver(
    ms: Seq<MethodV>,
    cs: Seq<ClassV>,
    cap: usize,
    types: TypesV,
    caller: usize,
    c: NamedCallV,
    i: int,
)
    requires
        0 <= i < types::typed_calls(ms[caller as int]).len(),
        types::typed_calls(ms[caller as int])[i].at == c.at,
        types::typed_calls(ms[caller as int])[i].kinds.len() > 0,
        forall|j: int|
            0 <= j < i ==> (#[trigger] types::typed_calls(ms[caller as int])[j]).at != c.at,
    ensures
        ({
            let recv = types::typed_calls(ms[caller as int])[i].kinds[0];
            let passed = match recv {
                KindV::Formal(j) => dict::list_at(
                    types,
                    text::dec(caller as nat) + ":"@ + text::dec(j as nat),
                ),
                _ => Seq::empty(),
            };
            assemble::reached(ms, cs, cap, types, caller, c) == link::refined(
                ms,
                cs,
                cap,
                c.class,
                c.name + ":"@ + c.sig,
                c.kind,
                recv,
                passed,
            )
        }),
{
    law_receivers_are_first_arguments(types::typed_calls(ms[caller as int]), c.at, i, 0);
}

} // verus!

//! What each instruction does to the locks held, to the registers and to what is reported.

use crate::dex::ctx::answers;
use crate::dex::flow;
use crate::dex::flow::{EffectsV, EventV, StateV};
use crate::dex::juc;
use crate::dex::juc::LockCall;
use crate::dex::model::{InsnV, InvokeV, LockV, MethodV, Mode, OpV, RootV};
use crate::dex::regs;
use crate::text;
use vstd::prelude::*;

verus! {


/// The last lock of that name stands there, and none behind it has the name.
pub open spec fn is_last(held: Seq<LockV>, p: int, name: Seq<char>) -> bool {
    &&& 0 <= p < held.len()
    &&& held[p].name() == name
    &&& forall|i: int| p < i < held.len() ==> (#[trigger] held[i]).name() != name
}

/// A lock of that name is held.
pub open spec fn holds(held: Seq<LockV>, name: Seq<char>) -> bool {
    exists|i: int| 0 <= i < held.len() && (#[trigger] held[i]).name() == name
}

proof fn lemma_last_named(held: Seq<LockV>, k: int, name: Seq<char>)
    requires
        0 <= k <= held.len(),
    ensures
        match flow::last_named(held, k, name) {
            Some(p) => 0 <= p < k && held[p].name() == name && forall|i: int|
                p < i < k ==> (#[trigger] held[i]).name() != name,
            None => forall|i: int| 0 <= i < k ==> (#[trigger] held[i]).name() != name,
        },
    decreases k,
{
    if k > 0 && held[k - 1].name() != name {
        lemma_last_named(held, k - 1, name);
    }
}

/// A `monitor-enter` takes the lock that its register holds, as it is outside the method:
/// it is held from then on, on top of what was, and reported with what was held before. Where
/// nothing is known of the register, nothing is taken.
pub proof fn law_monitor_enter_takes_its_lock(m: MethodV, fx: EffectsV, st: StateV, insn: InsnV, r: u32)
    requires
        insn.op == OpV::MonitorEnter(r),
    ensures
        ({
            let (out, e) = flow::step(m, fx, st, insn);
            if st.regs.contains_key(r) {
                let g = st.regs[r].ground(m.class, m.key());
                &&& out.held == st.held.push(g)
                &&& out.regs == st.regs
                &&& e == Some(EventV::Acquire { lock: g, held: st.held, line: m.line_at(insn.offset) })
            } else {
                out.held == st.held && e is None
            }
        }),
{
}

/// A `monitor-exit` lets go the last lock that has the name of its register's, and only
/// that; where none has, or nothing is known of the register, the one taken last. What it
/// lets go is reported.
pub proof fn law_monitor_exit_lets_go(m: MethodV, fx: EffectsV, st: StateV, insn: InsnV, r: u32, p: int)
    requires
        insn.op == OpV::MonitorExit(r),
        ({
            let name = st.regs[r].ground(m.class, m.key()).name();
            if st.regs.contains_key(r) && holds(st.held, name) {
                is_last(st.held, p, name)
            } else {
                0 <= p == st.held.len() - 1
            }
        }),
    ensures
        ({
            let (out, e) = flow::step(m, fx, st, insn);
            &&& out.held == st.held.take(p) + st.held.skip(p + 1)
            &&& out.regs == st.regs
            &&& e == Some(EventV::Release { lock: st.held[p], line: m.line_at(insn.offset) })
        }),
{
    let name = st.regs[r].ground(m.class, m.key()).name();
    lemma_last_named(st.held, st.held.len() as int, name);
    assert(st.held.remove(p) =~= st.held.take(p) + st.held.skip(p + 1));
}

/// A `monitor-exit` gives back what a `monitor-enter` of the same register took.
pub proof fn law_exit_undoes_enter(
    m: MethodV,
    fx: EffectsV,
    st: StateV,
    enter: InsnV,
    exit: InsnV,
    r: u32,
)
    requires
        enter.op == OpV::MonitorEnter(r),
        exit.op == OpV::MonitorExit(r),
        st.regs.contains_key(r),
    ensures
        ({
            let inside = flow::step(m, fx, st, enter).0;
            &&& inside.held.len() == st.held.len() + 1
            &&& flow::step(m, fx, inside, exit).0.held == st.held
        }),
{
    let inside = flow::step(m, fx, st, enter).0;
    let g = st.regs[r].ground(m.class, m.key());
    lemma_last_named(inside.held, inside.held.len() as int, g.name());
    assert(inside.held.remove(st.held.len() as int) =~= st.held);
}

/// A call that acquires takes its receiver as a `monitor-enter` does, and a call that
/// releases gives back the last lock of its receiver's name, each of them reported and
/// neither counted as a call; a release of a lock that is not held leaves what is held.
pub proof fn law_lock_calls_take_and_release(
    m: MethodV,
    fx: EffectsV,
    st: StateV,
    insn: InsnV,
    inv: InvokeV,
    p: int,
)
    requires
        insn.op == OpV::Invoke(inv),
        inv.args.len() > 0,
        st.regs.contains_key(inv.args[0]),
    ensures
        ({
            let g = st.regs[inv.args[0]].ground(m.class, m.key());
            let line = m.line_at(insn.offset);
            let (out, e) = flow::step(m, fx, st, insn);
            &&& juc::meaning(inv.class, inv.name) == Some(LockCall::Acquire) ==> out.held
                == st.held.push(g) && e == Some(EventV::Acquire { lock: g, held: st.held, line })
            &&& juc::meaning(inv.class, inv.name) == Some(LockCall::TryAcquire) ==> out.held
                == st.held && e == Some(EventV::Acquire { lock: g, held: st.held, line })
            &&& juc::meaning(inv.class, inv.name) == Some(LockCall::Release) && is_last(
                st.held,
                p,
                g.name(),
            ) ==> out.held == st.held.take(p) + st.held.skip(p + 1) && e == Some(
                EventV::Release { lock: st.held[p], line },
            )
            &&& juc::meaning(inv.class, inv.name) == Some(LockCall::Release) && !holds(
                st.held,
                g.name(),
            ) ==> out.held == st.held && out.freed.contains(g.name()) && e is None
        }),
{
    let g = st.regs[inv.args[0]].ground(m.class, m.key());
    lemma_last_named(st.held, st.held.len() as int, g.name());
    if is_last(st.held, p, g.name()) {
        assert(st.held.remove(p) =~= st.held.take(p) + st.held.skip(p + 1));
    }
    crate::names::lemma_with(st.freed, g.name());
}

/// Any other call is reported with what is held at it. One of a method without a net effect
/// leaves what is held; one that leaves locks taken adds them; and the views of a lock give
/// the lock in their mode.
pub proof fn law_calls_are_reported(
    m: MethodV,
    fx: EffectsV,
    st: StateV,
    insn: InsnV,
    inv: InvokeV,
)
    requires
        insn.op == OpV::Invoke(inv),
    ensures
        ({
            let how = juc::meaning(inv.class, inv.name);
            let (out, e) = flow::step(m, fx, st, insn);
            let call = EventV::Call {
                inv,
                held: st.held,
                line: m.line_at(insn.offset),
                at: insn.offset,
            };
            &&& how is None || how == Some(LockCall::ReadView) || how == Some(LockCall::WriteView)
                ==> e == Some(call)
            &&& how is None && fx.get(inv.key()) is None ==> out.held == st.held && out.last_ret is None
            &&& (how is None && fx.get(inv.key()) is Some && fx.get(inv.key())->0.frees.len() == 0)
                ==> out.held == st.held + fx.get(inv.key())->0.takes
            &&& how == Some(LockCall::ReadView) && inv.args.len() > 0 && st.regs.contains_key(
                inv.args[0],
            ) ==> out.held == st.held && out.last_ret == Some(
                LockV { mode: Mode::Read, ..st.regs[inv.args[0]] },
            )
            &&& how == Some(LockCall::WriteView) && inv.args.len() > 0 && st.regs.contains_key(
                inv.args[0],
            ) ==> out.held == st.held && out.last_ret == Some(
                LockV { mode: Mode::Write, ..st.regs[inv.args[0]] },
            )
        }),
{
}

/// A call of a method that frees one of its caller's locks, and takes none, lets the last
/// one of that name go.
pub proof fn law_helpers_release_the_callers_lock(
    m: MethodV,
    fx: EffectsV,
    st: StateV,
    insn: InsnV,
    inv: InvokeV,
    name: Seq<char>,
    p: int,
)
    requires
        insn.op == OpV::Invoke(inv),
        juc::meaning(inv.class, inv.name) is None,
        fx.get(inv.key()) is Some,
        fx.get(inv.key())->0.takes.len() == 0,
        fx.get(inv.key())->0.frees == seq![name],
        is_last(st.held, p, name),
    ensures
        flow::step(m, fx, st, insn).0.held == st.held.take(p) + st.held.skip(p + 1),
{
    lemma_last_named(st.held, st.held.len() as int, name);
    assert(st.held.remove(p) =~= st.held.take(p) + st.held.skip(p + 1));
    let st0 = StateV { last_ret: None, last_try: None, ..st };
    reveal_with_fuel(flow::all_freed, 2);
    let e = fx.get(inv.key())->0;
    assert(st.held.remove(p) + e.takes =~= st.held.remove(p));
}

/// A field access is reported as a write exactly where it is one, with the class and the
/// field it names and with what is held, which it leaves as it is.
pub proof fn law_field_accesses_are_reported(m: MethodV, fx: EffectsV, st: StateV, insn: InsnV)
    ensures
        ({
            let line = m.line_at(insn.offset);
            let held = st.held;
            let (out, e) = flow::step(m, fx, st, insn);
            match insn.op {
                OpV::Iget { dst, base, class, field, ty } => out.held == held && e == Some(
                    EventV::Field { class, field, write: false, held, line },
                ),
                OpV::Sget { dst, class, field } => out.held == held && e == Some(
                    EventV::Field { class, field, write: false, held, line },
                ),
                OpV::Iput { src, base, class, field } => out.held == held && e == Some(
                    EventV::Field { class, field, write: true, held, line },
                ),
                OpV::Sput { src, class, field } => out.held == held && e == Some(
                    EventV::Field { class, field, write: true, held, line },
                ),
                OpV::MonitorEnter(_) => true,
                OpV::MonitorExit(_) => true,
                OpV::Invoke(_) => true,
                _ => out.held == held && e is None,
            }
        }),
{
}

/// What a register holds behind an instruction: what was read or moved into it where that can
/// be a lock, nothing where something else was written, and what it held before where it was
/// not written.
pub proof fn law_registers_hold_what_was_put_there(
    m: MethodV,
    fx: EffectsV,
    st: StateV,
    insn: InsnV,
    r: u32,
)
    ensures
        ({
            let was = if st.regs.contains_key(r) {
                Some(st.regs[r])
            } else {
                None
            };
            let regs = flow::step(m, fx, st, insn).0.regs;
            let now = if regs.contains_key(r) {
                Some(regs[r])
            } else {
                None
            };
            match insn.op {
                OpV::Iget { dst, base, class, field, ty } => now == if r == dst {
                    Some(LockV { root: RootV::Recv(class), fields: seq![field], mode: Mode::Plain })
                } else {
                    was
                },
                OpV::Sget { dst, class, field } => now == if r == dst {
                    Some(LockV { root: RootV::Static(class), fields: seq![field], mode: Mode::Plain })
                } else {
                    was
                },
                OpV::ConstClass { dst, class } => now == if r == dst {
                    Some(
                        LockV {
                            root: RootV::ClassConst(class),
                            fields: Seq::empty(),
                            mode: Mode::Plain,
                        },
                    )
                } else {
                    was
                },
                OpV::Move { dst, src } => now == if r != dst {
                    was
                } else if st.regs.contains_key(src) {
                    Some(st.regs[src])
                } else {
                    None
                },
                OpV::MoveResult { dst } => now == if r == dst {
                    st.last_ret
                } else {
                    was
                },
                OpV::NewInstance { dst, class } => now == if r == dst {
                    None
                } else {
                    was
                },
                OpV::Def(dst) => now == if r == dst {
                    None
                } else {
                    was
                },
                OpV::Other => now == if insn.writes == Some(r) {
                    None
                } else {
                    was
                },
                OpV::Invoke(_) => true,
                _ => now == was,
            }
        }),
{
}

/// On entry to an instance method the first parameter register holds the receiver and those
/// above it the formals, by their number; a static method's hold nothing that is known. What
/// its callers hold is held.
pub proof fn law_entry_holds_the_parameters(m: MethodV, entry: Seq<LockV>, j: int)
    requires
        m.ins <= m.registers,
        0 <= j < m.ins,
    ensures
        ({
            let st = flow::start(m, entry);
            let r = (m.registers - m.ins + j) as u32;
            &&& st.held == entry
            &&& m.access / 8 % 2 == 1 ==> !st.regs.contains_key(r)
            &&& m.access / 8 % 2 == 0 ==> st.regs.contains_key(r) && st.regs[r] == (LockV {
                root: if j == 0 {
                    RootV::This
                } else {
                    RootV::Param(j as u32)
                },
                fields: Seq::empty(),
                mode: Mode::Plain,
            })
        }),
{
}

proof fn lemma_events_from(
    m: MethodV,
    fx: EffectsV,
    sts: Seq<Option<StateV>>,
    k: int,
    acc: Seq<EventV>,
    e: EventV,
)
    requires
        0 <= k,
    ensures
        flow::events_from(m, fx, sts, k, acc).contains(e) <==> acc.contains(e) || exists|i: int|
            k <= i < m.insns.len() && sts[i] is Some && flow::step(
                m,
                fx,
                sts[i]->0,
                #[trigger] m.insns[i],
            ).1 == Some(e),
    decreases m.insns.len() - k,
{
    if k < m.insns.len() {
        let here = match sts[k] {
            Some(st) => flow::step(m, fx, st, m.insns[k]).1,
            None => None,
        };
        match here {
            Some(x) => {
                lemma_events_from(m, fx, sts, k + 1, acc.push(x), e);
                answers::lemma_pushed(acc, x, e);
            },
            None => {
                lemma_events_from(m, fx, sts, k + 1, acc, e);
            },
        }
        let insn = m.insns[k];
    }
}

/// The events of a method are exactly what happens at the instructions that are reached.
pub proof fn law_events_are_what_happens(m: MethodV, fx: EffectsV, entry: Seq<LockV>, e: EventV)
    ensures
        flow::events(m, fx, entry).contains(e) <==> exists|i: int|
            0 <= i < m.insns.len() && flow::states(m, fx, entry)[i] is Some && flow::step(
                m,
                fx,
                flow::states(m, fx, entry)[i]->0,
                #[trigger] m.insns[i],
            ).1 == Some(e),
{
    lemma_events_from(m, fx, flow::states(m, fx, entry), 0, Seq::empty(), e);
}

/// A branch leads to the first instruction that stands at its target, and nowhere where none
/// does.
pub proof fn law_targets_are_found_by_offset(insns: Seq<InsnV>, offset: u32, t: int)
    requires
        0 <= t < insns.len(),
        forall|i: int| 0 <= i < t ==> (#[trigger] insns[i]).offset != offset,
    ensures
        insns[t].offset == offset ==> flow::index_at(insns, offset, 0) == Some(t),
        (forall|i: int| 0 <= i < insns.len() ==> (#[trigger] insns[i]).offset != offset)
            ==> flow::index_at(insns, offset, 0) is None,
{
    lemma_index(insns, offset, 0);
}

proof fn lemma_index(insns: Seq<InsnV>, offset: u32, k: int)
    requires
        0 <= k,
    ensures
        match flow::index_at(insns, offset, k) {
            Some(t) => k <= t < insns.len() && insns[t].offset == offset && forall|i: int|
                k <= i < t ==> (#[trigger] insns[i]).offset != offset,
            None => forall|i: int| k <= i < insns.len() ==> (#[trigger] insns[i]).offset != offset,
        },
    decreases insns.len() - k,
{
    if k < insns.len() && insns[k].offset != offset {
        lemma_index(insns, offset, k + 1);
    }
}

/// How often a lock is held is how many of the locks have its name.
pub proof fn law_times_counts_names(held: Seq<LockV>, name: Seq<char>)
    ensures
        flow::times(held, name) == held.filter(|l: LockV| l.name() == name).len(),
    decreases held.len(),
{
    reveal(Seq::filter);
    if held.len() > 0 {
        law_times_counts_names(held.drop_last(), name);
    }
}

/// The name of a lock type without its package.
pub open spec fn is_lock_name(simple: Seq<char>) -> bool {
    ||| simple == "Lock"@
    ||| simple == "ReentrantLock"@
    ||| simple == "ReentrantReadWriteLock"@
    ||| simple == "ReadLock"@
    ||| simple == "WriteLock"@
}

/// The class is a lock type: `Lock`, `ReentrantLock`, `ReentrantReadWriteLock` or one of its
/// two views in any package, or anything of a package `locks`.
pub open spec fn is_lock_class(class: Seq<char>) -> bool {
    ||| is_lock_name(class)
    ||| exists|pkg: Seq<char>, simple: Seq<char>|
        class == #[trigger] (pkg + seq!['.'] + simple) && is_lock_name(simple)
    ||| exists|a: Seq<char>, b: Seq<char>| class == #[trigger] (a + "locks."@ + b)
}

proof fn lemma_lock_name(simple: Seq<char>)
    requires
        is_lock_name(simple),
    ensures
        !simple.contains('.'),
{
    reveal_strlit("Lock");
    reveal_strlit("ReentrantLock");
    reveal_strlit("ReentrantReadWriteLock");
    reveal_strlit("ReadLock");
    reveal_strlit("WriteLock");
    assert forall|i: int| 0 <= i < simple.len() implies simple[i] != '.' by {
        if simple == "Lock"@ {
        } else if simple == "ReentrantLock"@ {
        } else if simple == "ReentrantReadWriteLock"@ {
        } else if simple == "ReadLock"@ {
        } else {
        }
    }
}

/// Without a dot in it a text is its own tail, and else the tail is what follows the last.
pub proof fn lemma_tail_split(s: Seq<char>, c: char)
    ensures
        !text::tail_of(s, c).contains(c),
        text::tail_of(s, c) == s || exists|d: Seq<char>|
            s == #[trigger] (d + seq![c] + text::tail_of(s, c)),
    decreases s.len(),
{
    if s.len() > 0 {
        let front = s.drop_last();
        let x = s.last();
        lemma_tail_split(front, c);
        let t = text::tail_of(s, c);
        assert(s =~= front.push(x));
        if x == c {
            assert(t =~= Seq::empty());
            assert(s =~= front + seq![c] + t);
        } else {
            let u = text::tail_of(front, c);
            assert(t == u.push(x));
            assert(!t.contains(c)) by {
                if t.contains(c) {
                    let i = choose|i: int| 0 <= i < t.len() && t[i] == c;
                    assert(u[i] == c);
                }
            }
            if u != front {
                let d = choose|d: Seq<char>| front == #[trigger] (d + seq![c] + u);
                assert(s =~= d + seq![c] + t);
            }
        }
    }
}

proof fn lemma_lock_type(class: Seq<char>)
    ensures
        juc::lock_type(class) <==> is_lock_class(class),
{
    answers::lemma_occurs(class, "locks."@, Seq::empty(), Seq::empty());
    let t = text::tail_of(class, '.');
    if juc::lock_type(class) && !text::occurs(class, "locks."@) {
        lemma_tail_split(class, '.');
        assert(is_lock_name(t));
        if t != class {
            let d = choose|d: Seq<char>| class == #[trigger] (d + seq!['.'] + t);
            assert(class == d + seq!['.'] + t);
        }
    }
    if exists|a: Seq<char>, b: Seq<char>| class == #[trigger] (a + "locks."@ + b) {
        let (a, b) = choose|a: Seq<char>, b: Seq<char>| class == #[trigger] (a + "locks."@ + b);
        answers::lemma_occurs(class, "locks."@, a, b);
    } else if is_lock_name(class) {
        lemma_lock_name(class);
        answers::lemma_tail(Seq::empty(), class, '.');
    } else if is_lock_class(class) {
        let (pkg, simple) = choose|pkg: Seq<char>, simple: Seq<char>|
            class == #[trigger] (pkg + seq!['.'] + simple) && is_lock_name(simple);
        lemma_lock_name(simple);
        answers::lemma_tail(pkg, simple, '.');
    }
}

/// What a call means for locks: the two views by their name alone, and of a lock type the
/// calls that take, try and release by theirs; nothing else means anything.
pub proof fn law_lock_calls_by_name(class: Seq<char>, name: Seq<char>)
    ensures
        ({
            let how = juc::meaning(class, name);
            let lock = is_lock_class(class);
            &&& how == Some(LockCall::ReadView) <==> name == "readLock"@
            &&& how == Some(LockCall::WriteView) <==> name == "writeLock"@
            &&& how == Some(LockCall::Acquire) <==> lock && (name == "lock"@ || name
                == "lockInterruptibly"@ || name == "acquire"@ || name == "acquireUninterruptibly"@)
            &&& how == Some(LockCall::TryAcquire) <==> lock && (name == "tryLock"@ || name
                == "tryAcquire"@)
            &&& how == Some(LockCall::Release) <==> lock && (name == "unlock"@ || name
                == "release"@)
        }),
{
    lemma_lock_type(class);
    reveal_strlit("readLock");
    reveal_strlit("writeLock");
    reveal_strlit("lock");
    reveal_strlit("lockInterruptibly");
    reveal_strlit("acquire");
    reveal_strlit("acquireUninterruptibly");
    reveal_strlit("tryLock");
    reveal_strlit("tryAcquire");
    reveal_strlit("unlock");
    reveal_strlit("release");
    assert("acquire"@[0] == 'a' && "tryLock"@[0] == 't' && "release"@[0] == 'r');
    assert("readLock"@.len() == 8 && "writeLock"@.len() == 9 && "lock"@.len() == 4);
    assert("lockInterruptibly"@.len() == 17 && "acquireUninterruptibly"@.len() == 22);
    assert("acquire"@.len() == 7 && "tryLock"@.len() == 7 && "release"@.len() == 7);
    assert("tryAcquire"@.len() == 10 && "unlock"@.len() == 6);
}

/// How a lock is written: the class of an instance or a static field and the hops to the
/// lock, each behind a dot, with `.class` behind a class object, and `.read` or `.write`
/// behind a view.
pub proof fn law_locks_are_written_by_owner_and_path(c: Seq<char>, f: Seq<char>, l: LockV)
    ensures
        (LockV { root: RootV::Recv(c), fields: seq![f], mode: Mode::Plain }).name() == c + "."@ + f,
        (LockV { root: RootV::Static(c), fields: seq![f], mode: Mode::Plain }).name() == c + "."@
            + f,
        (LockV { root: RootV::ClassConst(c), fields: Seq::empty(), mode: Mode::Plain }).name() == c
            + ".class"@,
        (LockV { root: RootV::Recv(c), fields: Seq::empty(), mode: Mode::Plain }).name() == c,
        (LockV { mode: Mode::Read, ..l }).name() == (LockV { mode: Mode::Plain, ..l }).name()
            + ".read"@,
        (LockV { mode: Mode::Write, ..l }).name() == (LockV { mode: Mode::Plain, ..l }).name()
            + ".write"@,
        l.fields.len() > 0 && l.mode == Mode::Plain ==> l.name() == (LockV {
            fields: l.fields.drop_last(),
            ..l
        }).name() + "."@ + l.fields.last(),
{
    reveal_strlit("");
    assert(seq![f].drop_last() =~= Seq::empty());
    reveal_with_fuel(crate::dex::model::hops, 2);
    let none = Seq::<char>::empty();
    assert(""@ =~= none);
    assert(c + (none + "."@ + f) + none =~= c + "."@ + f);
    assert(c + none + none =~= c);
    assert(c + ".class"@ + none + none =~= c + ".class"@);
    let p = l.root.name() + crate::dex::model::hops(l.fields);
    assert(p + none =~= p);
    if l.fields.len() > 0 {
        let h = crate::dex::model::hops(l.fields.drop_last());
        assert(l.root.name() + (h + "."@ + l.fields.last()) + none =~= (l.root.name() + h + none)
            + "."@ + l.fields.last());
    }
}

/// Outside its method, what hangs from the receiver hangs from an instance of its class, what
/// hangs from a parameter is opaque and no other method's or parameter's, and everything else
/// stays as it is.
pub proof fn law_grounding_names_the_receiver_by_class(l: LockV, class: Seq<char>, key: Seq<char>)
    ensures
        ({
            let g = l.ground(class, key);
            &&& g.fields == l.fields && g.mode == l.mode
            &&& l.root is This ==> g.root == RootV::Recv(class)
            &&& l.root is Param ==> g.is_opaque()
            &&& !(l.root is This) && !(l.root is Param) ==> g == l
            &&& !(g.root is This) && !(g.root is Param)
        }),
{
}

/// Which bits of the access flags make a method private or static.
pub proof fn law_flags_are_bits_of_the_access(m: MethodV)
    ensures
        m.is_private() <==> m.access & 2 != 0,
        m.is_static() <==> m.access & 8 != 0,
{
    let x = m.access;
    assert((x & 2 != 0) == (x / 2 % 2 == 1)) by (bit_vector);
    assert((x & 8 != 0) == (x / 8 % 2 == 1)) by (bit_vector);
}

} // verus!

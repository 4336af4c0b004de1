//! Inconsistent locking: a field guarded by a lock nearly everywhere, and written
//! somewhere with **no lock held on any path**.
//!
//! `@GuardedBy` is source-retained, so nothing here reads an annotation, and no
//! guard is guessed from a name. Each finding is three facts about the call graph:
//!
//! 1. **Lock `L` is held at these accesses.** A *must* set: taken in the accessing
//!    method, or held on entry to a private helper by every one of its callers.
//! 2. **This write holds nothing, on any path.** A *may* set: the write's method has
//!    no lock on entry from any caller within the index's depth, and takes none itself
//!    before the write.
//! 3. **The write is reachable from a thread that runs concurrently** — a method
//!    serving an AIDL interface (a binder thread), a `Runnable`/`Thread` `run`, or
//!    a `Handler.handleMessage` — over the same call graph. Reported per access;
//!    an unreachable one is evidence of nothing.
//!
//! Excluded, by definition rather than by guess: `final` and `volatile` fields,
//! fields never written, and writes in `<init>`/`<clinit>` (a constructor runs
//! before publication and a static initializer is serialized by the runtime).
//!
//! An access inside a compiler-generated accessor — the forwarder emitted so an
//! inner class can touch an outer field — is reported at the *call sites* instead.
//! Such a method is recognized structurally, by having no real line table and a body of
//! nothing but the field access, never by its name.

use crate::dex::binder;
use crate::dex::ctx;
use crate::dex::ctx::index;
use crate::dex::ctx::index::{Index, IndexV};
use crate::dex::ctx::whole;
use crate::dex::flow;
use crate::dex::flow::{EffectsV, Event, EventV};
use crate::dex::hierarchy;
use crate::dex::hierarchy::Hierarchy;
use crate::dex::model;
use crate::dex::model::{ClassV, Dex, DexV, Lock, LockV, Method, MethodV, Op, OpV};
use crate::dict;
use crate::dict::{Dict, DictV};
use crate::graph;
use crate::names;
use crate::names::Names;
use crate::sort;
use crate::text;
use crate::values;
use crate::values::Dup;
use vstd::prelude::*;

verus! {

/// Thresholds for calling a field's locking discipline established: a lock is the field's
/// guard when it is held at least at `min_guarded` of the accesses.
#[derive(Clone, Copy, Debug)]
pub struct Options {
    pub min_guarded: usize,
    /// Passed through to the lock-context index.
    pub ctx: ctx::Options,
}

impl Default for Options {
    fn default() -> (r: Self)
        ensures
            r.min_guarded == 3,
            r.ctx == (ctx::Options { cha_cap: 16, max_depth: 8, order_depth: 3 }),
    {
        Options { min_guarded: 3, ctx: ctx::Options { cha_cap: 16, max_depth: 8, order_depth: 3 } }
    }
}

/// One access to a field.
#[derive(Debug)]
pub struct Access {
    pub method: String,
    pub file: Option<String>,
    pub line: Option<u32>,
    pub write: bool,
    /// Locks demonstrably held here (empty on an unguarded access).
    pub held: Vec<String>,
    /// The access is reachable from a binder, `Runnable`/`Thread` or `Handler` entry.
    pub concurrent: bool,
}

/// A field whose locking discipline is inconsistent.
#[derive(Debug)]
pub struct Finding {
    pub field: String,
    /// The lock held at `guarded` of the field's `total` accesses.
    pub guard: String,
    pub guarded: usize,
    pub total: usize,
    /// Accesses holding `guard`, as evidence of the discipline.
    pub guarded_at: Vec<Access>,
    /// Writes holding no lock on any path.
    pub unguarded: Vec<Access>,
}

/// What an access holds.
pub struct AccessV {
    pub method: Seq<char>,
    pub file: Option<Seq<char>>,
    pub line: Option<u32>,
    pub write: bool,
    pub held: Seq<Seq<char>>,
    pub concurrent: bool,
}

/// What a finding holds.
pub struct FindingV {
    pub field: Seq<char>,
    pub guard: Seq<char>,
    pub guarded: usize,
    pub total: usize,
    pub guarded_at: Seq<AccessV>,
    pub unguarded: Seq<AccessV>,
}

impl DeepView for Access {
    type V = AccessV;

    open spec fn deep_view(&self) -> AccessV {
        AccessV {
            method: self.method@,
            file: self.file.deep_view(),
            line: self.line,
            write: self.write,
            held: self.held.deep_view(),
            concurrent: self.concurrent,
        }
    }
}

impl DeepView for Finding {
    type V = FindingV;

    open spec fn deep_view(&self) -> FindingV {
        FindingV {
            field: self.field@,
            guard: self.guard@,
            guarded: self.guarded,
            total: self.total,
            guarded_at: self.guarded_at.deep_view(),
            unguarded: self.unguarded.deep_view(),
        }
    }
}

/// One raw access, before fields are grouped.
pub struct RawV {
    pub field: Seq<char>,
    pub method: u32,
    pub line: Option<u32>,
    pub write: bool,
    pub held: Seq<Seq<char>>,
    /// No lock is held here on any path into the method.
    pub unlocked: bool,
}

/// One raw access.
pub struct Raw {
    pub field: String,
    pub method: u32,
    pub line: Option<u32>,
    pub write: bool,
    pub held: Vec<String>,
    pub unlocked: bool,
}

impl DeepView for Raw {
    type V = RawV;

    open spec fn deep_view(&self) -> RawV {
        RawV {
            field: self.field@,
            method: self.method,
            line: self.line,
            write: self.write,
            held: self.held.deep_view(),
            unlocked: self.unlocked,
        }
    }
}

// Concurrency.

/// The keys of the methods from the `k`th on, behind `acc`.
pub open spec fn keys_from(ms: Seq<MethodV>, c: Seq<char>, k: int, acc: Seq<Seq<char>>) -> Seq<
    Seq<char>,
>
    decreases ms.len() - k,
{
    if k >= ms.len() {
        acc
    } else {
        keys_from(ms, c, k + 1, names::with(acc, model::key_of(c, ms[k].name, ms[k].sig)))
    }
}

/// What the AIDL interfaces among the classes from the `k`th on declare, behind `acc`.
pub open spec fn aidl_keys(cs: Seq<ClassV>, k: int, acc: Seq<Seq<char>>) -> Seq<Seq<char>>
    decreases cs.len() - k,
{
    if k >= cs.len() {
        acc
    } else {
        aidl_keys(
            cs,
            k + 1,
            if hierarchy::ancestors(cs, cs[k].descriptor).contains("android.os.IInterface"@) {
                keys_from(cs[k].methods, cs[k].descriptor, 0, acc)
            } else {
                acc
            },
        )
    }
}

/// The method implements an operation that one of those above its class declares.
pub open spec fn serves(m: MethodV, anc: Seq<Seq<char>>, aidl: Seq<Seq<char>>) -> bool {
    exists|i: int|
        0 <= i < anc.len() && aidl.contains(model::key_of(#[trigger] anc[i], m.name, m.sig))
}

/// The method is the body of a thread or of a message handler.
pub open spec fn is_threaded(m: MethodV, anc: Seq<Seq<char>>) -> bool {
    ||| m.name == "run"@ && m.sig == "()V"@ && (anc.contains("java.lang.Runnable"@)
        || anc.contains("java.lang.Thread"@))
    ||| m.name == "handleMessage"@ && m.sig == "(Landroid/os/Message;)V"@ && anc.contains(
        "android.os.Handler"@,
    )
}

/// A thread enters the program at the method.
pub open spec fn is_root(m: MethodV, cs: Seq<ClassV>, aidl: Seq<Seq<char>>) -> bool {
    let anc = hierarchy::ancestors(cs, m.class);
    !m.is_static() && !text::begins(m.name, "<"@) && (serves(m, anc, aidl) || is_threaded(m, anc))
}

/// The entry methods from the `k`th on, behind `acc`.
pub open spec fn roots_from(
    ms: Seq<MethodV>,
    cs: Seq<ClassV>,
    aidl: Seq<Seq<char>>,
    k: int,
    acc: Seq<usize>,
) -> Seq<usize>
    decreases ms.len() - k,
{
    if k >= ms.len() {
        acc
    } else {
        roots_from(
            ms,
            cs,
            aidl,
            k + 1,
            if is_root(ms[k], cs, aidl) {
                acc.push(k as usize)
            } else {
                acc
            },
        )
    }
}

/// The methods at which a thread enters the program.
pub open spec fn roots(d: DexV) -> Seq<usize> {
    roots_from(d.methods(), d.classes, aidl_keys(d.classes, 0, Seq::empty()), 0, Seq::empty())
}

/// Method `x` has a call site that may reach method `y`.
pub open spec fn calls_in(v: IndexV) -> spec_fn(usize, usize) -> bool {
    |x: usize, y: usize|
        x < v.methods.len() && exists|k: int|
            v.methods[x as int].calls.0 <= k < v.methods[x as int].calls.1 && (
            #[trigger] v.calls[k]).targets.contains(y as u32) && y <= u32::MAX
}

/// A thread may run the method.
pub open spec fn is_concurrent(d: DexV, v: IndexV, m: int) -> bool {
    graph::reached(calls_in(v), roots(d), m as usize)
}

// Accesses.

/// The instruction reads or writes a field.
pub open spec fn touches(op: OpV) -> bool {
    op is Iget || op is Iput || op is Sget || op is Sput
}

/// The instruction calls or locks.
pub open spec fn acts(op: OpV) -> bool {
    op is Invoke || op is MonitorEnter || op is MonitorExit
}

/// A compiler-generated field accessor: no real lines, and nothing but the field access.
pub open spec fn is_forwarder(m: MethodV) -> bool {
    &&& forall|i: int| 0 <= i < m.positions.len() ==> (#[trigger] m.positions[i]).1 == 0
    &&& exists|i: int| 0 <= i < m.insns.len() && touches((#[trigger] m.insns[i]).op)
    &&& forall|i: int| 0 <= i < m.insns.len() ==> !acts((#[trigger] m.insns[i]).op)
}

/// The names of the locks from the `k`th on, behind `acc`.
pub open spec fn lock_names(v: IndexV, ls: Seq<u32>, k: int, acc: Seq<Seq<char>>) -> Seq<Seq<char>>
    decreases ls.len() - k,
{
    if k >= ls.len() {
        acc
    } else {
        lock_names(v, ls, k + 1, acc.push(v.locks[ls[k] as int]))
    }
}

/// A constructor or a static initializer, whose accesses are left out.
pub open spec fn initializes(m: MethodV) -> bool {
    text::begins(m.name, "<"@)
}

/// The access of an accessor at each of its call sites from the `i`th entry up to the
/// `end`th, behind `acc`.
pub open spec fn forwarded(
    v: IndexV,
    ms: Seq<MethodV>,
    name: Seq<char>,
    write: bool,
    i: int,
    end: int,
    acc: Seq<RawV>,
) -> Seq<RawV>
    decreases end - i,
{
    if i >= end {
        acc
    } else {
        let c = v.calls[v.callers[i] as int];
        let held = lock_names(v, c.held, 0, Seq::empty());
        forwarded(
            v,
            ms,
            name,
            write,
            i + 1,
            end,
            if initializes(ms[c.caller as int]) {
                acc
            } else {
                acc.push(
                    RawV {
                        field: name,
                        method: c.caller,
                        line: Some(c.line),
                        write,
                        held,
                        unlocked: v.row(c.caller).len() == 0 && held.len() == 0,
                    },
                )
            },
        )
    }
}

/// The accesses among the events of method `id` from the `k`th on, behind `acc`.
pub open spec fn raws_in(
    v: IndexV,
    ms: Seq<MethodV>,
    m: MethodV,
    id: u32,
    es: Seq<EventV>,
    k: int,
    acc: Seq<RawV>,
) -> Seq<RawV>
    decreases es.len() - k,
{
    if k >= es.len() {
        acc
    } else {
        raws_in(
            v,
            ms,
            m,
            id,
            es,
            k + 1,
            match es[k] {
                EventV::Field { class, field, write, held, line } => {
                    let name = class + "."@ + field;
                    if is_forwarder(m) {
                        forwarded(
                            v,
                            ms,
                            name,
                            write,
                            v.caller_off[id as int] as int,
                            v.caller_off[id + 1] as int,
                            acc,
                        )
                    } else {
                        let clear = binder::clear_names(held);
                        acc.push(
                            RawV {
                                field: name,
                                method: id,
                                line,
                                write,
                                held: clear,
                                unlocked: v.row(id).len() == 0 && clear.len() == 0,
                            },
                        )
                    }
                },
                _ => acc,
            },
        )
    }
}

/// The accesses of the methods from the `k`th on, behind `acc`; constructors and static
/// initializers are left out.
pub open spec fn raws_from(
    v: IndexV,
    ms: Seq<MethodV>,
    fx: EffectsV,
    entry: DictV<Seq<LockV>>,
    k: int,
    acc: Seq<RawV>,
) -> Seq<RawV>
    decreases ms.len() - k,
{
    if k >= ms.len() {
        acc
    } else {
        raws_from(
            v,
            ms,
            fx,
            entry,
            k + 1,
            if initializes(ms[k]) {
                acc
            } else {
                raws_in(
                    v,
                    ms,
                    ms[k],
                    k as u32,
                    flow::events(ms[k], fx, dict::list_at(entry, ms[k].key())),
                    0,
                    acc,
                )
            },
        )
    }
}

/// The accesses from the `k`th on by field, behind `acc`.
pub open spec fn grouped(rs: Seq<RawV>, k: int, acc: DictV<Seq<RawV>>) -> DictV<Seq<RawV>>
    decreases rs.len() - k,
{
    if k >= rs.len() {
        acc
    } else {
        grouped(rs, k + 1, dict::put_more(acc, rs[k].field, rs[k]))
    }
}

/// The locks of the accesses from the `k`th on, each once, behind `acc`.
pub open spec fn locks_from(rs: Seq<RawV>, k: int, acc: Seq<Seq<char>>) -> Seq<Seq<char>>
    decreases rs.len() - k,
{
    if k >= rs.len() {
        acc
    } else {
        locks_from(rs, k + 1, held_with(rs[k].held, 0, acc))
    }
}

/// The names from the `k`th on, each once, behind `acc`.
pub open spec fn held_with(ns: Seq<Seq<char>>, k: int, acc: Seq<Seq<char>>) -> Seq<Seq<char>>
    decreases ns.len() - k,
{
    if k >= ns.len() {
        acc
    } else {
        held_with(ns, k + 1, names::with(acc, ns[k]))
    }
}

/// At how many of the accesses from the `k`th on the lock is held.
pub open spec fn held_at(rs: Seq<RawV>, lock: Seq<char>, k: int) -> nat
    decreases rs.len() - k,
{
    if k >= rs.len() {
        0
    } else {
        held_at(rs, lock, k + 1) + if rs[k].held.contains(lock) {
            1nat
        } else {
            0
        }
    }
}

/// The lock held at the most accesses among the locks from the `k`th on and `best`, and at
/// how many; of two that are held at as many, the one whose name comes first.
pub open spec fn most_held(
    rs: Seq<RawV>,
    locks: Seq<Seq<char>>,
    k: int,
    best: Option<(Seq<char>, nat)>,
) -> Option<(Seq<char>, nat)>
    decreases locks.len() - k,
{
    if k >= locks.len() {
        best
    } else {
        let name = locks[k];
        let n = held_at(rs, name, 0);
        most_held(
            rs,
            locks,
            k + 1,
            match best {
                None => Some((name, n)),
                Some((bn, b)) => if n > b || n == b && text::lex_le(name, bn) {
                    Some((name, n))
                } else {
                    best
                },
            },
        )
    }
}

/// The lock held at the most accesses, and at how many.
pub open spec fn guard_of(rs: Seq<RawV>) -> Option<(Seq<char>, nat)> {
    most_held(rs, locks_from(rs, 0, Seq::empty()), 0, None)
}

/// The access as it is reported.
pub open spec fn shown(d: DexV, v: IndexV, r: RawV) -> AccessV {
    let m = v.methods[r.method as int];
    let f = v.files[m.file as int];
    AccessV {
        method: m.key,
        file: if f.len() == 0 {
            None
        } else {
            Some(f)
        },
        line: r.line,
        write: r.write,
        held: r.held,
        concurrent: is_concurrent(d, v, r.method as int),
    }
}

/// Some access writes.
pub open spec fn written(rs: Seq<RawV>) -> bool {
    exists|i: int| 0 <= i < rs.len() && (#[trigger] rs[i]).write
}

/// The accesses from the `k`th on that hold `guard`, behind `acc`.
pub open spec fn guarded_from(
    d: DexV,
    v: IndexV,
    rs: Seq<RawV>,
    guard: Seq<char>,
    k: int,
    acc: Seq<AccessV>,
) -> Seq<AccessV>
    decreases rs.len() - k,
{
    if k >= rs.len() {
        acc
    } else {
        guarded_from(
            d,
            v,
            rs,
            guard,
            k + 1,
            if rs[k].held.contains(guard) {
                acc.push(shown(d, v, rs[k]))
            } else {
                acc
            },
        )
    }
}

/// The writes from the `k`th on with no lock held on any path, behind `acc`.
pub open spec fn unguarded_from(
    d: DexV,
    v: IndexV,
    rs: Seq<RawV>,
    k: int,
    acc: Seq<AccessV>,
) -> Seq<AccessV>
    decreases rs.len() - k,
{
    if k >= rs.len() {
        acc
    } else {
        unguarded_from(
            d,
            v,
            rs,
            k + 1,
            if rs[k].write && rs[k].unlocked {
                acc.push(shown(d, v, rs[k]))
            } else {
                acc
            },
        )
    }
}

/// What the accesses of one field say, if they say that its discipline is inconsistent.
pub open spec fn judged(
    d: DexV,
    v: IndexV,
    min_guarded: usize,
    field: Seq<char>,
    rs: Seq<RawV>,
) -> Option<FindingV> {
    match guard_of(rs) {
        None => None,
        Some((guard, n)) => {
            let guarded = n as usize;
            let unguarded = unguarded_from(d, v, rs, 0, Seq::empty());
            if d.final_or_volatile_fields.contains(field) || !written(rs) || guarded < min_guarded
                || unguarded.len() == 0 {
                None
            } else {
                Some(
                    FindingV {
                        field,
                        guard,
                        guarded,
                        total: rs.len() as usize,
                        guarded_at: guarded_from(d, v, rs, guard, 0, Seq::empty()),
                        unguarded,
                    },
                )
            }
        },
    }
}

/// The fields from the `k`th on whose discipline is inconsistent, behind `acc`.
pub open spec fn judged_from(
    d: DexV,
    v: IndexV,
    min_guarded: usize,
    g: DictV<Seq<RawV>>,
    k: int,
    acc: Seq<FindingV>,
) -> Seq<FindingV>
    decreases g.keys.len() - k,
{
    if k >= g.keys.len() {
        acc
    } else {
        judged_from(
            d,
            v,
            min_guarded,
            g,
            k + 1,
            match judged(d, v, min_guarded, g.keys[k], g.get(g.keys[k])->0) {
                Some(f) => acc.push(f),
                None => acc,
            },
        )
    }
}

/// Every access of the program.
pub open spec fn accesses(d: DexV, v: IndexV) -> Seq<RawV> {
    raws_from(
        v,
        d.methods(),
        flow::all_effects(d),
        flow::held_on_entry(d, false),
        0,
        Seq::empty(),
    )
}

/// The fields whose locking discipline is inconsistent, in the order of their first access.
pub open spec fn inconsistent(d: DexV, v: IndexV, min_guarded: usize) -> Seq<FindingV> {
    judged_from(d, v, min_guarded, grouped(accesses(d, v), 0, DictV::none()), 0, Seq::empty())
}

/// A thread may run one of the unguarded writes.
pub open spec fn threatened(f: FindingV) -> bool {
    exists|i: int| 0 <= i < f.unguarded.len() && (#[trigger] f.unguarded[i]).concurrent
}

/// The strongest first: what threads may reach, then the most corroborated discipline,
/// then the fewest exceptions, then by field.
pub open spec fn stronger() -> spec_fn(FindingV, FindingV) -> bool {
    |a: FindingV, b: FindingV|
        if threatened(a) != threatened(b) {
            threatened(a)
        } else if a.guarded != b.guarded {
            a.guarded > b.guarded
        } else if a.unguarded.len() != b.unguarded.len() {
            a.unguarded.len() < b.unguarded.len()
        } else {
            text::lex_le(a.field, b.field)
        }
}

/// The findings from the `k`th on whose discipline is established, behind `acc`.
pub open spec fn kept(fs: Seq<FindingV>, established: Seq<bool>, k: int, acc: Seq<FindingV>) -> Seq<
    FindingV,
>
    decreases fs.len() - k,
{
    if k >= fs.len() {
        acc
    } else {
        kept(
            fs,
            established,
            k + 1,
            if established[k] {
                acc.push(fs[k])
            } else {
                acc
            },
        )
    }
}

fn aidl_declared(dex: &Dex, h: &mut Hierarchy) -> (r: Names)
    requires
        old(h).wf(),
        old(h).of() == dex.deep_view().classes,
    ensures
        final(h).wf(),
        final(h).of() == old(h).of(),
        r.wf(),
        r@ == aidl_keys(dex.deep_view().classes, 0, Seq::empty()),
{
    let ghost cs = dex.classes.deep_view();
    let mut out = Names::new();
    let mut k: usize = 0;
    while k < dex.classes.len()
        invariant
            k <= dex.classes@.len(),
            cs == dex.classes.deep_view(),
            h.wf(),
            h.of() == cs,
            out.wf(),
            aidl_keys(cs, 0, Seq::empty()) == aidl_keys(cs, k as int, out@),
        decreases dex.classes@.len() - k,
    {
        let c = &dex.classes[k];
        proof {
            assert(cs[k as int] == c.deep_view());
        }
        let name = c.descriptor.as_str();
        if h.is_above(name, "android.os.IInterface") {
            let ghost ms = c.methods.deep_view();
            let ghost begin = out@;
            let mut j: usize = 0;
            while j < c.methods.len()
                invariant
                    j <= c.methods@.len(),
                    ms == c.methods.deep_view(),
                    name@ == c.descriptor@,
                    out.wf(),
                    keys_from(ms, name@, 0, begin) == keys_from(ms, name@, j as int, out@),
                decreases c.methods@.len() - j,
            {
                let m = &c.methods[j];
                proof {
                    assert(ms[j as int] == m.deep_view());
                }
                let key = model::key_text(name, m.name.as_str(), m.sig.as_str());
                out.intern(key.as_str());
                j += 1;
            }
        }
        k += 1;
    }
    out
}

fn does_serve(m: &Method, anc: &Vec<String>, aidl: &Names) -> (r: bool)
    requires
        aidl.wf(),
    ensures
        r == serves(m.deep_view(), anc.deep_view(), aidl@),
{
    let ghost av = anc.deep_view();
    let ghost mv = m.deep_view();
    let mut i: usize = 0;
    while i < anc.len()
        invariant
            i <= anc@.len(),
            av == anc.deep_view(),
            mv == m.deep_view(),
            aidl.wf(),
            forall|j: int|
                0 <= j < i ==> !aidl@.contains(
                    model::key_of(#[trigger] av[j], mv.name, mv.sig),
                ),
        decreases anc@.len() - i,
    {
        proof {
            assert(av[i as int] == anc@[i as int]@);
        }
        let key = model::key_text(anc[i].as_str(), m.name.as_str(), m.sig.as_str());
        if aidl.contains(key.as_str()) {
            return true;
        }
        i += 1;
    }
    false
}

fn find_roots(dex: &Dex, ms: &Vec<&Method>) -> (r: Vec<usize>)
    requires
        ms.deep_view() == dex.deep_view().methods(),
    ensures
        r@ == roots(dex.deep_view()),
        forall|i: int| 0 <= i < r@.len() ==> #[trigger] r@[i] < ms@.len(),
{
    let ghost mv = ms.deep_view();
    let ghost cs = dex.classes.deep_view();
    let mut h = Hierarchy::new(dex);
    let aidl = aidl_declared(dex, &mut h);
    let mut out: Vec<usize> = Vec::new();
    let mut k: usize = 0;
    while k < ms.len()
        invariant
            k <= ms@.len(),
            mv == ms.deep_view(),
            h.wf(),
            h.of() == cs,
            aidl.wf(),
            forall|i: int| 0 <= i < out@.len() ==> #[trigger] out@[i] < k,
            roots_from(mv, cs, aidl@, 0, Seq::empty()) == roots_from(
                mv,
                cs,
                aidl@,
                k as int,
                out@,
            ),
        decreases ms@.len() - k,
    {
        let m: &Method = ms[k];
        proof {
            assert(mv[k as int] == m.deep_view());
        }
        if !m.is_static() && !text::starts_with(m.name.as_str(), "<") {
            let anc = h.ancestors(m.class.as_str());
            let runs = text::str_eq(m.name.as_str(), "run") && text::str_eq(m.sig.as_str(), "()V")
                && (names::list_has(&anc, "java.lang.Runnable") || names::list_has(
                &anc,
                "java.lang.Thread",
            ));
            let handles = text::str_eq(m.name.as_str(), "handleMessage") && text::str_eq(
                m.sig.as_str(),
                "(Landroid/os/Message;)V",
            ) && names::list_has(&anc, "android.os.Handler");
            if does_serve(m, &anc, &aidl) || runs || handles {
                out.push(k);
            }
        }
        k += 1;
    }
    out
}

/// What method `x` calls.
fn callees(idx: &Index, x: usize) -> (r: Vec<usize>)
    requires
        idx.deep_view().wf(),
        x < idx.deep_view().methods.len(),
    ensures
        forall|i: int|
            0 <= i < r@.len() ==> #[trigger] r@[i] < idx.deep_view().methods.len() && calls_in(
                idx.deep_view(),
            )(x, r@[i]),
        forall|y: usize| #[trigger] calls_in(idx.deep_view())(x, y) ==> r@.contains(y),
{
    let ghost v = idx.deep_view();
    let ghost rel = calls_in(v);
    let ghost mx = v.methods[x as int];
    proof {
        assert(mx == idx.methods@[x as int].deep_view());
        assert(index::method_in(
            mx,
            v.files.len() as int,
            v.locks.len() as int,
            v.calls.len() as int,
        ));
    }
    let (c0, c1) = idx.methods[x].calls;
    let mut out: Vec<usize> = Vec::new();
    let mut k = c0;
    while k < c1
        invariant
            c0 <= k <= c1,
            c1 <= v.calls.len(),
            v == idx.deep_view(),
            v.wf(),
            x < v.methods.len(),
            v.methods[x as int].calls == (c0, c1),
            rel == calls_in(v),
            forall|i: int| 0 <= i < out@.len() ==> #[trigger] out@[i] < v.methods.len(),
            forall|i: int| 0 <= i < out@.len() ==> rel(x, #[trigger] out@[i]),
            forall|j: int, y: u32|
                c0 <= j < k && (#[trigger] v.calls[j]).targets.contains(y)
                    ==> #[trigger] out@.contains(y as usize),
        decreases c1 - k,
    {
        let c = &idx.calls[k as usize];
        proof {
            assert(v.calls[k as int] == c.deep_view());
            assert(index::call_in(
                v.calls[k as int],
                v.methods.len() as int,
                v.locks.len() as int,
            ));
        }
        let ghost before = out@;
        let mut j: usize = 0;
        while j < c.targets.len()
            invariant
                j <= c.targets@.len(),
                v == idx.deep_view(),
                x < v.methods.len(),
                c0 <= k < c1,
                v.methods[x as int].calls == (c0, c1),
                v.calls[k as int] == c.deep_view(),
                index::all_below(c.targets@, v.methods.len() as int),
                rel == calls_in(v),
                forall|i: int| 0 <= i < out@.len() ==> #[trigger] out@[i] < v.methods.len(),
                forall|i: int| 0 <= i < out@.len() ==> rel(x, #[trigger] out@[i]),
                out@.len() == before.len() + j,
                forall|i: int| 0 <= i < before.len() ==> #[trigger] out@[i] == before[i],
                forall|i: int|
                    0 <= i < j ==> out@[before.len() + i] == (#[trigger] c.targets@[i]) as usize,
            decreases c.targets@.len() - j,
        {
            let t = c.targets[j];
            proof {
                assert(c.targets@[j as int] < v.methods.len());
                assert(v.calls[k as int].targets.contains(t));
                assert(rel(x, t as usize));
            }
            out.push(t as usize);
            j += 1;
        }
        proof {
            assert forall|j: int, y: u32|
                c0 <= j < k + 1 && (#[trigger] v.calls[j]).targets.contains(
                    y,
                ) implies #[trigger] out@.contains(y as usize) by {
                if j < k {
                    assert(before.contains(y as usize));
                    let i = choose|i: int| 0 <= i < before.len() && before[i] == y as usize;
                    assert(out@[i] == y as usize);
                } else {
                    let i = choose|i: int| 0 <= i < c.targets@.len() && c.targets@[i] == y;
                    assert(out@[before.len() + i] == c.targets@[i] as usize);
                }
            }
        }
        k += 1;
    }
    proof {
        assert forall|y: usize| #[trigger] rel(x, y) implies out@.contains(y) by {
            let k = choose|k: int|
                v.methods[x as int].calls.0 <= k < v.methods[x as int].calls.1 && (
                #[trigger] v.calls[k]).targets.contains(y as u32) && y <= u32::MAX;
            assert(out@.contains((y as u32) as usize));
        }
    }
    out
}

/// Every method reachable from a thread entry point: a method serving an AIDL
/// interface (run on a binder thread), a `Runnable`/`Thread` `run`, or a
/// `Handler.handleMessage`. Forward reachability over the index's call graph.
pub fn concurrent_methods(dex: &Dex, idx: &Index) -> (r: Vec<bool>)
    requires
        idx.deep_view().wf(),
        idx.deep_view().methods.len() == dex.deep_view().methods().len(),
    ensures
        r@.len() == idx.deep_view().methods.len(),
        forall|m: int|
            0 <= m < r@.len() ==> #[trigger] r@[m] == is_concurrent(
                dex.deep_view(),
                idx.deep_view(),
                m,
            ),
{
    let ghost v = idx.deep_view();
    let ghost rel = calls_in(v);
    let ms = dex.methods();
    let start = find_roots(dex, &ms);
    let n = idx.methods.len();
    let mut adj: Vec<Vec<usize>> = Vec::new();
    let mut x: usize = 0;
    while x < n
        invariant
            x <= n,
            n == v.methods.len(),
            v == idx.deep_view(),
            v.wf(),
            rel == calls_in(v),
            adj@.len() == x,
            forall|y: int, i: int|
                0 <= y < x && 0 <= i < adj@[y]@.len() ==> (#[trigger] adj@[y]@[i]) < n && rel(
                    y as usize,
                    adj@[y]@[i],
                ),
            forall|y: usize, z: usize|
                y < x && #[trigger] rel(y, z) ==> adj@[y as int]@.contains(z),
        decreases n - x,
    {
        let row = callees(idx, x);
        let ghost before = adj@;
        adj.push(row);
        proof {
            assert forall|y: int, i: int| 0 <= y < x + 1 && 0 <= i < adj@[y]@.len() implies (
            #[trigger] adj@[y]@[i]) < n && rel(y as usize, adj@[y]@[i]) by {
                if y < x {
                    assert(adj@[y] == before[y]);
                    assert(before[y]@[i] < n);
                } else {
                    assert(row@[i] < n);
                }
            }
            assert forall|y: usize, z: usize| y < x + 1 && #[trigger] rel(y, z) implies adj@[
            y as int]@.contains(z) by {
                if y < x {
                    assert(adj@[y as int] == before[y as int]);
                }
            }
        }
        x += 1;
    }
    proof {
        let av = graph::list_views(&adj);
        assert forall|x: int, i: int| 0 <= x < av.len() && 0 <= i < av[x].len() implies rel(
            x as usize,
            #[trigger] av[x][i],
        ) && av[x][i] < av.len() by {
            assert(adj@[x]@[i] < n);
        }
        assert(graph::lists(rel, av));
        assert(ms@.len() == ms.deep_view().len());
    }
    graph::reachable(&adj, &start, Ghost(rel))
}

fn forwards(m: &Method) -> (r: bool)
    ensures
        r == is_forwarder(m.deep_view()),
{
    let ghost mv = m.deep_view();
    let mut k: usize = 0;
    while k < m.positions.len()
        invariant
            k <= m.positions@.len(),
            mv == m.deep_view(),
            forall|i: int| 0 <= i < k ==> (#[trigger] mv.positions[i]).1 == 0,
        decreases m.positions@.len() - k,
    {
        if m.positions[k].1 != 0 {
            proof {
                assert(mv.positions[k as int].1 != 0);
            }
            return false;
        }
        k += 1;
    }
    let mut found = false;
    let mut k: usize = 0;
    while k < m.insns.len()
        invariant
            k <= m.insns@.len(),
            mv == m.deep_view(),
            found == exists|i: int| 0 <= i < k && touches((#[trigger] mv.insns[i]).op),
            forall|i: int| 0 <= i < k ==> !acts((#[trigger] mv.insns[i]).op),
        decreases m.insns@.len() - k,
    {
        proof {
            assert(mv.insns[k as int] == m.insns@[k as int].deep_view());
        }
        match &m.insns[k].op {
            Op::Invoke(_) => {
                proof {
                    assert(acts(mv.insns[k as int].op));
                }
                return false;
            },
            Op::MonitorEnter(_) => {
                proof {
                    assert(acts(mv.insns[k as int].op));
                }
                return false;
            },
            Op::MonitorExit(_) => {
                proof {
                    assert(acts(mv.insns[k as int].op));
                }
                return false;
            },
            Op::Iget { .. } => {
                found = true;
                proof {
                    assert(touches(mv.insns[k as int].op));
                }
            },
            Op::Iput { .. } => {
                found = true;
                proof {
                    assert(touches(mv.insns[k as int].op));
                }
            },
            Op::Sget { .. } => {
                found = true;
                proof {
                    assert(touches(mv.insns[k as int].op));
                }
            },
            Op::Sput { .. } => {
                found = true;
                proof {
                    assert(touches(mv.insns[k as int].op));
                }
            },
            _ => {},
        }
        k += 1;
    }
    found
}

fn nothing_above(idx: &Index, m: u32) -> (r: bool)
    requires
        idx.deep_view().wf(),
        m < idx.deep_view().methods.len(),
    ensures
        r == (idx.deep_view().row(m).len() == 0),
{
    let ghost v = idx.deep_view();
    let n = idx.methods.len();
    proof {
        assert(v.may_off[m as int] <= v.may_off[m + 1]);
    }
    idx.may_off[m as usize] == idx.may_off[m as usize + 1]
}

fn names_of(idx: &Index, ls: &Vec<u32>) -> (r: Vec<String>)
    requires
        index::all_below(ls@, idx.deep_view().locks.len() as int),
    ensures
        r.deep_view() == lock_names(idx.deep_view(), ls@, 0, Seq::empty()),
{
    let ghost v = idx.deep_view();
    let mut out: Vec<String> = values::empty();
    let mut k: usize = 0;
    while k < ls.len()
        invariant
            k <= ls@.len(),
            v == idx.deep_view(),
            index::all_below(ls@, v.locks.len() as int),
            lock_names(v, ls@, 0, Seq::empty()) == lock_names(
                v,
                ls@,
                k as int,
                out.deep_view(),
            ),
        decreases ls@.len() - k,
    {
        let l = ls[k];
        proof {
            assert(ls@[k as int] < v.locks.len());
            assert(v.locks[l as int] == idx.locks@[l as int]@);
        }
        let name = idx.locks[l as usize].dup();
        values::push(&mut out, name);
        k += 1;
    }
    out
}

fn initializer(m: &Method) -> (r: bool)
    ensures
        r == initializes(m.deep_view()),
{
    text::starts_with(m.name.as_str(), "<")
}

fn forward(
    idx: &Index,
    ms: &Vec<&Method>,
    id: u32,
    name: &str,
    write: bool,
    out: &mut Vec<Raw>,
)
    requires
        idx.deep_view().wf(),
        idx.deep_view().methods.len() == ms@.len(),
        id < idx.deep_view().methods.len(),
        all_known(old(out).deep_view(), idx.deep_view()),
    ensures
        all_known(final(out).deep_view(), idx.deep_view()),
        final(out).deep_view() == forwarded(
            idx.deep_view(),
            ms.deep_view(),
            name@,
            write,
            idx.deep_view().caller_off[id as int] as int,
            idx.deep_view().caller_off[id + 1] as int,
            old(out).deep_view(),
        ),
{
    let ghost v = idx.deep_view();
    let ghost mv = ms.deep_view();
    let ghost begin = out.deep_view();
    let n = idx.methods.len();
    let a = idx.caller_off[id as usize] as usize;
    let b = idx.caller_off[id as usize + 1] as usize;
    let mut i = a;
    while i < b
        invariant
            a <= i <= b,
            b <= v.callers.len(),
            v == idx.deep_view(),
            v.wf(),
            mv == ms.deep_view(),
            v.methods.len() == ms@.len(),
            all_known(out.deep_view(), v),
            forwarded(v, mv, name@, write, a as int, b as int, begin) == forwarded(
                v,
                mv,
                name@,
                write,
                i as int,
                b as int,
                out.deep_view(),
            ),
        decreases b - i,
    {
        let k = idx.callers[i];
        proof {
            assert(v.callers[i as int] < v.calls.len());
        }
        let c = &idx.calls[k as usize];
        proof {
            assert(v.calls[k as int] == c.deep_view());
            assert(index::call_in(
                v.calls[k as int],
                v.methods.len() as int,
                v.locks.len() as int,
            ));
        }
        proof {
            assert(mv[c.caller as int] == ms@[c.caller as int].deep_view());
        }
        if !initializer(ms[c.caller as usize]) {
            let held = names_of(idx, &c.held);
            let unlocked = nothing_above(idx, c.caller) && held.len() == 0;
            let ghost before = out.deep_view();
            values::push(
                out,
                Raw {
                    field: name.to_string(),
                    method: c.caller,
                    line: Some(c.line),
                    write,
                    held,
                    unlocked,
                },
            );
            proof {
                assert forall|i: int| 0 <= i < out.deep_view().len() implies (
                #[trigger] out.deep_view()[i]).method < v.methods.len() by {
                    if i < before.len() {
                        assert(before[i].method < v.methods.len());
                    }
                }
            }
        }
        i += 1;
    }
}

/// Every access stands in a method of the index.
pub open spec fn all_known(rs: Seq<RawV>, v: IndexV) -> bool {
    forall|i: int| 0 <= i < rs.len() ==> (#[trigger] rs[i]).method < v.methods.len()
}

fn collect(dex: &Dex, idx: &Index) -> (r: Vec<Raw>)
    requires
        idx.deep_view().wf(),
        idx.deep_view().methods.len() == dex.deep_view().methods().len(),
    ensures
        r.deep_view() == accesses(dex.deep_view(), idx.deep_view()),
        all_known(r.deep_view(), idx.deep_view()),
{
    let ghost v = idx.deep_view();
    let ms = dex.methods();
    let ghost mv = ms.deep_view();
    let entry = flow::entry_held(dex, false);
    let fx = flow::effects(dex);
    let none: Vec<Lock> = values::empty();
    let mut out: Vec<Raw> = values::empty();
    let mut k: usize = 0;
    while k < ms.len()
        invariant
            k <= ms@.len(),
            mv == ms.deep_view(),
            mv.len() == ms@.len(),
            v == idx.deep_view(),
            v.wf(),
            v.methods.len() == mv.len(),
            entry.wf(),
            fx.wf(),
            none.deep_view() == Seq::<LockV>::empty(),
            all_known(out.deep_view(), v),
            raws_from(v, mv, fx@, entry@, 0, Seq::empty()) == raws_from(
                v,
                mv,
                fx@,
                entry@,
                k as int,
                out.deep_view(),
            ),
        decreases ms@.len() - k,
    {
        let m: &Method = ms[k];
        proof {
            assert(mv[k as int] == m.deep_view());
        }
        if !initializer(m) {
            let key = m.key();
            let seed = match entry.get(key.as_str()) {
                Some(l) => l,
                None => &none,
            };
            let es = flow::walk(m, seed, &fx);
            let ghost ev = es.deep_view();
            let ghost begin = out.deep_view();
            let id = k as u32;
            let fwd = forwards(m);
            let free = nothing_above(idx, id);
            let mut j: usize = 0;
            while j < es.len()
                invariant
                    j <= es@.len(),
                    ev == es.deep_view(),
                    v == idx.deep_view(),
                    v.wf(),
                    mv == ms.deep_view(),
                    v.methods.len() == ms@.len(),
                    id < v.methods.len(),
                    fwd == is_forwarder(m.deep_view()),
                    free == (v.row(id).len() == 0),
                    all_known(out.deep_view(), v),
                    raws_in(v, mv, m.deep_view(), id, ev, 0, begin) == raws_in(
                        v,
                        mv,
                        m.deep_view(),
                        id,
                        ev,
                        j as int,
                        out.deep_view(),
                    ),
                decreases es@.len() - j,
            {
                proof {
                    assert(ev[j as int] == es@[j as int].deep_view());
                }
                match &es[j] {
                    Event::Field { class, field, write, held, line } => {
                        let name = text::cat3(class, ".", field);
                        if fwd {
                            forward(idx, &ms, id, name.as_str(), *write, &mut out);
                        } else {
                            let held = binder::held_names(held);
                            let unlocked = free && held.len() == 0;
                            let ghost before = out.deep_view();
                            values::push(
                                &mut out,
                                Raw {
                                    field: name,
                                    method: id,
                                    line: *line,
                                    write: *write,
                                    held,
                                    unlocked,
                                },
                            );
                            proof {
                                assert forall|i: int| 0 <= i < out.deep_view().len() implies (
                                #[trigger] out.deep_view()[i]).method < v.methods.len() by {
                                    if i < before.len() {
                                        assert(before[i].method < v.methods.len());
                                    }
                                }
                            }
                        }
                    },
                    _ => {},
                }
                j += 1;
            }
        }
        k += 1;
    }
    out
}

fn count_holding(rs: &Vec<Raw>, lock: &str) -> (n: usize)
    ensures
        n == held_at(rs.deep_view(), lock@, 0),
        n <= rs@.len(),
{
    let ghost rv = rs.deep_view();
    let len = rs.len();
    let mut n: usize = 0;
    let mut k = len;
    while k > 0
        invariant
            k <= len,
            len == rs@.len(),
            n <= len - k,
            rv == rs.deep_view(),
            n == held_at(rv, lock@, k as int),
        decreases k,
    {
        k -= 1;
        proof {
            assert(rv[k as int] == rs@[k as int].deep_view());
        }
        if names::list_has(&rs[k].held, lock) {
            n += 1;
        }
    }
    n
}

fn list_locks(rs: &Vec<Raw>) -> (r: Names)
    ensures
        r.wf(),
        r@ == locks_from(rs.deep_view(), 0, Seq::empty()),
{
    let ghost rv = rs.deep_view();
    let mut out = Names::new();
    let mut k: usize = 0;
    while k < rs.len()
        invariant
            k <= rs@.len(),
            rv == rs.deep_view(),
            out.wf(),
            locks_from(rv, 0, Seq::empty()) == locks_from(rv, k as int, out@),
        decreases rs@.len() - k,
    {
        proof {
            assert(rv[k as int] == rs@[k as int].deep_view());
        }
        let ns = &rs[k].held;
        let ghost nv = ns.deep_view();
        let ghost begin = out@;
        let mut j: usize = 0;
        while j < ns.len()
            invariant
                j <= ns@.len(),
                nv == ns.deep_view(),
                out.wf(),
                held_with(nv, 0, begin) == held_with(nv, j as int, out@),
            decreases ns@.len() - j,
        {
            proof {
                assert(nv[j as int] == ns@[j as int]@);
            }
            out.intern(ns[j].as_str());
            j += 1;
        }
        k += 1;
    }
    out
}

fn find_guard(rs: &Vec<Raw>) -> (r: Option<(String, usize)>)
    ensures
        match r {
            Some((guard, n)) => guard_of(rs.deep_view()) == Some((guard@, n as nat)),
            None => guard_of(rs.deep_view()) is None,
        },
{
    let ghost rv = rs.deep_view();
    let locks = list_locks(rs);
    let mut best: Option<(String, usize)> = None;
    let n = locks.len();
    let mut k: usize = 0;
    while k < n
        invariant
            k <= n,
            n == locks@.len(),
            locks.wf(),
            rv == rs.deep_view(),
            most_held(rv, locks@, 0, None) == most_held(
                rv,
                locks@,
                k as int,
                match best {
                    Some((name, b)) => Some((name@, b as nat)),
                    None => None,
                },
            ),
        decreases n - k,
    {
        let name = locks.at(k);
        let count = count_holding(rs, name);
        let better = match &best {
            None => true,
            Some((bn, b)) => count > *b || count == *b && text::str_le(name, bn.as_str()),
        };
        if better {
            best = Some((name.to_string(), count));
        }
        k += 1;
    }
    best
}

fn show(idx: &Index, r: &Raw, threads: &Vec<bool>, Ghost(d): Ghost<DexV>) -> (a: Access)
    requires
        idx.deep_view().wf(),
        r.method < idx.deep_view().methods.len(),
        threads@.len() == idx.deep_view().methods.len(),
        forall|m: int|
            0 <= m < threads@.len() ==> #[trigger] threads@[m] == is_concurrent(
                d,
                idx.deep_view(),
                m,
            ),
    ensures
        a.deep_view() == shown(d, idx.deep_view(), r.deep_view()),
{
    let ghost v = idx.deep_view();
    let m = &idx.methods[r.method as usize];
    proof {
        assert(v.methods[r.method as int] == m.deep_view());
        assert(index::method_in(
            v.methods[r.method as int],
            v.files.len() as int,
            v.locks.len() as int,
            v.calls.len() as int,
        ));
        assert(v.files[m.file as int] == idx.files@[m.file as int]@);
    }
    let f = idx.files[m.file as usize].as_str();
    let file = if text::str_eq(f, "") {
        None
    } else {
        Some(f.to_string())
    };
    proof {
        reveal_strlit("");
        assert(f@.len() == 0 <==> f@ =~= ""@);
    }
    Access {
        method: m.key.dup(),
        file,
        line: r.line,
        write: r.write,
        held: r.held.dup(),
        concurrent: threads[r.method as usize],
    }
}

fn judge(
    dex: &Dex,
    idx: &Index,
    min_guarded: usize,
    field: &str,
    rs: &Vec<Raw>,
    threads: &Vec<bool>,
) -> (r: Option<Finding>)
    requires
        dex.wf(),
        idx.deep_view().wf(),
        all_known(rs.deep_view(), idx.deep_view()),
        threads@.len() == idx.deep_view().methods.len(),
        forall|m: int|
            0 <= m < threads@.len() ==> #[trigger] threads@[m] == is_concurrent(
                dex.deep_view(),
                idx.deep_view(),
                m,
            ),
    ensures
        r.deep_view() == judged(
            dex.deep_view(),
            idx.deep_view(),
            min_guarded,
            field@,
            rs.deep_view(),
        ),
{
    let ghost d = dex.deep_view();
    let ghost v = idx.deep_view();
    let ghost rv = rs.deep_view();
    let (guard, guarded) = match find_guard(rs) {
        None => {
            return None;
        },
        Some(x) => x,
    };
    let mut writes = false;
    let mut unguarded: Vec<Access> = values::empty();
    let mut guarded_at: Vec<Access> = values::empty();
    let mut k: usize = 0;
    while k < rs.len()
        invariant
            k <= rs@.len(),
            d == dex.deep_view(),
            v == idx.deep_view(),
            rv == rs.deep_view(),
            v.wf(),
            all_known(rv, v),
            threads@.len() == v.methods.len(),
            forall|m: int|
                0 <= m < threads@.len() ==> #[trigger] threads@[m] == is_concurrent(d, v, m),
            writes == exists|i: int| 0 <= i < k && (#[trigger] rv[i]).write,
            unguarded_from(d, v, rv, 0, Seq::empty()) == unguarded_from(
                d,
                v,
                rv,
                k as int,
                unguarded.deep_view(),
            ),
            guarded_from(d, v, rv, guard@, 0, Seq::empty()) == guarded_from(
                d,
                v,
                rv,
                guard@,
                k as int,
                guarded_at.deep_view(),
            ),
        decreases rs@.len() - k,
    {
        let r = &rs[k];
        proof {
            assert(rv[k as int] == r.deep_view());
            assert(rv[k as int].method < v.methods.len());
        }
        if r.write {
            writes = true;
            if r.unlocked {
                let a = show(idx, r, threads, Ghost(d));
                values::push(&mut unguarded, a);
            }
        }
        if names::list_has(&r.held, guard.as_str()) {
            let a = show(idx, r, threads, Ghost(d));
            values::push(&mut guarded_at, a);
        }
        k += 1;
    }
    proof {
        assert(unguarded.deep_view().len() == unguarded@.len());
    }
    if dex.final_or_volatile_fields.contains(field) || !writes || guarded < min_guarded
        || unguarded.len() == 0 {
        return None;
    }
    Some(
        Finding {
            field: field.to_string(),
            guard,
            guarded,
            total: rs.len(),
            guarded_at,
            unguarded,
        },
    )
}

proof fn lemma_grouped_known(rs: Seq<RawV>, k: int, acc: DictV<Seq<RawV>>, v: IndexV)
    requires
        0 <= k,
        all_known(rs, v),
        forall|f: Seq<char>| #[trigger] acc.get(f) matches Some(l) ==> all_known(l, v),
    ensures
        forall|f: Seq<char>| #[trigger]
            grouped(rs, k, acc).get(f) matches Some(l) ==> all_known(l, v),
    decreases rs.len() - k,
{
    if k < rs.len() {
        let next = dict::put_more(acc, rs[k].field, rs[k]);
        assert forall|f: Seq<char>| #[trigger] next.get(f) matches Some(l) implies all_known(
            next.get(f)->0,
            v,
        ) by {
            if f == rs[k].field {
                let old = dict::list_at(acc, f);
                assert(next.get(f) == Some(old.push(rs[k])));
                assert(acc.get(f) is Some ==> all_known(old, v));
                assert forall|i: int| 0 <= i < old.push(rs[k]).len() implies (
                #[trigger] old.push(rs[k])[i]).method < v.methods.len() by {
                    if i < old.len() {
                        assert(old[i].method < v.methods.len());
                    }
                }
            } else {
                assert(next.get(f) == acc.get(f));
            }
        }
        lemma_grouped_known(rs, k + 1, next, v);
        assert(grouped(rs, k, acc) == grouped(rs, k + 1, next));
    }
}

/// Fields with an inconsistent locking discipline, whatever share of the accesses the
/// guard is held at, in the order of their first access.
pub fn disciplines(dex: &Dex, idx: &Index, min_guarded: usize) -> (r: Vec<Finding>)
    requires
        dex.wf(),
        idx.deep_view().wf(),
        idx.deep_view().methods.len() == dex.deep_view().methods().len(),
    ensures
        r.deep_view() == inconsistent(dex.deep_view(), idx.deep_view(), min_guarded),
{
    let ghost d = dex.deep_view();
    let ghost v = idx.deep_view();
    let threads = concurrent_methods(dex, idx);
    let raws = collect(dex, idx);
    let ghost rv = raws.deep_view();
    let mut rest = sort::reversed(raws);
    let mut groups: Dict<Vec<Raw>> = Dict::new();
    let ghost mut k: int = 0;
    while rest.len() > 0
        invariant
            0 <= k <= rv.len(),
            rest.deep_view() == rv.skip(k).reverse(),
            groups.wf(),
            grouped(rv, 0, DictV::none()) == grouped(rv, k, groups@),
        decreases rest@.len(),
    {
        let ghost av = rest.deep_view();
        proof {
            assert(av.len() == rest@.len());
            assert(av[av.len() - 1] == rv[k]);
        }
        match rest.pop() {
            None => {},
            Some(x) => {
                proof {
                    assert(x.deep_view() == rv[k]);
                    assert(rest.deep_view() =~= av.drop_last());
                    assert(av.drop_last() =~= rv.skip(k + 1).reverse());
                }
                let field = x.field.dup();
                groups.push_to(field.as_str(), x);
                proof {
                    k = k + 1;
                }
            },
        }
    }
    let ghost g = groups@;
    proof {
        lemma_grouped_known(rv, 0, DictV::none(), v);
        assert(g == grouped(rv, 0, DictV::none()));
    }
    let mut out: Vec<Finding> = values::empty();
    let n = groups.len();
    let mut i: usize = 0;
    while i < n
        invariant
            i <= n,
            n == g.keys.len(),
            g == groups@,
            groups.wf(),
            dex.wf(),
            d == dex.deep_view(),
            v == idx.deep_view(),
            v.wf(),
            threads@.len() == v.methods.len(),
            forall|m: int|
                0 <= m < threads@.len() ==> #[trigger] threads@[m] == is_concurrent(d, v, m),
            forall|f: Seq<char>| #[trigger] g.get(f) matches Some(l) ==> all_known(l, v),
            judged_from(d, v, min_guarded, g, 0, Seq::empty()) == judged_from(
                d,
                v,
                min_guarded,
                g,
                i as int,
                out.deep_view(),
            ),
        decreases n - i,
    {
        let field = groups.key_at(i);
        let rs = groups.val_at(i);
        proof {
            assert(g.get(g.keys[i as int]) == Some(rs.deep_view()));
        }
        match judge(dex, idx, min_guarded, field, rs, &threads) {
            Some(f) => {
                values::push(&mut out, f);
            },
            None => {},
        }
        i += 1;
    }
    out
}

fn is_threatened(f: &Finding) -> (r: bool)
    ensures
        r == threatened(f.deep_view()),
{
    let ghost uv = f.unguarded.deep_view();
    let mut k: usize = 0;
    while k < f.unguarded.len()
        invariant
            k <= f.unguarded@.len(),
            uv == f.unguarded.deep_view(),
            forall|i: int| 0 <= i < k ==> !(#[trigger] uv[i]).concurrent,
        decreases f.unguarded@.len() - k,
    {
        proof {
            assert(uv[k as int] == f.unguarded@[k as int].deep_view());
        }
        if f.unguarded[k].concurrent {
            proof {
                assert(f.deep_view().unguarded[k as int].concurrent);
            }
            return true;
        }
        k += 1;
    }
    false
}

fn stronger_first(a: &Finding, b: &Finding) -> (r: bool)
    ensures
        r == stronger()(a.deep_view(), b.deep_view()),
{
    let ta = is_threatened(a);
    let tb = is_threatened(b);
    if ta != tb {
        ta
    } else if a.guarded != b.guarded {
        a.guarded > b.guarded
    } else if a.unguarded.len() != b.unguarded.len() {
        a.unguarded.len() < b.unguarded.len()
    } else {
        text::str_le(a.field.as_str(), b.field.as_str())
    }
}

/// How many guarded accesses a finding shows: a handful is enough evidence to read, and
/// the counts carry the rest.
pub const MAX_EXAMPLES: usize = 5;

/// The guarded accesses that a finding shows.
pub open spec fn examples_of(f: FindingV) -> Seq<AccessV> {
    if f.guarded_at.len() <= MAX_EXAMPLES {
        f.guarded_at
    } else {
        f.guarded_at.take(MAX_EXAMPLES as int)
    }
}

/// The first guarded accesses of a finding, as examples of the discipline.
pub fn examples(f: &Finding) -> (r: Vec<&Access>)
    ensures
        r.deep_view() == examples_of(f.deep_view()),
{
    let ghost v = f.deep_view();
    let mut out: Vec<&Access> = Vec::new();
    let mut k: usize = 0;
    while k < f.guarded_at.len() && k < MAX_EXAMPLES
        invariant
            k <= f.guarded_at@.len(),
            k <= MAX_EXAMPLES,
            v == f.deep_view(),
            out.deep_view() == v.guarded_at.take(k as int),
        decreases f.guarded_at@.len() - k,
    {
        proof {
            assert(v.guarded_at[k as int] == f.guarded_at@[k as int].deep_view());
        }
        let ghost before = out.deep_view();
        out.push(&f.guarded_at[k]);
        k += 1;
        proof {
            assert(out.deep_view() =~= before.push(v.guarded_at[k - 1]));
            assert(v.guarded_at.take(k as int) =~= before.push(v.guarded_at[k - 1]));
        }
    }
    proof {
        if v.guarded_at.len() <= MAX_EXAMPLES {
            assert(v.guarded_at.take(k as int) =~= v.guarded_at);
        }
    }
    out
}

/// Of the fields with an inconsistent discipline those whose discipline is established,
/// strongest evidence first. Whether the guard is held at a large enough share of the
/// accesses is given for each field.
pub fn races(found: Vec<Finding>, established: &Vec<bool>) -> (r: Vec<Finding>)
    requires
        established@.len() == found@.len(),
    ensures
        r.deep_view() == sort::sorted(
            kept(found.deep_view(), established@, 0, Seq::empty()),
            stronger(),
        ),
{
    let ghost fv = found.deep_view();
    let n = found.len();
    let mut rest = sort::reversed(found);
    let mut out: Vec<Finding> = values::empty();
    let mut k: usize = 0;
    while rest.len() > 0
        invariant
            k <= n,
            n == fv.len(),
            established@.len() == n,
            rest.deep_view() == fv.skip(k as int).reverse(),
            kept(fv, established@, 0, Seq::empty()) == kept(
                fv,
                established@,
                k as int,
                out.deep_view(),
            ),
        decreases rest@.len(),
    {
        let ghost av = rest.deep_view();
        proof {
            assert(av.len() == rest@.len());
            assert(av[av.len() - 1] == fv[k as int]);
        }
        match rest.pop() {
            None => {},
            Some(x) => {
                proof {
                    assert(x.deep_view() == fv[k as int]);
                    assert(rest.deep_view() =~= av.drop_last());
                    assert(av.drop_last() =~= fv.skip(k + 1).reverse());
                }
                if established[k] {
                    values::push(&mut out, x);
                }
                k += 1;
            },
        }
    }
    sort::sort_by(out, &stronger_first, Ghost(stronger()))
}

/// The index of the program and its fields with an inconsistent locking discipline;
/// nothing where the program is too large for an index.
pub fn survey(dex: &Dex, opts: &Options) -> (r: Option<Vec<Finding>>)
    requires
        dex.wf(),
    ensures
        match r {
            Some(fs) => whole::built(dex.deep_view(), opts.ctx).wf() && fs.deep_view()
                == inconsistent(
                dex.deep_view(),
                whole::built(dex.deep_view(), opts.ctx),
                opts.min_guarded,
            ),
            None => !whole::built(dex.deep_view(), opts.ctx).wf(),
        },
{
    let idx = ctx::build(dex, &opts.ctx);
    if idx.is_consistent() {
        Some(disciplines(dex, &idx, opts.min_guarded))
    } else {
        None
    }
}

/// The access stands in a method that is neither a constructor nor a static initializer.
pub open spec fn published(d: DexV, v: IndexV, a: AccessV) -> bool {
    exists|m: u32|
        a.method == v.methods[m as int].key && !initializes(#[trigger] d.methods()[m as int])
}

/// What every finding says.
pub open spec fn grounded(d: DexV, v: IndexV, min_guarded: usize, f: FindingV) -> bool {
    &&& !d.final_or_volatile_fields.contains(f.field)
    &&& f.guarded >= min_guarded
    &&& f.guarded_at.len() <= usize::MAX ==> f.guarded == f.guarded_at.len()
    &&& f.unguarded.len() > 0
    &&& forall|i: int| 0 <= i < f.unguarded.len() ==> (#[trigger] f.unguarded[i]).write
    &&& forall|i: int| 0 <= i < f.unguarded.len() ==> (#[trigger] f.unguarded[i]).held.len() == 0
    &&& forall|i: int|
        0 <= i < f.guarded_at.len() ==> (#[trigger] f.guarded_at[i]).held.contains(f.guard)
    &&& forall|i: int| 0 <= i < f.unguarded.len() ==> published(d, v, #[trigger] f.unguarded[i])
    &&& forall|i: int| 0 <= i < f.guarded_at.len() ==> published(d, v, #[trigger] f.guarded_at[i])
}

/// An access that no path locks holds nothing, and none is in an initializer.
pub open spec fn honest(ms: Seq<MethodV>, rs: Seq<RawV>) -> bool {
    &&& forall|i: int| 0 <= i < rs.len() && (#[trigger] rs[i]).unlocked ==> rs[i].held.len() == 0
    &&& forall|i: int| 0 <= i < rs.len() ==> !initializes(ms[(#[trigger] rs[i]).method as int])
}

proof fn lemma_guarded_count(
    d: DexV,
    v: IndexV,
    rs: Seq<RawV>,
    guard: Seq<char>,
    k: int,
    acc: Seq<AccessV>,
)
    requires
        0 <= k,
    ensures
        guarded_from(d, v, rs, guard, k, acc).len() == acc.len() + held_at(rs, guard, k),
    decreases rs.len() - k,
{
    if k < rs.len() {
        let next = if rs[k].held.contains(guard) {
            acc.push(shown(d, v, rs[k]))
        } else {
            acc
        };
        lemma_guarded_count(d, v, rs, guard, k + 1, next);
    }
}

proof fn lemma_most_held(
    rs: Seq<RawV>,
    locks: Seq<Seq<char>>,
    k: int,
    best: Option<(Seq<char>, nat)>,
)
    requires
        0 <= k,
        best matches Some((name, n)) ==> n == held_at(rs, name, 0),
    ensures
        most_held(rs, locks, k, best) matches Some((name, n)) ==> n == held_at(rs, name, 0),
    decreases locks.len() - k,
{
    if k < locks.len() {
        let name = locks[k];
        let n = held_at(rs, name, 0);
        let next = match best {
            None => Some((name, n)),
            Some((bn, b)) => if n > b || n == b && text::lex_le(name, bn) {
                Some((name, n))
            } else {
                best
            },
        };
        lemma_most_held(rs, locks, k + 1, next);
    }
}

proof fn lemma_unguarded(d: DexV, v: IndexV, rs: Seq<RawV>, k: int, acc: Seq<AccessV>)
    requires
        0 <= k,
        honest(d.methods(), rs),
        forall|i: int|
            0 <= i < acc.len() ==> (#[trigger] acc[i]).write && acc[i].held.len() == 0
                && published(d, v, acc[i]),
    ensures
        ({
            let r = unguarded_from(d, v, rs, k, acc);
            forall|i: int|
                0 <= i < r.len() ==> (#[trigger] r[i]).write && r[i].held.len() == 0 && published(
                    d,
                    v,
                    r[i],
                )
        }),
    decreases rs.len() - k,
{
    if k < rs.len() {
        let next = if rs[k].write && rs[k].unlocked {
            acc.push(shown(d, v, rs[k]))
        } else {
            acc
        };
        assert(!initializes(d.methods()[rs[k].method as int]));
        assert(published(d, v, shown(d, v, rs[k])));
        lemma_unguarded(d, v, rs, k + 1, next);
        assert(unguarded_from(d, v, rs, k, acc) == unguarded_from(d, v, rs, k + 1, next));
    }
}

proof fn lemma_guarded(
    d: DexV,
    v: IndexV,
    rs: Seq<RawV>,
    guard: Seq<char>,
    k: int,
    acc: Seq<AccessV>,
)
    requires
        0 <= k,
        honest(d.methods(), rs),
        forall|i: int|
            0 <= i < acc.len() ==> (#[trigger] acc[i]).held.contains(guard) && published(
                d,
                v,
                acc[i],
            ),
    ensures
        ({
            let r = guarded_from(d, v, rs, guard, k, acc);
            forall|i: int|
                0 <= i < r.len() ==> (#[trigger] r[i]).held.contains(guard) && published(
                    d,
                    v,
                    r[i],
                )
        }),
    decreases rs.len() - k,
{
    if k < rs.len() {
        let next = if rs[k].held.contains(guard) {
            acc.push(shown(d, v, rs[k]))
        } else {
            acc
        };
        assert(!initializes(d.methods()[rs[k].method as int]));
        assert(published(d, v, shown(d, v, rs[k])));
        lemma_guarded(d, v, rs, guard, k + 1, next);
        assert(guarded_from(d, v, rs, guard, k, acc) == guarded_from(
            d,
            v,
            rs,
            guard,
            k + 1,
            next,
        ));
    }
}

proof fn lemma_judged(
    d: DexV,
    v: IndexV,
    min_guarded: usize,
    g: DictV<Seq<RawV>>,
    k: int,
    acc: Seq<FindingV>,
)
    requires
        0 <= k,
        g.wf(),
        forall|f: Seq<char>| #[trigger] g.get(f) matches Some(l) ==> honest(d.methods(), l),
        forall|i: int| 0 <= i < acc.len() ==> grounded(d, v, min_guarded, #[trigger] acc[i]),
    ensures
        forall|i: int|
            0 <= i < judged_from(d, v, min_guarded, g, k, acc).len() ==> grounded(
                d,
                v,
                min_guarded,
                #[trigger] judged_from(d, v, min_guarded, g, k, acc)[i],
            ),
    decreases g.keys.len() - k,
{
    if k < g.keys.len() {
        let field = g.keys[k];
        assert(g.keys.contains(field));
        let rs = g.get(field)->0;
        assert(g.map.contains_key(field));
        assert(honest(d.methods(), rs));
        let next = match judged(d, v, min_guarded, field, rs) {
            Some(f) => acc.push(f),
            None => acc,
        };
        lemma_unguarded(d, v, rs, 0, Seq::empty());
        match judged(d, v, min_guarded, field, rs) {
            Some(f) => {
                lemma_guarded(d, v, rs, f.guard, 0, Seq::empty());
                lemma_guarded_count(d, v, rs, f.guard, 0, Seq::empty());
                lemma_most_held(rs, locks_from(rs, 0, Seq::empty()), 0, None);
                assert(grounded(d, v, min_guarded, f));
            },
            None => {},
        }
        lemma_judged(d, v, min_guarded, g, k + 1, next);
        assert(judged_from(d, v, min_guarded, g, k, acc) == judged_from(
            d,
            v,
            min_guarded,
            g,
            k + 1,
            next,
        ));
    }
}

proof fn lemma_grouped_honest(
    ms: Seq<MethodV>,
    rs: Seq<RawV>,
    k: int,
    acc: DictV<Seq<RawV>>,
)
    requires
        0 <= k,
        honest(ms, rs),
        acc.wf(),
        forall|f: Seq<char>| #[trigger] acc.get(f) matches Some(l) ==> honest(ms, l),
    ensures
        grouped(rs, k, acc).wf(),
        forall|f: Seq<char>| #[trigger] grouped(rs, k, acc).get(f) matches Some(l) ==> honest(ms, l),
    decreases rs.len() - k,
{
    if k < rs.len() {
        let field = rs[k].field;
        let next = dict::put_more(acc, field, rs[k]);
        assert forall|f: Seq<char>| #[trigger] next.get(f) matches Some(l) implies honest(
            ms,
            next.get(f)->0,
        ) by {
            if f == field {
                let old = dict::list_at(acc, f);
                assert(next.get(f) == Some(old.push(rs[k])));
                assert(acc.get(f) is Some ==> honest(ms, old));
                let l = old.push(rs[k]);
                assert forall|i: int| 0 <= i < l.len() && (
                #[trigger] l[i]).unlocked implies l[i].held.len() == 0 by {
                    if i < old.len() {
                        assert(old[i].unlocked);
                    }
                }
                assert forall|i: int| 0 <= i < l.len() implies !initializes(
                    ms[(#[trigger] l[i]).method as int],
                ) by {
                    if i < old.len() {
                        assert(l[i] == old[i]);
                    }
                }
            } else {
                assert(next.get(f) == acc.get(f));
            }
        }
        names::lemma_with(acc.keys, field);
        assert(next.wf()) by {
            assert forall|x: Seq<char>| #[trigger]
                next.map.contains_key(x) <==> next.keys.contains(x) by {
                assert(acc.map.contains_key(x) <==> acc.keys.contains(x));
            }
        }
        lemma_grouped_honest(ms, rs, k + 1, next);
        assert(grouped(rs, k, acc) == grouped(rs, k + 1, next));
    }
}

proof fn lemma_forwarded_honest(
    v: IndexV,
    ms: Seq<MethodV>,
    name: Seq<char>,
    write: bool,
    i: int,
    end: int,
    acc: Seq<RawV>,
)
    requires
        honest(ms, acc),
    ensures
        honest(ms, forwarded(v, ms, name, write, i, end, acc)),
    decreases end - i,
{
    if i < end {
        let c = v.calls[v.callers[i] as int];
        let held = lock_names(v, c.held, 0, Seq::empty());
        let next = if initializes(ms[c.caller as int]) {
            acc
        } else {
            acc.push(
                RawV {
                    field: name,
                    method: c.caller,
                    line: Some(c.line),
                    write,
                    held,
                    unlocked: v.row(c.caller).len() == 0 && held.len() == 0,
                },
            )
        };
        assert(honest(ms, next));
        lemma_forwarded_honest(v, ms, name, write, i + 1, end, next);
        assert(forwarded(v, ms, name, write, i, end, acc) == forwarded(
            v,
            ms,
            name,
            write,
            i + 1,
            end,
            next,
        ));
    }
}

proof fn lemma_raws_in_honest(
    v: IndexV,
    ms: Seq<MethodV>,
    m: MethodV,
    id: u32,
    es: Seq<EventV>,
    k: int,
    acc: Seq<RawV>,
)
    requires
        0 <= k,
        !initializes(ms[id as int]),
        honest(ms, acc),
    ensures
        honest(ms, raws_in(v, ms, m, id, es, k, acc)),
    decreases es.len() - k,
{
    if k < es.len() {
        match es[k] {
            EventV::Field { class, field, write, held, line } => {
                let name = class + "."@ + field;
                if is_forwarder(m) {
                    let a = v.caller_off[id as int] as int;
                    let b = v.caller_off[id + 1] as int;
                    lemma_forwarded_honest(v, ms, name, write, a, b, acc);
                    let next = forwarded(v, ms, name, write, a, b, acc);
                    lemma_raws_in_honest(v, ms, m, id, es, k + 1, next);
                } else {
                    let clear = binder::clear_names(held);
                    let next = acc.push(
                        RawV {
                            field: name,
                            method: id,
                            line,
                            write,
                            held: clear,
                            unlocked: v.row(id).len() == 0 && clear.len() == 0,
                        },
                    );
                    assert(honest(ms, next));
                    lemma_raws_in_honest(v, ms, m, id, es, k + 1, next);
                }
            },
            _ => {
                lemma_raws_in_honest(v, ms, m, id, es, k + 1, acc);
            },
        }
    }
}

proof fn lemma_raws_honest(
    v: IndexV,
    ms: Seq<MethodV>,
    fx: EffectsV,
    entry: DictV<Seq<LockV>>,
    k: int,
    acc: Seq<RawV>,
)
    requires
        0 <= k,
        ms.len() <= u32::MAX,
        honest(ms, acc),
    ensures
        honest(ms, raws_from(v, ms, fx, entry, k, acc)),
    decreases ms.len() - k,
{
    if k < ms.len() {
        let es = flow::events(ms[k], fx, dict::list_at(entry, ms[k].key()));
        if initializes(ms[k]) {
            lemma_raws_honest(v, ms, fx, entry, k + 1, acc);
        } else {
            lemma_raws_in_honest(v, ms, ms[k], k as u32, es, 0, acc);
            lemma_raws_honest(
                v,
                ms,
                fx,
                entry,
                k + 1,
                raws_in(v, ms, ms[k], k as u32, es, 0, acc),
            );
        }
    }
}

/// Every finding names a field that is neither final nor volatile, a lock that is held at
/// enough accesses and at each access given as evidence, and at least one write; every
/// write that it reports holds no lock; and nothing that it rests on is in a constructor or a
/// static initializer, nor in an accessor that one calls.
pub proof fn law_findings_are_grounded(d: DexV, v: IndexV, min_guarded: usize, i: int)
    requires
        d.methods().len() <= u32::MAX,
        0 <= i < inconsistent(d, v, min_guarded).len(),
    ensures
        grounded(d, v, min_guarded, inconsistent(d, v, min_guarded)[i]),
{
    lemma_raws_honest(
        v,
        d.methods(),
        flow::all_effects(d),
        flow::held_on_entry(d, false),
        0,
        Seq::empty(),
    );
    let rs = accesses(d, v);
    lemma_grouped_honest(d.methods(), rs, 0, DictV::none());
    lemma_judged(d, v, min_guarded, grouped(rs, 0, DictV::none()), 0, Seq::empty());
}

} // verus!

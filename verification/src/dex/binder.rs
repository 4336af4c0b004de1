//! Binder-call-while-locked: flag a (potentially blocking) binder transaction made
//! while holding a lock — a classic system_server ANR / lock-inversion source.
//!
//! A binder call is recognized structurally: an invoke of `IBinder.transact`, an
//! invoke of a method whose body performs one (the generated client proxy), or an
//! invoke of a method on an AIDL interface (a type transitively extending
//! `android.os.IInterface`) — that is the client surface whose call does a
//! synchronous transact. The held-lock set is tracked exactly as elsewhere
//! (monitor-enter/exit, `Lock.lock/unlock`), so a finding is a lock demonstrably held
//! across a binder call.

use crate::dex::flow;
use crate::dex::flow::{EffectsV, Event, EventV};
use crate::dex::hierarchy;
use crate::dex::hierarchy::Hierarchy;
use crate::dex::model::{ClassV, Dex, DexV, Invoke, InvokeKind, InvokeV, Lock, LockV, Method, MethodV, Op, OpV};
use crate::dict;
use crate::dict::DictV;
use crate::names;
use crate::names::Names;
use crate::sort;
use crate::text;
use crate::values;
use crate::values::Dup;
use vstd::prelude::*;

verus! {

/// A binder call made while holding a lock.
#[derive(Debug)]
pub struct Finding {
    pub method: String,
    pub file: Option<String>,
    pub line: Option<u32>,
    pub held: Vec<String>,
    pub callee: String,
}

/// What a finding holds.
pub struct FindingV {
    pub method: Seq<char>,
    pub file: Option<Seq<char>>,
    pub line: Option<u32>,
    pub held: Seq<Seq<char>>,
    pub callee: Seq<char>,
}

impl DeepView for Finding {
    type V = FindingV;

    open spec fn deep_view(&self) -> FindingV {
        FindingV {
            method: self.method@,
            file: self.file.deep_view(),
            line: self.line,
            held: self.held.deep_view(),
            callee: self.callee@,
        }
    }
}

/// The low-level binder transaction itself.
pub open spec fn transacts(inv: InvokeV) -> bool {
    (inv.class == "android.os.IBinder"@ || inv.class == "android.os.BinderProxy"@) && text::begins(
        inv.name,
        "transact"@,
    )
}

/// The body performs a transaction.
pub open spec fn has_transact(m: MethodV) -> bool {
    exists|k: int|
        0 <= k < m.insns.len() && (#[trigger] m.insns[k].op matches OpV::Invoke(inv) && transacts(
            inv,
        ))
}

/// The keys of the methods from the `k`th on whose body performs a transaction, behind
/// `acc`.
pub open spec fn transacting(ms: Seq<MethodV>, k: int, acc: Seq<Seq<char>>) -> Seq<Seq<char>>
    decreases ms.len() - k,
{
    if k >= ms.len() {
        acc
    } else {
        transacting(
            ms,
            k + 1,
            if has_transact(ms[k]) {
                names::with(acc, ms[k].key())
            } else {
                acc
            },
        )
    }
}

/// The class is `android.os.IInterface` or stands below it.
pub open spec fn is_aidl(cs: Seq<ClassV>, c: Seq<char>) -> bool {
    c == "android.os.IInterface"@ || hierarchy::ancestors(cs, c).contains(
        "android.os.IInterface"@,
    )
}

/// The AIDL classes among those from the `k`th on, behind `acc`.
pub open spec fn aidl_from(cs: Seq<ClassV>, k: int, acc: Seq<Seq<char>>) -> Seq<Seq<char>>
    decreases cs.len() - k,
{
    if k >= cs.len() {
        acc
    } else {
        aidl_from(
            cs,
            k + 1,
            if is_aidl(cs, cs[k].descriptor) {
                names::with(acc, cs[k].descriptor)
            } else {
                acc
            },
        )
    }
}

/// A remote binder call: the transaction itself, a call of a method that performs one,
/// or a call dispatched through an AIDL interface type. A service that invokes its own
/// helper does so on the concrete class, which is a local call. Constructors and the
/// non-transacting plumbing of `IInterface` never count.
pub open spec fn calls_binder(
    inv: InvokeV,
    ifaces: Seq<Seq<char>>,
    proxies: Seq<Seq<char>>,
) -> bool {
    if transacts(inv) {
        true
    } else if text::begins(inv.name, "<"@) || inv.name == "asBinder"@ || inv.name
        == "getInterfaceDescriptor"@ {
        false
    } else {
        proxies.contains(inv.key()) || inv.kind == InvokeKind::Interface && ifaces.contains(
            inv.class,
        )
    }
}

/// The names of the locks from the `k`th on, behind `acc`.
pub open spec fn lock_names(ls: Seq<LockV>, k: int, acc: Seq<Seq<char>>) -> Seq<Seq<char>>
    decreases ls.len() - k,
{
    if k >= ls.len() {
        acc
    } else {
        lock_names(ls, k + 1, acc.push(ls[k].name()))
    }
}

/// The names of the locks that do not escape the analysis.
pub open spec fn clear_names(ls: Seq<LockV>) -> Seq<Seq<char>> {
    lock_names(flow::clear(ls, 0, Seq::empty()), 0, Seq::empty())
}

/// The binder calls under a lock among the events from the `k`th on, behind `acc`.
pub open spec fn found_in(
    m: MethodV,
    es: Seq<EventV>,
    ifaces: Seq<Seq<char>>,
    proxies: Seq<Seq<char>>,
    k: int,
    acc: Seq<FindingV>,
) -> Seq<FindingV>
    decreases es.len() - k,
{
    if k >= es.len() {
        acc
    } else {
        found_in(
            m,
            es,
            ifaces,
            proxies,
            k + 1,
            match es[k] {
                EventV::Call { inv, held, line, at } => if calls_binder(inv, ifaces, proxies)
                    && clear_names(held).len() > 0 {
                    acc.push(
                        FindingV {
                            method: m.key(),
                            file: m.source_file,
                            line,
                            held: clear_names(held),
                            callee: inv.class + "."@ + inv.name,
                        },
                    )
                } else {
                    acc
                },
                _ => acc,
            },
        )
    }
}

/// The findings of the methods from the `k`th on, behind `acc`.
pub open spec fn found_from(
    ms: Seq<MethodV>,
    fx: EffectsV,
    entry: DictV<Seq<LockV>>,
    ifaces: Seq<Seq<char>>,
    proxies: Seq<Seq<char>>,
    k: int,
    acc: Seq<FindingV>,
) -> Seq<FindingV>
    decreases ms.len() - k,
{
    if k >= ms.len() {
        acc
    } else {
        let es = flow::events(ms[k], fx, dict::list_at(entry, ms[k].key()));
        found_from(
            ms,
            fx,
            entry,
            ifaces,
            proxies,
            k + 1,
            found_in(ms[k], es, ifaces, proxies, 0, acc),
        )
    }
}

/// No line before any line, and lines by number.
pub open spec fn line_le(a: Option<u32>, b: Option<u32>) -> bool {
    match (a, b) {
        (None, _) => true,
        (Some(_), None) => false,
        (Some(x), Some(y)) => x <= y,
    }
}

/// Findings stand by method, then by line, then by callee.
pub open spec fn finding_le() -> spec_fn(FindingV, FindingV) -> bool {
    |a: FindingV, b: FindingV|
        if a.method != b.method {
            text::lex_le(a.method, b.method)
        } else if a.line != b.line {
            line_le(a.line, b.line)
        } else {
            text::lex_le(a.callee, b.callee)
        }
}

/// Every binder call made while a lock is held.
pub open spec fn found(d: DexV, closed_world: bool) -> Seq<FindingV> {
    sort::sorted(
        found_from(
            d.methods(),
            flow::all_effects(d),
            flow::held_on_entry(d, closed_world),
            aidl_from(d.classes, 0, Seq::empty()),
            transacting(d.methods(), 0, Seq::empty()),
            0,
            Seq::empty(),
        ),
        finding_le(),
    )
}

/// What an event of a method is flagged as.
pub open spec fn flagged(
    m: MethodV,
    e: EventV,
    ifaces: Seq<Seq<char>>,
    proxies: Seq<Seq<char>>,
) -> Option<FindingV> {
    match e {
        EventV::Call { inv, held, line, at } => if calls_binder(inv, ifaces, proxies)
            && clear_names(held).len() > 0 {
            Some(
                FindingV {
                    method: m.key(),
                    file: m.source_file,
                    line,
                    held: clear_names(held),
                    callee: inv.class + "."@ + inv.name,
                },
            )
        } else {
            None
        },
        _ => None,
    }
}

/// What happens in the `k`th method of a program.
pub open spec fn happens(d: DexV, closed_world: bool, k: int) -> Seq<EventV> {
    flow::events(
        d.methods()[k],
        flow::all_effects(d),
        dict::list_at(flow::held_on_entry(d, closed_world), d.methods()[k].key()),
    )
}

/// The `i`th event of the `k`th method is flagged as that.
pub open spec fn flags(d: DexV, closed_world: bool, k: int, i: int, f: FindingV) -> bool {
    &&& 0 <= k < d.methods().len()
    &&& 0 <= i < happens(d, closed_world, k).len()
    &&& flagged(
        d.methods()[k],
        happens(d, closed_world, k)[i],
        aidl_from(d.classes, 0, Seq::empty()),
        transacting(d.methods(), 0, Seq::empty()),
    ) == Some(f)
}

/// The findings are exactly the binder calls at which a lock is held: each is one, and none
/// is missed.
pub proof fn law_findings_are_binder_calls_under_a_lock(
    d: DexV,
    closed_world: bool,
    f: FindingV,
)
    ensures
        found(d, closed_world).contains(f) <==> exists|k: int, i: int|
            flags(d, closed_world, k, i, f),
        found(d, closed_world).contains(f) ==> f.held.len() > 0,
{
    let ms = d.methods();
    let fx = flow::all_effects(d);
    let entry = flow::held_on_entry(d, closed_world);
    let ifaces = aidl_from(d.classes, 0, Seq::empty());
    let proxies = transacting(ms, 0, Seq::empty());
    let all = found_from(ms, fx, entry, ifaces, proxies, 0, Seq::empty());
    text::lemma_lex_order();
    sort::lemma_sorted_contains(all, finding_le(), f);
    lemma_found_from(d, closed_world, 0, Seq::empty(), f);
}

proof fn lemma_found_from(d: DexV, closed_world: bool, k: int, acc: Seq<FindingV>, f: FindingV)
    requires
        0 <= k,
    ensures
        found_from(
            d.methods(),
            flow::all_effects(d),
            flow::held_on_entry(d, closed_world),
            aidl_from(d.classes, 0, Seq::empty()),
            transacting(d.methods(), 0, Seq::empty()),
            k,
            acc,
        ).contains(f) <==> acc.contains(f) || exists|j: int, i: int|
            k <= j && flags(d, closed_world, j, i, f),
    decreases d.methods().len() - k,
{
    let ms = d.methods();
    if k < ms.len() {
        let ifaces = aidl_from(d.classes, 0, Seq::empty());
        let proxies = transacting(ms, 0, Seq::empty());
        let es = happens(d, closed_world, k);
        let next = found_in(ms[k], es, ifaces, proxies, 0, acc);
        lemma_found_in(ms[k], es, ifaces, proxies, 0, acc, f);
        lemma_found_from(d, closed_world, k + 1, next, f);
        if exists|i: int|
            0 <= i < es.len() && #[trigger] flagged(ms[k], es[i], ifaces, proxies) == Some(f) {
            let i = choose|i: int|
                0 <= i < es.len() && #[trigger] flagged(ms[k], es[i], ifaces, proxies) == Some(f);
            assert(flags(d, closed_world, k, i, f));
        }
        if exists|j: int, i: int| k <= j && flags(d, closed_world, j, i, f) {
            let (j, i) = choose|j: int, i: int| k <= j && flags(d, closed_world, j, i, f);
            if j == k {
                assert(flagged(ms[k], es[i], ifaces, proxies) == Some(f));
            } else {
                assert(k + 1 <= j && flags(d, closed_world, j, i, f));
            }
        }
    }
}

proof fn lemma_found_in(
    m: MethodV,
    es: Seq<EventV>,
    ifaces: Seq<Seq<char>>,
    proxies: Seq<Seq<char>>,
    k: int,
    acc: Seq<FindingV>,
    f: FindingV,
)
    requires
        0 <= k,
    ensures
        found_in(m, es, ifaces, proxies, k, acc).contains(f) <==> acc.contains(f) || exists|i: int|
            k <= i < es.len() && #[trigger] flagged(m, es[i], ifaces, proxies) == Some(f),
    decreases es.len() - k,
{
    if k < es.len() {
        let here = flagged(m, es[k], ifaces, proxies);
        let next = match here {
            Some(x) => acc.push(x),
            None => acc,
        };
        assert(found_in(m, es, ifaces, proxies, k, acc) == found_in(
            m,
            es,
            ifaces,
            proxies,
            k + 1,
            next,
        ));
        lemma_found_in(m, es, ifaces, proxies, k + 1, next, f);
        assert(next.contains(f) <==> acc.contains(f) || here == Some(f)) by {
            if acc.contains(f) {
                let i = choose|i: int| 0 <= i < acc.len() && acc[i] == f;
                assert(next[i] == f);
            }
            if here == Some(f) {
                assert(next[next.len() - 1] == f);
            }
            if next.contains(f) {
                let i = choose|i: int| 0 <= i < next.len() && next[i] == f;
                if i < acc.len() {
                    assert(acc[i] == f);
                }
            }
        }
    }
}

/// True if this invoke is the low-level binder transaction itself.
pub fn is_transact(inv: &Invoke) -> (r: bool)
    ensures
        r == transacts(inv.deep_view()),
{
    (text::str_eq(inv.class.as_str(), "android.os.IBinder") || text::str_eq(
        inv.class.as_str(),
        "android.os.BinderProxy",
    )) && text::starts_with(inv.name.as_str(), "transact")
}

/// The body performs a binder transaction.
pub fn does_transact(m: &Method) -> (r: bool)
    ensures
        r == has_transact(m.deep_view()),
{
    let ghost mv = m.deep_view();
    let mut k: usize = 0;
    while k < m.insns.len()
        invariant
            k <= m.insns@.len(),
            mv == m.deep_view(),
            forall|i: int|
                0 <= i < k ==> !(#[trigger] mv.insns[i].op matches OpV::Invoke(inv) && transacts(
                    inv,
                )),
        decreases m.insns@.len() - k,
    {
        proof {
            assert(mv.insns[k as int] == m.insns@[k as int].deep_view());
        }
        match &m.insns[k].op {
            Op::Invoke(inv) => if is_transact(inv) {
                proof {
                    assert(mv.insns[k as int].op == OpV::Invoke(inv.deep_view()));
                }
                return true;
            },
            _ => {},
        }
        k += 1;
    }
    false
}

/// Methods whose body performs a binder transaction — the generated client proxies,
/// found by what they do rather than by what they are called.
pub fn transacting_methods(dex: &Dex) -> (r: Names)
    ensures
        r.wf(),
        r@ == transacting(dex.deep_view().methods(), 0, Seq::empty()),
{
    let ms = dex.methods();
    let ghost mv = ms.deep_view();
    let mut out = Names::new();
    let mut k: usize = 0;
    while k < ms.len()
        invariant
            k <= ms@.len(),
            mv == ms.deep_view(),
            out.wf(),
            transacting(mv, 0, Seq::empty()) == transacting(mv, k as int, out@),
        decreases ms@.len() - k,
    {
        proof {
            assert(mv[k as int] == ms@[k as int].deep_view());
        }
        if does_transact(ms[k]) {
            out.intern(ms[k].key().as_str());
        }
        k += 1;
    }
    out
}

/// Classes that transitively extend `android.os.IInterface` — the AIDL surface.
pub fn binder_interfaces(dex: &Dex) -> (r: Names)
    ensures
        r.wf(),
        r@ == aidl_from(dex.deep_view().classes, 0, Seq::empty()),
{
    let ghost cs = dex.classes.deep_view();
    let mut h = Hierarchy::new(dex);
    let mut out = Names::new();
    let mut k: usize = 0;
    while k < dex.classes.len()
        invariant
            k <= dex.classes@.len(),
            cs == dex.classes.deep_view(),
            h.wf(),
            h.of() == cs,
            out.wf(),
            aidl_from(cs, 0, Seq::empty()) == aidl_from(cs, k as int, out@),
        decreases dex.classes@.len() - k,
    {
        let c = dex.classes[k].descriptor.as_str();
        proof {
            assert(cs[k as int] == dex.classes@[k as int].deep_view());
        }
        if text::str_eq(c, "android.os.IInterface") || h.is_above(c, "android.os.IInterface") {
            out.intern(c);
        }
        k += 1;
    }
    out
}

/// True if this invoke is a *remote* binder call.
pub fn is_binder_call(inv: &Invoke, ifaces: &Names, proxies: &Names) -> (r: bool)
    requires
        ifaces.wf(),
        proxies.wf(),
    ensures
        r == calls_binder(inv.deep_view(), ifaces@, proxies@),
{
    let name = inv.name.as_str();
    if is_transact(inv) {
        return true;
    }
    if text::starts_with(name, "<") || text::str_eq(name, "asBinder") || text::str_eq(
        name,
        "getInterfaceDescriptor",
    ) {
        return false;
    }
    if proxies.contains(inv.key().as_str()) {
        return true;
    }
    inv.kind == InvokeKind::Interface && ifaces.contains(inv.class.as_str())
}

/// The names of the locks that do not escape the analysis.
pub fn held_names(ls: &Vec<Lock>) -> (r: Vec<String>)
    ensures
        r.deep_view() == clear_names(ls.deep_view()),
{
    let kept = flow::keep_clear(ls);
    let ghost kv = kept.deep_view();
    let mut out: Vec<String> = values::empty();
    let mut k: usize = 0;
    while k < kept.len()
        invariant
            k <= kept@.len(),
            kv == kept.deep_view(),
            lock_names(kv, 0, Seq::empty()) == lock_names(kv, k as int, out.deep_view()),
        decreases kept@.len() - k,
    {
        proof {
            assert(kv[k as int] == kept@[k as int].deep_view());
        }
        values::push(&mut out, kept[k].name());
        k += 1;
    }
    out
}

fn finding_in_order(a: &Finding, b: &Finding) -> (r: bool)
    ensures
        r == finding_le()(a.deep_view(), b.deep_view()),
{
    if !text::str_eq(a.method.as_str(), b.method.as_str()) {
        return text::str_le(a.method.as_str(), b.method.as_str());
    }
    match (a.line, b.line) {
        (None, None) => text::str_le(a.callee.as_str(), b.callee.as_str()),
        (None, Some(_)) => true,
        (Some(_), None) => false,
        (Some(x), Some(y)) => if x == y {
            text::str_le(a.callee.as_str(), b.callee.as_str())
        } else {
            x <= y
        },
    }
}

/// Find every binder call made while a lock is held. Held locks include those taken
/// intra-procedurally (monitor / `Lock.lock`) and those inferred to be held on entry
/// to a method, so a call in a `…Locked` helper whose lock is taken one frame up is
/// still caught. `closed_world` widens that inference past private methods to any
/// uniquely-signed one.
pub fn binder_under_lock(dex: &Dex, closed_world: bool) -> (r: Vec<Finding>)
    ensures
        r.deep_view() == found(dex.deep_view(), closed_world),
{
    let ms = dex.methods();
    let ghost mv = ms.deep_view();
    let ifaces = binder_interfaces(dex);
    let proxies = transacting_methods(dex);
    let entry = flow::entry_held(dex, closed_world);
    let fx = flow::effects(dex);
    let none: Vec<Lock> = values::empty();
    let mut out: Vec<Finding> = values::empty();
    let mut k: usize = 0;
    while k < ms.len()
        invariant
            k <= ms@.len(),
            mv == ms.deep_view(),
            ifaces.wf(),
            proxies.wf(),
            entry.wf(),
            fx.wf(),
            none.deep_view() == Seq::<LockV>::empty(),
            found_from(mv, fx@, entry@, ifaces@, proxies@, 0, Seq::empty()) == found_from(
                mv,
                fx@,
                entry@,
                ifaces@,
                proxies@,
                k as int,
                out.deep_view(),
            ),
        decreases ms@.len() - k,
    {
        let m = ms[k];
        proof {
            assert(mv[k as int] == ms@[k as int].deep_view());
        }
        let key = m.key();
        let seed = match entry.get(key.as_str()) {
            Some(l) => l,
            None => &none,
        };
        let es = flow::walk(m, seed, &fx);
        let ghost ev = es.deep_view();
        let ghost begin = out.deep_view();
        let mut j: usize = 0;
        while j < es.len()
            invariant
                j <= es@.len(),
                ev == es.deep_view(),
                ifaces.wf(),
                proxies.wf(),
                found_in(m.deep_view(), ev, ifaces@, proxies@, 0, begin) == found_in(
                    m.deep_view(),
                    ev,
                    ifaces@,
                    proxies@,
                    j as int,
                    out.deep_view(),
                ),
            decreases es@.len() - j,
        {
            proof {
                assert(ev[j as int] == es@[j as int].deep_view());
            }
            match &es[j] {
                Event::Call { inv, held, line, at } => {
                    if is_binder_call(inv, &ifaces, &proxies) {
                        let held = held_names(held);
                        if held.len() > 0 {
                            let f = Finding {
                                method: m.key(),
                                file: m.source_file.dup(),
                                line: *line,
                                held,
                                callee: text::cat3(inv.class.as_str(), ".", inv.name.as_str()),
                            };
                            values::push(&mut out, f);
                        }
                    }
                },
                _ => {},
            }
            j += 1;
        }
        k += 1;
    }
    sort::sort_by(out, &finding_in_order, Ghost(finding_le()))
}

} // verus!

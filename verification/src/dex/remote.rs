//! What counts as a remote call, and what the findings of the binder pass promise.

use crate::dex::binder;
use crate::dex::binder::FindingV;
use crate::dex::ctx::answers;
use crate::dex::flow;
use crate::dex::flow::EventV;
use crate::dex::hierarchy;
use crate::dex::model::{ClassV, DexV, InvokeKind, InvokeV, LockV, MethodV, OpV};
use crate::names;
use crate::text;
use crate::sort;
use vstd::prelude::*;

verus! {

/// The call is a transaction on a binder or on its proxy: of a method whose name is
/// `transact` and whatever may follow.
pub open spec fn is_transaction(inv: InvokeV) -> bool {
    &&& inv.class == "android.os.IBinder"@ || inv.class == "android.os.BinderProxy"@
    &&& exists|rest: Seq<char>| inv.name == #[trigger] ("transact"@ + rest)
}

/// A method of that key has a transaction in its body.
pub open spec fn transacts_inside(d: DexV, key: Seq<char>) -> bool {
    exists|m: int, k: int|
        #![trigger d.methods()[m].insns[k]]
        0 <= m < d.methods().len() && d.methods()[m].key() == key && 0 <= k
            < d.methods()[m].insns.len() && (d.methods()[m].insns[k].op matches OpV::Invoke(inv)
            && is_transaction(inv))
}

/// The program declares the class, and it is `android.os.IInterface` or stands below it.
pub open spec fn is_aidl_type(d: DexV, c: Seq<char>) -> bool {
    exists|k: int| 0 <= k < d.classes.len() && (#[trigger] d.classes[k]).descriptor == c && (c
        == "android.os.IInterface"@ || hierarchy::is_above(
        hierarchy::parents(d.classes),
        c,
        "android.os.IInterface"@,
    ))
}

/// The call goes to another process.
pub open spec fn is_remote(d: DexV, inv: InvokeV) -> bool {
    ||| is_transaction(inv)
    ||| {
        &&& !(exists|rest: Seq<char>| inv.name == #[trigger] ("<"@ + rest))
        &&& inv.name != "asBinder"@
        &&& inv.name != "getInterfaceDescriptor"@
        &&& transacts_inside(d, inv.key()) || (inv.kind == InvokeKind::Interface && is_aidl_type(
            d,
            inv.class,
        ))
    }
}

/// The names of the locks that have one, in the order in which they are held.
pub open spec fn named_locks(held: Seq<LockV>) -> Seq<Seq<char>> {
    held.filter(|l: LockV| !l.is_opaque()).map_values(|l: LockV| l.name())
}

/// The finding that the call of an event in a method makes, where it makes one.
pub open spec fn reports(d: DexV, m: MethodV, e: EventV, f: FindingV) -> bool {
    e matches EventV::Call { inv, held, line, at } && {
        &&& is_remote(d, inv)
        &&& exists|i: int| 0 <= i < held.len() && !(#[trigger] held[i]).is_opaque()
        &&& f.method == m.key()
        &&& f.file == m.source_file
        &&& f.line == line
        &&& f.held == named_locks(held)
        &&& f.callee == inv.class + "."@ + inv.name
    }
}

/// A text begins with another exactly where it is that and a rest.
pub proof fn lemma_begins(s: Seq<char>, p: Seq<char>)
    ensures
        text::begins(s, p) <==> exists|rest: Seq<char>| s == #[trigger] (p + rest),
{
    if text::begins(s, p) {
        let rest = s.skip(p.len() as int);
        assert(s =~= p + rest);
    }
    if exists|rest: Seq<char>| s == #[trigger] (p + rest) {
        let rest = choose|rest: Seq<char>| s == #[trigger] (p + rest);
        assert(s.take(p.len() as int) =~= p);
    }
}

proof fn lemma_transacts(inv: InvokeV)
    ensures
        binder::transacts(inv) <==> is_transaction(inv),
{
    lemma_begins(inv.name, "transact"@);
}

pub proof fn lemma_has_transact(m: MethodV)
    ensures
        binder::has_transact(m) <==> exists|k: int|
            0 <= k < m.insns.len() && (#[trigger] m.insns[k].op matches OpV::Invoke(inv)
                && is_transaction(inv)),
{
    assert forall|inv: InvokeV| binder::transacts(inv) <==> #[trigger] is_transaction(inv) by {
        lemma_transacts(inv);
    }
}

proof fn lemma_transacting(ms: Seq<MethodV>, k: int, acc: Seq<Seq<char>>, key: Seq<char>)
    requires
        0 <= k,
    ensures
        binder::transacting(ms, k, acc).contains(key) <==> acc.contains(key) || exists|m: int|
            k <= m < ms.len() && #[trigger] ms[m].key() == key && binder::has_transact(ms[m]),
    decreases ms.len() - k,
{
    if k < ms.len() {
        let next = if binder::has_transact(ms[k]) {
            names::with(acc, ms[k].key())
        } else {
            acc
        };
        names::lemma_with(acc, ms[k].key());
        lemma_transacting(ms, k + 1, next, key);
        assert(ms[k].key() == ms[k].key());
    }
}

/// The transacting methods are exactly those whose body has a transaction, by their keys.
pub proof fn law_transacting_methods_have_a_transaction(d: DexV, key: Seq<char>)
    ensures
        binder::transacting(d.methods(), 0, Seq::empty()).contains(key) <==> transacts_inside(d, key),
{
    let ms = d.methods();
    lemma_transacting(ms, 0, Seq::empty(), key);
    if exists|m: int| 0 <= m < ms.len() && #[trigger] ms[m].key() == key && binder::has_transact(ms[m]) {
        let m = choose|m: int|
            0 <= m < ms.len() && #[trigger] ms[m].key() == key && binder::has_transact(ms[m]);
        lemma_has_transact(ms[m]);
        let k = choose|k: int|
            0 <= k < ms[m].insns.len() && (#[trigger] ms[m].insns[k].op matches OpV::Invoke(inv)
                && is_transaction(inv));
        assert(d.methods()[m].insns[k].op is Invoke);
    }
    if transacts_inside(d, key) {
        let (m, k) = choose|m: int, k: int|
            #![trigger d.methods()[m].insns[k]]
            0 <= m < d.methods().len() && d.methods()[m].key() == key && 0 <= k
                < d.methods()[m].insns.len() && (d.methods()[m].insns[k].op matches OpV::Invoke(inv)
                && is_transaction(inv));
        lemma_has_transact(ms[m]);
        assert(ms[m].insns[k].op is Invoke);
        assert(ms[m].key() == key);
    }
}

proof fn lemma_aidl(cs: Seq<ClassV>, k: int, acc: Seq<Seq<char>>, c: Seq<char>)
    requires
        0 <= k,
    ensures
        binder::aidl_from(cs, k, acc).contains(c) <==> acc.contains(c) || exists|i: int|
            k <= i < cs.len() && (#[trigger] cs[i]).descriptor == c && binder::is_aidl(cs, c),
    decreases cs.len() - k,
{
    if k < cs.len() {
        let next = if binder::is_aidl(cs, cs[k].descriptor) {
            names::with(acc, cs[k].descriptor)
        } else {
            acc
        };
        names::lemma_with(acc, cs[k].descriptor);
        lemma_aidl(cs, k + 1, next, c);
        assert(cs[k].descriptor == cs[k].descriptor);
    }
}

/// The AIDL surface is exactly the declared types at or below `android.os.IInterface`.
pub proof fn law_aidl_types_stand_below_iinterface(d: DexV, c: Seq<char>)
    ensures
        binder::aidl_from(d.classes, 0, Seq::empty()).contains(c) <==> is_aidl_type(d, c),
{
    lemma_aidl(d.classes, 0, Seq::empty(), c);
    hierarchy::law_ancestors_are_all_above(d.classes, c);
}

/// A call is a binder call exactly where it goes to another process: a transaction whatever
/// the interfaces and the proxies are, and else, but for constructors and the plumbing of
/// `IInterface`, a call of a method that has a transaction in its body, or a call through an
/// AIDL interface type.
pub proof fn law_binder_calls_are_remote_calls(d: DexV, inv: InvokeV)
    ensures
        is_transaction(inv) ==> forall|ifaces: Seq<Seq<char>>, proxies: Seq<Seq<char>>| #[trigger]
            binder::calls_binder(inv, ifaces, proxies),
        binder::calls_binder(
            inv,
            binder::aidl_from(d.classes, 0, Seq::empty()),
            binder::transacting(d.methods(), 0, Seq::empty()),
        ) <==> is_remote(d, inv),
{
    lemma_transacts(inv);
    lemma_begins(inv.name, "<"@);
    law_transacting_methods_have_a_transaction(d, inv.key());
    law_aidl_types_stand_below_iinterface(d, inv.class);
}

pub proof fn lemma_clear(ls: Seq<LockV>, k: int)
    requires
        0 <= k <= ls.len(),
    ensures
        flow::clear(ls, k, ls.take(k).filter(|l: LockV| !l.is_opaque())) == ls.filter(
            |l: LockV| !l.is_opaque(),
        ),
    decreases ls.len() - k,
{
    let p = |l: LockV| !l.is_opaque();
    if k < ls.len() {
        lemma_clear(ls, k + 1);
        assert(ls.take(k + 1).drop_last() =~= ls.take(k));
        assert(ls.take(k + 1).last() == ls[k]);
        reveal(Seq::filter);
    } else {
        assert(ls.take(k) =~= ls);
    }
}

proof fn lemma_names(ls: Seq<LockV>, k: int)
    requires
        0 <= k <= ls.len(),
    ensures
        binder::lock_names(ls, k, ls.take(k).map_values(|l: LockV| l.name())) == ls.map_values(
            |l: LockV| l.name(),
        ),
    decreases ls.len() - k,
{
    let f = |l: LockV| l.name();
    if k < ls.len() {
        lemma_names(ls, k + 1);
        assert(ls.take(k + 1).map_values(f) =~= ls.take(k).map_values(f).push(ls[k].name()));
    } else {
        assert(ls.take(k) =~= ls);
    }
}

/// Of the locks held, those that have a name are given by it, in their order.
pub proof fn law_held_names_are_those_of_named_locks(held: Seq<LockV>)
    ensures
        binder::clear_names(held) == named_locks(held),
        named_locks(held).len() > 0 <==> exists|i: int|
            0 <= i < held.len() && !(#[trigger] held[i]).is_opaque(),
{
    let p = |l: LockV| !l.is_opaque();
    lemma_clear(held, 0);
    assert(held.take(0) =~= Seq::empty());
    reveal(Seq::filter);
    assert(held.take(0).filter(p) =~= Seq::empty());
    let kept = held.filter(p);
    lemma_names(kept, 0);
    assert(kept.take(0).map_values(|l: LockV| l.name()) =~= Seq::empty());
    if kept.len() > 0 {
        let x = kept[0];
        assert(kept.contains(x));
        answers::lemma_filtered(held, p, x);
        let i = choose|i: int| 0 <= i < held.len() && held[i] == x;
        assert(!held[i].is_opaque());
    }
    if exists|i: int| 0 <= i < held.len() && !(#[trigger] held[i]).is_opaque() {
        let i = choose|i: int| 0 <= i < held.len() && !(#[trigger] held[i]).is_opaque();
        assert(held.contains(held[i]));
        answers::lemma_filtered(held, p, held[i]);
        assert(kept.contains(held[i]));
    }
}

/// The findings are exactly the calls to another process at which a lock with a name is held:
/// each gives its method, file and line, the names of the locks, and what is called.
pub proof fn law_findings_are_remote_calls_under_named_locks(
    d: DexV,
    closed_world: bool,
    f: FindingV,
)
    ensures
        binder::found(d, closed_world).contains(f) <==> exists|k: int, i: int|
            #![trigger binder::happens(d, closed_world, k)[i]]
            0 <= k < d.methods().len() && 0 <= i < binder::happens(d, closed_world, k).len()
                && reports(d, d.methods()[k], binder::happens(d, closed_world, k)[i], f),
{
    binder::law_findings_are_binder_calls_under_a_lock(d, closed_world, f);
    let ms = d.methods();
    let ifaces = binder::aidl_from(d.classes, 0, Seq::empty());
    let proxies = binder::transacting(ms, 0, Seq::empty());
    assert forall|k: int, i: int|
        #![trigger binder::happens(d, closed_world, k)[i]]
        0 <= k < ms.len() && 0 <= i < binder::happens(d, closed_world, k).len() implies (
    binder::flags(d, closed_world, k, i, f) <==> reports(
        d,
        ms[k],
        binder::happens(d, closed_world, k)[i],
        f,
    )) by {
        match binder::happens(d, closed_world, k)[i] {
            EventV::Call { inv, held, line, at } => {
                law_binder_calls_are_remote_calls(d, inv);
                law_held_names_are_those_of_named_locks(held);
            },
            _ => {},
        }
    }
    if binder::found(d, closed_world).contains(f) {
        let (k, i) = choose|k: int, i: int| binder::flags(d, closed_world, k, i, f);
        assert(reports(d, ms[k], binder::happens(d, closed_world, k)[i], f));
    }
    if exists|k: int, i: int|
        #![trigger binder::happens(d, closed_world, k)[i]]
        0 <= k < d.methods().len() && 0 <= i < binder::happens(d, closed_world, k).len()
            && reports(d, d.methods()[k], binder::happens(d, closed_world, k)[i], f) {
        let (k, i) = choose|k: int, i: int|
            #![trigger binder::happens(d, closed_world, k)[i]]
            0 <= k < d.methods().len() && 0 <= i < binder::happens(d, closed_world, k).len()
                && reports(d, d.methods()[k], binder::happens(d, closed_world, k)[i], f);
        assert(binder::flags(d, closed_world, k, i, f));
    }
}

/// The findings stand by method, those of one method by line, one without a line first, and
/// those of one line by what is called.
pub proof fn law_findings_stand_by_method_and_line(d: DexV, closed_world: bool, i: int, j: int)
    requires
        0 <= i < j < binder::found(d, closed_world).len(),
    ensures
        ({
            let a = binder::found(d, closed_world)[i];
            let b = binder::found(d, closed_world)[j];
            &&& text::lex_le(a.method, b.method)
            &&& a.method == b.method ==> a.line is None || (b.line is Some && a.line->0 <= b.line->0)
            &&& a.method == b.method && a.line == b.line ==> text::lex_le(a.callee, b.callee)
        }),
{
    text::lemma_lex_order();
    let le = binder::finding_le();
    let all = binder::found_from(
        d.methods(),
        flow::all_effects(d),
        flow::held_on_entry(d, closed_world),
        binder::aidl_from(d.classes, 0, Seq::empty()),
        binder::transacting(d.methods(), 0, Seq::empty()),
        0,
        Seq::empty(),
    );
    sort::lemma_sorted(all, le);
    let r = sort::sorted(all, le);
    assert(r == binder::found(d, closed_world));
    assert(le(r[i], r[j]));
}

} // verus!

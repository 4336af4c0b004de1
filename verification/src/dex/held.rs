//! What holds of the held-lock sets of every program: locks held on entry to a method are
//! held at each call of it, and locks held where paths join are held on each path.

use crate::dex::flow;
use crate::dex::flow::{EffectsV, EventV, GraphV, HeldAt, StateV};
use crate::dex::juc;
use crate::dex::juc::LockCall;
use crate::dex::model::{DexV, InsnV, InvokeV, LockV, MethodV, OpV};
use crate::dex::regs;
use crate::dex::rounds;
use crate::dex::rounds::{keyed, SpentV};
use crate::dex::settle;
use crate::dict;
use crate::dict::DictV;
use crate::names;
use vstd::prelude::*;

verus! {

/// The event is a call of `key`, with the locks `held` held at it.
pub open spec fn calls(e: EventV, key: Seq<char>, held: Seq<LockV>) -> bool {
    match e {
        EventV::Call { inv, held: h, line, at } => inv.key() == key && h == held,
        _ => false,
    }
}

/// Among the events from the `k`th on there is a call of `key` with `held`.
pub open spec fn calls_in(es: Seq<EventV>, k: int, key: Seq<char>, held: Seq<LockV>) -> bool {
    exists|j: int| k <= j < es.len() && calls(#[trigger] es[j], key, held)
}

/// What happens in the method, where `entry` is held on entry to each.
pub open spec fn seeded(m: MethodV, fx: EffectsV, entry: DictV<Seq<LockV>>) -> Seq<EventV> {
    flow::events(m, fx, dict::list_at(entry, m.key()))
}

/// In a method from the `k`th on there is a call of `key` with `held`.
pub open spec fn called_with(
    ms: Seq<MethodV>,
    fx: EffectsV,
    entry: DictV<Seq<LockV>>,
    k: int,
    key: Seq<char>,
    held: Seq<LockV>,
) -> bool {
    exists|i: int| k <= i < ms.len() && calls_in(#[trigger] seeded(ms[i], fx, entry), 0, key, held)
}

proof fn lemma_keyed<A>(d: DictV<A>, k: Seq<char>, v: A)
    requires
        keyed(d),
    ensures
        keyed(d.put(k, v)),
{
    names::lemma_with(d.keys, k);
}

proof fn lemma_held_in(
    es: Seq<EventV>,
    keys: Seq<Seq<char>>,
    k: int,
    acc: HeldAt,
    key: Seq<char>,
    s: Seq<LockV>,
)
    requires
        0 <= k,
        keyed(acc),
    ensures
        keyed(flow::held_in(es, keys, k, acc)),
        dict::list_at(flow::held_in(es, keys, k, acc), key).contains(s) <==> dict::list_at(
            acc,
            key,
        ).contains(s) || keys.contains(key) && calls_in(es, k, key, s),
    decreases es.len() - k,
{
    if k < es.len() {
        let next = match es[k] {
            EventV::Call { inv, held, line, at } => if keys.contains(inv.key()) {
                dict::put_more(acc, inv.key(), held)
            } else {
                acc
            },
            _ => acc,
        };
        match es[k] {
            EventV::Call { inv, held, line, at } => {
                let old = dict::list_at(acc, inv.key());
                lemma_keyed(acc, inv.key(), old.push(held));
                assert(old.push(held).contains(s) <==> old.contains(s) || s == held) by {
                    if old.contains(s) {
                        let i = choose|i: int| 0 <= i < old.len() && old[i] == s;
                        assert(old.push(held)[i] == s);
                    }
                    assert(old.push(held)[old.len() as int] == held);
                    if old.push(held).contains(s) {
                        let i = choose|i: int|
                            0 <= i < old.push(held).len() && old.push(held)[i] == s;
                        if i < old.len() {
                            assert(old[i] == s);
                        }
                    }
                }
            },
            _ => {},
        }
        lemma_held_in(es, keys, k + 1, next, key, s);
        assert(flow::held_in(es, keys, k, acc) == flow::held_in(es, keys, k + 1, next));
        assert(calls_in(es, k, key, s) <==> calls(es[k], key, s) || calls_in(es, k + 1, key, s));
    }
}

proof fn lemma_held_from(
    ms: Seq<MethodV>,
    fx: EffectsV,
    keys: Seq<Seq<char>>,
    entry: DictV<Seq<LockV>>,
    k: int,
    acc: HeldAt,
    key: Seq<char>,
    s: Seq<LockV>,
)
    requires
        0 <= k,
        keyed(acc),
    ensures
        keyed(flow::held_from(ms, fx, keys, entry, k, acc)),
        dict::list_at(flow::held_from(ms, fx, keys, entry, k, acc), key).contains(s)
            <==> dict::list_at(acc, key).contains(s) || keys.contains(key) && called_with(
            ms,
            fx,
            entry,
            k,
            key,
            s,
        ),
    decreases ms.len() - k,
{
    if k < ms.len() {
        let es = seeded(ms[k], fx, entry);
        let next = flow::held_in(es, keys, 0, acc);
        lemma_held_in(es, keys, 0, acc, key, s);
        lemma_held_from(ms, fx, keys, entry, k + 1, next, key, s);
        assert(flow::held_from(ms, fx, keys, entry, k, acc) == flow::held_from(
            ms,
            fx,
            keys,
            entry,
            k + 1,
            next,
        ));
        assert(called_with(ms, fx, entry, k, key, s) <==> calls_in(es, 0, key, s) || called_with(
            ms,
            fx,
            entry,
            k + 1,
            key,
            s,
        ));
    }
}

proof fn lemma_entries(sites: HeldAt, k: int, acc: DictV<Seq<LockV>>, key: Seq<char>)
    requires
        0 <= k,
        exists|i: int| k <= i < sites.keys.len() && #[trigger] sites.keys[i] == key,
        dict::list_at(acc, key).len() == 0 || dict::list_at(acc, key) == flow::intersection(
            dict::list_at(sites, key),
        ),
    ensures
        dict::list_at(flow::entries_from(sites, k, acc), key) == flow::intersection(
            dict::list_at(sites, key),
        ),
    decreases sites.keys.len() - k,
{
    let x = sites.keys[k];
    let inter = flow::intersection(dict::list_at(sites, x));
    let next = if inter.len() > 0 {
        acc.put(x, inter)
    } else {
        acc
    };
    assert(flow::entries_from(sites, k, acc) == flow::entries_from(sites, k + 1, next));
    if exists|i: int| k + 1 <= i < sites.keys.len() && #[trigger] sites.keys[i] == key {
        lemma_entries(sites, k + 1, next, key);
    } else {
        assert(x == key);
        lemma_entries_keep(sites, k + 1, next, key);
        assert(dict::list_at(next, key) =~= inter);
    }
}

proof fn lemma_entries_keep(sites: HeldAt, k: int, acc: DictV<Seq<LockV>>, key: Seq<char>)
    requires
        0 <= k,
        forall|i: int| k <= i < sites.keys.len() ==> #[trigger] sites.keys[i] != key,
    ensures
        dict::list_at(flow::entries_from(sites, k, acc), key) == dict::list_at(acc, key),
    decreases sites.keys.len() - k,
{
    if k < sites.keys.len() {
        let x = sites.keys[k];
        let inter = flow::intersection(dict::list_at(sites, x));
        let next = if inter.len() > 0 {
            acc.put(x, inter)
        } else {
            acc
        };
        assert(flow::entries_from(sites, k, acc) == flow::entries_from(sites, k + 1, next));
        lemma_entries_keep(sites, k + 1, next, key);
    }
}

/// What is held on entry to the method keeps changing; nothing counts as held.
pub open spec fn entry_unsettled(d: DexV, closed_world: bool, key: Seq<char>) -> bool {
    rounds::is_unsettled(flow::MAX_ENTRY_CHANGES, flow::entry_solved(d, closed_world).1, key)
}

proof fn lemma_entry_keys(
    sites: HeldAt,
    keys: Seq<Seq<char>>,
    k: int,
    acc: DictV<Seq<LockV>>,
)
    requires
        0 <= k,
        keyed(acc),
        forall|x: Seq<char>| #[trigger] sites.keys.contains(x) ==> keys.contains(x),
        forall|x: Seq<char>| #[trigger] acc.map.contains_key(x) ==> keys.contains(x),
    ensures
        keyed(flow::entries_from(sites, k, acc)),
        forall|x: Seq<char>| #[trigger]
            flow::entries_from(sites, k, acc).map.contains_key(x) ==> keys.contains(x),
    decreases sites.keys.len() - k,
{
    if k < sites.keys.len() {
        let x = sites.keys[k];
        assert(sites.keys.contains(x));
        let inter = flow::intersection(dict::list_at(sites, x));
        let next = if inter.len() > 0 {
            acc.put(x, inter)
        } else {
            acc
        };
        lemma_keyed(acc, x, inter);
        lemma_entry_keys(sites, keys, k + 1, next);
        assert(flow::entries_from(sites, k, acc) == flow::entries_from(sites, k + 1, next));
    }
}

proof fn lemma_site_keys(
    ms: Seq<MethodV>,
    fx: EffectsV,
    keys: Seq<Seq<char>>,
    entry: DictV<Seq<LockV>>,
)
    ensures
        ({
            let sites = flow::held_from(ms, fx, keys, entry, 0, DictV::none());
            &&& keyed(sites)
            &&& forall|x: Seq<char>| #[trigger] sites.keys.contains(x) ==> keys.contains(x)
        }),
{
    let none: HeldAt = DictV::none();
    assert(keyed(none));
    let sites = flow::held_from(ms, fx, keys, entry, 0, none);
    lemma_held_from(ms, fx, keys, entry, 0, none, Seq::empty(), Seq::empty());
    lemma_site_lists(ms, fx, keys, entry, 0, none);
    assert forall|x: Seq<char>| #[trigger] sites.keys.contains(x) implies keys.contains(x) by {
        assert(sites.map.contains_key(x));
        let s = sites.map[x][0];
        assert(dict::list_at(sites, x).contains(s));
        lemma_held_from(ms, fx, keys, entry, 0, none, x, s);
    }
}

/// No list is empty.
spec fn all_filled(d: HeldAt) -> bool {
    forall|x: Seq<char>| #[trigger] d.map.contains_key(x) ==> d.map[x].len() > 0
}

proof fn lemma_in_lists(es: Seq<EventV>, keys: Seq<Seq<char>>, k: int, acc: HeldAt)
    requires
        0 <= k,
        all_filled(acc),
    ensures
        all_filled(flow::held_in(es, keys, k, acc)),
    decreases es.len() - k,
{
    if k < es.len() {
        let next = match es[k] {
            EventV::Call { inv, held, line, at } => if keys.contains(inv.key()) {
                dict::put_more(acc, inv.key(), held)
            } else {
                acc
            },
            _ => acc,
        };
        lemma_in_lists(es, keys, k + 1, next);
    }
}

proof fn lemma_site_lists(
    ms: Seq<MethodV>,
    fx: EffectsV,
    keys: Seq<Seq<char>>,
    entry: DictV<Seq<LockV>>,
    k: int,
    acc: HeldAt,
)
    requires
        0 <= k,
        all_filled(acc),
    ensures
        all_filled(flow::held_from(ms, fx, keys, entry, k, acc)),
    decreases ms.len() - k,
{
    if k < ms.len() {
        let es = seeded(ms[k], fx, entry);
        lemma_in_lists(es, keys, 0, acc);
        lemma_site_lists(ms, fx, keys, entry, k + 1, flow::held_in(es, keys, 0, acc));
    }
}

proof fn lemma_entry_round(
    ms: Seq<MethodV>,
    fx: EffectsV,
    keys: Seq<Seq<char>>,
    entry: DictV<Seq<LockV>>,
    spent: SpentV,
)
    ensures
        rounds::tended(
            flow::MAX_ENTRY_CHANGES,
            flow::entry_round(ms, fx, keys, entry, spent),
            keys,
            spent,
        ),
        keyed(flow::entry_round(ms, fx, keys, entry, spent)),
{
    let sites = flow::held_from(ms, fx, keys, entry, 0, DictV::none());
    let all = flow::entries_from(sites, 0, DictV::none());
    lemma_site_keys(ms, fx, keys, entry);
    lemma_entry_keys(sites, keys, 0, DictV::none());
    rounds::lemma_steady(flow::MAX_ENTRY_CHANGES, all, keys, spent, 0, DictV::none());
    lemma_steady_keyed(all, spent, 0, DictV::none());
}

proof fn lemma_steady_keyed<A>(d: DictV<A>, spent: SpentV, k: int, acc: DictV<A>)
    requires
        0 <= k,
        keyed(acc),
    ensures
        keyed(rounds::steady(flow::MAX_ENTRY_CHANGES, d, spent, k, acc)),
    decreases d.keys.len() - k,
{
    if k < d.keys.len() {
        let key = d.keys[k];
        lemma_keyed(acc, key, d.map[key]);
        lemma_steady_keyed(d, spent, k + 1, acc);
        lemma_steady_keyed(d, spent, k + 1, acc.put(key, d.map[key]));
    }
}

/// What is given up is gone, and the rest is as it was.
proof fn lemma_steady_at<A>(d: DictV<A>, spent: SpentV, k: int, acc: DictV<A>, key: Seq<char>)
    requires
        0 <= k,
        keyed(d),
        !acc.map.contains_key(key) || acc.map[key] == d.map[key] && d.map.contains_key(key),
        rounds::is_unsettled(flow::MAX_ENTRY_CHANGES, spent, key) ==> !acc.map.contains_key(key),
    ensures
        ({
            let r = rounds::steady(flow::MAX_ENTRY_CHANGES, d, spent, k, acc);
            &&& rounds::is_unsettled(flow::MAX_ENTRY_CHANGES, spent, key) ==> r.get(key) is None
            &&& r.get(key) is Some ==> r.get(key) == d.get(key)
            &&& !rounds::is_unsettled(flow::MAX_ENTRY_CHANGES, spent, key) && (
            acc.map.contains_key(key) || exists|i: int|
                k <= i < d.keys.len() && #[trigger] d.keys[i] == key) ==> r.get(key) == d.get(key)
        }),
    decreases d.keys.len() - k,
{
    if k < d.keys.len() {
        let x = d.keys[k];
        let next = if rounds::is_unsettled(flow::MAX_ENTRY_CHANGES, spent, x) {
            acc
        } else {
            acc.put(x, d.map[x])
        };
        assert(d.keys.contains(x));
        assert(d.map.contains_key(x));
        lemma_steady_at(d, spent, k + 1, next, key);
        let max = flow::MAX_ENTRY_CHANGES;
        assert(rounds::steady(max, d, spent, k, acc) == rounds::steady(
            max,
            d,
            spent,
            k + 1,
            next,
        ));
    }
}

proof fn lemma_entries_rest(
    ms: Seq<MethodV>,
    fx: EffectsV,
    keys: Seq<Seq<char>>,
    entry: DictV<Seq<LockV>>,
    spent: SpentV,
)
    requires
        rounds::tended(flow::MAX_ENTRY_CHANGES, entry, keys, spent),
    ensures
        ({
            let (r, s) = flow::entry_settled(ms, fx, keys, entry, spent);
            flow::entry_round(ms, fx, keys, r, s).map == r.map
        }),
    decreases rounds::left(flow::MAX_ENTRY_CHANGES, keys, spent, 0),
{
    let next = flow::entry_round(ms, fx, keys, entry, spent);
    lemma_entry_round(ms, fx, keys, entry, spent);
    if rounds::any_shifts(flow::MAX_ENTRY_CHANGES, keys, entry, next, spent) {
        let more = rounds::spent_on(flow::MAX_ENTRY_CHANGES, keys, entry, next, spent, 0);
        rounds::lemma_left_falls(flow::MAX_ENTRY_CHANGES, keys, entry, next, spent);
        rounds::lemma_steady(flow::MAX_ENTRY_CHANGES, next, keys, more, 0, DictV::none());
        let kept = rounds::steady(flow::MAX_ENTRY_CHANGES, next, more, 0, DictV::none());
        lemma_entries_rest(ms, fx, keys, kept, more);
    } else {
        rounds::lemma_rest(flow::MAX_ENTRY_CHANGES, keys, entry, next, spent);
    }
}

/// A lock is held on entry to a method exactly where all its callers are known, it is
/// called, and each call of it in the program is made with the lock held. What each caller
/// holds counts what it holds on entry itself. Where that keeps changing, nothing is held.
pub proof fn law_entry_locks_are_held_by_every_caller(
    d: DexV,
    closed_world: bool,
    key: Seq<char>,
    name: Seq<char>,
)
    ensures
        ({
            let ms = d.methods();
            let fx = flow::all_effects(d);
            let entry = flow::held_on_entry(d, closed_world);
            flow::clearly_held(dict::list_at(entry, key), name) <==> {
                &&& flow::known_keys(d, closed_world).contains(key)
                &&& !entry_unsettled(d, closed_world, key)
                &&& exists|s: Seq<LockV>| #[trigger] called_with(ms, fx, entry, 0, key, s)
                &&& forall|s: Seq<LockV>| #[trigger]
                    called_with(ms, fx, entry, 0, key, s) ==> flow::clearly_held(s, name)
            }
        }),
{
    let ms = d.methods();
    let fx = flow::all_effects(d);
    let keys = flow::known_keys(d, closed_world);
    let (entry, spent) = flow::entry_solved(d, closed_world);
    let none: HeldAt = DictV::none();
    let sites = flow::held_from(ms, fx, keys, entry, 0, none);
    let all = flow::entries_from(sites, 0, DictV::none());
    let round = flow::entry_round(ms, fx, keys, entry, spent);
    lemma_entries_rest(ms, fx, keys, DictV::none(), DictV::none());
    assert(dict::list_at(round, key) == dict::list_at(entry, key));
    assert(keyed(none));
    lemma_site_keys(ms, fx, keys, entry);
    lemma_entry_keys(sites, keys, 0, DictV::none());
    lemma_steady_at(all, spent, 0, DictV::none(), key);
    if all.map.contains_key(key) {
        assert(all.keys.contains(key));
        let i = choose|i: int| 0 <= i < all.keys.len() && all.keys[i] == key;
        assert(all.keys[i] == key);
    }
    if rounds::is_unsettled(flow::MAX_ENTRY_CHANGES, spent, key) {
        assert(dict::list_at(entry, key) =~= Seq::empty());
    } else {
        assert(round.get(key) == all.get(key));
        assert(dict::list_at(entry, key) == dict::list_at(all, key));
        lemma_entry_sites(d, closed_world, key, name);
    }
}

proof fn lemma_entry_sites(d: DexV, closed_world: bool, key: Seq<char>, name: Seq<char>)
    ensures
        ({
            let ms = d.methods();
            let fx = flow::all_effects(d);
            let keys = flow::known_keys(d, closed_world);
            let entry = flow::held_on_entry(d, closed_world);
            let sites = flow::held_from(ms, fx, keys, entry, 0, DictV::none());
            flow::clearly_held(
                dict::list_at(flow::entries_from(sites, 0, DictV::none()), key),
                name,
            ) <==> {
                &&& keys.contains(key)
                &&& exists|s: Seq<LockV>| #[trigger] called_with(ms, fx, entry, 0, key, s)
                &&& forall|s: Seq<LockV>| #[trigger]
                    called_with(ms, fx, entry, 0, key, s) ==> flow::clearly_held(s, name)
            }
        }),
{
    let ms = d.methods();
    let fx = flow::all_effects(d);
    let keys = flow::known_keys(d, closed_world);
    let entry = flow::held_on_entry(d, closed_world);
    let none: HeldAt = DictV::none();
    let sites = flow::held_from(ms, fx, keys, entry, 0, none);
    let all = flow::entries_from(sites, 0, DictV::none());
    assert(keyed(none));
    lemma_held_from(ms, fx, keys, entry, 0, none, key, Seq::empty());
    let sets = dict::list_at(sites, key);
    assert forall|s: Seq<LockV>|
        #![trigger sets.contains(s)]
        #![trigger called_with(ms, fx, entry, 0, key, s)]
        sets.contains(s) <==> keys.contains(key) && called_with(ms, fx, entry, 0, key, s) by {
        lemma_held_from(ms, fx, keys, entry, 0, none, key, s);
    }
    if sites.keys.contains(key) {
        let i = choose|i: int| 0 <= i < sites.keys.len() && sites.keys[i] == key;
        assert(sites.keys[i] == key);
        lemma_entries(sites, 0, DictV::none(), key);
    } else {
        assert(!sites.map.contains_key(key));
        assert forall|i: int| 0 <= i < sites.keys.len() implies #[trigger] sites.keys[i] != key by {
            if sites.keys[i] == key {
                assert(sites.keys.contains(key));
            }
        }
        lemma_entries_keep(sites, 0, DictV::none(), key);
    }
    assert(dict::list_at(all, key) == flow::intersection(sets));
    if sets.len() > 0 {
        flow::law_entry_locks_are_held_at_every_site(sets, name);
        assert(sets.contains(sets[0]));
        if flow::in_all(sets, name, 0) {
            assert forall|s: Seq<LockV>| #[trigger]
                called_with(ms, fx, entry, 0, key, s) implies flow::clearly_held(s, name) by {
                let j = choose|j: int| 0 <= j < sets.len() && sets[j] == s;
                assert(flow::clearly_held(sets[j], name));
            }
        }
        if forall|s: Seq<LockV>| #[trigger]
            called_with(ms, fx, entry, 0, key, s) ==> flow::clearly_held(s, name) {
            assert forall|j: int| 0 <= j < sets.len() implies flow::clearly_held(
                #[trigger] sets[j],
                name,
            ) by {
                assert(sets.contains(sets[j]));
                assert(called_with(ms, fx, entry, 0, key, sets[j]));
            }
        }
    } else {
        assert forall|s: Seq<LockV>| !(keys.contains(key) && #[trigger] called_with(
            ms,
            fx,
            entry,
            0,
            key,
            s,
        )) by {
            assert(!sets.contains(s));
        }
    }
}

/// A method from the `k`th on is so declared, in the class or not.
pub open spec fn declares(
    ms: Seq<MethodV>,
    k: int,
    decl: Seq<char>,
    class: Seq<char>,
    there: bool,
) -> bool {
    exists|i: int|
        k <= i < ms.len() && flow::declared((#[trigger] ms[i]).name, ms[i].sig) == decl && (
        ms[i].class == class) == there
}

proof fn lemma_owners(
    ms: Seq<MethodV>,
    k: int,
    acc: DictV<Option<Seq<char>>>,
    decl: Seq<char>,
    c: Seq<char>,
)
    requires
        0 <= k,
    ensures
        flow::owners(ms, k, acc).get(decl) == Some(Some(c)) <==> {
            &&& acc.get(decl) == Some(Some(c)) || acc.get(decl) is None && declares(
                ms,
                k,
                decl,
                c,
                true,
            )
            &&& !declares(ms, k, decl, c, false)
        },
    decreases ms.len() - k,
{
    if k < ms.len() {
        let d = flow::declared(ms[k].name, ms[k].sig);
        let next = match acc.get(d) {
            None => acc.put(d, Some(ms[k].class)),
            Some(o) => if o == Some(ms[k].class) {
                acc
            } else {
                acc.put(d, None)
            },
        };
        lemma_owners(ms, k + 1, next, decl, c);
        assert(flow::owners(ms, k, acc) == flow::owners(ms, k + 1, next));
        assert forall|there: bool| #[trigger]
            declares(ms, k, decl, c, there) <==> declares(ms, k + 1, decl, c, there) || d == decl
                && (ms[k].class == c) == there by {}
    }
}

proof fn lemma_eligible(
    ms: Seq<MethodV>,
    own: DictV<Option<Seq<char>>>,
    closed_world: bool,
    k: int,
    acc: Seq<Seq<char>>,
    key: Seq<char>,
)
    requires
        0 <= k,
    ensures
        flow::eligible(ms, own, closed_world, k, acc).contains(key) <==> acc.contains(key)
            || exists|i: int|
            k <= i < ms.len() && (#[trigger] ms[i]).key() == key && flow::callers_known(
                ms[i],
                own,
                closed_world,
            ),
    decreases ms.len() - k,
{
    if k < ms.len() {
        let next = if flow::callers_known(ms[k], own, closed_world) {
            names::with(acc, ms[k].key())
        } else {
            acc
        };
        names::lemma_with(acc, ms[k].key());
        lemma_eligible(ms, own, closed_world, k + 1, next, key);
        assert(flow::eligible(ms, own, closed_world, k, acc) == flow::eligible(
            ms,
            own,
            closed_world,
            k + 1,
            next,
        ));
    }
}

/// All callers of a method are taken to be known exactly where it is private, or in a
/// closed world where no other class has a method of its name and signature.
pub proof fn law_known_callers(d: DexV, closed_world: bool, key: Seq<char>)
    ensures
        flow::known_keys(d, closed_world).contains(key) <==> exists|i: int|
            0 <= i < d.methods().len() && (#[trigger] d.methods()[i]).key() == key && (
            d.methods()[i].is_private() || closed_world && !declares(
                d.methods(),
                0,
                flow::declared(d.methods()[i].name, d.methods()[i].sig),
                d.methods()[i].class,
                false,
            )),
{
    let ms = d.methods();
    let own = flow::owners(ms, 0, DictV::none());
    lemma_eligible(ms, own, closed_world, 0, Seq::empty(), key);
    assert forall|i: int| 0 <= i < ms.len() implies (flow::callers_known(
        #[trigger] ms[i],
        own,
        closed_world,
    ) <==> ms[i].is_private() || closed_world && !declares(
        ms,
        0,
        flow::declared(ms[i].name, ms[i].sig),
        ms[i].class,
        false,
    )) by {
        let decl = flow::declared(ms[i].name, ms[i].sig);
        lemma_owners(ms, 0, DictV::none(), decl, ms[i].class);
        assert(declares(ms, 0, decl, ms[i].class, true));
    }
}

/// What is known in `a` holds in `o` too: each lock is held in `o` at least as often, by
/// name; so are the caller's locks that were released, and what the registers and the last
/// call hold.
pub open spec fn under(a: StateV, o: StateV) -> bool {
    &&& forall|name: Seq<char>| #[trigger]
        flow::times(a.held, name) <= flow::times(o.held, name)
    &&& forall|i: int| 0 <= i < a.freed.len() ==> o.freed.contains(#[trigger] a.freed[i])
    &&& holds(a.regs, o.regs)
    &&& holds(a.tries, o.tries)
    &&& a.last_ret is Some ==> o.last_ret == a.last_ret
    &&& a.last_try is Some ==> o.last_try == a.last_try
}

/// What the registers `a` hold, `o` hold too.
pub open spec fn holds(a: Map<u32, LockV>, o: Map<u32, LockV>) -> bool {
    forall|r: u32| #[trigger] a.contains_key(r) ==> o.contains_key(r) && o[r] == a[r]
}

/// The handler covers the offset.
pub open spec fn covers(c: (u32, u32, u32), offset: u32) -> bool {
    c.0 <= offset && offset < c.1
}

/// A path leads from instruction `k`, before which the state is `st`, to instruction `t`
/// with the state `o`.
pub open spec fn leads(
    m: MethodV,
    fx: EffectsV,
    st: StateV,
    k: int,
    t: int,
    o: StateV,
) -> bool {
    let insn = m.insns[k];
    let out = flow::step(m, fx, st, insn).0;
    ||| o == st && exists|j: int|
        0 <= j < m.catches.len() && covers(#[trigger] m.catches[j], insn.offset) && flow::index_at(
            m.insns,
            m.catches[j].2,
            0,
        ) == Some(t)
    ||| match insn.op {
        OpV::Goto(to) => o == out && flow::index_at(m.insns, to, 0) == Some(t),
        OpV::Branch(to) => o == out && (t == k + 1 || flow::index_at(m.insns, to, 0) == Some(t)),
        OpV::BranchZero { reg, target } => {
            ||| o == flow::succeeded(out, reg) && t == k + 1
            ||| o == flow::failed(out, reg) && flow::index_at(m.insns, target, 0) == Some(t)
        },
        OpV::BranchNonzero { reg, target } => {
            ||| o == flow::failed(out, reg) && t == k + 1
            ||| o == flow::succeeded(out, reg) && flow::index_at(m.insns, target, 0) == Some(t)
        },
        OpV::Switch(ts) => o == out && (t == k + 1 || exists|j: int|
            0 <= j < ts.len() && flow::index_at(m.insns, #[trigger] ts[j], 0) == Some(t)),
        OpV::Throw => false,
        OpV::Return(_) => false,
        _ => o == out && t == k + 1,
    }
}

/// Another pass over the method changes nothing.
pub open spec fn at_rest(m: MethodV, fx: EffectsV, sts: Seq<Option<StateV>>) -> bool {
    !flow::pass(m, fx, GraphV { states: sts, changed: false }, 0).changed
}

proof fn lemma_times_push(held: Seq<LockV>, l: LockV, name: Seq<char>)
    ensures
        flow::times(held.push(l), name) == flow::times(held, name) + if l.name() == name {
            1nat
        } else {
            0
        },
{
    assert(held.push(l).drop_last() =~= held);
}

proof fn lemma_times_take(held: Seq<LockV>, k: int, name: Seq<char>)
    requires
        0 <= k <= held.len(),
    ensures
        flow::times(held.take(k), name) <= flow::times(held, name),
    decreases held.len() - k,
{
    if k < held.len() {
        assert(held.take(k + 1) =~= held.take(k).push(held[k]));
        lemma_times_push(held.take(k), held[k], name);
        lemma_times_take(held, k + 1, name);
    } else {
        assert(held.take(k) =~= held);
    }
}

proof fn lemma_common_times(
    a: Seq<LockV>,
    b: Seq<LockV>,
    k: int,
    acc: Seq<LockV>,
    name: Seq<char>,
)
    requires
        0 <= k <= a.len(),
        flow::times(acc, name) <= flow::times(b, name),
    ensures
        ({
            let all = flow::times(acc, name) + flow::times(a, name) - flow::times(a.take(k), name);
            flow::times(flow::common(a, b, k, acc), name) == if all <= flow::times(b, name) {
                all
            } else {
                flow::times(b, name) as int
            }
        }),
    decreases a.len() - k,
{
    if k < a.len() {
        let keep = flow::times(acc, a[k].name()) < flow::times(b, a[k].name());
        let next = if keep {
            acc.push(a[k])
        } else {
            acc
        };
        lemma_times_push(acc, a[k], name);
        assert(a.take(k + 1) =~= a.take(k).push(a[k]));
        lemma_times_push(a.take(k), a[k], name);
        lemma_times_take(a, k + 1, name);
        lemma_common_times(a, b, k + 1, next, name);
    } else {
        assert(a.take(k) =~= a);
    }
}

/// What is held where two paths join is held as often as on the path that holds it the
/// fewer times, whichever comes first.
pub proof fn law_join_keeps_the_smaller_count(a: StateV, b: StateV, name: Seq<char>)
    ensures
        flow::times(flow::joined(a, b).held, name) == if flow::times(a.held, name) <= flow::times(
            b.held,
            name,
        ) {
            flow::times(a.held, name)
        } else {
            flow::times(b.held, name)
        },
{
    assert(a.held.take(0) =~= Seq::empty());
    lemma_common_times(a.held, b.held, 0, Seq::empty(), name);
}

/// What is common to both is all of `a` exactly where nothing is missing.
pub proof fn lemma_common(a: Seq<LockV>, b: Seq<LockV>, k: int, acc: Seq<LockV>)
    requires
        0 <= k <= a.len(),
    ensures
        flow::common(a, b, k, acc).len() <= acc.len() + a.len() - k,
        flow::common(a, b, k, acc).len() == acc.len() + a.len() - k ==> flow::common(a, b, k, acc)
            == acc + a.skip(k),
    decreases a.len() - k,
{
    if k < a.len() {
        lemma_common(a, b, k + 1, acc.push(a[k]));
        lemma_common(a, b, k + 1, acc);
        assert(acc.push(a[k]) + a.skip(k + 1) =~= acc + a.skip(k));
    } else {
        assert(acc + a.skip(k) =~= acc);
    }
}

/// What is common to both is all of `a` exactly where nothing is missing.
pub proof fn lemma_common_names(a: Seq<Seq<char>>, b: Seq<Seq<char>>, k: int, acc: Seq<Seq<char>>)
    requires
        0 <= k <= a.len(),
    ensures
        flow::common_names(a, b, k, acc).len() <= acc.len() + a.len() - k,
        flow::common_names(a, b, k, acc).len() == acc.len() + a.len() - k ==> {
            &&& flow::common_names(a, b, k, acc) == acc + a.skip(k)
            &&& forall|i: int| k <= i < a.len() ==> b.contains(#[trigger] a[i])
        },
    decreases a.len() - k,
{
    if k < a.len() {
        lemma_common_names(a, b, k + 1, acc.push(a[k]));
        lemma_common_names(a, b, k + 1, acc);
        assert(acc.push(a[k]) + a.skip(k + 1) =~= acc + a.skip(k));
    } else {
        assert(acc + a.skip(k) =~= acc);
    }
}

proof fn lemma_agreed(a: Map<u32, LockV>, o: Map<u32, LockV>)
    requires
        regs::agreed(a, o) == a,
    ensures
        holds(a, o),
{
    assert forall|r: u32| #[trigger] a.contains_key(r) implies o.contains_key(r) && o[r]
        == a[r] by {
        assert(regs::agreed(a, o).contains_key(r));
    }
}

proof fn lemma_joined(a: StateV, o: StateV)
    requires
        !flow::dropped(a, flow::joined(a, o)),
    ensures
        flow::joined(a, o) == a,
        under(a, o),
{
    lemma_common(a.held, o.held, 0, Seq::empty());
    lemma_common_names(a.freed, o.freed, 0, Seq::empty());
    assert(Seq::<LockV>::empty() + a.held.skip(0) =~= a.held);
    assert(Seq::<Seq<char>>::empty() + a.freed.skip(0) =~= a.freed);
    lemma_agreed(a.regs, o.regs);
    lemma_agreed(a.tries, o.tries);
    assert forall|name: Seq<char>| #[trigger]
        flow::times(a.held, name) <= flow::times(o.held, name) by {
        law_join_keeps_the_smaller_count(a, o, name);
    }
}

/// A change is not forgotten, and without one the states are the same.
spec fn stays(g: GraphV, r: GraphV) -> bool {
    &&& g.changed ==> r.changed
    &&& !r.changed ==> r.states == g.states
}

/// Instruction `t` was reached already, with nothing known there that `o` does not say.
spec fn arrived(g: GraphV, t: Option<int>, o: StateV) -> bool {
    t matches Some(t) ==> 0 <= t < g.states.len() ==> g.states[t] is Some && under(
        g.states[t]->0,
        o,
    )
}

proof fn lemma_reached(g: GraphV, t: Option<int>, o: StateV)
    ensures
        stays(g, flow::reached(g, t, o)),
        !flow::reached(g, t, o).changed ==> arrived(g, t, o),
{
    match t {
        None => {},
        Some(t) => if 0 <= t < g.states.len() {
            match g.states[t] {
                None => {},
                Some(a) => {
                    if !flow::dropped(a, flow::joined(a, o)) {
                        lemma_joined(a, o);
                        assert(g.states.update(t, Some(flow::joined(a, o))) =~= g.states);
                    }
                },
            }
        },
    }
}

proof fn lemma_reached_all(m: MethodV, g: GraphV, ts: Seq<u32>, j: int, o: StateV)
    requires
        0 <= j,
    ensures
        stays(g, flow::reached_all(m, g, ts, j, o)),
        !flow::reached_all(m, g, ts, j, o).changed ==> forall|i: int|
            j <= i < ts.len() ==> arrived(g, flow::index_at(m.insns, #[trigger] ts[i], 0), o),
    decreases ts.len() - j,
{
    if j < ts.len() {
        let t = flow::index_at(m.insns, ts[j], 0);
        lemma_reached(g, t, o);
        lemma_reached_all(m, flow::reached(g, t, o), ts, j + 1, o);
    }
}

proof fn lemma_handlers(m: MethodV, g: GraphV, offset: u32, j: int, o: StateV)
    requires
        0 <= j,
    ensures
        stays(g, flow::handlers(m, g, offset, j, o)),
        !flow::handlers(m, g, offset, j, o).changed ==> forall|i: int|
            j <= i < m.catches.len() && covers(#[trigger] m.catches[i], offset) ==> arrived(
                g,
                flow::index_at(m.insns, m.catches[i].2, 0),
                o,
            ),
    decreases m.catches.len() - j,
{
    if j < m.catches.len() {
        let (from, to, at) = m.catches[j];
        let t = flow::index_at(m.insns, at, 0);
        let next = if from <= offset && offset < to {
            flow::reached(g, t, o)
        } else {
            g
        };
        lemma_reached(g, t, o);
        lemma_handlers(m, next, offset, j + 1, o);
    }
}

proof fn lemma_spread(m: MethodV, fx: EffectsV, g: GraphV, k: int)
    requires
        0 <= k < m.insns.len(),
        g.states.len() == m.insns.len(),
    ensures
        stays(g, flow::spread(m, fx, g, k)),
        !flow::spread(m, fx, g, k).changed && g.states[k] is Some ==> forall|t: int, o: StateV|
            0 <= t < g.states.len() && #[trigger] leads(m, fx, g.states[k]->0, k, t, o)
                ==> g.states[t] is Some && under(g.states[t]->0, o),
{
    match g.states[k] {
        None => {},
        Some(st) => {
            let insn = m.insns[k];
            let out = flow::step(m, fx, st, insn).0;
            let caught = flow::handlers(m, g, insn.offset, 0, st);
            lemma_handlers(m, g, insn.offset, 0, st);
            match insn.op {
                OpV::Goto(t) => {
                    lemma_reached(caught, flow::index_at(m.insns, t, 0), out);
                },
                OpV::Branch(t) => {
                    let mid = flow::reached(caught, Some(k + 1), out);
                    lemma_reached(caught, Some(k + 1), out);
                    lemma_reached(mid, flow::index_at(m.insns, t, 0), out);
                },
                OpV::BranchZero { reg, target } => {
                    let mid = flow::reached(caught, Some(k + 1), flow::succeeded(out, reg));
                    let to = flow::index_at(m.insns, target, 0);
                    lemma_reached(caught, Some(k + 1), flow::succeeded(out, reg));
                    lemma_reached(mid, to, flow::failed(out, reg));
                },
                OpV::BranchNonzero { reg, target } => {
                    let mid = flow::reached(caught, Some(k + 1), flow::failed(out, reg));
                    let to = flow::index_at(m.insns, target, 0);
                    lemma_reached(caught, Some(k + 1), flow::failed(out, reg));
                    lemma_reached(mid, to, flow::succeeded(out, reg));
                },
                OpV::Switch(ts) => {
                    let mid = flow::reached(caught, Some(k + 1), out);
                    lemma_reached(caught, Some(k + 1), out);
                    lemma_reached_all(m, mid, ts, 0, out);
                },
                _ => {
                    lemma_reached(caught, Some(k + 1), out);
                },
            }
        },
    }
}

proof fn lemma_pass(m: MethodV, fx: EffectsV, g: GraphV, k: int, i: int)
    requires
        0 <= k,
        g.states.len() == m.insns.len(),
    ensures
        stays(g, flow::pass(m, fx, g, k)),
        !flow::pass(m, fx, g, k).changed && k <= i < m.insns.len() && g.states[i] is Some
            ==> forall|t: int, o: StateV|
            0 <= t < g.states.len() && #[trigger] leads(m, fx, g.states[i]->0, i, t, o)
                ==> g.states[t] is Some && under(g.states[t]->0, o),
    decreases m.insns.len() - k,
{
    if k < m.insns.len() {
        let next = flow::spread(m, fx, g, k);
        lemma_spread(m, fx, g, k);
        lemma_spread_len(m, fx, g, k);
        lemma_pass(m, fx, next, k + 1, i);
    }
}

proof fn lemma_spread_len(m: MethodV, fx: EffectsV, g: GraphV, k: int)
    requires
        0 <= k < m.insns.len(),
    ensures
        flow::spread(m, fx, g, k).states.len() == g.states.len(),
{
    match g.states[k] {
        None => {},
        Some(st) => {
            let insn = m.insns[k];
            let out = flow::step(m, fx, st, insn).0;
            lemma_handlers_len(m, g, insn.offset, 0, st);
            match insn.op {
                OpV::Switch(ts) => {
                    let caught = flow::handlers(m, g, insn.offset, 0, st);
                    lemma_reached_all_len(m, flow::reached(caught, Some(k + 1), out), ts, 0, out);
                },
                _ => {},
            }
        },
    }
}

proof fn lemma_handlers_len(m: MethodV, g: GraphV, offset: u32, j: int, o: StateV)
    ensures
        flow::handlers(m, g, offset, j, o).states.len() == g.states.len(),
    decreases m.catches.len() - j,
{
    if j < m.catches.len() {
        let (from, to, at) = m.catches[j];
        lemma_handlers_len(m, g, offset, j + 1, o);
        lemma_handlers_len(
            m,
            flow::reached(g, flow::index_at(m.insns, at, 0), o),
            offset,
            j + 1,
            o,
        );
    }
}

proof fn lemma_reached_all_len(m: MethodV, g: GraphV, ts: Seq<u32>, j: int, o: StateV)
    ensures
        flow::reached_all(m, g, ts, j, o).states.len() == g.states.len(),
    decreases ts.len() - j,
{
    if j < ts.len() {
        let t = flow::index_at(m.insns, ts[j], 0);
        lemma_reached_all_len(m, flow::reached(g, t, o), ts, j + 1, o);
    }
}

proof fn lemma_pass_len(m: MethodV, fx: EffectsV, g: GraphV, k: int)
    requires
        0 <= k,
    ensures
        flow::pass(m, fx, g, k).states.len() == g.states.len(),
    decreases m.insns.len() - k,
{
    if k < m.insns.len() {
        lemma_spread_len(m, fx, g, k);
        lemma_pass_len(m, fx, flow::spread(m, fx, g, k), k + 1);
    }
}

proof fn lemma_settled(m: MethodV, fx: EffectsV, sts: Seq<Option<StateV>>)
    requires
        sts.len() == m.insns.len(),
    ensures
        flow::settled(m, fx, sts).len() == sts.len(),
        at_rest(m, fx, flow::settled(m, fx, sts)),
    decreases settle::waiting(sts), settle::known(sts),
{
    let g = GraphV { states: sts, changed: false };
    let r = flow::pass(m, fx, g, 0);
    lemma_pass_len(m, fx, g, 0);
    settle::lemma_pass(m, fx, g, 0);
    if r.changed {
        lemma_settled(m, fx, r.states);
    } else {
        lemma_pass(m, fx, g, 0, 0);
    }
}

/// What is known before an instruction holds along every edge to it: along each branch, fall
/// through and exception edge from an instruction that is reached, the instruction it leads
/// to is reached, and each lock held there is held along the edge at least as often. And the
/// first instruction is reached, with nothing known that does not hold on entry.
pub proof fn law_held_on_every_path(
    m: MethodV,
    fx: EffectsV,
    entry: Seq<LockV>,
    k: int,
    t: int,
    o: StateV,
)
    requires
        0 <= k < m.insns.len(),
        0 <= t < m.insns.len(),
        flow::states(m, fx, entry)[k] is Some,
        leads(m, fx, flow::states(m, fx, entry)[k]->0, k, t, o),
    ensures
        flow::states(m, fx, entry)[t] is Some,
        under(flow::states(m, fx, entry)[t]->0, o),
        flow::states(m, fx, entry)[0] is Some,
        under(flow::states(m, fx, entry)[0]->0, flow::start(m, entry)),
{
    let sts = flow::states(m, fx, entry);
    lemma_settled(m, fx, flow::first(m, entry));
    lemma_pass(m, fx, GraphV { states: sts, changed: false }, 0, k);
    lemma_still_reached(m, fx, flow::first(m, entry), 0);
}

/// Each instruction that was reached still is, and no more is known there.
spec fn keeps(g: GraphV, r: GraphV) -> bool {
    g.states.len() == r.states.len() && forall|i: int|
        0 <= i < g.states.len() && g.states[i] is Some ==> #[trigger] r.states[i] is Some && under(
            r.states[i]->0,
            g.states[i]->0,
        )
}

proof fn lemma_under_chains(a: StateV, b: StateV, c: StateV)
    requires
        under(a, b),
        under(b, c),
    ensures
        under(a, c),
{
    assert forall|name: Seq<char>| #[trigger]
        flow::times(a.held, name) <= flow::times(c.held, name) by {
        assert(flow::times(a.held, name) <= flow::times(b.held, name));
        assert(flow::times(b.held, name) <= flow::times(c.held, name));
    }
    assert forall|i: int| 0 <= i < a.freed.len() implies c.freed.contains(#[trigger] a.freed[i]) by {
        assert(b.freed.contains(a.freed[i]));
        let j = choose|j: int| 0 <= j < b.freed.len() && b.freed[j] == a.freed[i];
        assert(c.freed.contains(b.freed[j]));
    }
}

proof fn lemma_common_within(a: Seq<Seq<char>>, b: Seq<Seq<char>>, k: int, acc: Seq<Seq<char>>)
    requires
        0 <= k,
        forall|i: int| 0 <= i < acc.len() ==> a.contains(#[trigger] acc[i]),
    ensures
        forall|i: int|
            0 <= i < flow::common_names(a, b, k, acc).len() ==> a.contains(
                #[trigger] flow::common_names(a, b, k, acc)[i],
            ),
    decreases a.len() - k,
{
    if k < a.len() {
        let next = if b.contains(a[k]) {
            acc.push(a[k])
        } else {
            acc
        };
        assert(a.contains(a[k]));
        lemma_common_within(a, b, k + 1, next);
        assert(flow::common_names(a, b, k, acc) == flow::common_names(a, b, k + 1, next));
    }
}

proof fn lemma_joined_under(a: StateV, o: StateV)
    ensures
        under(flow::joined(a, o), a),
        under(a, a),
{
    lemma_common_within(a.freed, o.freed, 0, Seq::empty());
    assert forall|name: Seq<char>| #[trigger]
        flow::times(flow::joined(a, o).held, name) <= flow::times(a.held, name) by {
        law_join_keeps_the_smaller_count(a, o, name);
    }
    assert forall|i: int| 0 <= i < a.freed.len() implies a.freed.contains(#[trigger] a.freed[i]) by {}
}

proof fn lemma_keeps_chains(a: GraphV, b: GraphV, c: GraphV)
    requires
        keeps(a, b),
        keeps(b, c),
    ensures
        keeps(a, c),
{
    assert forall|i: int| 0 <= i < a.states.len() && a.states[i] is Some implies
        #[trigger] c.states[i] is Some && under(c.states[i]->0, a.states[i]->0) by {
        assert(b.states[i] is Some);
        assert(c.states[i] is Some);
        lemma_under_chains(c.states[i]->0, b.states[i]->0, a.states[i]->0);
    }
}

proof fn lemma_reached_keeps(g: GraphV, t: Option<int>, o: StateV)
    ensures
        keeps(g, flow::reached(g, t, o)),
        keeps(g, g),
{
    assert forall|i: int| 0 <= i < g.states.len() && g.states[i] is Some implies
        #[trigger] flow::reached(g, t, o).states[i] is Some && under(
        flow::reached(g, t, o).states[i]->0,
        g.states[i]->0,
    ) && under(g.states[i]->0, g.states[i]->0) by {
        lemma_joined_under(g.states[i]->0, o);
    }
    assert forall|i: int| 0 <= i < g.states.len() && g.states[i] is Some implies
        #[trigger] g.states[i] is Some && under(g.states[i]->0, g.states[i]->0) by {
        lemma_joined_under(g.states[i]->0, o);
    }
}

proof fn lemma_reached_all_keeps(m: MethodV, g: GraphV, ts: Seq<u32>, j: int, o: StateV)
    ensures
        keeps(g, flow::reached_all(m, g, ts, j, o)),
    decreases ts.len() - j,
{
    lemma_reached_keeps(g, None, o);
    if j < ts.len() {
        let t = flow::index_at(m.insns, ts[j], 0);
        let next = flow::reached(g, t, o);
        lemma_reached_keeps(g, t, o);
        lemma_reached_all_keeps(m, next, ts, j + 1, o);
        lemma_keeps_chains(g, next, flow::reached_all(m, next, ts, j + 1, o));
    }
}

proof fn lemma_handlers_keep(m: MethodV, g: GraphV, offset: u32, j: int, o: StateV)
    ensures
        keeps(g, flow::handlers(m, g, offset, j, o)),
    decreases m.catches.len() - j,
{
    lemma_reached_keeps(g, None, o);
    if j < m.catches.len() {
        let (from, to, at) = m.catches[j];
        let t = flow::index_at(m.insns, at, 0);
        let next = if from <= offset && offset < to {
            flow::reached(g, t, o)
        } else {
            g
        };
        lemma_reached_keeps(g, t, o);
        lemma_handlers_keep(m, next, offset, j + 1, o);
        lemma_keeps_chains(g, next, flow::handlers(m, next, offset, j + 1, o));
    }
}

proof fn lemma_two_keep(g: GraphV, t: Option<int>, o: StateV, t2: Option<int>, o2: StateV)
    ensures
        keeps(g, flow::reached(flow::reached(g, t, o), t2, o2)),
{
    let mid = flow::reached(g, t, o);
    lemma_reached_keeps(g, t, o);
    lemma_reached_keeps(mid, t2, o2);
    lemma_keeps_chains(g, mid, flow::reached(mid, t2, o2));
}

proof fn lemma_spread_keeps(m: MethodV, fx: EffectsV, g: GraphV, k: int)
    requires
        0 <= k < m.insns.len(),
        g.states.len() == m.insns.len(),
    ensures
        keeps(g, flow::spread(m, fx, g, k)),
{
    lemma_reached_keeps(g, None, flow::start(m, Seq::empty()));
    if let Some(st) = g.states[k] {
        let insn = m.insns[k];
        let out = flow::step(m, fx, st, insn).0;
        let caught = flow::handlers(m, g, insn.offset, 0, st);
        let r = flow::spread(m, fx, g, k);
        lemma_handlers_keep(m, g, insn.offset, 0, st);
        lemma_reached_keeps(caught, None, st);
        match insn.op {
            OpV::Goto(t) => {
                lemma_reached_keeps(caught, flow::index_at(m.insns, t, 0), out);
            },
            OpV::Branch(t) => {
                lemma_two_keep(caught, Some(k + 1), out, flow::index_at(m.insns, t, 0), out);
            },
            OpV::BranchZero { reg, target } => {
                let to = flow::index_at(m.insns, target, 0);
                let (won, lost) = (flow::succeeded(out, reg), flow::failed(out, reg));
                lemma_two_keep(caught, Some(k + 1), won, to, lost);
            },
            OpV::BranchNonzero { reg, target } => {
                let to = flow::index_at(m.insns, target, 0);
                let (won, lost) = (flow::succeeded(out, reg), flow::failed(out, reg));
                lemma_two_keep(caught, Some(k + 1), lost, to, won);
            },
            OpV::Switch(ts) => {
                let mid = flow::reached(caught, Some(k + 1), out);
                lemma_reached_keeps(caught, Some(k + 1), out);
                lemma_reached_all_keeps(m, mid, ts, 0, out);
                lemma_keeps_chains(caught, mid, r);
            },
            _ => {
                lemma_reached_keeps(caught, Some(k + 1), out);
            },
        }
        lemma_keeps_chains(g, caught, r);
    }
}

proof fn lemma_pass_keeps(m: MethodV, fx: EffectsV, g: GraphV, k: int)
    requires
        0 <= k,
        g.states.len() == m.insns.len(),
    ensures
        keeps(g, flow::pass(m, fx, g, k)),
    decreases m.insns.len() - k,
{
    lemma_reached_keeps(g, None, flow::start(m, Seq::empty()));
    if k < m.insns.len() {
        let next = flow::spread(m, fx, g, k);
        lemma_spread_keeps(m, fx, g, k);
        lemma_pass_keeps(m, fx, next, k + 1);
        lemma_keeps_chains(g, next, flow::pass(m, fx, next, k + 1));
    }
}

proof fn lemma_still_reached(m: MethodV, fx: EffectsV, sts: Seq<Option<StateV>>, i: int)
    requires
        sts.len() == m.insns.len(),
        0 <= i < sts.len(),
        sts[i] is Some,
    ensures
        flow::settled(m, fx, sts)[i] is Some,
        under(flow::settled(m, fx, sts)[i]->0, sts[i]->0),
    decreases settle::waiting(sts), settle::known(sts),
{
    let g = GraphV { states: sts, changed: false };
    let r = flow::pass(m, fx, g, 0);
    lemma_pass_keeps(m, fx, g, 0);
    settle::lemma_pass(m, fx, g, 0);
    assert(r.states[i] is Some);
    if r.changed {
        lemma_still_reached(m, fx, r.states, i);
        lemma_under_chains(flow::settled(m, fx, sts)[i]->0, r.states[i]->0, sts[i]->0);
    }
}

/// A lock that is tried is held where the result is found not to be zero, and nowhere else:
/// not behind the call, and not where it is found to be zero. A copy of the result serves
/// as well.
pub proof fn law_try_lock_is_held_on_success_only(
    m: MethodV,
    fx: EffectsV,
    st: StateV,
    inv: InvokeV,
    line: Option<u32>,
    at: u32,
    dst: u32,
    copy: u32,
)
    requires
        juc::meaning(inv.class, inv.name) == Some(LockCall::TryAcquire),
        regs::receiver(st.regs, inv) is Some,
    ensures
        ({
            let lock = regs::receiver(st.regs, inv)->0.ground(m.class, m.key());
            let called = flow::after_call(m, fx, st, inv, line, at).0;
            let got = flow::step(m, fx, called, (InsnV { offset: at, op: OpV::MoveResult { dst }, writes: None })).0;
            let two = flow::step(
                m,
                fx,
                got,
                (InsnV { offset: at, op: OpV::Move { dst: copy, src: dst }, writes: None }),
            ).0;
            &&& called.held == st.held
            &&& got.held == st.held
            &&& flow::succeeded(got, dst).held == st.held.push(lock)
            &&& flow::failed(got, dst).held == st.held
            &&& flow::succeeded(two, copy).held == st.held.push(lock)
            &&& flow::failed(two, copy).held == st.held
            &&& flow::succeeded(two, dst).held == st.held.push(lock)
            &&& flow::succeeded(flow::succeeded(two, copy), dst).held == st.held.push(lock)
            &&& flow::succeeded(flow::overwritten(got, dst), dst).held == st.held
        }),
{
}

proof fn lemma_round(ms: Seq<MethodV>, fx: EffectsV, spent: SpentV, k: int, acc: EffectsV)
    requires
        0 <= k,
        keyed(acc),
        rounds::tended(flow::MAX_EFFECT_CHANGES, acc, flow::keys_of(ms), spent),
    ensures
        keyed(flow::effects_round(ms, fx, spent, k, acc)),
        rounds::tended(
            flow::MAX_EFFECT_CHANGES,
            flow::effects_round(ms, fx, spent, k, acc),
            flow::keys_of(ms),
            spent,
        ),
    decreases ms.len() - k,
{
    if k < ms.len() {
        let e = flow::net(ms[k], fx);
        let key = ms[k].key();
        let given_up = rounds::is_unsettled(flow::MAX_EFFECT_CHANGES, spent, key);
        let next = if !given_up && (e.takes.len() > 0 || e.frees.len() > 0) {
            acc.put(key, e)
        } else {
            acc
        };
        lemma_keyed(acc, key, e);
        assert(flow::keys_of(ms)[k] == key);
        assert(flow::keys_of(ms).contains(key));
        lemma_round(ms, fx, spent, k + 1, next);
    }
}

proof fn lemma_effects(ms: Seq<MethodV>, fx: EffectsV, spent: SpentV)
    requires
        rounds::tended(flow::MAX_EFFECT_CHANGES, fx, flow::keys_of(ms), spent),
    ensures
        ({
            let (r, s) = flow::effects_settled(ms, fx, spent);
            &&& flow::effects_round(ms, r, s, 0, DictV::none()).map == r.map
            &&& rounds::tended(flow::MAX_EFFECT_CHANGES, r, flow::keys_of(ms), s)
        }),
    decreases rounds::left(flow::MAX_EFFECT_CHANGES, flow::keys_of(ms), spent, 0),
{
    let keys = flow::keys_of(ms);
    let next = flow::effects_round(ms, fx, spent, 0, DictV::none());
    lemma_round(ms, fx, spent, 0, DictV::none());
    if rounds::any_shifts(flow::MAX_EFFECT_CHANGES, keys, fx, next, spent) {
        let more = rounds::spent_on(flow::MAX_EFFECT_CHANGES, keys, fx, next, spent, 0);
        rounds::lemma_left_falls(flow::MAX_EFFECT_CHANGES, keys, fx, next, spent);
        rounds::lemma_steady(flow::MAX_EFFECT_CHANGES, next, keys, more, 0, DictV::none());
        lemma_effects(ms, rounds::steady(flow::MAX_EFFECT_CHANGES, next, more, 0, DictV::none()), more);
    } else {
        rounds::lemma_rest(flow::MAX_EFFECT_CHANGES, keys, fx, next, spent);
    }
}

/// The net effects of the methods are a fixpoint: each is what its method does where every
/// call has the effect of what it calls. A method whose effect keeps changing, as that of
/// unbalanced recursion can, has none.
pub proof fn law_effects_are_a_fixpoint(d: DexV, key: Seq<char>)
    ensures
        ({
            let (fx, spent) = flow::effects_settled(d.methods(), DictV::none(), DictV::none());
            &&& fx == flow::all_effects(d)
            &&& flow::effects_round(d.methods(), fx, spent, 0, DictV::none()).map == fx.map
            &&& flow::unsettled(d, key) ==> fx.get(key) is None
        }),
{
    lemma_effects(d.methods(), DictV::none(), DictV::none());
}

} // verus!

//! What the findings of the race pass promise: which accesses count, which lock is a field's
//! guard, and that no field with an inconsistent discipline is missed.

use crate::dex::binder;
use crate::dex::ctx::answers;
use crate::dex::ctx::index;
use crate::dex::ctx::index::IndexV;
use crate::dex::flow;
use crate::dex::flow::EventV;
use crate::dex::hierarchy;
use crate::dex::model;
use crate::dex::model::{ClassV, DexV, MethodV};
use crate::dex::race;
use crate::dex::race::{AccessV, FindingV, RawV};
use crate::dex::remote;
use crate::dict;
use crate::dict::DictV;
use crate::names;
use crate::sort;
use crate::text;
use vstd::prelude::*;

verus! {

/// The accesses to one field.
pub open spec fn of_field(rs: Seq<RawV>, field: Seq<char>) -> Seq<RawV> {
    rs.filter(|r: RawV| r.field == field)
}

/// The accesses at which a lock is held.
pub open spec fn under(rs: Seq<RawV>, lock: Seq<char>) -> Seq<RawV> {
    rs.filter(|r: RawV| r.held.contains(lock))
}

/// The writes with no lock held on any path.
pub open spec fn open_writes(rs: Seq<RawV>) -> Seq<RawV> {
    rs.filter(|r: RawV| r.write && r.unlocked)
}

/// An access as it is reported.
pub open spec fn reported(d: DexV, v: IndexV) -> spec_fn(RawV) -> AccessV {
    |r: RawV|
        AccessV {
            method: v.methods[r.method as int].key,
            file: {
                let f = v.files[v.methods[r.method as int].file as int];
                if f.len() == 0 {
                    None
                } else {
                    Some(f)
                }
            },
            line: r.line,
            write: r.write,
            held: r.held,
            concurrent: race::is_concurrent(d, v, r.method as int),
        }
}

proof fn lemma_held_at(rs: Seq<RawV>, lock: Seq<char>, k: int)
    requires
        0 <= k <= rs.len(),
    ensures
        race::held_at(rs, lock, 0) == under(rs.take(k), lock).len() + race::held_at(rs, lock, k),
        k == rs.len() ==> race::held_at(rs, lock, 0) == under(rs, lock).len(),
    decreases k,
{
    reveal(Seq::filter);
    if k > 0 {
        lemma_held_at(rs, lock, k - 1);
        assert(rs.take(k).drop_last() =~= rs.take(k - 1));
        assert(rs.take(k).last() == rs[k - 1]);
    }
    if k == rs.len() {
        assert(rs.take(k) =~= rs);
    }
}

proof fn lemma_locks_from(rs: Seq<RawV>, k: int, acc: Seq<Seq<char>>, l: Seq<char>)
    requires
        0 <= k,
    ensures
        race::locks_from(rs, k, acc).contains(l) <==> acc.contains(l) || exists|i: int|
            k <= i < rs.len() && (#[trigger] rs[i]).held.contains(l),
    decreases rs.len() - k,
{
    if k < rs.len() {
        let next = race::held_with(rs[k].held, 0, acc);
        lemma_held_with(rs[k].held, 0, acc, l);
        lemma_locks_from(rs, k + 1, next, l);
        if rs[k].held.contains(l) {
            let j = choose|j: int| 0 <= j < rs[k].held.len() && rs[k].held[j] == l;
            assert(rs[k].held[j] == l);
        }
    }
}

proof fn lemma_held_with(ns: Seq<Seq<char>>, k: int, acc: Seq<Seq<char>>, l: Seq<char>)
    requires
        0 <= k,
    ensures
        race::held_with(ns, k, acc).contains(l) <==> acc.contains(l) || exists|i: int|
            k <= i < ns.len() && #[trigger] ns[i] == l,
    decreases ns.len() - k,
{
    if k < ns.len() {
        names::lemma_with(acc, ns[k]);
        lemma_held_with(ns, k + 1, names::with(acc, ns[k]), l);
    }
}

proof fn lemma_most(rs: Seq<RawV>, locks: Seq<Seq<char>>, k: int, best: Option<(Seq<char>, nat)>, l: Seq<char>)
    requires
        0 <= k,
        best matches Some((name, n)) ==> n == race::held_at(rs, name, 0),
    ensures
        match race::most_held(rs, locks, k, best) {
            Some((name, n)) => {
                &&& n == race::held_at(rs, name, 0)
                &&& (best matches Some((b, _)) && name == b) || exists|i: int|
                    k <= i < locks.len() && #[trigger] locks[i] == name
                &&& forall|i: int|
                    k <= i < locks.len() && #[trigger] locks[i] == l ==> race::held_at(rs, l, 0) < n
                        || race::held_at(rs, l, 0) == n && text::lex_le(name, l)
                &&& best matches Some((b, c)) ==> c < n || c == n && text::lex_le(name, b)
            },
            None => best is None && k >= locks.len(),
        },
    decreases locks.len() - k,
{
    text::lemma_lex_order();
    if k < locks.len() {
        let name = locks[k];
        let n = race::held_at(rs, name, 0);
        let next = match best {
            None => Some((name, n)),
            Some((bn, b)) => if n > b || n == b && text::lex_le(name, bn) {
                Some((name, n))
            } else {
                best
            },
        };
        lemma_most(rs, locks, k + 1, next, l);
        assert(race::most_held(rs, locks, k, best) == race::most_held(rs, locks, k + 1, next));
    }
}

/// The candidate guard of a field's accesses is a lock that is held at some of them, and at
/// no fewer than any other; of two that are held at as many it is the one whose name comes
/// first. There is none only where no lock is held at all.
pub proof fn law_guard_is_held_the_most(rs: Seq<RawV>, l: Seq<char>)
    ensures
        match race::guard_of(rs) {
            Some((guard, n)) => {
                &&& n == under(rs, guard).len()
                &&& n > 0
                &&& under(rs, l).len() <= n
                &&& under(rs, l).len() == n ==> text::lex_le(guard, l)
            },
            None => under(rs, l).len() == 0,
        },
{
    let locks = race::locks_from(rs, 0, Seq::empty());
    let p = |r: RawV| r.held.contains(l);
    lemma_most(rs, locks, 0, None, l);
    lemma_held_at(rs, l, rs.len() as int);
    lemma_locks_from(rs, 0, Seq::empty(), l);
    if under(rs, l).len() > 0 {
        let x = under(rs, l)[0];
        assert(under(rs, l).contains(x));
        answers::lemma_filtered(rs, p, x);
        let i = choose|i: int| 0 <= i < rs.len() && rs[i] == x;
        assert(rs[i].held.contains(l));
        assert(locks.contains(l));
        let j = choose|j: int| 0 <= j < locks.len() && locks[j] == l;
        assert(locks[j] == l);
    }
    match race::guard_of(rs) {
        Some((guard, n)) => {
            let q = |r: RawV| r.held.contains(guard);
            lemma_held_at(rs, guard, rs.len() as int);
            lemma_locks_from(rs, 0, Seq::empty(), guard);
            assert(locks.contains(guard));
            let i = choose|i: int| 0 <= i < rs.len() && (#[trigger] rs[i]).held.contains(guard);
            assert(rs.contains(rs[i]));
            answers::lemma_filtered(rs, q, rs[i]);
            assert(under(rs, guard).contains(rs[i]));
        },
        None => {},
    }
}

proof fn lemma_guarded_from(
    d: DexV,
    v: IndexV,
    rs: Seq<RawV>,
    guard: Seq<char>,
    k: int,
)
    requires
        0 <= k <= rs.len(),
    ensures
        race::guarded_from(d, v, rs, guard, k, under(rs.take(k), guard).map_values(reported(d, v)))
            == under(rs, guard).map_values(reported(d, v)),
    decreases rs.len() - k,
{
    reveal(Seq::filter);
    let f = reported(d, v);
    let acc = under(rs.take(k), guard).map_values(f);
    if k < rs.len() {
        lemma_guarded_from(d, v, rs, guard, k + 1);
        assert(rs.take(k + 1).drop_last() =~= rs.take(k));
        assert(rs.take(k + 1).last() == rs[k]);
        assert(race::shown(d, v, rs[k]) == f(rs[k]));
        if rs[k].held.contains(guard) {
            assert(under(rs.take(k + 1), guard).map_values(f) =~= acc.push(f(rs[k])));
        }
    } else {
        assert(rs.take(k) =~= rs);
    }
}

proof fn lemma_unguarded_from(d: DexV, v: IndexV, rs: Seq<RawV>, k: int)
    requires
        0 <= k <= rs.len(),
    ensures
        race::unguarded_from(d, v, rs, k, open_writes(rs.take(k)).map_values(reported(d, v)))
            == open_writes(rs).map_values(reported(d, v)),
    decreases rs.len() - k,
{
    reveal(Seq::filter);
    let f = reported(d, v);
    let acc = open_writes(rs.take(k)).map_values(f);
    if k < rs.len() {
        lemma_unguarded_from(d, v, rs, k + 1);
        assert(rs.take(k + 1).drop_last() =~= rs.take(k));
        assert(rs.take(k + 1).last() == rs[k]);
        assert(race::shown(d, v, rs[k]) == f(rs[k]));
        if rs[k].write && rs[k].unlocked {
            assert(open_writes(rs.take(k + 1)).map_values(f) =~= acc.push(f(rs[k])));
        }
    } else {
        assert(rs.take(k) =~= rs);
    }
}

/// What is found of the accesses to one field.
pub open spec fn finds(
    d: DexV,
    v: IndexV,
    min_guarded: usize,
    field: Seq<char>,
    rs: Seq<RawV>,
    f: FindingV,
) -> bool {
    &&& f.field == field
    &&& !d.final_or_volatile_fields.contains(field)
    &&& f.guarded == under(rs, f.guard).len()
    &&& f.guarded >= min_guarded
    &&& f.guarded > 0
    &&& forall|l: Seq<char>|
        #![trigger under(rs, l)]
        under(rs, l).len() < f.guarded || under(rs, l).len() == f.guarded && text::lex_le(f.guard, l)
    &&& f.total == rs.len()
    &&& f.guarded_at == under(rs, f.guard).map_values(reported(d, v))
    &&& f.unguarded == open_writes(rs).map_values(reported(d, v))
    &&& open_writes(rs).len() > 0
}

proof fn lemma_judged(
    d: DexV,
    v: IndexV,
    min_guarded: usize,
    field: Seq<char>,
    rs: Seq<RawV>,
)
    requires
        rs.len() <= usize::MAX,
    ensures
        match race::judged(d, v, min_guarded, field, rs) {
            Some(f) => finds(d, v, min_guarded, field, rs, f),
            None => {
                ||| d.final_or_volatile_fields.contains(field)
                ||| open_writes(rs).len() == 0
                ||| forall|l: Seq<char>|
                    #![trigger under(rs, l)]
                    under(rs, l).len() < min_guarded || under(rs, l).len() == 0
            },
        },
{
    reveal(Seq::filter);
    lemma_unguarded_from(d, v, rs, 0);
    assert(rs.take(0) =~= Seq::empty());
    assert(open_writes(rs.take(0)).map_values(reported(d, v)) =~= Seq::empty());
    if open_writes(rs).len() > 0 {
        let x = open_writes(rs)[0];
        let p = |r: RawV| r.write && r.unlocked;
        assert(open_writes(rs).contains(x));
        answers::lemma_filtered(rs, p, x);
        let i = choose|i: int| 0 <= i < rs.len() && rs[i] == x;
        assert(rs[i].write);
        assert(race::written(rs));
    }
    assert forall|l: Seq<char>|
        #![trigger under(rs, l)]
        match race::guard_of(rs) {
            Some((guard, n)) => {
                &&& n == under(rs, guard).len()
                &&& n > 0
                &&& under(rs, l).len() <= n
                &&& under(rs, l).len() == n ==> text::lex_le(guard, l)
            },
            None => under(rs, l).len() == 0,
        } by {
        law_guard_is_held_the_most(rs, l);
    }
    match race::guard_of(rs) {
        Some((guard, n)) => {
            law_guard_is_held_the_most(rs, guard);
            rs.filter_lemma(|r: RawV| r.held.contains(guard));
            lemma_guarded_from(d, v, rs, guard, 0);
            assert(under(rs.take(0), guard).map_values(reported(d, v)) =~= Seq::empty());
        },
        None => {},
    }
}

proof fn lemma_grouped(rs: Seq<RawV>, k: int, acc: DictV<Seq<RawV>>, field: Seq<char>)
    requires
        0 <= k <= rs.len(),
        acc.wf(),
        forall|f: Seq<char>| #[trigger]
            acc.get(f) == (if of_field(rs.take(k), f).len() == 0 {
                None
            } else {
                Some(of_field(rs.take(k), f))
            }),
    ensures
        race::grouped(rs, k, acc).wf(),
        race::grouped(rs, k, acc).get(field) == (if of_field(rs, field).len() == 0 {
            None
        } else {
            Some(of_field(rs, field))
        }),
    decreases rs.len() - k,
{
    reveal(Seq::filter);
    if k < rs.len() {
        let key = rs[k].field;
        let next = dict::put_more(acc, key, rs[k]);
        assert(rs.take(k + 1).drop_last() =~= rs.take(k));
        assert(rs.take(k + 1).last() == rs[k]);
        names::lemma_with(acc.keys, key);
        assert(next.wf()) by {
            assert forall|x: Seq<char>| #[trigger]
                next.map.contains_key(x) <==> next.keys.contains(x) by {
                assert(acc.map.contains_key(x) <==> acc.keys.contains(x));
            }
        }
        assert forall|f: Seq<char>| #[trigger]
            next.get(f) == (if of_field(rs.take(k + 1), f).len() == 0 {
                None
            } else {
                Some(of_field(rs.take(k + 1), f))
            }) by {
            let before = acc.get(f);
            if f == key {
                let list = dict::list_at(acc, f);
                assert(list =~= of_field(rs.take(k), f));
                assert(next.get(f) == Some(list.push(rs[k])));
            } else {
                assert(next.get(f) == acc.get(f));
            }
        }
        lemma_grouped(rs, k + 1, next, field);
    } else {
        assert(rs.take(k) =~= rs);
        assert(acc.get(field) == acc.get(field));
    }
}

proof fn lemma_judged_from(
    d: DexV,
    v: IndexV,
    min_guarded: usize,
    g: DictV<Seq<RawV>>,
    k: int,
    acc: Seq<FindingV>,
    f: FindingV,
)
    requires
        0 <= k,
    ensures
        race::judged_from(d, v, min_guarded, g, k, acc).contains(f) <==> acc.contains(f) || exists|
            i: int,
        |
            k <= i < g.keys.len() && race::judged(
                d,
                v,
                min_guarded,
                #[trigger] g.keys[i],
                g.get(g.keys[i])->0,
            ) == Some(f),
    decreases g.keys.len() - k,
{
    if k < g.keys.len() {
        match race::judged(d, v, min_guarded, g.keys[k], g.get(g.keys[k])->0) {
            Some(x) => {
                lemma_judged_from(d, v, min_guarded, g, k + 1, acc.push(x), f);
                answers::lemma_pushed(acc, x, f);
            },
            None => {
                lemma_judged_from(d, v, min_guarded, g, k + 1, acc, f);
            },
        }
    }
}

proof fn lemma_of_field_bound(rs: Seq<RawV>, field: Seq<char>)
    ensures
        of_field(rs, field).len() <= rs.len(),
{
    rs.filter_lemma(|r: RawV| r.field == field);
}

/// Every finding says of its field what the accesses to that field say: the guard is the lock
/// held at the most of them, and at enough; the counts and the evidence are those of the
/// accesses that hold it; and what is reported is every write without a lock on any path, of
/// which there is one.
pub proof fn law_findings_say_what_the_accesses_say(
    d: DexV,
    v: IndexV,
    min_guarded: usize,
    f: FindingV,
)
    requires
        race::accesses(d, v).len() <= usize::MAX,
        race::inconsistent(d, v, min_guarded).contains(f),
    ensures
        finds(d, v, min_guarded, f.field, of_field(race::accesses(d, v), f.field), f),
{
    let rs = race::accesses(d, v);
    let g = race::grouped(rs, 0, DictV::none());
    assert forall|x: Seq<char>| #[trigger]
        DictV::<Seq<RawV>>::none().get(x) == (if of_field(rs.take(0), x).len() == 0 {
            None
        } else {
            Some(of_field(rs.take(0), x))
        }) by {
        lemma_of_field_bound(rs.take(0), x);
    }
    lemma_judged_from(d, v, min_guarded, g, 0, Seq::empty(), f);
    let i = choose|i: int|
        0 <= i < g.keys.len() && race::judged(
            d,
            v,
            min_guarded,
            #[trigger] g.keys[i],
            g.get(g.keys[i])->0,
        ) == Some(f);
    let field = g.keys[i];
    lemma_grouped(rs, 0, DictV::none(), field);
    assert(g.keys.contains(field));
    assert(g.map.contains_key(field));
    lemma_of_field_bound(rs, field);
    lemma_judged(d, v, min_guarded, field, of_field(rs, field));
}

/// No field with an inconsistent discipline is missed: one that is neither final nor
/// volatile, has a lock held at enough of its accesses, and is written somewhere with no lock
/// on any path, is among the findings.
pub proof fn law_inconsistent_fields_are_found(
    d: DexV,
    v: IndexV,
    min_guarded: usize,
    field: Seq<char>,
    lock: Seq<char>,
    w: RawV,
)
    requires
        race::accesses(d, v).len() <= usize::MAX,
        !d.final_or_volatile_fields.contains(field),
        under(of_field(race::accesses(d, v), field), lock).len() >= min_guarded,
        under(of_field(race::accesses(d, v), field), lock).len() > 0,
        race::accesses(d, v).contains(w),
        w.field == field,
        w.write,
        w.unlocked,
    ensures
        exists|f: FindingV| #[trigger]
            race::inconsistent(d, v, min_guarded).contains(f) && f.field == field,
{
    let all = race::accesses(d, v);
    let rs = of_field(all, field);
    let g = race::grouped(all, 0, DictV::none());
    assert forall|x: Seq<char>| #[trigger]
        DictV::<Seq<RawV>>::none().get(x) == (if of_field(all.take(0), x).len() == 0 {
            None
        } else {
            Some(of_field(all.take(0), x))
        }) by {
        lemma_of_field_bound(all.take(0), x);
    }
    answers::lemma_filtered(all, |r: RawV| r.field == field, w);
    assert(rs.contains(w));
    answers::lemma_filtered(rs, |r: RawV| r.write && r.unlocked, w);
    assert(open_writes(rs).contains(w));
    lemma_grouped(all, 0, DictV::none(), field);
    assert(g.map.contains_key(field));
    assert(g.keys.contains(field));
    let i = choose|i: int| 0 <= i < g.keys.len() && g.keys[i] == field;
    lemma_of_field_bound(all, field);
    lemma_judged(d, v, min_guarded, field, rs);
    match race::judged(d, v, min_guarded, field, rs) {
        Some(f) => {
            lemma_judged_from(d, v, min_guarded, g, 0, Seq::empty(), f);
            assert(race::judged(d, v, min_guarded, g.keys[i], g.get(g.keys[i])->0) == Some(f));
            assert(race::inconsistent(d, v, min_guarded).contains(f));
        },
        None => {
            assert(under(rs, lock).len() >= min_guarded);
        },
    }
}

/// A thread may enter the program at the method: it is the `run` of a `Runnable` or of a
/// `Thread`, or the `handleMessage` of a `Handler`.
pub open spec fn runs_on_a_thread(d: DexV, m: MethodV) -> bool {
    let par = hierarchy::parents(d.classes);
    ||| m.name == "run"@ && m.sig == "()V"@ && hierarchy::is_above(
        par,
        m.class,
        "java.lang.Runnable"@,
    )
    ||| m.name == "run"@ && m.sig == "()V"@ && hierarchy::is_above(
        par,
        m.class,
        "java.lang.Thread"@,
    )
    ||| m.name == "handleMessage"@ && m.sig == "(Landroid/os/Message;)V"@ && hierarchy::is_above(
        par,
        m.class,
        "android.os.Handler"@,
    )
}

/// The method implements what a type above its class declares that stands itself below
/// `android.os.IInterface`.
pub open spec fn serves_aidl(d: DexV, m: MethodV) -> bool {
    let par = hierarchy::parents(d.classes);
    exists|a: Seq<char>, c: int, j: int|
        #![trigger model::key_of(a, m.name, m.sig), d.classes[c].methods[j]]
        hierarchy::is_above(par, m.class, a) && 0 <= c < d.classes.len() && hierarchy::is_above(
            par,
            d.classes[c].descriptor,
            "android.os.IInterface"@,
        ) && 0 <= j < d.classes[c].methods.len() && model::key_of(a, m.name, m.sig)
            == model::key_of(
            d.classes[c].descriptor,
            d.classes[c].methods[j].name,
            d.classes[c].methods[j].sig,
        )
}

proof fn lemma_keys_from(ms: Seq<MethodV>, c: Seq<char>, k: int, acc: Seq<Seq<char>>, x: Seq<char>)
    requires
        0 <= k,
    ensures
        race::keys_from(ms, c, k, acc).contains(x) <==> acc.contains(x) || exists|j: int|
            k <= j < ms.len() && x == model::key_of(c, (#[trigger] ms[j]).name, ms[j].sig),
    decreases ms.len() - k,
{
    if k < ms.len() {
        let key = model::key_of(c, ms[k].name, ms[k].sig);
        names::lemma_with(acc, key);
        lemma_keys_from(ms, c, k + 1, names::with(acc, key), x);
    }
}

/// A type below `android.os.IInterface` declares the operation of that key.
pub open spec fn declares(cs: Seq<ClassV>, c: int, j: int, x: Seq<char>) -> bool {
    &&& hierarchy::ancestors(cs, cs[c].descriptor).contains("android.os.IInterface"@)
    &&& 0 <= j < cs[c].methods.len()
    &&& x == model::key_of(cs[c].descriptor, cs[c].methods[j].name, cs[c].methods[j].sig)
}

proof fn lemma_aidl_keys(cs: Seq<ClassV>, k: int, acc: Seq<Seq<char>>, x: Seq<char>)
    requires
        0 <= k,
    ensures
        race::aidl_keys(cs, k, acc).contains(x) <==> acc.contains(x) || exists|c: int, j: int|
            k <= c < cs.len() && #[trigger] declares(cs, c, j, x),
    decreases cs.len() - k,
{
    if k < cs.len() {
        let own = hierarchy::ancestors(cs, cs[k].descriptor).contains("android.os.IInterface"@);
        let next = if own {
            race::keys_from(cs[k].methods, cs[k].descriptor, 0, acc)
        } else {
            acc
        };
        lemma_keys_from(cs[k].methods, cs[k].descriptor, 0, acc, x);
        lemma_aidl_keys(cs, k + 1, next, x);
        let ms = cs[k].methods;
        if own && exists|j: int|
            0 <= j < ms.len() && x == model::key_of(
                cs[k].descriptor,
                (#[trigger] ms[j]).name,
                ms[j].sig,
            ) {
            let j = choose|j: int|
                0 <= j < ms.len() && x == model::key_of(
                    cs[k].descriptor,
                    (#[trigger] ms[j]).name,
                    ms[j].sig,
                );
            assert(declares(cs, k, j, x));
        }
        if exists|c: int, j: int| k <= c < cs.len() && #[trigger] declares(cs, c, j, x) {
            let (c, j) = choose|c: int, j: int|
                k <= c < cs.len() && #[trigger] declares(cs, c, j, x);
            if c == k {
                assert(x == model::key_of(cs[k].descriptor, ms[j].name, ms[j].sig));
            } else {
                assert(k + 1 <= c < cs.len() && declares(cs, c, j, x));
            }
        }
    }
}

proof fn lemma_roots_from(
    ms: Seq<MethodV>,
    cs: Seq<ClassV>,
    aidl: Seq<Seq<char>>,
    k: int,
    acc: Seq<usize>,
    m: usize,
)
    requires
        0 <= k,
        ms.len() <= usize::MAX,
    ensures
        race::roots_from(ms, cs, aidl, k, acc).contains(m) <==> acc.contains(m) || (k <= m
            < ms.len() && race::is_root(ms[m as int], cs, aidl)),
    decreases ms.len() - k,
{
    if k < ms.len() {
        let next = if race::is_root(ms[k], cs, aidl) {
            acc.push(k as usize)
        } else {
            acc
        };
        lemma_roots_from(ms, cs, aidl, k + 1, next, m);
        answers::lemma_pushed(acc, k as usize, m);
    }
}

proof fn lemma_serves(d: DexV, m: MethodV)
    ensures
        race::serves(
            m,
            hierarchy::ancestors(d.classes, m.class),
            race::aidl_keys(d.classes, 0, Seq::empty()),
        ) <==> serves_aidl(d, m),
{
    let cs = d.classes;
    let par = hierarchy::parents(cs);
    let anc = hierarchy::ancestors(cs, m.class);
    let aidl = race::aidl_keys(cs, 0, Seq::empty());
    hierarchy::law_ancestors_are_all_above(cs, m.class);
    if race::serves(m, anc, aidl) {
        let i = choose|i: int|
            0 <= i < anc.len() && aidl.contains(model::key_of(#[trigger] anc[i], m.name, m.sig));
        let a = anc[i];
        assert(anc.contains(a));
        let x = model::key_of(a, m.name, m.sig);
        lemma_aidl_keys(cs, 0, Seq::empty(), x);
        let (c, j) = choose|c: int, j: int| 0 <= c < cs.len() && #[trigger] declares(cs, c, j, x);
        hierarchy::law_ancestors_are_all_above(cs, cs[c].descriptor);
        let n = d.classes[c].methods[j];
        assert(model::key_of(a, m.name, m.sig) == x);
    }
    if serves_aidl(d, m) {
        let (a, c, j) = choose|a: Seq<char>, c: int, j: int|
            #![trigger model::key_of(a, m.name, m.sig), d.classes[c].methods[j]]
            hierarchy::is_above(par, m.class, a) && 0 <= c < d.classes.len() && hierarchy::is_above(
                par,
                d.classes[c].descriptor,
                "android.os.IInterface"@,
            ) && 0 <= j < d.classes[c].methods.len() && model::key_of(a, m.name, m.sig)
                == model::key_of(
                d.classes[c].descriptor,
                d.classes[c].methods[j].name,
                d.classes[c].methods[j].sig,
            );
        let x = model::key_of(a, m.name, m.sig);
        hierarchy::law_ancestors_are_all_above(cs, cs[c].descriptor);
        assert(declares(cs, c, j, x));
        lemma_aidl_keys(cs, 0, Seq::empty(), x);
        assert(anc.contains(a));
        let i = choose|i: int| 0 <= i < anc.len() && anc[i] == a;
        assert(aidl.contains(model::key_of(anc[i], m.name, m.sig)));
    }
}

/// A thread enters the program exactly at the instance methods, constructors left out, that
/// run on a thread of their own or serve an AIDL interface.
pub proof fn law_threads_enter_at_run_handlers_and_services(d: DexV, k: usize)
    requires
        d.methods().len() <= usize::MAX,
    ensures
        race::roots(d).contains(k) <==> k < d.methods().len() && {
            let m = d.methods()[k as int];
            &&& m.access / 8 % 2 == 0
            &&& !(exists|rest: Seq<char>| m.name == #[trigger] ("<"@ + rest))
            &&& runs_on_a_thread(d, m) || serves_aidl(d, m)
        },
{
    let cs = d.classes;
    let aidl = race::aidl_keys(cs, 0, Seq::empty());
    lemma_roots_from(d.methods(), cs, aidl, 0, Seq::empty(), k);
    if k < d.methods().len() {
        let m = d.methods()[k as int];
        remote::lemma_begins(m.name, "<"@);
        hierarchy::law_ancestors_are_all_above(cs, m.class);
        lemma_serves(d, m);
    }
}

/// The method only forwards a field: it has no source line, touches a field, and neither
/// calls nor locks.
pub open spec fn only_forwards(m: MethodV) -> bool {
    &&& forall|i: int| 0 <= i < m.positions.len() ==> (#[trigger] m.positions[i]).1 == 0
    &&& exists|i: int|
        0 <= i < m.insns.len() && {
            let op = #[trigger] m.insns[i].op;
            op is Iget || op is Iput || op is Sget || op is Sput
        }
    &&& forall|i: int|
        0 <= i < m.insns.len() ==> {
            let op = #[trigger] m.insns[i].op;
            !(op is Invoke) && !(op is MonitorEnter) && !(op is MonitorExit)
        }
}

/// The access that a method makes at a field event of its own.
pub open spec fn accesses_itself(v: IndexV, m: MethodV, id: int, e: EventV, r: RawV) -> bool {
    e matches EventV::Field { class, field, write, held, line } && {
        &&& !only_forwards(m)
        &&& r.field == class + "."@ + field
        &&& r.method == id
        &&& r.line == line
        &&& r.write == write
        &&& r.held == remote::named_locks(held)
        &&& r.unlocked <==> v.may_off[id] == v.may_off[id + 1] && r.held.len() == 0
    }
}

/// The access that a call of a forwarder makes in its caller.
pub open spec fn accesses_through(
    v: IndexV,
    ms: Seq<MethodV>,
    id: int,
    e: EventV,
    j: int,
    r: RawV,
) -> bool {
    let c = v.calls[v.callers[j] as int];
    e matches EventV::Field { class, field, write, held, line } && {
        &&& only_forwards(ms[id])
        &&& v.caller_off[id] <= j < v.caller_off[id + 1]
        &&& !(exists|rest: Seq<char>| ms[c.caller as int].name == #[trigger] ("<"@ + rest))
        &&& r.field == class + "."@ + field
        &&& r.method == c.caller
        &&& r.line == Some(c.line)
        &&& r.write == write
        &&& r.held == c.held.map_values(|l: u32| v.locks[l as int])
        &&& r.unlocked <==> v.may_off[c.caller as int] == v.may_off[c.caller + 1] && r.held.len()
            == 0
    }
}

proof fn lemma_lock_names(v: IndexV, ls: Seq<u32>, k: int)
    requires
        0 <= k <= ls.len(),
    ensures
        race::lock_names(v, ls, k, ls.take(k).map_values(|l: u32| v.locks[l as int]))
            == ls.map_values(|l: u32| v.locks[l as int]),
    decreases ls.len() - k,
{
    let f = |l: u32| v.locks[l as int];
    if k < ls.len() {
        lemma_lock_names(v, ls, k + 1);
        assert(ls.take(k + 1).map_values(f) =~= ls.take(k).map_values(f).push(v.locks[ls[k] as int]));
    } else {
        assert(ls.take(k) =~= ls);
    }
}

proof fn lemma_forwarded(
    v: IndexV,
    ms: Seq<MethodV>,
    id: int,
    e: EventV,
    i: int,
    end: int,
    acc: Seq<RawV>,
    r: RawV,
)
    requires
        v.wf(),
        0 <= id < v.methods.len(),
        only_forwards(ms[id]),
        v.caller_off[id] <= i,
        end == v.caller_off[id + 1],
        e is Field,
    ensures
        race::forwarded(v, ms, e->Field_class + "."@ + e->Field_field, e->write, i, end, acc).contains(r)
            <==> acc.contains(r) || exists|j: int|
            i <= j < end && #[trigger] accesses_through(v, ms, id, e, j, r),
    decreases end - i,
{
    if i < end {
        let c = v.calls[v.callers[i] as int];
        let held = race::lock_names(v, c.held, 0, Seq::empty());
        lemma_lock_names(v, c.held, 0);
        assert(c.held.take(0).map_values(|l: u32| v.locks[l as int]) =~= Seq::empty());
        let x = RawV {
            field: e->Field_class + "."@ + e->Field_field,
            method: c.caller,
            line: Some(c.line),
            write: e->write,
            held,
            unlocked: v.row(c.caller).len() == 0 && held.len() == 0,
        };
        let a = v.may_off[c.caller as int] as int;
        let b = v.may_off[c.caller + 1] as int;
        assert(v.row(c.caller).len() == (b - a) as nat);
        assert(index::call_in(c, v.methods.len() as int, v.locks.len() as int));
        assert(a <= b);
        remote::lemma_begins(ms[c.caller as int].name, "<"@);
        let next = if race::initializes(ms[c.caller as int]) {
            acc
        } else {
            acc.push(x)
        };
        answers::lemma_pushed(acc, x, r);
        lemma_forwarded(v, ms, id, e, i + 1, end, next, r);
        assert(!race::initializes(ms[c.caller as int]) && r == x <==> accesses_through(
            v,
            ms,
            id,
            e,
            i,
            r,
        ));
    }
}

/// The access that an event of a method makes, in it or in one of its callers.
pub open spec fn accesses_at(v: IndexV, ms: Seq<MethodV>, id: int, e: EventV, r: RawV) -> bool {
    ||| accesses_itself(v, ms[id], id, e, r)
    ||| exists|j: int| #[trigger] accesses_through(v, ms, id, e, j, r)
}

proof fn lemma_raws_in(
    v: IndexV,
    ms: Seq<MethodV>,
    id: int,
    es: Seq<EventV>,
    k: int,
    acc: Seq<RawV>,
    r: RawV,
)
    requires
        0 <= k,
        v.wf(),
        0 <= id < v.methods.len(),
    ensures
        race::raws_in(v, ms, ms[id], id as u32, es, k, acc).contains(r) <==> acc.contains(r)
            || exists|i: int| k <= i < es.len() && accesses_at(v, ms, id, #[trigger] es[i], r),
    decreases es.len() - k,
{
    if k < es.len() {
        let m = ms[id];
        assert(race::is_forwarder(m) <==> only_forwards(m)) by {
            lemma_forwarder(m);
        }
        match es[k] {
            EventV::Field { class, field, write, held, line } => {
                let name = class + "."@ + field;
                if race::is_forwarder(m) {
                    let a = v.caller_off[id] as int;
                    let b = v.caller_off[id + 1] as int;
                    let next = race::forwarded(v, ms, name, write, a, b, acc);
                    lemma_forwarded(v, ms, id, es[k], a, b, acc, r);
                    lemma_raws_in(v, ms, id, es, k + 1, next, r);
                    assert(accesses_at(v, ms, id, es[k], r) <==> exists|j: int|
                        a <= j < b && #[trigger] accesses_through(v, ms, id, es[k], j, r));
                } else {
                    remote::law_held_names_are_those_of_named_locks(held);
                    let clear = binder::clear_names(held);
                    let x = RawV {
                        field: name,
                        method: id as u32,
                        line,
                        write,
                        held: clear,
                        unlocked: v.row(id as u32).len() == 0 && clear.len() == 0,
                    };
                    assert(v.may_off[id] <= v.may_off[id + 1]);
                    answers::lemma_pushed(acc, x, r);
                    lemma_raws_in(v, ms, id, es, k + 1, acc.push(x), r);
                    assert(accesses_at(v, ms, id, es[k], r) <==> r == x);
                }
            },
            _ => {
                lemma_raws_in(v, ms, id, es, k + 1, acc, r);
                assert(!accesses_at(v, ms, id, es[k], r));
            },
        }
    }
}

proof fn lemma_forwarder(m: MethodV)
    ensures
        race::is_forwarder(m) <==> only_forwards(m),
{
    if race::is_forwarder(m) {
        let i = choose|i: int| 0 <= i < m.insns.len() && race::touches((#[trigger] m.insns[i]).op);
        let op = m.insns[i].op;
        assert forall|j: int| 0 <= j < m.insns.len() implies {
            let op = #[trigger] m.insns[j].op;
            !(op is Invoke) && !(op is MonitorEnter) && !(op is MonitorExit)
        } by {
            let x = m.insns[j];
            assert(!race::acts(x.op));
        }
    }
    if only_forwards(m) {
        let i = choose|i: int|
            0 <= i < m.insns.len() && {
                let op = #[trigger] m.insns[i].op;
                op is Iget || op is Iput || op is Sget || op is Sput
            };
        assert(race::touches(m.insns[i].op));
        assert forall|j: int| 0 <= j < m.insns.len() implies !race::acts(
            (#[trigger] m.insns[j]).op,
        ) by {
            let op = m.insns[j].op;
        }
    }
}

/// What happens in the `k`th method, no lock assumed on entry that the callers within the
/// program do not all hold.
pub open spec fn happens(d: DexV, k: int) -> Seq<EventV> {
    flow::events(
        d.methods()[k],
        flow::all_effects(d),
        dict::list_at(flow::held_on_entry(d, false), d.methods()[k].key()),
    )
}

proof fn lemma_raws_from(d: DexV, v: IndexV, k: int, acc: Seq<RawV>, r: RawV)
    requires
        0 <= k,
        v.wf(),
        d.methods().len() == v.methods.len(),
    ensures
        race::raws_from(
            v,
            d.methods(),
            flow::all_effects(d),
            flow::held_on_entry(d, false),
            k,
            acc,
        ).contains(r) <==> acc.contains(r) || exists|m: int, i: int|
            #![trigger happens(d, m)[i]]
            k <= m < d.methods().len() && !race::initializes(d.methods()[m]) && 0 <= i < happens(
                d,
                m,
            ).len() && accesses_at(v, d.methods(), m, happens(d, m)[i], r),
    decreases d.methods().len() - k,
{
    let ms = d.methods();
    let fx = flow::all_effects(d);
    let entry = flow::held_on_entry(d, false);
    if k < ms.len() {
        let es = happens(d, k);
        if race::initializes(ms[k]) {
            lemma_raws_from(d, v, k + 1, acc, r);
        } else {
            let next = race::raws_in(v, ms, ms[k], k as u32, es, 0, acc);
            lemma_raws_in(v, ms, k, es, 0, acc, r);
            lemma_raws_from(d, v, k + 1, next, r);
            if exists|i: int| 0 <= i < es.len() && accesses_at(v, ms, k, #[trigger] es[i], r) {
                let i = choose|i: int|
                    0 <= i < es.len() && accesses_at(v, ms, k, #[trigger] es[i], r);
                assert(accesses_at(v, ms, k, happens(d, k)[i], r));
            }
        }
        if exists|m: int, i: int|
            #![trigger happens(d, m)[i]]
            k <= m < ms.len() && !race::initializes(ms[m]) && 0 <= i < happens(d, m).len()
                && accesses_at(v, ms, m, happens(d, m)[i], r) {
            let (m, i) = choose|m: int, i: int|
                #![trigger happens(d, m)[i]]
                k <= m < ms.len() && !race::initializes(ms[m]) && 0 <= i < happens(d, m).len()
                    && accesses_at(v, ms, m, happens(d, m)[i], r);
            if m == k {
                assert(accesses_at(v, ms, k, es[i], r));
            } else {
                assert(k + 1 <= m && accesses_at(v, ms, m, happens(d, m)[i], r));
            }
        }
    }
}

/// The accesses are exactly those that methods other than constructors and static
/// initializers make at a field: each with the names of the locks held there, and counted as
/// unlocked where none is held there and none may be held on entry. The accesses of a method
/// that only forwards a field are those of its callers.
pub proof fn law_accesses_are_the_field_events(d: DexV, v: IndexV, r: RawV)
    requires
        v.wf(),
        d.methods().len() == v.methods.len(),
    ensures
        race::accesses(d, v).contains(r) <==> exists|m: int, i: int|
            #![trigger happens(d, m)[i]]
            0 <= m < d.methods().len() && !(exists|rest: Seq<char>|
                d.methods()[m].name == #[trigger] ("<"@ + rest)) && 0 <= i < happens(d, m).len()
                && accesses_at(v, d.methods(), m, happens(d, m)[i], r),
{
    lemma_raws_from(d, v, 0, Seq::empty(), r);
    assert forall|m: int|
        #![trigger d.methods()[m]]
        race::initializes(d.methods()[m]) <==> exists|rest: Seq<char>|
            d.methods()[m].name == #[trigger] ("<"@ + rest) by {
        remote::lemma_begins(d.methods()[m].name, "<"@);
    }
    if race::accesses(d, v).contains(r) {
        let (m, i) = choose|m: int, i: int|
            #![trigger happens(d, m)[i]]
            0 <= m < d.methods().len() && !race::initializes(d.methods()[m]) && 0 <= i < happens(
                d,
                m,
            ).len() && accesses_at(v, d.methods(), m, happens(d, m)[i], r);
        let n = d.methods()[m];
        assert(accesses_at(v, d.methods(), m, happens(d, m)[i], r));
    }
    if exists|m: int, i: int|
        #![trigger happens(d, m)[i]]
        0 <= m < d.methods().len() && !(exists|rest: Seq<char>|
            d.methods()[m].name == #[trigger] ("<"@ + rest)) && 0 <= i < happens(d, m).len()
            && accesses_at(v, d.methods(), m, happens(d, m)[i], r) {
        let (m, i) = choose|m: int, i: int|
            #![trigger happens(d, m)[i]]
            0 <= m < d.methods().len() && !(exists|rest: Seq<char>|
                d.methods()[m].name == #[trigger] ("<"@ + rest)) && 0 <= i < happens(d, m).len()
                && accesses_at(v, d.methods(), m, happens(d, m)[i], r);
        let n = d.methods()[m];
        assert(!race::initializes(n));
        assert(accesses_at(v, d.methods(), m, happens(d, m)[i], r));
    }
}

/// Some write of the finding may run on a thread of its own.
pub open spec fn is_exposed(f: FindingV) -> bool {
    exists|i: int| 0 <= i < f.unguarded.len() && #[trigger] f.unguarded[i].concurrent
}

proof fn lemma_kept(fs: Seq<FindingV>, established: Seq<bool>, k: int, acc: Seq<FindingV>, f: FindingV)
    requires
        0 <= k,
    ensures
        race::kept(fs, established, k, acc).contains(f) <==> acc.contains(f) || exists|i: int|
            k <= i < fs.len() && #[trigger] fs[i] == f && established[i],
    decreases fs.len() - k,
{
    if k < fs.len() {
        let next = if established[k] {
            acc.push(fs[k])
        } else {
            acc
        };
        lemma_kept(fs, established, k + 1, next, f);
        answers::lemma_pushed(acc, fs[k], f);
    }
}

/// Of the findings exactly those with an established discipline are races, and they come
/// strongest first: what a thread may run before what none may, then the guard that is held
/// at the most accesses, then the fewest writes without a lock, then by field.
pub proof fn law_races_come_strongest_first(fs: Seq<FindingV>, established: Seq<bool>, f: FindingV)
    ensures
        ({
            let r = sort::sorted(race::kept(fs, established, 0, Seq::empty()), race::stronger());
            &&& r.contains(f) <==> exists|i: int|
                0 <= i < fs.len() && #[trigger] fs[i] == f && established[i]
            &&& forall|i: int, j: int|
                0 <= i < j < r.len() ==> {
                    let a = #[trigger] r[i];
                    let b = #[trigger] r[j];
                    ||| is_exposed(a) && !is_exposed(b)
                    ||| is_exposed(a) == is_exposed(b) && a.guarded > b.guarded
                    ||| is_exposed(a) == is_exposed(b) && a.guarded == b.guarded
                        && a.unguarded.len() < b.unguarded.len()
                    ||| is_exposed(a) == is_exposed(b) && a.guarded == b.guarded
                        && a.unguarded.len() == b.unguarded.len() && text::lex_le(a.field, b.field)
                }
        }),
{
    text::lemma_lex_order();
    let s = race::kept(fs, established, 0, Seq::empty());
    let le = race::stronger();
    let r = sort::sorted(s, le);
    lemma_kept(fs, established, 0, Seq::empty(), f);
    assert forall|x: FindingV| race::threatened(x) <==> #[trigger] is_exposed(x) by {
        if race::threatened(x) {
            let i = choose|i: int|
                0 <= i < x.unguarded.len() && (#[trigger] x.unguarded[i]).concurrent;
            assert(x.unguarded[i].concurrent);
        }
        if is_exposed(x) {
            let i = choose|i: int|
                0 <= i < x.unguarded.len() && #[trigger] x.unguarded[i].concurrent;
            let u = x.unguarded[i];
            assert(u.concurrent);
        }
    }
    assert(sort::ranks(le));
    sort::lemma_sorted_contains(s, le, f);
    sort::lemma_sorted(s, le);
    assert forall|i: int, j: int| 0 <= i < j < r.len() implies {
        let a = #[trigger] r[i];
        let b = #[trigger] r[j];
        ||| is_exposed(a) && !is_exposed(b)
        ||| is_exposed(a) == is_exposed(b) && a.guarded > b.guarded
        ||| is_exposed(a) == is_exposed(b) && a.guarded == b.guarded && a.unguarded.len()
            < b.unguarded.len()
        ||| is_exposed(a) == is_exposed(b) && a.guarded == b.guarded && a.unguarded.len()
            == b.unguarded.len() && text::lex_le(a.field, b.field)
    } by {
        assert(le(r[i], r[j]));
    }
}

} // verus!

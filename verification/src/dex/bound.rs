//! What formals are bound to, which fields that makes another object's, and which facts are
//! kept of a program.

use crate::dex::acquire;
use crate::dex::ctx::answers;
use crate::dex::extract;
use crate::dex::extract::SummaryV;
use crate::dex::inject;
use crate::dex::inject::ResV;
use crate::dex::model::{DexV, LockV, MethodV, RootV};
use crate::dict;
use crate::dict::DictV;
use vstd::prelude::*;

verus! {

/// Two resolutions together say the least that says no less than either: of two objects that
/// differ, that they conflict.
pub proof fn law_meet_is_the_least_above_both(a: ResV, b: ResV, c: ResV)
    ensures
        a.le(a.meet(b)),
        b.le(a.meet(b)),
        a.le(c) && b.le(c) ==> a.meet(b).le(c),
        a.meet(b) == b.meet(a),
        a is Val && b is Val && a != b ==> a.meet(b) is Top,
        !ResV::Top.le(a) || a is Top,
        a.le(ResV::Bottom) ==> a is Bottom,
{
}

/// What a call site gives for a formal: where the argument is unknown or missing, a conflict;
/// where it hangs from a formal of the caller, what that is bound to with the argument's fields
/// behind; and any other value as it is outside the caller, if it is something there.
pub proof fn law_call_sites_give_their_arguments(
    ss: Seq<SummaryV>,
    site: (usize, usize),
    i: u32,
    f: spec_fn(int, u32) -> ResV,
)
    ensures
        ({
            let s = ss[site.0 as int];
            let args = s.arg_bindings[site.1 as int].1;
            let r = inject::eval(ss, site, i, f);
            &&& i >= args.len() ==> r is Top
            &&& i < args.len() && args[i as int] is None ==> r is Top
            &&& i < args.len() ==> (args[i as int] matches Some(l) ==> {
                &&& l.root matches RootV::Param(j) ==> {
                    let outer = f(site.0 as int, j);
                    &&& outer matches ResV::Val(base) ==> (r matches ResV::Val(x) && x.mode == l.mode
                        && (base.fields.len() + l.fields.len() <= 3 ==> x.root == base.root && x.fields
                        == base.fields + l.fields) && (base.fields.len() + l.fields.len() > 3
                        ==> x.root is Opaque && x.fields.len() == 0))
                    &&& !(outer is Val) ==> r == outer
                }
                &&& !(l.root is Param) ==> {
                    let out = l.ground(s.class, s.key);
                    &&& out.is_concrete() ==> r == ResV::Val(out)
                    &&& !out.is_concrete() ==> r is Top
                }
            })
        }),
{
}

proof fn lemma_sites_in(
    ss: Seq<SummaryV>,
    s: int,
    b: int,
    acc: inject::Sites,
    key: Seq<char>,
    x: (usize, usize),
)
    requires
        0 <= b,
        0 <= s <= usize::MAX,
        ss[s].arg_bindings.len() <= usize::MAX,
    ensures
        dict::list_at(inject::sites_in(ss, s, b, acc), key).contains(x) <==> dict::list_at(
            acc,
            key,
        ).contains(x) || (x.0 == s && b <= x.1 < ss[s].arg_bindings.len()
            && ss[s].arg_bindings[x.1 as int].0 == key),
    decreases ss[s].arg_bindings.len() - b,
{
    if b < ss[s].arg_bindings.len() {
        let y = (s as usize, b as usize);
        let to = ss[s].arg_bindings[b].0;
        lemma_sites_in(ss, s, b + 1, dict::put_more(acc, to, y), key, x);
        answers::lemma_pushed(dict::list_at(acc, to), y, x);
    }
}

proof fn lemma_sites(ss: Seq<SummaryV>, s: int, acc: inject::Sites, key: Seq<char>, x: (usize, usize))
    requires
        0 <= s,
        ss.len() <= usize::MAX,
        forall|i: int| 0 <= i < ss.len() ==> (#[trigger] ss[i]).arg_bindings.len() <= usize::MAX,
    ensures
        dict::list_at(inject::sites_from(ss, s, acc), key).contains(x) <==> dict::list_at(
            acc,
            key,
        ).contains(x) || (s <= x.0 < ss.len() && x.1 < ss[x.0 as int].arg_bindings.len()
            && ss[x.0 as int].arg_bindings[x.1 as int].0 == key),
    decreases ss.len() - s,
{
    if s < ss.len() {
        assert(ss[s].arg_bindings.len() <= usize::MAX);
        lemma_sites_in(ss, s, 0, acc, key, x);
        lemma_sites(ss, s + 1, inject::sites_in(ss, s, 0, acc), key, x);
    }
}

/// The call sites of a method are exactly the bindings of all methods that name its key.
pub proof fn law_call_sites_are_the_bindings(ss: Seq<SummaryV>, key: Seq<char>, x: (usize, usize))
    requires
        ss.len() <= usize::MAX,
        forall|i: int| 0 <= i < ss.len() ==> (#[trigger] ss[i]).arg_bindings.len() <= usize::MAX,
    ensures
        dict::list_at(inject::sites(ss), key).contains(x) <==> x.0 < ss.len() && x.1
            < ss[x.0 as int].arg_bindings.len() && ss[x.0 as int].arg_bindings[x.1 as int].0 == key,
{
    lemma_sites(ss, 0, DictV::none(), key, x);
}

proof fn lemma_met(
    ss: Seq<SummaryV>,
    at: Seq<(usize, usize)>,
    k: int,
    i: u32,
    f: spec_fn(int, u32) -> ResV,
    acc: ResV,
    v: LockV,
)
    requires
        0 <= k,
        forall|t: int| k <= t < at.len() ==> inject::eval(ss, #[trigger] at[t], i, f) == ResV::Val(v),
        acc is Bottom || acc == ResV::Val(v),
    ensures
        k < at.len() ==> inject::met(ss, at, k, i, f, acc) == ResV::Val(v),
        k >= at.len() ==> inject::met(ss, at, k, i, f, acc) == acc,
    decreases at.len() - k,
{
    if k < at.len() {
        assert(inject::eval(ss, at[k], i, f) == ResV::Val(v));
        lemma_met(ss, at, k + 1, i, f, acc.meet(ResV::Val(v)), v);
    }
}

/// A formal is bound to an object exactly where all the call sites of its method that say
/// anything give that one; a method that nothing calls has no formal bound.
pub proof fn law_formals_are_bound_where_all_agree(ss: Seq<SummaryV>, m: int, i: u32, v: LockV)
    ensures
        ({
            let at = dict::list_at(inject::sites(ss), ss[m].key);
            let sol = |m: int, i: u32| inject::solution(ss, m, i);
            &&& at.len() == 0 ==> inject::solution(ss, m, i) is Top
            &&& at.len() > 0 && (forall|t: int|
                0 <= t < at.len() ==> inject::eval(ss, #[trigger] at[t], i, sol) == ResV::Val(v))
                ==> inject::solution(ss, m, i) == ResV::Val(v)
            &&& inject::solution(ss, m, i) == ResV::Val(v) ==> forall|t: int|
                0 <= t < at.len() ==> inject::eval(ss, #[trigger] at[t], i, sol) is Bottom
                    || inject::eval(ss, at[t], i, sol) == ResV::Val(v)
        }),
{
    inject::law_formals_meet_their_actuals(ss, m, i);
    let at = dict::list_at(inject::sites(ss), ss[m].key);
    let sol = |m: int, i: u32| inject::solution(ss, m, i);
    if at.len() > 0 && (forall|t: int|
        0 <= t < at.len() ==> inject::eval(ss, #[trigger] at[t], i, sol) == ResV::Val(v)) {
        lemma_met(ss, at, 0, i, sol, ResV::Bottom, v);
    }
    if inject::solution(ss, m, i) == ResV::Val(v) {
        assert forall|t: int| 0 <= t < at.len() implies inject::eval(ss, #[trigger] at[t], i, sol) is Bottom
            || inject::eval(ss, at[t], i, sol) == ResV::Val(v) by {
            assert(inject::eval(ss, at[t], i, sol).le(inject::solution(ss, m, i)));
        }
    }
}

proof fn lemma_stores_in(
    ss: Seq<SummaryV>,
    s: int,
    k: int,
    acc: inject::Stores,
    field: Seq<char>,
    x: (usize, u32),
)
    requires
        0 <= k,
        0 <= s <= usize::MAX,
    ensures
        dict::list_at(inject::stores_in(ss, s, k, acc), field).contains(x) <==> dict::list_at(
            acc,
            field,
        ).contains(x) || (x.0 == s && exists|i: int|
            k <= i < ss[s].param_stores.len() && #[trigger] ss[s].param_stores[i] == (field, x.1)),
    decreases ss[s].param_stores.len() - k,
{
    if k < ss[s].param_stores.len() {
        let store = ss[s].param_stores[k];
        let y = (s as usize, store.1);
        lemma_stores_in(ss, s, k + 1, dict::put_more(acc, store.0, y), field, x);
        answers::lemma_pushed(dict::list_at(acc, store.0), y, x);
    }
}

proof fn lemma_stores(ss: Seq<SummaryV>, s: int, acc: inject::Stores, field: Seq<char>, x: (usize, u32))
    requires
        0 <= s,
        ss.len() <= usize::MAX,
    ensures
        dict::list_at(inject::stores_from(ss, s, acc), field).contains(x) <==> dict::list_at(
            acc,
            field,
        ).contains(x) || (s <= x.0 < ss.len() && exists|i: int|
            0 <= i < ss[x.0 as int].param_stores.len() && #[trigger] ss[x.0 as int].param_stores[i] == (
                field,
                x.1,
            )),
    decreases ss.len() - s,
{
    if s < ss.len() {
        lemma_stores_in(ss, s, 0, acc, field, x);
        lemma_stores(ss, s + 1, inject::stores_in(ss, s, 0, acc), field, x);
    }
}

/// The formals that are stored in a field are exactly those of the parameter stores to it.
pub proof fn law_stored_formals_are_the_parameter_stores(ss: Seq<SummaryV>, field: Seq<char>, x: (usize, u32))
    requires
        ss.len() <= usize::MAX,
    ensures
        dict::list_at(inject::stores(ss), field).contains(x) <==> x.0 < ss.len() && exists|i: int|
            0 <= i < ss[x.0 as int].param_stores.len() && #[trigger] ss[x.0 as int].param_stores[i] == (
                field,
                x.1,
            ),
{
    lemma_stores(ss, 0, DictV::none(), field, x);
}

proof fn lemma_stored(ss: Seq<SummaryV>, list: Seq<(usize, u32)>, k: int, acc: ResV, v: LockV)
    requires
        0 <= k,
    ensures
        inject::stored_value(ss, list, k, acc) == ResV::Val(v) <==> {
            &&& acc is Bottom || acc == ResV::Val(v)
            &&& acc == ResV::Val(v) || k < list.len()
            &&& forall|t: int|
                k <= t < list.len() ==> inject::solution(ss, (#[trigger] list[t]).0 as int, list[t].1)
                    == ResV::Val(v)
        },
    decreases list.len() - k,
{
    if k < list.len() {
        let x = match inject::solution(ss, list[k].0 as int, list[k].1) {
            ResV::Val(l) => ResV::Val(l),
            _ => ResV::Top,
        };
        lemma_stored(ss, list, k + 1, acc.meet(x), v);
    }
}

/// What a list of formals stored in one field makes of it: the one object that every one of
/// them is bound to, or nothing.
pub open spec fn all_bound(ss: Seq<SummaryV>, field: Seq<char>, v: LockV) -> bool {
    let list = dict::list_at(inject::stores(ss), field);
    &&& list.len() > 0
    &&& forall|t: int|
        0 <= t < list.len() ==> inject::solution(ss, (#[trigger] list[t]).0 as int, list[t].1)
            == ResV::Val(v)
}

proof fn lemma_fields(ss: Seq<SummaryV>, k: int, acc: Seq<(Seq<char>, LockV)>, x: (Seq<char>, LockV))
    requires
        0 <= k,
    ensures
        inject::fields_from(ss, k, acc).contains(x) <==> acc.contains(x) || (exists|i: int|
            k <= i < inject::stores(ss).keys.len() && #[trigger] inject::stores(ss).keys[i] == x.0)
            && all_bound(ss, x.0, x.1) && x.1.name() != x.0,
    decreases inject::stores(ss).keys.len() - k,
{
    let keys = inject::stores(ss).keys;
    if k < keys.len() {
        let field = keys[k];
        let list = dict::list_at(inject::stores(ss), field);
        let r = inject::stored_value(ss, list, 0, ResV::Bottom);
        if let ResV::Val(l) = r {
            lemma_stored(ss, list, 0, ResV::Bottom, l);
            answers::lemma_pushed(acc, (field, l), x);
        }
        lemma_stored(ss, list, 0, ResV::Bottom, x.1);
        let next = match r {
            ResV::Val(l) => if l.name() != field {
                acc.push((field, l))
            } else {
                acc
            },
            _ => acc,
        };
        lemma_fields(ss, k + 1, next, x);
        assert(inject::fields_from(ss, k, acc) == inject::fields_from(ss, k + 1, next));
    }
}

/// The fields that are another object's because of what is passed in are exactly those into
/// which only formals are stored that are all bound to that one object, which is not the field
/// itself.
pub proof fn law_injected_fields_hold_one_object(ss: Seq<SummaryV>, field: Seq<char>, v: LockV)
    ensures
        inject::fields_from(ss, 0, Seq::empty()).contains((field, v)) <==> (exists|i: int|
            0 <= i < inject::stores(ss).keys.len() && #[trigger] inject::stores(ss).keys[i] == field)
            && all_bound(ss, field, v) && v.name() != field,
{
    lemma_fields(ss, 0, Seq::empty(), (field, v));
}

/// A lock that hangs from a formal is the object that the formal is bound to, with the fields
/// behind; where it is bound to none, and for every other lock, there is no such object.
pub proof fn law_operands_follow_their_formal(ss: Seq<SummaryV>, s: int, l: LockV)
    ensures
        !(l.root is Param) ==> inject::param_object(ss, s, l) is None,
        l.root matches RootV::Param(j) ==> {
            &&& inject::solution(ss, s, j) matches ResV::Val(base) ==> (inject::param_object(ss, s, l) matches Some(
                x,
            ) && x.mode == l.mode && (base.fields.len() + l.fields.len() <= 3 ==> x.root == base.root
                && x.fields == base.fields + l.fields))
            &&& !(inject::solution(ss, s, j) is Val) ==> inject::param_object(ss, s, l) is None
        },
{
}

/// The methods of that key from the `k`th on.
proof fn lemma_facts(ms: Seq<MethodV>, vals: Map<Seq<char>, LockV>, k: int, acc: Seq<SummaryV>)
    requires
        0 <= k,
    ensures
        ({
            let r = acquire::facts_from(ms, vals, k, acc);
            &&& acc.len() <= r.len()
            &&& forall|i: int| 0 <= i < acc.len() ==> #[trigger] r[i] == acc[i]
            &&& forall|i: int|
                acc.len() <= i < r.len() ==> !acquire::has_key(acc, (#[trigger] r[i]).key)
                    && is_first(ms, vals, k, r[i])
            &&& forall|j: int| k <= j < ms.len() ==> acquire::has_key(r, (#[trigger] ms[j]).key())
        }),
    decreases ms.len() - k,
{
    if k < ms.len() {
        let s = extract::summary(ms[k], vals);
        let old = acquire::has_key(acc, ms[k].key());
        let next = if old {
            acc
        } else {
            acc.push(s)
        };
        lemma_facts(ms, vals, k + 1, next);
        let r = acquire::facts_from(ms, vals, k + 1, next);
        assert(acquire::facts_from(ms, vals, k, acc) == r);
        acquire::lemma_key_kept(ms[k], vals);
        assert forall|i: int| 0 <= i < acc.len() implies #[trigger] r[i] == acc[i] by {
            assert(next[i] == acc[i]);
        }
        if old {
            let i = choose|i: int| 0 <= i < acc.len() && (#[trigger] acc[i]).key == ms[k].key();
            assert(r[i].key == ms[k].key());
        } else {
            assert(next[acc.len() as int] == s);
            assert(r[acc.len() as int] == s);
            assert(is_first(ms, vals, k, s)) by {
                assert(extract::summary(ms[k], vals) == s);
            }
        }
        assert forall|i: int| acc.len() <= i < r.len() implies !acquire::has_key(
            acc,
            (#[trigger] r[i]).key,
        ) && is_first(ms, vals, k, r[i]) by {
            if i >= next.len() {
                assert(!acquire::has_key(next, r[i].key));
                if acquire::has_key(acc, r[i].key) {
                    let j = choose|j: int| 0 <= j < acc.len() && (#[trigger] acc[j]).key == r[i].key;
                    assert(next[j].key == r[i].key);
                }
                assert(is_first(ms, vals, k + 1, r[i]));
                let j = choose|j: int|
                    k + 1 <= j < ms.len() && r[i] == #[trigger] extract::summary(ms[j], vals) && forall|
                        q: int,
                    |
                        k + 1 <= q < j ==> (#[trigger] ms[q]).key() != r[i].key;
                if ms[k].key() == r[i].key {
                    assert(acquire::has_key(next, r[i].key)) by {
                        if old {
                        } else {
                            assert(next[acc.len() as int].key == r[i].key);
                        }
                    }
                }
                assert(extract::summary(ms[j], vals) == r[i]);
                assert forall|q: int| k <= q < j implies (#[trigger] ms[q]).key() != r[i].key by {}
            }
        }
    }
}

/// The facts are those of the first method of its key, of those from the `k`th on.
pub open spec fn is_first(ms: Seq<MethodV>, vals: Map<Seq<char>, LockV>, k: int, s: SummaryV) -> bool {
    exists|j: int|
        k <= j < ms.len() && s == #[trigger] extract::summary(ms[j], vals) && forall|q: int|
            k <= q < j ==> (#[trigger] ms[q]).key() != s.key
}

/// Facts are kept of every method of a program, of methods with one key those of the first, and
/// every getter counts, wherever it stands.
pub proof fn law_facts_are_kept_of_every_key(d: DexV, i: int, j: int)
    requires
        0 <= i < acquire::facts(d).len(),
        0 <= j < d.methods().len(),
    ensures
        acquire::has_key(acquire::facts(d), d.methods()[j].key()),
        is_first(
            d.methods(),
            acquire::getters(d.methods(), 0, DictV::none()).map,
            0,
            acquire::facts(d)[i],
        ),
{
    let vals = acquire::getters(d.methods(), 0, DictV::none()).map;
    lemma_facts(d.methods(), vals, 0, Seq::empty());
    assert(acquire::has_key(acquire::facts(d), d.methods()[j].key()));
}

/// A method of that key from the `k`th on is a getter.
pub open spec fn gets(ms: Seq<MethodV>, k: int, key: Seq<char>) -> bool {
    exists|j: int|
        k <= j < ms.len() && (#[trigger] ms[j]).key() == key && extract::summary(
            ms[j],
            Map::empty(),
        ).value_summary is Some
}

proof fn lemma_getters(ms: Seq<MethodV>, k: int, acc: DictV<LockV>, key: Seq<char>)
    requires
        0 <= k,
    ensures
        !gets(ms, k, key) ==> acquire::getters(ms, k, acc).get(key) == acc.get(key),
        gets(ms, k, key) ==> exists|j: int|
            k <= j < ms.len() && (#[trigger] ms[j]).key() == key && !gets(ms, j + 1, key)
                && acquire::getters(ms, k, acc).get(key) == extract::summary(
                ms[j],
                Map::empty(),
            ).value_summary && extract::summary(ms[j], Map::empty()).value_summary is Some,
    decreases ms.len() - k,
{
    if k < ms.len() {
        let v = extract::summary(ms[k], Map::empty()).value_summary;
        let next = match v {
            Some(v) => acc.put(ms[k].key(), v),
            None => acc,
        };
        lemma_getters(ms, k + 1, next, key);
        if gets(ms, k, key) && !gets(ms, k + 1, key) {
            assert(ms[k].key() == key && v is Some);
        }
    }
}

/// A getter is known by its key with the value that it returns; of two with one key the last
/// counts; and nothing else is.
pub proof fn law_getters_are_known_by_key(ms: Seq<MethodV>, key: Seq<char>)
    ensures
        !gets(ms, 0, key) ==> acquire::getters(ms, 0, DictV::none()).get(key) is None,
        gets(ms, 0, key) ==> exists|j: int|
            0 <= j < ms.len() && (#[trigger] ms[j]).key() == key && !gets(ms, j + 1, key)
                && acquire::getters(ms, 0, DictV::none()).get(key) == extract::summary(
                ms[j],
                Map::empty(),
            ).value_summary && extract::summary(ms[j], Map::empty()).value_summary is Some,
{
    lemma_getters(ms, 0, DictV::none(), key);
}

proof fn lemma_allocs_in(
    list: Seq<(Seq<char>, Seq<char>)>,
    k: int,
    acc: DictV<Seq<Seq<char>>>,
    class: Seq<char>,
    field: Seq<char>,
)
    requires
        0 <= k,
    ensures
        dict::list_at(acquire::allocs_in(list, k, acc), class).contains(field) <==> dict::list_at(
            acc,
            class,
        ).contains(field) || exists|i: int| k <= i < list.len() && #[trigger] list[i] == (field, class),
    decreases list.len() - k,
{
    if k < list.len() {
        let next = acquire::put_once(acc, list[k].1, list[k].0);
        lemma_allocs_in(list, k + 1, next, class, field);
        answers::lemma_pushed(dict::list_at(acc, list[k].1), list[k].0, field);
    }
}

proof fn lemma_allocs(
    ss: Seq<SummaryV>,
    s: int,
    acc: DictV<Seq<Seq<char>>>,
    class: Seq<char>,
    field: Seq<char>,
)
    requires
        0 <= s,
    ensures
        dict::list_at(acquire::allocs_from(ss, s, acc), class).contains(field) <==> dict::list_at(
            acc,
            class,
        ).contains(field) || exists|t: int, i: int|
            s <= t < ss.len() && 0 <= i < ss[t].alloc_stores.len() && #[trigger] ss[t].alloc_stores[i]
                == (field, class),
    decreases ss.len() - s,
{
    if s < ss.len() {
        lemma_allocs_in(ss[s].alloc_stores, 0, acc, class, field);
        lemma_allocs(ss, s + 1, acquire::allocs_in(ss[s].alloc_stores, 0, acc), class, field);
    }
}

/// The fields that instances of a class are stored in are exactly those that some method
/// stores a new one in.
pub proof fn law_allocations_are_stored_in_their_fields(ss: Seq<SummaryV>, class: Seq<char>, field: Seq<char>)
    ensures
        dict::list_at(acquire::allocs_from(ss, 0, DictV::none()), class).contains(field) <==> exists|
            t: int,
            i: int,
        |
            0 <= t < ss.len() && 0 <= i < ss[t].alloc_stores.len() && #[trigger] ss[t].alloc_stores[i]
                == (field, class),
{
    lemma_allocs(ss, 0, DictV::none(), class, field);
}

/// What a getter returns is seen from its call: what hangs from the receiver hangs from the
/// first argument, what hangs from a formal from the argument of its number, with the fields
/// behind; anything else is what it is; and of an unknown or missing argument nothing is known.
pub proof fn law_results_hang_from_the_arguments(l: LockV, args: Seq<Option<LockV>>)
    ensures
        ({
            let r = l.subst(args);
            let i = if l.root is This {
                0int
            } else {
                l.root->Param_0 as int
            };
            &&& !(l.root is This) && !(l.root is Param) ==> r == Some(l)
            &&& (l.root is This || l.root is Param) ==> {
                &&& i >= args.len() ==> r is None
                &&& i < args.len() && args[i] is None ==> r is None
                &&& i < args.len() ==> (args[i] matches Some(base) ==> (r matches Some(x) && x.mode
                    == l.mode && (base.fields.len() + l.fields.len() <= 3 ==> x.root == base.root
                    && x.fields == base.fields + l.fields)))
            }
        }),
{
}

} // verus!

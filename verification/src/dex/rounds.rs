//! Interprocedural rounds: values by key are solved again and again under each other until
//! none changes. Recursion can keep one changing for ever; one that has changed `max` times is
//! given up.

use crate::dict::{Dict, DictV};
use crate::values::{Dup, Same};
use vstd::prelude::*;

verus! {

/// How often each value has changed.
pub type SpentV = DictV<u32>;

/// How often the value at `key` has changed.
pub open spec fn changes(spent: SpentV, key: Seq<char>) -> u32 {
    match spent.get(key) {
        Some(n) => n,
        None => 0,
    }
}

/// The value keeps changing and is given up.
pub open spec fn is_unsettled(max: u32, spent: SpentV, key: Seq<char>) -> bool {
    changes(spent, key) >= max
}

/// The value at `key` changes, and is not given up yet.
pub open spec fn shifts<A>(
    max: u32,
    was: DictV<A>,
    new: DictV<A>,
    spent: SpentV,
    key: Seq<char>,
) -> bool {
    was.get(key) != new.get(key) && !is_unsettled(max, spent, key)
}

/// Some value changes.
pub open spec fn any_shifts<A>(
    max: u32,
    keys: Seq<Seq<char>>,
    was: DictV<A>,
    new: DictV<A>,
    spent: SpentV,
) -> bool {
    exists|k: int| 0 <= k < keys.len() && shifts(max, was, new, spent, #[trigger] keys[k])
}

/// With the changes at the keys from the `k`th on.
pub open spec fn spent_on<A>(
    max: u32,
    keys: Seq<Seq<char>>,
    was: DictV<A>,
    new: DictV<A>,
    spent: SpentV,
    k: int,
) -> SpentV
    decreases keys.len() - k,
{
    if k >= keys.len() {
        spent
    } else {
        spent_on(
            max,
            keys,
            was,
            new,
            if shifts(max, was, new, spent, keys[k]) {
                spent.put(keys[k], (changes(spent, keys[k]) + 1) as u32)
            } else {
                spent
            },
            k + 1,
        )
    }
}

/// The values from the `k`th on that are not given up, behind `acc`.
pub open spec fn steady<A>(max: u32, d: DictV<A>, spent: SpentV, k: int, acc: DictV<A>) -> DictV<A>
    decreases d.keys.len() - k,
{
    if k >= d.keys.len() {
        acc
    } else {
        steady(
            max,
            d,
            spent,
            k + 1,
            if is_unsettled(max, spent, d.keys[k]) {
                acc
            } else {
                acc.put(d.keys[k], d.map[d.keys[k]])
            },
        )
    }
}

/// How many changes are left at the keys from the `k`th on.
pub open spec fn left(max: u32, keys: Seq<Seq<char>>, spent: SpentV, k: int) -> nat
    decreases keys.len() - k,
{
    if k >= keys.len() {
        0
    } else {
        left(max, keys, spent, k + 1) + if is_unsettled(max, spent, keys[k]) {
            0
        } else {
            (max - changes(spent, keys[k])) as nat
        }
    }
}

proof fn lemma_spent_grows<A>(
    max: u32,
    keys: Seq<Seq<char>>,
    was: DictV<A>,
    new: DictV<A>,
    spent: SpentV,
    k: int,
    key: Seq<char>,
)
    ensures
        changes(spent, key) <= changes(spent_on(max, keys, was, new, spent, k), key),
    decreases keys.len() - k,
{
    if k < keys.len() {
        let x = keys[k];
        let more = if shifts(max, was, new, spent, x) {
            spent.put(x, (changes(spent, x) + 1) as u32)
        } else {
            spent
        };
        lemma_spent_grows(max, keys, was, new, more, k + 1, key);
    }
}

proof fn lemma_spent_on<A>(
    max: u32,
    keys: Seq<Seq<char>>,
    was: DictV<A>,
    new: DictV<A>,
    spent: SpentV,
    k: int,
    i: int,
)
    requires
        0 <= k <= i < keys.len(),
        shifts(max, was, new, spent, keys[i]),
    ensures
        changes(spent, keys[i]) < changes(spent_on(max, keys, was, new, spent, k), keys[i]),
    decreases keys.len() - k,
{
    let x = keys[k];
    let more = if shifts(max, was, new, spent, x) {
        spent.put(x, (changes(spent, x) + 1) as u32)
    } else {
        spent
    };
    if x == keys[i] {
        lemma_spent_grows(max, keys, was, new, more, k + 1, x);
    } else {
        lemma_spent_on(max, keys, was, new, more, k + 1, i);
    }
}

proof fn lemma_left(max: u32, keys: Seq<Seq<char>>, a: SpentV, b: SpentV, k: int, i: int)
    requires
        0 <= k,
        forall|key: Seq<char>| #[trigger] changes(a, key) <= changes(b, key),
    ensures
        left(max, keys, b, k) <= left(max, keys, a, k),
        k <= i < keys.len() && !is_unsettled(max, a, keys[i]) && changes(a, keys[i]) < changes(
            b,
            keys[i],
        ) ==> left(max, keys, b, k) < left(max, keys, a, k),
    decreases keys.len() - k,
{
    if k < keys.len() {
        assert(changes(a, keys[k]) <= changes(b, keys[k]));
        lemma_left(max, keys, a, b, k + 1, i);
    }
}

/// A round that changes something uses up a change.
pub proof fn lemma_left_falls<A>(
    max: u32,
    keys: Seq<Seq<char>>,
    was: DictV<A>,
    new: DictV<A>,
    spent: SpentV,
)
    requires
        any_shifts(max, keys, was, new, spent),
    ensures
        left(max, keys, spent_on(max, keys, was, new, spent, 0), 0) < left(max, keys, spent, 0),
{
    let i = choose|k: int| 0 <= k < keys.len() && shifts(max, was, new, spent, #[trigger] keys[k]);
    let more = spent_on(max, keys, was, new, spent, 0);
    assert forall|key: Seq<char>| #[trigger] changes(spent, key) <= changes(more, key) by {
        lemma_spent_grows(max, keys, was, new, spent, 0, key);
    }
    lemma_spent_on(max, keys, was, new, spent, 0, i);
    lemma_left(max, keys, spent, more, 0, i);
}

/// The keys and the entries are the same.
pub open spec fn keyed<A>(d: DictV<A>) -> bool {
    forall|x: Seq<char>| #[trigger] d.map.contains_key(x) <==> d.keys.contains(x)
}

/// Every entry is at one of the keys, and none is given up.
pub open spec fn tended<A>(max: u32, d: DictV<A>, keys: Seq<Seq<char>>, spent: SpentV) -> bool {
    forall|x: Seq<char>| #[trigger]
        d.map.contains_key(x) ==> keys.contains(x) && !is_unsettled(max, spent, x)
}

/// What is left after the values that are given up are dropped is tended.
pub proof fn lemma_steady<A>(
    max: u32,
    d: DictV<A>,
    keys: Seq<Seq<char>>,
    spent: SpentV,
    k: int,
    acc: DictV<A>,
)
    requires
        0 <= k,
        keyed(d),
        forall|x: Seq<char>| #[trigger] d.map.contains_key(x) ==> keys.contains(x),
        tended(max, acc, keys, spent),
    ensures
        tended(max, steady(max, d, spent, k, acc), keys, spent),
    decreases d.keys.len() - k,
{
    if k < d.keys.len() {
        let key = d.keys[k];
        let next = if is_unsettled(max, spent, key) {
            acc
        } else {
            acc.put(key, d.map[key])
        };
        assert(d.keys.contains(key));
        assert(d.map.contains_key(key));
        lemma_steady(max, d, keys, spent, k + 1, next);
    }
}

/// Where nothing changes that is not given up, nothing changes.
pub proof fn lemma_rest<A>(max: u32, keys: Seq<Seq<char>>, was: DictV<A>, new: DictV<A>, spent: SpentV)
    requires
        tended(max, was, keys, spent),
        tended(max, new, keys, spent),
        !any_shifts(max, keys, was, new, spent),
    ensures
        new.map == was.map,
{
    assert forall|x: Seq<char>| was.get(x) == #[trigger] new.get(x) by {
        if was.map.contains_key(x) || new.map.contains_key(x) {
            let k = choose|k: int| 0 <= k < keys.len() && keys[k] == x;
            assert(!shifts(max, was, new, spent, keys[k]));
        }
    }
    assert forall|x: Seq<char>| #[trigger] new.map.contains_key(x) <==> was.map.contains_key(x) by {
        assert(was.get(x) == new.get(x));
    }
    assert forall|x: Seq<char>| #[trigger] was.map.contains_key(x) implies new.map[x]
        == was.map[x] by {
        assert(was.get(x) == new.get(x));
    }
    assert(new.map =~= was.map);
}

/// How often the value at `key` has changed.
pub fn count_changes(spent: &Dict<u32>, key: &str) -> (r: u32)
    requires
        spent.wf(),
    ensures
        r == changes(spent@, key@),
{
    match spent.get(key) {
        Some(n) => *n,
        None => 0,
    }
}

fn same_value<V: DeepView + Same>(a: Option<&V>, b: Option<&V>) -> (r: bool)
    ensures
        r == (a.deep_view() == b.deep_view()),
{
    match (a, b) {
        (Some(a), Some(b)) => a.same(b),
        (None, None) => true,
        _ => false,
    }
}

/// Count what changes; says whether anything does.
pub fn spend<V: DeepView + Same>(
    max: u32,
    keys: &Vec<String>,
    was: &Dict<V>,
    new: &Dict<V>,
    spent: &mut Dict<u32>,
) -> (r: bool)
    requires
        was.wf(),
        new.wf(),
        old(spent).wf(),
    ensures
        final(spent).wf(),
        r == any_shifts(max, keys.deep_view(), was@, new@, old(spent)@),
        final(spent)@ == spent_on(max, keys.deep_view(), was@, new@, old(spent)@, 0),
{
    let ghost kv = keys.deep_view();
    let ghost before = spent@;
    let mut shifted = false;
    let mut k: usize = 0;
    while k < keys.len()
        invariant
            k <= keys@.len(),
            kv == keys.deep_view(),
            was.wf(),
            new.wf(),
            spent.wf(),
            spent_on(max, kv, was@, new@, before, 0) == spent_on(max, kv, was@, new@, spent@, k as int),
            !shifted ==> spent@ == before,
            !shifted ==> forall|i: int|
                0 <= i < k ==> !shifts(max, was@, new@, before, #[trigger] kv[i]),
            shifted ==> any_shifts(max, kv, was@, new@, before),
        decreases keys@.len() - k,
    {
        proof {
            assert(kv[k as int] == keys@[k as int]@);
        }
        let key = keys[k].as_str();
        let n = count_changes(spent, key);
        if n < max && !same_value(was.get(key), new.get(key)) {
            proof {
                if !shifted {
                    assert(shifts(max, was@, new@, before, kv[k as int]));
                }
            }
            spent.set(key, n + 1);
            shifted = true;
        }
        k += 1;
    }
    shifted
}

/// The values that are not given up.
pub fn keep_steady<V: DeepView + Dup>(max: u32, d: &Dict<V>, spent: &Dict<u32>) -> (r: Dict<V>)
    requires
        d.wf(),
        spent.wf(),
    ensures
        r.wf(),
        r@ == steady(max, d@, spent@, 0, DictV::none()),
{
    let mut out: Dict<V> = Dict::new();
    let mut k: usize = 0;
    while k < d.len()
        invariant
            d.wf(),
            spent.wf(),
            out.wf(),
            k <= d@.keys.len(),
            steady(max, d@, spent@, 0, DictV::none()) == steady(max, d@, spent@, k as int, out@),
        decreases d@.keys.len() - k,
    {
        let key = d.key_at(k);
        if count_changes(spent, key) < max {
            out.set(key, d.val_at(k).dup());
        }
        k += 1;
    }
    out
}

} // verus!

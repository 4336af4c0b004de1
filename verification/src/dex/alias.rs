//! What holds of the lock-field aliases of every program: none is a guess, and an alias and
//! the lock it names are one lock.

use crate::dex::acquire;
use crate::dex::acquire::Aliases;
use crate::dex::extract::SummaryV;
use crate::dex::inject;
use crate::dex::model::{LockV, Mode, RootV};
use crate::dict;
use crate::dict::DictV;
use vstd::prelude::*;

verus! {

/// A note from the `k`th on says that `key` is `v`, or that it is something else.
pub open spec fn says(
    notes: Seq<(Seq<char>, LockV)>,
    k: int,
    key: Seq<char>,
    v: LockV,
    same: bool,
) -> bool {
    exists|i: int|
        k <= i < notes.len() && (#[trigger] notes[i]).0 == key && (notes[i].1 == v) == same
}

/// A method from the `s`th on assigns `v` to the field `key`, or something else.
pub open spec fn assigns(
    ss: Seq<SummaryV>,
    s: int,
    key: Seq<char>,
    v: LockV,
    same: bool,
) -> bool {
    exists|i: int| s <= i < ss.len() && says((#[trigger] ss[i]).field_aliases, 0, key, v, same)
}

/// What the notes make of what was known.
spec fn follows(
    then: Option<Option<LockV>>,
    now: Option<Option<LockV>>,
    v: LockV,
    same: bool,
    other: bool,
) -> bool {
    &&& then is None <==> now is None && !same && !other
    &&& then == Some(Some(v)) <==> (now == Some(Some(v)) || now is None && same) && !other
}

proof fn lemma_all_noted(
    notes: Seq<(Seq<char>, LockV)>,
    k: int,
    seen: Aliases,
    key: Seq<char>,
    v: LockV,
)
    requires
        0 <= k,
    ensures
        follows(
            acquire::all_noted(notes, k, seen).get(key),
            seen.get(key),
            v,
            says(notes, k, key, v, true),
            says(notes, k, key, v, false),
        ),
    decreases notes.len() - k,
{
    if k < notes.len() {
        let next = acquire::noted(seen, notes[k].0, notes[k].1);
        lemma_all_noted(notes, k + 1, next, key, v);
        assert(acquire::all_noted(notes, k, seen) == acquire::all_noted(notes, k + 1, next));
        assert forall|same: bool| #[trigger]
            says(notes, k, key, v, same) <==> says(notes, k + 1, key, v, same) || notes[k].0 == key
                && (notes[k].1 == v) == same by {}
    }
}

proof fn lemma_direct(ss: Seq<SummaryV>, s: int, seen: Aliases, key: Seq<char>, v: LockV)
    requires
        0 <= s,
    ensures
        follows(
            acquire::direct_from(ss, s, seen).get(key),
            seen.get(key),
            v,
            assigns(ss, s, key, v, true),
            assigns(ss, s, key, v, false),
        ),
    decreases ss.len() - s,
{
    if s < ss.len() {
        let notes = ss[s].field_aliases;
        let next = acquire::all_noted(notes, 0, seen);
        lemma_all_noted(notes, 0, seen, key, v);
        lemma_direct(ss, s + 1, next, key, v);
        assert(acquire::direct_from(ss, s, seen) == acquire::direct_from(ss, s + 1, next));
        assert forall|same: bool| #[trigger]
            assigns(ss, s, key, v, same) <==> assigns(ss, s + 1, key, v, same) || says(
                notes,
                0,
                key,
                v,
                same,
            ) by {}
    }
}

/// Class `c` is allocated into the field `key` alone and locks its own instances.
pub open spec fn sole(
    ss: Seq<SummaryV>,
    allocs: DictV<Seq<Seq<char>>>,
    c: Seq<char>,
    key: Seq<char>,
) -> bool {
    acquire::self_locking(ss, c) && dict::list_at(allocs, c) == seq![key]
}

proof fn lemma_singletons(
    ss: Seq<SummaryV>,
    allocs: DictV<Seq<Seq<char>>>,
    k: int,
    seen: Aliases,
    key: Seq<char>,
)
    requires
        0 <= k,
    ensures
        ({
            let then = acquire::singletons(ss, allocs, k, seen).get(key);
            &&& seen.get(key) is Some ==> then == seen.get(key)
            &&& seen.get(key) is None && then is Some ==> exists|c: Seq<char>| #[trigger]
                sole(ss, allocs, c, key) && then == Some(Some(LockV::new(RootV::Recv(c))))
        }),
    decreases allocs.keys.len() - k,
{
    if k < allocs.keys.len() {
        let class = allocs.keys[k];
        let fields = dict::list_at(allocs, class);
        let hit = acquire::self_locking(ss, class) && fields.len() == 1 && seen.get(
            fields[0],
        ) is None;
        let next = if hit {
            acquire::noted(seen, fields[0], LockV::new(RootV::Recv(class)))
        } else {
            seen
        };
        lemma_singletons(ss, allocs, k + 1, next, key);
        assert(acquire::singletons(ss, allocs, k, seen) == acquire::singletons(
            ss,
            allocs,
            k + 1,
            next,
        ));
        if hit && fields[0] == key {
            assert(fields =~= seq![key]);
            assert(sole(ss, allocs, class, key));
        }
    }
}

/// An alias is never a guess. A field that stands for a lock is assigned nothing else,
/// directly or through a parameter; and it is assigned that lock, or it is the only field
/// that holds the instances of a class that locks itself.
pub proof fn law_aliases_are_unambiguous(ss: Seq<SummaryV>, key: Seq<char>, v: LockV)
    requires
        acquire::alias_of(acquire::aliases(ss), key) == Some(v),
    ensures
        !assigns(ss, 0, key, v, false),
        !says(inject::fields_from(ss, 0, Seq::empty()), 0, key, v, false),
        assigns(ss, 0, key, v, true) || says(
            inject::fields_from(ss, 0, Seq::empty()),
            0,
            key,
            v,
            true,
        ) || exists|c: Seq<char>| #[trigger]
            sole(ss, acquire::allocs_from(ss, 0, DictV::none()), c, key) && v == LockV::new(
                RootV::Recv(c),
            ),
{
    let direct = acquire::direct_from(ss, 0, DictV::none());
    let injected = inject::fields_from(ss, 0, Seq::empty());
    let both = acquire::all_noted(injected, 0, direct);
    lemma_direct(ss, 0, DictV::none(), key, v);
    lemma_all_noted(injected, 0, direct, key, v);
    lemma_singletons(ss, acquire::allocs_from(ss, 0, DictV::none()), 0, both, key);
}

/// No alias is missed. A field that is assigned one lock and nothing else, directly or through
/// a parameter, stands for that lock.
pub proof fn law_assigned_locks_are_aliases(ss: Seq<SummaryV>, key: Seq<char>, v: LockV)
    requires
        assigns(ss, 0, key, v, true) || says(
            inject::fields_from(ss, 0, Seq::empty()),
            0,
            key,
            v,
            true,
        ),
        !assigns(ss, 0, key, v, false),
        !says(inject::fields_from(ss, 0, Seq::empty()), 0, key, v, false),
    ensures
        acquire::alias_of(acquire::aliases(ss), key) == Some(v),
{
    let direct = acquire::direct_from(ss, 0, DictV::none());
    let injected = inject::fields_from(ss, 0, Seq::empty());
    let both = acquire::all_noted(injected, 0, direct);
    lemma_direct(ss, 0, DictV::none(), key, v);
    lemma_all_noted(injected, 0, direct, key, v);
    lemma_singletons(ss, acquire::allocs_from(ss, 0, DictV::none()), 0, both, key);
}

/// Following aliases from the lock comes to an end.
pub open spec fn rooted(l: LockV, seen: Aliases) -> bool {
    exists|n: nat| acquire::is_root(#[trigger] acquire::followed(l, seen, n), seen)
}

proof fn lemma_root_stays(l: LockV, seen: Aliases, n: nat, more: nat)
    requires
        n <= more,
        acquire::is_root(acquire::followed(l, seen, n), seen),
    ensures
        acquire::followed(l, seen, more) == acquire::followed(l, seen, n),
    decreases n,
{
    if n > 0 && l.is_concrete() {
        match acquire::alias_of(seen, l.with_mode(Mode::Plain).name()) {
            Some(t) => {
                lemma_root_stays(t.with_mode(l.mode), seen, (n - 1) as nat, (more - 1) as nat);
            },
            None => {},
        }
    }
}

/// Following one part of the way and then the rest is following all of it.
proof fn lemma_followed_on(l: LockV, seen: Aliases, a: nat, b: nat)
    ensures
        acquire::followed(acquire::followed(l, seen, a), seen, b) == acquire::followed(
            l,
            seen,
            a + b,
        ),
    decreases a,
{
    if a > 0 {
        if acquire::is_root(l, seen) {
            lemma_root_stays(l, seen, 0, a);
            lemma_root_stays(l, seen, 0, b);
            lemma_root_stays(l, seen, 0, a + b);
        } else {
            let t = acquire::alias_of(seen, l.with_mode(Mode::Plain).name())->0;
            lemma_followed_on(t.with_mode(l.mode), seen, (a - 1) as nat, b);
        }
    }
}

proof fn lemma_mode_kept(l: LockV, seen: Aliases, n: nat)
    ensures
        acquire::followed(l, seen, n).mode == l.mode,
    decreases n,
{
    if n > 0 && !acquire::is_root(l, seen) {
        let t = acquire::alias_of(seen, l.with_mode(Mode::Plain).name())->0;
        lemma_mode_kept(t.with_mode(l.mode), seen, (n - 1) as nat);
    }
}

/// The field that is followed after `i` aliases.
spec fn field_at(l: LockV, seen: Aliases, i: int) -> Seq<char> {
    acquire::followed(l, seen, i as nat).with_mode(Mode::Plain).name()
}

/// The first root is no further away than there are fields: no field is followed twice.
proof fn lemma_root_is_near(l: LockV, seen: Aliases, n: nat)
    requires
        seen.wf(),
        acquire::is_root(acquire::followed(l, seen, n), seen),
        forall|i: nat| i < n ==> !acquire::is_root(#[trigger] acquire::followed(l, seen, i), seen),
    ensures
        n <= seen.keys.len(),
{
    let fields = Seq::new(n, |i: int| field_at(l, seen, i));
    assert forall|i: int, j: int| 0 <= i < j < n implies fields[i] != fields[j] by {
        if fields[i] == fields[j] {
            let a = acquire::followed(l, seen, i as nat);
            let b = acquire::followed(l, seen, j as nat);
            assert(!acquire::is_root(a, seen) && !acquire::is_root(b, seen));
            lemma_mode_kept(l, seen, i as nat);
            lemma_mode_kept(l, seen, j as nat);
            lemma_followed_on(l, seen, i as nat, 1);
            lemma_followed_on(l, seen, j as nat, 1);
            reveal_with_fuel(acquire::followed, 2);
            let x = acquire::followed(l, seen, (i + 1) as nat);
            assert(x == acquire::followed(l, seen, (j + 1) as nat));
            let rest = (n - j - 1) as nat;
            lemma_followed_on(l, seen, (i + 1) as nat, rest);
            lemma_followed_on(l, seen, (j + 1) as nat, rest);
            assert(acquire::is_root(acquire::followed(l, seen, (i + 1 + rest) as nat), seen));
            assert(false);
        }
    }
    assert(fields.no_duplicates());
    assert forall|x: Seq<char>| fields.to_set().contains(x) implies #[trigger] seen.keys.to_set().contains(
        x,
    ) by {
        let i = choose|i: int| 0 <= i < fields.len() && fields[i] == x;
        assert(!acquire::is_root(acquire::followed(l, seen, i as nat), seen));
        assert(seen.map.contains_key(x));
        assert(seen.keys.contains(x));
    }
    fields.unique_seq_to_set();
    seen.keys.lemma_cardinality_of_set();
    vstd::set_lib::lemma_len_subset(fields.to_set(), seen.keys.to_set());
}

/// The least number of aliases to a root.
proof fn lemma_first_root(l: LockV, seen: Aliases, n: nat) -> (first: nat)
    requires
        acquire::is_root(acquire::followed(l, seen, n), seen),
    ensures
        first <= n,
        acquire::is_root(acquire::followed(l, seen, first), seen),
        forall|i: nat| i < first ==> !acquire::is_root(#[trigger] acquire::followed(l, seen, i), seen),
    decreases n,
{
    if exists|i: nat| i < n && acquire::is_root(#[trigger] acquire::followed(l, seen, i), seen) {
        let i = choose|i: nat| i < n && acquire::is_root(#[trigger] acquire::followed(l, seen, i), seen);
        lemma_first_root(l, seen, i)
    } else {
        n
    }
}

/// The alias map is followed transitively to the root, however long the chain is.
pub proof fn law_canonical_is_the_root(l: LockV, seen: Aliases, n: nat)
    requires
        seen.wf(),
        acquire::is_root(acquire::followed(l, seen, n), seen),
    ensures
        acquire::canonical(l, seen) == acquire::followed(l, seen, n),
        acquire::is_root(acquire::canonical(l, seen), seen),
{
    let first = lemma_first_root(l, seen, n);
    lemma_root_is_near(l, seen, first);
    lemma_root_stays(l, seen, first, n);
    lemma_root_stays(l, seen, first, seen.keys.len());
}

/// A lock whose aliases come round again names no root: it stays itself, whatever other
/// aliases there are.
pub proof fn law_cyclic_alias_stays_itself(l: LockV, seen: Aliases)
    requires
        !rooted(l, seen),
    ensures
        acquire::canonical(l, seen) == l,
{
    assert(!acquire::is_root(acquire::followed(l, seen, seen.keys.len()), seen));
}

/// An alias and the lock it names are one lock: both are followed to the same root.
pub proof fn law_alias_and_target_are_one_lock(l: LockV, t: LockV, seen: Aliases)
    requires
        seen.wf(),
        l.is_concrete(),
        acquire::alias_of(seen, l.with_mode(Mode::Plain).name()) == Some(t),
        rooted(l, seen),
    ensures
        acquire::canonical(l, seen) == acquire::canonical(t.with_mode(l.mode), seen),
        acquire::is_root(acquire::canonical(l, seen), seen),
{
    let n = choose|n: nat| acquire::is_root(#[trigger] acquire::followed(l, seen, n), seen);
    if n == 0 {
        assert(acquire::is_root(l, seen));
    } else {
        law_canonical_is_the_root(l, seen, n);
        law_canonical_is_the_root(t.with_mode(l.mode), seen, (n - 1) as nat);
    }
}

} // verus!

//! The class hierarchy: which classes and interfaces stand above a class.

use crate::dex::model::{Class, ClassV, Dex};
use crate::dict;
use crate::dict::{Dict, DictV};
use crate::names;
use crate::names::Names;
use crate::values;
use crate::values::Dup;
use vstd::prelude::*;

verus! {

/// The direct parents of each class.
pub type Parents = DictV<Seq<Seq<char>>>;

/// The superclass, if any, and the interfaces.
pub open spec fn direct(c: ClassV) -> Seq<Seq<char>> {
    match c.super_class {
        Some(s) => seq![s] + c.interfaces,
        None => c.interfaces,
    }
}

/// The parents of the class `name` from the `j`th on, behind `acc`.
pub open spec fn parents_in(name: Seq<char>, ps: Seq<Seq<char>>, j: int, acc: Parents) -> Parents
    decreases ps.len() - j,
{
    if j >= ps.len() {
        acc
    } else {
        parents_in(name, ps, j + 1, dict::put_more(acc, name, ps[j]))
    }
}

/// The parents of the classes from the `k`th on, behind `acc`.
pub open spec fn parents_from(cs: Seq<ClassV>, k: int, acc: Parents) -> Parents
    decreases cs.len() - k,
{
    if k >= cs.len() {
        acc
    } else {
        parents_from(cs, k + 1, parents_in(cs[k].descriptor, direct(cs[k]), 0, acc))
    }
}

/// All names that stand above some class, of the classes from the `k`th on, behind `acc`.
pub open spec fn uppers_from(cs: Seq<ClassV>, k: int, acc: Seq<Seq<char>>) -> Seq<Seq<char>>
    decreases cs.len() - k,
{
    if k >= cs.len() {
        acc
    } else {
        uppers_from(cs, k + 1, adopted(acc, direct(cs[k]), 0))
    }
}

/// `seen` with the names of `ps` from the `j`th on.
pub open spec fn adopted(seen: Seq<Seq<char>>, ps: Seq<Seq<char>>, j: int) -> Seq<Seq<char>>
    decreases ps.len() - j,
{
    if j >= ps.len() {
        seen
    } else {
        adopted(names::with(seen, ps[j]), ps, j + 1)
    }
}

/// `seen` with all that stands above its names from the `k`th on, the nearest first; of
/// at most `n` names.
pub open spec fn climbed(par: Parents, seen: Seq<Seq<char>>, k: int, n: int) -> Seq<Seq<char>>
    decreases n - k,
{
    if k >= n || k >= seen.len() {
        seen
    } else {
        climbed(par, adopted(seen, dict::list_at(par, seen[k]), 0), k + 1, n)
    }
}

/// The direct parents of each class.
pub open spec fn parents(cs: Seq<ClassV>) -> Parents {
    parents_from(cs, 0, DictV::none())
}

/// All that stands above the class `c`, the nearest first.
pub open spec fn ancestors(cs: Seq<ClassV>, c: Seq<char>) -> Seq<Seq<char>> {
    climbed(
        parents(cs),
        adopted(Seq::empty(), dict::list_at(parents(cs), c), 0),
        0,
        uppers_from(cs, 0, Seq::empty()).len() as int,
    )
}

/// `b` is a direct parent of `a`.
pub open spec fn linked(par: Parents, a: Seq<char>, b: Seq<char>) -> bool {
    dict::list_at(par, a).contains(b)
}

/// Each name is followed by one of its direct parents.
pub open spec fn chain(par: Parents, p: Seq<Seq<char>>) -> bool {
    p.len() >= 2 && forall|i: int, j: int|
        0 <= i && j == i + 1 && j < p.len() ==> linked(par, #[trigger] p[i], #[trigger] p[j])
}

/// `b` stands above `a`: a chain of direct parents leads there.
pub open spec fn is_above(par: Parents, a: Seq<char>, b: Seq<char>) -> bool {
    exists|p: Seq<Seq<char>>| #[trigger] chain(par, p) && p[0] == a && p.last() == b
}

/// Adopting keeps what was there, in place, and adds exactly the new names.
pub proof fn lemma_adopted(s: Seq<Seq<char>>, ps: Seq<Seq<char>>, j: int)
    requires
        0 <= j,
    ensures
        forall|y: Seq<char>| #[trigger]
            adopted(s, ps, j).contains(y) <==> s.contains(y) || exists|i: int|
                j <= i < ps.len() && #[trigger] ps[i] == y,
        names::distinct(s) ==> names::distinct(adopted(s, ps, j)),
        s.len() <= adopted(s, ps, j).len(),
        forall|i: int| 0 <= i < s.len() ==> adopted(s, ps, j)[i] == s[i],
    decreases ps.len() - j,
{
    if j < ps.len() {
        let t = names::with(s, ps[j]);
        names::lemma_with(s, ps[j]);
        lemma_adopted(t, ps, j + 1);
        assert forall|y: Seq<char>| #[trigger]
            adopted(s, ps, j).contains(y) <==> s.contains(y) || exists|i: int|
                j <= i < ps.len() && #[trigger] ps[i] == y by {
            if y == ps[j] {
                assert(t.contains(y));
            }
        }
        assert forall|i: int| 0 <= i < s.len() implies adopted(s, ps, j)[i] == s[i] by {
            assert(t[i] == s[i]);
        }
    }
}

proof fn lemma_parents_in(name: Seq<char>, ps: Seq<Seq<char>>, j: int, acc: Parents)
    requires
        0 <= j,
    ensures
        forall|a: Seq<char>, b: Seq<char>| #[trigger]
            dict::list_at(parents_in(name, ps, j, acc), a).contains(b) ==> dict::list_at(
                acc,
                a,
            ).contains(b) || exists|i: int| j <= i < ps.len() && #[trigger] ps[i] == b,
    decreases ps.len() - j,
{
    if j < ps.len() {
        let next = dict::put_more(acc, name, ps[j]);
        lemma_parents_in(name, ps, j + 1, next);
        assert forall|a: Seq<char>, b: Seq<char>| #[trigger]
            dict::list_at(parents_in(name, ps, j, acc), a).contains(b) implies dict::list_at(
            acc,
            a,
        ).contains(b) || exists|i: int| j <= i < ps.len() && #[trigger] ps[i] == b by {
            assert(dict::list_at(parents_in(name, ps, j + 1, next), a).contains(b));
            if dict::list_at(next, a).contains(b) && a == name {
                let l = dict::list_at(next, a);
                let i = choose|i: int| 0 <= i < l.len() && l[i] == b;
                if i < l.len() - 1 {
                    assert(dict::list_at(acc, a)[i] == b);
                } else {
                    assert(ps[j] == b);
                }
            }
        }
    }
}

proof fn lemma_uppers_from(cs: Seq<ClassV>, k: int, par: Parents, ups: Seq<Seq<char>>)
    requires
        0 <= k,
        forall|a: Seq<char>, b: Seq<char>| #[trigger]
            dict::list_at(par, a).contains(b) ==> ups.contains(b),
    ensures
        forall|a: Seq<char>, b: Seq<char>| #[trigger]
            dict::list_at(parents_from(cs, k, par), a).contains(b) ==> uppers_from(
                cs,
                k,
                ups,
            ).contains(b),
    decreases cs.len() - k,
{
    if k < cs.len() {
        let ps = direct(cs[k]);
        let p2 = parents_in(cs[k].descriptor, ps, 0, par);
        let u2 = adopted(ups, ps, 0);
        lemma_parents_in(cs[k].descriptor, ps, 0, par);
        lemma_adopted(ups, ps, 0);
        assert forall|a: Seq<char>, b: Seq<char>| #[trigger]
            dict::list_at(p2, a).contains(b) implies u2.contains(b) by {
            if dict::list_at(par, a).contains(b) {
                assert(ups.contains(b));
            }
        }
        lemma_uppers_from(cs, k + 1, p2, u2);
        assert forall|a: Seq<char>, b: Seq<char>| #[trigger]
            dict::list_at(parents_from(cs, k, par), a).contains(b) implies uppers_from(
            cs,
            k,
            ups,
        ).contains(b) by {
            assert(dict::list_at(parents_from(cs, k + 1, p2), a).contains(b));
        }
    }
}

proof fn lemma_fits(s: Seq<Seq<char>>, u: Seq<Seq<char>>)
    requires
        names::distinct(s),
        forall|x: Seq<char>| #[trigger] s.contains(x) ==> u.contains(x),
    ensures
        s.len() <= u.len(),
{
    assert(s.no_duplicates()) by {
        assert forall|i: int, j: int| 0 <= i < s.len() && 0 <= j < s.len() && i != j implies s[i]
            != s[j] by {
            if i < j {
                assert(s[i] != s[j]);
            } else {
                assert(s[j] != s[i]);
            }
        }
    }
    s.unique_seq_to_set();
    vstd::seq_lib::seq_to_set_is_finite(s);
    vstd::seq_lib::seq_to_set_is_finite(u);
    assert(s.to_set().subset_of(u.to_set()));
    vstd::set_lib::lemma_len_subset(s.to_set(), u.to_set());
    u.lemma_cardinality_of_set();
}

/// Everything that stands above `c` is in `seen` or above one of its names from the
/// `k`th on.
spec fn nothing_missed(par: Parents, seen: Seq<Seq<char>>, k: int) -> bool {
    forall|i: int, b: Seq<char>|
        0 <= i < k && i < seen.len() && dict::list_at(par, seen[i]).contains(b) ==> #[trigger] dict::list_at(
            par,
            seen[i],
        ).contains(b) && seen.contains(b)
}

proof fn lemma_climbed(par: Parents, u: Seq<Seq<char>>, c: Seq<char>, seen: Seq<Seq<char>>, k: int)
    requires
        0 <= k <= seen.len(),
        names::distinct(seen),
        forall|a: Seq<char>, b: Seq<char>| #[trigger]
            dict::list_at(par, a).contains(b) ==> u.contains(b),
        forall|x: Seq<char>| #[trigger] seen.contains(x) ==> u.contains(x) && is_above(par, c, x),
        forall|b: Seq<char>| #[trigger] dict::list_at(par, c).contains(b) ==> seen.contains(b),
        nothing_missed(par, seen, k),
    ensures
        ({
            let r = climbed(par, seen, k, u.len() as int);
            &&& forall|x: Seq<char>| #[trigger] r.contains(x) ==> is_above(par, c, x)
            &&& forall|b: Seq<char>| #[trigger] dict::list_at(par, c).contains(b) ==> r.contains(b)
            &&& nothing_missed(par, r, r.len() as int)
            &&& names::distinct(r)
        }),
    decreases u.len() - k,
{
    lemma_fits(seen, u);
    if k < u.len() && k < seen.len() {
        let ps = dict::list_at(par, seen[k]);
        let next = adopted(seen, ps, 0);
        lemma_adopted(seen, ps, 0);
        assert(seen.contains(seen[k]));
        assert forall|x: Seq<char>| #[trigger] next.contains(x) implies u.contains(x) && is_above(
            par,
            c,
            x,
        ) by {
            if !seen.contains(x) {
                let i = choose|i: int| 0 <= i < ps.len() && #[trigger] ps[i] == x;
                assert(dict::list_at(par, seen[k]).contains(x));
                assert(is_above(par, c, seen[k]));
                lemma_above_step(par, c, seen[k], x);
            }
        }
        assert(nothing_missed(par, next, k + 1)) by {
            assert forall|i: int, b: Seq<char>|
                0 <= i < k + 1 && i < next.len() && dict::list_at(par, next[i]).contains(
                    b,
                ) implies #[trigger] dict::list_at(par, next[i]).contains(b) && next.contains(b) by {
                assert(next[i] == seen[i]);
                if i < k {
                    assert(dict::list_at(par, seen[i]).contains(b) && seen.contains(b));
                } else {
                    let j = choose|j: int| 0 <= j < ps.len() && ps[j] == b;
                    assert(ps[j] == b);
                }
            }
        }
        lemma_climbed(par, u, c, next, k + 1);
    }
}

proof fn lemma_above_step(par: Parents, a: Seq<char>, m: Seq<char>, b: Seq<char>)
    requires
        is_above(par, a, m),
        dict::list_at(par, m).contains(b),
    ensures
        is_above(par, a, b),
{
    let p = choose|p: Seq<Seq<char>>| #[trigger] chain(par, p) && p[0] == a && p.last() == m;
    let q = p.push(b);
    assert forall|i: int, j: int| 0 <= i && j == i + 1 && j < q.len() implies linked(
        par,
        #[trigger] q[i],
        #[trigger] q[j],
    ) by {
        if j < p.len() {
            assert(linked(par, p[i], p[j]));
        } else {
            assert(q[i] == p.last());
        }
    }
    assert(chain(par, q));
}

proof fn lemma_closed(par: Parents, r: Seq<Seq<char>>, p: Seq<Seq<char>>, k: int)
    requires
        nothing_missed(par, r, r.len() as int),
        chain(par, p),
        1 <= k < p.len(),
        r.contains(p[1]),
    ensures
        r.contains(p[k]),
    decreases k,
{
    if k > 1 {
        lemma_closed(par, r, p, k - 1);
        let i = choose|i: int| 0 <= i < r.len() && r[i] == p[k - 1];
        assert(linked(par, p[k - 1], p[k]));
        assert(dict::list_at(par, r[i]).contains(p[k]));
    }
}

proof fn lemma_parents_of(name: Seq<char>, ps: Seq<Seq<char>>, j: int, acc: Parents, a: Seq<char>, b: Seq<char>)
    requires
        0 <= j,
    ensures
        linked(parents_in(name, ps, j, acc), a, b) <==> linked(acc, a, b) || (a == name && exists|
            i: int,
        |
            j <= i < ps.len() && #[trigger] ps[i] == b),
    decreases ps.len() - j,
{
    if j < ps.len() {
        let next = dict::put_more(acc, name, ps[j]);
        lemma_parents_of(name, ps, j + 1, next, a, b);
        let was = dict::list_at(acc, a);
        if a == name {
            assert(dict::list_at(next, a) == was.push(ps[j]));
            if was.contains(b) {
                let i = choose|i: int| 0 <= i < was.len() && was[i] == b;
                assert(was.push(ps[j])[i] == b);
            }
            if was.push(ps[j]).contains(b) && b != ps[j] {
                let i = choose|i: int| 0 <= i < was.len() + 1 && was.push(ps[j])[i] == b;
                assert(was[i] == b);
            }
            assert(was.push(ps[j])[was.len() as int] == ps[j]);
        } else {
            assert(dict::list_at(next, a) == was);
        }
    }
}

/// A class of that name has that superclass or that interface.
pub open spec fn is_parent(c: ClassV, a: Seq<char>, b: Seq<char>) -> bool {
    c.descriptor == a && (c.super_class == Some(b) || exists|i: int|
        0 <= i < c.interfaces.len() && #[trigger] c.interfaces[i] == b)
}

proof fn lemma_all_parents(cs: Seq<ClassV>, k: int, acc: Parents, a: Seq<char>, b: Seq<char>)
    requires
        0 <= k,
    ensures
        linked(parents_from(cs, k, acc), a, b) <==> linked(acc, a, b) || exists|i: int|
            k <= i < cs.len() && is_parent(#[trigger] cs[i], a, b),
    decreases cs.len() - k,
{
    if k < cs.len() {
        let c = cs[k];
        let ps = direct(c);
        let next = parents_in(c.descriptor, ps, 0, acc);
        lemma_parents_of(c.descriptor, ps, 0, acc, a, b);
        lemma_all_parents(cs, k + 1, next, a, b);
        assert((exists|i: int| 0 <= i < ps.len() && #[trigger] ps[i] == b) <==> c.super_class == Some(b)
            || exists|i: int| 0 <= i < c.interfaces.len() && #[trigger] c.interfaces[i] == b) by {
            let n: int = if c.super_class is Some {
                1
            } else {
                0
            };
            if exists|i: int| 0 <= i < ps.len() && #[trigger] ps[i] == b {
                let i = choose|i: int| 0 <= i < ps.len() && #[trigger] ps[i] == b;
                if i >= n {
                    assert(c.interfaces[i - n] == b);
                }
            }
            if c.super_class == Some(b) {
                assert(ps[0] == b);
            }
            if exists|i: int| 0 <= i < c.interfaces.len() && #[trigger] c.interfaces[i] == b {
                let i = choose|i: int| 0 <= i < c.interfaces.len() && #[trigger] c.interfaces[i] == b;
                assert(ps[n + i] == b);
            }
        }
    }
}

/// The direct parents of a class are its superclass and its interfaces, and nothing else: what
/// stands above it is reached over those.
pub proof fn law_parents_are_superclass_and_interfaces(cs: Seq<ClassV>, a: Seq<char>, b: Seq<char>)
    ensures
        linked(parents(cs), a, b) <==> exists|i: int|
            0 <= i < cs.len() && is_parent(#[trigger] cs[i], a, b),
        linked(parents(cs), a, b) ==> is_above(parents(cs), a, b),
{
    lemma_all_parents(cs, 0, DictV::none(), a, b);
    assert(dict::list_at(DictV::<Seq<Seq<char>>>::none(), a) =~= Seq::empty());
    if linked(parents(cs), a, b) {
        assert(chain(parents(cs), seq![a, b]));
    }
}

/// The ancestors of a class are exactly the names that stand above it, each once.
pub proof fn law_ancestors_are_all_above(cs: Seq<ClassV>, c: Seq<char>)
    ensures
        names::distinct(ancestors(cs, c)),
        forall|x: Seq<char>| #[trigger]
            ancestors(cs, c).contains(x) <==> is_above(parents(cs), c, x),
{
    let par = parents(cs);
    let u = uppers_from(cs, 0, Seq::empty());
    lemma_uppers_from(cs, 0, DictV::none(), Seq::empty());
    let ps = dict::list_at(par, c);
    let seen = adopted(Seq::empty(), ps, 0);
    lemma_adopted(Seq::empty(), ps, 0);
    assert forall|x: Seq<char>| #[trigger] seen.contains(x) implies u.contains(x) && is_above(
        par,
        c,
        x,
    ) by {
        let i = choose|i: int| 0 <= i < ps.len() && #[trigger] ps[i] == x;
        assert(linked(par, c, x));
        assert(chain(par, seq![c, x]));
    }
    assert forall|b: Seq<char>| #[trigger] dict::list_at(par, c).contains(b) implies seen.contains(
        b,
    ) by {
        let i = choose|i: int| 0 <= i < ps.len() && ps[i] == b;
        assert(ps[i] == b);
    }
    lemma_climbed(par, u, c, seen, 0);
    let r = ancestors(cs, c);
    assert forall|x: Seq<char>| #[trigger] r.contains(x) <==> is_above(par, c, x) by {
        if is_above(par, c, x) {
            let p = choose|p: Seq<Seq<char>>| #[trigger]
                chain(par, p) && p[0] == c && p.last() == x;
            assert(linked(par, p[0], p[1]));
            assert(dict::list_at(par, c).contains(p[1]));
            lemma_closed(par, r, p, p.len() - 1);
        }
    }
}

/// The hierarchy of a program, with the ancestors looked up so far.
pub struct Hierarchy {
    parents: Dict<Vec<String>>,
    uppers: Names,
    memo: Dict<Vec<String>>,
    classes: Ghost<Seq<ClassV>>,
}

fn adopt(seen: &mut Names, ps: &Vec<String>)
    requires
        old(seen).wf(),
    ensures
        final(seen).wf(),
        final(seen)@ == adopted(old(seen)@, ps.deep_view(), 0),
{
    let ghost pv = ps.deep_view();
    let ghost begin = seen@;
    let mut j: usize = 0;
    while j < ps.len()
        invariant
            j <= ps@.len(),
            pv == ps.deep_view(),
            seen.wf(),
            adopted(begin, pv, 0) == adopted(seen@, pv, j as int),
        decreases ps@.len() - j,
    {
        proof {
            assert(pv[j as int] == ps@[j as int]@);
        }
        seen.intern(ps[j].as_str());
        j += 1;
    }
}

fn direct_parents(c: &Class) -> (r: Vec<String>)
    ensures
        r.deep_view() == direct(c.deep_view()),
{
    match &c.super_class {
        Some(s) => {
            let mut out: Vec<String> = values::empty();
            values::push(&mut out, s.dup());
            let mut more = c.interfaces.dup();
            let ghost a = out.deep_view();
            let ghost b = more.deep_view();
            out.append(&mut more);
            proof {
                assert(out.deep_view() =~= a + b);
                assert(a =~= seq![s@]);
            }
            out
        },
        None => c.interfaces.dup(),
    }
}

impl Hierarchy {
    /// The classes that the hierarchy is of.
    pub closed spec fn of(&self) -> Seq<ClassV> {
        self.classes@
    }

    /// What is kept is what the classes give.
    pub closed spec fn wf(&self) -> bool {
        &&& self.parents.wf()
        &&& self.parents@ == parents(self.classes@)
        &&& self.uppers.wf()
        &&& self.uppers@ == uppers_from(self.classes@, 0, Seq::empty())
        &&& self.memo.wf()
        &&& forall|c: Seq<char>| #[trigger]
            self.memo@.map.contains_key(c) ==> self.memo@.map[c] == ancestors(self.classes@, c)
    }

    /// The hierarchy of a program.
    pub fn new(dex: &Dex) -> (r: Hierarchy)
        ensures
            r.wf(),
            r.of() == dex.deep_view().classes,
    {
        let ghost cs = dex.classes.deep_view();
        let mut par: Dict<Vec<String>> = Dict::new();
        let mut uppers = Names::new();
        let mut k: usize = 0;
        while k < dex.classes.len()
            invariant
                k <= dex.classes@.len(),
                cs == dex.classes.deep_view(),
                par.wf(),
                uppers.wf(),
                parents(cs) == parents_from(cs, k as int, par@),
                uppers_from(cs, 0, Seq::empty()) == uppers_from(cs, k as int, uppers@),
            decreases dex.classes@.len() - k,
        {
            let c = &dex.classes[k];
            proof {
                assert(cs[k as int] == c.deep_view());
            }
            let ps = direct_parents(c);
            let ghost pv = ps.deep_view();
            adopt(&mut uppers, &ps);
            let ghost begin = par@;
            let mut j: usize = 0;
            while j < ps.len()
                invariant
                    j <= ps@.len(),
                    pv == ps.deep_view(),
                    par.wf(),
                    parents_in(c.descriptor@, pv, 0, begin) == parents_in(
                        c.descriptor@,
                        pv,
                        j as int,
                        par@,
                    ),
                decreases ps@.len() - j,
            {
                proof {
                    assert(pv[j as int] == ps@[j as int]@);
                }
                par.push_to(c.descriptor.as_str(), ps[j].dup());
                j += 1;
            }
            k += 1;
        }
        Hierarchy { parents: par, uppers, memo: Dict::new(), classes: Ghost(cs) }
    }

    fn climb(&self, c: &str) -> (r: Names)
        requires
            self.wf(),
        ensures
            r.wf(),
            r@ == ancestors(self.of(), c@),
    {
        let ghost par = self.parents@;
        let n = self.uppers.len();
        let mut seen = Names::new();
        match self.parents.get(c) {
            Some(ps) => adopt(&mut seen, ps),
            None => {},
        }
        let ghost begin = seen@;
        let mut k: usize = 0;
        while k < n && k < seen.len()
            invariant
                self.wf(),
                par == self.parents@,
                seen.wf(),
                climbed(par, begin, 0, n as int) == climbed(par, seen@, k as int, n as int),
            decreases n - k,
        {
            let next = match self.parents.get(seen.at(k)) {
                Some(ps) => Some(ps),
                None => None,
            };
            match next {
                Some(ps) => adopt(&mut seen, ps),
                None => {},
            }
            k += 1;
        }
        seen
    }

    /// All that stands above the class `c`, the nearest first.
    pub fn ancestors(&mut self, c: &str) -> (r: &Vec<String>)
        requires
            old(self).wf(),
        ensures
            final(self).wf(),
            final(self).of() == old(self).of(),
            r.deep_view() == ancestors(final(self).of(), c@),
    {
        if !self.memo.has(c) {
            let found = self.climb(c).into_list();
            self.memo.set(c, found);
        }
        proof {
            assert(self.memo@.map.contains_key(c@));
        }
        match self.memo.find(c) {
            Some(i) => self.memo.val_at(i),
            None => self.memo.val_at(0),
        }
    }

    /// `b` stands above `a`.
    pub fn is_above(&mut self, a: &str, b: &str) -> (r: bool)
        requires
            old(self).wf(),
        ensures
            final(self).wf(),
            final(self).of() == old(self).of(),
            r == ancestors(old(self).of(), a@).contains(b@),
    {
        let list = self.ancestors(a);
        names::list_has(list, b)
    }
}

} // verus!

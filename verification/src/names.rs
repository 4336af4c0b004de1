//! Distinct names, numbered as they were first seen.

use crate::text;
use vstd::hash_map::StringHashMap;
use vstd::prelude::*;

verus! {

/// Distinct names in the order of their first appearance.
pub struct Names {
    index: StringHashMap<usize>,
    list: Vec<String>,
}

/// No name occurs twice.
pub open spec fn distinct(s: Seq<Seq<char>>) -> bool {
    forall|i: int, j: int| 0 <= i < j < s.len() ==> #[trigger] s[i] != #[trigger] s[j]
}

/// Where `x` stands in `s`.
pub open spec fn position(s: Seq<Seq<char>>, x: Seq<char>) -> Option<int>
    decreases s.len(),
{
    if s.len() == 0 {
        None
    } else if s.last() == x {
        Some(s.len() - 1)
    } else {
        position(s.drop_last(), x)
    }
}

/// `s` with `x`, which goes to the end if it is new.
pub open spec fn with(s: Seq<Seq<char>>, x: Seq<char>) -> Seq<Seq<char>> {
    if s.contains(x) {
        s
    } else {
        s.push(x)
    }
}

/// In a list of distinct names, the position of a name is the one place that holds it.
pub proof fn lemma_position(s: Seq<Seq<char>>, x: Seq<char>)
    ensures
        position(s, x) is Some <==> s.contains(x),
        match position(s, x) {
            Some(i) => 0 <= i < s.len() && s[i] == x,
            None => true,
        },
    decreases s.len(),
{
    if s.len() > 0 && s.last() != x {
        lemma_position(s.drop_last(), x);
        if s.contains(x) {
            let i = choose|i: int| 0 <= i < s.len() && s[i] == x;
            assert(s.drop_last()[i] == x);
        } else {
            assert(!s.drop_last().contains(x)) by {
                if s.drop_last().contains(x) {
                    let i = choose|i: int| 0 <= i < s.drop_last().len() && s.drop_last()[i] == x;
                    assert(s[i] == x);
                }
            }
        }
    } else if s.len() > 0 {
        assert(s.contains(s.last()));
    }
}

/// What a name more does to a list of names.
pub proof fn lemma_with(s: Seq<Seq<char>>, x: Seq<char>)
    ensures
        forall|y: Seq<char>| #[trigger] with(s, x).contains(y) <==> s.contains(y) || y == x,
        distinct(s) ==> distinct(with(s, x)),
        s.len() <= with(s, x).len(),
        forall|i: int| 0 <= i < s.len() ==> with(s, x)[i] == s[i],
{
    let t = with(s, x);
    assert forall|y: Seq<char>| #[trigger] t.contains(y) <==> s.contains(y) || y == x by {
        if !s.contains(x) {
            if t.contains(y) {
                let i = choose|i: int| 0 <= i < t.len() && t[i] == y;
                if i < s.len() {
                    assert(s[i] == y);
                }
            }
            if s.contains(y) {
                let i = choose|i: int| 0 <= i < s.len() && s[i] == y;
                assert(t[i] == y);
            }
            assert(t[s.len() as int] == x);
        }
    }
    if distinct(s) && !s.contains(x) {
        assert forall|i: int, j: int| 0 <= i < j < t.len() implies #[trigger] t[i] != #[trigger] t[j] by {
            if j == s.len() {
                assert(s[i] != x) by {
                    if s[i] == x {
                        assert(s.contains(x));
                    }
                }
            }
        }
    }
}

impl View for Names {
    type V = Seq<Seq<char>>;

    closed spec fn view(&self) -> Seq<Seq<char>> {
        self.list.deep_view()
    }
}

impl Names {
    /// The index finds exactly the names of the list.
    pub closed spec fn wf(&self) -> bool {
        let s = self.list.deep_view();
        &&& distinct(s)
        &&& forall|x: Seq<char>| #[trigger]
            self.index@.contains_key(x) ==> self.index@[x] < s.len() && s[self.index@[x] as int]
                == x
        &&& forall|i: int|
            0 <= i < s.len() ==> self.index@.contains_key(#[trigger] s[i]) && self.index@[s[i]]
                == i
    }

    /// Each name stands once.
    pub proof fn lemma_distinct(&self)
        requires
            self.wf(),
        ensures
            distinct(self@),
    {
    }

    /// There are no more names than can be numbered.
    pub proof fn lemma_len(&self)
        ensures
            self@.len() <= usize::MAX,
    {
        assert(self@.len() == self.list.len());
    }

    /// No names.
    pub fn new() -> (r: Names)
        ensures
            r.wf(),
            r@ == Seq::<Seq<char>>::empty(),
    {
        let r = Names { index: StringHashMap::new(), list: Vec::new() };
        proof {
            assert(r.list.deep_view() =~= Seq::<Seq<char>>::empty());
        }
        r
    }

    /// How many names there are.
    pub fn len(&self) -> (r: usize)
        ensures
            r == self@.len(),
    {
        self.list.len()
    }

    /// The `i`th name.
    pub fn at(&self, i: usize) -> (r: &str)
        requires
            i < self@.len(),
        ensures
            r@ == self@[i as int],
    {
        self.list[i].as_str()
    }

    /// Where `name` stands.
    pub fn find(&self, name: &str) -> (r: Option<usize>)
        requires
            self.wf(),
        ensures
            match r {
                Some(i) => i < self@.len() && self@[i as int] == name@ && position(self@, name@)
                    == Some(i as int),
                None => !self@.contains(name@) && position(self@, name@) is None,
            },
    {
        proof {
            lemma_position(self@, name@);
        }
        match self.index.get(name) {
            Some(i) => {
                proof {
                    assert(self@[*i as int] == name@);
                    assert(self@.contains(name@));
                    let p = position(self@, name@)->0;
                    if p < *i {
                        assert(self@[p] != self@[*i as int]);
                    } else if *i < p {
                        assert(self@[*i as int] != self@[p]);
                    }
                }
                Some(*i)
            },
            None => None,
        }
    }

    /// `name` is among the names.
    pub fn contains(&self, name: &str) -> (r: bool)
        requires
            self.wf(),
        ensures
            r == self@.contains(name@),
    {
        match self.find(name) {
            Some(i) => {
                proof {
                    assert(self@[i as int] == name@);
                }
                true
            },
            None => false,
        }
    }

    /// The number of `name`, which is given one if it is new.
    pub fn intern(&mut self, name: &str) -> (r: usize)
        requires
            old(self).wf(),
        ensures
            final(self).wf(),
            final(self)@ == with(old(self)@, name@),
            r < final(self)@.len(),
            final(self)@[r as int] == name@,
            position(final(self)@, name@) == Some(r as int),
    {
        match self.find(name) {
            Some(i) => {
                proof {
                    assert(self@[i as int] == name@);
                }
                i
            },
            None => {
                let ghost before = self@;
                let i = self.list.len();
                self.index.insert(name.to_string(), i);
                self.list.push(name.to_string());
                proof {
                    let s = self.list.deep_view();
                    assert(s =~= before.push(name@));
                    assert forall|k: int| 0 <= k < s.len() implies self.index@.contains_key(
                        #[trigger] s[k],
                    ) && self.index@[s[k]] == k by {
                        if k < before.len() {
                            assert(s[k] == before[k]);
                            assert(before.contains(before[k]));
                        }
                    }
                    assert forall|x: Seq<char>| #[trigger]
                        self.index@.contains_key(x) implies self.index@[x] < s.len()
                        && s[self.index@[x] as int] == x by {
                        if x != name@ {
                            assert(before[self.index@[x] as int] == x);
                        }
                    }
                }
                i
            },
        }
    }

    /// Add `name`; says whether it was new.
    pub fn insert(&mut self, name: String) -> (r: bool)
        requires
            old(self).wf(),
        ensures
            final(self).wf(),
            final(self)@ == with(old(self)@, name@),
            r == !old(self)@.contains(name@),
    {
        let n = self.list.len();
        let i = self.intern(name.as_str());
        proof {
            let s = self@;
            if old(self)@.contains(name@) {
                lemma_position(old(self)@, name@);
            } else {
                assert(s[n as int] == name@);
            }
        }
        i == n
    }

    /// Add every name of `other`.
    pub fn extend(&mut self, other: &Names)
        requires
            old(self).wf(),
        ensures
            final(self).wf(),
            final(self)@ == with_all(old(self)@, other@),
    {
        let ghost o = other@;
        let mut k: usize = 0;
        while k < other.list.len()
            invariant
                self.wf(),
                k <= other.list@.len(),
                o == other.list.deep_view(),
                self@ == with_all(old(self)@, o.take(k as int)),
            decreases other.list@.len() - k,
        {
            self.intern(other.list[k].as_str());
            proof {
                assert(o.take(k + 1).drop_last() =~= o.take(k as int));
            }
            k += 1;
        }
        proof {
            assert(o.take(k as int) =~= o);
        }
    }

    /// The names as a list.
    pub fn into_list(self) -> (r: Vec<String>)
        ensures
            r.deep_view() == self@,
    {
        self.list
    }
}

/// `x` is in the list.
pub fn list_has(list: &Vec<String>, x: &str) -> (r: bool)
    ensures
        r == list.deep_view().contains(x@),
{
    let ghost lv = list.deep_view();
    let mut k: usize = 0;
    while k < list.len()
        invariant
            k <= list@.len(),
            lv == list.deep_view(),
            forall|i: int| 0 <= i < k ==> lv[i] != x@,
        decreases list@.len() - k,
    {
        proof {
            assert(lv[k as int] == list@[k as int]@);
        }
        if text::str_eq(list[k].as_str(), x) {
            return true;
        }
        k += 1;
    }
    false
}

/// `s` with the names of `t` that it lacks, in their order.
pub open spec fn with_all(s: Seq<Seq<char>>, t: Seq<Seq<char>>) -> Seq<Seq<char>>
    decreases t.len(),
{
    if t.len() == 0 {
        s
    } else {
        with(with_all(s, t.drop_last()), t.last())
    }
}

} // verus!

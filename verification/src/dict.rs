//! Maps keyed by name that remember the order in which their keys first came.

use crate::names;
use crate::names::Names;
use vstd::prelude::*;

verus! {

/// A map from names, with its keys in the order of their first appearance.
pub struct Dict<V> {
    keys: Names,
    vals: Vec<V>,
}

/// What such a map holds.
#[verifier::ext_equal]
pub struct DictV<A> {
    pub keys: Seq<Seq<char>>,
    pub map: Map<Seq<char>, A>,
}

impl<A> DictV<A> {
    /// No keys.
    pub open spec fn none() -> DictV<A> {
        DictV { keys: Seq::empty(), map: Map::empty() }
    }

    /// The value at `k`.
    pub open spec fn get(self, k: Seq<char>) -> Option<A> {
        if self.map.contains_key(k) {
            Some(self.map[k])
        } else {
            None
        }
    }

    /// With `v` at `k`.
    pub open spec fn put(self, k: Seq<char>, v: A) -> DictV<A> {
        DictV { keys: names::with(self.keys, k), map: self.map.insert(k, v) }
    }

    /// Each key once, and a value for each.
    pub open spec fn wf(self) -> bool {
        &&& names::distinct(self.keys)
        &&& forall|k: Seq<char>| #[trigger] self.map.contains_key(k) <==> self.keys.contains(k)
    }
}

/// The list at `k`, empty without one.
pub open spec fn list_at<A>(d: DictV<Seq<A>>, k: Seq<char>) -> Seq<A> {
    match d.get(k) {
        Some(l) => l,
        None => Seq::empty(),
    }
}

/// With `x` at the end of the list at `k`.
pub open spec fn put_more<A>(d: DictV<Seq<A>>, k: Seq<char>, x: A) -> DictV<Seq<A>> {
    d.put(k, list_at(d, k).push(x))
}

impl<V: DeepView> View for Dict<V> {
    type V = DictV<V::V>;

    closed spec fn view(&self) -> DictV<V::V> {
        DictV {
            keys: self.keys@,
            map: Map::new(
                |k: Seq<char>| self.keys@.contains(k),
                |k: Seq<char>| self.vals@[names::position(self.keys@, k)->0].deep_view(),
            ),
        }
    }
}

impl<V: DeepView> Dict<V> {
    /// A value for each key.
    pub closed spec fn wf(&self) -> bool {
        self.keys.wf() && self.keys@.len() == self.vals@.len()
    }

    /// A well-formed map holds each key once.
    pub proof fn lemma_wf(&self)
        requires
            self.wf(),
        ensures
            self@.wf(),
    {
        self.keys.lemma_distinct();
    }

    proof fn lemma_at(&self, i: int)
        requires
            self.wf(),
            0 <= i < self.vals@.len(),
        ensures
            self@.keys[i] == self.keys@[i],
            self@.map.contains_key(self.keys@[i]),
            self@.map[self.keys@[i]] == self.vals@[i].deep_view(),
    {
        let k = self.keys@[i];
        names::lemma_position(self.keys@, k);
        self.keys.lemma_distinct();
        assert(self.keys@.contains(k));
        let p = names::position(self.keys@, k)->0;
        if p < i {
            assert(self.keys@[p] != self.keys@[i]);
        } else if i < p {
            assert(self.keys@[i] != self.keys@[p]);
        }
    }

    /// An empty map.
    pub fn new() -> (r: Dict<V>)
        ensures
            r.wf(),
            r@ == DictV::<V::V>::none(),
    {
        let r = Dict { keys: Names::new(), vals: Vec::new() };
        proof {
            assert(r@ =~= DictV::<V::V>::none());
        }
        r
    }

    /// How many keys there are.
    pub fn len(&self) -> (r: usize)
        requires
            self.wf(),
        ensures
            r == self@.keys.len(),
    {
        self.vals.len()
    }

    /// The `i`th key.
    pub fn key_at(&self, i: usize) -> (r: &str)
        requires
            self.wf(),
            i < self@.keys.len(),
        ensures
            r@ == self@.keys[i as int],
    {
        self.keys.at(i)
    }

    /// The value at the `i`th key.
    pub fn val_at(&self, i: usize) -> (r: &V)
        requires
            self.wf(),
            i < self@.keys.len(),
        ensures
            self@.get(self@.keys[i as int]) == Some(r.deep_view()),
    {
        proof {
            self.lemma_at(i as int);
        }
        &self.vals[i]
    }

    /// The number of the key `k`.
    pub fn find(&self, k: &str) -> (r: Option<usize>)
        requires
            self.wf(),
        ensures
            match r {
                Some(i) => i < self@.keys.len() && self@.keys[i as int] == k@
                    && self@.map.contains_key(k@),
                None => !self@.map.contains_key(k@) && !self@.keys.contains(k@),
            },
    {
        let r = self.keys.find(k);
        proof {
            match r {
                Some(i) => self.lemma_at(i as int),
                None => {},
            }
        }
        r
    }

    /// The value at `k`.
    pub fn get(&self, k: &str) -> (r: Option<&V>)
        requires
            self.wf(),
        ensures
            match r {
                Some(v) => self@.get(k@) == Some(v.deep_view()),
                None => self@.get(k@) is None,
            },
    {
        match self.find(k) {
            Some(i) => Some(self.val_at(i)),
            None => None,
        }
    }

    /// There is a value at `k`.
    pub fn has(&self, k: &str) -> (r: bool)
        requires
            self.wf(),
        ensures
            r == self@.map.contains_key(k@),
    {
        match self.find(k) {
            Some(_) => true,
            None => false,
        }
    }

    /// Put `v` at `k`.
    pub fn set(&mut self, k: &str, v: V)
        requires
            old(self).wf(),
        ensures
            final(self).wf(),
            final(self)@ == old(self)@.put(k@, v.deep_view()),
    {
        let ghost before = *self;
        match self.keys.find(k) {
            Some(i) => {
                self.vals.set(i, v);
                proof {
                    before.lemma_wf();
                    assert(before.keys@.contains(k@));
                    assert forall|x: Seq<char>| #[trigger]
                        self@.map.contains_key(x) implies self@.map[x]
                        == before@.map.insert(k@, v.deep_view())[x] by {
                        names::lemma_position(before.keys@, x);
                        let p = names::position(before.keys@, x)->0;
                        if p == i {
                            assert(x == k@);
                        } else {
                            assert(self.vals@[p] == before.vals@[p]);
                        }
                    }
                    assert(self@ =~= before@.put(k@, v.deep_view()));
                }
            },
            None => {
                self.keys.intern(k);
                self.vals.push(v);
                proof {
                    before.lemma_wf();
                    assert(self.keys@ == before.keys@.push(k@));
                    assert forall|x: Seq<char>|
                        self@.map.contains_key(x) == #[trigger] before@.map.insert(
                            k@,
                            v.deep_view(),
                        ).contains_key(x) by {
                        if before.keys@.contains(x) {
                            let j = choose|j: int|
                                0 <= j < before.keys@.len() && before.keys@[j] == x;
                            assert(self.keys@[j] == x);
                        }
                        if x == k@ {
                            assert(self.keys@[before.keys@.len() as int] == x);
                        }
                    }
                    assert forall|x: Seq<char>| #[trigger]
                        self@.map.contains_key(x) implies self@.map[x]
                        == before@.map.insert(k@, v.deep_view())[x] by {
                        let j = choose|j: int| 0 <= j < self.keys@.len() && self.keys@[j] == x;
                        self.lemma_at(j);
                        if j < before.keys@.len() {
                            assert(before.keys@[j] == x);
                            before.lemma_at(j);
                            assert(before.keys@.contains(x));
                        }
                    }
                    assert(self@ =~= before@.put(k@, v.deep_view()));
                }
            },
        }
    }
}

impl<T: DeepView> Dict<Vec<T>> {
    /// Put `x` at the end of the list at `k`.
    pub fn push_to(&mut self, k: &str, x: T)
        requires
            old(self).wf(),
        ensures
            final(self).wf(),
            final(self)@ == put_more(old(self)@, k@, x.deep_view()),
    {
        let ghost before = self@;
        let mut list: Vec<T> = crate::values::empty();
        match self.keys.find(k) {
            Some(i) => {
                proof {
                    self.lemma_at(i as int);
                }
                let ghost old_self = *self;
                std::mem::swap(&mut self.vals[i], &mut list);
                proof {
                    assert(list == old_self.vals@[i as int]);
                    assert(self.vals@ =~= old_self.vals@.update(i as int, self.vals@[i as int]));
                }
                crate::values::push(&mut list, x);
                let ghost mid = *self;
                let ghost grown = list.deep_view();
                self.vals.set(i, list);
                proof {
                    old_self.lemma_wf();
                    assert(old_self.keys@.contains(k@));
                    assert(list_at(before, k@).push(x.deep_view()) == grown);
                    assert forall|y: Seq<char>| #[trigger]
                        self@.map.contains_key(y) implies self@.map[y] == before.map.insert(
                        k@,
                        grown,
                    )[y] by {
                        names::lemma_position(old_self.keys@, y);
                        let p = names::position(old_self.keys@, y)->0;
                        if p != i {
                            assert(self.vals@[p] == old_self.vals@[p]);
                        }
                    }
                    assert(self@ =~= before.put(k@, grown));
                }
            },
            None => {
                proof {
                    assert(!self@.map.contains_key(k@));
                }
                crate::values::push(&mut list, x);
                self.set(k, list);
            },
        }
    }
}

} // verus!

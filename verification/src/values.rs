//! Copying and comparing values by what they hold.

use crate::text;
use vstd::prelude::*;

verus! {

/// A value that can be copied.
pub trait Dup: DeepView + Sized {
    /// A copy that holds the same.
    fn dup(&self) -> (r: Self)
        ensures
            r.deep_view() == self.deep_view(),
    ;
}

/// A value that can be compared.
pub trait Same: DeepView + Sized {
    /// Both hold the same.
    fn same(&self, other: &Self) -> (r: bool)
        ensures
            r == (self.deep_view() == other.deep_view()),
    ;
}

impl Dup for String {
    fn dup(&self) -> (r: Self) {
        self.clone()
    }
}

impl Same for String {
    fn same(&self, other: &Self) -> (r: bool) {
        text::str_eq(self.as_str(), other.as_str())
    }
}

impl Dup for u32 {
    fn dup(&self) -> (r: Self) {
        *self
    }
}

impl Same for u32 {
    fn same(&self, other: &Self) -> (r: bool) {
        *self == *other
    }
}

impl Dup for u8 {
    fn dup(&self) -> (r: Self) {
        *self
    }
}

impl Same for u8 {
    fn same(&self, other: &Self) -> (r: bool) {
        *self == *other
    }
}

impl<T: Dup> Dup for Option<T> {
    fn dup(&self) -> (r: Self) {
        match self {
            Some(x) => Some(x.dup()),
            None => None,
        }
    }
}

impl<T: Same> Same for Option<T> {
    fn same(&self, other: &Self) -> (r: bool) {
        match (self, other) {
            (Some(x), Some(y)) => x.same(y),
            (None, None) => true,
            _ => false,
        }
    }
}

impl<A: Dup, B: Dup> Dup for (A, B) {
    fn dup(&self) -> (r: Self) {
        (self.0.dup(), self.1.dup())
    }
}

impl<A: Same, B: Same> Same for (A, B) {
    fn same(&self, other: &Self) -> (r: bool) {
        self.0.same(&other.0) && self.1.same(&other.1)
    }
}

impl<T: Dup> Dup for Vec<T> {
    fn dup(&self) -> (r: Self) {
        let ghost all = self.deep_view();
        let mut out: Vec<T> = Vec::new();
        let mut k: usize = 0;
        while k < self.len()
            invariant
                k <= self@.len(),
                all == self.deep_view(),
                out.deep_view() == all.take(k as int),
            decreases self@.len() - k,
        {
            let ghost before = out.deep_view();
            let x = self[k].dup();
            out.push(x);
            proof {
                assert(out.deep_view() =~= before.push(x.deep_view()));
                assert(all.take(k + 1) =~= all.take(k as int).push(all[k as int]));
            }
            k += 1;
        }
        proof {
            assert(all.take(k as int) =~= all);
        }
        out
    }
}

impl<T: Same> Same for Vec<T> {
    fn same(&self, other: &Self) -> (r: bool) {
        let ghost a = self.deep_view();
        let ghost b = other.deep_view();
        if self.len() != other.len() {
            proof {
                assert(a.len() != b.len());
            }
            return false;
        }
        let mut k: usize = 0;
        while k < self.len()
            invariant
                k <= self@.len(),
                self@.len() == other@.len(),
                a == self.deep_view(),
                b == other.deep_view(),
                forall|i: int| 0 <= i < k ==> a[i] == b[i],
            decreases self@.len() - k,
        {
            if !self[k].same(&other[k]) {
                proof {
                    assert(a[k as int] != b[k as int]);
                }
                return false;
            }
            k += 1;
        }
        proof {
            assert(a =~= b);
        }
        true
    }
}

/// Append an item.
pub fn push<T: DeepView>(v: &mut Vec<T>, x: T)
    ensures
        final(v)@ == old(v)@.push(x),
        final(v).deep_view() == old(v).deep_view().push(x.deep_view()),
{
    let ghost before = v.deep_view();
    v.push(x);
    proof {
        assert(v.deep_view() =~= before.push(x.deep_view()));
    }
}

/// An empty list.
pub fn empty<T: DeepView>() -> (r: Vec<T>)
    ensures
        r@ == Seq::<T>::empty(),
        r.deep_view() == Seq::<T::V>::empty(),
{
    let r: Vec<T> = Vec::new();
    proof {
        assert(r.deep_view() =~= Seq::<T::V>::empty());
    }
    r
}

} // verus!

//! The lock identity that each register holds.

use crate::dex::model::{Invoke, InvokeV, Lock, LockV, Method, MethodV, Root, RootV};
use crate::text;
use crate::values::{Dup, Same};
use std::collections::HashMap;
use vstd::prelude::*;

verus! {

broadcast use vstd::std_specs::hash::group_hash_axioms;

/// The registers whose value is a known lock, and all registers that ever were.
pub struct Regs {
    map: HashMap<u32, Lock>,
    touched: Vec<u32>,
}

impl View for Regs {
    type V = Map<u32, LockV>;

    closed spec fn view(&self) -> Map<u32, LockV> {
        Map::new(|r: u32| self.map@.contains_key(r), |r: u32| self.map@[r].deep_view())
    }
}

/// What a register holds.
pub open spec fn reg(regs: Map<u32, LockV>, r: u32) -> Option<LockV> {
    if regs.contains_key(r) {
        Some(regs[r])
    } else {
        None
    }
}

/// The lock in the register of the receiver.
pub open spec fn receiver(rs: Map<u32, LockV>, inv: InvokeV) -> Option<LockV> {
    if inv.args.len() > 0 {
        reg(rs, inv.args[0])
    } else {
        None
    }
}

/// With register `r` holding `v`, or nothing known.
pub open spec fn with_reg(regs: Map<u32, LockV>, r: u32, v: Option<LockV>) -> Map<u32, LockV> {
    match v {
        Some(l) => regs.insert(r, l),
        None => regs.remove(r),
    }
}

/// What both hold alike.
pub open spec fn agreed(a: Map<u32, LockV>, b: Map<u32, LockV>) -> Map<u32, LockV> {
    Map::new(|r: u32| a.contains_key(r) && b.contains_key(r) && a[r] == b[r], |r: u32| a[r])
}

/// Without the registers that hold a lock of that name.
pub open spec fn without_named(rs: Map<u32, LockV>, name: Seq<char>) -> Map<u32, LockV> {
    Map::new(|r: u32| rs.contains_key(r) && rs[r].name() != name, |r: u32| rs[r])
}

/// The registers on entry to a method: the receiver in the low parameter register, the
/// formals above it.
pub open spec fn on_entry(m: MethodV) -> Map<u32, LockV> {
    let base = m.first_param();
    Map::new(
        |r: u32| base <= r < base + m.ins,
        |r: u32|
            if r == base && m.this_reg() is Some {
                LockV::new(RootV::This)
            } else {
                LockV::new(RootV::Param((r - base) as u32))
            },
    )
}

impl Regs {
    /// Every known register was touched.
    pub closed spec fn wf(&self) -> bool {
        forall|r: u32| #[trigger] self.map@.contains_key(r) ==> self.touched@.contains(r)
    }

    /// Nothing known.
    pub fn new() -> (s: Regs)
        ensures
            s.wf(),
            s@ == Map::<u32, LockV>::empty(),
    {
        let s = Regs { map: HashMap::new(), touched: Vec::new() };
        proof {
            assert(s@ =~= Map::<u32, LockV>::empty());
        }
        s
    }

    /// The registers on entry to a method.
    pub fn entry(m: &Method) -> (s: Regs)
        ensures
            s.wf(),
            s@ == on_entry(m.deep_view()),
    {
        let base = m.first_param();
        let has_this = match m.this_reg() {
            Some(_) => true,
            None => false,
        };
        let ghost mv = m.deep_view();
        let mut s = Regs::new();
        let mut j: u32 = 0;
        while j < m.ins
            invariant
                j <= m.ins,
                s.wf(),
                mv == m.deep_view(),
                base == mv.first_param(),
                has_this == (mv.this_reg() is Some),
                forall|r: u32| s@.contains_key(r) <==> base <= r < base + j,
                forall|r: u32| base <= r < base + j ==> #[trigger] s@[r] == on_entry(mv)[r],
            decreases m.ins - j,
        {
            let root = if j == 0 && has_this {
                Root::This
            } else {
                Root::Param(j)
            };
            s.set(base + j, Lock::new(root));
            j += 1;
        }
        proof {
            assert(s@ =~= on_entry(mv));
        }
        s
    }

    /// What register `r` holds.
    pub fn get(&self, r: u32) -> (o: Option<&Lock>)
        ensures
            match o {
                Some(l) => reg(self@, r) == Some(l.deep_view()),
                None => reg(self@, r) is None,
            },
    {
        self.map.get(&r)
    }

    /// Register `r` holds `l` from here on.
    pub fn set(&mut self, r: u32, l: Lock)
        requires
            old(self).wf(),
        ensures
            final(self).wf(),
            final(self)@ == old(self)@.insert(r, l.deep_view()),
    {
        let ghost before = self@;
        let ghost old_touched = self.touched@;
        let fresh = !self.map.contains_key(&r);
        self.map.insert(r, l);
        if fresh {
            self.touched.push(r);
        }
        proof {
            assert forall|x: u32| #[trigger]
                self.map@.contains_key(x) implies self.touched@.contains(x) by {
                if x == r && fresh {
                    assert(self.touched@[old_touched.len() as int] == r);
                } else {
                    assert(old_touched.contains(x));
                    let i = choose|i: int| 0 <= i < old_touched.len() && old_touched[i] == x;
                    assert(self.touched@[i] == x);
                }
            }
            assert(self@ =~= before.insert(r, l.deep_view()));
        }
    }

    /// Nothing is known of register `r` from here on.
    pub fn clear(&mut self, r: u32)
        requires
            old(self).wf(),
        ensures
            final(self).wf(),
            final(self)@ == old(self)@.remove(r),
    {
        let ghost before = self@;
        self.map.remove(&r);
        proof {
            assert(self@ =~= before.remove(r));
        }
    }

    /// Register `r` holds `v` from here on, or nothing known.
    pub fn put(&mut self, r: u32, v: Option<Lock>)
        requires
            old(self).wf(),
        ensures
            final(self).wf(),
            final(self)@ == with_reg(old(self)@, r, v.deep_view()),
    {
        match v {
            Some(l) => self.set(r, l),
            None => self.clear(r),
        }
    }

    /// Nothing is known from here on of the registers that hold a lock of that name.
    pub fn forget(&mut self, name: &str)
        requires
            old(self).wf(),
        ensures
            final(self).wf(),
            final(self)@ == without_named(old(self)@, name@),
    {
        let ghost before = self@;
        let mut k: usize = 0;
        while k < self.touched.len()
            invariant
                k <= self.touched@.len(),
                self.wf(),
                self.touched@ == old(self).touched@,
                before == old(self)@,
                forall|r: u32| #[trigger]
                    self@.contains_key(r) ==> before.contains_key(r) && self@[r] == before[r],
                forall|r: u32| #[trigger]
                    before.contains_key(r) && !self@.contains_key(r) ==> before[r].name() == name@,
                forall|i: int|
                    0 <= i < k && self@.contains_key(#[trigger] self.touched@[i])
                        ==> self@[self.touched@[i]].name() != name@,
            decreases self.touched@.len() - k,
        {
            let r = self.touched[k];
            let gone = match self.get(r) {
                Some(l) => text::str_eq(l.name().as_str(), name),
                None => false,
            };
            if gone {
                let ghost prev = self@;
                self.map.remove(&r);
                proof {
                    assert(self@ =~= prev.remove(r));
                }
            }
            k += 1;
        }
        proof {
            assert forall|r: u32| #[trigger]
                self@.contains_key(r) == without_named(before, name@).contains_key(r) by {
                if self@.contains_key(r) {
                    assert(self.map@.contains_key(r));
                    let i = choose|i: int| 0 <= i < self.touched@.len() && self.touched@[i] == r;
                    assert(self@[self.touched@[i]].name() != name@);
                }
            }
            assert(self@ =~= without_named(before, name@));
        }
    }

    /// A copy.
    pub fn copy(&self) -> (s: Regs)
        requires
            self.wf(),
        ensures
            s.wf(),
            s@ == self@,
    {
        let mut s = Regs::new();
        let mut k: usize = 0;
        while k < self.touched.len()
            invariant
                k <= self.touched@.len(),
                s.wf(),
                forall|r: u32| #[trigger]
                    s@.contains_key(r) ==> self@.contains_key(r) && s@[r] == self@[r],
                forall|i: int|
                    0 <= i < k && self@.contains_key(#[trigger] self.touched@[i])
                        ==> s@.contains_key(self.touched@[i]),
            decreases self.touched@.len() - k,
        {
            let r = self.touched[k];
            match self.get(r) {
                Some(l) => s.set(r, l.dup()),
                None => {},
            }
            k += 1;
        }
        proof {
            assert forall|r: u32| #[trigger] s@.contains_key(r) == self@.contains_key(r) by {
                if self@.contains_key(r) {
                    assert(self.map@.contains_key(r));
                    let i = choose|i: int| 0 <= i < self.touched@.len() && self.touched@[i] == r;
                    assert(s@.contains_key(self.touched@[i]));
                }
            }
            assert(s@ =~= self@);
        }
        s
    }

    /// Keep what `other` holds alike; says whether anything was lost.
    pub fn agree(&mut self, other: &Regs) -> (changed: bool)
        requires
            old(self).wf(),
        ensures
            final(self).wf(),
            final(self)@ == agreed(old(self)@, other@),
            changed == (final(self)@ != old(self)@),
    {
        let ghost before = self@;
        let mut changed = false;
        let mut k: usize = 0;
        while k < self.touched.len()
            invariant
                k <= self.touched@.len(),
                self.wf(),
                self.touched@ == old(self).touched@,
                before == old(self)@,
                forall|r: u32| #[trigger]
                    self@.contains_key(r) ==> before.contains_key(r) && self@[r] == before[r],
                forall|r: u32| #[trigger]
                    before.contains_key(r) && !self@.contains_key(r) ==> !agreed(
                        before,
                        other@,
                    ).contains_key(r),
                forall|i: int|
                    0 <= i < k && self@.contains_key(#[trigger] self.touched@[i]) ==> agreed(
                        before,
                        other@,
                    ).contains_key(self.touched@[i]),
                changed == (exists|r: u32| #[trigger]
                    before.contains_key(r) && !self@.contains_key(r)),
            decreases self.touched@.len() - k,
        {
            let r = self.touched[k];
            let keep = match (self.get(r), other.get(r)) {
                (Some(a), Some(b)) => a.same(b),
                (None, _) => true,
                _ => false,
            };
            if !keep {
                let ghost prev = self@;
                self.map.remove(&r);
                changed = true;
                proof {
                    assert(self@ =~= prev.remove(r));
                    assert(before.contains_key(r) && !self@.contains_key(r));
                }
            }
            k += 1;
        }
        proof {
            assert forall|r: u32| #[trigger]
                self@.contains_key(r) == agreed(before, other@).contains_key(r) by {
                if self@.contains_key(r) {
                    assert(self.map@.contains_key(r));
                    let i = choose|i: int| 0 <= i < self.touched@.len() && self.touched@[i] == r;
                    assert(agreed(before, other@).contains_key(self.touched@[i]));
                } else if before.contains_key(r) {
                }
            }
            assert(self@ =~= agreed(before, other@));
            if !changed {
                assert(self@ =~= before);
            }
        }
        changed
    }
}

/// A copy of what a register holds.
pub fn known(o: Option<&Lock>) -> (r: Option<Lock>)
    ensures
        match o {
            Some(l) => r.deep_view() == Some(l.deep_view()),
            None => r is None,
        },
{
    match o {
        Some(l) => Some(l.dup()),
        None => None,
    }
}

/// The lock in the register of the receiver.
pub fn receiver_of(rs: &Regs, inv: &Invoke) -> (r: Option<Lock>)
    ensures
        r.deep_view() == receiver(rs@, inv.deep_view()),
{
    if inv.args.len() > 0 {
        known(rs.get(inv.args[0]))
    } else {
        None
    }
}

} // verus!

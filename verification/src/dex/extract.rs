//! Per-method extraction for lock resolution. A linear pass over the decoded
//! instructions recovers, per register, the lock identity of every value, and
//! records each monitor-enter / `Lock.lock` site plus the field stores, parameter
//! stores, and call-site argument bindings the global phase needs to resolve those
//! locks interprocedurally.

use crate::dex::juc;
use crate::dex::juc::LockCall;
use crate::dex::model::{Insn, InsnV, Invoke, InvokeV, Lock, LockV, Method, MethodV, Mode, Op, OpV, Reg, Root, RootV};
use crate::dex::regs;
use crate::dex::regs::Regs;
use crate::dict::{Dict, DictV};
use crate::text;
use crate::values;
use crate::values::{Dup, Same};
use vstd::prelude::*;

verus! {

/// Per-method facts the resolver consumes: the lock-acquisition sites to be named,
/// plus the evidence used to resolve a lock's identity across calls.
pub struct Summary {
    pub key: String,
    pub class: String,
    /// every `monitor-enter` / `Lock.lock` in this method: (pre-ground lock, source
    /// line) — the site a contention record lands on.
    pub acq_sites: Vec<(Lock, Option<u32>)>,
    /// a trivial getter's return value, so `synchronized(getX())` resolves through it.
    pub value_summary: Option<Lock>,
    /// `field = new T(...)`: (field key, type). A type allocated once and stored in a
    /// single field is a singleton, whose `this`-monitor is the same lock as
    /// `owner.field`.
    pub alloc_stores: Vec<(String, String)>,
    /// `this.f = <concrete lock>` (another field, a static, or `Service.this`):
    /// `Class.field` names that same object.
    pub field_aliases: Vec<(String, Lock)>,
    /// `this.f = formal` in any method (declaring-class field key so it threads
    /// through `super`, formal index with receiver `this` = 0): the field aliases
    /// that formal, resolved interprocedurally.
    pub param_stores: Vec<(String, u32)>,
    /// resolved actual arguments of every object-passing invoke: (callee key,
    /// actuals), actual index aligned with the callee's formal index (receiver at 0).
    pub arg_bindings: Vec<(String, Vec<Option<Lock>>)>,
}

/// What a summary holds.
pub struct SummaryV {
    pub key: Seq<char>,
    pub class: Seq<char>,
    pub acq_sites: Seq<(LockV, Option<u32>)>,
    pub value_summary: Option<LockV>,
    pub alloc_stores: Seq<(Seq<char>, Seq<char>)>,
    pub field_aliases: Seq<(Seq<char>, LockV)>,
    pub param_stores: Seq<(Seq<char>, u32)>,
    pub arg_bindings: Seq<(Seq<char>, Seq<Option<LockV>>)>,
}

impl DeepView for Summary {
    type V = SummaryV;

    open spec fn deep_view(&self) -> SummaryV {
        SummaryV {
            key: self.key@,
            class: self.class@,
            acq_sites: self.acq_sites.deep_view(),
            value_summary: self.value_summary.deep_view(),
            alloc_stores: self.alloc_stores.deep_view(),
            field_aliases: self.field_aliases.deep_view(),
            param_stores: self.param_stores.deep_view(),
            arg_bindings: self.arg_bindings.deep_view(),
        }
    }
}

/// What the pass knows between two instructions.
pub struct FrameV {
    /// the lock each register holds.
    pub regs: Map<u32, LockV>,
    /// the class allocated at each allocation site.
    pub alloc_ty: DictV<Seq<char>>,
    /// what the last call returned.
    pub last_ret: Option<LockV>,
    /// what each `return` so far gives.
    pub yields: Seq<Option<LockV>>,
    pub sum: SummaryV,
}

struct Frame {
    regs: Regs,
    alloc_ty: Dict<String>,
    last_ret: Option<Lock>,
    yields: Vec<Option<Lock>>,
    sum: Summary,
}

impl Frame {
    spec fn wf(&self) -> bool {
        self.regs.wf() && self.alloc_ty.wf()
    }
}

impl View for Frame {
    type V = FrameV;

    closed spec fn view(&self) -> FrameV {
        FrameV {
            regs: self.regs@,
            alloc_ty: self.alloc_ty@,
            last_ret: self.last_ret.deep_view(),
            yields: self.yields.deep_view(),
            sum: self.sum.deep_view(),
        }
    }
}

/// A program point: `key+offset`, the offset in at least four hexadecimal digits.
pub open spec fn point(key: Seq<char>, offset: u32) -> Seq<char> {
    key + "+"@ + text::hex(offset as nat, 4)
}

fn point_text(key: &str, offset: u32) -> (r: String)
    ensures
        r@ == point(key@, offset),
{
    let mut s = text::cat(key, "+");
    text::push_hex(&mut s, offset, 4);
    s
}

/// The locks in the registers that a call passes.
pub open spec fn actuals(rs: Map<u32, LockV>, args: Seq<u32>) -> Seq<Option<LockV>> {
    Seq::new(args.len(), |i: int| regs::reg(rs, args[i]))
}

/// A value that a getter may be summarized by.
pub open spec fn simple(l: LockV) -> bool {
    l.root is This || l.root is Param || l.root is Recv || l.root is Static || l.root is ClassConst
}

/// An object whose identity another method can use.
pub open spec fn passable(l: LockV) -> bool {
    l.root is This || l.root is Param || l.root is Recv || l.root is Static
}

/// Some actual is an object whose identity the callee can use.
pub open spec fn any_passable(args: Seq<Option<LockV>>) -> bool {
    exists|i: int|
        0 <= i < args.len() && (#[trigger] args[i] matches Some(l) && passable(l))
}

/// `this.field = <value>`: a formal stays symbolic; a concrete field or static is
/// aliased directly. So `mGlobalLock = Service.this` makes the field the same lock as
/// `synchronized(this)`.
pub open spec fn stored(m: MethodV, f: FrameV, value: Option<LockV>, key: Seq<char>) -> SummaryV {
    match value {
        None => f.sum,
        Some(v) => match v.root {
            RootV::Param(idx) => SummaryV {
                param_stores: f.sum.param_stores.push((key, idx)),
                ..f.sum
            },
            _ => {
                let g = v.ground(m.class, m.key());
                if g.is_concrete() && g.name() != key {
                    SummaryV { field_aliases: f.sum.field_aliases.push((key, g)), ..f.sum }
                } else {
                    f.sum
                }
            },
        },
    }
}

/// A store to an instance field. An allocation stored into `this.field` is that field
/// from there on, so a later use of the same register carries the field's identity
/// instead of an opaque allocation.
pub open spec fn after_iput(
    m: MethodV,
    f: FrameV,
    src: u32,
    base: u32,
    class: Seq<char>,
    field: Seq<char>,
) -> FrameV {
    let key = class + "."@ + field;
    let own = regs::reg(f.regs, base) matches Some(l) && l.root is This;
    let value = regs::reg(f.regs, src);
    let sum = if own {
        stored(m, f, value, key)
    } else {
        f.sum
    };
    match value {
        Some(LockV { root: RootV::Alloc(site), .. }) => FrameV {
            regs: if own {
                f.regs.insert(src, LockV::new(RootV::This).append(seq![field], Mode::Plain))
            } else {
                f.regs
            },
            sum: match f.alloc_ty.get(site) {
                Some(ty) => SummaryV { alloc_stores: sum.alloc_stores.push((key, ty)), ..sum },
                None => sum,
            },
            ..f
        },
        _ => FrameV { sum, ..f },
    }
}

/// A call: its object-passing actuals are recorded, and what it means for locks is
/// applied. `readLock()` / `writeLock()` return a view of the same lock; `lock()` and
/// `tryLock()` are acquisition sites; the value of a trivial getter flows to its result.
pub open spec fn after_invoke(
    m: MethodV,
    vals: Map<Seq<char>, LockV>,
    f: FrameV,
    offset: u32,
    inv: InvokeV,
) -> FrameV {
    let bound = actuals(f.regs, inv.args);
    let sum = if any_passable(bound) {
        SummaryV { arg_bindings: f.sum.arg_bindings.push((inv.key(), bound)), ..f.sum }
    } else {
        f.sum
    };
    let recv = regs::receiver(f.regs, inv);
    match juc::meaning(inv.class, inv.name) {
        Some(LockCall::ReadView) => FrameV {
            sum,
            last_ret: match recv {
                Some(l) => Some(l.with_mode(Mode::Read)),
                None => None,
            },
            ..f
        },
        Some(LockCall::WriteView) => FrameV {
            sum,
            last_ret: match recv {
                Some(l) => Some(l.with_mode(Mode::Write)),
                None => None,
            },
            ..f
        },
        Some(LockCall::Acquire) | Some(LockCall::TryAcquire) => FrameV {
            sum: acquired(m, sum, recv, offset),
            last_ret: None,
            ..f
        },
        Some(LockCall::Release) => FrameV { sum, last_ret: None, ..f },
        None => FrameV {
            sum,
            last_ret: if vals.contains_key(inv.key()) {
                vals[inv.key()].subst(bound)
            } else {
                None
            },
            ..f
        },
    }
}

/// An acquisition site: of the known lock, else of an unknown one of its own.
pub open spec fn acquired(m: MethodV, sum: SummaryV, lock: Option<LockV>, offset: u32) -> SummaryV {
    let l = match lock {
        Some(l) => l,
        None => LockV::new(RootV::Opaque(point(m.key(), offset))),
    };
    SummaryV { acq_sites: sum.acq_sites.push((l, m.line_at(offset))), ..sum }
}

/// What one instruction does to the frame.
pub open spec fn step(
    m: MethodV,
    vals: Map<Seq<char>, LockV>,
    f: FrameV,
    insn: InsnV,
) -> FrameV {
    match insn.op {
        OpV::Sget { dst, class, field } => FrameV {
            regs: f.regs.insert(dst, LockV::field(RootV::Static(class), field)),
            ..f
        },
        OpV::Iget { dst, base, class, field, ty } => FrameV {
            regs: f.regs.insert(dst, LockV::field(RootV::Recv(class), field)),
            ..f
        },
        OpV::Iput { src, base, class, field } => after_iput(m, f, src, base, class, field),
        OpV::ConstClass { dst, class } => FrameV {
            regs: f.regs.insert(dst, LockV::new(RootV::ClassConst(class))),
            ..f
        },
        OpV::NewInstance { dst, class } => {
            let site = point(m.key(), insn.offset);
            FrameV {
                regs: f.regs.insert(dst, LockV::new(RootV::Alloc(site))),
                alloc_ty: f.alloc_ty.put(site, class),
                ..f
            }
        },
        OpV::Move { dst, src } => FrameV {
            regs: regs::with_reg(f.regs, dst, regs::reg(f.regs, src)),
            ..f
        },
        OpV::MoveResult { dst } => FrameV {
            regs: regs::with_reg(f.regs, dst, f.last_ret),
            last_ret: None,
            ..f
        },
        OpV::Def(dst) => FrameV { regs: f.regs.remove(dst), ..f },
        OpV::Return(r) => FrameV {
            yields: f.yields.push(
                match r {
                    Some(x) => regs::reg(f.regs, x),
                    None => None,
                },
            ),
            ..f
        },
        OpV::Invoke(inv) => after_invoke(m, vals, f, insn.offset, inv),
        OpV::MonitorEnter(r) => FrameV {
            sum: acquired(m, f.sum, regs::reg(f.regs, r), insn.offset),
            ..f
        },
        _ => f,
    }
}

/// The frame behind the instructions from the `k`th on.
pub open spec fn steps(m: MethodV, vals: Map<Seq<char>, LockV>, k: int, f: FrameV) -> FrameV
    decreases m.insns.len() - k,
{
    if k >= m.insns.len() {
        f
    } else {
        steps(m, vals, k + 1, step(m, vals, f, m.insns[k]))
    }
}

/// Nothing recorded yet.
pub open spec fn blank(key: Seq<char>, class: Seq<char>) -> SummaryV {
    SummaryV {
        key,
        class,
        acq_sites: Seq::empty(),
        value_summary: None,
        alloc_stores: Seq::empty(),
        field_aliases: Seq::empty(),
        param_stores: Seq::empty(),
        arg_bindings: Seq::empty(),
    }
}

/// A method whose every `return` yields the same simple value is a getter of it.
pub open spec fn getter_value(yields: Seq<Option<LockV>>) -> Option<LockV> {
    if yields.len() > 0 && (forall|i: int|
        0 <= i < yields.len() ==> #[trigger] yields[i] == yields[0]) {
        match yields[0] {
            Some(l) => if simple(l) {
                Some(l)
            } else {
                None
            },
            None => None,
        }
    } else {
        None
    }
}

/// The facts of a method, where `vals` are the known getter values.
pub open spec fn summary(m: MethodV, vals: Map<Seq<char>, LockV>) -> SummaryV {
    let f = steps(
        m,
        vals,
        0,
        FrameV {
            regs: regs::on_entry(m),
            alloc_ty: DictV::none(),
            last_ret: None,
            yields: Seq::empty(),
            sum: blank(m.key(), m.class),
        },
    );
    SummaryV { value_summary: getter_value(f.yields), ..f.sum }
}

/// A value that a getter may be summarized by.
pub fn simple_value(l: &Lock) -> (r: bool)
    ensures
        r == simple(l.deep_view()),
{
    match l.root {
        Root::This | Root::Param(_) | Root::Recv(_) | Root::Static(_) | Root::ClassConst(_) => true,
        _ => false,
    }
}

fn is_passable(l: &Lock) -> (r: bool)
    ensures
        r == passable(l.deep_view()),
{
    match l.root {
        Root::This | Root::Param(_) | Root::Recv(_) | Root::Static(_) => true,
        _ => false,
    }
}

fn has_passable(args: &Vec<Option<Lock>>) -> (r: bool)
    ensures
        r == any_passable(args.deep_view()),
{
    let ghost all = args.deep_view();
    let mut k: usize = 0;
    while k < args.len()
        invariant
            k <= args@.len(),
            all == args.deep_view(),
            forall|i: int| 0 <= i < k ==> !(#[trigger] all[i] matches Some(l) && passable(l)),
        decreases args@.len() - k,
    {
        proof {
            assert(all[k as int] == args@[k as int].deep_view());
        }
        match &args[k] {
            Some(l) => if is_passable(l) {
                return true;
            },
            None => {},
        }
        k += 1;
    }
    false
}

/// The locks in the registers that a call passes.
pub fn arg_vals(rs: &Regs, inv: &Invoke) -> (r: Vec<Option<Lock>>)
    ensures
        r.deep_view() == actuals(rs@, inv.args@),
{
    let ghost want = actuals(rs@, inv.args@);
    let mut out: Vec<Option<Lock>> = values::empty();
    let mut k: usize = 0;
    proof {
        assert(want.take(0) =~= out.deep_view());
    }
    while k < inv.args.len()
        invariant
            k <= inv.args@.len(),
            want == actuals(rs@, inv.args@),
            out.deep_view() == want.take(k as int),
        decreases inv.args@.len() - k,
    {
        values::push(&mut out, regs::known(rs.get(inv.args[k])));
        proof {
            assert(want.take(k + 1) =~= want.take(k as int).push(want[k as int]));
        }
        k += 1;
    }
    proof {
        assert(want.take(k as int) =~= want);
    }
    out
}

fn getter(yields: &Vec<Option<Lock>>) -> (r: Option<Lock>)
    ensures
        r.deep_view() == getter_value(yields.deep_view()),
{
    let ghost all = yields.deep_view();
    if yields.len() == 0 {
        return None;
    }
    let mut k: usize = 0;
    while k < yields.len()
        invariant
            k <= yields@.len(),
            0 < yields@.len(),
            all == yields.deep_view(),
            forall|i: int| 0 <= i < k ==> #[trigger] all[i] == all[0],
        decreases yields@.len() - k,
    {
        proof {
            assert(all[k as int] == yields@[k as int].deep_view());
            assert(all[0] == yields@[0].deep_view());
        }
        if !yields[k].same(&yields[0]) {
            return None;
        }
        k += 1;
    }
    proof {
        assert(all[0] == yields@[0].deep_view());
    }
    match &yields[0] {
        Some(l) => if simple_value(l) {
            Some(l.dup())
        } else {
            None
        },
        None => None,
    }
}

impl Frame {
    fn acquire(&mut self, m: &Method, lock: Option<Lock>, offset: u32)
        requires
            old(self).wf(),
        ensures
            final(self).wf(),
            final(self)@ == (FrameV {
                sum: acquired(m.deep_view(), old(self)@.sum, lock.deep_view(), offset),
                ..old(self)@
            }),
    {
        let l = match lock {
            Some(l) => l,
            None => Lock::new(Root::Opaque(point_text(m.key().as_str(), offset))),
        };
        values::push(&mut self.sum.acq_sites, (l, m.line_at(offset)));
    }

    fn store(&mut self, m: &Method, value: Option<Lock>, key: &str)
        requires
            old(self).wf(),
        ensures
            final(self).wf(),
            final(self)@ == (FrameV {
                sum: stored(m.deep_view(), old(self)@, value.deep_view(), key@),
                ..old(self)@
            }),
    {
        match value {
            None => {},
            Some(v) => match v.root {
                Root::Param(idx) => {
                    values::push(&mut self.sum.param_stores, (key.to_string(), idx));
                },
                _ => {
                    let mkey = m.key();
                    let g = v.ground(m.class.as_str(), mkey.as_str());
                    if g.is_concrete() && !text::str_eq(g.name().as_str(), key) {
                        values::push(&mut self.sum.field_aliases, (key.to_string(), g));
                    }
                },
            },
        }
    }

    fn iput(&mut self, m: &Method, src: Reg, base: Reg, class: &str, field: &str)
        requires
            old(self).wf(),
        ensures
            final(self).wf(),
            final(self)@ == after_iput(m.deep_view(), old(self)@, src, base, class@, field@),
    {
        let key = text::cat3(class, ".", field);
        let own = match self.regs.get(base) {
            Some(l) => match l.root {
                Root::This => true,
                _ => false,
            },
            None => false,
        };
        let value = regs::known(self.regs.get(src));
        let site = match &value {
            Some(l) => match &l.root {
                Root::Alloc(s) => Some(s.dup()),
                _ => None,
            },
            None => None,
        };
        if own {
            self.store(m, value, key.as_str());
        }
        match site {
            Some(s) => {
                let ty = match self.alloc_ty.get(s.as_str()) {
                    Some(t) => Some(t.dup()),
                    None => None,
                };
                match ty {
                    Some(t) => {
                        values::push(&mut self.sum.alloc_stores, (key, t));
                    },
                    None => {},
                }
                if own {
                    let mut hop: Vec<String> = values::empty();
                    values::push(&mut hop, field.to_string());
                    proof {
                        assert(hop.deep_view() =~= seq![field@]);
                    }
                    self.regs.set(src, Lock::new(Root::This).append(&hop, Mode::Plain));
                }
            },
            None => {},
        }
    }

    fn invoke(&mut self, m: &Method, vals: &Dict<Lock>, offset: u32, inv: &Invoke)
        requires
            old(self).wf(),
            vals.wf(),
        ensures
            final(self).wf(),
            final(self)@ == after_invoke(
                m.deep_view(),
                vals@.map,
                old(self)@,
                offset,
                inv.deep_view(),
            ),
    {
        let key = inv.key();
        let bound = arg_vals(&self.regs, inv);
        let recv = regs::receiver_of(&self.regs, inv);
        let ghost before = self@;
        if has_passable(&bound) {
            let copy = bound.dup();
            values::push(&mut self.sum.arg_bindings, (key.dup(), copy));
        }
        match juc::classify(inv.class.as_str(), inv.name.as_str()) {
            Some(LockCall::ReadView) => {
                self.last_ret = match recv {
                    Some(l) => Some(l.with_mode(Mode::Read)),
                    None => None,
                };
            },
            Some(LockCall::WriteView) => {
                self.last_ret = match recv {
                    Some(l) => Some(l.with_mode(Mode::Write)),
                    None => None,
                };
            },
            Some(LockCall::Acquire) | Some(LockCall::TryAcquire) => {
                self.last_ret = None;
                self.acquire(m, recv, offset);
            },
            Some(LockCall::Release) => {
                self.last_ret = None;
            },
            None => {
                self.last_ret = match vals.get(key.as_str()) {
                    Some(v) => v.subst(&bound),
                    None => None,
                };
            },
        }
    }

    fn step(&mut self, m: &Method, vals: &Dict<Lock>, insn: &Insn)
        requires
            old(self).wf(),
            vals.wf(),
        ensures
            final(self).wf(),
            final(self)@ == step(m.deep_view(), vals@.map, old(self)@, insn.deep_view()),
    {
        match &insn.op {
            Op::Sget { dst, class, field } => {
                self.regs.set(*dst, Lock::field(Root::Static(class.dup()), field.dup()));
            },
            Op::Iget { dst, base, class, field, ty } => {
                self.regs.set(*dst, Lock::field(Root::Recv(class.dup()), field.dup()));
            },
            Op::Iput { src, base, class, field } => {
                self.iput(m, *src, *base, class.as_str(), field.as_str());
            },
            Op::ConstClass { dst, class } => {
                self.regs.set(*dst, Lock::new(Root::ClassConst(class.dup())));
            },
            Op::NewInstance { dst, class } => {
                let site = point_text(m.key().as_str(), insn.offset);
                self.alloc_ty.set(site.as_str(), class.dup());
                self.regs.set(*dst, Lock::new(Root::Alloc(site)));
            },
            Op::Move { dst, src } => {
                let v = regs::known(self.regs.get(*src));
                self.regs.put(*dst, v);
            },
            Op::MoveResult { dst } => {
                let v = self.last_ret.take();
                self.regs.put(*dst, v);
            },
            Op::Def(dst) => {
                self.regs.clear(*dst);
            },
            Op::Return(r) => {
                let v = match r {
                    Some(x) => regs::known(self.regs.get(*x)),
                    None => None,
                };
                values::push(&mut self.yields, v);
            },
            Op::Invoke(inv) => {
                self.invoke(m, vals, insn.offset, inv);
            },
            Op::MonitorEnter(r) => {
                let l = regs::known(self.regs.get(*r));
                self.acquire(m, l, insn.offset);
            },
            _ => {},
        }
    }
}

/// The facts of a method, where `value_summaries` are the known getter values.
pub fn extract(m: &Method, value_summaries: &Dict<Lock>) -> (r: Summary)
    requires
        value_summaries.wf(),
    ensures
        r.deep_view() == summary(m.deep_view(), value_summaries@.map),
{
    let ghost mv = m.deep_view();
    let ghost vals = value_summaries@.map;
    let mut f = Frame {
        regs: Regs::entry(m),
        alloc_ty: Dict::new(),
        last_ret: None,
        yields: values::empty(),
        sum: Summary {
            key: m.key(),
            class: m.class.dup(),
            acq_sites: values::empty(),
            value_summary: None,
            alloc_stores: values::empty(),
            field_aliases: values::empty(),
            param_stores: values::empty(),
            arg_bindings: values::empty(),
        },
    };
    let ghost start = f@;
    let mut k: usize = 0;
    while k < m.insns.len()
        invariant
            k <= m.insns@.len(),
            f.wf(),
            value_summaries.wf(),
            mv == m.deep_view(),
            vals == value_summaries@.map,
            steps(mv, vals, 0, start) == steps(mv, vals, k as int, f@),
        decreases m.insns@.len() - k,
    {
        f.step(m, value_summaries, &m.insns[k]);
        proof {
            assert(mv.insns[k as int] == m.insns@[k as int].deep_view());
        }
        k += 1;
    }
    let v = getter(&f.yields);
    let Frame { sum, .. } = f;
    Summary { value_summary: v, ..sum }
}

} // verus!

//! Decoded DEX: classes, methods and the instructions that the lock analysis reads,
//! and the identity of a lock as a root and a bounded access path.

use crate::names::Names;
use crate::text;
use crate::values::{Dup, Same};
use vstd::prelude::*;

verus! {

/// A register number.
pub type Reg = u32;

/// Access flag of a private member.
pub const ACC_PRIVATE: u32 = 0x2;

/// Access flag of a static member.
pub const ACC_STATIC: u32 = 0x8;

/// How many field hops the path of a lock may have.
pub const MAX_PATH: usize = 3;

/// How a method is invoked.
#[derive(Debug, Clone, Copy, PartialEq, Eq, Structural)]
pub enum InvokeKind {
    Virtual,
    Super,
    Direct,
    Static,
    Interface,
}

/// A method call; `class` and `name` are dotted, `sig` is a JVM descriptor.
#[derive(Debug)]
pub struct Invoke {
    pub kind: InvokeKind,
    pub args: Vec<Reg>,
    pub class: String,
    pub name: String,
    pub sig: String,
}

/// What an instruction does, as far as locks are concerned.
#[derive(Debug)]
pub enum Op {
    MonitorEnter(Reg),
    MonitorExit(Reg),
    Move { dst: Reg, src: Reg },
    MoveResult { dst: Reg },
    Return(Option<Reg>),
    ConstClass { dst: Reg, class: String },
    NewInstance { dst: Reg, class: String },
    Throw,
    Goto(u32),
    Branch(u32),
    /// A branch that is taken where its register is zero.
    BranchZero { reg: Reg, target: u32 },
    /// A branch that is taken where its register is not zero.
    BranchNonzero { reg: Reg, target: u32 },
    Switch(Vec<u32>),
    Iget { dst: Reg, base: Reg, class: String, field: String, ty: Option<String> },
    Iput { src: Reg, base: Reg, class: String, field: String },
    Sget { dst: Reg, class: String, field: String },
    Sput { src: Reg, class: String, field: String },
    Invoke(Invoke),
    /// Defines a register with a value that is no lock.
    Def(Reg),
    Other,
}

/// An instruction and where it stands, in code units.
#[derive(Debug)]
pub struct Insn {
    pub offset: u32,
    pub op: Op,
    /// the register that an operation of no other interest writes.
    pub writes: Option<Reg>,
}

/// A method: `positions` are (address, line) in ascending address order, `catches`
/// are (start, end, handler), both in code units.
#[derive(Debug)]
pub struct Method {
    pub class: String,
    pub name: String,
    pub sig: String,
    pub access: u32,
    pub registers: u32,
    pub ins: u32,
    pub insns: Vec<Insn>,
    pub positions: Vec<(u32, u32)>,
    pub catches: Vec<(u32, u32, u32)>,
    pub source_file: Option<String>,
}

/// A class.
#[derive(Debug)]
pub struct Class {
    pub descriptor: String,
    pub super_class: Option<String>,
    pub interfaces: Vec<String>,
    pub methods: Vec<Method>,
}

/// Classes, and the `Class.field` names of the final and volatile fields.
pub struct Dex {
    pub classes: Vec<Class>,
    pub final_or_volatile_fields: Names,
}

/// What a call holds.
pub struct InvokeV {
    pub kind: InvokeKind,
    pub args: Seq<u32>,
    pub class: Seq<char>,
    pub name: Seq<char>,
    pub sig: Seq<char>,
}

/// What an instruction does.
pub enum OpV {
    MonitorEnter(u32),
    MonitorExit(u32),
    Move { dst: u32, src: u32 },
    MoveResult { dst: u32 },
    Return(Option<u32>),
    ConstClass { dst: u32, class: Seq<char> },
    NewInstance { dst: u32, class: Seq<char> },
    Throw,
    Goto(u32),
    Branch(u32),
    BranchZero { reg: u32, target: u32 },
    BranchNonzero { reg: u32, target: u32 },
    Switch(Seq<u32>),
    Iget { dst: u32, base: u32, class: Seq<char>, field: Seq<char>, ty: Option<Seq<char>> },
    Iput { src: u32, base: u32, class: Seq<char>, field: Seq<char> },
    Sget { dst: u32, class: Seq<char>, field: Seq<char> },
    Sput { src: u32, class: Seq<char>, field: Seq<char> },
    Invoke(InvokeV),
    Def(u32),
    Other,
}

/// An instruction and where it stands.
pub struct InsnV {
    pub offset: u32,
    pub op: OpV,
    pub writes: Option<u32>,
}

/// What a method holds.
pub struct MethodV {
    pub class: Seq<char>,
    pub name: Seq<char>,
    pub sig: Seq<char>,
    pub access: u32,
    pub registers: u32,
    pub ins: u32,
    pub insns: Seq<InsnV>,
    pub positions: Seq<(u32, u32)>,
    pub catches: Seq<(u32, u32, u32)>,
    pub source_file: Option<Seq<char>>,
}

/// What a class holds.
pub struct ClassV {
    pub descriptor: Seq<char>,
    pub super_class: Option<Seq<char>>,
    pub interfaces: Seq<Seq<char>>,
    pub methods: Seq<MethodV>,
}

/// What decoded DEX holds.
pub struct DexV {
    pub classes: Seq<ClassV>,
    pub final_or_volatile_fields: Seq<Seq<char>>,
}

impl DeepView for Invoke {
    type V = InvokeV;

    open spec fn deep_view(&self) -> InvokeV {
        InvokeV {
            kind: self.kind,
            args: self.args@,
            class: self.class@,
            name: self.name@,
            sig: self.sig@,
        }
    }
}

impl DeepView for Op {
    type V = OpV;

    open spec fn deep_view(&self) -> OpV {
        match self {
            Op::MonitorEnter(r) => OpV::MonitorEnter(*r),
            Op::MonitorExit(r) => OpV::MonitorExit(*r),
            Op::Move { dst, src } => OpV::Move { dst: *dst, src: *src },
            Op::MoveResult { dst } => OpV::MoveResult { dst: *dst },
            Op::Return(r) => OpV::Return(*r),
            Op::ConstClass { dst, class } => OpV::ConstClass { dst: *dst, class: class@ },
            Op::NewInstance { dst, class } => OpV::NewInstance { dst: *dst, class: class@ },
            Op::Throw => OpV::Throw,
            Op::Goto(t) => OpV::Goto(*t),
            Op::Branch(t) => OpV::Branch(*t),
            Op::BranchZero { reg, target } => OpV::BranchZero { reg: *reg, target: *target },
            Op::BranchNonzero { reg, target } => OpV::BranchNonzero {
                reg: *reg,
                target: *target,
            },
            Op::Switch(ts) => OpV::Switch(ts@),
            Op::Iget { dst, base, class, field, ty } => OpV::Iget {
                dst: *dst,
                base: *base,
                class: class@,
                field: field@,
                ty: ty.deep_view(),
            },
            Op::Iput { src, base, class, field } => OpV::Iput {
                src: *src,
                base: *base,
                class: class@,
                field: field@,
            },
            Op::Sget { dst, class, field } => OpV::Sget { dst: *dst, class: class@, field: field@ },
            Op::Sput { src, class, field } => OpV::Sput { src: *src, class: class@, field: field@ },
            Op::Invoke(inv) => OpV::Invoke(inv.deep_view()),
            Op::Def(r) => OpV::Def(*r),
            Op::Other => OpV::Other,
        }
    }
}

impl DeepView for Insn {
    type V = InsnV;

    open spec fn deep_view(&self) -> InsnV {
        InsnV { offset: self.offset, op: self.op.deep_view(), writes: self.writes }
    }
}

impl DeepView for Method {
    type V = MethodV;

    open spec fn deep_view(&self) -> MethodV {
        MethodV {
            class: self.class@,
            name: self.name@,
            sig: self.sig@,
            access: self.access,
            registers: self.registers,
            ins: self.ins,
            insns: self.insns.deep_view(),
            positions: self.positions@,
            catches: self.catches@,
            source_file: self.source_file.deep_view(),
        }
    }
}

impl DeepView for Class {
    type V = ClassV;

    open spec fn deep_view(&self) -> ClassV {
        ClassV {
            descriptor: self.descriptor@,
            super_class: self.super_class.deep_view(),
            interfaces: self.interfaces.deep_view(),
            methods: self.methods.deep_view(),
        }
    }
}

impl DeepView for Dex {
    type V = DexV;

    open spec fn deep_view(&self) -> DexV {
        DexV {
            classes: self.classes.deep_view(),
            final_or_volatile_fields: self.final_or_volatile_fields@,
        }
    }
}

impl Default for Dex {
    fn default() -> (r: Dex)
        ensures
            r.wf(),
            r.deep_view() == (DexV { classes: Seq::empty(), final_or_volatile_fields: Seq::empty() }),
    {
        let r = Dex { classes: Vec::new(), final_or_volatile_fields: Names::new() };
        proof {
            assert(r.classes.deep_view() =~= Seq::empty());
        }
        r
    }
}

impl Dex {
    /// The set of field names is well-formed.
    pub open spec fn wf(&self) -> bool {
        self.final_or_volatile_fields.wf()
    }
}

/// The methods of the classes from the `k`th on, behind `acc`.
pub open spec fn methods_from(classes: Seq<ClassV>, k: int, acc: Seq<MethodV>) -> Seq<MethodV>
    decreases classes.len() - k,
{
    if k >= classes.len() {
        acc
    } else {
        methods_from(classes, k + 1, acc + classes[k].methods)
    }
}

impl DexV {
    /// All methods, class by class.
    pub open spec fn methods(self) -> Seq<MethodV> {
        methods_from(self.classes, 0, Seq::empty())
    }
}

impl Dex {
    /// All methods, class by class.
    pub fn methods(&self) -> (r: Vec<&Method>)
        ensures
            r.deep_view() == self.deep_view().methods(),
    {
        let ghost cs = self.classes.deep_view();
        let mut out: Vec<&Method> = crate::values::empty();
        let mut k: usize = 0;
        while k < self.classes.len()
            invariant
                k <= self.classes@.len(),
                cs == self.classes.deep_view(),
                methods_from(cs, 0, Seq::empty()) == methods_from(cs, k as int, out.deep_view()),
            decreases self.classes@.len() - k,
        {
            let ms = &self.classes[k].methods;
            let ghost start = out.deep_view();
            let ghost msv = ms.deep_view();
            let mut j: usize = 0;
            proof {
                assert(cs[k as int] == self.classes@[k as int].deep_view());
                assert(start + msv.take(0) =~= start);
            }
            while j < ms.len()
                invariant
                    j <= ms@.len(),
                    msv == ms.deep_view(),
                    out.deep_view() == start + msv.take(j as int),
                decreases ms@.len() - j,
            {
                crate::values::push(&mut out, &ms[j]);
                proof {
                    assert(start + msv.take(j + 1) =~= (start + msv.take(j as int)).push(
                        msv[j as int],
                    ));
                }
                j += 1;
            }
            proof {
                assert(msv.take(j as int) =~= msv);
            }
            k += 1;
        }
        out
    }
}

/// The key of a method: `class.name:sig`.
pub open spec fn key_of(class: Seq<char>, name: Seq<char>, sig: Seq<char>) -> Seq<char> {
    class + "."@ + name + ":"@ + sig
}

/// The key of a method: `class.name:sig`.
pub fn key_text(class: &str, name: &str, sig: &str) -> (r: String)
    ensures
        r@ == key_of(class@, name@, sig@),
{
    let mut out = text::cat3(class, ".", name);
    out.append(":");
    out.append(sig);
    out
}

impl InvokeV {
    /// The key of the method called.
    pub open spec fn key(self) -> Seq<char> {
        key_of(self.class, self.name, self.sig)
    }
}

impl Invoke {
    /// The key of the method called.
    pub fn key(&self) -> (r: String)
        ensures
            r@ == self.deep_view().key(),
    {
        key_text(self.class.as_str(), self.name.as_str(), self.sig.as_str())
    }
}

/// The line of the last of the first `k` positions that stands at or before `offset`.
pub open spec fn line_before(positions: Seq<(u32, u32)>, k: int, offset: u32) -> Option<u32>
    decreases k,
{
    if k <= 0 {
        None
    } else if positions[k - 1].0 <= offset {
        Some(positions[k - 1].1)
    } else {
        line_before(positions, k - 1, offset)
    }
}

/// The class of the object parameter in register `want`, of the descriptor's parameters
/// from its `i`th character on, the next of them in register `reg`. A `long` or a
/// `double` takes two registers.
pub open spec fn param_class(sig: Seq<char>, i: int, reg: int, want: int) -> Option<Seq<char>>
    decreases sig.len() - i,
{
    if i < 0 || i >= sig.len() || sig[i] == ')' {
        None
    } else if sig[i] == 'L' {
        let end = class_end(sig, i + 1);
        proof {
            lemma_class_end(sig, i + 1);
        }
        if end >= sig.len() {
            None
        } else if reg == want {
            Some(dots(sig.subrange(i + 1, end)))
        } else {
            param_class(sig, end + 1, reg + 1, want)
        }
    } else if sig[i] == '[' {
        let t = element(sig, i);
        proof {
            lemma_element(sig, i);
        }
        if t >= sig.len() {
            None
        } else if sig[t] == 'L' {
            proof {
                lemma_class_end(sig, t + 1);
            }
            if class_end(sig, t + 1) >= sig.len() {
                None
            } else {
                param_class(sig, class_end(sig, t + 1) + 1, reg + 1, want)
            }
        } else {
            param_class(sig, t + 1, reg + 1, want)
        }
    } else if sig[i] == 'J' || sig[i] == 'D' {
        param_class(sig, i + 1, reg + 2, want)
    } else if sig[i] == '(' {
        param_class(sig, i + 1, reg, want)
    } else {
        param_class(sig, i + 1, reg + 1, want)
    }
}

/// Where the class name that starts at `i` ends: the next semicolon.
pub open spec fn class_end(sig: Seq<char>, i: int) -> int
    decreases sig.len() - i,
{
    if i >= sig.len() || sig[i] == ';' {
        i
    } else {
        class_end(sig, i + 1)
    }
}

/// Where the element type of the array type at `i` starts.
pub open spec fn element(sig: Seq<char>, i: int) -> int
    decreases sig.len() - i,
{
    if i >= sig.len() || sig[i] != '[' {
        i
    } else {
        element(sig, i + 1)
    }
}

/// A class name ends no earlier than it starts.
pub proof fn lemma_class_end(sig: Seq<char>, i: int)
    ensures
        class_end(sig, i) >= i,
        i <= sig.len() ==> class_end(sig, i) <= sig.len(),
    decreases sig.len() - i,
{
    if i < sig.len() && sig[i] != ';' {
        lemma_class_end(sig, i + 1);
    }
}

/// An element type starts behind the brackets.
pub proof fn lemma_element(sig: Seq<char>, i: int)
    ensures
        element(sig, i) >= i,
        i < sig.len() && sig[i] == '[' ==> element(sig, i) > i,
        i <= sig.len() ==> element(sig, i) <= sig.len(),
    decreases sig.len() - i,
{
    if i < sig.len() && sig[i] == '[' {
        lemma_element(sig, i + 1);
    }
}

/// Slashes become dots.
pub open spec fn dots(s: Seq<char>) -> Seq<char> {
    Seq::new(s.len(), |i: int| if s[i] == '/' { '.' } else { s[i] })
}

/// A class descriptor `Lpkg/Name;` as `pkg.Name`; any other descriptor as it is.
pub open spec fn dotted(d: Seq<char>) -> Seq<char> {
    if is_class_descriptor(d) {
        dots(d.subrange(1, d.len() - 1))
    } else {
        d
    }
}

/// A descriptor of a class, `Lpkg/Name;`.
pub open spec fn is_class_descriptor(d: Seq<char>) -> bool {
    d.len() >= 2 && d[0] == 'L' && d.last() == ';'
}

fn dotted_range(v: &[char], from: usize, to: usize) -> (r: String)
    requires
        from <= to <= v@.len(),
    ensures
        r@ == dots(v@.subrange(from as int, to as int)),
{
    let ghost s = v@.subrange(from as int, to as int);
    let mut out = String::new();
    let mut k = from;
    proof {
        assert(out@ =~= dots(s).take(0));
    }
    while k < to
        invariant
            from <= k <= to <= v@.len(),
            s == v@.subrange(from as int, to as int),
            out@ == dots(s).take(k - from),
        decreases to - k,
    {
        let c = v[k];
        if c == '/' {
            out.push('.');
        } else {
            out.push(c);
        }
        proof {
            assert(dots(s).take(k + 1 - from) =~= dots(s).take(k - from).push(dots(s)[k - from]));
        }
        k += 1;
    }
    proof {
        assert(dots(s).take(to - from) =~= dots(s));
    }
    out
}

/// A class descriptor `Lpkg/Name;` as `pkg.Name`; any other descriptor as it is.
pub fn descriptor_to_dotted(d: &str) -> (r: String)
    ensures
        r@ == dotted(d@),
{
    let v = text::chars_of(d);
    let n = v.len();
    if n >= 2 && v[0] == 'L' && v[n - 1] == ';' {
        dotted_range(&v, 1, n - 1)
    } else {
        d.to_string()
    }
}

impl MethodV {
    /// The key of the method.
    pub open spec fn key(self) -> Seq<char> {
        key_of(self.class, self.name, self.sig)
    }

    pub open spec fn is_static(self) -> bool {
        crate::bytes::has_bit(self.access as int, ACC_STATIC as int)
    }

    pub open spec fn is_private(self) -> bool {
        crate::bytes::has_bit(self.access as int, ACC_PRIVATE as int)
    }

    /// The first parameter register.
    pub open spec fn first_param(self) -> int {
        if self.registers >= self.ins {
            self.registers - self.ins
        } else {
            0
        }
    }

    /// The register of the receiver.
    pub open spec fn this_reg(self) -> Option<int> {
        if !self.is_static() && self.ins > 0 {
            Some(self.first_param())
        } else {
            None
        }
    }

    /// The source line at an offset.
    pub open spec fn line_at(self, offset: u32) -> Option<u32> {
        line_before(self.positions, self.positions.len() as int, offset)
    }

    /// The class of the object parameter in register `reg`.
    pub open spec fn object_param_at(self, reg: int) -> Option<Seq<char>> {
        param_class(
            self.sig,
            0,
            self.first_param() + (if self.is_static() { 0int } else { 1int }),
            reg,
        )
    }
}

impl Method {
    /// The key of the method: `class.name:sig`.
    pub fn key(&self) -> (r: String)
        ensures
            r@ == self.deep_view().key(),
    {
        key_text(self.class.as_str(), self.name.as_str(), self.sig.as_str())
    }

    pub fn is_static(&self) -> (r: bool)
        ensures
            r == self.deep_view().is_static(),
    {
        (self.access / ACC_STATIC) % 2 == 1
    }

    pub fn is_private(&self) -> (r: bool)
        ensures
            r == self.deep_view().is_private(),
    {
        (self.access / ACC_PRIVATE) % 2 == 1
    }

    /// The first parameter register.
    pub fn first_param(&self) -> (r: u32)
        ensures
            r == self.deep_view().first_param(),
    {
        if self.registers >= self.ins {
            self.registers - self.ins
        } else {
            0
        }
    }

    /// The register of the receiver, if the method has one.
    pub fn this_reg(&self) -> (r: Option<Reg>)
        ensures
            match r {
                Some(t) => self.deep_view().this_reg() == Some(t as int),
                None => self.deep_view().this_reg() is None,
            },
    {
        if !self.is_static() && self.ins > 0 {
            Some(self.first_param())
        } else {
            None
        }
    }

    /// The source line at an offset: that of the last position at or before it.
    pub fn line_at(&self, offset: u32) -> (r: Option<u32>)
        ensures
            r == self.deep_view().line_at(offset),
    {
        let mut k = self.positions.len();
        while k > 0
            invariant
                k <= self.positions@.len(),
                self.deep_view().line_at(offset) == line_before(
                    self.positions@,
                    k as int,
                    offset,
                ),
            decreases k,
        {
            if self.positions[k - 1].0 <= offset {
                return Some(self.positions[k - 1].1);
            }
            k -= 1;
        }
        None
    }

    /// The class of the object parameter in register `want`, if it is one.
    pub fn object_param_at(&self, want: u64) -> (r: Option<String>)
        ensures
            r.deep_view() == self.deep_view().object_param_at(want as int),
    {
        let sig = text::chars_of(self.sig.as_str());
        let n = sig.len();
        let mut reg: u128 = self.first_param() as u128 + (if self.is_static() {
            0
        } else {
            1
        });
        let mut i: usize = 0;
        while i < n
            invariant
                i <= n,
                n == sig@.len(),
                sig@ == self.sig@,
                reg <= 0x1_0000_0000 + 2 * i,
                self.deep_view().object_param_at(want as int) == param_class(
                    sig@,
                    i as int,
                    reg as int,
                    want as int,
                ),
            decreases n - i,
        {
            let c = sig[i];
            if c == ')' {
                return None;
            }
            if c == 'L' {
                let end = find_semicolon(&sig, i + 1);
                if end >= n {
                    return None;
                }
                if reg == want as u128 {
                    return Some(dotted_range(&sig, i + 1, end));
                }
                i = end + 1;
                reg = reg + 1;
            } else if c == '[' {
                let t = skip_brackets(&sig, i);
                if t >= n {
                    return None;
                }
                if sig[t] == 'L' {
                    let end = find_semicolon(&sig, t + 1);
                    if end >= n {
                        return None;
                    }
                    i = end + 1;
                } else {
                    i = t + 1;
                }
                reg = reg + 1;
            } else if c == 'J' || c == 'D' {
                i = i + 1;
                reg = reg + 2;
            } else if c == '(' {
                i = i + 1;
            } else {
                i = i + 1;
                reg = reg + 1;
            }
        }
        None
    }
}

fn find_semicolon(sig: &[char], from: usize) -> (r: usize)
    requires
        from <= sig@.len(),
    ensures
        r == class_end(sig@, from as int),
        from <= r <= sig@.len(),
{
    let mut k = from;
    while k < sig.len() && sig[k] != ';'
        invariant
            from <= k <= sig@.len(),
            class_end(sig@, from as int) == class_end(sig@, k as int),
        decreases sig@.len() - k,
    {
        k += 1;
    }
    k
}

fn skip_brackets(sig: &[char], from: usize) -> (r: usize)
    requires
        from < sig@.len(),
        sig@[from as int] == '[',
    ensures
        r == element(sig@, from as int),
        from < r <= sig@.len(),
{
    let mut k = from;
    proof {
        lemma_element(sig@, from as int);
    }
    while k < sig.len() && sig[k] == '['
        invariant
            from <= k <= sig@.len(),
            element(sig@, from as int) == element(sig@, k as int),
        decreases sig@.len() - k,
    {
        k += 1;
    }
    k
}

/// How a lock is taken.
#[derive(Debug, Clone, Copy, PartialEq, Eq, Structural)]
pub enum Mode {
    Plain,
    Read,
    Write,
}

/// Where the access path of a lock starts. `This` and `Param` mean something inside one
/// method only; the others name one object of the program.
#[derive(Debug)]
pub enum Root {
    This,
    Param(u32),
    Recv(String),
    Static(String),
    ClassConst(String),
    Alloc(String),
    Opaque(String),
}

/// The identity of a lock: a root, the field hops from it, and how it is taken.
#[derive(Debug)]
pub struct Lock {
    pub root: Root,
    pub fields: Vec<String>,
    pub mode: Mode,
}

/// Where the access path of a lock starts.
pub enum RootV {
    This,
    Param(u32),
    Recv(Seq<char>),
    Static(Seq<char>),
    ClassConst(Seq<char>),
    Alloc(Seq<char>),
    Opaque(Seq<char>),
}

/// The identity of a lock.
pub struct LockV {
    pub root: RootV,
    pub fields: Seq<Seq<char>>,
    pub mode: Mode,
}

impl DeepView for Root {
    type V = RootV;

    open spec fn deep_view(&self) -> RootV {
        match self {
            Root::This => RootV::This,
            Root::Param(i) => RootV::Param(*i),
            Root::Recv(c) => RootV::Recv(c@),
            Root::Static(c) => RootV::Static(c@),
            Root::ClassConst(c) => RootV::ClassConst(c@),
            Root::Alloc(s) => RootV::Alloc(s@),
            Root::Opaque(s) => RootV::Opaque(s@),
        }
    }
}

impl DeepView for Lock {
    type V = LockV;

    open spec fn deep_view(&self) -> LockV {
        LockV { root: self.root.deep_view(), fields: self.fields.deep_view(), mode: self.mode }
    }
}

impl Dup for Root {
    fn dup(&self) -> (r: Self) {
        match self {
            Root::This => Root::This,
            Root::Param(i) => Root::Param(*i),
            Root::Recv(c) => Root::Recv(c.dup()),
            Root::Static(c) => Root::Static(c.dup()),
            Root::ClassConst(c) => Root::ClassConst(c.dup()),
            Root::Alloc(s) => Root::Alloc(s.dup()),
            Root::Opaque(s) => Root::Opaque(s.dup()),
        }
    }
}

impl Same for Root {
    fn same(&self, other: &Self) -> (r: bool) {
        match (self, other) {
            (Root::This, Root::This) => true,
            (Root::Param(i), Root::Param(j)) => *i == *j,
            (Root::Recv(c), Root::Recv(d)) => c.same(d),
            (Root::Static(c), Root::Static(d)) => c.same(d),
            (Root::ClassConst(c), Root::ClassConst(d)) => c.same(d),
            (Root::Alloc(c), Root::Alloc(d)) => c.same(d),
            (Root::Opaque(c), Root::Opaque(d)) => c.same(d),
            _ => false,
        }
    }
}

impl Dup for Lock {
    fn dup(&self) -> (r: Self) {
        Lock { root: self.root.dup(), fields: self.fields.dup(), mode: self.mode }
    }
}

impl Same for Lock {
    fn same(&self, other: &Self) -> (r: bool) {
        self.root.same(&other.root) && self.fields.same(&other.fields) && self.mode == other.mode
    }
}

/// Field hops as they are written: each behind a dot.
pub open spec fn hops(fields: Seq<Seq<char>>) -> Seq<char>
    decreases fields.len(),
{
    if fields.len() == 0 {
        Seq::empty()
    } else {
        hops(fields.drop_last()) + "."@ + fields.last()
    }
}

impl RootV {
    /// How a root is written.
    pub open spec fn name(self) -> Seq<char> {
        match self {
            RootV::This => "this"@,
            RootV::Param(i) => "param"@ + text::dec(i as nat),
            RootV::Recv(c) => c,
            RootV::Static(c) => c,
            RootV::ClassConst(c) => c + ".class"@,
            RootV::Alloc(s) => "?@"@ + s,
            RootV::Opaque(s) => "?@"@ + s,
        }
    }
}

impl LockV {
    /// The lock at a root itself.
    pub open spec fn new(root: RootV) -> LockV {
        LockV { root, fields: Seq::empty(), mode: Mode::Plain }
    }

    /// The lock in a field of a root.
    pub open spec fn field(root: RootV, f: Seq<char>) -> LockV {
        LockV { root, fields: seq![f], mode: Mode::Plain }
    }

    /// The same lock, taken in another mode.
    pub open spec fn with_mode(self, mode: Mode) -> LockV {
        LockV { root: self.root, fields: self.fields, mode }
    }

    /// The lock reached from this one by further hops. A path past the bound becomes an
    /// opaque lock of its own, named by the whole path, so that no two such collide.
    pub open spec fn append(self, fields: Seq<Seq<char>>, mode: Mode) -> LockV {
        let path = self.fields + fields;
        if path.len() > MAX_PATH {
            LockV {
                root: RootV::Opaque(self.root.name() + hops(path)),
                fields: Seq::empty(),
                mode,
            }
        } else {
            LockV { root: self.root, fields: path, mode }
        }
    }

    /// The lock means something inside one method only.
    pub open spec fn is_parametric(self) -> bool {
        self.root is This || self.root is Param
    }

    /// The lock escapes the analysis.
    pub open spec fn is_opaque(self) -> bool {
        self.root is Opaque || self.root is Alloc
    }

    /// The lock names one object, or one per instance of a class.
    pub open spec fn is_concrete(self) -> bool {
        self.root is Recv || self.root is Static
    }

    /// The lock outside its method: `this` is an instance of the method's class, a
    /// parameter an unknown object of the method's own.
    pub open spec fn ground(self, class: Seq<char>, key: Seq<char>) -> LockV {
        match self.root {
            RootV::This => LockV {
                root: RootV::Recv(class),
                fields: self.fields,
                mode: self.mode,
            },
            RootV::Param(i) => LockV {
                root: RootV::Opaque(key + "#"@ + text::dec(i as nat)),
                fields: self.fields,
                mode: self.mode,
            },
            _ => self,
        }
    }

    /// The lock in a caller's terms, where the call binds `args`.
    pub open spec fn subst(self, args: Seq<Option<LockV>>) -> Option<LockV> {
        let i = match self.root {
            RootV::This => 0,
            RootV::Param(j) => j as int,
            _ => -1,
        };
        if !self.is_parametric() {
            Some(self)
        } else if i >= args.len() {
            None
        } else {
            match args[i] {
                None => None,
                Some(base) => Some(base.append(self.fields, self.mode)),
            }
        }
    }

    /// How the lock is written: its root, its hops, and how it is taken.
    pub open spec fn name(self) -> Seq<char> {
        self.root.name() + hops(self.fields) + (match self.mode {
            Mode::Plain => ""@,
            Mode::Read => ".read"@,
            Mode::Write => ".write"@,
        })
    }
}

/// No name has a dot in it.
pub open spec fn are_plain(fields: Seq<Seq<char>>) -> bool {
    forall|i: int, j: int|
        0 <= i < fields.len() && 0 <= j < fields[i].len() ==> #[trigger] fields[i][j] != '.'
}

proof fn lemma_hops(a: Seq<Seq<char>>, b: Seq<Seq<char>>)
    requires
        are_plain(a),
        are_plain(b),
        hops(a) == hops(b),
    ensures
        a == b,
    decreases a.len(),
{
    reveal_strlit(".");
    assert("."@ =~= seq!['.']);
    if a.len() == 0 || b.len() == 0 {
        assert(a.len() > 0 ==> hops(a).len() > 0);
        assert(b.len() > 0 ==> hops(b).len() > 0);
        assert(a =~= b);
    } else {
        let (x, y) = (a.last(), b.last());
        let (p, q) = (hops(a.drop_last()), hops(b.drop_last()));
        let s = hops(a);
        assert(s == p + "."@ + x && s == q + "."@ + y);
        assert(s.len() == p.len() + 1 + x.len() && s.len() == q.len() + 1 + y.len());
        assert(s[p.len() as int] == '.' && s[q.len() as int] == '.');
        if x.len() < y.len() {
            let j = p.len() - q.len() - 1;
            assert(s[p.len() as int] == y[j]);
            assert(b[b.len() - 1][j] != '.');
        }
        if y.len() < x.len() {
            let j = q.len() - p.len() - 1;
            assert(s[q.len() as int] == x[j]);
            assert(a[a.len() - 1][j] != '.');
        }
        assert(p =~= s.take(p.len() as int));
        assert(q =~= s.take(p.len() as int));
        assert(x =~= s.skip((p.len() + 1) as int));
        assert(y =~= s.skip((p.len() + 1) as int));
        assert forall|i: int, j: int|
            0 <= i < a.drop_last().len() && 0 <= j < a.drop_last()[i].len() implies
            #[trigger] a.drop_last()[i][j] != '.' by {
            assert(a[i][j] != '.');
        }
        assert forall|i: int, j: int|
            0 <= i < b.drop_last().len() && 0 <= j < b.drop_last()[i].len() implies
            #[trigger] b.drop_last()[i][j] != '.' by {
            assert(b[i][j] != '.');
        }
        lemma_hops(a.drop_last(), b.drop_last());
        assert(a =~= a.drop_last().push(x));
        assert(b =~= b.drop_last().push(y));
    }
}

/// Paths past the bound do not collide: from one root, different ones are different locks.
/// Names of fields have no dots.
pub proof fn law_deep_paths_do_not_collide(
    a: LockV,
    f: Seq<Seq<char>>,
    m: Mode,
    b: LockV,
    g: Seq<Seq<char>>,
    n: Mode,
)
    requires
        a.root == b.root,
        are_plain(a.fields + f),
        are_plain(b.fields + g),
        a.fields.len() + f.len() > MAX_PATH,
        b.fields.len() + g.len() > MAX_PATH,
        a.append(f, m) == b.append(g, n),
    ensures
        a.fields + f == b.fields + g,
        m == n,
{
    let name = a.root.name();
    let (p, q) = (a.fields + f, b.fields + g);
    assert(name + hops(p) == name + hops(q));
    assert(hops(p) =~= (name + hops(p)).skip(name.len() as int));
    assert(hops(q) =~= (name + hops(q)).skip(name.len() as int));
    lemma_hops(p, q);
}

impl Root {
    /// How a root is written.
    pub fn name(&self) -> (r: String)
        ensures
            r@ == self.deep_view().name(),
    {
        match self {
            Root::This => "this".to_string(),
            Root::Param(i) => {
                let mut s = "param".to_string();
                text::push_dec(&mut s, *i as u64);
                s
            },
            Root::Recv(c) => c.dup(),
            Root::Static(c) => c.dup(),
            Root::ClassConst(c) => text::cat(c.as_str(), ".class"),
            Root::Alloc(s) => text::cat("?@", s.as_str()),
            Root::Opaque(s) => text::cat("?@", s.as_str()),
        }
    }
}

fn push_hops(out: &mut String, fields: &Vec<String>)
    ensures
        final(out)@ == old(out)@ + hops(fields.deep_view()),
{
    let ghost start = out@;
    let ghost all = fields.deep_view();
    let mut k: usize = 0;
    proof {
        assert(start + hops(all.take(0)) =~= start);
    }
    while k < fields.len()
        invariant
            k <= fields@.len(),
            all == fields.deep_view(),
            out@ == start + hops(all.take(k as int)),
        decreases fields@.len() - k,
    {
        out.append(".");
        out.append(fields[k].as_str());
        proof {
            assert(all.take(k + 1).drop_last() =~= all.take(k as int));
            assert(out@ =~= start + hops(all.take(k + 1)));
        }
        k += 1;
    }
    proof {
        assert(all.take(k as int) =~= all);
    }
}

impl Lock {
    /// The lock at a root itself.
    pub fn new(root: Root) -> (r: Lock)
        ensures
            r.deep_view() == LockV::new(root.deep_view()),
    {
        let r = Lock { root, fields: Vec::new(), mode: Mode::Plain };
        proof {
            assert(r.fields.deep_view() =~= Seq::empty());
        }
        r
    }

    /// The lock in a field of a root.
    pub fn field(root: Root, f: String) -> (r: Lock)
        ensures
            r.deep_view() == LockV::field(root.deep_view(), f@),
    {
        let mut fields: Vec<String> = Vec::new();
        fields.push(f);
        let r = Lock { root, fields, mode: Mode::Plain };
        proof {
            assert(r.fields.deep_view() =~= seq![f@]);
        }
        r
    }

    /// The same lock, taken in another mode.
    pub fn with_mode(&self, mode: Mode) -> (r: Lock)
        ensures
            r.deep_view() == self.deep_view().with_mode(mode),
    {
        Lock { root: self.root.dup(), fields: self.fields.dup(), mode }
    }

    /// The lock reached from this one by further hops.
    pub fn append(&self, fields: &Vec<String>, mode: Mode) -> (r: Lock)
        ensures
            r.deep_view() == self.deep_view().append(fields.deep_view(), mode),
    {
        let mut path = self.fields.dup();
        let mut more = fields.dup();
        let ghost a = path.deep_view();
        let ghost b = more.deep_view();
        path.append(&mut more);
        proof {
            assert(path.deep_view() =~= a + b);
        }
        if path.len() > MAX_PATH {
            let mut s = self.root.name();
            push_hops(&mut s, &path);
            let r = Lock { root: Root::Opaque(s), fields: Vec::new(), mode };
            proof {
                assert(r.fields.deep_view() =~= Seq::empty());
            }
            r
        } else {
            Lock { root: self.root.dup(), fields: path, mode }
        }
    }

    /// The lock means something inside one method only.
    pub fn is_parametric(&self) -> (r: bool)
        ensures
            r == self.deep_view().is_parametric(),
    {
        match self.root {
            Root::This | Root::Param(_) => true,
            _ => false,
        }
    }

    /// The lock escapes the analysis.
    pub fn is_opaque(&self) -> (r: bool)
        ensures
            r == self.deep_view().is_opaque(),
    {
        match self.root {
            Root::Opaque(_) | Root::Alloc(_) => true,
            _ => false,
        }
    }

    /// The lock names one object, or one per instance of a class.
    pub fn is_concrete(&self) -> (r: bool)
        ensures
            r == self.deep_view().is_concrete(),
    {
        match self.root {
            Root::Recv(_) | Root::Static(_) => true,
            _ => false,
        }
    }

    /// The lock outside its method.
    pub fn ground(&self, class: &str, key: &str) -> (r: Lock)
        ensures
            r.deep_view() == self.deep_view().ground(class@, key@),
    {
        match &self.root {
            Root::This => Lock {
                root: Root::Recv(class.to_string()),
                fields: self.fields.dup(),
                mode: self.mode,
            },
            Root::Param(i) => {
                let mut s = text::cat(key, "#");
                text::push_dec(&mut s, *i as u64);
                Lock { root: Root::Opaque(s), fields: self.fields.dup(), mode: self.mode }
            },
            _ => self.dup(),
        }
    }

    /// The lock in a caller's terms, where the call binds `args`.
    pub fn subst(&self, args: &Vec<Option<Lock>>) -> (r: Option<Lock>)
        ensures
            r.deep_view() == self.deep_view().subst(args.deep_view()),
    {
        let i: usize = match &self.root {
            Root::This => 0,
            Root::Param(j) => *j as usize,
            _ => return Some(self.dup()),
        };
        if i >= args.len() {
            return None;
        }
        proof {
            assert(args.deep_view()[i as int] == args@[i as int].deep_view());
        }
        match &args[i] {
            None => None,
            Some(base) => Some(base.append(&self.fields, self.mode)),
        }
    }

    /// How the lock is written.
    pub fn name(&self) -> (r: String)
        ensures
            r@ == self.deep_view().name(),
    {
        let mut s = self.root.name();
        push_hops(&mut s, &self.fields);
        match self.mode {
            Mode::Plain => s.append(""),
            Mode::Read => s.append(".read"),
            Mode::Write => s.append(".write"),
        }
        s
    }
}

} // verus!

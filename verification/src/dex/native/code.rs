//! Instructions: widths, branch targets and operands.

use crate::dex::model::{Insn, InsnV, Invoke, InvokeKind, InvokeV, Op, OpV};
use crate::dex::native::reader::DexError;
use crate::dex::native::section::{Section, SectionV};
use crate::values;
use vstd::prelude::*;

verus! {

/// The width of an instruction by its opcode, in code units.
pub open spec fn width_of(op: u8) -> u8 {
    if op == 0x18 {
        5
    } else if op == 0xfa || op == 0xfb {
        4
    } else if op == 0x03 || op == 0x06 || op == 0x09 || op == 0x14 || op == 0x17 || op == 0x1b || (
    0x24 <= op <= 0x26) || (0x2a <= op <= 0x2c) || (0x6e <= op <= 0x72) || (0x74 <= op <= 0x78)
        || op == 0xfc || op == 0xfd {
        3
    } else if op == 0x02 || op == 0x05 || op == 0x08 || op == 0x13 || op == 0x15 || op == 0x16 || op
        == 0x19 || op == 0x1a || op == 0x1c || op == 0x1f || op == 0x20 || op == 0x22 || op == 0x23
        || op == 0x29 || (0x2d <= op <= 0x3d) || (0x44 <= op <= 0x6d) || (0x90 <= op <= 0xaf) || (
    0xd0 <= op <= 0xe2) || op == 0xfe || op == 0xff {
        2
    } else {
        1
    }
}

/// The width of an instruction by its opcode, in code units.
pub fn opcode_width(op: u8) -> (r: u8)
    ensures
        r == width_of(op),
{
    if op == 0x18 {
        5
    } else if op == 0xfa || op == 0xfb {
        4
    } else if op == 0x03 || op == 0x06 || op == 0x09 || op == 0x14 || op == 0x17 || op == 0x1b || (
    0x24 <= op && op <= 0x26) || (0x2a <= op && op <= 0x2c) || (0x6e <= op && op <= 0x72) || (0x74
        <= op && op <= 0x78) || op == 0xfc || op == 0xfd {
        3
    } else if op == 0x02 || op == 0x05 || op == 0x08 || op == 0x13 || op == 0x15 || op == 0x16 || op
        == 0x19 || op == 0x1a || op == 0x1c || op == 0x1f || op == 0x20 || op == 0x22 || op == 0x23
        || op == 0x29 || (0x2d <= op && op <= 0x3d) || (0x44 <= op && op <= 0x6d) || (0x90 <= op
        && op <= 0xaf) || (0xd0 <= op && op <= 0xe2) || op == 0xfe || op == 0xff {
        2
    } else {
        1
    }
}

/// The 32-bit value of two code units, the low one first.
pub open spec fn pair(u: Seq<u16>, k: int) -> int {
    u[k] + 0x1_0000 * u[k + 1]
}

/// The 32-bit value as a signed number.
pub open spec fn signed_pair(u: Seq<u16>, k: int) -> int {
    if pair(u, k) >= 0x8000_0000 {
        pair(u, k) - 0x1_0000_0000
    } else {
        pair(u, k)
    }
}

/// The width of the instruction or payload at `i`: none where the units end too soon.
pub open spec fn width_at(u: Seq<u16>, i: int) -> Option<int> {
    if i >= u.len() {
        None
    } else if u[i] % 0x100 != 0 {
        Some(width_of((u[i] % 0x100) as u8) as int)
    } else if u[i] == 0x0100 {
        if i + 1 < u.len() {
            Some(u[i + 1] * 2 + 4)
        } else {
            None
        }
    } else if u[i] == 0x0200 {
        if i + 1 < u.len() {
            Some(u[i + 1] * 4 + 2)
        } else {
            None
        }
    } else if u[i] == 0x0300 {
        if i + 3 < u.len() {
            Some((pair(u, i + 2) * u[i + 1] + 1) / 2 + 4)
        } else {
            None
        }
    } else {
        Some(1)
    }
}

/// Width, in code units, of the instruction or payload at `i`.
pub fn insn_width(insns: &[u16], i: usize) -> (r: Option<u64>)
    ensures
        match r {
            Some(w) => width_at(insns@, i as int) == Some(w as int),
            None => width_at(insns@, i as int) is None,
        },
{
    let n = insns.len();
    if i >= n {
        return None;
    }
    let u0 = insns[i];
    if u0 % 0x100 != 0 {
        return Some(opcode_width((u0 % 0x100) as u8) as u64);
    }
    if u0 == 0x0100 {
        if n - i < 2 {
            return None;
        }
        return Some(insns[i + 1] as u64 * 2 + 4);
    }
    if u0 == 0x0200 {
        if n - i < 2 {
            return None;
        }
        return Some(insns[i + 1] as u64 * 4 + 2);
    }
    if u0 == 0x0300 {
        if n - i < 4 {
            return None;
        }
        let width = insns[i + 1] as u64;
        let count = insns[i + 2] as u64 + 0x1_0000 * (insns[i + 3] as u64);
        proof {
            assert(0 <= count * width <= 0xffff_ffff * 0xffff) by (nonlinear_arith)
                requires
                    0 <= count <= 0xffff_ffff,
                    0 <= width <= 0xffff,
            ;
        }
        return Some((count * width + 1) / 2 + 4);
    }
    Some(1)
}

/// Absolute code-unit offset of a branch relative to instruction `i`.
pub open spec fn target(i: int, off: int) -> u32 {
    if i + off < 0 {
        0
    } else {
        (i + off) as u32
    }
}

fn rel(i: usize, off: i64) -> (r: u32)
    requires
        i <= 0x1_0000_0000,
        -0x8000_0000 <= off <= 0x7fff_ffff,
    ensures
        r == target(i as int, off as int),
{
    let t = i as i64 + off;
    if t < 0 {
        0
    } else {
        #[verifier::truncate]
        (t as u32)
    }
}

fn signed_at(u: &[u16], k: usize) -> (r: i64)
    requires
        k + 1 < u@.len(),
    ensures
        r == signed_pair(u@, k as int),
        -0x8000_0000 <= r <= 0x7fff_ffff,
{
    let v = u[k] as i64 + 0x1_0000 * (u[k + 1] as i64);
    if v >= 0x8000_0000 {
        v - 0x1_0000_0000
    } else {
        v
    }
}

/// The targets from the `k`th of `size` on that the payload holds; they stand from
/// `first` on.
pub open spec fn targets_from(
    u: Seq<u16>,
    i: int,
    first: int,
    size: int,
    k: int,
    acc: Seq<u32>,
) -> Seq<u32>
    decreases size - k,
{
    if k >= size {
        acc
    } else {
        targets_from(
            u,
            i,
            first,
            size,
            k + 1,
            if first + 2 * k + 1 < u.len() {
                acc.push(target(i, signed_pair(u, first + 2 * k)))
            } else {
                acc
            },
        )
    }
}

/// Case targets of a switch at `i`; none if its payload is not there.
pub open spec fn cases(u: Seq<u16>, i: int, packed: bool) -> Seq<u32> {
    let p = i + signed_pair(u, i + 1);
    if p < 0 || p + 2 > u.len() {
        Seq::empty()
    } else {
        let size = u[p + 1] as int;
        targets_from(
            u,
            i,
            if packed {
                p + 4
            } else {
                p + 2 + 2 * size
            },
            size,
            0,
            Seq::empty(),
        )
    }
}

/// Case targets of a switch at `i`, read from its payload; empty if malformed.
pub fn switch_targets(u: &[u16], i: usize, packed: bool) -> (r: Vec<u32>)
    requires
        i + 2 < u@.len() <= 0x1_0000_0000,
    ensures
        r@ == cases(u@, i as int, packed),
{
    let n = u.len();
    let p = i as i64 + signed_at(u, i + 1);
    let mut out: Vec<u32> = Vec::new();
    if p < 0 || p + 2 > n as i64 {
        return out;
    }
    let size = u[(p + 1) as usize] as i64;
    let first = if packed {
        p + 4
    } else {
        p + 2 + 2 * size
    };
    let mut k: i64 = 0;
    while k < size
        invariant
            0 <= k <= size <= 0xffff,
            i < n,
            n == u@.len(),
            n <= 0x1_0000_0000,
            0 <= first <= n + 0x2_0002,
            targets_from(u@, i as int, first as int, size as int, 0, Seq::empty()) == targets_from(
                u@,
                i as int,
                first as int,
                size as int,
                k as int,
                out@,
            ),
        decreases size - k,
    {
        let at = first + 2 * k;
        if at + 1 < n as i64 {
            out.push(rel(i, signed_at(u, at as usize)));
        }
        k += 1;
    }
    out
}

/// The 8-bit branch offset as a signed number.
pub open spec fn signed_8(x: int) -> int {
    if x >= 0x80 {
        x - 0x100
    } else {
        x
    }
}

/// The 16-bit branch offset as a signed number.
pub open spec fn signed_16(x: u16) -> int {
    if x >= 0x8000 {
        x - 0x1_0000
    } else {
        x as int
    }
}

/// How the opcode invokes.
pub open spec fn kind_of(op: u16) -> InvokeKind {
    if op == 0x6f || op == 0x75 {
        InvokeKind::Super
    } else if op == 0x70 || op == 0x76 {
        InvokeKind::Direct
    } else if op == 0x71 || op == 0x77 {
        InvokeKind::Static
    } else if op == 0x72 || op == 0x78 {
        InvokeKind::Interface
    } else {
        InvokeKind::Virtual
    }
}

/// The `k`th argument register of an invoke that names each.
pub open spec fn arg_reg(u: Seq<u16>, i: int, k: int) -> u32 {
    if k == 0 {
        (u[i + 2] % 0x10) as u32
    } else if k == 1 {
        (u[i + 2] / 0x10 % 0x10) as u32
    } else if k == 2 {
        (u[i + 2] / 0x100 % 0x10) as u32
    } else if k == 3 {
        (u[i + 2] / 0x1000) as u32
    } else {
        (u[i] / 0x100 % 0x10) as u32
    }
}

/// How many registers an invoke that names each has.
pub open spec fn arg_count(u0: u16) -> nat {
    if u0 / 0x1000 > 5 {
        5
    } else {
        (u0 / 0x1000) as nat
    }
}

/// The argument registers of the invoke at `i`.
pub open spec fn args_of(u: Seq<u16>, i: int, range: bool) -> Seq<u32> {
    if range {
        Seq::new((u[i] / 0x100) as nat, |k: int| (u[i + 2] + k) as u32)
    } else {
        Seq::new(arg_count(u[i]), |k: int| arg_reg(u, i, k))
    }
}

/// The invoke at `i`.
pub open spec fn invoke_at(s: SectionV, u: Seq<u16>, i: int, range: bool) -> Result<OpV, DexError> {
    match s.method(u[i + 1] as int) {
        Err(e) => Err(e),
        Ok((class, name, sig)) => Ok(
            OpV::Invoke(
                InvokeV {
                    kind: kind_of(u[i] % 0x100),
                    args: args_of(u, i, range),
                    class,
                    name,
                    sig,
                },
            ),
        ),
    }
}

/// The instruction at `i`.
pub open spec fn op_at(s: SectionV, u: Seq<u16>, i: int) -> Result<OpV, DexError> {
    let op = u[i] % 0x100;
    let aa = (u[i] / 0x100) as u32;
    let a = (u[i] / 0x100 % 0x10) as u32;
    let b = (u[i] / 0x1000) as u32;
    if op == 0x1d {
        Ok(OpV::MonitorEnter(aa))
    } else if op == 0x1e {
        Ok(OpV::MonitorExit(aa))
    } else if op == 0x01 || op == 0x04 || op == 0x07 {
        Ok(OpV::Move { dst: a, src: b })
    } else if op == 0x02 || op == 0x05 || op == 0x08 {
        Ok(OpV::Move { dst: aa, src: u[i + 1] as u32 })
    } else if op == 0x03 || op == 0x06 || op == 0x09 {
        Ok(OpV::Move { dst: u[i + 1] as u32, src: u[i + 2] as u32 })
    } else if 0x0a <= op <= 0x0c {
        Ok(OpV::MoveResult { dst: aa })
    } else if 0x0e <= op <= 0x10 {
        Ok(OpV::Return(None))
    } else if op == 0x11 {
        Ok(OpV::Return(Some(aa)))
    } else if op == 0x1c {
        Ok(OpV::ConstClass { dst: aa, class: s.dotted(u[i + 1] as int) })
    } else if op == 0x22 {
        Ok(OpV::NewInstance { dst: aa, class: s.dotted(u[i + 1] as int) })
    } else if op == 0x27 {
        Ok(OpV::Throw)
    } else if op == 0x28 {
        Ok(OpV::Goto(target(i, signed_8(aa as int))))
    } else if op == 0x29 {
        Ok(OpV::Goto(target(i, signed_16(u[i + 1]))))
    } else if op == 0x2a {
        Ok(OpV::Goto(target(i, signed_pair(u, i + 1))))
    } else if op == 0x2b || op == 0x2c {
        Ok(OpV::Switch(cases(u, i, op == 0x2b)))
    } else if op == 0x38 {
        Ok(OpV::BranchZero { reg: aa, target: target(i, signed_16(u[i + 1])) })
    } else if op == 0x39 {
        Ok(OpV::BranchNonzero { reg: aa, target: target(i, signed_16(u[i + 1])) })
    } else if 0x32 <= op <= 0x3d {
        Ok(OpV::Branch(target(i, signed_16(u[i + 1]))))
    } else if 0x52 <= op <= 0x6d {
        match s.field(u[i + 1] as int) {
            Err(e) => Err(e),
            Ok((class, field, ty)) => Ok(
                if op <= 0x58 {
                    OpV::Iget { dst: a, base: b, class, field, ty: Some(ty) }
                } else if op <= 0x5f {
                    OpV::Iput { src: a, base: b, class, field }
                } else if op <= 0x66 {
                    OpV::Sget { dst: aa, class, field }
                } else {
                    OpV::Sput { src: aa, class, field }
                },
            ),
        }
    } else if 0x6e <= op <= 0x72 {
        invoke_at(s, u, i, false)
    } else if 0x74 <= op <= 0x78 {
        invoke_at(s, u, i, true)
    } else {
        Ok(OpV::Other)
    }
}

/// The register that an instruction writes whose operation is not looked at: by its first
/// unit.
pub open spec fn written_by(u0: u16) -> Option<u32> {
    let op = u0 % 0x100;
    if op == 0x0d || (0x13 <= op <= 0x1b) || (0x2d <= op <= 0x31) || (0x44 <= op <= 0x4a) || (0x90
        <= op <= 0xaf) || (0xd8 <= op <= 0xe2) || op == 0xfe || op == 0xff {
        Some((u0 / 0x100) as u32)
    } else if op == 0x12 || op == 0x20 || op == 0x21 || op == 0x23 || (0x7b <= op <= 0x8f) || (0xb0
        <= op <= 0xd7) {
        Some((u0 / 0x100 % 0x10) as u32)
    } else {
        None
    }
}

/// The instructions from `i` on, behind `acc`: payloads are left out, and an instruction
/// that the units cut off ends them.
pub open spec fn insns_from(s: SectionV, u: Seq<u16>, i: int, acc: Seq<InsnV>) -> Result<
    Seq<InsnV>,
    DexError,
>
    decreases u.len() - i,
{
    match width_at(u, i) {
        None => Ok(acc),
        Some(w) => if w <= 0 || i + w > u.len() {
            Ok(acc)
        } else if u[i] % 0x100 == 0 && u[i] != 0 {
            insns_from(s, u, i + w, acc)
        } else {
            match op_at(s, u, i) {
                Err(e) => Err(e),
                Ok(op) => insns_from(
                    s,
                    u,
                    i + w,
                    acc.push(InsnV { offset: i as u32, op, writes: written_by(u[i]) }),
                ),
            }
        },
    }
}

/// The register that an instruction writes whose operation is not looked at: a constant, a
/// caught exception, a comparison, an element or length of an array, a new array, a type
/// test, or the result of arithmetic.
pub fn register_written(u0: u16) -> (r: Option<u32>)
    ensures
        r == written_by(u0),
{
    let op = u0 % 0x100;
    if op == 0x0d || (0x13 <= op && op <= 0x1b) || (0x2d <= op && op <= 0x31) || (0x44 <= op && op
        <= 0x4a) || (0x90 <= op && op <= 0xaf) || (0xd8 <= op && op <= 0xe2) || op == 0xfe || op
        == 0xff {
        Some((u0 / 0x100) as u32)
    } else if op == 0x12 || op == 0x20 || op == 0x21 || op == 0x23 || (0x7b <= op && op <= 0x8f)
        || (0xb0 <= op && op <= 0xd7) {
        Some((u0 / 0x100 % 0x10) as u32)
    } else {
        None
    }
}

fn invoke_args(u: &[u16], i: usize, range: bool) -> (r: Vec<u32>)
    requires
        i + 2 < u@.len(),
    ensures
        r@ == args_of(u@, i as int, range),
{
    let mut out: Vec<u32> = Vec::new();
    if range {
        let count = u[i] / 0x100;
        let first = u[i + 2] as u32;
        let mut k: u16 = 0;
        while k < count
            invariant
                k <= count <= 0xff,
                i + 2 < u@.len(),
                first == u@[i + 2],
                out@ == Seq::new(k as nat, |j: int| (u@[i + 2] + j) as u32),
            decreases count - k,
        {
            out.push(first + k as u32);
            k += 1;
            proof {
                assert(out@ =~= Seq::new(k as nat, |j: int| (u@[i + 2] + j) as u32));
            }
        }
    } else {
        let mut count = u[i] / 0x1000;
        if count > 5 {
            count = 5;
        }
        let u2 = u[i + 2];
        if count > 0 {
            out.push((u2 % 0x10) as u32);
        }
        if count > 1 {
            out.push((u2 / 0x10 % 0x10) as u32);
        }
        if count > 2 {
            out.push((u2 / 0x100 % 0x10) as u32);
        }
        if count > 3 {
            out.push((u2 / 0x1000) as u32);
        }
        if count > 4 {
            out.push((u[i] / 0x100 % 0x10) as u32);
        }
        proof {
            assert(out@ =~= args_of(u@, i as int, false));
        }
    }
    out
}

/// What a reader gives stands for what is there.
pub open spec fn same_result<T: DeepView>(
    r: Result<T, DexError>,
    want: Result<T::V, DexError>,
) -> bool {
    match r {
        Ok(x) => want == Ok::<T::V, DexError>(x.deep_view()),
        Err(e) => want == Err::<T::V, DexError>(e),
    }
}

impl<'a> Section<'a> {
    fn invoke(&self, u: &[u16], i: usize, range: bool) -> (r: Result<Op, DexError>)
        requires
            self.wf(),
            i + 2 < u@.len(),
        ensures
            same_result(r, invoke_at(self.deep_view(), u@, i as int, range)),
    {
        let op = u[i] % 0x100;
        let kind = if op == 0x6f || op == 0x75 {
            InvokeKind::Super
        } else if op == 0x70 || op == 0x76 {
            InvokeKind::Direct
        } else if op == 0x71 || op == 0x77 {
            InvokeKind::Static
        } else if op == 0x72 || op == 0x78 {
            InvokeKind::Interface
        } else {
            InvokeKind::Virtual
        };
        let args = invoke_args(u, i, range);
        match self.method(u[i + 1] as u32) {
            Err(e) => Err(e),
            Ok((class, name, sig)) => Ok(Op::Invoke(Invoke { kind, args, class, name, sig })),
        }
    }

    fn access(&self, u: &[u16], i: usize) -> (r: Result<Op, DexError>)
        requires
            self.wf(),
            i + 1 < u@.len(),
            0x52 <= u@[i as int] % 0x100 <= 0x6d,
        ensures
            same_result(r, op_at(self.deep_view(), u@, i as int)),
    {
        let op = u[i] % 0x100;
        let aa = (u[i] / 0x100) as u32;
        let a = (u[i] / 0x100 % 0x10) as u32;
        let b = (u[i] / 0x1000) as u32;
        match self.field(u[i + 1] as u32) {
            Err(e) => Err(e),
            Ok((class, field, ty)) => Ok(
                if op <= 0x58 {
                    Op::Iget { dst: a, base: b, class, field, ty: Some(ty) }
                } else if op <= 0x5f {
                    Op::Iput { src: a, base: b, class, field }
                } else if op <= 0x66 {
                    Op::Sget { dst: aa, class, field }
                } else {
                    Op::Sput { src: aa, class, field }
                },
            ),
        }
    }

    /// Map one instruction to the model `Op`.
    pub fn decode(&self, u: &[u16], i: usize) -> (r: Result<Op, DexError>)
        requires
            self.wf(),
            u@.len() <= 0x1_0000_0000,
            i < u@.len(),
            i + width_of((u@[i as int] % 0x100) as u8) <= u@.len(),
        ensures
            same_result(r, op_at(self.deep_view(), u@, i as int)),
    {
        let u0 = u[i];
        let op = u0 % 0x100;
        let aa = (u0 / 0x100) as u32;
        let a = (u0 / 0x100 % 0x10) as u32;
        let b = (u0 / 0x1000) as u32;
        if op == 0x1d {
            Ok(Op::MonitorEnter(aa))
        } else if op == 0x1e {
            Ok(Op::MonitorExit(aa))
        } else if op == 0x01 || op == 0x04 || op == 0x07 {
            Ok(Op::Move { dst: a, src: b })
        } else if op == 0x02 || op == 0x05 || op == 0x08 {
            Ok(Op::Move { dst: aa, src: u[i + 1] as u32 })
        } else if op == 0x03 || op == 0x06 || op == 0x09 {
            Ok(Op::Move { dst: u[i + 1] as u32, src: u[i + 2] as u32 })
        } else if 0x0a <= op && op <= 0x0c {
            Ok(Op::MoveResult { dst: aa })
        } else if 0x0e <= op && op <= 0x10 {
            Ok(Op::Return(None))
        } else if op == 0x11 {
            Ok(Op::Return(Some(aa)))
        } else if op == 0x1c {
            Ok(Op::ConstClass { dst: aa, class: self.type_dotted(u[i + 1] as u32) })
        } else if op == 0x22 {
            Ok(Op::NewInstance { dst: aa, class: self.type_dotted(u[i + 1] as u32) })
        } else if op == 0x27 {
            Ok(Op::Throw)
        } else if op == 0x28 {
            let off: i64 = if aa >= 0x80 {
                aa as i64 - 0x100
            } else {
                aa as i64
            };
            Ok(Op::Goto(rel(i, off)))
        } else if op == 0x29 {
            Ok(Op::Goto(rel(i, signed_half(u[i + 1]))))
        } else if op == 0x2a {
            Ok(Op::Goto(rel(i, signed_at(u, i + 1))))
        } else if op == 0x2b || op == 0x2c {
            Ok(Op::Switch(switch_targets(u, i, op == 0x2b)))
        } else if op == 0x38 {
            Ok(Op::BranchZero { reg: aa, target: rel(i, signed_half(u[i + 1])) })
        } else if op == 0x39 {
            Ok(Op::BranchNonzero { reg: aa, target: rel(i, signed_half(u[i + 1])) })
        } else if 0x32 <= op && op <= 0x3d {
            Ok(Op::Branch(rel(i, signed_half(u[i + 1]))))
        } else if 0x52 <= op && op <= 0x6d {
            self.access(u, i)
        } else if 0x6e <= op && op <= 0x72 {
            self.invoke(u, i, false)
        } else if 0x74 <= op && op <= 0x78 {
            self.invoke(u, i, true)
        } else {
            Ok(Op::Other)
        }
    }

    /// The instructions of a method body.
    pub fn decode_all(&self, u: &Vec<u16>) -> (r: Result<Vec<Insn>, DexError>)
        requires
            self.wf(),
            u@.len() <= 0xffff_ffff,
        ensures
            same_result(r, insns_from(self.deep_view(), u@, 0, Seq::empty())),
    {
        let ghost s = self.deep_view();
        let n = u.len();
        let mut out: Vec<Insn> = values::empty();
        let mut i: usize = 0;
        let mut cut = false;
        while i < n && !cut
            invariant
                self.wf(),
                s == self.deep_view(),
                i <= n,
                n == u@.len(),
                n <= 0xffff_ffff,
                if cut {
                    insns_from(s, u@, 0, Seq::empty()) == Ok::<Seq<InsnV>, DexError>(
                        out.deep_view(),
                    )
                } else {
                    insns_from(s, u@, 0, Seq::empty()) == insns_from(
                        s,
                        u@,
                        i as int,
                        out.deep_view(),
                    )
                },
            decreases n - i, if cut { 0int } else { 1 },
        {
            let w = match insn_width(u.as_slice(), i) {
                None => 0,
                Some(w) => w,
            };
            if w == 0 || w > (n - i) as u64 {
                cut = true;
            } else {
                let w = w as usize;
                if u[i] % 0x100 == 0 && u[i] != 0 {
                } else {
                    match self.decode(u.as_slice(), i) {
                        Err(e) => {
                            return Err(e);
                        },
                        Ok(op) => {
                            let writes = register_written(u[i]);
                            values::push(&mut out, Insn { offset: i as u32, op, writes });
                        },
                    }
                }
                i += w;
            }
        }
        Ok(out)
    }
}

fn signed_half(x: u16) -> (r: i64)
    ensures
        r == signed_16(x),
        -0x8000 <= r < 0x8000,
{
    if x >= 0x8000 {
        x as i64 - 0x1_0000
    } else {
        x as i64
    }
}

} // verus!

//! What the Dalvik instruction set says of the decoder: which opcodes read, write, call,
//! lock, move and branch, which registers they name, and how long they are.

use crate::dex::model::{InvokeKind, OpV};
use crate::dex::native::code;
use crate::dex::native::reader::DexError;
use crate::dex::native::section::SectionV;
use vstd::prelude::*;

verus! {

/// The decoded instruction is an `Ok` of a variant.
pub open spec fn gives(r: Result<OpV, DexError>, is_it: spec_fn(OpV) -> bool) -> bool {
    r matches Ok(op) && is_it(op)
}

/// An instruction reads an instance field exactly where its opcode is one of the seven
/// `iget`s and writes one exactly where it is one of the seven `iput`s; it reads a static
/// field exactly where it is one of the seven `sget`s and writes one exactly where it is one
/// of the seven `sput`s. The field is the one that the second unit numbers; where there is
/// none of that number, that is the error.
pub proof fn law_field_accesses_by_opcode(s: SectionV, u: Seq<u16>, i: int)
    ensures
        ({
            let op = u[i] % 256;
            let r = code::op_at(s, u, i);
            let f = s.field(u[i + 1] as int);
            &&& gives(r, |o: OpV| o is Iget) <==> 0x52 <= op <= 0x58 && f is Ok
            &&& gives(r, |o: OpV| o is Iput) <==> 0x59 <= op <= 0x5f && f is Ok
            &&& gives(r, |o: OpV| o is Sget) <==> 0x60 <= op <= 0x66 && f is Ok
            &&& gives(r, |o: OpV| o is Sput) <==> 0x67 <= op <= 0x6d && f is Ok
            &&& 0x52 <= op <= 0x6d && f is Err ==> r is Err && r->Err_0 == f->Err_0
        }),
{
}

/// The registers and the field of an access: an instance access names the value in the low
/// and the object in the high four bits of the first unit's upper byte, a static one the
/// value in the whole byte; the class and the name are those of the field.
pub proof fn law_field_operands(s: SectionV, u: Seq<u16>, i: int)
    ensures
        match (code::op_at(s, u, i), s.field(u[i + 1] as int)) {
            (Ok(OpV::Iget { dst, base, class, field, ty }), Ok((c, n, t))) => {
                &&& u[i] / 256 == 16 * base + dst
                &&& dst < 16
                &&& (class, field, ty) == (c, n, Some(t))
            },
            (Ok(OpV::Iput { src, base, class, field }), Ok((c, n, t))) => {
                &&& u[i] / 256 == 16 * base + src
                &&& src < 16
                &&& (class, field) == (c, n)
            },
            (Ok(OpV::Sget { dst, class, field }), Ok((c, n, t))) => {
                u[i] / 256 == dst && (class, field) == (c, n)
            },
            (Ok(OpV::Sput { src, class, field }), Ok((c, n, t))) => {
                u[i] / 256 == src && (class, field) == (c, n)
            },
            _ => true,
        },
{
}

/// `monitor-enter` and `monitor-exit` are 0x1d and 0x1e and nothing else, on the register
/// in the upper byte.
pub proof fn law_monitors_by_opcode(s: SectionV, u: Seq<u16>, i: int)
    ensures
        ({
            let op = u[i] % 256;
            let r = code::op_at(s, u, i);
            &&& gives(r, |o: OpV| o is MonitorEnter) <==> op == 0x1d
            &&& gives(r, |o: OpV| o is MonitorExit) <==> op == 0x1e
            &&& r matches Ok(OpV::MonitorEnter(x)) ==> x == u[i] / 256
            &&& r matches Ok(OpV::MonitorExit(x)) ==> x == u[i] / 256
        }),
{
}

/// The five invokes that name each register are 0x6e to 0x72 and those of a register range
/// 0x74 to 0x78, in both in the order virtual, super, direct, static, interface; the method
/// is the one that the second unit numbers, and where there is none, that is the error.
pub proof fn law_invokes_by_opcode(s: SectionV, u: Seq<u16>, i: int)
    ensures
        ({
            let op = u[i] % 256;
            let r = code::op_at(s, u, i);
            let m = s.method(u[i + 1] as int);
            &&& gives(r, |o: OpV| o is Invoke) <==> (0x6e <= op <= 0x72 || 0x74 <= op <= 0x78)
                && m is Ok
            &&& (0x6e <= op <= 0x72 || 0x74 <= op <= 0x78) && m is Err ==> r is Err && r->Err_0
                == m->Err_0
            &&& r matches Ok(OpV::Invoke(inv)) ==> {
                &&& (inv.kind == InvokeKind::Virtual <==> op == 0x6e || op == 0x74)
                &&& (inv.kind == InvokeKind::Super <==> op == 0x6f || op == 0x75)
                &&& (inv.kind == InvokeKind::Direct <==> op == 0x70 || op == 0x76)
                &&& (inv.kind == InvokeKind::Static <==> op == 0x71 || op == 0x77)
                &&& (inv.kind == InvokeKind::Interface <==> op == 0x72 || op == 0x78)
                &&& m == Ok::<_, DexError>((inv.class, inv.name, inv.sig))
            }
        }),
{
}

/// The argument registers of an invoke. A range counts up from the third unit, as many as
/// the upper byte says. One that names each packs the first four into the third unit, four
/// bits each from the lowest on, and the fifth into bits 8 to 11 of the first; bits 12 to 15
/// count them, and more than five there count as five.
pub proof fn law_invoke_arguments(s: SectionV, u: Seq<u16>, i: int)
    ensures
        code::op_at(s, u, i) matches Ok(OpV::Invoke(inv)) ==> {
            let n = u[i] / 4096;
            if u[i] % 256 >= 0x74 {
                &&& inv.args.len() == u[i] / 256
                &&& forall|k: int|
                    0 <= k < inv.args.len() ==> #[trigger] inv.args[k] == u[i + 2] + k
            } else {
                &&& inv.args.len() == (if n < 5 { n as int } else { 5 })
                &&& n >= 1 ==> inv.args[0] == u[i + 2] % 16
                &&& n >= 2 ==> inv.args[1] == u[i + 2] / 16 % 16
                &&& n >= 3 ==> inv.args[2] == u[i + 2] / 256 % 16
                &&& n >= 4 ==> inv.args[3] == u[i + 2] / 4096
                &&& n >= 5 ==> inv.args[4] == u[i] / 256 % 16
            }
        },
{
}

/// The moves are 0x01 to 0x09, in three formats: four bits, eight and sixteen, and sixteen
/// and sixteen; a result is moved by 0x0a to 0x0c. A wide or an object move is a move like
/// any other.
pub proof fn law_moves_by_opcode(s: SectionV, u: Seq<u16>, i: int)
    ensures
        ({
            let op = u[i] % 256;
            let r = code::op_at(s, u, i);
            &&& gives(r, |o: OpV| o is Move) <==> 0x01 <= op <= 0x09
            &&& gives(r, |o: OpV| o is MoveResult) <==> 0x0a <= op <= 0x0c
            &&& r matches Ok(OpV::MoveResult { dst }) ==> dst == u[i] / 256
            &&& r matches Ok(OpV::Move { dst, src }) ==> {
                &&& op % 3 == 1 ==> u[i] / 256 == 16 * src + dst && dst < 16
                &&& op % 3 == 2 ==> dst == u[i] / 256 && src == u[i + 1]
                &&& op % 3 == 0 ==> dst == u[i + 1] && src == u[i + 2]
            }
        }),
{
}

/// What ends a path or allocates: `return-void`, `return` and `return-wide` give nothing that
/// can be a lock, `return-object` gives its register; `throw` is 0x27, `const-class` 0x1c and
/// `new-instance` 0x22, each of the type that the second unit numbers.
pub proof fn law_returns_and_allocations(s: SectionV, u: Seq<u16>, i: int)
    ensures
        ({
            let op = u[i] % 256;
            let r = code::op_at(s, u, i);
            &&& gives(r, |o: OpV| o is Return) <==> 0x0e <= op <= 0x11
            &&& r matches Ok(OpV::Return(x)) ==> if op == 0x11 {
                x is Some && x->0 == u[i] / 256
            } else {
                x is None
            }
            &&& gives(r, |o: OpV| o is Throw) <==> op == 0x27
            &&& gives(r, |o: OpV| o is ConstClass) <==> op == 0x1c
            &&& gives(r, |o: OpV| o is NewInstance) <==> op == 0x22
            &&& r matches Ok(OpV::ConstClass { dst, class }) ==> dst == u[i] / 256 && class
                == s.dotted(u[i + 1] as int)
            &&& r matches Ok(OpV::NewInstance { dst, class }) ==> dst == u[i] / 256 && class
                == s.dotted(u[i + 1] as int)
        }),
{
}

/// The branches: three `goto`s, two switches, `if-eqz` and `if-nez`, and the other ten that
/// compare. Where a branch goes is as far from it as its offset says, read as a signed number
/// of eight, sixteen or thirty-two bits.
pub proof fn law_branches_by_opcode(s: SectionV, u: Seq<u16>, i: int, off: int)
    requires
        0 <= i + off <= u32::MAX,
    ensures
        ({
            let op = u[i] % 256;
            let r = code::op_at(s, u, i);
            &&& gives(r, |o: OpV| o is Goto) <==> 0x28 <= op <= 0x2a
            &&& gives(r, |o: OpV| o is Switch) <==> op == 0x2b || op == 0x2c
            &&& gives(r, |o: OpV| o is BranchZero) <==> op == 0x38
            &&& gives(r, |o: OpV| o is BranchNonzero) <==> op == 0x39
            &&& gives(r, |o: OpV| o is Branch) <==> 0x32 <= op <= 0x37 || 0x3a <= op <= 0x3d
            &&& op == 0x28 && -0x80 <= off < 0x80 && u[i] / 256 == off % 0x100 ==> r == Ok::<
                _,
                DexError,
            >(OpV::Goto((i + off) as u32))
            &&& op == 0x29 && -0x8000 <= off < 0x8000 && u[i + 1] == off % 0x1_0000 ==> r == Ok::<
                _,
                DexError,
            >(OpV::Goto((i + off) as u32))
            &&& op == 0x2a && -0x8000_0000 <= off < 0x8000_0000 && u[i + 1] + 0x1_0000 * u[i + 2]
                == off % 0x1_0000_0000 ==> r == Ok::<_, DexError>(OpV::Goto((i + off) as u32))
            &&& -0x8000 <= off < 0x8000 && u[i + 1] == off % 0x1_0000 ==> match r {
                Ok(OpV::Branch(t)) => t == i + off,
                Ok(OpV::BranchZero { reg, target }) => target == i + off && reg == u[i] / 256,
                Ok(OpV::BranchNonzero { reg, target }) => target == i + off && reg == u[i] / 256,
                _ => true,
            }
        }),
{
    assert(off < 0 && -0x8000_0000 <= off ==> off % 0x1_0000_0000 == off + 0x1_0000_0000);
}

/// Every opcode that none of the other kinds claims is left alone, and only those.
pub proof fn law_other_opcodes(s: SectionV, u: Seq<u16>, i: int)
    ensures
        ({
            let op = u[i] % 256;
            gives(code::op_at(s, u, i), |o: OpV| o is Other) <==> {
                ||| op == 0x00 || op == 0x0d
                ||| 0x12 <= op <= 0x1b
                ||| 0x1f <= op <= 0x21
                ||| 0x23 <= op <= 0x26
                ||| 0x2d <= op <= 0x31
                ||| 0x3e <= op <= 0x51
                ||| op == 0x73
                ||| 0x79 <= op
            }
        }),
{
}

/// How many units an instruction takes, by its format: one for those whose operands all
/// stand in the first unit, five for `const-wide`, four for the polymorphic invokes, three
/// for those of two more units, and two for the rest.
pub proof fn law_widths_by_format(op: u8)
    ensures
        code::width_of(op) == 1 <==> {
            ||| op == 0x00 || op == 0x01 || op == 0x04 || op == 0x07
            ||| 0x0a <= op <= 0x12
            ||| op == 0x1d || op == 0x1e || op == 0x21 || op == 0x27 || op == 0x28
            ||| 0x3e <= op <= 0x43
            ||| op == 0x73
            ||| 0x79 <= op <= 0x8f
            ||| 0xb0 <= op <= 0xcf
            ||| 0xe3 <= op <= 0xf9
        },
        code::width_of(op) == 3 <==> {
            ||| op == 0x03 || op == 0x06 || op == 0x09
            ||| op == 0x14 || op == 0x17 || op == 0x1b
            ||| op == 0x24 || op == 0x25 || op == 0x26
            ||| op == 0x2a || op == 0x2b || op == 0x2c
            ||| 0x6e <= op < 0x73
            ||| 0x73 < op < 0x79
            ||| op == 0xfc || op == 0xfd
        },
        code::width_of(op) == 4 <==> op == 0xfa || op == 0xfb,
        code::width_of(op) == 5 <==> op == 0x18,
        1 <= code::width_of(op) <= 5,
{
}

} // verus!

//! Classes, their fields and methods, and method bodies with their line tables and
//! exception handlers.

use crate::dex::model::{Class, ClassV, Insn, InsnV, Method, MethodV};
use crate::dex::native::code;
use crate::dex::native::reader;
use crate::dex::native::reader::{DexError, Reader};
use crate::dex::native::section::{Section, SectionV};
use crate::names;
use crate::names::Names;
use crate::text;
use crate::values;
use crate::values::Dup;
use vstd::prelude::*;

verus! {

/// The number that stands for no entry.
pub const NO_INDEX: u32 = 0xffff_ffff;

/// What a method body holds.
pub struct CodeV {
    pub registers: u32,
    pub ins: u32,
    pub insns: Seq<InsnV>,
    pub positions: Seq<(u32, u32)>,
    pub catches: Seq<(u32, u32, u32)>,
}

/// A method body.
pub struct Code {
    pub registers: u32,
    pub ins: u32,
    pub insns: Vec<Insn>,
    pub positions: Vec<(u32, u32)>,
    pub catches: Vec<(u32, u32, u32)>,
}

impl DeepView for Code {
    type V = CodeV;

    open spec fn deep_view(&self) -> CodeV {
        CodeV {
            registers: self.registers,
            ins: self.ins,
            insns: self.insns.deep_view(),
            positions: self.positions@,
            catches: self.catches@,
        }
    }
}

/// A sum that wraps at 32 bits.
pub open spec fn wrapped(a: int, b: int) -> u32 {
    ((a + b) % 0x1_0000_0000) as u32
}

fn wrapping(a: u32, b: u32) -> (r: u32)
    ensures
        r == wrapped(a as int, b as int),
{
    ((a as u64 + b as u64) % 0x1_0000_0000) as u32
}

proof fn lemma_uleb_from(d: Seq<u8>, at: int, i: int, acc: int)
    ensures
        reader::uleb_from(d, at, i, acc) matches Ok((_, q)) ==> at < q <= d.len(),
    decreases 5 - i,
{
    if at < d.len() && d[at] >= 0x80 && i < 4 {
        lemma_uleb_from(d, at + 1, i + 1, acc + reader::scaled(d[at], i));
    }
}

proof fn lemma_sleb_from(d: Seq<u8>, at: int, i: int, acc: int)
    ensures
        reader::sleb_from(d, at, i, acc) matches Ok((_, q)) ==> at < q <= d.len(),
    decreases 5 - i,
{
    if at < d.len() && d[at] >= 0x80 && i < 4 {
        lemma_sleb_from(d, at + 1, i + 1, acc + reader::scaled(d[at], i));
    }
}

/// A number takes bytes, all of them in the image.
pub proof fn lemma_lebs_move(d: Seq<u8>, at: int)
    ensures
        reader::uleb(d, at) matches Ok((_, q)) ==> at < q <= d.len(),
        reader::sleb(d, at) matches Ok((_, q)) ==> at < q <= d.len(),
{
    lemma_uleb_from(d, at, 0, 0);
    lemma_sleb_from(d, at, 0, 0);
}

/// Where `n` LEB128 numbers end.
pub open spec fn skip(d: Seq<u8>, at: int, n: nat) -> Result<int, DexError>
    decreases n,
{
    if n == 0 {
        Ok(at)
    } else {
        match reader::uleb(d, at) {
            Err(e) => Err(e),
            Ok((_, p)) => skip(d, p, (n - 1) as nat),
        }
    }
}

/// Skipping never goes back.
pub proof fn lemma_skip_moves(d: Seq<u8>, at: int, n: nat)
    ensures
        skip(d, at, n) matches Ok(q) ==> at <= q && (at <= d.len() ==> q <= d.len()),
    decreases n,
{
    if n > 0 {
        lemma_lebs_move(d, at);
        match reader::uleb(d, at) {
            Err(_) => {},
            Ok((_, p)) => lemma_skip_moves(d, p, (n - 1) as nat),
        }
    }
}

/// How many numbers a debug opcode without effect on lines carries.
pub open spec fn operands(op: u8) -> nat {
    if op == 3 {
        3
    } else if op == 4 {
        4
    } else if op == 5 || op == 6 || op == 9 {
        1
    } else {
        0
    }
}

/// The positions that the line program gives from `pos` on, behind `acc`.
pub open spec fn debug_from(
    d: Seq<u8>,
    pos: int,
    line: int,
    addr: u32,
    acc: Seq<(u32, u32)>,
) -> Result<Seq<(u32, u32)>, DexError>
    decreases d.len() - pos,
{
    match reader::byte(d, pos) {
        Err(e) => Err(e),
        Ok((op, p)) => {
            proof {
                lemma_lebs_move(d, p);
                lemma_skip_moves(d, p, operands(op));
            }
            if op == 0 {
                Ok(acc)
            } else if op == 1 {
                match reader::uleb(d, p) {
                    Err(e) => Err(e),
                    Ok((v, q)) => debug_from(d, q, line, wrapped(addr as int, v as int), acc),
                }
            } else if op == 2 {
                match reader::sleb(d, p) {
                    Err(e) => Err(e),
                    Ok((v, q)) => debug_from(d, q, line + v, addr, acc),
                }
            } else if op < 0x0a {
                match skip(d, p, operands(op)) {
                    Err(e) => Err(e),
                    Ok(q) => debug_from(d, q, line, addr, acc),
                }
            } else {
                let at = wrapped(addr as int, (op - 0x0a) / 15);
                let l = line - 4 + (op - 0x0a) % 15;
                debug_from(
                    d,
                    p,
                    l,
                    at,
                    if l >= 0 {
                        acc.push((at, l as u32))
                    } else {
                        acc
                    },
                )
            }
        },
    }
}

/// The positions of the debug information at `off`.
pub open spec fn debug_at(d: Seq<u8>, off: int) -> Result<Seq<(u32, u32)>, DexError> {
    match reader::uleb(d, off) {
        Err(e) => Err(e),
        Ok((line, p)) => match reader::uleb(d, p) {
            Err(e) => Err(e),
            Ok((params, p)) => match skip(d, p, params as nat) {
                Err(e) => Err(e),
                Ok(p) => debug_from(d, p, line as int, 0, Seq::empty()),
            },
        },
    }
}

/// `n` typed handlers of the try from `start` to `end`, behind `acc`.
pub open spec fn handlers_from(
    d: Seq<u8>,
    pos: int,
    n: nat,
    start: u32,
    end: u32,
    acc: Seq<(u32, u32, u32)>,
) -> Result<(Seq<(u32, u32, u32)>, int), DexError>
    decreases n,
{
    if n == 0 {
        Ok((acc, pos))
    } else {
        match reader::uleb(d, pos) {
            Err(e) => Err(e),
            Ok((_, p)) => match reader::uleb(d, p) {
                Err(e) => Err(e),
                Ok((h, q)) => handlers_from(
                    d,
                    q,
                    (n - 1) as nat,
                    start,
                    end,
                    acc.push((start, end, h)),
                ),
            },
        }
    }
}

/// The handlers of one try, whose list stands at `at`, behind `acc`.
pub open spec fn handlers_at(
    d: Seq<u8>,
    at: int,
    start: u32,
    end: u32,
    acc: Seq<(u32, u32, u32)>,
) -> Result<Seq<(u32, u32, u32)>, DexError> {
    match reader::sleb(d, at) {
        Err(e) => Err(e),
        Ok((size, p)) => {
            let n = if size < 0 {
                -size
            } else {
                size as int
            };
            match handlers_from(d, p, n as nat, start, end, acc) {
                Err(e) => Err(e),
                Ok((list, p)) => if size > 0 {
                    Ok(list)
                } else {
                    match reader::uleb(d, p) {
                        Err(e) => Err(e),
                        Ok((h, _)) => Ok(list.push((start, end, h))),
                    }
                },
            }
        },
    }
}

/// The handlers of the tries from the `t`th on, behind `acc`.
pub open spec fn tries_from(
    d: Seq<u8>,
    off: int,
    n: int,
    t: int,
    acc: Seq<(u32, u32, u32)>,
) -> Result<Seq<(u32, u32, u32)>, DexError>
    decreases n - t,
{
    if t >= n {
        Ok(acc)
    } else {
        let base = off + t * 8;
        match (
            reader::word(d, base),
            reader::half(d, base + 4),
            reader::half(d, base + 6),
        ) {
            (Ok(start), Ok(count), Ok(h)) => match handlers_at(
                d,
                off + n * 8 + h,
                start,
                wrapped(start as int, count as int),
                acc,
            ) {
                Err(e) => Err(e),
                Ok(list) => tries_from(d, off, n, t + 1, list),
            },
            (Err(e), _, _) => Err(e),
            (_, Err(e), _) => Err(e),
            (_, _, Err(e)) => Err(e),
        }
    }
}

/// What was read, and nothing where reading failed.
pub open spec fn or_none<A>(r: Result<Seq<A>, DexError>) -> Seq<A> {
    match r {
        Ok(s) => s,
        Err(_) => Seq::empty(),
    }
}

/// The code units from the `k`th on, behind `acc`.
pub open spec fn units_from(d: Seq<u8>, start: int, n: int, k: int, acc: Seq<u16>) -> Result<
    Seq<u16>,
    DexError,
>
    decreases n - k,
{
    if k >= n {
        Ok(acc)
    } else {
        match reader::half(d, start + k * 2) {
            Err(e) => Err(e),
            Ok(u) => units_from(d, start, n, k + 1, acc.push(u)),
        }
    }
}

/// The method body at `off`.
pub open spec fn code_at(s: SectionV, off: int) -> Result<CodeV, DexError> {
    let d = s.data;
    match (
        reader::half(d, off),
        reader::half(d, off + 2),
        reader::word(d, off + 8),
        reader::word(d, off + 12),
    ) {
        (Ok(registers), Ok(ins), Ok(debug), Ok(n)) => match units_from(
            d,
            off + 16,
            n as int,
            0,
            Seq::empty(),
        ) {
            Err(e) => Err(e),
            Ok(units) => match code::insns_from(s, units, 0, Seq::empty()) {
                Err(e) => Err(e),
                Ok(insns) => match reader::half(d, off + 6) {
                    Err(e) => Err(e),
                    Ok(tries) => Ok(
                        CodeV {
                            registers: registers as u32,
                            ins: ins as u32,
                            insns,
                            positions: if debug == 0 {
                                Seq::empty()
                            } else {
                                or_none(debug_at(d, debug as int))
                            },
                            catches: if tries == 0 {
                                Seq::empty()
                            } else {
                                or_none(
                                    tries_from(
                                        d,
                                        off + 16 + n * 2 + if n % 2 == 1 {
                                            2int
                                        } else {
                                            0
                                        },
                                        tries as int,
                                        0,
                                        Seq::empty(),
                                    ),
                                )
                            },
                        },
                    ),
                },
            },
        },
        (Err(e), _, _, _) => Err(e),
        (_, Err(e), _, _) => Err(e),
        (_, _, Err(e), _) => Err(e),
        (_, _, _, Err(e)) => Err(e),
    }
}

/// The next number of a list of differences.
pub open spec fn next_index(j: int, idx: u32, diff: u32) -> u32 {
    if j == 0 {
        diff
    } else {
        wrapped(idx as int, diff as int)
    }
}

/// The access flags say final or volatile.
pub open spec fn is_steady(access: u32) -> bool {
    access / 0x10 % 2 == 1 || access / 0x40 % 2 == 1
}

/// The final and volatile fields among those from the `j`th of `n` on, whose entries stand
/// at `pos`, behind `acc`.
pub open spec fn fields_from(
    s: SectionV,
    pos: int,
    n: int,
    j: int,
    idx: u32,
    acc: Seq<Seq<char>>,
) -> Result<(Seq<Seq<char>>, int), DexError>
    decreases n - j,
{
    if j >= n {
        Ok((acc, pos))
    } else {
        match reader::uleb(s.data, pos) {
            Err(e) => Err(e),
            Ok((diff, p)) => match reader::uleb(s.data, p) {
                Err(e) => Err(e),
                Ok((access, q)) => {
                    let i = next_index(j, idx, diff);
                    if is_steady(access) {
                        match s.field(i as int) {
                            Err(e) => Err(e),
                            Ok((class, name, _)) => fields_from(
                                s,
                                q,
                                n,
                                j + 1,
                                i,
                                names::with(acc, class + "."@ + name),
                            ),
                        }
                    } else {
                        fields_from(s, q, n, j + 1, i, acc)
                    }
                },
            },
        }
    }
}

/// The body of a method, or none.
pub open spec fn body_at(s: SectionV, off: u32) -> Result<CodeV, DexError> {
    if off == 0 {
        Ok(
            CodeV {
                registers: 0,
                ins: 0,
                insns: Seq::empty(),
                positions: Seq::empty(),
                catches: Seq::empty(),
            },
        )
    } else {
        code_at(s, off as int)
    }
}

/// The methods from the `j`th of `n` on, whose entries stand at `pos`, behind `acc`.
pub open spec fn methods_from(
    s: SectionV,
    file: Option<Seq<char>>,
    pos: int,
    n: int,
    j: int,
    idx: u32,
    acc: Seq<MethodV>,
) -> Result<(Seq<MethodV>, int), DexError>
    decreases n - j,
{
    if j >= n {
        Ok((acc, pos))
    } else {
        match reader::uleb(s.data, pos) {
            Err(e) => Err(e),
            Ok((diff, p)) => match reader::uleb(s.data, p) {
                Err(e) => Err(e),
                Ok((access, p)) => match reader::uleb(s.data, p) {
                    Err(e) => Err(e),
                    Ok((off, p)) => {
                        let i = next_index(j, idx, diff);
                        match s.method(i as int) {
                            Err(e) => Err(e),
                            Ok((class, name, sig)) => match body_at(s, off) {
                                Err(e) => Err(e),
                                Ok(c) => methods_from(
                                    s,
                                    file,
                                    p,
                                    n,
                                    j + 1,
                                    i,
                                    acc.push(
                                        MethodV {
                                            class,
                                            name,
                                            sig,
                                            access,
                                            registers: c.registers,
                                            ins: c.ins,
                                            insns: c.insns,
                                            positions: c.positions,
                                            catches: c.catches,
                                            source_file: file,
                                        },
                                    ),
                                ),
                            },
                        }
                    },
                },
            },
        }
    }
}

/// What the class data at `off` holds: the methods, and the final and volatile fields
/// behind `acc`.
pub open spec fn data_at(
    s: SectionV,
    off: int,
    file: Option<Seq<char>>,
    acc: Seq<Seq<char>>,
) -> Result<(Seq<MethodV>, Seq<Seq<char>>), DexError> {
    match reader::uleb(s.data, off) {
        Err(e) => Err(e),
        Ok((statics, p)) => match reader::uleb(s.data, p) {
            Err(e) => Err(e),
            Ok((instances, p)) => match reader::uleb(s.data, p) {
                Err(e) => Err(e),
                Ok((direct, p)) => match reader::uleb(s.data, p) {
                    Err(e) => Err(e),
                    Ok((virtuals, p)) => members_at(
                        s,
                        p,
                        file,
                        acc,
                        statics,
                        instances,
                        direct,
                        virtuals,
                    ),
                },
            },
        },
    }
}

/// The members of a class, once it is known how many there are.
pub open spec fn members_at(
    s: SectionV,
    p: int,
    file: Option<Seq<char>>,
    acc: Seq<Seq<char>>,
    statics: u32,
    instances: u32,
    direct: u32,
    virtuals: u32,
) -> Result<(Seq<MethodV>, Seq<Seq<char>>), DexError> {
    match fields_from(s, p, statics as int, 0, 0, acc) {
        Err(e) => Err(e),
        Ok((acc, p)) => match fields_from(s, p, instances as int, 0, 0, acc) {
            Err(e) => Err(e),
            Ok((acc, p)) => match methods_from(s, file, p, direct as int, 0, 0, Seq::empty()) {
                Err(e) => Err(e),
                Ok((ms, p)) => match methods_from(s, file, p, virtuals as int, 0, 0, ms) {
                    Err(e) => Err(e),
                    Ok((ms, _)) => Ok((ms, acc)),
                },
            },
        },
    }
}

/// The interfaces from the `j`th on, behind `acc`.
pub open spec fn interfaces_from(
    s: SectionV,
    off: int,
    n: int,
    j: int,
    acc: Seq<Seq<char>>,
) -> Result<Seq<Seq<char>>, DexError>
    decreases n - j,
{
    if j >= n {
        Ok(acc)
    } else {
        match reader::half(s.data, off + 4 + j * 2) {
            Err(e) => Err(e),
            Ok(t) => interfaces_from(s, off, n, j + 1, acc.push(s.dotted(t as int))),
        }
    }
}

/// The interfaces listed at `off`, none where it is zero.
pub open spec fn interfaces_at(s: SectionV, off: u32) -> Result<Seq<Seq<char>>, DexError> {
    if off == 0 {
        Ok(Seq::empty())
    } else {
        match reader::word(s.data, off as int) {
            Err(e) => Err(e),
            Ok(n) => interfaces_from(s, off as int, n as int, 0, Seq::empty()),
        }
    }
}

/// The source file of a class.
pub open spec fn file_of(s: SectionV, i: u32) -> Option<Seq<char>> {
    if i == NO_INDEX {
        None
    } else {
        Some(s.string(i as int))
    }
}

/// Class `k`, and the final and volatile fields behind `acc`.
pub open spec fn class_at(s: SectionV, k: int, acc: Seq<Seq<char>>) -> Result<
    (ClassV, Seq<Seq<char>>),
    DexError,
> {
    let base = s.class_defs_off + k * 32;
    match (
        reader::word(s.data, base),
        reader::word(s.data, base + 8),
        reader::word(s.data, base + 12),
        reader::word(s.data, base + 16),
        reader::word(s.data, base + 24),
    ) {
        (Ok(class), Ok(sup), Ok(ifaces), Ok(file), Ok(data)) => match interfaces_at(s, ifaces) {
            Err(e) => Err(e),
            Ok(interfaces) => {
                let members = if data == 0 {
                    Ok((Seq::<MethodV>::empty(), acc))
                } else {
                    data_at(s, data as int, file_of(s, file), acc)
                };
                match members {
                    Err(e) => Err(e),
                    Ok((methods, acc)) => Ok(
                        (
                            ClassV {
                                descriptor: s.dotted(class as int),
                                super_class: if sup == NO_INDEX {
                                    None
                                } else {
                                    Some(s.dotted(sup as int))
                                },
                                interfaces,
                                methods,
                            },
                            acc,
                        ),
                    ),
                }
            },
        },
        (Err(e), _, _, _, _) => Err(e),
        (_, Err(e), _, _, _) => Err(e),
        (_, _, Err(e), _, _) => Err(e),
        (_, _, _, Err(e), _) => Err(e),
        (_, _, _, _, Err(e)) => Err(e),
    }
}

/// The classes from the `k`th on, behind `cs`, and the final and volatile fields behind
/// `acc`.
pub open spec fn classes_from(
    s: SectionV,
    k: int,
    cs: Seq<ClassV>,
    acc: Seq<Seq<char>>,
) -> Result<(Seq<ClassV>, Seq<Seq<char>>), DexError>
    decreases s.class_defs_size - k,
{
    if k >= s.class_defs_size {
        Ok((cs, acc))
    } else {
        match class_at(s, k, acc) {
            Err(e) => Err(e),
            Ok((c, acc)) => classes_from(s, k + 1, cs.push(c), acc),
        }
    }
}

fn skip_numbers(rd: &mut Reader, n: u32) -> (r: Result<(), DexError>)
    ensures
        final(rd).data == old(rd).data,
        match r {
            Ok(_) => skip(old(rd).data@, old(rd).pos as int, n as nat) == Ok::<int, DexError>(
                final(rd).pos as int,
            ),
            Err(e) => skip(old(rd).data@, old(rd).pos as int, n as nat) == Err::<int, DexError>(e),
        },
        final(rd).pos >= old(rd).pos,
        old(rd).pos <= old(rd).data@.len() && r is Ok ==> final(rd).pos <= old(rd).data@.len(),
{
    let ghost d = rd.data@;
    let ghost start = rd.pos as int;
    let mut k: u32 = 0;
    while k < n
        invariant
            k <= n,
            rd.data == old(rd).data,
            d == rd.data@,
            start == old(rd).pos,
            rd.pos >= start,
            start <= d.len() ==> rd.pos <= d.len(),
            skip(d, start, n as nat) == skip(d, rd.pos as int, (n - k) as nat),
        decreases n - k,
    {
        match rd.uleb128() {
            Err(e) => {
                return Err(e);
            },
            Ok(_) => {},
        }
        k += 1;
    }
    Ok(())
}

fn pairs_or_none(r: Result<Vec<(u32, u32)>, DexError>) -> (o: Vec<(u32, u32)>)
    ensures
        o@ == match r {
            Ok(v) => v@,
            Err(_) => Seq::empty(),
        },
{
    match r {
        Ok(v) => v,
        Err(_) => Vec::new(),
    }
}

fn triples_or_none(r: Result<Vec<(u32, u32, u32)>, DexError>) -> (o: Vec<(u32, u32, u32)>)
    ensures
        o@ == match r {
            Ok(v) => v@,
            Err(_) => Seq::empty(),
        },
{
    match r {
        Ok(v) => v,
        Err(_) => Vec::new(),
    }
}

fn typed_handlers(
    rd: &mut Reader,
    n: u32,
    start: u32,
    end: u32,
    out: &mut Vec<(u32, u32, u32)>,
) -> (r: Result<(), DexError>)
    ensures
        final(rd).data == old(rd).data,
        match r {
            Ok(_) => handlers_from(
                old(rd).data@,
                old(rd).pos as int,
                n as nat,
                start,
                end,
                old(out)@,
            ) == Ok::<(Seq<(u32, u32, u32)>, int), DexError>((final(out)@, final(rd).pos as int)),
            Err(e) => handlers_from(
                old(rd).data@,
                old(rd).pos as int,
                n as nat,
                start,
                end,
                old(out)@,
            ) == Err::<(Seq<(u32, u32, u32)>, int), DexError>(e),
        },
{
    let ghost d = rd.data@;
    let ghost at = rd.pos as int;
    let ghost begin = out@;
    let mut k: u32 = 0;
    while k < n
        invariant
            k <= n,
            rd.data == old(rd).data,
            d == rd.data@,
            at == old(rd).pos,
            begin == old(out)@,
            handlers_from(d, at, n as nat, start, end, begin) == handlers_from(
                d,
                rd.pos as int,
                (n - k) as nat,
                start,
                end,
                out@,
            ),
        decreases n - k,
    {
        match rd.uleb128() {
            Err(e) => {
                return Err(e);
            },
            Ok(_) => {},
        }
        match rd.uleb128() {
            Err(e) => {
                return Err(e);
            },
            Ok(h) => out.push((start, end, h)),
        }
        k += 1;
    }
    Ok(())
}

impl<'a> Section<'a> {
    /// A reader at `pos`, or the error that a read there gives.
    fn reader_at(&self, pos: u64) -> (r: Result<Reader<'a>, DexError>)
        ensures
            match r {
                Ok(rd) => rd.data == self.data && rd.pos == pos,
                Err(e) => pos > self.data@.len() && e == reader::past(self.data@, pos as int, 1),
            },
    {
        let n = self.data.len();
        if pos > n as u64 {
            return Err(DexError::Past { pos, n: 1, len: n as u64 });
        }
        Ok(Reader { data: self.data, pos: pos as usize })
    }

    /// The handlers of one try, whose list stands at `at`.
    fn handlers(&self, at: u64, start: u32, end: u32, acc: Vec<(u32, u32, u32)>) -> (r: Result<
        Vec<(u32, u32, u32)>,
        DexError,
    >)
        ensures
            match r {
                Ok(v) => handlers_at(self.data@, at as int, start, end, acc@) == Ok::<
                    Seq<(u32, u32, u32)>,
                    DexError,
                >(v@),
                Err(e) => handlers_at(self.data@, at as int, start, end, acc@) == Err::<
                    Seq<(u32, u32, u32)>,
                    DexError,
                >(e),
            },
    {
        let mut out = acc;
        let mut h = match self.reader_at(at) {
            Err(e) => {
                return Err(e);
            },
            Ok(h) => h,
        };
        let size = match h.sleb128() {
            Err(e) => {
                return Err(e);
            },
            Ok(x) => x,
        };
        let n: u32 = if size < 0 {
            (-(size as i64)) as u32
        } else {
            size as u32
        };
        match typed_handlers(&mut h, n, start, end, &mut out) {
            Err(e) => {
                return Err(e);
            },
            Ok(_) => {},
        }
        if size <= 0 {
            match h.uleb128() {
                Err(e) => {
                    return Err(e);
                },
                Ok(x) => out.push((start, end, x)),
            }
        }
        Ok(out)
    }

    /// The try items and their encoded handlers: every `(start, end, handler)` in
    /// code units, catch-all included. `off` is the (4-aligned) try list.
    pub fn catches(&self, off: u64, n: u16) -> (r: Result<Vec<(u32, u32, u32)>, DexError>)
        requires
            off <= 0x10_0000_0000,
        ensures
            match r {
                Ok(v) => tries_from(self.data@, off as int, n as int, 0, Seq::empty()) == Ok::<
                    Seq<(u32, u32, u32)>,
                    DexError,
                >(v@),
                Err(e) => tries_from(self.data@, off as int, n as int, 0, Seq::empty()) == Err::<
                    Seq<(u32, u32, u32)>,
                    DexError,
                >(e),
            },
    {
        let ghost d = self.data@;
        let list = off + n as u64 * 8;
        let mut out: Vec<(u32, u32, u32)> = Vec::new();
        let mut t: u16 = 0;
        while t < n
            invariant
                t <= n,
                d == self.data@,
                off <= 0x10_0000_0000,
                list == off + n * 8,
                tries_from(d, off as int, n as int, 0, Seq::empty()) == tries_from(
                    d,
                    off as int,
                    n as int,
                    t as int,
                    out@,
                ),
            decreases n - t,
        {
            let base = off + t as u64 * 8;
            let start = match reader::word_at(self.data, base) {
                Err(e) => {
                    return Err(e);
                },
                Ok(x) => x,
            };
            let count = match reader::half_at(self.data, base + 4) {
                Err(e) => {
                    return Err(e);
                },
                Ok(x) => x,
            };
            let h = match reader::half_at(self.data, base + 6) {
                Err(e) => {
                    return Err(e);
                },
                Ok(x) => x,
            };
            match self.handlers(list + h as u64, start, wrapping(start, count as u32), out) {
                Err(e) => {
                    return Err(e);
                },
                Ok(x) => {
                    out = x;
                },
            }
            t += 1;
        }
        Ok(out)
    }

    /// Debug line program -> `(code_offset, line)`.
    pub fn debug_positions(&self, off: u32) -> (r: Result<Vec<(u32, u32)>, DexError>)
        ensures
            match r {
                Ok(v) => debug_at(self.data@, off as int) == Ok::<Seq<(u32, u32)>, DexError>(v@),
                Err(e) => debug_at(self.data@, off as int) == Err::<Seq<(u32, u32)>, DexError>(e),
            },
    {
        let ghost d = self.data@;
        let mut rd = Reader { data: self.data, pos: off as usize };
        let first = match rd.uleb128() {
            Err(e) => {
                return Err(e);
            },
            Ok(x) => x,
        };
        let params = match rd.uleb128() {
            Err(e) => {
                return Err(e);
            },
            Ok(x) => x,
        };
        match skip_numbers(&mut rd, params) {
            Err(e) => {
                return Err(e);
            },
            Ok(_) => {},
        }
        let ghost start = rd.pos as int;
        let mut line: i128 = first as i128;
        let mut addr: u32 = 0;
        let mut out: Vec<(u32, u32)> = Vec::new();
        loop
            invariant
                d == self.data@,
                rd.data@ == d,
                0 <= start <= rd.pos,
                rd.pos <= d.len(),
                -0x8000_0000 * (rd.pos - start) <= line,
                line <= 0x1_0000_0000 + 0x8000_0000 * (rd.pos - start),
                debug_at(d, off as int) == debug_from(d, rd.pos as int, line as int, addr, out@),
            decreases d.len() - rd.pos,
        {
            let op = match rd.u8() {
                Err(e) => {
                    return Err(e);
                },
                Ok(x) => x,
            };
            proof {
                lemma_lebs_move(d, rd.pos as int);
                lemma_skip_moves(d, rd.pos as int, operands(op));
                assert(usize::MAX <= 0xffff_ffff_ffff_ffff);
                assert(0 <= rd.pos - start <= 0xffff_ffff_ffff_ffff);
                assert(-0x8000_0000 * 0xffff_ffff_ffff_ffff <= line);
                assert(line <= 0x1_0000_0000 + 0x8000_0000 * 0xffff_ffff_ffff_ffff);
            }
            if op == 0 {
                return Ok(out);
            } else if op == 1 {
                match rd.uleb128() {
                    Err(e) => {
                        return Err(e);
                    },
                    Ok(v) => {
                        addr = wrapping(addr, v);
                    },
                }
            } else if op == 2 {
                match rd.sleb128() {
                    Err(e) => {
                        return Err(e);
                    },
                    Ok(v) => {
                        line = line + v as i128;
                    },
                }
            } else if op < 0x0a {
                let n: u32 = if op == 3 {
                    3
                } else if op == 4 {
                    4
                } else if op == 5 || op == 6 || op == 9 {
                    1
                } else {
                    0
                };
                match skip_numbers(&mut rd, n) {
                    Err(e) => {
                        return Err(e);
                    },
                    Ok(_) => {},
                }
            } else {
                let adjusted = op - 0x0a;
                addr = wrapping(addr, (adjusted / 15) as u32);
                line = line - 4 + (adjusted % 15) as i128;
                if line >= 0 {
                    out.push(
                        (
                            addr,
                            #[verifier::truncate]
                            (line as u32),
                        ),
                    );
                }
            }
        }
    }

    /// The method body at `off`.
    pub fn parse_code(&self, off: u32) -> (r: Result<Code, DexError>)
        requires
            self.wf(),
        ensures
            code::same_result(r, code_at(self.deep_view(), off as int)),
    {
        let ghost s = self.deep_view();
        let d = self.data;
        let at = off as u64;
        let registers = match reader::half_at(d, at) {
            Err(e) => {
                return Err(e);
            },
            Ok(x) => x,
        };
        let ins = match reader::half_at(d, at + 2) {
            Err(e) => {
                return Err(e);
            },
            Ok(x) => x,
        };
        let debug = match reader::word_at(d, at + 8) {
            Err(e) => {
                return Err(e);
            },
            Ok(x) => x,
        };
        let n = match reader::word_at(d, at + 12) {
            Err(e) => {
                return Err(e);
            },
            Ok(x) => x,
        };
        let start = at + 16;
        let mut units: Vec<u16> = Vec::new();
        let mut k: u32 = 0;
        while k < n
            invariant
                k <= n,
                units@.len() == k,
                start == off + 16,
                at == off,
                d@ == s.data,
                reader::half(s.data, off as int) == Ok::<u16, DexError>(registers),
                reader::half(s.data, off + 2) == Ok::<u16, DexError>(ins),
                reader::word(s.data, off + 8) == Ok::<u32, DexError>(debug),
                reader::word(s.data, off + 12) == Ok::<u32, DexError>(n),
                s == self.deep_view(),
                units_from(s.data, start as int, n as int, 0, Seq::empty()) == units_from(
                    s.data,
                    start as int,
                    n as int,
                    k as int,
                    units@,
                ),
            decreases n - k,
        {
            match reader::half_at(d, start + k as u64 * 2) {
                Err(e) => {
                    return Err(e);
                },
                Ok(u) => units.push(u),
            }
            k += 1;
        }
        let insns = match self.decode_all(&units) {
            Err(e) => {
                return Err(e);
            },
            Ok(x) => x,
        };
        let positions = if debug == 0 {
            Vec::new()
        } else {
            pairs_or_none(self.debug_positions(debug))
        };
        let tries = match reader::half_at(d, at + 6) {
            Err(e) => {
                return Err(e);
            },
            Ok(x) => x,
        };
        let catches = if tries == 0 {
            Vec::new()
        } else {
            let pad: u64 = if n % 2 == 1 {
                2
            } else {
                0
            };
            triples_or_none(self.catches(start + n as u64 * 2 + pad, tries))
        };
        Ok(
            Code {
                registers: registers as u32,
                ins: ins as u32,
                insns,
                positions,
                catches,
            },
        )
    }

    fn body(&self, off: u32) -> (r: Result<Code, DexError>)
        requires
            self.wf(),
        ensures
            code::same_result(r, body_at(self.deep_view(), off)),
    {
        if off == 0 {
            Ok(
                Code {
                    registers: 0,
                    ins: 0,
                    insns: values::empty(),
                    positions: Vec::new(),
                    catches: Vec::new(),
                },
            )
        } else {
            self.parse_code(off)
        }
    }

    fn fields(&self, rd: &mut Reader, n: u32, steady: &mut Names) -> (r: Result<(), DexError>)
        requires
            self.wf(),
            old(rd).data == self.data,
            old(steady).wf(),
        ensures
            final(rd).data == self.data,
            final(steady).wf(),
            match r {
                Ok(_) => fields_from(
                    self.deep_view(),
                    old(rd).pos as int,
                    n as int,
                    0,
                    0,
                    old(steady)@,
                ) == Ok::<(Seq<Seq<char>>, int), DexError>((final(steady)@, final(rd).pos as int)),
                Err(e) => fields_from(
                    self.deep_view(),
                    old(rd).pos as int,
                    n as int,
                    0,
                    0,
                    old(steady)@,
                ) == Err::<(Seq<Seq<char>>, int), DexError>(e),
            },
    {
        let ghost s = self.deep_view();
        let ghost at = rd.pos as int;
        let ghost begin = steady@;
        let mut idx: u32 = 0;
        let mut j: u32 = 0;
        while j < n
            invariant
                j <= n,
                self.wf(),
                s == self.deep_view(),
                rd.data == self.data,
                steady.wf(),
                at == old(rd).pos,
                begin == old(steady)@,
                fields_from(s, at, n as int, 0, 0, begin) == fields_from(
                    s,
                    rd.pos as int,
                    n as int,
                    j as int,
                    idx,
                    steady@,
                ),
            decreases n - j,
        {
            let diff = match rd.uleb128() {
                Err(e) => {
                    return Err(e);
                },
                Ok(x) => x,
            };
            idx = if j == 0 {
                diff
            } else {
                wrapping(idx, diff)
            };
            let access = match rd.uleb128() {
                Err(e) => {
                    return Err(e);
                },
                Ok(x) => x,
            };
            if access / 0x10 % 2 == 1 || access / 0x40 % 2 == 1 {
                match self.field(idx) {
                    Err(e) => {
                        return Err(e);
                    },
                    Ok((class, name, _)) => {
                        let key = text::cat3(class.as_str(), ".", name.as_str());
                        steady.intern(key.as_str());
                    },
                }
            }
            j += 1;
        }
        Ok(())
    }

    fn members(
        &self,
        rd: &mut Reader,
        n: u32,
        file: &Option<String>,
        out: &mut Vec<Method>,
    ) -> (r: Result<(), DexError>)
        requires
            self.wf(),
            old(rd).data == self.data,
        ensures
            final(rd).data == self.data,
            match r {
                Ok(_) => methods_from(
                    self.deep_view(),
                    file.deep_view(),
                    old(rd).pos as int,
                    n as int,
                    0,
                    0,
                    old(out).deep_view(),
                ) == Ok::<(Seq<MethodV>, int), DexError>(
                    (final(out).deep_view(), final(rd).pos as int),
                ),
                Err(e) => methods_from(
                    self.deep_view(),
                    file.deep_view(),
                    old(rd).pos as int,
                    n as int,
                    0,
                    0,
                    old(out).deep_view(),
                ) == Err::<(Seq<MethodV>, int), DexError>(e),
            },
    {
        let ghost s = self.deep_view();
        let ghost fv = file.deep_view();
        let ghost at = rd.pos as int;
        let ghost begin = out.deep_view();
        let mut idx: u32 = 0;
        let mut j: u32 = 0;
        while j < n
            invariant
                j <= n,
                self.wf(),
                s == self.deep_view(),
                fv == file.deep_view(),
                rd.data == self.data,
                at == old(rd).pos,
                begin == old(out).deep_view(),
                methods_from(s, fv, at, n as int, 0, 0, begin) == methods_from(
                    s,
                    fv,
                    rd.pos as int,
                    n as int,
                    j as int,
                    idx,
                    out.deep_view(),
                ),
            decreases n - j,
        {
            let diff = match rd.uleb128() {
                Err(e) => {
                    return Err(e);
                },
                Ok(x) => x,
            };
            idx = if j == 0 {
                diff
            } else {
                wrapping(idx, diff)
            };
            let access = match rd.uleb128() {
                Err(e) => {
                    return Err(e);
                },
                Ok(x) => x,
            };
            let off = match rd.uleb128() {
                Err(e) => {
                    return Err(e);
                },
                Ok(x) => x,
            };
            let (class, name, sig) = match self.method(idx) {
                Err(e) => {
                    return Err(e);
                },
                Ok(x) => x,
            };
            let c = match self.body(off) {
                Err(e) => {
                    return Err(e);
                },
                Ok(x) => x,
            };
            let m = Method {
                class,
                name,
                sig,
                access,
                registers: c.registers,
                ins: c.ins,
                insns: c.insns,
                positions: c.positions,
                catches: c.catches,
                source_file: file.dup(),
            };
            values::push(out, m);
            j += 1;
        }
        Ok(())
    }

    /// What the class data at `off` holds; the final and volatile fields go to `steady`.
    pub fn parse_class_data(&self, off: u32, file: &Option<String>, steady: &mut Names) -> (r:
        Result<Vec<Method>, DexError>)
        requires
            self.wf(),
            old(steady).wf(),
        ensures
            final(steady).wf(),
            match r {
                Ok(ms) => data_at(self.deep_view(), off as int, file.deep_view(), old(steady)@)
                    == Ok::<(Seq<MethodV>, Seq<Seq<char>>), DexError>(
                    (ms.deep_view(), final(steady)@),
                ),
                Err(e) => data_at(self.deep_view(), off as int, file.deep_view(), old(steady)@)
                    == Err::<(Seq<MethodV>, Seq<Seq<char>>), DexError>(e),
            },
    {
        let mut rd = Reader { data: self.data, pos: off as usize };
        let statics = match rd.uleb128() {
            Err(e) => {
                return Err(e);
            },
            Ok(x) => x,
        };
        let instances = match rd.uleb128() {
            Err(e) => {
                return Err(e);
            },
            Ok(x) => x,
        };
        let direct = match rd.uleb128() {
            Err(e) => {
                return Err(e);
            },
            Ok(x) => x,
        };
        let virtuals = match rd.uleb128() {
            Err(e) => {
                return Err(e);
            },
            Ok(x) => x,
        };
        match self.fields(&mut rd, statics, steady) {
            Err(e) => {
                return Err(e);
            },
            Ok(_) => {},
        }
        match self.fields(&mut rd, instances, steady) {
            Err(e) => {
                return Err(e);
            },
            Ok(_) => {},
        }
        let mut out: Vec<Method> = values::empty();
        match self.members(&mut rd, direct, file, &mut out) {
            Err(e) => {
                return Err(e);
            },
            Ok(_) => {},
        }
        match self.members(&mut rd, virtuals, file, &mut out) {
            Err(e) => {
                return Err(e);
            },
            Ok(_) => {},
        }
        Ok(out)
    }

    fn interfaces(&self, off: u32) -> (r: Result<Vec<String>, DexError>)
        ensures
            code::same_result(r, interfaces_at(self.deep_view(), off)),
    {
        let ghost s = self.deep_view();
        let mut out: Vec<String> = values::empty();
        if off == 0 {
            return Ok(out);
        }
        let n = match reader::word_at(self.data, off as u64) {
            Err(e) => {
                return Err(e);
            },
            Ok(x) => x,
        };
        let mut j: u32 = 0;
        while j < n
            invariant
                j <= n,
                off != 0,
                s == self.deep_view(),
                reader::word(s.data, off as int) == Ok::<u32, DexError>(n),
                interfaces_from(s, off as int, n as int, 0, Seq::empty()) == interfaces_from(
                    s,
                    off as int,
                    n as int,
                    j as int,
                    out.deep_view(),
                ),
            decreases n - j,
        {
            match reader::half_at(self.data, off as u64 + 4 + j as u64 * 2) {
                Err(e) => {
                    return Err(e);
                },
                Ok(t) => {
                    let name = self.type_dotted(t as u32);
                    values::push(&mut out, name);
                },
            }
            j += 1;
        }
        Ok(out)
    }

    /// Class `k`; its final and volatile fields go to `steady`.
    pub fn parse_class(&self, k: u32, steady: &mut Names) -> (r: Result<Class, DexError>)
        requires
            self.wf(),
            old(steady).wf(),
        ensures
            final(steady).wf(),
            match r {
                Ok(c) => class_at(self.deep_view(), k as int, old(steady)@) == Ok::<
                    (ClassV, Seq<Seq<char>>),
                    DexError,
                >((c.deep_view(), final(steady)@)),
                Err(e) => class_at(self.deep_view(), k as int, old(steady)@) == Err::<
                    (ClassV, Seq<Seq<char>>),
                    DexError,
                >(e),
            },
    {
        let d = self.data;
        let base = self.class_defs_off + k as u64 * 32;
        let class = match reader::word_at(d, base) {
            Err(e) => {
                return Err(e);
            },
            Ok(x) => x,
        };
        let sup = match reader::word_at(d, base + 8) {
            Err(e) => {
                return Err(e);
            },
            Ok(x) => x,
        };
        let ifaces = match reader::word_at(d, base + 12) {
            Err(e) => {
                return Err(e);
            },
            Ok(x) => x,
        };
        let file = match reader::word_at(d, base + 16) {
            Err(e) => {
                return Err(e);
            },
            Ok(x) => x,
        };
        let data = match reader::word_at(d, base + 24) {
            Err(e) => {
                return Err(e);
            },
            Ok(x) => x,
        };
        let super_class = if sup == NO_INDEX {
            None
        } else {
            Some(self.type_dotted(sup))
        };
        let source_file = if file == NO_INDEX {
            None
        } else {
            Some(self.s(file).to_string())
        };
        let interfaces = match self.interfaces(ifaces) {
            Err(e) => {
                return Err(e);
            },
            Ok(x) => x,
        };
        let methods = if data == 0 {
            values::empty()
        } else {
            match self.parse_class_data(data, &source_file, steady) {
                Err(e) => {
                    return Err(e);
                },
                Ok(x) => x,
            }
        };
        Ok(Class { descriptor: self.type_dotted(class), super_class, interfaces, methods })
    }

    /// Every class, behind `classes`; the final and volatile fields go to `steady`.
    pub fn run(&self, classes: &mut Vec<Class>, steady: &mut Names) -> (r: Result<(), DexError>)
        requires
            self.wf(),
            old(steady).wf(),
        ensures
            final(steady).wf(),
            match r {
                Ok(_) => classes_from(
                    self.deep_view(),
                    0,
                    old(classes).deep_view(),
                    old(steady)@,
                ) == Ok::<(Seq<ClassV>, Seq<Seq<char>>), DexError>(
                    (final(classes).deep_view(), final(steady)@),
                ),
                Err(e) => classes_from(
                    self.deep_view(),
                    0,
                    old(classes).deep_view(),
                    old(steady)@,
                ) == Err::<(Seq<ClassV>, Seq<Seq<char>>), DexError>(e),
            },
    {
        let ghost s = self.deep_view();
        let ghost cs = classes.deep_view();
        let ghost fs = steady@;
        let n = self.class_defs_size;
        let mut k: u32 = 0;
        while (k as u64) < n
            invariant
                k <= n,
                n <= 0xffff_ffff,
                n == self.class_defs_size,
                self.wf(),
                steady.wf(),
                s == self.deep_view(),
                cs == old(classes).deep_view(),
                fs == old(steady)@,
                classes_from(s, 0, cs, fs) == classes_from(
                    s,
                    k as int,
                    classes.deep_view(),
                    steady@,
                ),
            decreases n - k,
        {
            match self.parse_class(k, steady) {
                Err(e) => {
                    return Err(e);
                },
                Ok(c) => {
                    values::push(classes, c);
                },
            }
            k += 1;
        }
        Ok(())
    }
}

} // verus!

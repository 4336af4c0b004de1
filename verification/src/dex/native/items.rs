//! Where the parts of a DEX file stand, and what is read from there.

use crate::bytes;
use crate::dex::model::{ClassV, DexV, InsnV, MethodV};
use crate::dex::native::class;
use crate::dex::native::class::CodeV;
use crate::dex::native::code;
use crate::dex::native::image;
use crate::dex::native::reader;
use crate::dex::native::reader::DexError;
use crate::dex::native::section;
use crate::dex::native::section::SectionV;
use crate::names;
use vstd::prelude::*;

verus! {

/// Numbers are stored with the low byte first, and none reaches past the end.
pub proof fn law_numbers_are_little_endian(
    head: Seq<u8>,
    a: u8,
    b: u8,
    c: u8,
    e: u8,
    tail: Seq<u8>,
    off: int,
)
    ensures
        reader::half(head + seq![a, b] + tail, head.len() as int) == Ok::<u16, DexError>(
            (a + 256 * b) as u16,
        ),
        reader::word(head + seq![a, b, c, e] + tail, head.len() as int) == Ok::<u32, DexError>(
            (a + 256 * b + 65536 * c + 16777216 * e) as u32,
        ),
        reader::half(head, off) is Err <==> off + 2 > head.len(),
        reader::word(head, off) is Err <==> off + 4 > head.len(),
{
    let d = head + seq![a, b] + tail;
    let n = head.len() as int;
    assert(d[n] == a && d[n + 1] == b);
    let w = head + seq![a, b, c, e] + tail;
    assert(w[n] == a && w[n + 1] == b && w[n + 2] == c && w[n + 3] == e);
}

/// A signed LEB128 number: seven bits a byte, the low ones first, until the rest fits into six
/// bits and a sign.
pub open spec fn sleb_bytes(v: int) -> Seq<u8>
    decreases
            if v < 0 {
                -v
            } else {
                v
            },
{
    if -64 <= v < 64 {
        seq![(v % 128) as u8]
    } else {
        seq![(v % 128 + 128) as u8] + sleb_bytes(v / 128)
    }
}

/// What a one in the `i`th byte counts.
spec fn unit(i: int) -> int {
    if i == 0 {
        1
    } else if i == 1 {
        0x80
    } else if i == 2 {
        0x4000
    } else if i == 3 {
        0x20_0000
    } else {
        0x1000_0000
    }
}

proof fn lemma_sleb(head: Seq<u8>, v: int, tail: Seq<u8>, i: int, acc: int)
    requires
        0 <= i <= 4,
        0 <= acc < unit(i),
        i32::MIN <= acc + v * unit(i) <= i32::MAX,
    ensures
        reader::sleb_from(head + sleb_bytes(v) + tail, head.len() as int, i, acc) == Ok::<
            (i32, int),
            DexError,
        >(((acc + v * unit(i)) as i32, (head.len() + sleb_bytes(v).len()) as int)),
    decreases 4 - i,
{
    let b = head + sleb_bytes(v) + tail;
    let n = head.len() as int;
    assert(b[n] == sleb_bytes(v)[0]);
    let w = unit(i);
    assert(v * w == if i == 0 {
        v
    } else if i == 1 {
        v * 0x80
    } else if i == 2 {
        v * 0x4000
    } else if i == 3 {
        v * 0x20_0000
    } else {
        v * 0x1000_0000
    }) by (nonlinear_arith)
        requires
            i == 0 ==> w == 1,
            i == 1 ==> w == 0x80,
            i == 2 ==> w == 0x4000,
            i == 3 ==> w == 0x20_0000,
            i != 0 && i != 1 && i != 2 && i != 3 ==> w == 0x1000_0000,
    ;
    if -64 <= v < 64 {
        let x = (v % 128) as u8;
        assert(b[n] == x);
    } else {
        let first = (v % 128 + 128) as u8;
        let rest = sleb_bytes(v / 128);
        let next = head.push(first);
        assert(sleb_bytes(v) =~= seq![first] + rest);
        assert(b =~= next + rest + tail);
        assert(i < 4);
        assert(reader::scaled(first, i) == (v % 128) * unit(i));
        assert(v * unit(i) == (v % 128) * unit(i) + (v / 128) * unit(i + 1));
        lemma_sleb(next, v / 128, tail, i + 1, acc + reader::scaled(first, i));
        assert(reader::sleb_from(b, n, i, acc) == reader::sleb_from(
            b,
            n + 1,
            i + 1,
            acc + reader::scaled(first, i),
        ));
    }
}

/// A number that was written as signed LEB128 reads back, whatever stands around it.
pub proof fn law_sleb_reads_back(head: Seq<u8>, v: i32, tail: Seq<u8>)
    ensures
        reader::sleb(head + sleb_bytes(v as int) + tail, head.len() as int) == Ok::<
            (i32, int),
            DexError,
        >((v, (head.len() + sleb_bytes(v as int).len()) as int)),
{
    lemma_sleb(head, v as int, tail, 0, 0);
}

/// The identifier of a field is its class, its type and its name; that of a method its class,
/// its prototype and its name.
pub proof fn law_identifiers_name_their_parts(s: SectionV, i: int)
    requires
        0 <= i,
    ensures
        ({
            let at = s.field_ids_off + 8 * i;
            s.field_ids_off >= 0 && at + 8 <= s.data.len() ==> s.field(i) == Ok::<
                (Seq<char>, Seq<char>, Seq<char>),
                DexError,
            >(
                (
                    s.dotted(bytes::le16(s.data, at)),
                    s.string(bytes::le32(s.data, at + 4)),
                    s.dotted(bytes::le16(s.data, at + 2)),
                ),
            )
        }),
        ({
            let at = s.method_ids_off + 8 * i;
            s.method_ids_off >= 0 && at + 8 <= s.data.len() ==> s.method(i) == match s.proto(
                bytes::le16(s.data, at + 2),
            ) {
                Ok(sig) => Ok(
                    (
                        s.dotted(bytes::le16(s.data, at)),
                        s.string(bytes::le32(s.data, at + 4)),
                        sig,
                    ),
                ),
                Err(e) => Err::<(Seq<char>, Seq<char>, Seq<char>), DexError>(e),
            }
        }),
{
}

proof fn lemma_params(s: SectionV, off: int, n: int, k: int, acc: Seq<char>)
    requires
        0 <= k <= n,
        0 <= off,
    ensures
        section::params_from(s, off, n + 1, k, acc) == match section::params_from(s, off, n, k, acc) {
            Err(e) => Err(e),
            Ok(p) => match reader::half(s.data, off + 4 + 2 * n) {
                Err(e) => Err(e),
                Ok(t) => Ok(p + s.descriptor(t as int)),
            },
        },
    decreases n - k,
{
    if k < n {
        match reader::half(s.data, off + 4 + k * 2) {
            Err(e) => {},
            Ok(t) => {
                lemma_params(s, off, n, k + 1, acc + s.descriptor(t as int));
            },
        }
    } else {
        match reader::half(s.data, off + 4 + k * 2) {
            Err(e) => {},
            Ok(t) => {
                assert(section::params_from(s, off, n + 1, k, acc) == section::params_from(
                    s,
                    off,
                    n + 1,
                    k + 1,
                    acc + s.descriptor(t as int),
                ));
            },
        }
    }
}

/// The descriptor of a prototype is its parameters in brackets, in order and with nothing
/// between, and its return type.
pub proof fn law_prototypes_list_their_parameters(s: SectionV, i: int, off: int, n: int, acc: Seq<char>)
    requires
        0 <= i,
        0 <= off,
        0 <= n,
        s.proto_ids_off >= 0,
        s.proto_ids_off + 12 * i + 12 <= s.data.len(),
    ensures
        ({
            let at = s.proto_ids_off + 12 * i;
            let list = bytes::le32(s.data, at + 8);
            let ret = s.descriptor(bytes::le32(s.data, at + 4));
            &&& list == 0 ==> s.proto(i) == Ok::<Seq<char>, DexError>("("@ + ")"@ + ret)
            &&& list != 0 && list + 4 <= s.data.len() ==> s.proto(i) == match section::params_from(
                s,
                list,
                bytes::le32(s.data, list),
                0,
                "("@,
            ) {
                Ok(p) => Ok(p + ")"@ + ret),
                Err(e) => Err::<Seq<char>, DexError>(e),
            }
        }),
        section::params_from(s, off, 0, 0, acc) == Ok::<Seq<char>, DexError>(acc),
        off + 4 + 2 * n + 2 <= s.data.len() ==> (section::params_from(s, off, n, 0, acc) matches Ok(p)
            ==> section::params_from(s, off, n + 1, 0, acc) == Ok::<Seq<char>, DexError>(
            p + s.descriptor(bytes::le16(s.data, off + 4 + 2 * n)),
        )),
{
    lemma_params(s, off, n, 0, acc);
}

/// What a class definition says: its type, its superclass and its source file, unless the
/// index says that there is none, its interfaces, and its members, unless it has no data.
pub proof fn law_class_definitions_name_their_parts(s: SectionV, k: int, acc: Seq<Seq<char>>)
    requires
        0 <= k,
        s.class_defs_off >= 0,
        s.class_defs_off + 32 * k + 32 <= s.data.len(),
    ensures
        ({
            let at = s.class_defs_off + 32 * k;
            let sup = bytes::le32(s.data, at + 8);
            let src = bytes::le32(s.data, at + 16);
            let data = bytes::le32(s.data, at + 24);
            let file = if src == 0xffff_ffff {
                None
            } else {
                Some(s.string(src))
            };
            class::class_at(s, k, acc) matches Ok((c, r)) ==> {
                &&& c.descriptor == s.dotted(bytes::le32(s.data, at))
                &&& c.super_class == if sup == 0xffff_ffff {
                    None
                } else {
                    Some(s.dotted(sup))
                }
                &&& class::interfaces_at(s, bytes::le32(s.data, at + 12) as u32) == Ok::<_, DexError>(
                    c.interfaces,
                )
                &&& data == 0 ==> c.methods.len() == 0 && r == acc
                &&& data != 0 ==> class::data_at(s, data, file, acc) == Ok::<_, DexError>((c.methods, r))
            }
        }),
{
}

proof fn lemma_interfaces(s: SectionV, off: int, n: int, j: int, acc: Seq<Seq<char>>)
    requires
        0 <= j <= n,
        0 <= off,
        acc.len() == j,
        forall|i: int| 0 <= i < j ==> #[trigger] acc[i] == s.dotted(bytes::le16(s.data, off + 4 + 2 * i)),
    ensures
        class::interfaces_from(s, off, n, j, acc) matches Ok(r) ==> r.len() == n && forall|i: int|
            0 <= i < n ==> #[trigger] r[i] == s.dotted(bytes::le16(s.data, off + 4 + 2 * i)),
    decreases n - j,
{
    if j < n {
        match reader::half(s.data, off + 4 + j * 2) {
            Err(_) => {},
            Ok(t) => {
                lemma_interfaces(s, off, n, j + 1, acc.push(s.dotted(t as int)));
            },
        }
    }
}

/// A class has exactly the interfaces of its type list, in its order.
pub proof fn law_interfaces_are_those_of_the_list(s: SectionV, off: u32)
    ensures
        off == 0 ==> class::interfaces_at(s, off) == Ok::<Seq<Seq<char>>, DexError>(Seq::empty()),
        off != 0 ==> (class::interfaces_at(s, off) matches Ok(r) ==> r.len() == bytes::le32(
            s.data,
            off as int,
        ) && forall|i: int|
            0 <= i < r.len() ==> #[trigger] r[i] == s.dotted(
                bytes::le16(s.data, off + 4 + 2 * i),
            )),
{
    if off != 0 {
        match reader::word(s.data, off as int) {
            Err(_) => {},
            Ok(n) => {
                lemma_interfaces(s, off as int, n as int, 0, Seq::empty());
            },
        }
    }
}

/// The index of the first member of a list is stored itself, that of every other one as what it
/// is above the one before. A field is recorded by its class and its name exactly where it is
/// final or volatile.
pub proof fn law_fields_are_listed_by_difference(
    s: SectionV,
    head: Seq<u8>,
    diff: u32,
    access: u32,
    tail: Seq<u8>,
    n: int,
    j: int,
    idx: u32,
    acc: Seq<Seq<char>>,
)
    requires
        0 <= j < n,
        s.data == head + reader::uleb_bytes(diff as nat) + reader::uleb_bytes(access as nat) + tail,
        idx + diff <= u32::MAX,
    ensures
        ({
            let at = head.len() as int;
            let next = at + reader::uleb_bytes(diff as nat).len() + reader::uleb_bytes(
                access as nat,
            ).len();
            let i = if j == 0 {
                diff
            } else {
                (idx + diff) as u32
            };
            let steady = access & 0x10 != 0 || access & 0x40 != 0;
            &&& !steady ==> class::fields_from(s, at, n, j, idx, acc) == class::fields_from(
                s,
                next,
                n,
                j + 1,
                i,
                acc,
            )
            &&& steady ==> (s.field(i as int) matches Ok((class, name, _)) ==> class::fields_from(
                s,
                at,
                n,
                j,
                idx,
                acc,
            ) == class::fields_from(s, next, n, j + 1, i, names::with(acc, class + "."@ + name)))
        }),
{
    let x = reader::uleb_bytes(diff as nat);
    let y = reader::uleb_bytes(access as nat);
    assert(s.data =~= head + x + (y + tail));
    reader::law_uleb_reads_back(head, diff, y + tail);
    assert(s.data =~= (head + x) + y + tail);
    reader::law_uleb_reads_back(head + x, access, tail);
    assert((access & 0x10 != 0) == (access / 0x10 % 2 == 1)) by (bit_vector);
    assert((access & 0x40 != 0) == (access / 0x40 % 2 == 1)) by (bit_vector);
    if j > 0 {
        assert((idx + diff) % 0x1_0000_0000 == idx + diff);
    }
}

/// A method is read with its class, name and descriptor, its access flags and its body; one
/// whose code stands nowhere has no instructions.
#[verifier::rlimit(60)]
pub proof fn law_methods_are_listed_by_difference(
    s: SectionV,
    file: Option<Seq<char>>,
    at: int,
    diff: u32,
    p: int,
    access: u32,
    q: int,
    off: u32,
    next: int,
    n: int,
    j: int,
    idx: u32,
    acc: Seq<MethodV>,
)
    requires
        0 <= j < n,
        reader::uleb(s.data, at) == Ok::<(u32, int), DexError>((diff, p)),
        reader::uleb(s.data, p) == Ok::<(u32, int), DexError>((access, q)),
        reader::uleb(s.data, q) == Ok::<(u32, int), DexError>((off, next)),
        idx + diff <= u32::MAX,
    ensures
        ({
            let i = if j == 0 {
                diff
            } else {
                (idx + diff) as u32
            };
            s.method(i as int) matches Ok((class, name, sig)) ==> ((if off == 0 {
                Ok::<CodeV, DexError>(
                    CodeV {
                        registers: 0,
                        ins: 0,
                        insns: Seq::empty(),
                        positions: Seq::empty(),
                        catches: Seq::empty(),
                    },
                )
            } else {
                class::code_at(s, off as int)
            }) matches Ok(c) ==> class::methods_from(s, file, at, n, j, idx, acc) == class::methods_from(
                s,
                file,
                next,
                n,
                j + 1,
                i,
                acc.push(
                    MethodV {
                        class,
                        name,
                        sig,
                        access,
                        registers: c.registers,
                        ins: c.ins,
                        insns: c.insns,
                        positions: c.positions,
                        catches: c.catches,
                        source_file: file,
                    },
                ),
            ))
        }),
{
    if j > 0 {
        assert((idx + diff) % 0x1_0000_0000 == idx + diff);
    }
}

/// Of a class, the static fields come first, then those of its objects; of its methods the
/// direct ones, then the virtual ones.
#[verifier::rlimit(60)]
pub proof fn law_members_come_in_four_lists(
    s: SectionV,
    at: int,
    statics: u32,
    p: int,
    instances: u32,
    q: int,
    direct: u32,
    t: int,
    virtuals: u32,
    next: int,
    file: Option<Seq<char>>,
    acc: Seq<Seq<char>>,
)
    requires
        reader::uleb(s.data, at) == Ok::<(u32, int), DexError>((statics, p)),
        reader::uleb(s.data, p) == Ok::<(u32, int), DexError>((instances, q)),
        reader::uleb(s.data, q) == Ok::<(u32, int), DexError>((direct, t)),
        reader::uleb(s.data, t) == Ok::<(u32, int), DexError>((virtuals, next)),
    ensures
        class::data_at(s, at, file, acc) matches Ok((ms, fs)) ==> {
            &&& class::fields_from(s, next, statics as int, 0, 0, acc) matches Ok((a, p1))
            &&& class::fields_from(s, p1, instances as int, 0, 0, a) matches Ok((b, p2))
            &&& class::methods_from(s, file, p2, direct as int, 0, 0, Seq::empty()) matches Ok((
                c,
                p3,
            ))
            &&& class::methods_from(s, file, p3, virtuals as int, 0, 0, c) matches Ok((d, _))
            &&& ms == d && fs == b
        },
{
}

/// The line program: the number of a special opcode moves the address by a fifteenth of it, the
/// line by the rest less four, and gives an entry; two opcodes move the address and the line
/// alone; zero ends it; and every other opcode gives nothing.
pub proof fn law_line_programs_step(
    d: Seq<u8>,
    at: int,
    by: u32,
    diff: i32,
    next: int,
    line: int,
    addr: u32,
    acc: Seq<(u32, u32)>,
)
    requires
        0 <= at < d.len(),
        addr + by <= u32::MAX,
        addr + 17 <= u32::MAX,
    ensures
        d[at] == 0 ==> class::debug_from(d, at, line, addr, acc) == Ok::<Seq<(u32, u32)>, DexError>(acc),
        d[at] == 1 && reader::uleb(d, at + 1) == Ok::<(u32, int), DexError>((by, next))
            ==> class::debug_from(d, at, line, addr, acc) == class::debug_from(
            d,
            next,
            line,
            (addr + by) as u32,
            acc,
        ),
        d[at] == 2 && reader::sleb(d, at + 1) == Ok::<(i32, int), DexError>((diff, next))
            ==> class::debug_from(d, at, line, addr, acc) == class::debug_from(
            d,
            next,
            line + diff,
            addr,
            acc,
        ),
        d[at] == 7 || d[at] == 8 ==> class::debug_from(d, at, line, addr, acc) == class::debug_from(
            d,
            at + 1,
            line,
            addr,
            acc,
        ),
        (d[at] == 5 || d[at] == 6 || d[at] == 9) && reader::uleb(d, at + 1) == Ok::<
            (u32, int),
            DexError,
        >((by, next)) ==> class::debug_from(d, at, line, addr, acc) == class::debug_from(
            d,
            next,
            line,
            addr,
            acc,
        ),
        d[at] >= 10 ==> ({
            let to = (addr + (d[at] - 10) / 15) as u32;
            let l = line + (d[at] - 10) % 15 - 4;
            class::debug_from(d, at, line, addr, acc) == class::debug_from(
                d,
                at + 1,
                l,
                to,
                if l >= 0 {
                    acc.push((to, l as u32))
                } else {
                    acc
                },
            )
        }),
{
    let op = d[at];
    reveal_with_fuel(class::skip, 2);
    assert((addr + by) % 0x1_0000_0000 == addr + by);
    if op >= 10 {
        let k = (op - 10) / 15;
        assert(0 <= k <= 16);
        assert((addr + k) % 0x1_0000_0000 == addr + k);
    }
}

/// An entry of the catch table covers one of the try blocks: from its start, as many units as
/// it counts.
pub open spec fn covers_try(d: Seq<u8>, off: int, n: int, x: (u32, u32, u32)) -> bool {
    exists|t: int|
        0 <= t < n && x.0 == #[trigger] bytes::le32(d, off + 8 * t) && x.1 == (bytes::le32(
            d,
            off + 8 * t,
        ) + bytes::le16(d, off + 8 * t + 4)) % 0x1_0000_0000
}

proof fn lemma_handlers(
    d: Seq<u8>,
    pos: int,
    n: nat,
    start: u32,
    end: u32,
    acc: Seq<(u32, u32, u32)>,
)
    ensures
        class::handlers_from(d, pos, n, start, end, acc) matches Ok((r, _)) ==> {
            &&& r.len() == acc.len() + n
            &&& forall|i: int| 0 <= i < acc.len() ==> #[trigger] r[i] == acc[i]
            &&& forall|i: int| acc.len() <= i < r.len() ==> (#[trigger] r[i]).0 == start && r[i].1 == end
        },
    decreases n,
{
    if n > 0 {
        match reader::uleb(d, pos) {
            Err(_) => {},
            Ok((_, p)) => match reader::uleb(d, p) {
                Err(_) => {},
                Ok((h, q)) => {
                    let next = acc.push((start, end, h));
                    lemma_handlers(d, q, (n - 1) as nat, start, end, next);
                    match class::handlers_from(d, q, (n - 1) as nat, start, end, next) {
                        Err(_) => {},
                        Ok((r, _)) => {
                            assert(r[acc.len() as int] == next[acc.len() as int]);
                            assert forall|i: int| 0 <= i < acc.len() implies #[trigger] r[i] == acc[i] by {
                                assert(next[i] == acc[i]);
                            }
                        },
                    }
                },
            },
        }
    }
}

/// A try block has as many handlers as its list counts, and one more, for everything, exactly
/// where the count is not positive; each covers the block.
pub proof fn law_handlers_cover_their_block(
    d: Seq<u8>,
    at: int,
    start: u32,
    end: u32,
    acc: Seq<(u32, u32, u32)>,
)
    ensures
        reader::sleb(d, at) matches Ok((size, _)) ==> (class::handlers_at(d, at, start, end, acc) matches Ok(
            r,
        ) ==> {
            &&& size > 0 ==> r.len() == acc.len() + size
            &&& size <= 0 ==> r.len() == acc.len() - size + 1
            &&& forall|i: int| 0 <= i < acc.len() ==> #[trigger] r[i] == acc[i]
            &&& forall|i: int| acc.len() <= i < r.len() ==> (#[trigger] r[i]).0 == start && r[i].1 == end
        }),
{
    match reader::sleb(d, at) {
        Err(_) => {},
        Ok((size, p)) => {
            let n = if size < 0 {
                -size
            } else {
                size as int
            };
            lemma_handlers(d, p, n as nat, start, end, acc);
        },
    }
}

/// A handler stands in the catch table with the address that its list gives.
pub proof fn law_handlers_are_read_in_order(
    head: Seq<u8>,
    ty: u32,
    h: u32,
    tail: Seq<u8>,
    n: nat,
    start: u32,
    end: u32,
    acc: Seq<(u32, u32, u32)>,
)
    ensures
        ({
            let d = head + reader::uleb_bytes(ty as nat) + reader::uleb_bytes(h as nat) + tail;
            class::handlers_from(d, head.len() as int, n + 1, start, end, acc) == class::handlers_from(
                d,
                d.len() - tail.len(),
                n,
                start,
                end,
                acc.push((start, end, h)),
            )
        }),
{
    let x = reader::uleb_bytes(ty as nat);
    let y = reader::uleb_bytes(h as nat);
    let d = head + x + y + tail;
    assert(d =~= head + x + (y + tail));
    reader::law_uleb_reads_back(head, ty, y + tail);
    reader::law_uleb_reads_back(head + x, h, tail);
}

proof fn lemma_tries(d: Seq<u8>, off: int, n: int, t: int, acc: Seq<(u32, u32, u32)>)
    requires
        0 <= t <= n,
        0 <= off,
        forall|i: int| 0 <= i < acc.len() ==> covers_try(d, off, n, #[trigger] acc[i]),
    ensures
        class::tries_from(d, off, n, t, acc) matches Ok(r) ==> forall|i: int|
            0 <= i < r.len() ==> covers_try(d, off, n, #[trigger] r[i]),
    decreases n - t,
{
    if t < n {
        let base = off + t * 8;
        match (reader::word(d, base), reader::half(d, base + 4), reader::half(d, base + 6)) {
            (Ok(start), Ok(count), Ok(h)) => {
                let end = class::wrapped(start as int, count as int);
                law_handlers_cover_their_block(d, off + n * 8 + h, start, end, acc);
                match class::handlers_at(d, off + n * 8 + h, start, end, acc) {
                    Err(_) => {},
                    Ok(list) => {
                        assert(start == bytes::le32(d, off + 8 * t));
                        assert forall|i: int| 0 <= i < list.len() implies covers_try(
                            d,
                            off,
                            n,
                            #[trigger] list[i],
                        ) by {
                            if i < acc.len() {
                                assert(list[i] == acc[i]);
                            }
                        }
                        lemma_tries(d, off, n, t + 1, list);
                    },
                }
            },
            _ => {},
        }
    }
}

/// Every entry of the catch table covers a try block of the code.
pub proof fn law_catches_cover_try_blocks(d: Seq<u8>, off: int, n: int, i: int)
    requires
        0 <= n,
        0 <= off,
    ensures
        class::tries_from(d, off, n, 0, Seq::empty()) matches Ok(r) ==> (0 <= i < r.len() ==> covers_try(
            d,
            off,
            n,
            r[i],
        )),
{
    lemma_tries(d, off, n, 0, Seq::empty());
}

proof fn lemma_units(d: Seq<u8>, start: int, n: int, k: int, acc: Seq<u16>)
    requires
        0 <= k <= n,
        0 <= start,
        acc.len() == k,
        forall|i: int| 0 <= i < k ==> #[trigger] acc[i] == bytes::le16(d, start + 2 * i),
    ensures
        class::units_from(d, start, n, k, acc) matches Ok(u) ==> u.len() == n && forall|i: int|
            0 <= i < n ==> #[trigger] u[i] == bytes::le16(d, start + 2 * i),
    decreases n - k,
{
    if k < n {
        match reader::half(d, start + k * 2) {
            Err(_) => {},
            Ok(x) => {
                lemma_units(d, start, n, k + 1, acc.push(x));
            },
        }
    }
}

/// The body of a method: the registers, the arguments, the instructions of the units behind
/// its header, the line table where there is one, and the catch table behind the units, on a
/// boundary of four bytes.
pub proof fn law_code_items_are_laid_out(s: SectionV, off: int) -> (u: Seq<u16>)
    requires
        0 <= off,
        off + 16 <= s.data.len(),
    ensures
        class::code_at(s, off) matches Ok(c) ==> {
            let d = s.data;
            let n = bytes::le32(d, off + 12);
            let tries = bytes::le16(d, off + 6);
            let debug = bytes::le32(d, off + 8);
            &&& c.registers == bytes::le16(d, off)
            &&& c.ins == bytes::le16(d, off + 2)
            &&& u.len() == n
            &&& forall|i: int| 0 <= i < n ==> #[trigger] u[i] == bytes::le16(d, off + 16 + 2 * i)
            &&& code::insns_from(s, u, 0, Seq::empty()) == Ok::<_, DexError>(c.insns)
            &&& debug == 0 ==> c.positions.len() == 0
            &&& debug != 0 ==> (class::debug_at(d, debug) matches Ok(ps) ==> c.positions == ps)
            &&& debug != 0 && class::debug_at(d, debug) is Err ==> c.positions.len() == 0
            &&& tries == 0 ==> c.catches.len() == 0
            &&& tries != 0 ==> {
                let at = off + 16 + 2 * (n + n % 2);
                &&& class::tries_from(d, at, tries, 0, Seq::empty()) matches Ok(cs) ==> c.catches == cs
                &&& class::tries_from(d, at, tries, 0, Seq::empty()) is Err ==> c.catches.len() == 0
            }
        },
{
    let n = bytes::le32(s.data, off + 12);
    let r = class::units_from(s.data, off + 16, n, 0, Seq::empty());
    lemma_units(s.data, off + 16, n, 0, Seq::empty());
    match r {
        Ok(u) => {
            u
        },
        Err(_) => Seq::empty(),
    }
}

/// An instruction is read at its offset, and the next one stands as many units on as it is
/// wide; data between the instructions is passed over by the size it gives.
pub proof fn law_instructions_follow_one_another(s: SectionV, u: Seq<u16>, i: int, acc: Seq<InsnV>)
    requires
        0 <= i < u.len(),
    ensures
        ({
            let w = code::width_of((u[i] % 0x100) as u8) as int;
            u[i] % 0x100 != 0 && i + w <= u.len() ==> code::insns_from(s, u, i, acc) == match code::op_at(
                s,
                u,
                i,
            ) {
                Ok(op) => code::insns_from(
                    s,
                    u,
                    i + w,
                    acc.push(InsnV { offset: i as u32, op, writes: code::written_by(u[i]) }),
                ),
                Err(e) => Err(e),
            }
        }),
        u[i] == 0x0100 && i + 1 < u.len() && i + 4 + 2 * u[i + 1] <= u.len() ==> code::insns_from(
            s,
            u,
            i,
            acc,
        ) == code::insns_from(s, u, i + 4 + 2 * u[i + 1], acc),
        u[i] == 0x0200 && i + 1 < u.len() && i + 2 + 4 * u[i + 1] <= u.len() ==> code::insns_from(
            s,
            u,
            i,
            acc,
        ) == code::insns_from(s, u, i + 2 + 4 * u[i + 1], acc),
        u[i] == 0x0300 && i + 3 < u.len() ==> ({
            let bytes = u[i + 1] * (u[i + 2] + 0x1_0000 * u[i + 3]);
            let w = 4 + (bytes + 1) / 2;
            i + w <= u.len() ==> code::insns_from(s, u, i, acc) == code::insns_from(s, u, i + w, acc)
        }),
        code::insns_from(s, u, u.len() as int, acc) == Ok::<_, DexError>(acc),
{
    crate::dex::native::table::law_widths_by_format((u[i] % 0x100) as u8);
    if u[i] == 0x0300 && i + 3 < u.len() {
        let a = u[i + 1] as int;
        let b = u[i + 2] + 0x1_0000 * u[i + 3];
        assert(a * b == b * a && a * b >= 0) by (nonlinear_arith)
            requires
                a >= 0,
                b >= 0,
        ;
    }
}

proof fn lemma_targets(u: Seq<u16>, i: int, first: int, size: int, k: int, acc: Seq<u32>)
    requires
        0 <= k <= size,
        acc.len() == k,
        first + 2 * size <= u.len(),
        forall|j: int|
            0 <= j < k ==> #[trigger] acc[j] == code::target(i, code::signed_pair(u, first + 2 * j)),
    ensures
        ({
            let r = code::targets_from(u, i, first, size, k, acc);
            r.len() == size && forall|j: int|
                0 <= j < size ==> #[trigger] r[j] == code::target(
                    i,
                    code::signed_pair(u, first + 2 * j),
                )
        }),
    decreases size - k,
{
    if k < size {
        lemma_targets(
            u,
            i,
            first,
            size,
            k + 1,
            acc.push(code::target(i, code::signed_pair(u, first + 2 * k))),
        );
    }
}

/// A switch has as many targets as its table counts: those of a packed one stand behind its
/// first key, those of a sparse one behind its keys, each counted from the switch itself.
pub proof fn law_switches_lead_to_their_cases(u: Seq<u16>, i: int, packed: bool, p: int, k: int)
    requires
        0 <= i,
        i + 2 < u.len(),
        u.len() <= u32::MAX,
        p == i + code::signed_pair(u, i + 1),
        0 <= p,
        p + 2 <= u.len(),
        0 <= k < u[p + 1],
        packed ==> p + 4 + 2 * u[p + 1] <= u.len(),
        !packed ==> p + 2 + 4 * u[p + 1] <= u.len(),
    ensures
        ({
            let at = if packed {
                p + 4 + 2 * k
            } else {
                p + 2 + 2 * u[p + 1] + 2 * k
            };
            let low = u[at] + 0x1_0000 * u[at + 1];
            let off = if low < 0x8000_0000 {
                low
            } else {
                low - 0x1_0000_0000
            };
            let r = code::cases(u, i, packed);
            &&& r.len() == u[p + 1]
            &&& i + off >= 0 ==> r[k] == (i + off) as u32
        }),
{
    let size = u[p + 1] as int;
    let first = if packed {
        p + 4
    } else {
        p + 2 + 2 * size
    };
    lemma_targets(u, i, first, size, 0, Seq::empty());
}

/// Which instructions put a result into the register of their upper eight bits, which into that
/// of four bits, and which put none that is kept track of here.
pub proof fn law_results_land_in_the_first_register(u: u16)
    ensures
        ({
            let op = u % 256;
            let wide = op == 0x0d || 0x13 <= op < 0x1c || 0x2d <= op < 0x32 || 0x44 <= op < 0x4b || 0x90
                <= op < 0xb0 || 0xd8 <= op < 0xe3 || 0xfe <= op;
            let narrow = op == 0x12 || op == 0x20 || op == 0x21 || op == 0x23 || 0x7b <= op < 0x90
                || 0xb0 <= op < 0xd8;
            &&& wide ==> code::written_by(u) == Some((u / 256) as u32)
            &&& narrow ==> code::written_by(u) == Some((u / 256 % 16) as u32)
            &&& !wide && !narrow ==> code::written_by(u) is None
        }),
{
}

proof fn lemma_strings(d: Seq<u8>, off: int, n: int, k: int, acc: Seq<Seq<char>>)
    requires
        0 <= k <= n,
        0 <= off,
        acc.len() == k,
        forall|i: int|
            0 <= i < k ==> reader::string_data(d, bytes::le32(d, off + 4 * i)) == Ok::<
                Seq<char>,
                DexError,
            >(#[trigger] acc[i]),
    ensures
        image::strings_from(d, off, n, k, acc) matches Ok(r) ==> r.len() == n && forall|i: int|
            0 <= i < n ==> reader::string_data(d, bytes::le32(d, off + 4 * i)) == Ok::<
                Seq<char>,
                DexError,
            >(#[trigger] r[i]),
    decreases n - k,
{
    if k < n {
        match reader::word(d, off + k * 4) {
            Err(_) => {},
            Ok(at) => match reader::string_data(d, at as int) {
                Err(_) => {},
                Ok(s) => {
                    lemma_strings(d, off, n, k + 1, acc.push(s));
                },
            },
        }
    }
}

/// The strings of a file are those at the offsets of its string table, in order.
pub proof fn law_strings_are_those_of_the_table(d: Seq<u8>, off: int, n: int, i: int)
    requires
        0 <= off,
        0 <= i < n,
    ensures
        image::strings_from(d, off, n, 0, Seq::empty()) matches Ok(r) ==> r.len() == n
            && reader::string_data(d, bytes::le32(d, off + 4 * i)) == Ok::<Seq<char>, DexError>(r[i]),
{
    lemma_strings(d, off, n, 0, Seq::empty());
}

proof fn lemma_types(d: Seq<u8>, off: int, n: int, k: int, acc: Seq<u32>)
    requires
        0 <= k <= n,
        0 <= off,
        acc.len() == k,
        forall|i: int| 0 <= i < k ==> #[trigger] acc[i] == bytes::le32(d, off + 4 * i),
    ensures
        section::types_from(d, off, n, k, acc) matches Ok(r) ==> r.len() == n && forall|i: int|
            0 <= i < n ==> #[trigger] r[i] == bytes::le32(d, off + 4 * i),
    decreases n - k,
{
    if k < n {
        match reader::word(d, off + k * 4) {
            Err(_) => {},
            Ok(t) => {
                lemma_types(d, off, n, k + 1, acc.push(t));
            },
        }
    }
}

/// The header of a section says where its tables stand.
pub proof fn law_headers_locate_the_tables(d: Seq<u8>, base: int, strings: Seq<Seq<char>>, i: int)
    requires
        0 <= base,
        base + 0x70 <= d.len(),
        0 <= i,
    ensures
        section::section_at(d, base, strings) matches Ok(s) ==> {
            &&& s.data == d && s.strings == strings
            &&& s.types.len() == bytes::le32(d, base + 64)
            &&& i < s.types.len() ==> s.types[i] == bytes::le32(d, bytes::le32(d, base + 68) + 4 * i)
            &&& s.proto_ids_off == bytes::le32(d, base + 76)
            &&& s.field_ids_off == bytes::le32(d, base + 84)
            &&& s.method_ids_off == bytes::le32(d, base + 92)
            &&& s.class_defs_size == bytes::le32(d, base + 96)
            &&& s.class_defs_off == bytes::le32(d, base + 100)
        },
{
    lemma_types(
        d,
        bytes::le32(d, base + 68),
        bytes::le32(d, base + 64),
        0,
        Seq::empty(),
    );
}

/// The version of a file is the number that its three digits write.
pub proof fn law_version_is_what_the_digits_write(d: Seq<u8>)
    requires
        d.len() >= 8,
        0x30 <= d[4] <= 0x39,
        0x30 <= d[5] <= 0x39,
        0x30 <= d[6] <= 0x39,
    ensures
        image::version(d) == 100 * (d[4] - 0x30) + 10 * (d[5] - 0x30) + (d[6] - 0x30),
{
    let s = d.subrange(4, 7);
    assert(s.last() == d[6]);
    assert(s[0] == d[4] && s[1] == d[5] && s[2] == d[6]);
    assert(image::trimmed(s) == s);
    reveal_with_fuel(image::number_from, 4);
}

/// A file has the classes of all its sections, those of a later one behind those of an earlier
/// one; the next section begins as far on as the header of this one says, and the last is that
/// behind which none fits.
pub proof fn law_sections_follow_one_another(
    d: Seq<u8>,
    bound: int,
    strings: Seq<Seq<char>>,
    off: int,
    acc: DexV,
    s: SectionV,
    next: DexV,
)
    requires
        0 <= off,
        off + 0x70 <= bound <= d.len(),
        d.subrange(off, off + 4) == seq![0x64u8, 0x65, 0x78, 0x0a],
        section::section_at(d, off, strings) == Ok::<SectionV, DexError>(s),
        class::classes_from(s, 0, acc.classes, acc.final_or_volatile_fields) == Ok::<
            (Seq<ClassV>, Seq<Seq<char>>),
            DexError,
        >((next.classes, next.final_or_volatile_fields)),
    ensures
        ({
            let size = bytes::le32(d, off + 32);
            &&& size != 0 && off + size <= bound ==> image::sections_from(d, bound, strings, off, acc)
                == image::sections_from(d, bound, strings, off + size, next)
            &&& size == 0 || off + size > bound ==> image::sections_from(d, bound, strings, off, acc)
                == Ok::<DexV, DexError>(next)
        }),
{
    lemma_begins(d, off);
    lemma_with(d, strings, off, acc, s, next);
    lemma_step(d, bound, strings, off, acc, next);
}

proof fn lemma_with(
    d: Seq<u8>,
    strings: Seq<Seq<char>>,
    off: int,
    acc: DexV,
    s: SectionV,
    next: DexV,
)
    requires
        0 <= off,
        off + 0x70 <= d.len(),
        section::section_at(d, off, strings) == Ok::<SectionV, DexError>(s),
        class::classes_from(s, 0, acc.classes, acc.final_or_volatile_fields) == Ok::<
            (Seq<ClassV>, Seq<Seq<char>>),
            DexError,
        >((next.classes, next.final_or_volatile_fields)),
    ensures
        image::with_section(d, strings, off, acc) == Ok::<(DexV, u32), DexError>(
            (next, bytes::le32(d, off + 32) as u32),
        ),
{
    reveal(image::with_section);
}

proof fn lemma_step(
    d: Seq<u8>,
    bound: int,
    strings: Seq<Seq<char>>,
    off: int,
    acc: DexV,
    next: DexV,
)
    requires
        0 <= off,
        off + 0x70 <= bound <= d.len(),
        image::magic_at(d, off),
        image::with_section(d, strings, off, acc) == Ok::<(DexV, u32), DexError>(
            (next, bytes::le32(d, off + 32) as u32),
        ),
    ensures
        ({
            let size = bytes::le32(d, off + 32);
            &&& size != 0 && off + size <= bound ==> image::sections_from(d, bound, strings, off, acc)
                == image::sections_from(d, bound, strings, off + size, next)
            &&& size == 0 || off + size > bound ==> image::sections_from(d, bound, strings, off, acc)
                == Ok::<DexV, DexError>(next)
        }),
{
}

proof fn lemma_begins(d: Seq<u8>, off: int)
    requires
        0 <= off,
        off + 4 <= d.len(),
    ensures
        image::magic_at(d, off) <==> d.subrange(off, off + 4) == seq![0x64u8, 0x65, 0x78, 0x0a],
{
    let m = d.subrange(off, off + 4);
    assert(m[0] == d[off] && m[1] == d[off + 1] && m[2] == d[off + 2] && m[3] == d[off + 3]);
    if image::magic_at(d, off) {
        assert(m =~= seq![0x64u8, 0x65, 0x78, 0x0a]);
    }
}

/// Bytes are a DEX file only where they begin as one does and hold a whole header; where they
/// are not, that is the error. How far the sections reach stands in the header, in that of a
/// container behind it.
pub proof fn law_files_begin_with_the_magic(d: Seq<u8>)
    ensures
        image::image(d) == Err::<DexV, DexError>(DexError::NotDex) <== d.len() < 0x70 || d.take(4)
            != seq![0x64u8, 0x65, 0x78, 0x0a],
        d.len() >= 0x74 && d.take(4) == seq![0x64u8, 0x65, 0x78, 0x0a] ==> {
            let size = if image::version(d) >= 41 {
                bytes::le32(d, 112)
            } else {
                bytes::le32(d, 32)
            };
            let bound = if size > d.len() {
                d.len() as int
            } else {
                size
            };
            image::strings_from(d, bytes::le32(d, 60), bytes::le32(d, 56), 0, Seq::empty()) matches Ok(
                strings,
            ) ==> image::image(d) == image::sections_from(
                d,
                bound,
                strings,
                0,
                DexV { classes: Seq::empty(), final_or_volatile_fields: Seq::empty() },
            )
        },
{
    if d.len() >= 0x70 {
        lemma_begins(d, 0);
        assert(d.take(4) =~= d.subrange(0, 4));
    }
}

proof fn lemma_classes(s: SectionV, k: int, cs: Seq<ClassV>, acc: Seq<Seq<char>>)
    requires
        0 <= k,
        k <= s.class_defs_size,
    ensures
        class::classes_from(s, k, cs, acc) matches Ok((r, _)) ==> {
            &&& r.len() == cs.len() + s.class_defs_size - k
            &&& forall|i: int| 0 <= i < cs.len() ==> #[trigger] r[i] == cs[i]
            &&& forall|i: int|
                cs.len() <= i < r.len() ==> is_class(s, k + i - cs.len(), #[trigger] r[i])
        },
    decreases s.class_defs_size - k,
{
    if k < s.class_defs_size {
        match class::class_at(s, k, acc) {
            Err(_) => {},
            Ok((c, more)) => {
                let next = cs.push(c);
                lemma_classes(s, k + 1, next, more);
                match class::classes_from(s, k + 1, next, more) {
                    Err(_) => {},
                    Ok((r, _)) => {
                        assert(r[cs.len() as int] == next[cs.len() as int]);
                        assert(is_class(s, k, c));
                        assert forall|i: int| 0 <= i < cs.len() implies #[trigger] r[i] == cs[i] by {
                            assert(next[i] == cs[i]);
                        }
                    },
                }
            },
        }
    }
}

/// The class is that of the `k`th definition.
pub open spec fn is_class(s: SectionV, k: int, c: ClassV) -> bool {
    exists|acc: Seq<Seq<char>>|
        (#[trigger] class::class_at(s, k, acc) matches Ok((x, _)) && x == c)
}

/// A section has a class for each of its definitions, in order, behind those before.
pub proof fn law_sections_have_their_classes(s: SectionV, cs: Seq<ClassV>, acc: Seq<Seq<char>>, i: int)
    requires
        0 <= i < s.class_defs_size,
    ensures
        class::classes_from(s, 0, cs, acc) matches Ok((r, _)) ==> {
            &&& r.len() == cs.len() + s.class_defs_size
            &&& r.take(cs.len() as int) == cs
            &&& is_class(s, i, r[cs.len() + i])
        },
{
    lemma_classes(s, 0, cs, acc);
    match class::classes_from(s, 0, cs, acc) {
        Err(_) => {},
        Ok((r, _)) => {
            assert(r.take(cs.len() as int) =~= cs);
            assert(is_class(s, 0 + (cs.len() + i) - cs.len(), r[cs.len() + i]));
        },
    }
}

} // verus!

//! Little-endian byte reader for the DEX container: fixed-width integers, the
//! LEB128 variants DEX uses, and MUTF-8 strings.
//!
//! Every DEX offset is from the start of the file, so the reader is just a borrow
//! of the whole mapped image plus a movable position; random-access reads take an
//! absolute offset and never mutate the cursor.

use crate::bytes;
use crate::text;
use vstd::prelude::*;

verus! {

/// Why bytes are no DEX image.
#[derive(Clone, Copy, Debug, PartialEq, Eq, Structural)]
pub enum DexError {
    /// The magic is not there.
    NotDex,
    /// A sequential read of `n` bytes at `pos` passes the end.
    Past { pos: u64, n: u64, len: u64 },
    /// A 32-bit read at the offset passes the end.
    U32Past(u64),
    /// A 16-bit read at the offset passes the end.
    U16Past(u64),
    /// An unsigned LEB128 number has too many bytes.
    UlebTooLong,
    /// A signed LEB128 number has too many bytes.
    SlebTooLong,
}

impl DexError {
    /// What the error says.
    pub open spec fn says(self) -> Seq<char> {
        match self {
            DexError::NotDex => "not a dex file (bad magic)"@,
            DexError::Past { pos, n, len } => "read past end of dex ("@ + text::dec(pos as nat)
                + " + "@ + text::dec(n as nat) + " > "@ + text::dec(len as nat) + ")"@,
            DexError::U32Past(off) => "u32 read past end at "@ + text::dec(off as nat),
            DexError::U16Past(off) => "u16 read past end at "@ + text::dec(off as nat),
            DexError::UlebTooLong => "uleb128 too long"@,
            DexError::SlebTooLong => "sleb128 too long"@,
        }
    }

    /// What the error says.
    pub fn message(&self) -> (r: String)
        ensures
            r@ == self.says(),
    {
        match self {
            DexError::NotDex => "not a dex file (bad magic)".to_string(),
            DexError::Past { pos, n, len } => {
                let mut s = "read past end of dex (".to_string();
                text::push_dec(&mut s, *pos);
                s.append(" + ");
                text::push_dec(&mut s, *n);
                s.append(" > ");
                text::push_dec(&mut s, *len);
                s.append(")");
                s
            },
            DexError::U32Past(off) => {
                let mut s = "u32 read past end at ".to_string();
                text::push_dec(&mut s, *off);
                s
            },
            DexError::U16Past(off) => {
                let mut s = "u16 read past end at ".to_string();
                text::push_dec(&mut s, *off);
                s
            },
            DexError::UlebTooLong => "uleb128 too long".to_string(),
            DexError::SlebTooLong => "sleb128 too long".to_string(),
        }
    }
}

/// What a read gives, and where it ends.
pub type Read<A> = Result<(A, int), DexError>;

/// A sequential read of `n` bytes at `pos` passes the end of `d`.
pub open spec fn past(d: Seq<u8>, pos: int, n: int) -> DexError {
    DexError::Past { pos: pos as u64, n: n as u64, len: d.len() as u64 }
}

/// The byte at `pos`.
pub open spec fn byte(d: Seq<u8>, pos: int) -> Read<u8> {
    if pos + 1 > d.len() {
        Err(past(d, pos, 1))
    } else {
        Ok((d[pos], pos + 1))
    }
}

/// The 32-bit value at an absolute offset.
pub open spec fn word(d: Seq<u8>, off: int) -> Result<u32, DexError> {
    if off + 4 > d.len() {
        Err(DexError::U32Past(off as u64))
    } else {
        Ok(bytes::le32(d, off) as u32)
    }
}

/// The 16-bit value at an absolute offset.
pub open spec fn half(d: Seq<u8>, off: int) -> Result<u16, DexError> {
    if off + 2 > d.len() {
        Err(DexError::U16Past(off as u64))
    } else {
        Ok(bytes::le16(d, off) as u16)
    }
}

/// What the `i`th byte of a LEB128 number adds; of the fifth only the bits that fit.
pub open spec fn scaled(b: u8, i: int) -> int {
    if i == 0 {
        (b % 0x80) as int
    } else if i == 1 {
        (b % 0x80) * 0x80
    } else if i == 2 {
        (b % 0x80) * 0x4000
    } else if i == 3 {
        (b % 0x80) * 0x20_0000
    } else {
        (b % 0x10) * 0x1000_0000
    }
}

/// The unsigned LEB128 number whose `i`th byte stands at `at`, behind `acc`.
pub open spec fn uleb_from(d: Seq<u8>, at: int, i: int, acc: int) -> Read<u32>
    decreases 5 - i,
{
    if at >= d.len() {
        Err(past(d, at, 1))
    } else if d[at] < 0x80 {
        Ok(((acc + scaled(d[at], i)) as u32, at + 1))
    } else if i >= 4 {
        Err(DexError::UlebTooLong)
    } else {
        uleb_from(d, at + 1, i + 1, acc + scaled(d[at], i))
    }
}

/// The unsigned LEB128 number at `at`.
pub open spec fn uleb(d: Seq<u8>, at: int) -> Read<u32> {
    uleb_from(d, at, 0, 0)
}

/// A number as unsigned LEB128: seven bits a byte, the low ones first; all bytes but the
/// last have the high bit set.
pub open spec fn uleb_bytes(v: nat) -> Seq<u8>
    decreases v,
{
    if v < 0x80 {
        seq![v as u8]
    } else {
        seq![(v % 0x80 + 0x80) as u8] + uleb_bytes(v / 0x80)
    }
}

/// What a one in the `i`th byte counts.
spec fn unit(i: int) -> int {
    if i == 0 {
        1
    } else if i == 1 {
        0x80
    } else if i == 2 {
        0x4000
    } else if i == 3 {
        0x20_0000
    } else {
        0x1000_0000
    }
}

proof fn lemma_uleb(head: Seq<u8>, v: nat, tail: Seq<u8>, i: int, acc: int)
    requires
        0 <= i <= 4,
        0 <= acc,
        acc + v * unit(i) <= u32::MAX,
    ensures
        uleb_from(head + uleb_bytes(v) + tail, head.len() as int, i, acc) == Ok::<
            (u32, int),
            DexError,
        >(((acc + v * unit(i)) as u32, (head.len() + uleb_bytes(v).len()) as int)),
    decreases v,
{
    let b = head + uleb_bytes(v) + tail;
    let n = head.len() as int;
    assert(b[n] == uleb_bytes(v)[0]);
    if v >= 0x80 {
        let first = (v % 0x80 + 0x80) as u8;
        let rest = uleb_bytes(v / 0x80);
        let next = head.push(first);
        assert(uleb_bytes(v) =~= seq![first] + rest);
        assert(b =~= next + rest + tail);
        assert(i < 4);
        assert(scaled(first, i) == (v % 0x80) * unit(i));
        assert(v * unit(i) == (v % 0x80) * unit(i) + (v / 0x80) * unit(i + 1));
        lemma_uleb(next, v / 0x80, tail, i + 1, acc + scaled(first, i));
        assert(uleb_from(b, n, i, acc) == uleb_from(b, n + 1, i + 1, acc + scaled(first, i)));
    }
}

/// A number that was written as unsigned LEB128 reads back, whatever stands around it.
pub proof fn law_uleb_reads_back(head: Seq<u8>, v: u32, tail: Seq<u8>)
    ensures
        uleb(head + uleb_bytes(v as nat) + tail, head.len() as int) == Ok::<(u32, int), DexError>(
            (v, (head.len() + uleb_bytes(v as nat).len()) as int),
        ),
{
    lemma_uleb(head, v as nat, tail, 0, 0);
}

/// What the sign bit of the last byte takes away.
pub open spec fn sign(b: u8, i: int) -> int {
    if b % 0x80 < 0x40 || i >= 4 {
        0
    } else if i == 0 {
        0x80
    } else if i == 1 {
        0x4000
    } else if i == 2 {
        0x20_0000
    } else {
        0x1000_0000
    }
}

/// A 32-bit pattern as a signed number.
pub open spec fn signed(v: int) -> i32 {
    if v >= 0x8000_0000 {
        (v - 0x1_0000_0000) as i32
    } else {
        v as i32
    }
}

/// The signed LEB128 number whose `i`th byte stands at `at`, behind `acc`.
pub open spec fn sleb_from(d: Seq<u8>, at: int, i: int, acc: int) -> Read<i32>
    decreases 5 - i,
{
    if at >= d.len() {
        Err(past(d, at, 1))
    } else if d[at] < 0x80 {
        Ok((signed(acc + scaled(d[at], i) - sign(d[at], i)), at + 1))
    } else if i >= 4 {
        Err(DexError::SlebTooLong)
    } else {
        sleb_from(d, at + 1, i + 1, acc + scaled(d[at], i))
    }
}

/// The signed LEB128 number at `at`.
pub open spec fn sleb(d: Seq<u8>, at: int) -> Read<i32> {
    sleb_from(d, at, 0, 0)
}

/// Where the first NUL from `at` on stands, or the end.
pub open spec fn nul_from(d: Seq<u8>, at: int) -> int
    decreases d.len() - at,
{
    if at >= d.len() || d[at] == 0 {
        at
    } else {
        nul_from(d, at + 1)
    }
}

/// The UTF-16 units of Modified UTF-8 from `i` on, behind `acc`.
pub open spec fn units(b: Seq<u8>, i: int, acc: Seq<u16>) -> Seq<u16>
    decreases b.len() - i,
{
    if i >= b.len() {
        acc
    } else if b[i] < 0x80 {
        units(b, i + 1, acc.push(b[i] as u16))
    } else if 0xc0 <= b[i] < 0xe0 {
        if i + 1 >= b.len() {
            acc
        } else {
            units(b, i + 2, acc.push(((b[i] - 0xc0) * 0x40 + b[i + 1] % 0x40) as u16))
        }
    } else if 0xe0 <= b[i] < 0xf0 {
        if i + 2 >= b.len() {
            acc
        } else {
            units(
                b,
                i + 3,
                acc.push(
                    ((b[i] - 0xe0) * 0x1000 + (b[i + 1] % 0x40) * 0x40 + b[i + 2] % 0x40) as u16,
                ),
            )
        }
    } else {
        units(b, i + 1, acc.push(0xfffd))
    }
}

/// The text of UTF-16 units from the `i`th on: a surrogate pair is one character, and a
/// surrogate alone is replaced by U+FFFD.
pub open spec fn utf16_text(u: Seq<u16>, i: int) -> Seq<char>
    decreases u.len() - i,
{
    if i >= u.len() {
        Seq::empty()
    } else if u[i] < 0xd800 || u[i] > 0xdfff {
        seq![u[i] as char] + utf16_text(u, i + 1)
    } else if u[i] < 0xdc00 && i + 1 < u.len() && 0xdc00 <= u[i + 1] <= 0xdfff {
        seq![(0x1_0000 + (u[i] - 0xd800) * 0x400 + (u[i + 1] - 0xdc00)) as char] + utf16_text(
            u,
            i + 2,
        )
    } else {
        seq![0xfffdu32 as char] + utf16_text(u, i + 1)
    }
}

/// The text of Modified UTF-8.
pub open spec fn mutf8_text(b: Seq<u8>) -> Seq<char> {
    utf16_text(units(b, 0, Seq::empty()), 0)
}

/// The string of a `string_data_item`: behind the length, up to the NUL.
pub open spec fn string_data(d: Seq<u8>, off: int) -> Result<Seq<char>, DexError> {
    match uleb(d, off) {
        Err(e) => Err(e),
        Ok((_, p)) => Ok(mutf8_text(d.subrange(p, nul_from(d, p)))),
    }
}

/// A UTF-16 unit in Modified UTF-8: NUL takes two bytes, so that no byte is zero.
pub open spec fn unit_bytes(u: int) -> Seq<u8> {
    if 0 < u < 0x80 {
        seq![u as u8]
    } else if u < 0x800 {
        seq![(0xc0 + u / 0x40) as u8, (0x80 + u % 0x40) as u8]
    } else {
        seq![
            (0xe0 + u / 0x1000) as u8,
            (0x80 + u / 0x40 % 0x40) as u8,
            (0x80 + u % 0x40) as u8,
        ]
    }
}

/// A character in Modified UTF-8: one above U+FFFF is a surrogate pair.
pub open spec fn char_bytes(c: char) -> Seq<u8> {
    if c as int <= 0xffff {
        unit_bytes(c as int)
    } else {
        unit_bytes(0xd800 + (c as int - 0x1_0000) / 0x400) + unit_bytes(
            0xdc00 + (c as int - 0x1_0000) % 0x400,
        )
    }
}

/// A text in Modified UTF-8.
pub open spec fn mutf8_bytes(s: Seq<char>) -> Seq<u8>
    decreases s.len(),
{
    if s.len() == 0 {
        Seq::empty()
    } else {
        char_bytes(s[0]) + mutf8_bytes(s.drop_first())
    }
}

/// The units behind `acc` do not depend on it, nor on the bytes before `i`.
proof fn lemma_units_behind(b: Seq<u8>, i: int, acc: Seq<u16>)
    requires
        0 <= i <= b.len(),
    ensures
        units(b, i, acc) == acc + units(b.skip(i), 0, Seq::empty()),
    decreases b.len() - i,
{
    let none: Seq<u16> = Seq::empty();
    let r = b.skip(i);
    if i >= b.len() {
        assert(acc + none =~= acc);
    } else {
        assert(r[0] == b[i]);
        let n: int = if b[i] < 0x80 || b[i] >= 0xf0 || b[i] < 0xc0 {
            1
        } else if b[i] < 0xe0 {
            2
        } else {
            3
        };
        if i + n <= b.len() {
            if n > 1 {
                assert(r[1] == b[i + 1]);
            }
            if n > 2 {
                assert(r[2] == b[i + 2]);
            }
            let u = units(r, 0, none);
            let x: u16 = if b[i] < 0x80 {
                b[i] as u16
            } else if n == 2 {
                ((b[i] - 0xc0) * 0x40 + b[i + 1] % 0x40) as u16
            } else if n == 3 {
                ((b[i] - 0xe0) * 0x1000 + (b[i + 1] % 0x40) * 0x40 + b[i + 2] % 0x40) as u16
            } else {
                0xfffd
            };
            assert(units(b, i, acc) == units(b, i + n, acc.push(x)));
            assert(units(r, 0, none) == units(r, n, none.push(x)));
            lemma_units_behind(b, i + n, acc.push(x));
            lemma_units_behind(r, n, none.push(x));
            assert(r.skip(n) =~= b.skip(i + n));
            let rest = units(b.skip(i + n), 0, none);
            assert(acc.push(x) + rest =~= acc + (none.push(x) + rest));
        } else {
            assert(acc + none =~= acc);
        }
    }
}

proof fn lemma_unit(u: int, b: Seq<u8>)
    requires
        0 <= u <= 0xffff,
    ensures
        units(unit_bytes(u) + b, 0, Seq::empty()) == seq![u as u16] + units(b, 0, Seq::empty()),
{
    let none: Seq<u16> = Seq::empty();
    let w = unit_bytes(u);
    let all = w + b;
    let n = w.len() as int;
    assert(all[0] == w[0]);
    assert(units(all, 0, none) == units(all, n, none.push(u as u16))) by {
        if 0 < u < 0x80 {
        } else if u < 0x800 {
            assert(all[1] == w[1]);
            assert((w[0] - 0xc0) * 0x40 + w[1] % 0x40 == u);
        } else {
            assert(all[1] == w[1] && all[2] == w[2]);
            assert((w[0] - 0xe0) * 0x1000 + (w[1] % 0x40) * 0x40 + w[2] % 0x40 == u);
        }
    }
    lemma_units_behind(all, n, none.push(u as u16));
    assert(all.skip(n) =~= b);
    assert(none.push(u as u16) =~= seq![u as u16]);
}

/// The text from the `i`th unit on depends only on the units from there on.
proof fn lemma_utf16_skip(u: Seq<u16>, i: int)
    requires
        0 <= i <= u.len(),
    ensures
        utf16_text(u, i) == utf16_text(u.skip(i), 0),
    decreases u.len() - i,
{
    let r = u.skip(i);
    if i < u.len() {
        assert(r[0] == u[i]);
        if i + 1 < u.len() {
            assert(r[1] == u[i + 1]);
        }
        lemma_utf16_skip(u, i + 1);
        lemma_utf16_skip(r, 1);
        assert(r.skip(1) =~= u.skip(i + 1));
        if i + 2 <= u.len() {
            lemma_utf16_skip(u, i + 2);
            lemma_utf16_skip(r, 2);
            assert(r.skip(2) =~= u.skip(i + 2));
        }
    }
}

proof fn lemma_char(c: char, b: Seq<u8>)
    ensures
        mutf8_text(char_bytes(c) + b) == seq![c] + mutf8_text(b),
{
    let none: Seq<u16> = Seq::empty();
    let rest = units(b, 0, none);
    if c as int <= 0xffff {
        lemma_unit(c as int, b);
        let all = seq![c as u16] + rest;
        assert(all[0] == c as u16);
        lemma_utf16_skip(all, 1);
        assert(all.skip(1) =~= rest);
        assert((c as int) as u16 as char == c);
    } else {
        let hi = 0xd800 + (c as int - 0x1_0000) / 0x400;
        let lo = 0xdc00 + (c as int - 0x1_0000) % 0x400;
        assert(char_bytes(c) + b =~= unit_bytes(hi) + (unit_bytes(lo) + b));
        lemma_unit(hi, unit_bytes(lo) + b);
        lemma_unit(lo, b);
        let all = seq![hi as u16] + (seq![lo as u16] + rest);
        assert(all[0] == hi as u16 && all[1] == lo as u16);
        lemma_utf16_skip(all, 2);
        assert(all.skip(2) =~= rest);
        assert((0x1_0000 + (hi - 0xd800) * 0x400 + (lo - 0xdc00)) as char == c);
    }
}

/// A text in Modified UTF-8 reads as itself, whatever follows it.
pub proof fn law_mutf8_reads_back(s: Seq<char>, b: Seq<u8>)
    ensures
        mutf8_text(mutf8_bytes(s) + b) == s + mutf8_text(b),
    decreases s.len(),
{
    if s.len() == 0 {
        assert(mutf8_bytes(s) + b =~= b);
        assert(s + mutf8_text(b) =~= mutf8_text(b));
    } else {
        let front = char_bytes(s[0]);
        let rest = mutf8_bytes(s.drop_first());
        assert(mutf8_bytes(s) + b =~= front + (rest + b));
        lemma_char(s[0], rest + b);
        law_mutf8_reads_back(s.drop_first(), b);
        assert(seq![s[0]] + (s.drop_first() + mutf8_text(b)) =~= s + mutf8_text(b));
    }
}

proof fn lemma_scalar(c: u32)
    requires
        0 < c <= 0xffff,
        c < 0xd800 || c > 0xdfff,
    ensures
        unit_bytes(c as int) == vstd::utf8::encode_scalar(c),
{
    if c < 0x80 {
        assert(c & 0x7f == c) by (bit_vector)
            requires
                c < 0x80,
        ;
    } else if c < 0x800 {
        assert(0xc0u8 | ((c >> 6) & 0x1f) as u8 == (0xc0 + c / 0x40) as u8 && 0x80u8 | (c
            & 0x3f) as u8 == (0x80 + c % 0x40) as u8) by (bit_vector)
            requires
                c < 0x800,
        ;
    } else {
        assert(0xe0u8 | ((c >> 12) & 0x0f) as u8 == (0xe0 + c / 0x1000) as u8 && 0x80u8 | ((c >> 6)
            & 0x3f) as u8 == (0x80 + c / 0x40 % 0x40) as u8 && 0x80u8 | (c & 0x3f) as u8 == (0x80
            + c % 0x40) as u8) by (bit_vector)
            requires
                c <= 0xffff,
        ;
    }
    assert(unit_bytes(c as int) =~= vstd::utf8::encode_scalar(c));
}

/// Ordinary UTF-8 without NUL and without characters above U+FFFF is Modified UTF-8.
pub proof fn law_plain_utf8_is_mutf8(s: Seq<char>)
    requires
        forall|i: int| 0 <= i < s.len() ==> 0 < #[trigger] s[i] as int <= 0xffff,
    ensures
        mutf8_bytes(s) == vstd::utf8::encode_utf8(s),
    decreases s.len(),
{
    if s.len() > 0 {
        let rest = s.drop_first();
        assert forall|i: int| 0 <= i < rest.len() implies 0 < #[trigger] rest[i] as int
            <= 0xffff by {
            assert(rest[i] == s[i + 1]);
        }
        assert(0 < s[0] as int <= 0xffff);
        vstd::utf8::char_is_scalar(s[0]);
        lemma_scalar(s[0] as u32);
        law_plain_utf8_is_mutf8(rest);
    }
}

/// Ordinary UTF-8 without characters above U+FFFF reads as itself, whatever follows it.
pub proof fn law_plain_utf8_reads_back(s: Seq<char>, b: Seq<u8>)
    requires
        forall|i: int| 0 <= i < s.len() ==> #[trigger] s[i] as int <= 0xffff,
    ensures
        mutf8_text(vstd::utf8::encode_utf8(s) + b) == s + mutf8_text(b),
    decreases s.len(),
{
    let bytes = vstd::utf8::encode_utf8(s);
    if s.len() == 0 {
        assert(bytes + b =~= b);
        assert(s + mutf8_text(b) =~= mutf8_text(b));
    } else {
        let c = s[0];
        let front = vstd::utf8::encode_scalar(c as u32);
        let tail = s.drop_first();
        let rest = vstd::utf8::encode_utf8(tail) + b;
        assert forall|i: int| 0 <= i < tail.len() implies #[trigger] tail[i] as int <= 0xffff by {
            assert(tail[i] == s[i + 1]);
        }
        assert(s[0] as int <= 0xffff);
        assert(bytes + b =~= front + rest);
        lemma_scalar_reads(c, rest);
        law_plain_utf8_reads_back(tail, b);
        assert(seq![c] + (tail + mutf8_text(b)) =~= s + mutf8_text(b));
    }
}

proof fn lemma_scalar_reads(c: char, b: Seq<u8>)
    requires
        c as int <= 0xffff,
    ensures
        mutf8_text(vstd::utf8::encode_scalar(c as u32) + b) == seq![c] + mutf8_text(b),
{
    let front = vstd::utf8::encode_scalar(c as u32);
    if c as int > 0 {
        vstd::utf8::char_is_scalar(c);
        lemma_scalar(c as u32);
        lemma_char(c, b);
    } else {
        let none: Seq<u16> = Seq::empty();
        assert(0u32 & 0x7f == 0) by (bit_vector);
        assert(front =~= seq![0u8]);
        let all = front + b;
        assert(all[0] == 0);
        lemma_units_behind(all, 1, none.push(0));
        assert(all.skip(1) =~= b);
        let u = none.push(0u16) + units(b, 0, none);
        assert(u[0] == 0);
        lemma_utf16_skip(u, 1);
        assert(u.skip(1) =~= units(b, 0, none));
        assert(0u16 as char == c);
    }
}

proof fn lemma_unit_no_nul(u: int)
    requires
        0 <= u <= 0xffff,
    ensures
        forall|i: int| 0 <= i < unit_bytes(u).len() ==> #[trigger] unit_bytes(u)[i] != 0,
{
    let w = unit_bytes(u);
    assert(w[0] != 0);
    if u == 0 || u >= 0x80 {
        assert(w[1] != 0);
    }
    if u >= 0x800 {
        assert(w[2] != 0);
    }
}

proof fn lemma_char_no_nul(c: char)
    ensures
        forall|i: int| 0 <= i < char_bytes(c).len() ==> #[trigger] char_bytes(c)[i] != 0,
{
    if c as int <= 0xffff {
        lemma_unit_no_nul(c as int);
    } else {
        lemma_unit_no_nul(0xd800 + (c as int - 0x1_0000) / 0x400);
        lemma_unit_no_nul(0xdc00 + (c as int - 0x1_0000) % 0x400);
    }
}

proof fn lemma_no_nul(s: Seq<char>)
    ensures
        forall|i: int| 0 <= i < mutf8_bytes(s).len() ==> #[trigger] mutf8_bytes(s)[i] != 0,
    decreases s.len(),
{
    if s.len() > 0 {
        let front = char_bytes(s[0]);
        let rest = mutf8_bytes(s.drop_first());
        lemma_no_nul(s.drop_first());
        lemma_char_no_nul(s[0]);
        assert forall|i: int| 0 <= i < (front + rest).len() implies #[trigger] (front + rest)[i]
            != 0 by {
            if i >= front.len() {
                assert(rest[i - front.len()] != 0);
            } else {
                assert((front + rest)[i] == front[i]);
            }
        }
    }
}

proof fn lemma_nul(d: Seq<u8>, at: int, end: int)
    requires
        0 <= at <= end < d.len(),
        d[end] == 0,
        forall|i: int| at <= i < end ==> #[trigger] d[i] != 0,
    ensures
        nul_from(d, at) == end,
    decreases end - at,
{
    if at < end {
        lemma_nul(d, at + 1, end);
    }
}

/// A string item, a length and then the text in Modified UTF-8 up to a NUL, reads as the
/// text, whatever stands around it and whatever the length says.
pub proof fn law_string_item_reads_back(d: Seq<u8>, off: int, s: Seq<char>)
    requires
        0 <= off,
        match uleb(d, off) {
            Ok((_, p)) => {
                let end = p + mutf8_bytes(s).len();
                off <= p && end < d.len() && d.subrange(p, end) == mutf8_bytes(s) && d[end] == 0
            },
            Err(_) => false,
        },
    ensures
        string_data(d, off) == Ok::<Seq<char>, DexError>(s),
{
    let p = uleb(d, off)->Ok_0.1;
    let b = mutf8_bytes(s);
    let end = p + b.len();
    lemma_no_nul(s);
    assert forall|i: int| p <= i < end implies #[trigger] d[i] != 0 by {
        assert(d.subrange(p, end)[i - p] == d[i]);
        assert(b[i - p] != 0);
    }
    lemma_nul(d, p, end);
    law_mutf8_reads_back(s, Seq::empty());
    assert(b + Seq::<u8>::empty() =~= b);
    assert(s + mutf8_text(Seq::empty()) =~= s);
}

/// `std::string::String::from_utf16_lossy`: the text of the units, each surrogate that
/// stands alone replaced by U+FFFD.
#[verifier::external_body]
pub(crate) fn utf16_lossy(u: &[u16]) -> (r: String)
    ensures
        r@ == utf16_text(u@, 0),
{
    String::from_utf16_lossy(u)
}

/// The 32-bit value at an absolute offset.
pub fn word_at(d: &[u8], off: u64) -> (r: Result<u32, DexError>)
    ensures
        r == word(d@, off as int),
{
    let n = d.len();
    if n < 4 || off > (n - 4) as u64 {
        return Err(DexError::U32Past(off));
    }
    Ok(bytes::u32_at(d, off as usize))
}

/// The 16-bit value at an absolute offset.
pub fn half_at(d: &[u8], off: u64) -> (r: Result<u16, DexError>)
    ensures
        r == half(d@, off as int),
{
    let n = d.len();
    if n < 2 || off > (n - 2) as u64 {
        return Err(DexError::U16Past(off));
    }
    Ok(bytes::u16_at(d, off as usize))
}

/// A cursor over an in-memory DEX image. Sequential reads advance `pos`; the
/// `*_at` reads are absolute and leave `pos` untouched.
pub struct Reader<'a> {
    pub data: &'a [u8],
    pub pos: usize,
}

/// What a sequential read leaves: the value and the place behind it, or the error.
pub open spec fn read_ok<A>(r: Result<A, DexError>, want: Read<A>, pos: usize) -> bool {
    match r {
        Ok(v) => want == Ok::<(A, int), DexError>((v, pos as int)),
        Err(e) => want == Err::<(A, int), DexError>(e),
    }
}

impl<'a> Reader<'a> {
    /// A reader at the start.
    pub fn new(data: &'a [u8]) -> (r: Self)
        ensures
            r.data == data,
            r.pos == 0,
    {
        Reader { data, pos: 0 }
    }

    /// Move to an absolute offset.
    pub fn seek(&mut self, off: usize)
        ensures
            final(self).data == old(self).data,
            final(self).pos == off,
    {
        self.pos = off;
    }

    /// Whether `n` more bytes are there.
    pub fn need(&self, n: usize) -> (r: Result<(), DexError>)
        ensures
            r == if self.pos + n > self.data@.len() {
                Err::<(), DexError>(past(self.data@, self.pos as int, n as int))
            } else {
                Ok(())
            },
    {
        let len = self.data.len();
        if n > len || self.pos > len - n {
            return Err(DexError::Past { pos: self.pos as u64, n: n as u64, len: len as u64 });
        }
        Ok(())
    }

    /// The next byte.
    pub fn u8(&mut self) -> (r: Result<u8, DexError>)
        ensures
            final(self).data == old(self).data,
            read_ok(r, byte(old(self).data@, old(self).pos as int), final(self).pos),
            r is Err ==> final(self).pos == old(self).pos,
            final(self).pos >= old(self).pos,
    {
        match self.need(1) {
            Err(e) => {
                return Err(e);
            },
            Ok(_) => {},
        }
        let v = self.data[self.pos];
        self.pos += 1;
        Ok(v)
    }

    /// The next two bytes.
    pub fn u16(&mut self) -> (r: Result<u16, DexError>)
        ensures
            final(self).data == old(self).data,
            r == if old(self).pos + 2 > old(self).data@.len() {
                Err::<u16, DexError>(past(old(self).data@, old(self).pos as int, 2))
            } else {
                Ok(bytes::le16(old(self).data@, old(self).pos as int) as u16)
            },
            final(self).pos == if r is Ok {
                old(self).pos + 2
            } else {
                old(self).pos as int
            },
    {
        match self.need(2) {
            Err(e) => {
                return Err(e);
            },
            Ok(_) => {},
        }
        let len = self.data.len();
        let v = bytes::u16_at(self.data, self.pos);
        assert(self.pos + 2 <= len);
        self.pos += 2;
        Ok(v)
    }

    /// The next four bytes.
    pub fn u32(&mut self) -> (r: Result<u32, DexError>)
        ensures
            final(self).data == old(self).data,
            r == if old(self).pos + 4 > old(self).data@.len() {
                Err::<u32, DexError>(past(old(self).data@, old(self).pos as int, 4))
            } else {
                Ok(bytes::le32(old(self).data@, old(self).pos as int) as u32)
            },
            final(self).pos == if r is Ok {
                old(self).pos + 4
            } else {
                old(self).pos as int
            },
    {
        match self.need(4) {
            Err(e) => {
                return Err(e);
            },
            Ok(_) => {},
        }
        let len = self.data.len();
        let v = bytes::u32_at(self.data, self.pos);
        assert(self.pos + 4 <= len);
        self.pos += 4;
        Ok(v)
    }

    /// Read a u32 at an absolute offset without moving the cursor.
    pub fn u32_at(&self, off: usize) -> (r: Result<u32, DexError>)
        ensures
            r == word(self.data@, off as int),
    {
        word_at(self.data, off as u64)
    }

    /// Read a u16 at an absolute offset without moving the cursor.
    pub fn u16_at(&self, off: usize) -> (r: Result<u16, DexError>)
        ensures
            r == half(self.data@, off as int),
    {
        half_at(self.data, off as u64)
    }

    /// Unsigned LEB128.
    pub fn uleb128(&mut self) -> (r: Result<u32, DexError>)
        ensures
            final(self).data == old(self).data,
            read_ok(r, uleb(old(self).data@, old(self).pos as int), final(self).pos),
            final(self).pos >= old(self).pos,
            r is Ok ==> final(self).pos > old(self).pos && final(self).pos
                <= final(self).data@.len(),
    {
        let ghost d = self.data@;
        let ghost start = self.pos as int;
        let mut result: u32 = 0;
        let mut i: u32 = 0;
        let mut top: u32 = 1;
        loop
            invariant
                self.data == old(self).data,
                d == self.data@,
                start == old(self).pos,
                self.pos >= start,
                i <= 4,
                uleb(d, start) == uleb_from(d, self.pos as int, i as int, result as int),
                result < top,
                top == if i == 0 {
                    1int
                } else if i == 1 {
                    0x80
                } else if i == 2 {
                    0x4000
                } else if i == 3 {
                    0x20_0000
                } else {
                    0x1000_0000
                },
            decreases 5 - i,
        {
            let b = match self.u8() {
                Err(e) => {
                    return Err(e);
                },
                Ok(b) => b,
            };
            if i >= 4 {
                result = result + (b % 0x10) as u32 * 0x1000_0000;
            } else {
                proof {
                    assert((b % 0x80) * top <= 0x7f * 0x20_0000) by (nonlinear_arith)
                        requires
                            (b % 0x80) <= 0x7f,
                            top <= 0x20_0000,
                    ;
                }
                result = result + (b % 0x80) as u32 * top;
            }
            if b < 0x80 {
                return Ok(result);
            }
            if i >= 4 {
                return Err(DexError::UlebTooLong);
            }
            i += 1;
            top = top * 0x80;
        }
    }

    /// Signed LEB128.
    pub fn sleb128(&mut self) -> (r: Result<i32, DexError>)
        ensures
            final(self).data == old(self).data,
            read_ok(r, sleb(old(self).data@, old(self).pos as int), final(self).pos),
            final(self).pos >= old(self).pos,
            r is Ok ==> final(self).pos > old(self).pos && final(self).pos
                <= final(self).data@.len(),
    {
        let ghost d = self.data@;
        let ghost start = self.pos as int;
        let mut result: i64 = 0;
        let mut i: u32 = 0;
        let mut top: i64 = 1;
        loop
            invariant
                self.data == old(self).data,
                d == self.data@,
                start == old(self).pos,
                self.pos >= start,
                i <= 4,
                sleb(d, start) == sleb_from(d, self.pos as int, i as int, result as int),
                0 <= result < top,
                top == if i == 0 {
                    1int
                } else if i == 1 {
                    0x80
                } else if i == 2 {
                    0x4000
                } else if i == 3 {
                    0x20_0000
                } else {
                    0x1000_0000
                },
            decreases 5 - i,
        {
            let b = match self.u8() {
                Err(e) => {
                    return Err(e);
                },
                Ok(b) => b,
            };
            if i >= 4 {
                result = result + (b % 0x10) as i64 * 0x1000_0000;
            } else {
                proof {
                    assert(0 <= (b % 0x80) * top <= 0x7f * 0x20_0000) by (nonlinear_arith)
                        requires
                            0 <= (b % 0x80) <= 0x7f,
                            0 <= top <= 0x20_0000,
                    ;
                }
                result = result + (b % 0x80) as i64 * top;
            }
            if b < 0x80 {
                if i < 4 && b >= 0x40 {
                    result = result - top * 0x80;
                }
                if result >= 0x8000_0000 {
                    result = result - 0x1_0000_0000;
                }
                return Ok(result as i32);
            }
            if i >= 4 {
                return Err(DexError::SlebTooLong);
            }
            i += 1;
            top = top * 0x80;
        }
    }

    /// `uleb128p1`: an unsigned LEB128 biased by one, so it can encode -1 (NO_INDEX).
    pub fn uleb128p1(&mut self) -> (r: Result<i64, DexError>)
        ensures
            final(self).data == old(self).data,
            match r {
                Ok(v) => uleb(old(self).data@, old(self).pos as int) == Ok::<(u32, int), DexError>(
                    ((v + 1) as u32, final(self).pos as int),
                ) && -1 <= v < 0xffff_ffff,
                Err(e) => uleb(old(self).data@, old(self).pos as int) == Err::<
                    (u32, int),
                    DexError,
                >(e),
            },
            final(self).pos >= old(self).pos,
            r is Ok ==> final(self).pos > old(self).pos && final(self).pos
                <= final(self).data@.len(),
    {
        match self.uleb128() {
            Ok(v) => Ok(v as i64 - 1),
            Err(e) => Err(e),
        }
    }

    /// A `string_data_item`: a uleb128 utf16 length prefix, then MUTF-8 bytes ended
    /// by a NUL.
    pub fn string_data_at(&self, off: usize) -> (r: Result<String, DexError>)
        ensures
            match r {
                Ok(s) => string_data(self.data@, off as int) == Ok::<Seq<char>, DexError>(s@),
                Err(e) => string_data(self.data@, off as int) == Err::<Seq<char>, DexError>(e),
            },
    {
        let mut rd = Reader { data: self.data, pos: off };
        match rd.uleb128() {
            Err(e) => {
                return Err(e);
            },
            Ok(_) => {},
        }
        let start = rd.pos;
        let n = self.data.len();
        let mut end = start;
        while end < n && self.data[end] != 0
            invariant
                start <= end <= n,
                n == self.data@.len(),
                nul_from(self.data@, start as int) == nul_from(self.data@, end as int),
            decreases n - end,
        {
            end += 1;
        }
        Ok(mutf8_to_string(vstd::slice::slice_subrange(self.data, start, end)))
    }
}

/// Decode Modified UTF-8 (as DEX stores strings) to a `String`. Handles the 1–3
/// byte forms and the two-unit encoding of the NUL byte; surrogate pairs come
/// through as their two encoded 3-byte units and are folded back into one character.
pub fn mutf8_to_string(bytes: &[u8]) -> (r: String)
    ensures
        r@ == mutf8_text(bytes@),
{
    let n = bytes.len();
    let mut out: Vec<u16> = Vec::new();
    let mut i: usize = 0;
    let mut cut = false;
    while i < n && !cut
        invariant
            i <= n,
            n == bytes@.len(),
            if cut {
                units(bytes@, 0, Seq::empty()) == out@
            } else {
                units(bytes@, 0, Seq::empty()) == units(bytes@, i as int, out@)
            },
        decreases n - i, if cut { 0int } else { 1 },
    {
        let b = bytes[i];
        if b < 0x80 {
            out.push(b as u16);
            i += 1;
        } else if 0xc0 <= b && b < 0xe0 {
            if n - i < 2 {
                cut = true;
            } else {
                out.push((b - 0xc0) as u16 * 0x40 + (bytes[i + 1] % 0x40) as u16);
                i += 2;
            }
        } else if 0xe0 <= b && b < 0xf0 {
            if n - i < 3 {
                cut = true;
            } else {
                out.push(
                    (b - 0xe0) as u16 * 0x1000 + (bytes[i + 1] % 0x40) as u16 * 0x40 + (bytes[i + 2]
                        % 0x40) as u16,
                );
                i += 3;
            }
        } else {
            out.push(0xfffd);
            i += 1;
        }
    }
    utf16_lossy(out.as_slice())
}

} // verus!

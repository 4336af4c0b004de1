//! A whole DEX image: one section, or a container of several that share a string pool.

use crate::dex::model::{Dex, DexV};
use crate::dex::native::class;
use crate::dex::native::code;
use crate::dex::native::reader;
use crate::dex::native::reader::{DexError, Reader};
use crate::dex::native::section;
use crate::dex::native::section::Section;
use crate::values;
use vstd::prelude::*;

verus! {

/// The magic stands at `off`.
pub open spec fn magic_at(d: Seq<u8>, off: int) -> bool {
    d[off] == 0x64 && d[off + 1] == 0x65 && d[off + 2] == 0x78 && d[off + 3] == 0x0a
}

/// The digit is decimal.
pub open spec fn is_digit(b: u8) -> bool {
    0x30 <= b <= 0x39
}

/// The number that decimal digits give from the `k`th on, behind `acc`; none where one is
/// no digit.
pub open spec fn number_from(s: Seq<u8>, k: int, acc: int) -> Option<int>
    decreases s.len() - k,
{
    if k >= s.len() {
        Some(acc)
    } else if is_digit(s[k]) {
        number_from(s, k + 1, acc * 10 + (s[k] - 0x30))
    } else {
        None
    }
}

/// Without the NULs at the end.
pub open spec fn trimmed(s: Seq<u8>) -> Seq<u8>
    decreases s.len(),
{
    if s.len() > 0 && s.last() == 0 {
        trimmed(s.drop_last())
    } else {
        s
    }
}

/// The number in the text, which may begin with a plus sign; zero where it is none.
pub open spec fn parsed(s: Seq<u8>) -> int {
    let digits = if s.len() > 0 && s[0] == 0x2b {
        s.skip(1)
    } else {
        s
    };
    if digits.len() == 0 {
        0
    } else {
        match number_from(digits, 0, 0) {
            Some(n) => n,
            None => 0,
        }
    }
}

/// The version that the header gives, zero where it gives none.
pub open spec fn version(d: Seq<u8>) -> int {
    parsed(trimmed(d.subrange(4, 7)))
}

/// The strings from the `k`th on, behind `acc`.
pub open spec fn strings_from(
    d: Seq<u8>,
    off: int,
    n: int,
    k: int,
    acc: Seq<Seq<char>>,
) -> Result<Seq<Seq<char>>, DexError>
    decreases n - k,
{
    if k >= n {
        Ok(acc)
    } else {
        match reader::word(d, off + k * 4) {
            Err(e) => Err(e),
            Ok(at) => match reader::string_data(d, at as int) {
                Err(e) => Err(e),
                Ok(s) => strings_from(d, off, n, k + 1, acc.push(s)),
            },
        }
    }
}

/// The section at `off`, behind `acc`, and its size.
#[verifier::opaque]
pub open spec fn with_section(d: Seq<u8>, strings: Seq<Seq<char>>, off: int, acc: DexV) -> Result<
    (DexV, u32),
    DexError,
> {
    match section::section_at(d, off, strings) {
        Err(e) => Err(e),
        Ok(s) => match class::classes_from(s, 0, acc.classes, acc.final_or_volatile_fields) {
            Err(e) => Err(e),
            Ok((classes, final_or_volatile_fields)) => match reader::word(d, off + 0x20) {
                Err(e) => Err(e),
                Ok(size) => Ok((DexV { classes, final_or_volatile_fields }, size)),
            },
        },
    }
}

/// The sections from the one at `off` on, behind `acc`.
pub open spec fn sections_from(
    d: Seq<u8>,
    bound: int,
    strings: Seq<Seq<char>>,
    off: int,
    acc: DexV,
) -> Result<DexV, DexError>
    decreases bound - off,
{
    if off + 0x70 > bound || !magic_at(d, off) {
        Ok(acc)
    } else {
        match with_section(d, strings, off, acc) {
            Err(e) => Err(e),
            Ok((next, size)) => if size == 0 || off + size > bound {
                Ok(next)
            } else {
                sections_from(d, bound, strings, off + size, next)
            },
        }
    }
}

/// Where the sections end.
pub open spec fn bound_of(d: Seq<u8>, size: u32) -> int {
    if size > d.len() {
        d.len() as int
    } else {
        size as int
    }
}

/// What a DEX image holds.
pub open spec fn image(d: Seq<u8>) -> Result<DexV, DexError> {
    if d.len() < 0x70 || !magic_at(d, 0) {
        Err(DexError::NotDex)
    } else {
        match reader::word(
            d,
            if version(d) >= 41 {
                0x70
            } else {
                0x20
            },
        ) {
            Err(e) => Err(e),
            Ok(size) => match (reader::word(d, 0x38), reader::word(d, 0x3c)) {
                (Ok(n), Ok(off)) => match strings_from(
                    d,
                    off as int,
                    n as int,
                    0,
                    Seq::empty(),
                ) {
                    Err(e) => Err(e),
                    Ok(strings) => sections_from(
                        d,
                        bound_of(d, size),
                        strings,
                        0,
                        DexV { classes: Seq::empty(), final_or_volatile_fields: Seq::empty() },
                    ),
                },
                (Err(e), _) => Err(e),
                (_, Err(e)) => Err(e),
            },
        }
    }
}

fn is_magic(d: &[u8], off: usize) -> (r: bool)
    requires
        off + 4 <= d@.len(),
    ensures
        r == magic_at(d@, off as int),
{
    d[off] == 0x64 && d[off + 1] == 0x65 && d[off + 2] == 0x78 && d[off + 3] == 0x0a
}

/// The version that the header gives, zero where it gives none.
pub fn dex_version(data: &[u8]) -> (r: u32)
    requires
        data@.len() >= 7,
    ensures
        r == version(data@),
{
    let ghost s = data@.subrange(4, 7);
    let mut n: usize = 3;
    proof {
        assert(s.take(3) =~= s);
    }
    while n > 0 && data[4 + n - 1] == 0
        invariant
            n <= 3,
            data@.len() >= 7,
            s == data@.subrange(4, 7),
            trimmed(s) == trimmed(s.take(n as int)),
        decreases n,
    {
        proof {
            let t = s.take(n as int);
            assert(t.last() == data@[4 + n - 1]);
            assert(t.drop_last() =~= s.take(n - 1));
        }
        n -= 1;
    }
    let ghost t = s.take(n as int);
    proof {
        if n > 0 {
            assert(t.last() == data@[4 + n - 1]);
        }
        assert(trimmed(s) == t);
    }
    let from: usize = if n > 0 && data[4] == 0x2b {
        1
    } else {
        0
    };
    let ghost digits = t.skip(from as int);
    proof {
        if n > 0 {
            assert(t[0] == data@[4]);
        }
        assert(t.skip(0) =~= t);
    }
    if from == n {
        return 0;
    }
    let mut acc: u32 = 0;
    let mut k = from;
    while k < n
        invariant
            from <= k <= n,
            n <= 3,
            data@.len() >= 7,
            t == data@.subrange(4, 7).take(n as int),
            digits == t.skip(from as int),
            number_from(digits, 0, 0) == number_from(digits, k - from, acc as int),
            k - from == 0 ==> acc == 0,
            k - from == 1 ==> acc <= 9,
            k - from == 2 ==> acc <= 99,
            k - from == 3 ==> acc <= 999,
            digits.len() > 0,
            version(data@) == match number_from(digits, 0, 0) {
                Some(n) => n,
                None => 0,
            },
        decreases n - k,
    {
        let b = data[4 + k];
        proof {
            assert(digits[k - from] == b);
        }
        if b < 0x30 || b > 0x39 {
            return 0;
        }
        acc = acc * 10 + (b - 0x30) as u32;
        k += 1;
    }
    acc
}

fn read_strings(data: &[u8], off: u32, n: u32) -> (r: Result<Vec<String>, DexError>)
    ensures
        code::same_result(r, strings_from(data@, off as int, n as int, 0, Seq::empty())),
{
    let rd = Reader::new(data);
    let mut out: Vec<String> = values::empty();
    let mut k: u32 = 0;
    while k < n
        invariant
            k <= n,
            rd.data == data,
            strings_from(data@, off as int, n as int, 0, Seq::empty()) == strings_from(
                data@,
                off as int,
                n as int,
                k as int,
                out.deep_view(),
            ),
        decreases n - k,
    {
        let at = match reader::word_at(data, off as u64 + k as u64 * 4) {
            Err(e) => {
                return Err(e);
            },
            Ok(x) => x,
        };
        match rd.string_data_at(at as usize) {
            Err(e) => {
                return Err(e);
            },
            Ok(s) => {
                values::push(&mut out, s);
            },
        }
        k += 1;
    }
    Ok(out)
}

fn add_section(data: &[u8], strings: &Vec<String>, off: usize, dex: &mut Dex) -> (r: Result<
    u32,
    DexError,
>)
    requires
        old(dex).wf(),
        off + 0x70 <= data@.len(),
    ensures
        final(dex).wf(),
        match r {
            Ok(size) => with_section(
                data@,
                strings.deep_view(),
                off as int,
                old(dex).deep_view(),
            ) == Ok::<(DexV, u32), DexError>((final(dex).deep_view(), size)),
            Err(e) => with_section(
                data@,
                strings.deep_view(),
                off as int,
                old(dex).deep_view(),
            ) == Err::<(DexV, u32), DexError>(e),
        },
{
    proof {
        reveal(with_section);
    }
    let len = data.len();
    let p = match Section::new(data, off, strings) {
        Err(e) => {
            return Err(e);
        },
        Ok(x) => x,
    };
    match p.run(&mut dex.classes, &mut dex.final_or_volatile_fields) {
        Err(e) => {
            return Err(e);
        },
        Ok(_) => {},
    }
    reader::word_at(data, off as u64 + 0x20)
}

/// Parse a DEX image (single section or v41 container) into the model.
pub fn parse_dex_bytes(data: &[u8]) -> (r: Result<Dex, DexError>)
    ensures
        code::same_result(r, image(data@)),
        r matches Ok(d) ==> d.wf(),
{
    let len = data.len();
    if len < 0x70 || !is_magic(data, 0) {
        return Err(DexError::NotDex);
    }
    let at: u64 = if dex_version(data) >= 41 {
        0x70
    } else {
        0x20
    };
    let size = match reader::word_at(data, at) {
        Err(e) => {
            return Err(e);
        },
        Ok(x) => x,
    };
    let bound: usize = if size as u64 > len as u64 {
        len
    } else {
        size as usize
    };
    let n = match reader::word_at(data, 0x38) {
        Err(e) => {
            return Err(e);
        },
        Ok(x) => x,
    };
    let off = match reader::word_at(data, 0x3c) {
        Err(e) => {
            return Err(e);
        },
        Ok(x) => x,
    };
    let strings = match read_strings(data, off, n) {
        Err(e) => {
            return Err(e);
        },
        Ok(x) => x,
    };
    let ghost sv = strings.deep_view();
    let mut dex = Dex::default();
    let ghost begin = dex.deep_view();
    proof {
        assert(image(data@) == sections_from(data@, bound as int, sv, 0, begin));
    }
    let mut off: usize = 0;
    let mut last = false;
    while !last && bound - off >= 0x70 && is_magic(data, off)
        invariant
            off <= bound <= data@.len(),
            sv == strings.deep_view(),
            dex.wf(),
            image(data@) == sections_from(data@, bound as int, sv, 0, begin),
            if last {
                sections_from(data@, bound as int, sv, 0, begin) == Ok::<DexV, DexError>(
                    dex.deep_view(),
                )
            } else {
                sections_from(data@, bound as int, sv, 0, begin) == sections_from(
                    data@,
                    bound as int,
                    sv,
                    off as int,
                    dex.deep_view(),
                )
            },
        decreases bound - off, if last { 0int } else { 1 },
    {
        let size = match add_section(data, &strings, off, &mut dex) {
            Err(e) => {
                return Err(e);
            },
            Ok(x) => x,
        };
        if size == 0 || size as u64 > (bound - off) as u64 {
            last = true;
        } else {
            off += size as usize;
        }
    }
    Ok(dex)
}

} // verus!

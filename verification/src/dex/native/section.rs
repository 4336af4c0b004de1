//! One DEX section: its tables of names, types, fields and methods.

use crate::dex::model;
use crate::dex::native::code;
use crate::dex::native::reader;
use crate::dex::native::reader::DexError;
use vstd::prelude::*;

verus! {

/// What a section holds: the image, the string pool, and where its tables stand.
pub struct SectionV {
    pub data: Seq<u8>,
    pub strings: Seq<Seq<char>>,
    pub types: Seq<u32>,
    pub proto_ids_off: int,
    pub field_ids_off: int,
    pub method_ids_off: int,
    pub class_defs_off: int,
    pub class_defs_size: int,
}

/// One DEX section.
pub struct Section<'a> {
    pub data: &'a [u8],
    pub strings: &'a Vec<String>,
    pub types: Vec<u32>,
    pub proto_ids_off: u64,
    pub field_ids_off: u64,
    pub method_ids_off: u64,
    pub class_defs_off: u64,
    pub class_defs_size: u64,
}

impl<'a> DeepView for Section<'a> {
    type V = SectionV;

    open spec fn deep_view(&self) -> SectionV {
        SectionV {
            data: self.data@,
            strings: self.strings.deep_view(),
            types: self.types@,
            proto_ids_off: self.proto_ids_off as int,
            field_ids_off: self.field_ids_off as int,
            method_ids_off: self.method_ids_off as int,
            class_defs_off: self.class_defs_off as int,
            class_defs_size: self.class_defs_size as int,
        }
    }
}

/// The types from the `k`th on, behind `acc`; each is the number of its descriptor.
pub open spec fn types_from(d: Seq<u8>, off: int, n: int, k: int, acc: Seq<u32>) -> Result<
    Seq<u32>,
    DexError,
>
    decreases n - k,
{
    if k >= n {
        Ok(acc)
    } else {
        match reader::word(d, off + k * 4) {
            Err(e) => Err(e),
            Ok(t) => types_from(d, off, n, k + 1, acc.push(t)),
        }
    }
}

/// The descriptors of the parameters from the `k`th on, behind `acc`.
pub open spec fn params_from(s: SectionV, off: int, n: int, k: int, acc: Seq<char>) -> Result<
    Seq<char>,
    DexError,
>
    decreases n - k,
{
    if k >= n {
        Ok(acc)
    } else {
        match reader::half(s.data, off + 4 + k * 2) {
            Err(e) => Err(e),
            Ok(t) => params_from(s, off, n, k + 1, acc + s.descriptor(t as int)),
        }
    }
}

/// The section whose header stands at `base`.
pub open spec fn section_at(d: Seq<u8>, base: int, strings: Seq<Seq<char>>) -> Result<
    SectionV,
    DexError,
> {
    match reader::word(d, base + 0x40) {
        Err(e) => Err(e),
        Ok(n) => match reader::word(d, base + 0x44) {
            Err(e) => Err(e),
            Ok(off) => match types_from(d, off as int, n as int, 0, Seq::empty()) {
                Err(e) => Err(e),
                Ok(types) => tables_at(d, base, strings, types),
            },
        },
    }
}

/// The section, once its types are known.
pub open spec fn tables_at(
    d: Seq<u8>,
    base: int,
    strings: Seq<Seq<char>>,
    types: Seq<u32>,
) -> Result<SectionV, DexError> {
    match (
        reader::word(d, base + 0x4c),
        reader::word(d, base + 0x54),
        reader::word(d, base + 0x5c),
        reader::word(d, base + 0x60),
        reader::word(d, base + 0x64),
    ) {
        (Ok(p), Ok(f), Ok(m), Ok(n), Ok(c)) => Ok(
            SectionV {
                data: d,
                strings,
                types,
                proto_ids_off: p as int,
                field_ids_off: f as int,
                method_ids_off: m as int,
                class_defs_off: c as int,
                class_defs_size: n as int,
            },
        ),
        (Err(e), _, _, _, _) => Err(e),
        (_, Err(e), _, _, _) => Err(e),
        (_, _, Err(e), _, _) => Err(e),
        (_, _, _, Err(e), _) => Err(e),
        (_, _, _, _, Err(e)) => Err(e),
    }
}

impl SectionV {
    /// String `i`, empty if there is none.
    pub open spec fn string(self, i: int) -> Seq<char> {
        if 0 <= i < self.strings.len() {
            self.strings[i]
        } else {
            ""@
        }
    }

    /// The descriptor of type `i`, empty if there is none.
    pub open spec fn descriptor(self, i: int) -> Seq<char> {
        if 0 <= i < self.types.len() {
            self.string(self.types[i] as int)
        } else {
            ""@
        }
    }

    /// The dotted name of type `i`.
    pub open spec fn dotted(self, i: int) -> Seq<char> {
        model::dotted(self.descriptor(i))
    }

    /// Field `i`: its class, its name and its type, which is dotted where it is a class.
    pub open spec fn field(self, i: int) -> Result<(Seq<char>, Seq<char>, Seq<char>), DexError> {
        let base = self.field_ids_off + i * 8;
        match (
            reader::half(self.data, base),
            reader::half(self.data, base + 2),
            reader::word(self.data, base + 4),
        ) {
            (Ok(c), Ok(t), Ok(n)) => Ok(
                (
                    self.dotted(c as int),
                    self.string(n as int),
                    self.dotted(t as int),
                ),
            ),
            (Err(e), _, _) => Err(e),
            (_, Err(e), _) => Err(e),
            (_, _, Err(e)) => Err(e),
        }
    }

    /// The JVM descriptor of prototype `i`.
    pub open spec fn proto(self, i: int) -> Result<Seq<char>, DexError> {
        let base = self.proto_ids_off + i * 12;
        match (reader::word(self.data, base + 4), reader::word(self.data, base + 8)) {
            (Ok(ret), Ok(off)) => {
                let params = if off == 0 {
                    Ok("("@)
                } else {
                    match reader::word(self.data, off as int) {
                        Err(e) => Err(e),
                        Ok(n) => params_from(self, off as int, n as int, 0, "("@),
                    }
                };
                match params {
                    Err(e) => Err(e),
                    Ok(p) => Ok(p + ")"@ + self.descriptor(ret as int)),
                }
            },
            (Err(e), _) => Err(e),
            (_, Err(e)) => Err(e),
        }
    }

    /// Method `i`: its class, its name and its JVM descriptor.
    pub open spec fn method(self, i: int) -> Result<(Seq<char>, Seq<char>, Seq<char>), DexError> {
        let base = self.method_ids_off + i * 8;
        match (
            reader::half(self.data, base),
            reader::half(self.data, base + 2),
            reader::word(self.data, base + 4),
        ) {
            (Ok(c), Ok(p), Ok(n)) => match self.proto(p as int) {
                Err(e) => Err(e),
                Ok(sig) => Ok((self.dotted(c as int), self.string(n as int), sig)),
            },
            (Err(e), _, _) => Err(e),
            (_, Err(e), _) => Err(e),
            (_, _, Err(e)) => Err(e),
        }
    }
}

impl<'a> Section<'a> {
    /// The tables stand at 32-bit offsets.
    pub open spec fn wf(&self) -> bool {
        &&& self.proto_ids_off <= 0xffff_ffff && self.field_ids_off <= 0xffff_ffff
        &&& self.method_ids_off <= 0xffff_ffff && self.class_defs_off <= 0xffff_ffff
        &&& self.class_defs_size <= 0xffff_ffff
    }

    /// The section whose header stands at `base`.
    pub fn new(data: &'a [u8], base: usize, strings: &'a Vec<String>) -> (r: Result<Self, DexError>)
        requires
            base <= data@.len(),
        ensures
            match r {
                Ok(s) => section_at(data@, base as int, strings.deep_view()) == Ok::<
                    SectionV,
                    DexError,
                >(s.deep_view()) && s.wf(),
                Err(e) => section_at(data@, base as int, strings.deep_view()) == Err::<
                    SectionV,
                    DexError,
                >(e),
            },
    {
        let n = match header(data, base, 0x40) {
            Err(e) => {
                return Err(e);
            },
            Ok(n) => n,
        };
        let off = match header(data, base, 0x44) {
            Err(e) => {
                return Err(e);
            },
            Ok(off) => off as u64,
        };
        let mut types: Vec<u32> = Vec::new();
        let mut k: u32 = 0;
        while k < n
            invariant
                k <= n,
                off <= 0xffff_ffff,
                reader::word(data@, base + 0x40) == Ok::<u32, DexError>(n),
                reader::word(data@, base + 0x44) == Ok::<u32, DexError>(off as u32),
                types_from(data@, off as int, n as int, 0, Seq::empty()) == types_from(
                    data@,
                    off as int,
                    n as int,
                    k as int,
                    types@,
                ),
            decreases n - k,
        {
            match reader::word_at(data, off + k as u64 * 4) {
                Err(e) => {
                    return Err(e);
                },
                Ok(t) => types.push(t),
            }
            k += 1;
        }
        let p = match header(data, base, 0x4c) {
            Err(e) => {
                return Err(e);
            },
            Ok(x) => x,
        };
        let f = match header(data, base, 0x54) {
            Err(e) => {
                return Err(e);
            },
            Ok(x) => x,
        };
        let m = match header(data, base, 0x5c) {
            Err(e) => {
                return Err(e);
            },
            Ok(x) => x,
        };
        let size = match header(data, base, 0x60) {
            Err(e) => {
                return Err(e);
            },
            Ok(x) => x,
        };
        let c = match header(data, base, 0x64) {
            Err(e) => {
                return Err(e);
            },
            Ok(x) => x,
        };
        Ok(
            Section {
                data,
                strings,
                types,
                proto_ids_off: p as u64,
                field_ids_off: f as u64,
                method_ids_off: m as u64,
                class_defs_off: c as u64,
                class_defs_size: size as u64,
            },
        )
    }

    /// String `i`, empty if there is none.
    pub fn s(&self, i: u32) -> (r: &str)
        ensures
            r@ == self.deep_view().string(i as int),
    {
        if (i as u64) < self.strings.len() as u64 {
            proof {
                assert(self.strings.deep_view()[i as int] == self.strings@[i as int]@);
            }
            self.strings[i as usize].as_str()
        } else {
            ""
        }
    }

    /// The descriptor of type `i`, empty if there is none.
    pub fn type_desc(&self, i: u32) -> (r: &str)
        ensures
            r@ == self.deep_view().descriptor(i as int),
    {
        if (i as u64) < self.types.len() as u64 {
            self.s(self.types[i as usize])
        } else {
            ""
        }
    }

    /// The dotted name of type `i`.
    pub fn type_dotted(&self, i: u32) -> (r: String)
        ensures
            r@ == self.deep_view().dotted(i as int),
    {
        model::descriptor_to_dotted(self.type_desc(i))
    }

    /// field_id -> (declaring class dotted, field name, dotted/raw type descriptor).
    pub fn field(&self, i: u32) -> (r: Result<(String, String, String), DexError>)
        requires
            self.wf(),
        ensures
            code::same_result(r, self.deep_view().field(i as int)),
    {
        let base = self.field_ids_off + i as u64 * 8;
        let c = match reader::half_at(self.data, base) {
            Err(e) => {
                return Err(e);
            },
            Ok(x) => x,
        };
        let t = match reader::half_at(self.data, base + 2) {
            Err(e) => {
                return Err(e);
            },
            Ok(x) => x,
        };
        let n = match reader::word_at(self.data, base + 4) {
            Err(e) => {
                return Err(e);
            },
            Ok(x) => x,
        };
        Ok((self.type_dotted(c as u32), self.s(n).to_string(), self.type_dotted(t as u32)))
    }

    /// method_id -> (declaring class dotted, name, JVM descriptor).
    pub fn method(&self, i: u32) -> (r: Result<(String, String, String), DexError>)
        requires
            self.wf(),
        ensures
            code::same_result(r, self.deep_view().method(i as int)),
    {
        let base = self.method_ids_off + i as u64 * 8;
        let c = match reader::half_at(self.data, base) {
            Err(e) => {
                return Err(e);
            },
            Ok(x) => x,
        };
        let p = match reader::half_at(self.data, base + 2) {
            Err(e) => {
                return Err(e);
            },
            Ok(x) => x,
        };
        let n = match reader::word_at(self.data, base + 4) {
            Err(e) => {
                return Err(e);
            },
            Ok(x) => x,
        };
        match self.proto_sig(p as u32) {
            Err(e) => Err(e),
            Ok(sig) => Ok((self.type_dotted(c as u32), self.s(n).to_string(), sig)),
        }
    }

    /// proto_id -> JVM descriptor.
    pub fn proto_sig(&self, i: u32) -> (r: Result<String, DexError>)
        requires
            self.wf(),
        ensures
            code::same_result(r, self.deep_view().proto(i as int)),
    {
        let ghost s = self.deep_view();
        let base = self.proto_ids_off + i as u64 * 12;
        let ret = match reader::word_at(self.data, base + 4) {
            Err(e) => {
                return Err(e);
            },
            Ok(x) => x,
        };
        let off = match reader::word_at(self.data, base + 8) {
            Err(e) => {
                return Err(e);
            },
            Ok(x) => x as u64,
        };
        let mut d = "(".to_string();
        if off != 0 {
            let n = match reader::word_at(self.data, off) {
                Err(e) => {
                    return Err(e);
                },
                Ok(x) => x,
            };
            let mut k: u32 = 0;
            while k < n
                invariant
                    k <= n,
                    off != 0,
                    off <= 0xffff_ffff,
                    s == self.deep_view(),
                    base == s.proto_ids_off + i * 12,
                    reader::word(s.data, base + 4) == Ok::<u32, DexError>(ret),
                    reader::word(s.data, base + 8) == Ok::<u32, DexError>(off as u32),
                    reader::word(s.data, off as int) == Ok::<u32, DexError>(n),
                    params_from(s, off as int, n as int, 0, "("@) == params_from(
                        s,
                        off as int,
                        n as int,
                        k as int,
                        d@,
                    ),
                decreases n - k,
            {
                match reader::half_at(self.data, off + 4 + k as u64 * 2) {
                    Err(e) => {
                        return Err(e);
                    },
                    Ok(t) => {
                        d.append(self.type_desc(t as u32));
                    },
                }
                k += 1;
            }
        }
        d.append(")");
        d.append(self.type_desc(ret));
        Ok(d)
    }
}

fn header(data: &[u8], base: usize, at: u64) -> (r: Result<u32, DexError>)
    requires
        base <= data@.len(),
        at <= 0x64,
    ensures
        r == reader::word(data@, base + at),
{
    let n = data.len();
    if base as u64 > u64::MAX - at {
        // A slice is never this long.
        let off: u64 = #[verifier::truncate]
        ((base as u128 + at as u128) as u64);
        return Err(DexError::U32Past(off));
    }
    reader::word_at(data, base as u64 + at)
}

} // verus!

//! APEX packages: the dex-bearing jars (`javalib/*.jar`) of an `.apex`, or of a
//! compressed `.capex` (a zip whose `original_apex` member is the `.apex`).
//!
//! Everything happens in memory: the zip is opened from bytes, `apex_payload.img`
//! is read out, and an in-process EROFS or ext4 reader walks the image to
//! `/javalib`. Where the payload uses a feature the readers do not cover, the caller
//! may hand in the jars that another tool unpacked.

pub mod blocks;
pub mod carried;
pub mod erofs;
pub mod ext4;
pub mod headed;
pub mod lz4;
pub mod packed;
pub mod placed;

use crate::bytes;
use crate::dex::zipped;
use crate::sort;
use crate::text;
use crate::values;
use erofs::{Erofs, ErofsError};
use ext4::{Ext4, Ext4Error};
use vstd::prelude::*;
use vstd::slice::slice_to_vec;

verus! {

/// Why a package gives no jars.
#[derive(Debug, Clone, Copy, PartialEq, Eq, Structural)]
pub enum ApexError {
    /// Packages nested too deep.
    TooDeep,
    /// The package is no zip.
    NotZip,
    /// A member of the zip cannot be read.
    BadMember,
    /// The zip has no `apex_payload.img`.
    NoPayload,
    /// The payload is neither EROFS nor ext4.
    UnknownImage,
    /// The EROFS payload cannot be read.
    Erofs(ErofsError),
    /// The ext4 payload cannot be read.
    Ext4(Ext4Error),
}

/// The name ends in `.apex` or `.capex`.
pub open spec fn apex_name(name: Seq<char>) -> bool {
    text::tail_of(name, '.') == "apex"@ || text::tail_of(name, '.') == "capex"@
}

/// The filesystem image inside an apex/capex zip.
pub open spec fn payload_of(bytes: Seq<u8>, depth: int) -> Result<Seq<u8>, ApexError>
    decreases 3 - depth,
{
    if depth > 2 {
        Err(ApexError::TooDeep)
    } else if zipped::member_count(bytes) is None {
        Err(ApexError::NotZip)
    } else {
        match zipped::member_named(bytes, "original_apex"@) {
            Some(None) => Err(ApexError::BadMember),
            Some(Some(inner)) => payload_of(inner, depth + 1),
            None => match zipped::member_named(bytes, "apex_payload.img"@) {
                Some(None) => Err(ApexError::BadMember),
                Some(Some(img)) => Ok(img),
                None => Err(ApexError::NoPayload),
            },
        }
    }
}

/// The jars among the entries of an EROFS directory from the `k`th on, behind `acc`.
pub open spec fn erofs_jars(
    v: erofs::Volume,
    es: Seq<erofs::Dirent>,
    k: int,
    acc: Seq<(Seq<char>, Seq<u8>)>,
) -> Result<Seq<(Seq<char>, Seq<u8>)>, ApexError>
    decreases es.len() - k,
{
    if k >= es.len() {
        Ok(acc)
    } else if es[k].ftype == erofs::FT_REG && text::ends(es[k].name, ".jar"@) {
        match v.file(es[k].nid) {
            Err(e) => Err(ApexError::Erofs(e)),
            Ok(data) => erofs_jars(v, es, k + 1, acc.push((es[k].name, data))),
        }
    } else {
        erofs_jars(v, es, k + 1, acc)
    }
}

/// The jars among the entries of an ext4 directory from the `k`th on, behind `acc`.
pub open spec fn ext4_jars(
    v: ext4::Volume,
    es: Seq<ext4::Dirent>,
    k: int,
    acc: Seq<(Seq<char>, Seq<u8>)>,
) -> Result<Seq<(Seq<char>, Seq<u8>)>, ApexError>
    decreases es.len() - k,
{
    if k >= es.len() {
        Ok(acc)
    } else if es[k].ftype == ext4::FT_REG && text::ends(es[k].name, ".jar"@) {
        match v.file(es[k].ino) {
            Err(e) => Err(ApexError::Ext4(e)),
            Ok(data) => ext4_jars(v, es, k + 1, acc.push((es[k].name, data))),
        }
    } else {
        ext4_jars(v, es, k + 1, acc)
    }
}

/// Jars stand by name.
pub open spec fn jar_le() -> spec_fn((Seq<char>, Seq<u8>), (Seq<char>, Seq<u8>)) -> bool {
    |a: (Seq<char>, Seq<u8>), b: (Seq<char>, Seq<u8>)| text::lex_le(a.0, b.0)
}

/// The jars in `javalib` of an EROFS image, as they stand there.
pub open spec fn erofs_javalib(img: Seq<u8>) -> Result<Seq<(Seq<char>, Seq<u8>)>, ApexError> {
    match erofs::volume(img) {
        Err(e) => Err(ApexError::Erofs(e)),
        Ok(v) => match v.listing("javalib"@) {
            Err(e) => Err(ApexError::Erofs(e)),
            Ok(None) => Ok(Seq::empty()),
            Ok(Some(es)) => erofs_jars(v, es, 0, Seq::empty()),
        },
    }
}

/// The jars in `javalib` of an ext4 image, as they stand there.
pub open spec fn ext4_javalib(img: Seq<u8>) -> Result<Seq<(Seq<char>, Seq<u8>)>, ApexError> {
    match ext4::volume(img) {
        Err(e) => Err(ApexError::Ext4(e)),
        Ok(v) => match v.listing("javalib"@) {
            Err(e) => Err(ApexError::Ext4(e)),
            Ok(None) => Ok(Seq::empty()),
            Ok(Some(es)) => ext4_jars(v, es, 0, Seq::empty()),
        },
    }
}

/// The jars of a filesystem image, by name.
pub open spec fn image_jars(img: Seq<u8>) -> Result<Seq<(Seq<char>, Seq<u8>)>, ApexError> {
    let found = if erofs::magic(img) {
        erofs_javalib(img)
    } else if ext4::magic(img) {
        ext4_javalib(img)
    } else {
        Err(ApexError::UnknownImage)
    };
    match found {
        Err(e) => Err(e),
        Ok(jars) => Ok(sort::sorted(jars, jar_le())),
    }
}

/// The jars of a package, by name.
pub open spec fn package_jars(bytes: Seq<u8>) -> Result<Seq<(Seq<char>, Seq<u8>)>, ApexError> {
    match payload_of(bytes, 0) {
        Err(e) => Err(e),
        Ok(img) => image_jars(img),
    }
}

/// The name ends in `.apex` or `.capex`.
pub fn is_apex_name(name: &str) -> (r: bool)
    ensures
        r == apex_name(name@),
{
    let ext = text::after_last(name, '.');
    text::str_eq(ext.as_str(), "apex") || text::str_eq(ext.as_str(), "capex")
}

/// The filesystem image inside an apex/capex zip.
fn payload(bytes: Vec<u8>, depth: usize) -> (r: Result<Vec<u8>, ApexError>)
    requires
        depth <= 3,
    ensures
        match r {
            Ok(v) => payload_of(bytes@, depth as int) == Ok::<Seq<u8>, ApexError>(v@),
            Err(e) => payload_of(bytes@, depth as int) == Err::<Seq<u8>, ApexError>(e),
        },
    decreases 3 - depth,
{
    if depth > 2 {
        return Err(ApexError::TooDeep);
    }
    let mut z = match zipped::open_archive(bytes) {
        Ok(z) => z,
        Err(_) => return Err(ApexError::NotZip),
    };
    match zipped::archive_named(&mut z, "original_apex") {
        Ok(Some(inner)) => return payload(inner, depth + 1),
        Ok(None) => {},
        Err(_) => return Err(ApexError::BadMember),
    }
    match zipped::archive_named(&mut z, "apex_payload.img") {
        Ok(Some(img)) => Ok(img),
        Ok(None) => Err(ApexError::NoPayload),
        Err(_) => Err(ApexError::BadMember),
    }
}

fn read_erofs(img: &[u8]) -> (r: Result<Vec<(String, Vec<u8>)>, ApexError>)
    ensures
        match r {
            Ok(v) => erofs_javalib(img@) == Ok::<Seq<(Seq<char>, Seq<u8>)>, ApexError>(
                v.deep_view(),
            ),
            Err(e) => erofs_javalib(img@) == Err::<Seq<(Seq<char>, Seq<u8>)>, ApexError>(e),
        },
{
    let fs = match Erofs::parse(img) {
        Ok(fs) => fs,
        Err(e) => return Err(ApexError::Erofs(e)),
    };
    let mut out: Vec<(String, Vec<u8>)> = Vec::new();
    proof {
        assert(out.deep_view() =~= Seq::empty());
    }
    let es = match fs.read_dir("javalib") {
        Ok(Some(es)) => es,
        Ok(None) => return Ok(out),
        Err(e) => return Err(ApexError::Erofs(e)),
    };
    let ghost all = es.deep_view();
    let mut k: usize = 0;
    while k < es.len()
        invariant
            fs.wf(),
            all == es.deep_view(),
            k <= es@.len(),
            erofs_javalib(img@) == erofs_jars(fs@, all, k as int, out.deep_view()),
        decreases es@.len() - k,
    {
        let e = &es[k];
        proof {
            assert(all[k as int] == e.deep_view());
        }
        if e.ftype == erofs::FT_REG && text::ends_with(e.name.as_str(), ".jar") {
            let data = match fs.read_nid(e.nid) {
                Ok(d) => d,
                Err(e) => return Err(ApexError::Erofs(e)),
            };
            let ghost before = out.deep_view();
            let jar = (e.name.clone(), data);
            out.push(jar);
            proof {
                bytes::lemma_deep(&data);
                assert(out.deep_view() =~= before.push((e.name@, data@)));
            }
        }
        k += 1;
    }
    Ok(out)
}

fn read_ext4(img: &[u8]) -> (r: Result<Vec<(String, Vec<u8>)>, ApexError>)
    ensures
        match r {
            Ok(v) => ext4_javalib(img@) == Ok::<Seq<(Seq<char>, Seq<u8>)>, ApexError>(
                v.deep_view(),
            ),
            Err(e) => ext4_javalib(img@) == Err::<Seq<(Seq<char>, Seq<u8>)>, ApexError>(e),
        },
{
    let fs = match Ext4::parse(img) {
        Ok(fs) => fs,
        Err(e) => return Err(ApexError::Ext4(e)),
    };
    let mut out: Vec<(String, Vec<u8>)> = Vec::new();
    proof {
        assert(out.deep_view() =~= Seq::empty());
    }
    let es = match fs.read_dir("javalib") {
        Ok(Some(es)) => es,
        Ok(None) => return Ok(out),
        Err(e) => return Err(ApexError::Ext4(e)),
    };
    let ghost all = es.deep_view();
    let mut k: usize = 0;
    while k < es.len()
        invariant
            fs.wf(),
            all == es.deep_view(),
            k <= es@.len(),
            ext4_javalib(img@) == ext4_jars(fs@, all, k as int, out.deep_view()),
        decreases es@.len() - k,
    {
        let e = &es[k];
        proof {
            assert(all[k as int] == e.deep_view());
        }
        if e.ftype == ext4::FT_REG && text::ends_with(e.name.as_str(), ".jar") {
            let data = match fs.read_ino(e.ino) {
                Ok(d) => d,
                Err(e) => return Err(ApexError::Ext4(e)),
            };
            let ghost before = out.deep_view();
            let jar = (e.name.clone(), data);
            out.push(jar);
            proof {
                bytes::lemma_deep(&data);
                assert(out.deep_view() =~= before.push((e.name@, data@)));
            }
        }
        k += 1;
    }
    Ok(out)
}

fn jar_in_order(a: &(String, Vec<u8>), b: &(String, Vec<u8>)) -> (r: bool)
    ensures
        r == text::lex_le(a.0@, b.0@),
{
    text::str_le(a.0.as_str(), b.0.as_str())
}

/// The jars in `javalib` of a filesystem image, by name.
pub fn jars_in_image(img: &[u8]) -> (r: Result<Vec<(String, Vec<u8>)>, ApexError>)
    ensures
        match r {
            Ok(v) => image_jars(img@) == Ok::<Seq<(Seq<char>, Seq<u8>)>, ApexError>(v.deep_view()),
            Err(e) => image_jars(img@) == Err::<Seq<(Seq<char>, Seq<u8>)>, ApexError>(e),
        },
{
    let found = if erofs::is_erofs(img) {
        read_erofs(img)
    } else if ext4::is_ext4(img) {
        read_ext4(img)
    } else {
        return Err(ApexError::UnknownImage);
    };
    match found {
        Ok(v) => Ok(sort::sort_by(v, &jar_in_order, Ghost(jar_le()))),
        Err(e) => Err(e),
    }
}

/// `(jar name, jar bytes)` for every `javalib/*.jar` in the package, by name.
pub fn javalib_jars(bytes: &[u8]) -> (r: Result<Vec<(String, Vec<u8>)>, ApexError>)
    ensures
        match r {
            Ok(v) => package_jars(bytes@) == Ok::<Seq<(Seq<char>, Seq<u8>)>, ApexError>(
                v.deep_view(),
            ),
            Err(e) => package_jars(bytes@) == Err::<Seq<(Seq<char>, Seq<u8>)>, ApexError>(e),
        },
{
    match payload(slice_to_vec(bytes), 0) {
        Ok(img) => jars_in_image(&img),
        Err(e) => Err(e),
    }
}

/// The jars among the files from the `k`th on, behind `acc`.
pub open spec fn jars_from(
    files: Seq<(Seq<char>, Seq<u8>)>,
    k: int,
    acc: Seq<(Seq<char>, Seq<u8>)>,
) -> Seq<(Seq<char>, Seq<u8>)>
    decreases files.len() - k,
{
    if k >= files.len() {
        acc
    } else {
        jars_from(
            files,
            k + 1,
            if text::extension(files[k].0) == Some("jar"@) {
                acc.push(files[k])
            } else {
                acc
            },
        )
    }
}

/// The jars among the files, by name.
pub open spec fn jars_among(files: Seq<(Seq<char>, Seq<u8>)>) -> Seq<(Seq<char>, Seq<u8>)> {
    sort::sorted(jars_from(files, 0, Seq::empty()), jar_le())
}

fn keep_jars(files: Vec<(String, Vec<u8>)>) -> (r: Vec<(String, Vec<u8>)>)
    ensures
        r.deep_view() == jars_among(files.deep_view()),
{
    let ghost fv = files.deep_view();
    let mut rest = sort::reversed(files);
    let mut out: Vec<(String, Vec<u8>)> = values::empty();
    let ghost mut k: int = 0;
    while rest.len() > 0
        invariant
            0 <= k <= fv.len(),
            rest.deep_view() == fv.skip(k).reverse(),
            jars_from(fv, 0, Seq::empty()) == jars_from(fv, k, out.deep_view()),
        decreases rest@.len(),
    {
        let ghost av = rest.deep_view();
        proof {
            assert(av.len() == rest@.len());
            assert(av[av.len() - 1] == fv[k]);
        }
        if let Some(x) = rest.pop() {
            proof {
                assert(x.deep_view() == fv[k]);
                assert(rest.deep_view() =~= av.drop_last());
                assert(av.drop_last() =~= fv.skip(k + 1).reverse());
            }
            let jar = match text::split_extension(x.0.as_str()).1 {
                Some(e) => text::str_eq(e.as_str(), "jar"),
                None => false,
            };
            if jar {
                values::push(&mut out, x);
            }
            proof {
                k = k + 1;
            }
        }
    }
    sort::sort_by(out, &jar_in_order, Ghost(jar_le()))
}

/// Like [`javalib_jars`], falling back to the jars among the files that another tool found
/// in `javalib`, if any, where the package cannot be read.
pub fn javalib_jars_at(bytes: &[u8], unpacked: Option<Vec<(String, Vec<u8>)>>) -> (r: Result<
    Vec<(String, Vec<u8>)>,
    ApexError,
>)
    ensures
        match r {
            Ok(v) => match package_jars(bytes@) {
                Ok(jars) => jars == v.deep_view(),
                Err(_) => unpacked matches Some(files) && v.deep_view() == jars_among(
                    files.deep_view(),
                ),
            },
            Err(e) => package_jars(bytes@) == Err::<Seq<(Seq<char>, Seq<u8>)>, ApexError>(e)
                && unpacked is None,
        },
{
    match javalib_jars(bytes) {
        Ok(jars) => Ok(jars),
        Err(native) => match unpacked {
            Some(files) => Ok(keep_jars(files)),
            None => Err(native),
        },
    }
}

} // verus!

//! Zip archives in memory, through the `zip` crate.

use std::io::{Cursor, Read};
use vstd::prelude::*;

verus! {

/// `zip::ZipArchive`: an open archive.
#[verifier::external_type_specification]
#[verifier::external_body]
#[verifier::reject_recursive_types(R)]
pub struct ExZipArchive<R>(zip::ZipArchive<R>);

/// `std::io::Cursor`: bytes read from a position.
#[verifier::external_type_specification]
#[verifier::external_body]
#[verifier::reject_recursive_types(T)]
pub struct ExCursor<T>(Cursor<T>);

/// `zip::result::ZipError`: why an archive or one of its members cannot be read.
#[verifier::external_type_specification]
#[verifier::external_body]
pub struct ExZipError(zip::result::ZipError);

/// The bytes that an open archive was opened on.
pub uninterp spec fn source(z: zip::ZipArchive<Cursor<Vec<u8>>>) -> Seq<u8>;

/// How many members the archive has, where the bytes are one.
pub uninterp spec fn member_count(bytes: Seq<u8>) -> Option<nat>;

/// The name of the `i`th member, and whether it is a regular file, where it can be
/// opened.
pub uninterp spec fn member_at(bytes: Seq<u8>, i: nat) -> Option<(Seq<char>, bool)>;

/// The data of the `i`th member, where it can be read.
pub uninterp spec fn member_data(bytes: Seq<u8>, i: nat) -> Option<Seq<u8>>;

/// What a member of that name holds: nothing where there is none, else its data where
/// it can be read.
pub uninterp spec fn member_named(bytes: Seq<u8>, name: Seq<char>) -> Option<Option<Seq<u8>>>;

/// `zip::ZipArchive::new` over the bytes: opens them if they are an archive.
#[verifier::external_body]
pub(crate) fn open_archive(bytes: Vec<u8>) -> (r: Result<
    zip::ZipArchive<Cursor<Vec<u8>>>,
    zip::result::ZipError,
>)
    ensures
        match r {
            Ok(z) => source(z) == bytes@ && member_count(bytes@) is Some,
            Err(_) => member_count(bytes@) is None,
        },
{
    zip::ZipArchive::new(Cursor::new(bytes))
}

/// `zip::ZipArchive::len`: the number of members.
#[verifier::external_body]
pub(crate) fn archive_len(z: &zip::ZipArchive<Cursor<Vec<u8>>>) -> (r: usize)
    ensures
        member_count(source(*z)) == Some(r as nat),
{
    z.len()
}

/// `zip::ZipArchive::by_index`: opens the `i`th member for its name and its kind. The
/// archive stays the one it was.
#[verifier::external_body]
pub(crate) fn archive_member(z: &mut zip::ZipArchive<Cursor<Vec<u8>>>, i: usize) -> (r: Result<
    (String, bool),
    zip::result::ZipError,
>)
    ensures
        source(*final(z)) == source(*old(z)),
        match r {
            Ok(m) => member_at(source(*old(z)), i as nat) == Some((m.0@, m.1)),
            Err(_) => member_at(source(*old(z)), i as nat) is None,
        },
{
    let e = z.by_index(i)?;
    Ok((e.name().to_string(), e.is_file()))
}

/// `zip::read::ZipFile` read to its end: the data of the `i`th member. The archive
/// stays the one it was.
#[verifier::external_body]
pub(crate) fn archive_data(z: &mut zip::ZipArchive<Cursor<Vec<u8>>>, i: usize) -> (r: Result<
    Vec<u8>,
    zip::result::ZipError,
>)
    ensures
        source(*final(z)) == source(*old(z)),
        match r {
            Ok(v) => member_data(source(*old(z)), i as nat) == Some(v@),
            Err(_) => member_data(source(*old(z)), i as nat) is None,
        },
{
    let mut buf = Vec::new();
    z.by_index(i)?.read_to_end(&mut buf)?;
    Ok(buf)
}

/// `zip::ZipArchive::by_name`, read to its end: the data of the member of that name, or
/// nothing without one. The archive stays the one it was.
#[verifier::external_body]
pub(crate) fn archive_named(z: &mut zip::ZipArchive<Cursor<Vec<u8>>>, name: &str) -> (r: Result<
    Option<Vec<u8>>,
    zip::result::ZipError,
>)
    ensures
        source(*final(z)) == source(*old(z)),
        match r {
            Ok(Some(v)) => member_named(source(*old(z)), name@) == Some(Some(v@)),
            Ok(None) => member_named(source(*old(z)), name@) is None,
            Err(_) => member_named(source(*old(z)), name@) == Some(None::<Seq<u8>>),
        },
{
    let mut buf = Vec::new();
    match z.by_name(name) {
        Ok(mut e) => e.read_to_end(&mut buf)?,
        Err(zip::result::ZipError::FileNotFound) => return Ok(None),
        Err(e) => return Err(e),
    };
    Ok(Some(buf))
}

} // verus!

//! Output and input that may be gzipped, through the `flate2` crate.

use crate::text;
use std::io::{Read, Write};
use vstd::prelude::*;

verus! {

/// What `flate2` makes of the bytes as a gzip member, at the default level, where it can.
pub uninterp spec fn gzip_of(b: Seq<u8>) -> Option<Seq<u8>>;

/// What the first gzip member of the bytes holds, where they begin with a whole one.
pub uninterp spec fn gunzip_of(z: Seq<u8>) -> Option<Seq<u8>>;

/// `flate2::write::GzEncoder` over a vector, at the default level: the bytes as one gzip
/// member, which reads back as the bytes, or nothing where it reports an error.
#[verifier::external_body]
fn compress(b: &[u8]) -> (r: Option<Vec<u8>>)
    ensures
        match r {
            Some(z) => gzip_of(b@) == Some(z@) && gunzip_of(z@) == Some(b@),
            None => gzip_of(b@) is None,
        },
{
    let mut gz = flate2::write::GzEncoder::new(Vec::new(), flate2::Compression::default());
    gz.write_all(b).ok()?;
    gz.finish().ok()
}

/// `flate2::read::GzDecoder`, read to its end or to the first error: the bytes that came
/// out, and whether they are all that the first gzip member holds. What comes out of a
/// damaged member before the error depends on the sizes of the reads, and is left unsaid.
#[verifier::external_body]
fn decompress(z: &[u8]) -> (r: (Vec<u8>, bool))
    ensures
        r.1 ==> gunzip_of(z@) == Some(r.0@),
        !r.1 ==> gunzip_of(z@) is None,
{
    let mut b = Vec::new();
    let end = flate2::read::GzDecoder::new(z).read_to_end(&mut b);
    (b, end.is_ok())
}

/// A path whose file name ends in `.gz` names gzipped data.
pub open spec fn names_gzip(path: Seq<char>) -> bool {
    text::components(path).len() > 0 && text::extension(text::components(path).last()) == Some(
        "gz"@,
    )
}

/// A path whose file name ends in `.gz` names gzipped data.
pub fn is_gzip(path: &str) -> (r: bool)
    ensures
        r == names_gzip(path@),
{
    let mut parts = text::path_components(path);
    let ghost all = parts.deep_view();
    match parts.pop() {
        None => false,
        Some(name) => {
            proof {
                assert(all.last() == name@);
            }
            match text::split_extension(name.as_str()).1 {
                None => false,
                Some(e) => text::str_eq(e.as_str(), "gz"),
            }
        },
    }
}

/// `z` is `b` as it is stored, gzipped or plain.
pub open spec fn stores(z: Seq<u8>, b: Seq<u8>, gz: bool) -> bool {
    if gz {
        gzip_of(b) == Some(z) && gunzip_of(z) == Some(b)
    } else {
        z == b
    }
}

/// The bytes as they are stored, gzipped or plain.
pub fn pack(b: Vec<u8>, gz: bool) -> (r: Option<Vec<u8>>)
    ensures
        match r {
            Some(z) => stores(z@, b@, gz),
            None => gz && gzip_of(b@) is None,
        },
{
    if gz {
        compress(b.as_slice())
    } else {
        Some(b)
    }
}

/// What the stored bytes hold, where they can be read.
pub open spec fn held(z: Seq<u8>, gz: bool) -> Option<Seq<u8>> {
    if gz {
        gunzip_of(z)
    } else {
        Some(z)
    }
}

/// What came out of stored bytes.
pub struct Unpacked {
    pub bytes: Vec<u8>,
    /// nothing is missing or damaged.
    pub whole: bool,
}

/// What the stored bytes hold, and whether that is all.
pub fn unpack(z: Vec<u8>, gz: bool) -> (r: Unpacked)
    ensures
        r.whole ==> held(z@, gz) == Some(r.bytes@),
        !r.whole ==> held(z@, gz) is None,
{
    if gz {
        let (bytes, whole) = decompress(z.as_slice());
        Unpacked { bytes, whole }
    } else {
        Unpacked { bytes: z, whole: true }
    }
}

/// What is stored is held: reading gives back what was written, gzipped or not.
pub proof fn law_unpack_undoes_pack(z: Seq<u8>, b: Seq<u8>, gz: bool)
    requires
        stores(z, b, gz),
    ensures
        held(z, gz) == Some(b),
{
}

} // verus!

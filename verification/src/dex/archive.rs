//! Extraction of DEX section blobs from the artifacts that actually carry dex: a bare
//! `.dex`, a zip-family archive (`.jar`/`.apk`/`.zip`/`.aar`), an APEX (whose
//! `javalib/*.jar` were read out of the payload image), a directory of them, or a zip
//! that nests more jars/apks. Archives are read in memory and recognized by magic
//! first, then extension, so an odd name still works.

use crate::dex::zipped;
use crate::text;
use vstd::prelude::*;
use vstd::slice::slice_to_vec;

verus! {

/// Archives nested deeper than this are left alone.
pub const MAX_DEPTH: usize = 8;

/// Why an artifact gives no blobs.
#[derive(Debug, Clone, Copy, PartialEq, Eq, Structural)]
pub enum ArchiveError {
    /// What should be a zip cannot be opened as one.
    NotZip,
    /// A member of a zip cannot be opened.
    BadMember,
    /// A member of a zip cannot be read.
    UnreadableMember,
}

/// The bytes begin as a DEX section.
pub open spec fn dex_magic(b: Seq<u8>) -> bool {
    b.len() >= 4 && b[0] == 0x64 && b[1] == 0x65 && b[2] == 0x78 && b[3] == 0x0a
}

/// The bytes begin as a zip.
pub open spec fn zip_magic(b: Seq<u8>) -> bool {
    b.len() >= 4 && b[0] == 0x50 && b[1] == 0x4b && b[2] == 3 && b[3] == 4
}

/// The name ends like that of a zip-family archive.
pub open spec fn zip_ext(name: Seq<char>) -> bool {
    let e = text::tail_of(name, '.');
    e == "jar"@ || e == "apk"@ || e == "zip"@ || e == "aar"@
}

/// A member of that name could hold dex.
pub open spec fn worth(name: Seq<char>) -> bool {
    text::ends(name, ".dex"@) || text::begins(name, "classes"@) || zip_ext(name)
}

/// The blobs of an artifact, behind `acc`.
pub open spec fn collected(
    name: Seq<char>,
    bytes: Seq<u8>,
    depth: int,
    acc: Seq<Seq<u8>>,
) -> Result<Seq<Seq<u8>>, ArchiveError>
    decreases MAX_DEPTH - depth, 1int, 0int,
{
    if depth > MAX_DEPTH {
        Ok(acc)
    } else if dex_magic(bytes) {
        Ok(acc.push(bytes))
    } else if zip_magic(bytes) || zip_ext(name) {
        match zipped::member_count(bytes) {
            None => Err(ArchiveError::NotZip),
            Some(n) => members(bytes, 0, n as int, depth, acc),
        }
    } else {
        Ok(acc)
    }
}

/// The blobs of a zip's members from the `i`th on, behind `acc`.
pub open spec fn members(
    bytes: Seq<u8>,
    i: int,
    n: int,
    depth: int,
    acc: Seq<Seq<u8>>,
) -> Result<Seq<Seq<u8>>, ArchiveError>
    decreases MAX_DEPTH - depth, 0int, n - i,
{
    if i >= n {
        Ok(acc)
    } else {
        match zipped::member_at(bytes, i as nat) {
            None => Err(ArchiveError::BadMember),
            Some((path, is_file)) => {
                let name = text::tail_of(path, '/');
                if !is_file || !worth(name) {
                    members(bytes, i + 1, n, depth, acc)
                } else {
                    match zipped::member_data(bytes, i as nat) {
                        None => Err(ArchiveError::UnreadableMember),
                        Some(data) => {
                            // Past the depth limit a member is left alone.
                            let inner = if depth < MAX_DEPTH {
                                collected(name, data, depth + 1, acc)
                            } else {
                                Ok(acc)
                            };
                            match inner {
                                Err(e) => Err(e),
                                Ok(acc) => members(bytes, i + 1, n, depth, acc),
                            }
                        },
                    }
                }
            },
        }
    }
}

/// An artifact as it was read: a file, or the jars unpacked from a package.
pub enum Source {
    File { name: String, bytes: Vec<u8> },
    Jars(Vec<(String, Vec<u8>)>),
}

/// What an artifact holds.
pub enum SourceV {
    File { name: Seq<char>, bytes: Seq<u8> },
    Jars(Seq<(Seq<char>, Seq<u8>)>),
}

impl DeepView for Source {
    type V = SourceV;

    open spec fn deep_view(&self) -> SourceV {
        match self {
            Source::File { name, bytes } => SourceV::File { name: name@, bytes: bytes@ },
            Source::Jars(v) => SourceV::Jars(v.deep_view()),
        }
    }
}

/// The blobs of unpacked jars from the `k`th on, behind `acc`; each is one level deep.
pub open spec fn from_jars(jars: Seq<(Seq<char>, Seq<u8>)>, k: int, acc: Seq<Seq<u8>>) -> Result<
    Seq<Seq<u8>>,
    ArchiveError,
>
    decreases jars.len() - k,
{
    if k >= jars.len() {
        Ok(acc)
    } else {
        match collected(jars[k].0, jars[k].1, 1, acc) {
            Err(e) => Err(e),
            Ok(acc) => from_jars(jars, k + 1, acc),
        }
    }
}

/// The blobs of the artifacts from the `k`th on, behind `acc`.
pub open spec fn blobs(sources: Seq<SourceV>, k: int, acc: Seq<Seq<u8>>) -> Result<
    Seq<Seq<u8>>,
    ArchiveError,
>
    decreases sources.len() - k,
{
    if k >= sources.len() {
        Ok(acc)
    } else {
        let one = match sources[k] {
            SourceV::File { name, bytes } => collected(name, bytes, 0, acc),
            SourceV::Jars(jars) => from_jars(jars, 0, acc),
        };
        match one {
            Err(e) => Err(e),
            Ok(acc) => blobs(sources, k + 1, acc),
        }
    }
}

fn starts_as_dex(b: &[u8]) -> (r: bool)
    ensures
        r == dex_magic(b@),
{
    b.len() >= 4 && b[0] == 0x64 && b[1] == 0x65 && b[2] == 0x78 && b[3] == 0x0a
}

fn starts_as_zip(b: &[u8]) -> (r: bool)
    ensures
        r == zip_magic(b@),
{
    b.len() >= 4 && b[0] == 0x50 && b[1] == 0x4b && b[2] == 3 && b[3] == 4
}

/// The last component of a member's path.
pub fn base(name: &str) -> (r: String)
    ensures
        r@ == text::tail_of(name@, '/'),
{
    text::after_last(name, '/')
}

/// Recurse only into members that could hold dex.
pub fn interesting(name: &str) -> (r: bool)
    ensures
        r == worth(name@),
{
    text::ends_with(name, ".dex") || text::starts_with(name, "classes") || is_zip_ext(name)
}

/// The name ends like that of a zip-family archive.
pub fn is_zip_ext(name: &str) -> (r: bool)
    ensures
        r == zip_ext(name@),
{
    let e = text::after_last(name, '.');
    let e = e.as_str();
    text::str_eq(e, "jar") || text::str_eq(e, "apk") || text::str_eq(e, "zip") || text::str_eq(
        e,
        "aar",
    )
}

proof fn lemma_pushed(out: &Vec<Vec<u8>>, before: Seq<Seq<u8>>, v: Seq<u8>)
    requires
        out@.len() == before.len() + 1,
        forall|i: int| 0 <= i < before.len() ==> out@[i]@ == before[i],
        out@[before.len() as int]@ == v,
    ensures
        blob_views(out) == before.push(v),
{
    assert(blob_views(out) =~= before.push(v));
}

/// The contents of each blob.
pub open spec fn blob_views(v: &Vec<Vec<u8>>) -> Seq<Seq<u8>> {
    Seq::new(v@.len(), |i: int| v@[i]@)
}

/// Every DEX blob in an artifact goes behind `out`, its members' in the archive's order.
pub fn collect_bytes(name: &str, bytes: Vec<u8>, out: &mut Vec<Vec<u8>>, depth: usize) -> (r:
    Result<(), ArchiveError>)
    requires
        depth <= MAX_DEPTH + 1,
    ensures
        match r {
            Ok(_) => collected(name@, bytes@, depth as int, blob_views(old(out))) == Ok::<
                Seq<Seq<u8>>,
                ArchiveError,
            >(blob_views(final(out))),
            Err(e) => collected(name@, bytes@, depth as int, blob_views(old(out))) == Err::<
                Seq<Seq<u8>>,
                ArchiveError,
            >(e),
        },
    decreases MAX_DEPTH + 1 - depth,
{
    if depth > MAX_DEPTH {
        return Ok(());
    }
    if starts_as_dex(&bytes) {
        let ghost before = blob_views(out);
        out.push(bytes);
        proof {
            lemma_pushed(out, before, bytes@);
        }
        return Ok(());
    }
    if !(starts_as_zip(&bytes) || is_zip_ext(name)) {
        return Ok(());
    }
    let ghost src = bytes@;
    let mut z = match zipped::open_archive(bytes) {
        Ok(z) => z,
        Err(_) => return Err(ArchiveError::NotZip),
    };
    let n = zipped::archive_len(&z);
    let mut i: usize = 0;
    while i < n
        invariant
            depth <= MAX_DEPTH,
            i <= n,
            zipped::source(z) == src,
            src == bytes@,
            collected(name@, bytes@, depth as int, blob_views(old(out))) == members(
                src,
                i as int,
                n as int,
                depth as int,
                blob_views(out),
            ),
        decreases n - i,
    {
        let (path, is_file) = match zipped::archive_member(&mut z, i) {
            Ok(m) => m,
            Err(_) => return Err(ArchiveError::BadMember),
        };
        let ename = base(path.as_str());
        if is_file && interesting(ename.as_str()) {
            let data = match zipped::archive_data(&mut z, i) {
                Ok(d) => d,
                Err(_) => return Err(ArchiveError::UnreadableMember),
            };
            match collect_bytes(ename.as_str(), data, out, depth + 1) {
                Ok(_) => {},
                Err(e) => return Err(e),
            }
        }
        i += 1;
    }
    Ok(())
}

/// Every DEX blob in the artifacts, in their order.
pub fn dex_blobs(sources: Vec<Source>) -> (r: Result<Vec<Vec<u8>>, ArchiveError>)
    ensures
        match r {
            Ok(v) => blobs(sources.deep_view(), 0, Seq::empty()) == Ok::<
                Seq<Seq<u8>>,
                ArchiveError,
            >(blob_views(&v)),
            Err(e) => blobs(sources.deep_view(), 0, Seq::empty()) == Err::<
                Seq<Seq<u8>>,
                ArchiveError,
            >(e),
        },
{
    let ghost all = sources.deep_view();
    let mut out: Vec<Vec<u8>> = Vec::new();
    proof {
        assert(blob_views(&out) =~= Seq::empty());
    }
    let mut k: usize = 0;
    while k < sources.len()
        invariant
            all == sources.deep_view(),
            k <= sources@.len(),
            blobs(all, 0, Seq::empty()) == blobs(all, k as int, blob_views(&out)),
        decreases sources@.len() - k,
    {
        proof {
            assert(all[k as int] == sources@[k as int].deep_view());
        }
        match &sources[k] {
            Source::File { name, bytes } => {
                match collect_bytes(name.as_str(), slice_to_vec(bytes.as_slice()), &mut out, 0) {
                    Ok(_) => {},
                    Err(e) => return Err(e),
                }
            },
            Source::Jars(jars) => {
                let ghost js = jars.deep_view();
                let ghost start = blob_views(&out);
                let mut j: usize = 0;
                while j < jars.len()
                    invariant
                        js == jars.deep_view(),
                        j <= jars@.len(),
                        from_jars(js, 0, start) == from_jars(js, j as int, blob_views(&out)),
                        match from_jars(js, 0, start) {
                            Err(e) => blobs(all, 0, Seq::empty()) == Err::<
                                Seq<Seq<u8>>,
                                ArchiveError,
                            >(e),
                            Ok(_) => true,
                        },
                        all == sources.deep_view(),
                    decreases jars@.len() - j,
                {
                    proof {
                        crate::bytes::lemma_deep(&jars@[j as int].1);
                        assert(js[j as int] == (jars@[j as int].0@, jars@[j as int].1@));
                    }
                    match collect_bytes(
                        jars[j].0.as_str(),
                        slice_to_vec(jars[j].1.as_slice()),
                        &mut out,
                        1,
                    ) {
                        Ok(_) => {},
                        Err(e) => return Err(e),
                    }
                    j += 1;
                }
            },
        }
        k += 1;
    }
    Ok(out)
}

/// The files of a directory that carry dex, and whether they stand in its
/// `soong/system_server_dexjars`.
pub struct Picked {
    pub soong: bool,
    pub names: Vec<String>,
}

/// A jar of `system_server_dexjars` in scope: one whose stem contains the scope, where
/// there is one.
pub open spec fn scoped(scope: Option<Seq<char>>) -> spec_fn(Seq<char>) -> bool {
    |name: Seq<char>|
        text::extension(name) == Some("jar"@) && match scope {
            None => true,
            Some(s) => text::occurs(text::stem(name), s),
        }
}

/// A file that can carry dex.
pub open spec fn bearing() -> spec_fn(Seq<char>) -> bool {
    |name: Seq<char>|
        {
            let e = text::extension(name);
            e == Some("jar"@) || e == Some("apk"@) || e == Some("zip"@) || e == Some("aar"@) || e
                == Some("dex"@) || e == Some("apex"@) || e == Some("capex"@)
        }
}

fn is_scoped(name: &str, scope: Option<&str>) -> (r: bool)
    ensures
        r == scoped(scope.deep_view())(name@),
{
    let (stem, ext) = text::split_extension(name);
    let is_jar = match &ext {
        Some(e) => text::str_eq(e.as_str(), "jar"),
        None => false,
    };
    let in_scope = match scope {
        None => true,
        Some(s) => text::contains(stem.as_str(), s),
    };
    is_jar && in_scope
}

fn is_bearing(name: &str) -> (r: bool)
    ensures
        r == bearing()(name@),
{
    let (_, ext) = text::split_extension(name);
    match &ext {
        None => false,
        Some(e) => {
            let e = e.as_str();
            text::str_eq(e, "jar") || text::str_eq(e, "apk") || text::str_eq(e, "zip")
                || text::str_eq(e, "aar") || text::str_eq(e, "dex") || text::str_eq(e, "apex") || text::str_eq(e, "capex")
        },
    }
}

/// Dex-bearing jars in a directory: those of `soong`, its `system_server_dexjars`, if
/// any is in scope, else every artifact of `plain`, the directory itself.
pub fn soong_jars(soong: &Vec<String>, plain: &Vec<String>, scope: Option<&str>) -> (r: Picked)
    ensures
        r.soong == (soong.deep_view().filter(scoped(scope.deep_view())).len() > 0),
        r.names.deep_view() == (if r.soong {
            soong.deep_view().filter(scoped(scope.deep_view()))
        } else {
            plain.deep_view().filter(bearing())
        }),
{
    let ghost sv = soong.deep_view();
    let ghost pv = plain.deep_view();
    let ghost f = scoped(scope.deep_view());
    let mut out: Vec<String> = Vec::new();
    let mut k: usize = 0;
    proof {
        reveal(Seq::filter);
        assert(out.deep_view() =~= sv.take(0).filter(f));
    }
    while k < soong.len()
        invariant
            k <= soong@.len(),
            sv == soong.deep_view(),
            f == scoped(scope.deep_view()),
            out.deep_view() == sv.take(k as int).filter(f),
        decreases soong@.len() - k,
    {
        let ghost before = out.deep_view();
        proof {
            reveal(Seq::filter);
            assert(sv.take(k + 1).drop_last() =~= sv.take(k as int));
            assert(sv.take(k + 1).last() == soong@[k as int]@);
        }
        if is_scoped(soong[k].as_str(), scope) {
            out.push(soong[k].clone());
            proof {
                assert(out.deep_view() =~= before.push(soong@[k as int]@));
            }
        }
        k += 1;
    }
    proof {
        assert(sv.take(k as int) =~= sv);
    }
    if out.len() > 0 {
        return Picked { soong: true, names: out };
    }
    let mut out: Vec<String> = Vec::new();
    let mut k: usize = 0;
    proof {
        reveal(Seq::filter);
        assert(out.deep_view() =~= pv.take(0).filter(bearing()));
    }
    while k < plain.len()
        invariant
            k <= plain@.len(),
            pv == plain.deep_view(),
            out.deep_view() == pv.take(k as int).filter(bearing()),
        decreases plain@.len() - k,
    {
        let ghost before = out.deep_view();
        proof {
            reveal(Seq::filter);
            assert(pv.take(k + 1).drop_last() =~= pv.take(k as int));
            assert(pv.take(k + 1).last() == plain@[k as int]@);
        }
        if is_bearing(plain[k].as_str()) {
            out.push(plain[k].clone());
            proof {
                assert(out.deep_view() =~= before.push(plain@[k as int]@));
            }
        }
        k += 1;
    }
    proof {
        assert(pv.take(k as int) =~= pv);
    }
    Picked { soong: false, names: out }
}

} // verus!

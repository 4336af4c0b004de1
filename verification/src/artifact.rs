//! The DEX-bearing files (`.jar` / `.apk`) of a build's archive.

use crate::dex::zipped;
use crate::text;
use vstd::prelude::*;

verus! {

/// Why an archive was not unpacked.
#[derive(Clone, Copy, Debug, PartialEq, Eq, Structural)]
pub enum ArtifactError {
    /// The bytes are no zip archive.
    Archive,
    /// An entry cannot be read.
    Entry,
}

impl ArtifactError {
    /// What the error says.
    pub fn message(&self) -> (r: &'static str)
        ensures
            r@ == match *self {
                ArtifactError::Archive => "not a zip archive"@,
                ArtifactError::Entry => "an entry of the archive cannot be read"@,
            },
    {
        match self {
            ArtifactError::Archive => "not a zip archive",
            ArtifactError::Entry => "an entry of the archive cannot be read",
        }
    }
}

/// The entry carries DEX: its name is that of a jar or an apk.
pub open spec fn bears_dex(name: Seq<char>) -> bool {
    text::ends(name, ".jar"@) || text::ends(name, ".apk"@)
}

/// The name under which the `i`th entry is unpacked: its base name behind its number, so
/// that equal base names in different directories do not collide.
pub open spec fn out_name(i: nat, name: Seq<char>) -> Seq<char> {
    text::padded(i, 4) + "_"@ + text::tail_of(name, '/')
}

/// The `i`th entry is unpacked.
pub open spec fn is_target(b: Seq<u8>, i: nat) -> bool {
    match zipped::member_at(b, i) {
        Some((name, is_file)) => is_file && bears_dex(name),
        None => false,
    }
}

/// The name of the `i`th entry.
pub open spec fn entry_name(b: Seq<u8>, i: nat) -> Seq<char> {
    match zipped::member_at(b, i) {
        Some((name, _)) => name,
        None => Seq::empty(),
    }
}

/// The files of the entries from the `i`th up to the `n`th behind `acc`, where each can be
/// read.
pub open spec fn files_from(
    b: Seq<u8>,
    i: nat,
    n: nat,
    acc: Seq<(Seq<char>, Seq<u8>)>,
) -> Option<Seq<(Seq<char>, Seq<u8>)>>
    decreases n - i,
{
    if i >= n {
        Some(acc)
    } else if !is_target(b, i) {
        files_from(b, i + 1, n, acc)
    } else {
        match zipped::member_data(b, i) {
            None => None,
            Some(data) => files_from(
                b,
                i + 1,
                n,
                acc.push((out_name(i, entry_name(b, i)), data)),
            ),
        }
    }
}

/// The files that an archive is unpacked to.
pub open spec fn unpacked(b: Seq<u8>) -> Result<Seq<(Seq<char>, Seq<u8>)>, ArtifactError> {
    match zipped::member_count(b) {
        None => Err(ArtifactError::Archive),
        Some(n) => match files_from(b, 0, n, Seq::empty()) {
            None => Err(ArtifactError::Entry),
            Some(files) => Ok(files),
        },
    }
}

/// A file with its name.
pub struct Unpacked {
    pub name: String,
    pub data: Vec<u8>,
}

impl DeepView for Unpacked {
    type V = (Seq<char>, Seq<u8>);

    open spec fn deep_view(&self) -> (Seq<char>, Seq<u8>) {
        (self.name@, self.data@)
    }
}

/// Whether an entry of that name is unpacked.
pub fn is_dex_bearing(name: &str) -> (r: bool)
    ensures
        r == bears_dex(name@),
{
    text::ends_with(name, ".jar") || text::ends_with(name, ".apk")
}

/// The name under which the `i`th entry is unpacked.
pub fn target_name(i: usize, name: &str) -> (r: String)
    ensures
        r@ == out_name(i as nat, name@),
{
    let base = base_name(name);
    text::cat3(text::padded_of(i as u64, 4).as_str(), "_", base.as_str())
}

/// The base name of an entry.
pub fn base_name(zip_name: &str) -> (r: String)
    ensures
        r@ == text::tail_of(zip_name@, '/'),
{
    text::after_last(zip_name, '/')
}

/// Every `.jar` / `.apk` entry of a zip archive, flattened.
pub fn extract_dex_bearing(bytes: Vec<u8>) -> (r: Result<Vec<Unpacked>, ArtifactError>)
    ensures
        match r {
            Ok(files) => unpacked(bytes@) == Ok::<_, ArtifactError>(files.deep_view()),
            Err(e) => unpacked(bytes@) == Err::<Seq<(Seq<char>, Seq<u8>)>, ArtifactError>(e),
        },
{
    let ghost b = bytes@;
    let mut zip = match zipped::open_archive(bytes) {
        Err(_) => {
            return Err(ArtifactError::Archive);
        },
        Ok(z) => z,
    };
    let n = zipped::archive_len(&zip);
    let mut files: Vec<Unpacked> = crate::values::empty();
    let mut i: usize = 0;
    while i < n
        invariant
            i <= n,
            b == bytes@,
            zipped::source(zip) == b,
            zipped::member_count(b) == Some(n as nat),
            unpacked(b) == (match files_from(b, i as nat, n as nat, files.deep_view()) {
                None => Err(ArtifactError::Entry),
                Some(files) => Ok(files),
            }),
        decreases n - i,
    {
        match zipped::archive_member(&mut zip, i) {
            Err(_) => {},
            Ok((name, is_file)) => {
                if is_file && is_dex_bearing(name.as_str()) {
                    match zipped::archive_data(&mut zip, i) {
                        Err(_) => {
                            return Err(ArtifactError::Entry);
                        },
                        Ok(data) => {
                            let name = target_name(i, name.as_str());
                            crate::values::push(&mut files, Unpacked { name, data });
                        },
                    }
                }
            },
        }
        i += 1;
    }
    Ok(files)
}

proof fn lemma_dec_value(n: nat)
    ensures
        text::digits_value(text::dec(n)) == n,
        text::dec(n).len() > 0,
        forall|i: int| 0 <= i < text::dec(n).len() ==> text::is_digit(#[trigger] text::dec(n)[i]),
    decreases n,
{
    let d = text::dec(n);
    if n < 10 {
        assert(text::digits_value(d.drop_last()) == 0);
        assert(d.last() as nat == 48 + n);
    } else {
        lemma_dec_value(n / 10);
        assert(d.drop_last() =~= text::dec(n / 10));
        assert(d.last() as nat == 48 + n % 10);
    }
}

proof fn lemma_leading_zero(s: Seq<char>)
    ensures
        text::digits_value(seq!['0'] + s) == text::digits_value(s),
    decreases s.len(),
{
    let z = seq!['0'] + s;
    if s.len() == 0 {
        assert(z.drop_last() =~= Seq::empty());
        assert(z.last() == '0');
        assert(s =~= Seq::empty());
    } else {
        lemma_leading_zero(s.drop_last());
        assert(z.drop_last() =~= seq!['0'] + s.drop_last());
        assert(z.last() == s.last());
    }
}

proof fn lemma_padded(n: nat, width: nat)
    ensures
        text::digits_value(text::padded(n, width)) == n,
        forall|i: int|
            0 <= i < text::padded(n, width).len() ==> text::is_digit(
                #[trigger] text::padded(n, width)[i],
            ),
    decreases width,
{
    lemma_dec_value(n);
    if width > text::dec(n).len() {
        lemma_padded(n, (width - 1) as nat);
        lemma_leading_zero(text::padded(n, (width - 1) as nat));
    }
}

/// Different entries are unpacked under different names.
pub proof fn law_unpacked_names_do_not_collide(i: nat, a: Seq<char>, j: nat, b: Seq<char>)
    requires
        i != j,
    ensures
        out_name(i, a) != out_name(j, b),
{
    reveal_strlit("_");
    let p = text::padded(i, 4);
    let q = text::padded(j, 4);
    let x = out_name(i, a);
    let y = out_name(j, b);
    lemma_padded(i, 4);
    lemma_padded(j, 4);
    assert(x[p.len() as int] == '_');
    assert(y[q.len() as int] == '_');
    if x == y {
        if p.len() < q.len() {
            assert(y[p.len() as int] == q[p.len() as int]);
        } else if q.len() < p.len() {
            assert(x[q.len() as int] == p[q.len() as int]);
        } else {
            assert forall|k: int| 0 <= k < p.len() implies p[k] == q[k] by {
                assert(x[k] == p[k] && y[k] == q[k]);
            }
            assert(p =~= q);
        }
    }
}

} // verus!

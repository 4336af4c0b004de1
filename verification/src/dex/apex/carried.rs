//! Which jars a package carries, and which artifacts may carry DEX.

use crate::dex::apex;
use crate::dex::apex::{erofs, ext4, ApexError};
use crate::dex::archive;
use crate::dex::archive::ArchiveError;
use crate::dex::ctx::answers;
use crate::dex::named;
use crate::dex::zipped;
use crate::sort;
use crate::text;
use vstd::prelude::*;

verus! {

/// A text ends with another exactly where it is something before that.
pub proof fn lemma_ends(s: Seq<char>, p: Seq<char>)
    ensures
        text::ends(s, p) <==> exists|head: Seq<char>| s == #[trigger] (head + p),
{
    if text::ends(s, p) {
        let head = s.take(s.len() - p.len());
        assert(s =~= head + p);
    }
    if exists|head: Seq<char>| s == #[trigger] (head + p) {
        let head = choose|head: Seq<char>| s == #[trigger] (head + p);
        assert(s.skip(s.len() - p.len()) =~= p);
    }
}

/// The name is that of a jar.
pub open spec fn is_jar(name: Seq<char>) -> bool {
    exists|head: Seq<char>| name == #[trigger] (head + ".jar"@)
}

proof fn lemma_erofs_jars(
    v: erofs::Volume,
    es: Seq<erofs::Dirent>,
    k: int,
    acc: Seq<(Seq<char>, Seq<u8>)>,
    x: (Seq<char>, Seq<u8>),
)
    requires
        0 <= k,
    ensures
        apex::erofs_jars(v, es, k, acc) matches Ok(r) ==> (r.contains(x) <==> acc.contains(x)
            || exists|i: int|
            k <= i < es.len() && (#[trigger] es[i]).ftype == 1 && is_jar(es[i].name) && x.0 == es[i].name
                && v.file(es[i].nid) == Ok::<_, erofs::ErofsError>(x.1)),
    decreases es.len() - k,
{
    if k < es.len() {
        lemma_ends(es[k].name, ".jar"@);
        if es[k].ftype == 1 && is_jar(es[k].name) {
            match v.file(es[k].nid) {
                Ok(data) => {
                    lemma_erofs_jars(v, es, k + 1, acc.push((es[k].name, data)), x);
                    answers::lemma_pushed(acc, (es[k].name, data), x);
                },
                Err(_) => {},
            }
        } else {
            lemma_erofs_jars(v, es, k + 1, acc, x);
        }
    }
}

/// The jars of an EROFS directory are exactly its regular files whose names end in `.jar`,
/// each with its whole contents.
pub proof fn law_erofs_jars_are_the_jar_files(
    v: erofs::Volume,
    es: Seq<erofs::Dirent>,
    x: (Seq<char>, Seq<u8>),
)
    ensures
        apex::erofs_jars(v, es, 0, Seq::empty()) matches Ok(r) ==> (r.contains(x) <==> exists|i: int|
            0 <= i < es.len() && (#[trigger] es[i]).ftype == 1 && is_jar(es[i].name) && x.0 == es[i].name
                && v.file(es[i].nid) == Ok::<_, erofs::ErofsError>(x.1)),
{
    lemma_erofs_jars(v, es, 0, Seq::empty(), x);
}

proof fn lemma_ext4_jars(
    v: ext4::Volume,
    es: Seq<ext4::Dirent>,
    k: int,
    acc: Seq<(Seq<char>, Seq<u8>)>,
    x: (Seq<char>, Seq<u8>),
)
    requires
        0 <= k,
    ensures
        apex::ext4_jars(v, es, k, acc) matches Ok(r) ==> (r.contains(x) <==> acc.contains(x)
            || exists|i: int|
            k <= i < es.len() && (#[trigger] es[i]).ftype == 1 && is_jar(es[i].name) && x.0 == es[i].name
                && v.file(es[i].ino) == Ok::<_, ext4::Ext4Error>(x.1)),
    decreases es.len() - k,
{
    if k < es.len() {
        lemma_ends(es[k].name, ".jar"@);
        if es[k].ftype == 1 && is_jar(es[k].name) {
            match v.file(es[k].ino) {
                Ok(data) => {
                    lemma_ext4_jars(v, es, k + 1, acc.push((es[k].name, data)), x);
                    answers::lemma_pushed(acc, (es[k].name, data), x);
                },
                Err(_) => {},
            }
        } else {
            lemma_ext4_jars(v, es, k + 1, acc, x);
        }
    }
}

/// The jars of an ext4 directory are exactly its regular files whose names end in `.jar`,
/// each with its whole contents.
pub proof fn law_ext4_jars_are_the_jar_files(
    v: ext4::Volume,
    es: Seq<ext4::Dirent>,
    x: (Seq<char>, Seq<u8>),
)
    ensures
        apex::ext4_jars(v, es, 0, Seq::empty()) matches Ok(r) ==> (r.contains(x) <==> exists|i: int|
            0 <= i < es.len() && (#[trigger] es[i]).ftype == 1 && is_jar(es[i].name) && x.0 == es[i].name
                && v.file(es[i].ino) == Ok::<_, ext4::Ext4Error>(x.1)),
{
    lemma_ext4_jars(v, es, 0, Seq::empty(), x);
}

/// The jars of an image are the jar files that are listed at `javalib`; an image without that
/// directory has none.
pub proof fn law_jars_stand_in_javalib(img: Seq<u8>, x: (Seq<char>, Seq<u8>))
    ensures
        erofs::volume(img) matches Ok(v) ==> (v.listing("javalib"@) matches Ok(found) ==> {
            &&& found is None ==> apex::erofs_javalib(img) == Ok::<Seq<(Seq<char>, Seq<u8>)>, ApexError>(Seq::empty())
            &&& found matches Some(es) ==> (apex::erofs_javalib(img) matches Ok(r) ==> (r.contains(x)
                <==> exists|i: int|
                0 <= i < es.len() && (#[trigger] es[i]).ftype == 1 && is_jar(es[i].name) && x.0
                    == es[i].name && v.file(es[i].nid) == Ok::<_, erofs::ErofsError>(x.1)))
        }),
        ext4::volume(img) matches Ok(v) ==> (v.listing("javalib"@) matches Ok(found) ==> {
            &&& found is None ==> apex::ext4_javalib(img) == Ok::<Seq<(Seq<char>, Seq<u8>)>, ApexError>(Seq::empty())
            &&& found matches Some(es) ==> (apex::ext4_javalib(img) matches Ok(r) ==> (r.contains(x)
                <==> exists|i: int|
                0 <= i < es.len() && (#[trigger] es[i]).ftype == 1 && is_jar(es[i].name) && x.0
                    == es[i].name && v.file(es[i].ino) == Ok::<_, ext4::Ext4Error>(x.1)))
        }),
{
    if let Ok(v) = erofs::volume(img) {
        if let Ok(Some(es)) = v.listing("javalib"@) {
            law_erofs_jars_are_the_jar_files(v, es, x);
        }
    }
    if let Ok(v) = ext4::volume(img) {
        if let Ok(Some(es)) = v.listing("javalib"@) {
            law_ext4_jars_are_the_jar_files(v, es, x);
        }
    }
}

/// An image gives the jars of its `javalib`, all of them and in the order of their names; an
/// image that is neither EROFS nor ext4 gives none, and that is an error.
pub proof fn law_images_give_their_javalib(img: Seq<u8>, x: (Seq<char>, Seq<u8>))
    ensures
        apex::image_jars(img) matches Ok(r) ==> {
            &&& erofs::magic(img) ==> (apex::erofs_javalib(img) matches Ok(js) && (r.contains(x)
                <==> js.contains(x)))
            &&& !erofs::magic(img) ==> ext4::magic(img) && (apex::ext4_javalib(img) matches Ok(js) && (
            r.contains(x) <==> js.contains(x)))
            &&& forall|i: int, j: int|
                0 <= i < j < r.len() ==> text::lex_le((#[trigger] r[i]).0, (#[trigger] r[j]).0)
        },
        !erofs::magic(img) && !ext4::magic(img) ==> apex::image_jars(img) == Err::<
            Seq<(Seq<char>, Seq<u8>)>,
            ApexError,
        >(ApexError::UnknownImage),
{
    text::lemma_lex_order();
    let le = apex::jar_le();
    match apex::image_jars(img) {
        Ok(r) => {
            let js = if erofs::magic(img) {
                apex::erofs_javalib(img)->Ok_0
            } else {
                apex::ext4_javalib(img)->Ok_0
            };
            sort::lemma_sorted_contains(js, le, x);
            sort::lemma_sorted(js, le);
            assert forall|i: int, j: int| 0 <= i < j < r.len() implies text::lex_le(
                (#[trigger] r[i]).0,
                (#[trigger] r[j]).0,
            ) by {
                assert(le(r[i], r[j]));
            }
        },
        Err(_) => {},
    }
}

/// A package is the zip that holds `apex_payload.img`; a compressed one holds that zip as
/// `original_apex`, and gives what that gives.
pub proof fn law_payload_is_found_by_member(b: Seq<u8>, inner: Seq<u8>, img: Seq<u8>, depth: int)
    requires
        0 <= depth < 2,
        zipped::member_count(b) is Some,
    ensures
        zipped::member_named(b, "original_apex"@) == Some(Some(inner)) ==> apex::payload_of(b, depth)
            == apex::payload_of(inner, depth + 1),
        zipped::member_named(b, "original_apex"@) is None && zipped::member_named(
            b,
            "apex_payload.img"@,
        ) == Some(Some(img)) ==> apex::payload_of(b, depth) == Ok::<_, ApexError>(img),
        zipped::member_named(b, "original_apex"@) is None && zipped::member_named(
            b,
            "apex_payload.img"@,
        ) is None ==> apex::payload_of(b, depth) == Err::<Seq<u8>, ApexError>(ApexError::NoPayload),
{
}

/// The name has that extension.
pub open spec fn has_ext(name: Seq<char>, e: Seq<char>) -> bool {
    name == e || exists|head: Seq<char>| name == #[trigger] (head + seq!['.'] + e)
}

/// The bytes begin as those of a DEX file do.
pub open spec fn is_dex(b: Seq<u8>) -> bool {
    b.len() >= 4 && b.take(4) == seq![0x64u8, 0x65, 0x78, 0x0a]
}

/// The bytes begin as those of a zip do.
pub open spec fn is_zip(b: Seq<u8>) -> bool {
    b.len() >= 4 && b.take(4) == seq![0x50u8, 0x4b, 0x03, 0x04]
}

proof fn lemma_tail(name: Seq<char>, e: Seq<char>)
    requires
        !e.contains('.'),
    ensures
        text::tail_of(name, '.') == e <==> has_ext(name, e),
{
    crate::dex::steps::lemma_tail_split(name, '.');
    if text::tail_of(name, '.') == e {
        if e != name {
            let d = choose|d: Seq<char>| name == #[trigger] (d + seq!['.'] + text::tail_of(name, '.'));
            assert(name == d + seq!['.'] + e);
        }
    }
    if has_ext(name, e) {
        if name == e {
            answers::lemma_tail(Seq::empty(), e, '.');
        } else {
            let head = choose|head: Seq<char>| name == #[trigger] (head + seq!['.'] + e);
            answers::lemma_tail(head, e, '.');
        }
    }
}

/// An artifact gives DEX exactly so: DEX bytes are a blob themselves; a zip, by its bytes or
/// by its name, gives what its members give, and one that cannot be opened is an error; and
/// anything else gives nothing.
pub proof fn law_artifacts_give_dex_by_what_they_are(
    name: Seq<char>,
    b: Seq<u8>,
    depth: int,
    acc: Seq<Seq<u8>>,
)
    requires
        0 <= depth <= 8,
    ensures
        ({
            let zip = is_zip(b) || has_ext(name, "jar"@) || has_ext(name, "apk"@) || has_ext(
                name,
                "zip"@,
            ) || has_ext(name, "aar"@);
            let r = archive::collected(name, b, depth, acc);
            &&& is_dex(b) ==> r == Ok::<_, ArchiveError>(acc.push(b))
            &&& !is_dex(b) && !zip ==> r == Ok::<_, ArchiveError>(acc)
            &&& !is_dex(b) && zip && zipped::member_count(b) is None ==> r == Err::<
                Seq<Seq<u8>>,
                ArchiveError,
            >(ArchiveError::NotZip)
            &&& !is_dex(b) && zip && zipped::member_count(b) is Some ==> r == archive::members(
                b,
                0,
                zipped::member_count(b)->0 as int,
                depth,
                acc,
            )
        }),
{
    lemma_magic(b);
    lemma_extensions(name);
}

proof fn lemma_magic(b: Seq<u8>)
    ensures
        archive::dex_magic(b) <==> is_dex(b),
        archive::zip_magic(b) <==> is_zip(b),
{
    if b.len() >= 4 {
        let t = b.take(4);
        if archive::dex_magic(b) {
            assert(t =~= seq![0x64u8, 0x65, 0x78, 0x0a]);
        }
        if archive::zip_magic(b) {
            assert(t =~= seq![0x50u8, 0x4b, 0x03, 0x04]);
        }
        if is_dex(b) {
            assert(t[0] == 0x64 && t[1] == 0x65 && t[2] == 0x78 && t[3] == 0x0a);
        }
        if is_zip(b) {
            assert(t[0] == 0x50 && t[1] == 0x4b && t[2] == 3 && t[3] == 4);
        }
    }
}

proof fn lemma_extensions(name: Seq<char>)
    ensures
        archive::zip_ext(name) <==> has_ext(name, "jar"@) || has_ext(name, "apk"@) || has_ext(
            name,
            "zip"@,
        ) || has_ext(name, "aar"@),
{
    reveal_strlit("jar");
    reveal_strlit("apk");
    reveal_strlit("zip");
    reveal_strlit("aar");
    assert forall|i: int| 0 <= i < 3 implies "jar"@[i] != '.' && "apk"@[i] != '.' && "zip"@[i]
        != '.' && "aar"@[i] != '.' by {}
    lemma_tail(name, "jar"@);
    lemma_tail(name, "apk"@);
    lemma_tail(name, "zip"@);
    lemma_tail(name, "aar"@);
}

/// A member of a zip is looked into exactly where it is a file and its name, without its
/// directories, ends in `.dex`, begins with `classes`, or is that of a zip; what it gives comes
/// behind what the members before it gave.
pub proof fn law_members_are_looked_into_by_name(
    b: Seq<u8>,
    i: int,
    n: int,
    depth: int,
    acc: Seq<Seq<u8>>,
    path: Seq<char>,
    is_file: bool,
    data: Seq<u8>,
)
    requires
        0 <= i < n,
        0 <= depth < 8,
        zipped::member_at(b, i as nat) == Some((path, is_file)),
        zipped::member_data(b, i as nat) == Some(data),
    ensures
        ({
            let name = text::tail_of(path, '/');
            let worth = (exists|head: Seq<char>| name == #[trigger] (head + ".dex"@)) || (exists|
                rest: Seq<char>,
            |
                name == #[trigger] ("classes"@ + rest)) || has_ext(name, "jar"@) || has_ext(
                name,
                "apk"@,
            ) || has_ext(name, "zip"@) || has_ext(name, "aar"@);
            &&& !is_file || !worth ==> archive::members(b, i, n, depth, acc) == archive::members(
                b,
                i + 1,
                n,
                depth,
                acc,
            )
            &&& is_file && worth ==> archive::members(b, i, n, depth, acc) == match archive::collected(
                name,
                data,
                depth + 1,
                acc,
            ) {
                Ok(more) => archive::members(b, i + 1, n, depth, more),
                Err(e) => Err(e),
            }
        }),
{
    let name = text::tail_of(path, '/');
    lemma_ends(name, ".dex"@);
    crate::dex::remote::lemma_begins(name, "classes"@);
    lemma_extensions(name);
}

/// Archives are followed eight deep: what lies deeper gives nothing, whatever it holds.
pub proof fn law_nesting_is_followed_to_a_bound(
    name: Seq<char>,
    b: Seq<u8>,
    depth: int,
    acc: Seq<Seq<u8>>,
    i: int,
    n: int,
)
    requires
        0 <= i < n,
        zipped::member_at(b, i as nat) is Some,
        zipped::member_data(b, i as nat) is Some,
    ensures
        depth > 8 ==> archive::collected(name, b, depth, acc) == Ok::<Seq<Seq<u8>>, ArchiveError>(acc),
        depth == 8 ==> archive::members(b, i, n, depth, acc) == archive::members(
            b,
            i + 1,
            n,
            depth,
            acc,
        ),
{
}

/// What stands behind the last dot of a file name is its extension, unless that dot begins
/// the name.
pub proof fn law_extensions_follow_the_last_dot(stem: Seq<char>, e: Seq<char>)
    requires
        stem.len() > 0,
        !e.contains('.'),
    ensures
        text::extension(stem + seq!['.'] + e) == Some(e),
        text::stem(stem + seq!['.'] + e) == stem,
        text::extension(e) is None,
        text::extension(seq!['.'] + e) is None,
{
    named::lemma_last_index(stem, '.', e);
    let s = stem + seq!['.'] + e;
    assert(s.skip((stem.len() + 1) as int) =~= e);
    assert(s.take(stem.len() as int) =~= stem);
    named::lemma_last_index(Seq::empty(), '.', e);
    assert(Seq::<char>::empty() + seq!['.'] + e =~= seq!['.'] + e);
}

/// Of a directory's files exactly those carry DEX that end in one of seven extensions; of its
/// `system_server_dexjars` exactly the jars whose name without the extension holds the scope.
pub proof fn law_bearing_files_by_extension(stem: Seq<char>, e: Seq<char>, scope: Seq<char>)
    requires
        stem.len() > 0,
        !e.contains('.'),
    ensures
        archive::bearing()(stem + seq!['.'] + e) <==> e == "jar"@ || e == "apk"@ || e == "zip"@ || e
            == "aar"@ || e == "dex"@ || e == "apex"@ || e == "capex"@,
        archive::scoped(None)(stem + seq!['.'] + e) <==> e == "jar"@,
        archive::scoped(Some(scope))(stem + seq!['.'] + e) <==> e == "jar"@ && exists|
            a: Seq<char>,
            b: Seq<char>,
        | stem == #[trigger] (a + scope + b),
        !archive::bearing()(e),
{
    law_extensions_follow_the_last_dot(stem, e);
    answers::lemma_occurs(stem, scope, Seq::empty(), Seq::empty());
    if exists|a: Seq<char>, b: Seq<char>| stem == #[trigger] (a + scope + b) {
        let (a, b) = choose|a: Seq<char>, b: Seq<char>| stem == #[trigger] (a + scope + b);
        answers::lemma_occurs(stem, scope, a, b);
    }
}

} // verus!

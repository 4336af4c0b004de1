//! What the lock graph, the lock points and an unpacked artifact hold of what they are made
//! from, and how numbers and files are named.

use crate::artifact;
use crate::artifact::ArtifactError;
use crate::dex::acquire::AcquisitionV;
use crate::dex::apex::{carried, headed};
use crate::dex::ctx::answers;
use crate::dex::ctx::index::IndexV;
use crate::dex::ctx::persist;
use crate::dex::zipped;
use crate::dump;
use crate::gzip;
use crate::names;
use crate::pprof;
use crate::pprof::{EdgeV, ProfileV};
use crate::proto;
use crate::sort;
use crate::text;
use vstd::prelude::*;

verus! {

/// Lock points stand by class, those of one class by method, those of one method by line, one
/// without a line first, and those of one line by lock.
pub proof fn law_points_stand_by_class_method_line_and_lock(acqs: Seq<AcquisitionV>, i: int, j: int)
    requires
        0 <= i < j < acqs.len(),
    ensures
        ({
            let r = sort::sorted(acqs, dump::point_le());
            let (a, b) = (r[i], r[j]);
            &&& text::lex_le(a.class, b.class)
            &&& a.class == b.class ==> text::lex_le(a.method, b.method)
            &&& a.class == b.class && a.method == b.method ==> a.line is None || (b.line is Some
                && a.line->0 <= b.line->0)
            &&& a.class == b.class && a.method == b.method && a.line == b.line ==> text::lex_le(
                a.lock,
                b.lock,
            )
        }),
{
    text::lemma_lex_order();
    let le = dump::point_le();
    sort::lemma_sorted(acqs, le);
    let r = sort::sorted(acqs, le);
    assert(le(r[i], r[j]));
}

/// The site is one of that edge.
pub open spec fn is_of(a: AcquisitionV, e: EdgeV) -> bool {
    &&& a.method == e.method
    &&& a.lock == e.lock
    &&& a.source_file == Some(e.file) || a.source_file is None && e.file == ""@
}

proof fn lemma_edges(acqs: Seq<AcquisitionV>, e: EdgeV)
    ensures
        pprof::site_edges(acqs).to_multiset().count(e) == acqs.filter(
            |a: AcquisitionV| is_of(a, e),
        ).len(),
    decreases acqs.len(),
{
    broadcast use vstd::seq_lib::group_to_multiset_ensures;

    reveal(Seq::filter);
    let p = |a: AcquisitionV| is_of(a, e);
    if acqs.len() > 0 {
        let front = acqs.drop_last();
        let x = pprof::site_edge(acqs.last());
        lemma_edges(front, e);
        assert(pprof::site_edges(acqs) =~= pprof::site_edges(front).push(x));
        assert(p(acqs.last()) <==> x == e);
    } else {
        assert(pprof::site_edges(acqs) =~= Seq::empty());
    }
}

/// Every edge of the lock graph is a method that takes a lock in a file, weighted by how many
/// sites do; each stands once, and no site is without its edge.
pub proof fn law_edges_are_weighted_by_their_sites(acqs: Seq<AcquisitionV>, i: int, k: int)
    requires
        acqs.len() <= u64::MAX,
    ensures
        ({
            let es = pprof::edges_of(acqs);
            &&& 0 <= i < es.len() ==> es[i].1 > 0 && es[i].1 == acqs.filter(
                |a: AcquisitionV| is_of(a, es[i].0),
            ).len()
            &&& 0 <= i < k < es.len() ==> es[i].0 != es[k].0
            &&& 0 <= k < acqs.len() ==> exists|j: int|
                0 <= j < es.len() && is_of(acqs[k], (#[trigger] es[j]).0)
        }),
{
    pprof::law_weights_count_the_sites(acqs);
    let es = pprof::edges_of(acqs);
    if 0 <= i < es.len() {
        lemma_edges(acqs, es[i].0);
    }
    if 0 <= k < acqs.len() {
        let x = pprof::site_edge(acqs[k]);
        assert(pprof::site_edges(acqs)[k] == x);
        assert(pprof::site_edges(acqs).contains(x));
        let j = choose|j: int| 0 <= j < es.len() && (#[trigger] es[j]).0 == x;
        assert(is_of(acqs[k], es[j].0));
    }
}

/// The messages of a profile, byte by byte: a function is its number, its name twice and its
/// file; a location its number and one line of that function; a sample the lock, the method
/// above it and the count.
pub proof fn law_profile_messages_are_tagged(id: nat, name: nat, file: nat, count: nat, payload: Seq<u8>)
    ensures
        pprof::function(id, name, file) == seq![0x08u8] + proto::varint(id) + seq![0x10u8]
            + proto::varint(name) + seq![0x18u8] + proto::varint(name) + seq![0x20u8]
            + proto::varint(file),
        pprof::location(id) == seq![0x08u8] + proto::varint(id) + seq![0x22u8] + proto::varint(
            1 + proto::varint(id).len(),
        ) + seq![0x08u8] + proto::varint(id),
        pprof::sample(id, name, count) == seq![0x08u8] + proto::varint(id) + seq![0x08u8]
            + proto::varint(name) + seq![0x10u8] + proto::varint(count),
        proto::delimited(1, payload) == seq![0x0au8] + proto::varint(payload.len()) + payload,
        proto::delimited(2, payload) == seq![0x12u8] + proto::varint(payload.len()) + payload,
        proto::delimited(4, payload) == seq![0x22u8] + proto::varint(payload.len()) + payload,
        proto::delimited(5, payload) == seq![0x2au8] + proto::varint(payload.len()) + payload,
        proto::delimited(6, payload) == seq![0x32u8] + proto::varint(payload.len()) + payload,
{
    assert(proto::tag_bytes(1, 0) == seq![0x08u8]);
    assert(proto::tag_bytes(2, 0) == seq![0x10u8]);
    assert(proto::tag_bytes(3, 0) == seq![0x18u8]);
    assert(proto::tag_bytes(4, 0) == seq![0x20u8]);
    assert(proto::tag_bytes(1, 2) == seq![0x0au8]);
    assert(proto::tag_bytes(2, 2) == seq![0x12u8]);
    assert(proto::tag_bytes(4, 2) == seq![0x22u8]);
    assert(proto::tag_bytes(5, 2) == seq![0x2au8]);
    assert(proto::tag_bytes(6, 2) == seq![0x32u8]);
    assert(pprof::function(id, name, file) =~= seq![0x08u8] + proto::varint(id) + seq![0x10u8]
        + proto::varint(name) + seq![0x18u8] + proto::varint(name) + seq![0x20u8] + proto::varint(
        file,
    ));
    let line = pprof::number_field(1, id);
    assert(line =~= seq![0x08u8] + proto::varint(id));
    assert(pprof::location(id) =~= seq![0x08u8] + proto::varint(id) + seq![0x22u8] + proto::varint(
        1 + proto::varint(id).len(),
    ) + seq![0x08u8] + proto::varint(id));
    assert(pprof::sample(id, name, count) =~= seq![0x08u8] + proto::varint(id) + seq![0x08u8]
        + proto::varint(name) + seq![0x10u8] + proto::varint(count));
}

proof fn lemma_position(list: Seq<Seq<char>>, x: Seq<char>)
    requires
        names::distinct(list),
    ensures
        ({
            let more = names::with(list, x);
            &&& names::distinct(more)
            &&& more.contains(x)
            &&& pprof::index_in(more, x) < more.len()
            &&& more[pprof::index_in(more, x) as int] == x
            &&& forall|i: int| 0 <= i < list.len() ==> #[trigger] more[i] == list[i]
        }),
{
    let more = names::with(list, x);
    if !list.contains(x) {
        assert(more[list.len() as int] == x);
        assert forall|i: int, j: int| 0 <= i < j < more.len() implies #[trigger] more[i] != #[trigger] more[j] by {
            if j == list.len() {
                assert(list.contains(list[i]));
            }
        }
    }
    names::lemma_position(more, x);
}

/// The sample of an edge names the lock first and the method above it, each by the number of
/// its node, counted from one, and carries the count; the nodes and strings that were there
/// keep their numbers.
pub proof fn law_samples_name_lock_and_method(p: ProfileV, e: EdgeV, count: u64) -> (ids: (nat, nat))
    requires
        names::distinct(p.nodes),
        names::distinct(p.strings),
    ensures
        ({
            let q = pprof::with_edge(p, e, count);
            let (lock, method) = ids;
            &&& 1 <= lock <= q.nodes.len() && q.nodes[lock - 1] == e.lock
            &&& 1 <= method <= q.nodes.len() && q.nodes[method - 1] == e.method
            &&& q.samples == p.samples + proto::delimited(
                2,
                seq![0x08u8] + proto::varint(lock) + seq![0x08u8] + proto::varint(method) + seq![0x10u8]
                    + proto::varint(count as nat),
            )
            &&& names::distinct(q.nodes)
            &&& names::distinct(q.strings)
            &&& forall|i: int| 0 <= i < p.nodes.len() ==> #[trigger] q.nodes[i] == p.nodes[i]
            &&& forall|i: int| 0 <= i < p.strings.len() ==> #[trigger] q.strings[i] == p.strings[i]
        }),
{
    let a = pprof::with_node(p, e.method, e.file);
    let b = pprof::with_node(a, e.lock, ""@);
    lemma_node(p, e.method, e.file);
    lemma_node(a, e.lock, ""@);
    let lock = pprof::index_in(b.nodes, e.lock) + 1;
    let method = pprof::index_in(b.nodes, e.method) + 1;
    law_profile_messages_are_tagged(lock, method, 0, count as nat, Seq::empty());
    let i = choose|i: int| 0 <= i < a.nodes.len() && a.nodes[i] == e.method;
    assert(b.nodes[i] == e.method);
    names::lemma_position(b.nodes, e.method);
    names::lemma_position(b.nodes, e.lock);
    (lock, method)
}

proof fn lemma_node(p: ProfileV, name: Seq<char>, file: Seq<char>)
    requires
        names::distinct(p.nodes),
        names::distinct(p.strings),
    ensures
        ({
            let q = pprof::with_node(p, name, file);
            &&& names::distinct(q.nodes)
            &&& names::distinct(q.strings)
            &&& q.nodes.contains(name)
            &&& q.samples == p.samples
            &&& p.nodes.len() <= q.nodes.len()
            &&& p.strings.len() <= q.strings.len()
            &&& forall|i: int| 0 <= i < p.nodes.len() ==> #[trigger] q.nodes[i] == p.nodes[i]
            &&& forall|i: int| 0 <= i < p.strings.len() ==> #[trigger] q.strings[i] == p.strings[i]
        }),
{
    if !p.nodes.contains(name) {
        lemma_position(p.nodes, name);
        lemma_position(p.strings, name);
        let named = names::with(p.strings, name);
        lemma_position(named, file);
        let q = pprof::with_node(p, name, file);
        assert forall|i: int| 0 <= i < p.strings.len() implies #[trigger] q.strings[i] == p.strings[i] by {
            assert(named[i] == p.strings[i]);
        }
    }
}

/// A node that is new gets the next number, a function of that number that names it and its
/// file, and a location of that number in that function; one that is not changes nothing.
pub proof fn law_nodes_are_numbered_as_they_come(p: ProfileV, name: Seq<char>, file: Seq<char>) -> (ids: (
    nat,
    nat,
))
    requires
        names::distinct(p.nodes),
        names::distinct(p.strings),
    ensures
        ({
            let q = pprof::with_node(p, name, file);
            let id = p.nodes.len() + 1;
            let (n, f) = ids;
            &&& p.nodes.contains(name) ==> q == p
            &&& !p.nodes.contains(name) ==> {
                &&& q.nodes == p.nodes.push(name)
                &&& n < q.strings.len() && q.strings[n as int] == name
                &&& f < q.strings.len() && q.strings[f as int] == file
                &&& q.functions == p.functions + proto::delimited(
                    5,
                    seq![0x08u8] + proto::varint(id) + seq![0x10u8] + proto::varint(n) + seq![0x18u8]
                        + proto::varint(n) + seq![0x20u8] + proto::varint(f),
                )
                &&& q.locations == p.locations + proto::delimited(
                    4,
                    seq![0x08u8] + proto::varint(id) + seq![0x22u8] + proto::varint(
                        1 + proto::varint(id).len(),
                    ) + seq![0x08u8] + proto::varint(id),
                )
            }
        }),
{
    let named = names::with(p.strings, name);
    let strings = names::with(named, file);
    lemma_position(p.strings, name);
    lemma_position(named, file);
    let n = pprof::index_in(named, name);
    let f = pprof::index_in(strings, file);
    assert(strings[n as int] == named[n as int]);
    law_profile_messages_are_tagged(p.nodes.len() + 1, n, f, 0, Seq::empty());
    (n, f)
}

/// The member is unpacked: it is a file that ends as an app or a library does, and it goes under
/// its number in four digits and its own name.
pub open spec fn unpacks(b: Seq<u8>, i: nat, x: (Seq<char>, Seq<u8>)) -> bool {
    &&& zipped::member_at(b, i) matches Some((path, is_file))
    &&& is_file
    &&& (exists|head: Seq<char>| path == #[trigger] (head + ".jar"@)) || (exists|head: Seq<char>|
        path == #[trigger] (head + ".apk"@))
    &&& x.0 == text::padded(i, 4) + "_"@ + text::tail_of(path, '/')
    &&& zipped::member_data(b, i) == Some(x.1)
}

proof fn lemma_files(b: Seq<u8>, i: nat, n: nat, acc: Seq<(Seq<char>, Seq<u8>)>, x: (Seq<char>, Seq<u8>))
    ensures
        artifact::files_from(b, i, n, acc) matches Some(r) ==> (r.contains(x) <==> acc.contains(x)
            || exists|j: nat| i <= j < n && #[trigger] unpacks(b, j, x)),
    decreases n - i,
{
    if i < n {
        if let Some((path, is_file)) = zipped::member_at(b, i) {
            carried::lemma_ends(path, ".jar"@);
            carried::lemma_ends(path, ".apk"@);
        }
        if artifact::is_target(b, i) {
            match zipped::member_data(b, i) {
                None => {},
                Some(data) => {
                    let y = (artifact::out_name(i, artifact::entry_name(b, i)), data);
                    lemma_files(b, i + 1, n, acc.push(y), x);
                    answers::lemma_pushed(acc, y, x);
                    assert(unpacks(b, i, x) <==> x == y);
                },
            }
        } else {
            lemma_files(b, i + 1, n, acc, x);
            assert(!unpacks(b, i, x));
        }
    }
}

/// What is unpacked from an artifact is exactly its apps and libraries; bytes that are no
/// archive are an error.
pub proof fn law_artifacts_unpack_to_apps_and_libraries(b: Seq<u8>, x: (Seq<char>, Seq<u8>))
    ensures
        zipped::member_count(b) is None ==> artifact::unpacked(b) == Err::<
            Seq<(Seq<char>, Seq<u8>)>,
            ArtifactError,
        >(ArtifactError::Archive),
        zipped::member_count(b) matches Some(n) ==> (artifact::unpacked(b) matches Ok(r) ==> (r.contains(x)
            <==> exists|i: nat| 0 <= i < n && #[trigger] unpacks(b, i, x))),
{
    if let Some(n) = zipped::member_count(b) {
        lemma_files(b, 0, n, Seq::empty(), x);
    }
}

/// A padded number is the number with zeros before it, as many as it lacks.
pub proof fn law_numbers_are_padded_with_zeros(n: nat, width: nat)
    ensures
        ({
            let d = text::dec(n);
            let zeros = if width > d.len() {
                (width - d.len()) as nat
            } else {
                0
            };
            text::padded(n, width) == Seq::new(zeros, |i: int| '0') + d
        }),
    decreases width,
{
    let d = text::dec(n);
    if width > d.len() {
        law_numbers_are_padded_with_zeros(n, (width - 1) as nat);
        let less = Seq::new((width - 1 - d.len()) as nat, |i: int| '0');
        assert(seq!['0'] + (less + d) =~= Seq::new((width - d.len()) as nat, |i: int| '0') + d);
    } else {
        assert(Seq::new(0, |i: int| '0') + d =~= d);
    }
}

/// The sixteen digits.
pub open spec fn digits() -> Seq<char> {
    seq!['0', '1', '2', '3', '4', '5', '6', '7', '8', '9', 'a', 'b', 'c', 'd', 'e', 'f']
}

/// A number in hexadecimal is that of its sixteenth part and the digit of the rest, with zeros
/// before it up to the width.
pub proof fn law_hexadecimal_is_written_digit_by_digit(q: nat, d: nat, width: nat)
    requires
        d < 16,
    ensures
        text::hex(d, 0) == seq![digits()[d as int]],
        text::hex(d, 1) == seq![digits()[d as int]],
        text::hex(16 * q + d, width + 2) == text::hex(q, width + 1).push(digits()[d as int]),
        q > 0 ==> text::hex(16 * q + d, 0) == text::hex(q, 0).push(digits()[d as int]),
{
    assert((16 * q + d) / 16 == q && (16 * q + d) % 16 == d);
    assert(text::hex_digit(d) == digits()[d as int]);
}

/// A path names a gzip file exactly where the extension of its last part is `gz`.
pub proof fn law_gzip_files_are_named_gz(dir: Seq<char>, stem: Seq<char>, e: Seq<char>)
    requires
        stem.len() > 0,
        !stem.contains('/'),
        !e.contains('/'),
        !e.contains('.'),
    ensures
        gzip::names_gzip(stem + seq!['.'] + e) <==> e == "gz"@,
        gzip::names_gzip(dir + seq!['/'] + (stem + seq!['.'] + e)) <==> e == "gz"@,
        !gzip::names_gzip(e),
{
    let name = stem + seq!['.'] + e;
    carried::law_extensions_follow_the_last_dot(stem, e);
    assert(!name.contains('/')) by {
        if name.contains('/') {
            let i = choose|i: int| 0 <= i < name.len() && name[i] == '/';
            if i < stem.len() {
                assert(stem[i] == '/');
            } else if i > stem.len() {
                assert(e[i - stem.len() - 1] == '/');
            }
        }
    }
    headed::law_paths_are_split_at_slashes(dir, name);
    headed::law_paths_are_split_at_slashes(dir, e);
    assert(seq![name].last() == name);
    assert(text::components(dir).push(name).last() == name);
    if e.len() > 0 {
        assert(seq![e].last() == e);
    } else {
        assert(e =~= Seq::empty());
    }
}

/// A saved index begins with its magic, which says whether a list of binder methods stands at
/// its end.
pub proof fn law_saved_indexes_begin_with_their_magic(v: IndexV)
    ensures
        v.binder.len() == 0 ==> persist::written(v).take(8) == seq![
            0x44u8,
            0x58,
            0x4c,
            0x4b,
            0x43,
            0x54,
            0x58,
            0x31,
        ],
        v.binder.len() > 0 ==> persist::written(v).take(8) == seq![
            0x44u8,
            0x58,
            0x4c,
            0x4b,
            0x43,
            0x54,
            0x58,
            0x32,
        ],
{
    lemma_front(
        persist::header(v),
        persist::wlist(v.locks, persist::w_str()),
        persist::wlist(v.files, persist::w_str()),
        persist::wlist(v.methods, persist::w_method()),
        persist::wlist(v.calls, persist::w_call()),
        persist::wsolved(v),
    );
}

proof fn lemma_front(h: Seq<u8>, a: Seq<u8>, b: Seq<u8>, c: Seq<u8>, d: Seq<u8>, e: Seq<u8>)
    requires
        h.len() == 8,
    ensures
        (h + a + b + c + d + e).take(8) == h,
{
    assert((h + a + b + c + d + e).take(8) =~= h);
}

} // verus!

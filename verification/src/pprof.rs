//! The lock graph as a gzipped pprof profile (`github.com/google/pprof`).
//!
//! Every acquisition becomes a two-frame sample `method -> lock` (leaf = lock), so
//! standard pprof tooling renders a graph whose nodes are methods and locks and
//! whose edges are "method acquires lock", weighted by the number of acquisition
//! sites.

use crate::bytes;
use crate::dex::acquire::{Acquisition, AcquisitionV};
use crate::dump;
use crate::gzip;
use crate::names;
use crate::names::Names;
use crate::proto;
use crate::tally;
use crate::text;
use crate::values;
use crate::values::{Dup, Same};
use vstd::prelude::*;

verus! {

/// A varint field.
pub open spec fn number_field(field: u32, v: nat) -> Seq<u8> {
    proto::tag_bytes(field, 0) + proto::varint(v)
}

/// Append a base-128 varint.
pub fn varint(buf: &mut Vec<u8>, v: u64)
    ensures
        final(buf)@ == old(buf)@ + proto::varint(v as nat),
{
    proto::put_varint(buf, v);
}

/// Append a field tag.
pub fn tag(buf: &mut Vec<u8>, field: u32, wire: u32)
    requires
        wire < 8,
    ensures
        final(buf)@ == old(buf)@ + proto::tag_bytes(field, wire),
{
    proto::tag(buf, field, wire);
}

/// Append a varint field.
pub fn field_varint(buf: &mut Vec<u8>, field: u32, v: u64)
    ensures
        final(buf)@ == old(buf)@ + number_field(field, v as nat),
{
    let ghost start = buf@;
    tag(buf, field, 0);
    varint(buf, v);
    proof {
        assert(buf@ =~= start + number_field(field, v as nat));
    }
}

/// Append a length-delimited field.
pub fn field_bytes(buf: &mut Vec<u8>, field: u32, payload: &[u8])
    ensures
        final(buf)@ == old(buf)@ + proto::delimited(field, payload@),
{
    proto::len_delim(buf, field, payload);
}

/// An edge of the lock graph: a method takes a lock in a file.
#[verifier::ext_equal]
pub struct EdgeV {
    pub method: Seq<char>,
    pub lock: Seq<char>,
    pub file: Seq<char>,
}

/// An edge of the lock graph: a method takes a lock in a file.
pub struct Edge {
    pub method: String,
    pub lock: String,
    pub file: String,
}

impl DeepView for Edge {
    type V = EdgeV;

    open spec fn deep_view(&self) -> EdgeV {
        EdgeV { method: self.method@, lock: self.lock@, file: self.file@ }
    }
}

impl Same for Edge {
    fn same(&self, other: &Self) -> (r: bool) {
        text::str_eq(self.method.as_str(), other.method.as_str()) && text::str_eq(
            self.lock.as_str(),
            other.lock.as_str(),
        ) && text::str_eq(self.file.as_str(), other.file.as_str())
    }
}

/// The edge of a site.
pub open spec fn site_edge(a: AcquisitionV) -> EdgeV {
    EdgeV { method: a.method, lock: a.lock, file: dump::file_of(a) }
}

/// The edges of the sites.
pub open spec fn site_edges(acqs: Seq<AcquisitionV>) -> Seq<EdgeV> {
    Seq::new(acqs.len(), |i: int| site_edge(acqs[i]))
}

/// Edges stand by method, then by lock, then by file.
pub open spec fn edge_le() -> spec_fn(EdgeV, EdgeV) -> bool {
    |a: EdgeV, b: EdgeV|
        if a.method != b.method {
            text::lex_le(a.method, b.method)
        } else if a.lock != b.lock {
            text::lex_le(a.lock, b.lock)
        } else {
            text::lex_le(a.file, b.file)
        }
}

/// The edges of the lock graph, each with the number of its sites.
pub open spec fn edges_of(acqs: Seq<AcquisitionV>) -> Seq<(EdgeV, u64)> {
    tally::tallied(site_edges(acqs), edge_le())
}

/// The profile as far as it has come: the string table, the names of the nodes, and the
/// messages of their functions and locations and of the samples.
#[verifier::ext_equal]
pub struct ProfileV {
    pub strings: Seq<Seq<char>>,
    pub nodes: Seq<Seq<char>>,
    pub functions: Seq<u8>,
    pub locations: Seq<u8>,
    pub samples: Seq<u8>,
}

/// The number of a string.
pub open spec fn index_in(list: Seq<Seq<char>>, s: Seq<char>) -> nat {
    names::position(list, s)->0 as nat
}

/// A function: its number, its name twice, and its file.
pub open spec fn function(id: nat, name: nat, file: nat) -> Seq<u8> {
    number_field(1, id) + number_field(2, name) + number_field(3, name) + number_field(4, file)
}

/// A location: its number, and one line of the function of that number.
pub open spec fn location(id: nat) -> Seq<u8> {
    number_field(1, id) + proto::delimited(4, number_field(1, id))
}

/// With the node, if it is new.
pub open spec fn with_node(p: ProfileV, name: Seq<char>, file: Seq<char>) -> ProfileV {
    if p.nodes.contains(name) {
        p
    } else {
        let id = p.nodes.len() + 1;
        let named = names::with(p.strings, name);
        let strings = names::with(named, file);
        ProfileV {
            strings,
            nodes: names::with(p.nodes, name),
            functions: p.functions + proto::delimited(
                5,
                function(id, index_in(named, name), index_in(strings, file)),
            ),
            locations: p.locations + proto::delimited(4, location(id)),
            samples: p.samples,
        }
    }
}

/// A sample: the lock as the leaf, the method above it, and how many sites.
pub open spec fn sample(lock: nat, method: nat, count: nat) -> Seq<u8> {
    number_field(1, lock) + number_field(1, method) + number_field(2, count)
}

/// With the edge and the number of its sites.
pub open spec fn with_edge(p: ProfileV, e: EdgeV, count: u64) -> ProfileV {
    let a = with_node(p, e.method, e.file);
    let b = with_node(a, e.lock, ""@);
    ProfileV {
        samples: b.samples + proto::delimited(
            2,
            sample(
                index_in(b.nodes, e.lock) + 1,
                index_in(b.nodes, e.method) + 1,
                count as nat,
            ),
        ),
        ..b
    }
}

/// With the edges from the `k`th on.
pub open spec fn with_edges(p: ProfileV, es: Seq<(EdgeV, u64)>, k: int) -> ProfileV
    decreases es.len() - k,
{
    if k >= es.len() {
        p
    } else {
        with_edges(with_edge(p, es[k].0, es[k].1), es, k + 1)
    }
}

/// The profile of the lock graph of the acquisitions.
pub open spec fn profile_of(acqs: Seq<AcquisitionV>) -> Seq<u8> {
    let p = with_edges(
        ProfileV {
            strings: seq![""@],
            nodes: Seq::empty(),
            functions: Seq::empty(),
            locations: Seq::empty(),
            samples: Seq::empty(),
        },
        edges_of(acqs),
        0,
    );
    let typed = names::with(p.strings, "acquisitions"@);
    let strings = names::with(typed, "count"@);
    proto::strings_from(
        strings,
        6,
        0,
        Seq::<u8>::empty() + proto::delimited(
            1,
            number_field(1, index_in(typed, "acquisitions"@)) + number_field(
                2,
                index_in(strings, "count"@),
            ),
        ) + p.samples + p.locations + p.functions,
    )
}

fn edge_first(a: &Edge, b: &Edge) -> (r: bool)
    ensures
        r == edge_le()(a.deep_view(), b.deep_view()),
{
    if !text::str_eq(a.method.as_str(), b.method.as_str()) {
        return text::str_le(a.method.as_str(), b.method.as_str());
    }
    if !text::str_eq(a.lock.as_str(), b.lock.as_str()) {
        return text::str_le(a.lock.as_str(), b.lock.as_str());
    }
    text::str_le(a.file.as_str(), b.file.as_str())
}

fn gather(acqs: &Vec<Acquisition>) -> (r: Vec<(Edge, u64)>)
    ensures
        r.deep_view() == edges_of(acqs.deep_view()),
{
    let ghost av = acqs.deep_view();
    let mut all: Vec<Edge> = values::empty();
    let mut k: usize = 0;
    while k < acqs.len()
        invariant
            k <= acqs@.len(),
            av == acqs.deep_view(),
            all.deep_view() == site_edges(av.take(k as int)),
        decreases acqs@.len() - k,
    {
        let a = &acqs[k];
        proof {
            assert(av[k as int] == a.deep_view());
        }
        let file = match &a.source_file {
            Some(f) => f.dup(),
            None => "".to_string(),
        };
        values::push(&mut all, Edge { method: a.method.dup(), lock: a.lock.dup(), file });
        k += 1;
        proof {
            assert(all.deep_view() =~= site_edges(av.take(k as int)));
        }
    }
    proof {
        assert(av.take(k as int) =~= av);
    }
    tally::tally(all, &edge_first, Ghost(edge_le()))
}

/// The profile as far as it has come.
struct Profile {
    strings: Names,
    nodes: Names,
    functions: Vec<u8>,
    locations: Vec<u8>,
    samples: Vec<u8>,
}

impl View for Profile {
    type V = ProfileV;

    closed spec fn view(&self) -> ProfileV {
        ProfileV {
            strings: self.strings@,
            nodes: self.nodes@,
            functions: self.functions@,
            locations: self.locations@,
            samples: self.samples@,
        }
    }
}

impl Profile {
    spec fn wf(&self) -> bool {
        self.strings.wf() && self.nodes.wf()
    }

    /// The number of a node, which joins the profile if it is new.
    fn node(&mut self, name: &str, file: &str) -> (r: usize)
        requires
            old(self).wf(),
        ensures
            final(self).wf(),
            final(self)@ == with_node(old(self)@, name@, file@),
            names::position(final(self)@.nodes, name@) == Some(r as int),
            r < usize::MAX,
    {
        match self.nodes.find(name) {
            Some(i) => {
                let n = self.nodes.len();
                proof {
                    assert(i < n);
                    assert(self.nodes@.contains(name@));
                }
                i
            },
            None => {
                let at = self.nodes.intern(name);
                let n = self.nodes.len();
                proof {
                    assert(at < n);
                }
                let id = at as u64 + 1;
                let name_idx = self.strings.intern(name) as u64;
                let file_idx = self.strings.intern(file) as u64;
                let mut f: Vec<u8> = Vec::new();
                field_varint(&mut f, 1, id);
                field_varint(&mut f, 2, name_idx);
                field_varint(&mut f, 3, name_idx);
                field_varint(&mut f, 4, file_idx);
                field_bytes(&mut self.functions, 5, f.as_slice());
                let mut line: Vec<u8> = Vec::new();
                field_varint(&mut line, 1, id);
                let mut loc: Vec<u8> = Vec::new();
                field_varint(&mut loc, 1, id);
                proof {
                    assert(line@ =~= number_field(1, id as nat));
                    assert(loc@ =~= number_field(1, id as nat));
                }
                field_bytes(&mut loc, 4, line.as_slice());
                field_bytes(&mut self.locations, 4, loc.as_slice());
                proof {
                    assert(f@ =~= function(id as nat, name_idx as nat, file_idx as nat));
                    assert(loc@ =~= location(id as nat));
                }
                at
            },
        }
    }

    fn edge(&mut self, e: &Edge, count: u64)
        requires
            old(self).wf(),
        ensures
            final(self).wf(),
            final(self)@ == with_edge(old(self)@, e.deep_view(), count),
    {
        let m = self.node(e.method.as_str(), e.file.as_str());
        let ghost a = self@;
        let l = self.node(e.lock.as_str(), "");
        proof {
            lemma_position_stays(a.nodes, e.method@, e.lock@);
        }
        let mut sample_bytes: Vec<u8> = Vec::new();
        field_varint(&mut sample_bytes, 1, l as u64 + 1);
        field_varint(&mut sample_bytes, 1, m as u64 + 1);
        field_varint(&mut sample_bytes, 2, count);
        proof {
            assert(sample_bytes@ =~= sample((l + 1) as nat, (m + 1) as nat, count as nat));
        }
        field_bytes(&mut self.samples, 2, sample_bytes.as_slice());
    }
}

proof fn lemma_position_stays(s: Seq<Seq<char>>, x: Seq<char>, y: Seq<char>)
    requires
        names::position(s, x) is Some,
    ensures
        names::position(names::with(s, y), x) == names::position(s, x),
{
    names::lemma_position(s, x);
    if !s.contains(y) {
        assert(s.push(y).drop_last() =~= s);
    }
}

/// Build the pprof profile for the lock graph of `acqs`.
pub fn profile(acqs: &Vec<Acquisition>) -> (r: Vec<u8>)
    ensures
        r@ == profile_of(acqs.deep_view()),
{
    let es = gather(acqs);
    let ghost ev = es.deep_view();
    let mut strings = Names::new();
    strings.intern("");
    proof {
        assert(strings@ =~= seq![""@]);
    }
    let mut p = Profile {
        strings,
        nodes: Names::new(),
        functions: Vec::new(),
        locations: Vec::new(),
        samples: Vec::new(),
    };
    let ghost begin = p@;
    let mut k: usize = 0;
    while k < es.len()
        invariant
            k <= es@.len(),
            ev == es.deep_view(),
            p.wf(),
            with_edges(begin, ev, 0) == with_edges(p@, ev, k as int),
        decreases es@.len() - k,
    {
        proof {
            assert(ev[k as int] == es@[k as int].deep_view());
        }
        p.edge(&es[k].0, es[k].1);
        k += 1;
    }
    let mut strings = p.strings;
    let type_idx = strings.intern("acquisitions") as u64;
    let unit_idx = strings.intern("count") as u64;
    let mut value_type: Vec<u8> = Vec::new();
    field_varint(&mut value_type, 1, type_idx);
    field_varint(&mut value_type, 2, unit_idx);
    proof {
        assert(value_type@ =~= number_field(1, type_idx as nat) + number_field(
            2,
            unit_idx as nat,
        ));
    }
    let mut out: Vec<u8> = Vec::new();
    field_bytes(&mut out, 1, value_type.as_slice());
    bytes::append_bytes(&mut out, p.samples.as_slice());
    bytes::append_bytes(&mut out, p.locations.as_slice());
    bytes::append_bytes(&mut out, p.functions.as_slice());
    let list = strings.into_list();
    proto::put_strings(&mut out, 6, &list);
    out
}

/// Build the gzipped pprof profile for the lock graph of `acqs`.
pub fn lock_graph(acqs: &Vec<Acquisition>) -> (r: Option<Vec<u8>>)
    ensures
        match r {
            Some(z) => gzip::stores(z@, profile_of(acqs.deep_view()), true),
            None => gzip::gzip_of(profile_of(acqs.deep_view())) is None,
        },
{
    gzip::pack(profile(acqs), true)
}

/// The lock graph has each edge once, weighted by the number of its acquisition sites.
pub proof fn law_weights_count_the_sites(acqs: Seq<AcquisitionV>)
    requires
        acqs.len() <= u64::MAX,
    ensures
        tally::counts(edges_of(acqs), site_edges(acqs)),
{
    text::lemma_lex_order();
    tally::law_tally_counts_occurrences(site_edges(acqs), edge_le());
}

} // verus!

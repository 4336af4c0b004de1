//! Questions, and how methods and locks are named in the answers.

use crate::dex::ctx::index;
use crate::dex::ctx::index::{Index, IndexV};
use crate::text;
use vstd::prelude::*;

verus! {

/// A question to the index.
#[derive(Debug)]
pub enum Query {
    /// A source position: `File.java:line`.
    At { file: String, line: u32 },
    /// Methods whose key contains the string.
    Method(String),
    /// Locks whose name contains the string.
    Lock(String),
    /// Lock-order cycles (deadlock candidates).
    Cycles,
    /// Binder calls made while a lock is (or may be) held.
    Binder,
}

/// A lock name without its package: what stands behind its last dot but one.
pub open spec fn short_name(s: Seq<char>) -> Seq<char> {
    match text::last_index(s, '.') {
        None => s,
        Some(i) => match text::last_index(s.take(i), '.') {
            None => s,
            Some(j) => s.skip(j + 1),
        },
    }
}

/// A lock name without its package, for dense listings.
pub fn short(name: &str) -> (r: String)
    ensures
        r@ == short_name(name@),
{
    let v = text::chars_of(name);
    let n = v.len();
    match text::find_last(v.as_slice(), '.') {
        None => name.to_string(),
        Some(i) => {
            let head = vstd::slice::slice_subrange(v.as_slice(), 0, i);
            proof {
                assert(head@ =~= name@.take(i as int));
            }
            match text::find_last(head, '.') {
                None => name.to_string(),
                Some(j) => {
                    let r = text::string_of(v.as_slice(), j + 1, n);
                    proof {
                        assert(r@ =~= name@.skip(j + 1));
                    }
                    r
                },
            }
        },
    }
}

/// A line of a method: `File.java:line`.
pub open spec fn loc_text(v: IndexV, m: u32, line: u32) -> Seq<char> {
    v.files[v.methods[m as int].file as int] + ":"@ + text::dec(line as nat)
}

/// A line of a method.
pub fn loc(idx: &Index, m: u32, line: u32) -> (r: String)
    requires
        idx.deep_view().wf(),
        m < idx.deep_view().methods.len(),
    ensures
        r@ == loc_text(idx.deep_view(), m, line),
{
    let mut out = file_of(idx, m).to_string();
    out.append(":");
    text::push_dec(&mut out, line as u64);
    out
}

/// The key of a method.
pub fn key_of(idx: &Index, m: u32) -> (r: &str)
    requires
        m < idx.deep_view().methods.len(),
    ensures
        r@ == idx.deep_view().methods[m as int].key,
{
    proof {
        assert(idx.deep_view().methods[m as int] == idx.methods@[m as int].deep_view());
    }
    idx.methods[m as usize].key.as_str()
}

/// The file of a method.
pub fn file_of(idx: &Index, m: u32) -> (r: &str)
    requires
        idx.deep_view().wf(),
        m < idx.deep_view().methods.len(),
    ensures
        r@ == idx.deep_view().files[idx.deep_view().methods[m as int].file as int],
{
    let ghost v = idx.deep_view();
    proof {
        assert(v.methods[m as int] == idx.methods@[m as int].deep_view());
        assert(index::method_in(
            v.methods[m as int],
            v.files.len() as int,
            v.locks.len() as int,
            v.calls.len() as int,
        ));
        assert(v.files[v.methods[m as int].file as int]
            == idx.files@[v.methods[m as int].file as int]@);
    }
    idx.files[idx.methods[m as usize].file as usize].as_str()
}

/// The name of a lock.
pub fn lock_of(idx: &Index, l: u32) -> (r: &str)
    requires
        l < idx.deep_view().locks.len(),
    ensures
        r@ == idx.deep_view().locks[l as int],
{
    proof {
        assert(idx.deep_view().locks[l as int] == idx.locks@[l as int]@);
    }
    idx.locks[l as usize].as_str()
}

/// The locks that method `m` holds at the line, in ascending order.
pub open spec fn held_list(v: IndexV, m: u32, line: u32, s: Seq<u32>) -> bool {
    &&& crate::dex::ctx::query::climbs(s)
    &&& forall|l: u32| #[trigger]
        s.contains(l) <==> crate::dex::ctx::query::span_holds(v.methods[m as int].spans, l, line)
}

/// The places at which a lock is taken, in ascending order.
pub open spec fn site_list(v: IndexV, l: u32, s: Seq<(u32, u32)>) -> bool {
    &&& forall|i: int, j: int|
        0 <= i < j < s.len() ==> (#[trigger] s[i]).0 < (#[trigger] s[j]).0 || s[i].0 == s[j].0
            && s[i].1 < s[j].1
    &&& forall|m: u32, line: u32|
        #![trigger s.contains((m, line))]
        s.contains((m, line)) <==> m < v.methods.len() && crate::dex::ctx::query::span_takes(
            v.methods[m as int].spans,
            l,
            line,
        )
}

/// The locks that method `m` holds at the line.
pub fn held_at(idx: &Index, m: u32, line: u32) -> (r: Vec<u32>)
    requires
        idx.deep_view().wf(),
        m < idx.deep_view().methods.len(),
    ensures
        held_list(idx.deep_view(), m, line, r@),
        index::all_below(r@, idx.deep_view().locks.len() as int),
{
    let ghost v = idx.deep_view();
    let r = idx.intra_held(m, line);
    proof {
        let mv = v.methods[m as int];
        assert(index::method_in(
            mv,
            v.files.len() as int,
            v.locks.len() as int,
            v.calls.len() as int,
        ));
        assert forall|i: int| 0 <= i < r@.len() implies #[trigger] r@[i] < v.locks.len() by {
            assert(r@.contains(r@[i]));
            let j = choose|j: int|
                0 <= j < mv.spans.len() && (#[trigger] mv.spans[j]).lock == r@[i]
                    && crate::dex::ctx::query::covers(mv.spans[j], line);
            assert(index::span_in(mv.spans[j], v.locks.len() as int));
        }
    }
    r
}

} // verus!

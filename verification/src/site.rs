//! Parsing and filtering of contention source sites.
//!
//! A source site is a `File.ext:line` string taken from a monitor-contention
//! record (the line a thread was blocked or blocking on). Only sites that name a
//! real source line are resolvable; synthetic frames and unsymbolized frames are
//! skipped.

use crate::text;
use vstd::prelude::*;

verus! {

/// The file and the line of a site: what stands before and behind its last colon, where
/// it names a file and the line is a number, and where nothing in it is synthetic.
pub open spec fn parsed(site: Seq<char>) -> Option<(Seq<char>, i64)> {
    let s = text::trimmed(site);
    if s.contains('<') {
        None
    } else {
        match text::last_index(s, ':') {
            None => None,
            Some(i) => match text::number(text::trimmed(s.skip(i + 1))) {
                Some(line) if i > 0 => Some((s.take(i), line)),
                _ => None,
            },
        }
    }
}

fn is_synthetic(v: &Vec<char>) -> (r: bool)
    ensures
        r == v@.contains('<'),
{
    let mut k: usize = 0;
    while k < v.len()
        invariant
            k <= v@.len(),
            forall|i: int| 0 <= i < k ==> v@[i] != '<',
        decreases v@.len() - k,
    {
        if v[k] == '<' {
            proof {
                assert(v@[k as int] == '<');
            }
            return true;
        }
        k += 1;
    }
    false
}

/// Split a `File.java:1234` site into `(file, line)`, or `None` when it is not a
/// resolvable source location:
/// - no numeric line component,
/// - an empty file component,
/// - a synthetic/lambda frame (contains `<`, e.g. `<lambda>`), which has no
///   stable source line to resolve against.
pub fn parse(site: &str) -> (r: Option<(String, i64)>)
    ensures
        match r {
            Some(p) => parsed(site@) == Some((p.0@, p.1)),
            None => parsed(site@) is None,
        },
{
    let s = text::trim(site);
    let v = text::chars_of(s.as_str());
    if is_synthetic(&v) {
        return None;
    }
    let i = match text::find_last(v.as_slice(), ':') {
        None => {
            return None;
        },
        Some(i) => i,
    };
    let n = v.len();
    proof {
        assert(v@.subrange(i + 1, n as int) =~= s@.skip(i + 1));
        assert(v@.subrange(0, i as int) =~= s@.take(i as int));
    }
    let line = text::trim(text::string_of(v.as_slice(), i + 1, n).as_str());
    match text::parse_number(line.as_str()) {
        None => None,
        Some(line) => if i == 0 {
            None
        } else {
            Some((text::string_of(v.as_slice(), 0, i), line))
        },
    }
}

/// Whether a site is worth handing to the resolver.
pub fn is_resolvable(site: &str) -> (r: bool)
    ensures
        r == parsed(site@) is Some,
{
    parse(site).is_some()
}

} // verus!

//! Every resolved lock point of a program — each monitor-enter named by its canonical
//! lock definition — in a compact form.
//!
//! A dump is a deduplicated string pool plus packed-uint32 columns, which interns every
//! repeated class / method / lock name once. Rows are sorted, so the output is
//! deterministic.

use crate::dex::acquire;
use crate::dex::acquire::{Acquisition, AcquisitionV};
use crate::dex::binder;
use crate::dex::model::Dex;
use crate::names;
use crate::names::Names;
use crate::proto;
use crate::sort;
use crate::text;
use vstd::prelude::*;

verus! {

/// Serialization format for the dump.
#[derive(Clone, Copy, Debug, PartialEq, Eq, Structural)]
pub enum Format {
    Json,
    Proto,
}

/// Interns strings to dense ids, preserving first-seen order for a stable pool.
pub struct Pool {
    names: Names,
}

impl View for Pool {
    type V = Seq<Seq<char>>;

    closed spec fn view(&self) -> Seq<Seq<char>> {
        self.names@
    }
}

/// The id of a string of the pool.
pub open spec fn id_of(pool: Seq<Seq<char>>, s: Seq<char>) -> u32 {
    (names::position(pool, s)->0) as u32
}

impl Pool {
    /// The pool is in order.
    pub closed spec fn wf(&self) -> bool {
        self.names.wf()
    }

    /// An empty pool.
    pub fn new() -> (r: Pool)
        ensures
            r.wf(),
            r@ == Seq::<Seq<char>>::empty(),
    {
        Pool { names: Names::new() }
    }

    /// The id of a string, which joins the pool if it is new.
    pub fn intern(&mut self, s: &str) -> (r: u32)
        requires
            old(self).wf(),
        ensures
            final(self).wf(),
            final(self)@ == names::with(old(self)@, s@),
            r == id_of(final(self)@, s@),
    {
        let i = self.names.intern(s);
        #[verifier::truncate]
        (i as u32)
    }

    /// The strings by id.
    pub fn into_strings(self) -> (r: Vec<String>)
        ensures
            r.deep_view() == self@,
    {
        self.names.into_list()
    }
}

/// Lock points stand by class, then by method, then by line, then by lock.
pub open spec fn point_le() -> spec_fn(AcquisitionV, AcquisitionV) -> bool {
    |a: AcquisitionV, b: AcquisitionV|
        if a.class != b.class {
            text::lex_le(a.class, b.class)
        } else if a.method != b.method {
            text::lex_le(a.method, b.method)
        } else if a.line != b.line {
            binder::line_le(a.line, b.line)
        } else {
            text::lex_le(a.lock, b.lock)
        }
}

fn point_first(a: &Acquisition, b: &Acquisition) -> (r: bool)
    ensures
        r == point_le()(a.deep_view(), b.deep_view()),
{
    if !text::str_eq(a.class.as_str(), b.class.as_str()) {
        return text::str_le(a.class.as_str(), b.class.as_str());
    }
    if !text::str_eq(a.method.as_str(), b.method.as_str()) {
        return text::str_le(a.method.as_str(), b.method.as_str());
    }
    match (a.line, b.line) {
        (None, None) => text::str_le(a.lock.as_str(), b.lock.as_str()),
        (None, Some(_)) => true,
        (Some(_), None) => false,
        (Some(x), Some(y)) => if x == y {
            text::str_le(a.lock.as_str(), b.lock.as_str())
        } else {
            x <= y
        },
    }
}

/// Every lock point of a program, in order.
pub fn lock_points(dex: &Dex) -> (r: Vec<Acquisition>)
    ensures
        r.deep_view() == sort::sorted(acquire::acquired(dex.deep_view()), point_le()),
{
    sort::sort_by(acquire::acquisitions(dex), &point_first, Ghost(point_le()))
}

/// The lock points come in order, none of them lost and none made up.
pub proof fn law_lock_points_are_sorted(acqs: Seq<AcquisitionV>)
    ensures
        sort::in_order(sort::sorted(acqs, point_le()), point_le()),
        sort::sorted(acqs, point_le()).to_multiset() =~= acqs.to_multiset(),
{
    text::lemma_lex_order();
    sort::lemma_sorted(acqs, point_le());
}

/// What a dump holds: the string pool and the columns.
#[verifier::ext_equal]
pub struct TableV {
    pub strings: Seq<Seq<char>>,
    pub class_id: Seq<u32>,
    pub method_id: Seq<u32>,
    pub file_id: Seq<u32>,
    pub lock_id: Seq<u32>,
    pub line: Seq<u32>,
}

/// The file of a lock point, empty without one.
pub open spec fn file_of(a: AcquisitionV) -> Seq<char> {
    match a.source_file {
        Some(f) => f,
        None => ""@,
    }
}

/// With one more row.
pub open spec fn row_added(t: TableV, a: AcquisitionV) -> TableV {
    let p1 = names::with(t.strings, a.class);
    let p2 = names::with(p1, a.method);
    let p3 = names::with(p2, file_of(a));
    let p4 = names::with(p3, a.lock);
    TableV {
        strings: p4,
        class_id: t.class_id.push(id_of(p1, a.class)),
        method_id: t.method_id.push(id_of(p2, a.method)),
        file_id: t.file_id.push(id_of(p3, file_of(a))),
        lock_id: t.lock_id.push(id_of(p4, a.lock)),
        line: t.line.push(
            match a.line {
                Some(l) => l,
                None => 0,
            },
        ),
    }
}

/// The rows from the `k`th on, behind `t`.
pub open spec fn rows_from(acqs: Seq<AcquisitionV>, k: int, t: TableV) -> TableV
    decreases acqs.len() - k,
{
    if k >= acqs.len() {
        t
    } else {
        rows_from(acqs, k + 1, row_added(t, acqs[k]))
    }
}

/// The lock points as a string pool and columns; the empty string has id 0, so that an
/// absent file is a stable sentinel.
pub open spec fn table(acqs: Seq<AcquisitionV>) -> TableV {
    rows_from(acqs, 0, no_rows())
}

/// The lock points as a message: the lock points proper, and a column for the files.
pub open spec fn message(acqs: Seq<AcquisitionV>) -> Seq<u8> {
    let t = table(acqs);
    proto::lock_points(t.strings, t.class_id, t.method_id, t.lock_id, t.line) + proto::packed(
        6,
        t.file_id,
    )
}

/// Intern all names into a pool and emit the columnar `LockPoints` message.
pub fn write_proto(acqs: &Vec<Acquisition>) -> (r: Vec<u8>)
    ensures
        r@ == message(acqs.deep_view()),
{
    let ghost av = acqs.deep_view();
    let mut pool = Pool::new();
    pool.intern("");
    proof {
        assert(pool@ =~= seq![""@]);
    }
    let mut class_id: Vec<u32> = Vec::new();
    let mut method_id: Vec<u32> = Vec::new();
    let mut file_id: Vec<u32> = Vec::new();
    let mut lock_id: Vec<u32> = Vec::new();
    let mut line: Vec<u32> = Vec::new();
    let mut k: usize = 0;
    while k < acqs.len()
        invariant
            k <= acqs@.len(),
            av == acqs.deep_view(),
            pool.wf(),
            table(av) == rows_from(
                av,
                k as int,
                TableV {
                    strings: pool@,
                    class_id: class_id@,
                    method_id: method_id@,
                    file_id: file_id@,
                    lock_id: lock_id@,
                    line: line@,
                },
            ),
        decreases acqs@.len() - k,
    {
        let a = &acqs[k];
        proof {
            assert(av[k as int] == a.deep_view());
        }
        class_id.push(pool.intern(a.class.as_str()));
        method_id.push(pool.intern(a.method.as_str()));
        let file = match &a.source_file {
            Some(f) => f.as_str(),
            None => "",
        };
        file_id.push(pool.intern(file));
        lock_id.push(pool.intern(a.lock.as_str()));
        line.push(
            match a.line {
                Some(l) => l,
                None => 0,
            },
        );
        k += 1;
    }
    let strings = pool.into_strings();
    let mut out = proto::encode_lock_points(
        &strings,
        class_id.as_slice(),
        method_id.as_slice(),
        lock_id.as_slice(),
        line.as_slice(),
    );
    proto::packed_u32(&mut out, 6, file_id.as_slice());
    out
}

/// An empty dump: only the empty string.
pub open spec fn no_rows() -> TableV {
    TableV {
        strings: seq![""@],
        class_id: Seq::empty(),
        method_id: Seq::empty(),
        file_id: Seq::empty(),
        lock_id: Seq::empty(),
        line: Seq::empty(),
    }
}

/// The `i`th row stands for the lock point.
pub open spec fn row_names(t: TableV, i: int, a: AcquisitionV) -> bool {
    &&& t.class_id[i] < t.strings.len() && t.strings[t.class_id[i] as int] == a.class
    &&& t.method_id[i] < t.strings.len() && t.strings[t.method_id[i] as int] == a.method
    &&& t.file_id[i] < t.strings.len() && t.strings[t.file_id[i] as int] == file_of(a)
    &&& t.lock_id[i] < t.strings.len() && t.strings[t.lock_id[i] as int] == a.lock
    &&& t.line[i] == match a.line {
        Some(l) => l,
        None => 0,
    }
}

/// The first `k` rows stand for the first `k` lock points, and there are no others.
pub open spec fn rows_name(t: TableV, acqs: Seq<AcquisitionV>, k: int) -> bool {
    &&& t.class_id.len() == k
    &&& t.method_id.len() == k
    &&& t.file_id.len() == k
    &&& t.lock_id.len() == k
    &&& t.line.len() == k
    &&& forall|i: int| 0 <= i < k ==> #[trigger] row_names(t, i, acqs[i])
}

/// A dump holds every lock point: its columns are parallel, with one row for each, and
/// the ids of a row lead to the lock point's names in the string pool.
pub proof fn law_dump_holds_every_point(acqs: Seq<AcquisitionV>)
    requires
        table(acqs).strings.len() <= u32::MAX,
    ensures
        rows_name(table(acqs), acqs, acqs.len() as int),
{
    lemma_rows(acqs, 0, no_rows());
}

proof fn lemma_grow(acqs: Seq<AcquisitionV>, k: int, t: TableV)
    ensures
        t.strings.len() <= rows_from(acqs, k, t).strings.len(),
    decreases acqs.len() - k,
{
    if k < acqs.len() {
        lemma_grow(acqs, k + 1, row_added(t, acqs[k]));
    }
}

proof fn lemma_interned(pool: Seq<Seq<char>>, s: Seq<char>)
    requires
        names::with(pool, s).len() <= u32::MAX,
    ensures
        id_of(names::with(pool, s), s) < names::with(pool, s).len(),
        names::with(pool, s)[id_of(names::with(pool, s), s) as int] == s,
{
    let more = names::with(pool, s);
    assert(more.contains(s)) by {
        if !pool.contains(s) {
            assert(more[more.len() - 1] == s);
        }
    }
    names::lemma_position(more, s);
}

proof fn lemma_rows(acqs: Seq<AcquisitionV>, k: int, t: TableV)
    requires
        0 <= k <= acqs.len(),
        rows_name(t, acqs, k),
        rows_from(acqs, k, t).strings.len() <= u32::MAX,
    ensures
        rows_name(rows_from(acqs, k, t), acqs, acqs.len() as int),
    decreases acqs.len() - k,
{
    if k < acqs.len() {
        let a = acqs[k];
        let next = row_added(t, a);
        lemma_grow(acqs, k + 1, next);
        let p1 = names::with(t.strings, a.class);
        let p2 = names::with(p1, a.method);
        let p3 = names::with(p2, file_of(a));
        lemma_interned(t.strings, a.class);
        lemma_interned(p1, a.method);
        lemma_interned(p2, file_of(a));
        lemma_interned(p3, a.lock);
        assert forall|i: int| 0 <= i < k + 1 implies #[trigger] row_names(next, i, acqs[i]) by {
            if i < k {
                assert(row_names(t, i, acqs[i]));
            }
        }
        lemma_rows(acqs, k + 1, next);
    }
}

} // verus!

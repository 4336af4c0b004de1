//! CSV load/save. Input is a contention table with (at least) the columns
//! `build_id`, `device_name`, `blocked_src`, `blocking_src`,
//! `short_blocked_method`, `short_blocking_method`. Output is the same table with
//! `resolved_blocked_lock` / `resolved_blocking_lock` filled in, or a compacted
//! aggregate keyed by the structural columns.

use crate::model::{Contention, ContentionV};
use crate::sort;
use crate::tally;
use crate::text;
use crate::values;
use crate::values::{Dup, Same};
use vstd::prelude::*;

verus! {

/// The header of a loaded contention table, kept so output can round-trip columns.
#[derive(Debug)]
pub struct Table {
    pub headers: Vec<String>,
    pub rows: Vec<Contention>,
}

/// What a table holds.
#[verifier::ext_equal]
pub struct TableV {
    pub headers: Seq<Seq<char>>,
    pub rows: Seq<ContentionV>,
}

impl DeepView for Table {
    type V = TableV;

    open spec fn deep_view(&self) -> TableV {
        TableV { headers: self.headers.deep_view(), rows: self.rows.deep_view() }
    }
}

/// Why no table was loaded.
#[derive(Debug)]
pub enum CsvError {
    /// The bytes are no CSV; what the parser says.
    Parse(String),
    /// The table lacks a column.
    Missing(String),
}

/// What an error holds.
pub enum CsvErrorV {
    Parse(Seq<char>),
    Missing(Seq<char>),
}

impl CsvErrorV {
    /// What the error says.
    pub open spec fn says(self) -> Seq<char> {
        match self {
            CsvErrorV::Parse(e) => e,
            CsvErrorV::Missing(name) => "missing column '"@ + name + "' in CSV"@,
        }
    }
}

impl DeepView for CsvError {
    type V = CsvErrorV;

    open spec fn deep_view(&self) -> CsvErrorV {
        match self {
            CsvError::Parse(e) => CsvErrorV::Parse(e@),
            CsvError::Missing(name) => CsvErrorV::Missing(name@),
        }
    }
}

impl CsvError {
    /// What the error says.
    pub fn message(&self) -> (r: String)
        ensures
            r@ == self.deep_view().says(),
    {
        match self {
            CsvError::Parse(e) => e.dup(),
            CsvError::Missing(name) => text::cat3("missing column '", name.as_str(), "' in CSV"),
        }
    }
}

/// What `csv` reads in the bytes: the fields of the header record and those of each record
/// behind it, or what is wrong with the first bad one of these; or what is wrong with the
/// header record.
pub uninterp spec fn csv_read(b: Seq<u8>) -> Result<
    (Seq<Seq<char>>, Result<Seq<Seq<Seq<char>>>, Seq<char>>),
    Seq<char>,
>;

/// What `csv` writes for the records, or why it does not.
pub uninterp spec fn csv_written(records: Seq<Seq<Seq<char>>>) -> Result<Seq<u8>, Seq<char>>;

/// The parts of a read table as plain values.
pub type Records = (Vec<String>, Result<Vec<Vec<String>>, String>);

/// What the parts hold.
pub open spec fn records_view(p: Records) -> (
    Seq<Seq<char>>,
    Result<Seq<Seq<Seq<char>>>, Seq<char>>,
) {
    (
        p.0.deep_view(),
        match p.1 {
            Ok(rows) => Ok(rows.deep_view()),
            Err(e) => Err(e@),
        },
    )
}

/// Each record has as many fields as the header.
pub open spec fn fits_header(headers: Seq<Seq<char>>, rows: Seq<Seq<Seq<char>>>) -> bool {
    forall|i: int| 0 <= i < rows.len() ==> (#[trigger] rows[i]).len() == headers.len()
}

/// Each record has as many fields as the first.
pub open spec fn even(records: Seq<Seq<Seq<char>>>) -> bool {
    forall|i: int| 0 <= i < records.len() ==> (#[trigger] records[i]).len() == records[0].len()
}

/// `csv::Reader` over the bytes with its default settings, `headers` and then `records`
/// to the end or the first error. A reader that is not flexible lets no record through
/// whose number of fields is not that of the header.
#[verifier::external_body]
fn read_records(b: &[u8]) -> (r: Result<Records, String>)
    ensures
        match r {
            Ok(p) => csv_read(b@) == Ok::<_, Seq<char>>(records_view(p)),
            Err(e) => csv_read(b@) == Err::<
                (Seq<Seq<char>>, Result<Seq<Seq<Seq<char>>>, Seq<char>>),
                Seq<char>,
            >(e@),
        },
        match r {
            Ok((headers, Ok(rows))) => fits_header(headers.deep_view(), rows.deep_view()),
            _ => true,
        },
{
    let mut rdr = csv::Reader::from_reader(b);
    let headers = match rdr.headers() {
        Ok(h) => h.iter().map(|f| f.to_string()).collect(),
        Err(e) => return Err(e.to_string()),
    };
    let rows = rdr
        .records()
        .map(|r| r.map(|r| r.iter().map(|f| f.to_string()).collect()))
        .collect::<Result<Vec<Vec<String>>, csv::Error>>();
    Ok((headers, rows.map_err(|e| e.to_string())))
}

/// `csv::Writer` over a vector with its default settings, `write_record` for each record.
/// A writer that is not flexible refuses a record whose number of fields is not that of the
/// first; writing to memory does not fail otherwise.
#[verifier::external_body]
fn write_records(records: &Vec<Vec<String>>) -> (r: Result<Vec<u8>, String>)
    ensures
        match r {
            Ok(b) => csv_written(records.deep_view()) == Ok::<Seq<u8>, Seq<char>>(b@),
            Err(e) => csv_written(records.deep_view()) == Err::<Seq<u8>, Seq<char>>(e@),
        },
        r is Ok <==> even(records.deep_view()),
{
    let mut w = csv::Writer::from_writer(Vec::new());
    for record in records {
        w.write_record(record).map_err(|e| e.to_string())?;
    }
    w.into_inner().map_err(|e| e.to_string())
}

/// Where `name` first stands in the list, from the `k`th on.
pub open spec fn first_from(list: Seq<Seq<char>>, name: Seq<char>, k: int) -> Option<int>
    decreases list.len() - k,
{
    if k >= list.len() {
        None
    } else if list[k] == name {
        Some(k)
    } else {
        first_from(list, name, k + 1)
    }
}

/// Where `name` first stands in the list.
pub open spec fn first(list: Seq<Seq<char>>, name: Seq<char>) -> Option<int> {
    first_from(list, name, 0)
}

fn find_first(list: &Vec<String>, name: &str) -> (r: Option<usize>)
    ensures
        match r {
            Some(i) => first(list.deep_view(), name@) == Some(i as int) && i < list@.len(),
            None => first(list.deep_view(), name@) is None,
        },
{
    let ghost lv = list.deep_view();
    let mut k: usize = 0;
    while k < list.len()
        invariant
            k <= list@.len(),
            lv == list.deep_view(),
            first(list.deep_view(), name@) == first_from(lv, name@, k as int),
        decreases list@.len() - k,
    {
        proof {
            assert(lv[k as int] == list@[k as int]@);
        }
        if text::str_eq(list[k].as_str(), name) {
            return Some(k);
        }
        k += 1;
    }
    None
}

/// Where the six columns stand.
pub struct Columns {
    pub build: usize,
    pub device: usize,
    pub blocked: usize,
    pub blocking: usize,
    pub blocked_method: usize,
    pub blocking_method: usize,
}

/// The name of the `i`th of the six columns.
pub open spec fn column_name(i: int) -> Seq<char> {
    if i == 0 {
        "build_id"@
    } else if i == 1 {
        "device_name"@
    } else if i == 2 {
        "blocked_src"@
    } else if i == 3 {
        "blocking_src"@
    } else if i == 4 {
        "short_blocked_method"@
    } else {
        "short_blocking_method"@
    }
}

/// The first of the six columns from the `i`th on that the header lacks.
pub open spec fn lacks(headers: Seq<Seq<char>>, i: int) -> Option<Seq<char>>
    decreases 6 - i,
{
    if i >= 6 {
        None
    } else if first(headers, column_name(i)) is None {
        Some(column_name(i))
    } else {
        lacks(headers, i + 1)
    }
}

/// The record's field in the column, without the white space around it.
pub open spec fn field(headers: Seq<Seq<char>>, record: Seq<Seq<char>>, column: int) -> Seq<char> {
    let i = first(headers, column_name(column))->0;
    if i < record.len() {
        text::trimmed(record[i])
    } else {
        text::trimmed(""@)
    }
}

/// A record as an observation.
pub open spec fn observation(headers: Seq<Seq<char>>, record: Seq<Seq<char>>) -> ContentionV {
    ContentionV {
        build_id: field(headers, record, 0),
        device: field(headers, record, 1),
        blocked_src: field(headers, record, 2),
        blocking_src: field(headers, record, 3),
        short_blocked_method: field(headers, record, 4),
        short_blocking_method: field(headers, record, 5),
        raw: record,
        resolved_blocked_lock: "N/A"@,
        resolved_blocking_lock: "N/A"@,
    }
}

/// The records as a table, where the header has the six columns and every record could be
/// read.
pub open spec fn tabulated(
    headers: Seq<Seq<char>>,
    rows: Result<Seq<Seq<Seq<char>>>, Seq<char>>,
) -> Result<TableV, CsvErrorV> {
    match lacks(headers, 0) {
        Some(name) => Err(CsvErrorV::Missing(name)),
        None => match rows {
            Err(e) => Err(CsvErrorV::Parse(e)),
            Ok(records) => Ok(
                TableV {
                    headers,
                    rows: Seq::new(records.len(), |i: int| observation(headers, records[i])),
                },
            ),
        },
    }
}

/// The table that the bytes hold.
pub open spec fn loaded(b: Seq<u8>) -> Result<TableV, CsvErrorV> {
    match csv_read(b) {
        Err(e) => Err(CsvErrorV::Parse(e)),
        Ok((headers, rows)) => tabulated(headers, rows),
    }
}

/// The result holds what the specification says.
pub open spec fn same_table(r: Result<Table, CsvError>, want: Result<TableV, CsvErrorV>) -> bool {
    match r {
        Ok(t) => want == Ok::<TableV, CsvErrorV>(t.deep_view()),
        Err(e) => want == Err::<TableV, CsvErrorV>(e.deep_view()),
    }
}

fn col(headers: &Vec<String>, name: &str) -> (r: Result<usize, CsvError>)
    ensures
        match r {
            Ok(i) => first(headers.deep_view(), name@) == Some(i as int),
            Err(e) => first(headers.deep_view(), name@) is None && e.deep_view()
                == CsvErrorV::Missing(name@),
        },
{
    match find_first(headers, name) {
        Some(i) => Ok(i),
        None => Err(CsvError::Missing(name.to_string())),
    }
}

fn columns(headers: &Vec<String>) -> (r: Result<Columns, CsvError>)
    ensures
        match r {
            Ok(c) => {
                let h = headers.deep_view();
                &&& lacks(h, 0) is None
                &&& first(h, column_name(0)) == Some(c.build as int)
                &&& first(h, column_name(1)) == Some(c.device as int)
                &&& first(h, column_name(2)) == Some(c.blocked as int)
                &&& first(h, column_name(3)) == Some(c.blocking as int)
                &&& first(h, column_name(4)) == Some(c.blocked_method as int)
                &&& first(h, column_name(5)) == Some(c.blocking_method as int)
            },
            Err(e) => match lacks(headers.deep_view(), 0) {
                Some(name) => e.deep_view() == CsvErrorV::Missing(name),
                None => false,
            },
        },
{
    proof {
        reveal_with_fuel(lacks, 7);
    }
    let build = match col(headers, "build_id") {
        Ok(i) => i,
        Err(e) => {
            return Err(e);
        },
    };
    let device = match col(headers, "device_name") {
        Ok(i) => i,
        Err(e) => {
            return Err(e);
        },
    };
    let blocked = match col(headers, "blocked_src") {
        Ok(i) => i,
        Err(e) => {
            return Err(e);
        },
    };
    let blocking = match col(headers, "blocking_src") {
        Ok(i) => i,
        Err(e) => {
            return Err(e);
        },
    };
    let blocked_method = match col(headers, "short_blocked_method") {
        Ok(i) => i,
        Err(e) => {
            return Err(e);
        },
    };
    let blocking_method = match col(headers, "short_blocking_method") {
        Ok(i) => i,
        Err(e) => {
            return Err(e);
        },
    };
    Ok(Columns { build, device, blocked, blocking, blocked_method, blocking_method })
}

fn get(record: &Vec<String>, i: usize) -> (r: String)
    ensures
        r@ == if i < record@.len() {
            text::trimmed(record.deep_view()[i as int])
        } else {
            text::trimmed(""@)
        },
{
    if i < record.len() {
        text::trim(record[i].as_str())
    } else {
        text::trim("")
    }
}

/// The records of a contention table as observations.
pub fn table(headers: Vec<String>, rows: Result<Vec<Vec<String>>, String>) -> (r: Result<
    Table,
    CsvError,
>)
    ensures
        same_table(r, tabulated(headers.deep_view(), records_view((headers, rows)).1)),
{
    let c = match columns(&headers) {
        Ok(c) => c,
        Err(e) => {
            return Err(e);
        },
    };
    let records = match rows {
        Ok(rows) => rows,
        Err(e) => {
            return Err(CsvError::Parse(e));
        },
    };
    let ghost hv = headers.deep_view();
    let ghost rv = records.deep_view();
    let ghost row = |i: int| observation(hv, rv[i]);
    let mut out: Vec<Contention> = values::empty();
    let mut k: usize = 0;
    while k < records.len()
        invariant
            k <= records@.len(),
            hv == headers.deep_view(),
            rv == records.deep_view(),
            first(hv, column_name(0)) == Some(c.build as int),
            first(hv, column_name(1)) == Some(c.device as int),
            first(hv, column_name(2)) == Some(c.blocked as int),
            first(hv, column_name(3)) == Some(c.blocking as int),
            first(hv, column_name(4)) == Some(c.blocked_method as int),
            first(hv, column_name(5)) == Some(c.blocking_method as int),
            out.deep_view().len() == k,
            forall|i: int|
                0 <= i < k ==> #[trigger] out.deep_view()[i] == observation(hv, rv[i]),
        decreases records@.len() - k,
    {
        let rec = &records[k];
        proof {
            assert(rv[k as int] == rec.deep_view());
        }
        let x = Contention {
            build_id: get(rec, c.build),
            device: get(rec, c.device),
            blocked_src: get(rec, c.blocked),
            blocking_src: get(rec, c.blocking),
            short_blocked_method: get(rec, c.blocked_method),
            short_blocking_method: get(rec, c.blocking_method),
            raw: rec.dup(),
            resolved_blocked_lock: "N/A".to_string(),
            resolved_blocking_lock: "N/A".to_string(),
        };
        proof {
            assert(x.deep_view() == observation(hv, rv[k as int]));
        }
        values::push(&mut out, x);
        k += 1;
    }
    proof {
        assert(out.deep_view() =~= Seq::new(rv.len(), |i: int| observation(hv, rv[i])));
    }
    Ok(Table { headers, rows: out })
}

/// Load a contention table from the bytes of a CSV file.
pub fn load(b: &[u8]) -> (r: Result<Table, CsvError>)
    ensures
        same_table(r, loaded(b@)),
        r matches Ok(t) ==> carries_header(t.deep_view()),
{
    match read_records(b) {
        Err(e) => Err(CsvError::Parse(e)),
        Ok((headers, rows)) => {
            let ghost hv = headers.deep_view();
            let ghost rv = records_view((headers, rows)).1;
            let r = table(headers, rows);
            proof {
                assert(same_table(r, tabulated(hv, rv)));
            }
            r
        },
    }
}

/// Each row carries as many fields as the header has.
pub open spec fn carries_header(t: TableV) -> bool {
    forall|i: int| 0 <= i < t.rows.len() ==> (#[trigger] t.rows[i]).raw.len() == t.headers.len()
}

/// What an aggregate is keyed by.
#[verifier::ext_equal]
pub struct KeyV {
    pub blocked_lock: Seq<char>,
    pub blocking_lock: Seq<char>,
    pub blocked_method: Seq<char>,
    pub blocking_method: Seq<char>,
}

/// What an aggregate is keyed by.
pub struct Key {
    pub blocked_lock: String,
    pub blocking_lock: String,
    pub blocked_method: String,
    pub blocking_method: String,
}

impl DeepView for Key {
    type V = KeyV;

    open spec fn deep_view(&self) -> KeyV {
        KeyV {
            blocked_lock: self.blocked_lock@,
            blocking_lock: self.blocking_lock@,
            blocked_method: self.blocked_method@,
            blocking_method: self.blocking_method@,
        }
    }
}

impl Same for Key {
    fn same(&self, other: &Self) -> (r: bool) {
        self.blocked_lock.same(&other.blocked_lock) && self.blocking_lock.same(
            &other.blocking_lock,
        ) && self.blocked_method.same(&other.blocked_method) && self.blocking_method.same(
            &other.blocking_method,
        )
    }
}

/// The structural columns of an observation.
pub open spec fn key_of(r: ContentionV) -> KeyV {
    KeyV {
        blocked_lock: r.resolved_blocked_lock,
        blocking_lock: r.resolved_blocking_lock,
        blocked_method: r.short_blocked_method,
        blocking_method: r.short_blocking_method,
    }
}

/// The structural columns of the observations.
pub open spec fn keys_of(rows: Seq<ContentionV>) -> Seq<KeyV> {
    Seq::new(rows.len(), |i: int| key_of(rows[i]))
}

/// Keys stand column by column.
pub open spec fn key_le() -> spec_fn(KeyV, KeyV) -> bool {
    |a: KeyV, b: KeyV|
        if a.blocked_lock != b.blocked_lock {
            text::lex_le(a.blocked_lock, b.blocked_lock)
        } else if a.blocking_lock != b.blocking_lock {
            text::lex_le(a.blocking_lock, b.blocking_lock)
        } else if a.blocked_method != b.blocked_method {
            text::lex_le(a.blocked_method, b.blocked_method)
        } else {
            text::lex_le(a.blocking_method, b.blocking_method)
        }
}

fn key_first(a: &Key, b: &Key) -> (r: bool)
    ensures
        r == key_le()(a.deep_view(), b.deep_view()),
{
    if !a.blocked_lock.same(&b.blocked_lock) {
        return text::str_le(a.blocked_lock.as_str(), b.blocked_lock.as_str());
    }
    if !a.blocking_lock.same(&b.blocking_lock) {
        return text::str_le(a.blocking_lock.as_str(), b.blocking_lock.as_str());
    }
    if !a.blocked_method.same(&b.blocked_method) {
        return text::str_le(a.blocked_method.as_str(), b.blocked_method.as_str());
    }
    text::str_le(a.blocking_method.as_str(), b.blocking_method.as_str())
}

/// More traces first.
pub open spec fn more_first() -> spec_fn((KeyV, u64), (KeyV, u64)) -> bool {
    |a: (KeyV, u64), b: (KeyV, u64)| a.1 >= b.1
}

fn more(a: &(Key, u64), b: &(Key, u64)) -> (r: bool)
    ensures
        r == more_first()(a.deep_view(), b.deep_view()),
{
    a.1 >= b.1
}

/// The aggregate: each key with the number of its traces, the largest first, equal ones by
/// key.
pub open spec fn aggregate(rows: Seq<ContentionV>) -> Seq<(KeyV, u64)> {
    sort::sorted(tally::tallied(keys_of(rows), key_le()), more_first())
}

/// The header of the aggregate.
pub open spec fn compact_header() -> Seq<Seq<char>> {
    seq![
        "resolved_blocked_lock"@,
        "resolved_blocking_lock"@,
        "short_blocked_method"@,
        "short_blocking_method"@,
        "traces"@,
    ]
}

/// One record of the aggregate.
pub open spec fn compact_record(c: (KeyV, u64)) -> Seq<Seq<char>> {
    seq![
        c.0.blocked_lock,
        c.0.blocking_lock,
        c.0.blocked_method,
        c.0.blocking_method,
        text::dec(c.1 as nat),
    ]
}

/// The records of the aggregate.
pub open spec fn compact_records(rows: Seq<ContentionV>) -> Seq<Seq<Seq<char>>> {
    let all = aggregate(rows);
    seq![compact_header()] + Seq::new(all.len(), |i: int| compact_record(all[i]))
}

/// The header with the column, which goes to the end if it is new.
pub open spec fn with_column(headers: Seq<Seq<char>>, name: Seq<char>) -> Seq<Seq<char>> {
    if first(headers, name) is Some {
        headers
    } else {
        headers.push(name)
    }
}

/// Where the column stands in the header with it.
pub open spec fn column_in(headers: Seq<Seq<char>>, name: Seq<char>) -> int {
    match first(headers, name) {
        Some(i) => i,
        None => headers.len() as int,
    }
}

/// The header with the two columns of the resolved locks.
pub open spec fn full_header(headers: Seq<Seq<char>>) -> Seq<Seq<char>> {
    with_column(with_column(headers, "resolved_blocked_lock"@), "resolved_blocking_lock"@)
}

/// The fields, filled up with empty ones to `n`.
pub open spec fn filled(fields: Seq<Seq<char>>, n: nat) -> Seq<Seq<char>> {
    if fields.len() < n {
        fields + Seq::new((n - fields.len()) as nat, |i: int| ""@)
    } else {
        fields
    }
}

/// One record of the full table: the fields of the row, with the two locks in their
/// columns.
pub open spec fn full_record(headers: Seq<Seq<char>>, r: ContentionV) -> Seq<Seq<char>> {
    let once = with_column(headers, "resolved_blocked_lock"@);
    filled(r.raw, full_header(headers).len()).update(
        column_in(headers, "resolved_blocked_lock"@),
        r.resolved_blocked_lock,
    ).update(column_in(once, "resolved_blocking_lock"@), r.resolved_blocking_lock)
}

/// The records of the full table.
pub open spec fn full_records(headers: Seq<Seq<char>>, rows: Seq<ContentionV>) -> Seq<
    Seq<Seq<char>>,
> {
    seq![full_header(headers)] + Seq::new(rows.len(), |i: int| full_record(headers, rows[i]))
}

/// The records of the output.
pub open spec fn output(headers: Seq<Seq<char>>, rows: Seq<ContentionV>, compact: bool) -> Seq<
    Seq<Seq<char>>,
> {
    if compact {
        compact_records(rows)
    } else {
        full_records(headers, rows)
    }
}

proof fn lemma_first(list: Seq<Seq<char>>, name: Seq<char>, k: int)
    requires
        0 <= k,
    ensures
        match first_from(list, name, k) {
            Some(i) => k <= i < list.len() && list[i] == name,
            None => true,
        },
    decreases list.len() - k,
{
    if k < list.len() && list[k] != name {
        lemma_first(list, name, k + 1);
    }
}

/// The index of the column, which goes to the end of the header if it is new.
pub fn index_or_push(headers: &mut Vec<String>, name: &str) -> (r: usize)
    ensures
        final(headers).deep_view() == with_column(old(headers).deep_view(), name@),
        r == column_in(old(headers).deep_view(), name@),
        r < final(headers)@.len(),
{
    match find_first(headers, name) {
        Some(i) => i,
        None => {
            let at = headers.len();
            values::push(headers, name.to_string());
            at
        },
    }
}

fn aggregated(rows: &Vec<Contention>) -> (r: Vec<(Key, u64)>)
    ensures
        r.deep_view() == aggregate(rows.deep_view()),
{
    let ghost rv = rows.deep_view();
    let mut keys: Vec<Key> = values::empty();
    let mut k: usize = 0;
    while k < rows.len()
        invariant
            k <= rows@.len(),
            rv == rows.deep_view(),
            keys.deep_view() == keys_of(rv.take(k as int)),
        decreases rows@.len() - k,
    {
        let r = &rows[k];
        proof {
            assert(rv[k as int] == r.deep_view());
        }
        values::push(
            &mut keys,
            Key {
                blocked_lock: r.resolved_blocked_lock.dup(),
                blocking_lock: r.resolved_blocking_lock.dup(),
                blocked_method: r.short_blocked_method.dup(),
                blocking_method: r.short_blocking_method.dup(),
            },
        );
        k += 1;
        proof {
            assert(keys.deep_view() =~= keys_of(rv.take(k as int)));
        }
    }
    proof {
        assert(rv.take(k as int) =~= rv);
    }
    let counted = tally::tally(keys, &key_first, Ghost(key_le()));
    sort::sort_by(counted, &more, Ghost(more_first()))
}

fn compact_output(rows: &Vec<Contention>) -> (r: Vec<Vec<String>>)
    ensures
        r.deep_view() == compact_records(rows.deep_view()),
{
    let all = aggregated(rows);
    let ghost av = all.deep_view();
    let header = vec![
        "resolved_blocked_lock".to_string(),
        "resolved_blocking_lock".to_string(),
        "short_blocked_method".to_string(),
        "short_blocking_method".to_string(),
        "traces".to_string(),
    ];
    proof {
        assert(header.deep_view() =~= compact_header());
    }
    let mut out: Vec<Vec<String>> = values::empty();
    values::push(&mut out, header);
    let mut k: usize = 0;
    proof {
        assert(out.deep_view() =~= seq![compact_header()] + Seq::new(
            0,
            |i: int| compact_record(av[i]),
        ));
    }
    while k < all.len()
        invariant
            k <= all@.len(),
            av == all.deep_view(),
            out.deep_view() == seq![compact_header()] + Seq::new(
                k as nat,
                |i: int| compact_record(av[i]),
            ),
        decreases all@.len() - k,
    {
        let c = &all[k];
        proof {
            assert(av[k as int] == c.deep_view());
        }
        let record = vec![
            c.0.blocked_lock.dup(),
            c.0.blocking_lock.dup(),
            c.0.blocked_method.dup(),
            c.0.blocking_method.dup(),
            text::dec_of(c.1),
        ];
        proof {
            assert(record.deep_view() =~= compact_record(av[k as int]));
        }
        values::push(&mut out, record);
        k += 1;
        proof {
            assert(out.deep_view() =~= seq![compact_header()] + Seq::new(
                k as nat,
                |i: int| compact_record(av[i]),
            ));
        }
    }
    out
}

fn fill_up(fields: &mut Vec<String>, n: usize)
    ensures
        final(fields).deep_view() == filled(old(fields).deep_view(), n as nat),
{
    let ghost start = fields.deep_view();
    proof {
        assert(start + Seq::new(0, |i: int| ""@) =~= start);
    }
    while fields.len() < n
        invariant
            start.len() <= fields@.len(),
            fields@.len() <= n || fields@.len() == start.len(),
            fields.deep_view() == start + Seq::new(
                (fields@.len() - start.len()) as nat,
                |i: int| ""@,
            ),
        decreases n - fields@.len(),
    {
        values::push(fields, "".to_string());
        proof {
            assert(fields.deep_view() =~= start + Seq::new(
                (fields@.len() - start.len()) as nat,
                |i: int| ""@,
            ));
        }
    }
}

fn full_output(headers: &Vec<String>, rows: &Vec<Contention>) -> (r: Vec<Vec<String>>)
    ensures
        r.deep_view() == full_records(headers.deep_view(), rows.deep_view()),
{
    let ghost hv = headers.deep_view();
    let ghost rv = rows.deep_view();
    let mut header = headers.dup();
    let bi = index_or_push(&mut header, "resolved_blocked_lock");
    let ki = index_or_push(&mut header, "resolved_blocking_lock");
    let n = header.len();
    let ghost full = full_header(hv);
    proof {
        assert(header.deep_view() == full);
        lemma_first(hv, "resolved_blocked_lock"@, 0);
    }
    let mut out: Vec<Vec<String>> = values::empty();
    values::push(&mut out, header);
    let mut k: usize = 0;
    proof {
        assert(out.deep_view() =~= seq![full] + Seq::new(0, |i: int| full_record(hv, rv[i])));
    }
    while k < rows.len()
        invariant
            k <= rows@.len(),
            rv == rows.deep_view(),
            full == full_header(hv),
            n == full.len(),
            bi == column_in(hv, "resolved_blocked_lock"@),
            ki == column_in(
                with_column(hv, "resolved_blocked_lock"@),
                "resolved_blocking_lock"@,
            ),
            bi < n,
            ki < n,
            out.deep_view() == seq![full] + Seq::new(k as nat, |i: int| full_record(hv, rv[i])),
        decreases rows@.len() - k,
    {
        let r = &rows[k];
        proof {
            assert(rv[k as int] == r.deep_view());
        }
        let mut fields = r.raw.dup();
        fill_up(&mut fields, n);
        let ghost f0 = fields.deep_view();
        let blocked = r.resolved_blocked_lock.dup();
        let blocking = r.resolved_blocking_lock.dup();
        proof {
            assert(f0.len() == fields@.len());
        }
        fields.set(bi, blocked);
        proof {
            assert(fields.deep_view() =~= f0.update(bi as int, r.resolved_blocked_lock@));
        }
        let ghost f1 = fields.deep_view();
        fields.set(ki, blocking);
        proof {
            assert(fields.deep_view() =~= f1.update(ki as int, r.resolved_blocking_lock@));
            assert(fields.deep_view() == full_record(hv, rv[k as int]));
        }
        values::push(&mut out, fields);
        k += 1;
        proof {
            assert(out.deep_view() =~= seq![full] + Seq::new(
                k as nat,
                |i: int| full_record(hv, rv[i]),
            ));
        }
    }
    out
}

/// The records of the resolved table. With `compact`, an aggregate keyed by the four
/// structural columns with a trace count, sorted by count descending; otherwise every row
/// with the two resolved-lock columns appended (or overwritten).
pub fn records(headers: &Vec<String>, rows: &Vec<Contention>, compact: bool) -> (r: Vec<
    Vec<String>,
>)
    ensures
        r.deep_view() == output(headers.deep_view(), rows.deep_view(), compact),
{
    if compact {
        compact_output(rows)
    } else {
        full_output(headers, rows)
    }
}

/// The resolved table as the bytes of a CSV file.
pub fn save(headers: &Vec<String>, rows: &Vec<Contention>, compact: bool) -> (r: Result<
    Vec<u8>,
    String,
>)
    ensures
        match r {
            Ok(b) => csv_written(output(headers.deep_view(), rows.deep_view(), compact)) == Ok::<
                Seq<u8>,
                Seq<char>,
            >(b@),
            Err(e) => csv_written(output(headers.deep_view(), rows.deep_view(), compact)) == Err::<
                Seq<u8>,
                Seq<char>,
            >(e@),
        },
        r is Ok <==> even(output(headers.deep_view(), rows.deep_view(), compact)),
{
    let all = records(headers, rows, compact);
    write_records(&all)
}

/// The aggregate has each combination of the structural columns once, with the number of
/// its traces, and the combinations with more traces stand first.
pub proof fn law_aggregate_counts_traces(rows: Seq<ContentionV>)
    requires
        rows.len() <= u64::MAX,
    ensures
        tally::counts(aggregate(rows), keys_of(rows)),
        sort::in_order(aggregate(rows), more_first()),
{
    let t = tally::tallied(keys_of(rows), key_le());
    text::lemma_lex_order();
    tally::law_tally_counts_occurrences(keys_of(rows), key_le());
    sort::lemma_sorted(t, more_first());
    tally::lemma_counts_permuted(t, aggregate(rows), keys_of(rows));
}

/// The full table keeps every other column: a record holds the row's own field wherever it
/// is not one of the two columns of the resolved locks, and the resolved locks in those.
pub proof fn law_other_columns_are_kept(headers: Seq<Seq<char>>, r: ContentionV, i: int)
    requires
        0 <= i < r.raw.len(),
        r.raw.len() == headers.len(),
    ensures
        full_record(headers, r).len() == full_header(headers).len(),
        full_record(headers, r)[column_in(
            with_column(headers, "resolved_blocked_lock"@),
            "resolved_blocking_lock"@,
        )] == r.resolved_blocking_lock,
        full_record(headers, r)[column_in(headers, "resolved_blocked_lock"@)]
            == r.resolved_blocked_lock,
        full_header(headers)[i] == headers[i],
        headers[i] != "resolved_blocked_lock"@ && headers[i] != "resolved_blocking_lock"@
            ==> full_record(headers, r)[i] == r.raw[i],
{
    let once = with_column(headers, "resolved_blocked_lock"@);
    reveal_strlit("resolved_blocked_lock");
    reveal_strlit("resolved_blocking_lock");
    lemma_first(headers, "resolved_blocked_lock"@, 0);
    lemma_first(once, "resolved_blocking_lock"@, 0);
    assert("resolved_blocked_lock"@.len() != "resolved_blocking_lock"@.len());
}

/// A table that was loaded can be saved, whatever locks were filled in.
pub proof fn law_loaded_tables_can_be_saved(
    headers: Seq<Seq<char>>,
    rows: Seq<ContentionV>,
    compact: bool,
)
    requires
        carries_header(TableV { headers, rows }),
    ensures
        even(output(headers, rows, compact)),
{
    let out = output(headers, rows, compact);
    let t = TableV { headers, rows };
    if !compact {
        let once = with_column(headers, "resolved_blocked_lock"@);
        lemma_first(headers, "resolved_blocked_lock"@, 0);
        lemma_first(once, "resolved_blocking_lock"@, 0);
        assert forall|i: int| 0 <= i < out.len() implies (#[trigger] out[i]).len()
            == out[0].len() by {
            if i > 0 {
                assert(t.rows[i - 1].raw.len() == t.headers.len());
                assert(out[i] == full_record(headers, rows[i - 1]));
            }
        }
    }
}

} // verus!

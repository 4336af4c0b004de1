//! Where contention observations come from.
//!
//! The pipeline only needs a `Vec<Contention>`; how that batch is obtained is a
//! pluggable seam. Two portable sources ship here: a CSV table, and a synthetic mock for
//! tests. Wire in an environment-specific source (a query against a trace store, an
//! HTTP endpoint, ...) by implementing [`TraceSource`].

use crate::csv_io;
use crate::csv_io::{CsvErrorV, TableV};
use crate::model::{Contention, ContentionV, Query};
use crate::sort;
use crate::text;
use crate::values;
use crate::values::Dup;
use vstd::prelude::*;

verus! {

/// A batch provider of monitor-contention observations.
pub trait TraceSource {
    /// Return the observations selected by `query`, or say why there are none.
    fn fetch(&self, query: &Query) -> Result<Vec<Contention>, String>;
}

/// The query wants the observation.
pub open spec fn wanted(q: Query, r: ContentionV) -> bool {
    &&& match q.build_id {
        Some(b) => r.build_id == b@,
        None => true,
    }
    &&& match q.device {
        Some(d) => r.device == d@,
        None => true,
    }
}

/// The wanted observations from the `k`th on, behind `acc`.
pub open spec fn wanted_from(q: Query, rows: Seq<ContentionV>, k: int, acc: Seq<ContentionV>) -> Seq<
    ContentionV,
>
    decreases rows.len() - k,
{
    if k >= rows.len() {
        acc
    } else {
        wanted_from(
            q,
            rows,
            k + 1,
            if wanted(q, rows[k]) {
                acc.push(rows[k])
            } else {
                acc
            },
        )
    }
}

/// The observations that the query selects: those of its build and its device, up to its
/// limit.
pub open spec fn selected(q: Query, rows: Seq<ContentionV>) -> Seq<ContentionV> {
    let all = wanted_from(q, rows, 0, Seq::empty());
    if q.limit > 0 && all.len() > q.limit {
        all.take(q.limit as int)
    } else {
        all
    }
}

/// Every selected observation is one of the query's build and device, and there are at most
/// as many as its limit.
pub proof fn law_selection_obeys_the_query(q: Query, rows: Seq<ContentionV>)
    ensures
        q.limit > 0 ==> selected(q, rows).len() <= q.limit,
        forall|i: int|
            0 <= i < selected(q, rows).len() ==> wanted(q, #[trigger] selected(q, rows)[i])
                && rows.contains(selected(q, rows)[i]),
{
    lemma_wanted(q, rows, 0, Seq::empty());
}

proof fn lemma_wanted(q: Query, rows: Seq<ContentionV>, k: int, acc: Seq<ContentionV>)
    requires
        0 <= k,
        forall|i: int|
            0 <= i < acc.len() ==> wanted(q, #[trigger] acc[i]) && rows.contains(acc[i]),
    ensures
        forall|i: int|
            0 <= i < wanted_from(q, rows, k, acc).len() ==> wanted(
                q,
                #[trigger] wanted_from(q, rows, k, acc)[i],
            ) && rows.contains(wanted_from(q, rows, k, acc)[i]),
    decreases rows.len() - k,
{
    if k < rows.len() {
        let next = if wanted(q, rows[k]) {
            acc.push(rows[k])
        } else {
            acc
        };
        assert(rows.contains(rows[k]));
        lemma_wanted(q, rows, k + 1, next);
        assert(wanted_from(q, rows, k, acc) == wanted_from(q, rows, k + 1, next));
    }
}

fn wants(q: &Query, r: &Contention) -> (b: bool)
    ensures
        b == wanted(*q, r.deep_view()),
{
    let build = match &q.build_id {
        Some(b) => text::str_eq(r.build_id.as_str(), b.as_str()),
        None => true,
    };
    let device = match &q.device {
        Some(d) => text::str_eq(r.device.as_str(), d.as_str()),
        None => true,
    };
    build && device
}

/// Select observations: those of the query's build and device, up to its limit.
pub fn select(rows: Vec<Contention>, query: &Query) -> (r: Vec<Contention>)
    ensures
        r.deep_view() == selected(*query, rows.deep_view()),
{
    let ghost rv = rows.deep_view();
    let n = rows.len();
    let mut rest = sort::reversed(rows);
    let mut out: Vec<Contention> = values::empty();
    let mut k: usize = 0;
    while rest.len() > 0
        invariant
            k <= n,
            n == rv.len(),
            rest.deep_view() == rv.skip(k as int).reverse(),
            wanted_from(*query, rv, 0, Seq::empty()) == wanted_from(
                *query,
                rv,
                k as int,
                out.deep_view(),
            ),
        decreases rest@.len(),
    {
        let ghost before = rest.deep_view();
        proof {
            assert(before.len() == rest@.len());
            assert(before[before.len() - 1] == rv[k as int]);
        }
        match rest.pop() {
            None => {},
            Some(x) => {
                proof {
                    assert(x.deep_view() == rv[k as int]);
                    assert(rest.deep_view() =~= before.drop_last());
                    assert(before.drop_last() =~= rv.skip(k + 1).reverse());
                }
                if wants(query, &x) {
                    values::push(&mut out, x);
                }
                k += 1;
            },
        }
    }
    let ghost all = out.deep_view();
    if query.limit > 0 && out.len() > query.limit {
        out.truncate(query.limit);
        proof {
            assert(out.deep_view() =~= all.take(query.limit as int));
        }
    }
    out
}

/// Reads contention rows from the bytes of a CSV file (see [`crate::csv_io`] for the
/// expected columns). The most portable source: whatever produces the table upstream, this
/// consumes it.
pub struct CsvTraceSource {
    pub csv: Vec<u8>,
}

/// What is selected from a loaded table, or what its error says.
pub open spec fn fetched(q: Query, table: Result<TableV, CsvErrorV>) -> Result<
    Seq<ContentionV>,
    Seq<char>,
> {
    match table {
        Ok(t) => Ok(selected(q, t.rows)),
        Err(e) => Err(e.says()),
    }
}

impl TraceSource for CsvTraceSource {
    fn fetch(&self, query: &Query) -> (r: Result<Vec<Contention>, String>)
        ensures
            match r {
                Ok(rows) => fetched(*query, csv_io::loaded(self.csv@)) == Ok::<_, Seq<char>>(
                    rows.deep_view(),
                ),
                Err(e) => fetched(*query, csv_io::loaded(self.csv@)) == Err::<
                    Seq<ContentionV>,
                    Seq<char>,
                >(e@),
            },
    {
        match csv_io::load(self.csv.as_slice()) {
            Ok(table) => Ok(select(table.rows, query)),
            Err(e) => Err(e.message()),
        }
    }
}

/// A synthetic source for tests and demos — deterministic, no I/O.
pub struct MockTraceSource {
    pub rows: Vec<Contention>,
}

/// The `i`th of the synthetic observations.
pub open spec fn synthetic_row(
    build_id: Seq<char>,
    device: Seq<char>,
    sites: Seq<(Seq<char>, Seq<char>)>,
    i: int,
) -> ContentionV {
    let (a, b) = sites[i % sites.len() as int];
    ContentionV {
        build_id,
        device,
        blocked_src: a,
        blocking_src: b,
        short_blocked_method: "blocked"@,
        short_blocking_method: "blocking"@,
        raw: seq![build_id, device, a, b],
        resolved_blocked_lock: "N/A"@,
        resolved_blocking_lock: "N/A"@,
    }
}

/// The pairs of sites.
pub open spec fn site_pairs(sites: Seq<(&str, &str)>) -> Seq<(Seq<char>, Seq<char>)> {
    Seq::new(sites.len(), |i: int| (sites[i].0@, sites[i].1@))
}

impl MockTraceSource {
    /// Build `n` observations for one build, alternating the source sites so the
    /// grouping and resolution paths are exercised without any external system.
    pub fn synthetic(build_id: &str, device: &str, sites: &[(&str, &str)], n: usize) -> (r: Self)
        requires
            n == 0 || sites@.len() > 0,
        ensures
            r.rows.deep_view() == Seq::new(
                n as nat,
                |i: int| synthetic_row(build_id@, device@, site_pairs(sites@), i),
            ),
    {
        let ghost pairs = site_pairs(sites@);
        let mut rows: Vec<Contention> = values::empty();
        let mut i: usize = 0;
        while i < n
            invariant
                i <= n,
                n == 0 || sites@.len() > 0,
                pairs == site_pairs(sites@),
                rows.deep_view() == Seq::new(
                    i as nat,
                    |j: int| synthetic_row(build_id@, device@, pairs, j),
                ),
            decreases n - i,
        {
            let at = i % sites.len();
            let a = sites[at].0;
            let b = sites[at].1;
            let raw = vec![
                build_id.to_string(),
                device.to_string(),
                a.to_string(),
                b.to_string(),
            ];
            let ghost before = rows.deep_view();
            let x = Contention {
                build_id: build_id.to_string(),
                device: device.to_string(),
                blocked_src: a.to_string(),
                blocking_src: b.to_string(),
                short_blocked_method: "blocked".to_string(),
                short_blocking_method: "blocking".to_string(),
                raw,
                resolved_blocked_lock: "N/A".to_string(),
                resolved_blocking_lock: "N/A".to_string(),
            };
            proof {
                assert(pairs[at as int] == (a@, b@));
                assert(x.raw.deep_view() =~= seq![build_id@, device@, a@, b@]);
                assert(x.deep_view() == synthetic_row(build_id@, device@, pairs, i as int));
            }
            values::push(&mut rows, x);
            i += 1;
            proof {
                assert(rows.deep_view() =~= Seq::new(
                    i as nat,
                    |j: int| synthetic_row(build_id@, device@, pairs, j),
                ));
            }
        }
        MockTraceSource { rows }
    }
}

impl TraceSource for MockTraceSource {
    fn fetch(&self, _query: &Query) -> (r: Result<Vec<Contention>, String>)
        ensures
            r matches Ok(rows) && rows.deep_view() == self.rows.deep_view(),
    {
        Ok(self.rows.dup())
    }
}

} // verus!

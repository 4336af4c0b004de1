//! Orchestration: group observations by build and resolve each build's sites once.

use crate::dex::resolve::{ResolveIndex, SiteV};
use crate::model::{Contention, ContentionV};
use crate::names;
use crate::names::Names;
use crate::resolver;
use crate::resolver::{Options, Resolver};
use crate::site;
use crate::sort;
use crate::text;
use crate::values;
use crate::values::Dup;
use vstd::prelude::*;

verus! {

/// Output configuration for a run.
#[derive(Debug)]
pub struct Output {
    pub path: String,
    /// Emit the compacted aggregate (structural columns + trace count) instead of
    /// the full per-row table.
    pub compact: bool,
}

/// The observations of one build on one device, by number.
#[derive(Debug)]
pub struct Group {
    pub build_id: String,
    pub device: String,
    pub rows: Vec<usize>,
}

/// What a group holds.
#[verifier::ext_equal]
pub struct GroupV {
    pub build_id: Seq<char>,
    pub device: Seq<char>,
    pub rows: Seq<usize>,
}

impl DeepView for Group {
    type V = GroupV;

    open spec fn deep_view(&self) -> GroupV {
        GroupV { build_id: self.build_id@, device: self.device@, rows: self.rows@ }
    }
}

/// The observation belongs to the group.
pub open spec fn belongs(r: ContentionV, g: GroupV) -> bool {
    r.build_id == g.build_id && r.device == g.device
}

/// The first of the groups from the `k`th on to which the observation belongs.
pub open spec fn group_from(gs: Seq<GroupV>, r: ContentionV, k: int) -> Option<int>
    decreases gs.len() - k,
{
    if k >= gs.len() {
        None
    } else if belongs(r, gs[k]) {
        Some(k)
    } else {
        group_from(gs, r, k + 1)
    }
}

/// The groups with one more observation.
pub open spec fn grouped(gs: Seq<GroupV>, r: ContentionV, i: usize) -> Seq<GroupV> {
    match group_from(gs, r, 0) {
        Some(g) => gs.update(g, GroupV { rows: gs[g].rows.push(i), ..gs[g] }),
        None => gs.push(GroupV { build_id: r.build_id, device: r.device, rows: seq![i] }),
    }
}

/// The groups of the observations, in the order in which they first appear.
pub open spec fn groups(rows: Seq<ContentionV>) -> Seq<GroupV>
    decreases rows.len(),
{
    if rows.len() == 0 {
        Seq::empty()
    } else {
        grouped(groups(rows.drop_last()), rows.last(), (rows.len() - 1) as usize)
    }
}

/// Larger groups first.
pub open spec fn larger_first() -> spec_fn(GroupV, GroupV) -> bool {
    |a: GroupV, b: GroupV| a.rows.len() >= b.rows.len()
}

/// The groups of the observations, largest first, equal ones as they first appear.
pub open spec fn planned(rows: Seq<ContentionV>) -> Seq<GroupV> {
    sort::sorted(groups(rows), larger_first())
}

fn larger(a: &Group, b: &Group) -> (r: bool)
    ensures
        r == larger_first()(a.deep_view(), b.deep_view()),
{
    a.rows.len() >= b.rows.len()
}

fn find_group(gs: &Vec<Group>, r: &Contention) -> (o: Option<usize>)
    ensures
        match o {
            Some(g) => group_from(gs.deep_view(), r.deep_view(), 0) == Some(g as int) && g
                < gs@.len(),
            None => group_from(gs.deep_view(), r.deep_view(), 0) is None,
        },
{
    let ghost gv = gs.deep_view();
    let ghost rv = r.deep_view();
    let mut k: usize = 0;
    while k < gs.len()
        invariant
            k <= gs@.len(),
            gv == gs.deep_view(),
            rv == r.deep_view(),
            group_from(gs.deep_view(), r.deep_view(), 0) == group_from(gv, rv, k as int),
        decreases gs@.len() - k,
    {
        proof {
            assert(gv[k as int] == gs@[k as int].deep_view());
        }
        if text::str_eq(r.build_id.as_str(), gs[k].build_id.as_str()) && text::str_eq(
            r.device.as_str(),
            gs[k].device.as_str(),
        ) {
            return Some(k);
        }
        k += 1;
    }
    None
}

fn put_in_group(gs: &mut Vec<Group>, r: &Contention, i: usize)
    ensures
        final(gs).deep_view() == grouped(old(gs).deep_view(), r.deep_view(), i),
{
    let ghost before = gs.deep_view();
    match find_group(gs, r) {
        Some(g) => {
            let mut x = Group { build_id: String::new(), device: String::new(), rows: Vec::new() };
            std::mem::swap(&mut gs[g], &mut x);
            let ghost xv = x.deep_view();
            proof {
                assert(xv == before[g as int]);
            }
            x.rows.push(i);
            gs.set(g, x);
            proof {
                assert(gs.deep_view() =~= before.update(
                    g as int,
                    GroupV { rows: xv.rows.push(i), ..xv },
                ));
            }
        },
        None => {
            let (build_id, device) = r.group_key();
            let rows = vec![i];
            proof {
                assert(rows@ =~= seq![i]);
            }
            values::push(gs, Group { build_id, device, rows });
        },
    }
}

/// Group observations by build and device, the largest group first: all sites for one build
/// resolve against the same artifacts, so each build is fetched and analyzed once.
pub fn plan(rows: &Vec<Contention>) -> (r: Vec<Group>)
    ensures
        r.deep_view() == planned(rows.deep_view()),
{
    let ghost rv = rows.deep_view();
    let mut gs: Vec<Group> = values::empty();
    let mut k: usize = 0;
    proof {
        assert(rv.take(0) =~= Seq::empty());
    }
    while k < rows.len()
        invariant
            k <= rows@.len(),
            rv == rows.deep_view(),
            gs.deep_view() == groups(rv.take(k as int)),
        decreases rows@.len() - k,
    {
        proof {
            assert(rv[k as int] == rows@[k as int].deep_view());
            assert(rv.take(k + 1).drop_last() =~= rv.take(k as int));
            assert(rv.take(k + 1).last() == rv[k as int]);
        }
        put_in_group(&mut gs, &rows[k], k);
        k += 1;
    }
    proof {
        assert(rv.take(k as int) =~= rv);
    }
    sort::sort_by(gs, &larger, Ghost(larger_first()))
}

/// With the site, if it can be resolved.
pub open spec fn with_site(acc: Seq<Seq<char>>, s: Seq<char>) -> Seq<Seq<char>> {
    if site::parsed(s) is Some {
        names::with(acc, s)
    } else {
        acc
    }
}

/// The sites of the numbered observations from the `k`th on that can be resolved, each
/// once, behind `acc`.
pub open spec fn sites_from(
    rows: Seq<ContentionV>,
    list: Seq<usize>,
    k: int,
    acc: Seq<Seq<char>>,
) -> Seq<Seq<char>>
    decreases list.len() - k,
{
    if k >= list.len() {
        acc
    } else {
        let r = rows[list[k] as int];
        sites_from(rows, list, k + 1, with_site(with_site(acc, r.blocked_src), r.blocking_src))
    }
}

/// The group numbers observations that there are.
pub open spec fn fits(g: GroupV, rows: Seq<ContentionV>) -> bool {
    forall|i: int| 0 <= i < g.rows.len() ==> (#[trigger] g.rows[i]) < rows.len()
}

fn add_site(acc: &mut Names, s: &str)
    requires
        old(acc).wf(),
    ensures
        final(acc).wf(),
        final(acc)@ == with_site(old(acc)@, s@),
{
    if site::is_resolvable(s) {
        acc.intern(s);
    }
}

/// The distinct resolvable sites of a group.
pub fn group_sites(rows: &Vec<Contention>, group: &Group) -> (r: Vec<String>)
    requires
        fits(group.deep_view(), rows.deep_view()),
    ensures
        r.deep_view() == sites_from(rows.deep_view(), group.rows@, 0, Seq::empty()),
{
    let ghost rv = rows.deep_view();
    let ghost gv = group.deep_view();
    let mut acc = Names::new();
    let mut k: usize = 0;
    while k < group.rows.len()
        invariant
            k <= group.rows@.len(),
            rv == rows.deep_view(),
            gv == group.deep_view(),
            fits(gv, rv),
            acc.wf(),
            sites_from(rv, group.rows@, 0, Seq::empty()) == sites_from(
                rv,
                group.rows@,
                k as int,
                acc@,
            ),
        decreases group.rows@.len() - k,
    {
        proof {
            assert(gv.rows[k as int] < rv.len());
        }
        let i = group.rows[k];
        proof {
            assert(rv[i as int] == rows@[i as int].deep_view());
        }
        add_site(&mut acc, rows[i].blocked_src.as_str());
        add_site(&mut acc, rows[i].blocking_src.as_str());
        k += 1;
    }
    acc.into_list()
}

/// The observation with the locks of its two sites.
pub open spec fn with_locks(r: ContentionV, sites: Seq<SiteV>, opts: Options) -> ContentionV {
    ContentionV {
        resolved_blocked_lock: resolver::lock_name(sites, opts, r.blocked_src),
        resolved_blocking_lock: resolver::lock_name(sites, opts, r.blocking_src),
        ..r
    }
}

/// The observations, those of the list with the locks of their sites.
pub open spec fn filled(
    rows: Seq<ContentionV>,
    list: Seq<usize>,
    sites: Seq<SiteV>,
    opts: Options,
) -> Seq<ContentionV> {
    Seq::new(
        rows.len(),
        |i: int|
            if list.contains(i as usize) {
                with_locks(rows[i], sites, opts)
            } else {
                rows[i]
            },
    )
}

proof fn lemma_with_site(acc: Seq<Seq<char>>, s: Seq<char>)
    ensures
        forall|x: Seq<char>| #[trigger] acc.contains(x) ==> with_site(acc, s).contains(x),
        site::parsed(s) is Some ==> with_site(acc, s).contains(s),
        forall|x: Seq<char>| #[trigger]
            with_site(acc, s).contains(x) ==> acc.contains(x) || site::parsed(x) is Some,
{
    let next = with_site(acc, s);
    if site::parsed(s) is Some && !acc.contains(s) {
        assert(next[next.len() - 1] == s);
        assert forall|x: Seq<char>| #[trigger] acc.contains(x) implies next.contains(x) by {
            let i = choose|i: int| 0 <= i < acc.len() && acc[i] == x;
            assert(next[i] == x);
        }
        assert forall|x: Seq<char>| #[trigger] next.contains(x) implies acc.contains(x)
            || site::parsed(x) is Some by {
            let i = choose|i: int| 0 <= i < next.len() && next[i] == x;
            if i < acc.len() {
                assert(acc[i] == x);
            }
        }
    }
}

proof fn lemma_sites(rows: Seq<ContentionV>, list: Seq<usize>, k: int, acc: Seq<Seq<char>>)
    requires
        0 <= k <= list.len(),
        forall|x: Seq<char>| #[trigger] acc.contains(x) ==> site::parsed(x) is Some,
    ensures
        ({
            let all = sites_from(rows, list, k, acc);
            &&& forall|x: Seq<char>| #[trigger] acc.contains(x) ==> all.contains(x)
            &&& forall|x: Seq<char>| #[trigger] all.contains(x) ==> site::parsed(x) is Some
            &&& forall|i: int|
                k <= i < list.len() ==> has_site(all, (#[trigger] rows[list[i] as int]).blocked_src)
                    && has_site(all, rows[list[i] as int].blocking_src)
        }),
    decreases list.len() - k,
{
    if k < list.len() {
        let r = rows[list[k] as int];
        let one = with_site(acc, r.blocked_src);
        let two = with_site(one, r.blocking_src);
        lemma_with_site(acc, r.blocked_src);
        lemma_with_site(one, r.blocking_src);
        lemma_sites(rows, list, k + 1, two);
        assert(sites_from(rows, list, k, acc) == sites_from(rows, list, k + 1, two));
    }
}

/// The site is in the list, if it can be resolved.
pub open spec fn has_site(list: Seq<Seq<char>>, s: Seq<char>) -> bool {
    site::parsed(s) is Some ==> list.contains(s)
}

fn look_up(found: &crate::dict::Dict<String>, s: &str) -> (r: String)
    requires
        found.wf(),
    ensures
        r@ == match found@.get(s@) {
            Some(name) => name,
            None => "N/A"@,
        },
{
    match found.get(s) {
        Some(name) => name.dup(),
        None => "N/A".to_string(),
    }
}

/// Resolve both sites of every observation of a group against its build's index.
pub fn resolve_group(
    rows: &mut Vec<Contention>,
    group: &Group,
    resolver: &Resolver,
    index: &ResolveIndex,
)
    requires
        fits(group.deep_view(), old(rows).deep_view()),
    ensures
        final(rows).deep_view() == filled(
            old(rows).deep_view(),
            group.rows@,
            index.sites.deep_view(),
            resolver.opts,
        ),
{
    let ghost start = rows.deep_view();
    let ghost gv = group.deep_view();
    let ghost iv = index.sites.deep_view();
    let opts = resolver.opts;
    let sites = group_sites(rows, group);
    let ghost sv = sites.deep_view();
    let found = resolver.resolve(index, &sites);
    proof {
        lemma_sites(start, group.rows@, 0, Seq::empty());
        assert forall|x: Seq<char>| #[trigger] has_site(sv, x) implies (match found@.get(x) {
            Some(name) => name,
            None => "N/A"@,
        }) == resolver::lock_name(iv, opts, x) by {
            resolver::law_every_site_is_answered(iv, opts, sv, x);
        }
    }
    let n = rows.len();
    let mut k: usize = 0;
    proof {
        assert(filled(start, group.rows@.take(0), iv, opts) =~= start);
    }
    while k < group.rows.len()
        invariant
            k <= group.rows@.len(),
            n == start.len(),
            rows@.len() == n,
            gv == group.deep_view(),
            fits(gv, start),
            found.wf(),
            forall|i: int|
                0 <= i < group.rows@.len() ==> has_site(
                    sv,
                    (#[trigger] start[group.rows@[i] as int]).blocked_src,
                ) && has_site(sv, start[group.rows@[i] as int].blocking_src),
            forall|x: Seq<char>| #[trigger]
                has_site(sv, x) ==> (match found@.get(x) {
                    Some(name) => name,
                    None => "N/A"@,
                }) == resolver::lock_name(iv, opts, x),
            rows.deep_view() == filled(start, group.rows@.take(k as int), iv, opts),
        decreases group.rows@.len() - k,
    {
        let ghost before = rows.deep_view();
        let ghost done = group.rows@.take(k as int);
        proof {
            assert(gv.rows[k as int] < start.len());
        }
        let i = group.rows[k];
        let ghost r = start[i as int];
        proof {
            assert(before[i as int] == rows@[i as int].deep_view());
            assert(start[group.rows@[k as int] as int] == r);
            assert(has_site(sv, r.blocked_src) && has_site(sv, r.blocking_src));
        }
        let blocked = look_up(&found, rows[i].blocked_src.as_str());
        let blocking = look_up(&found, rows[i].blocking_src.as_str());
        let mut x = rows[i].dup();
        x.resolved_blocked_lock = blocked;
        x.resolved_blocking_lock = blocking;
        let ghost xv = x.deep_view();
        rows.set(i, x);
        k += 1;
        proof {
            let more = group.rows@.take(k as int);
            assert(more =~= done.push(i));
            assert(rows.deep_view() =~= before.update(i as int, xv));
            assert(xv =~= with_locks(r, iv, opts));
            assert forall|j: int| 0 <= j < start.len() implies #[trigger] rows.deep_view()[j]
                == filled(start, more, iv, opts)[j] by {
                assert(more[more.len() - 1] == i);
                if done.contains(j as usize) {
                    let p = choose|p: int| 0 <= p < done.len() && done[p] == j as usize;
                    assert(more[p] == j as usize);
                }
                if more.contains(j as usize) && j != i {
                    let p = choose|p: int| 0 <= p < more.len() && more[p] == j as usize;
                    assert(done[p] == j as usize);
                }
            }
            assert(rows.deep_view() =~= filled(start, more, iv, opts));
        }
    }
    proof {
        assert(group.rows@.take(k as int) =~= group.rows@);
    }
}

/// What came of the last step of a run.
#[derive(Clone, Copy, Debug, PartialEq, Eq, Structural)]
pub enum Outcome {
    /// The run begins.
    Began,
    /// The group's artifacts were fetched, or not.
    Fetched(bool),
    /// The group's artifacts were indexed, or not.
    Indexed(bool),
    /// The group's sites were resolved and the table was written.
    Resolved,
}

/// What a run does next with the group at hand.
#[derive(Clone, Copy, Debug, PartialEq, Eq, Structural)]
pub enum Step {
    /// Fetch its artifacts.
    Fetch,
    /// Index its artifacts.
    Index,
    /// Resolve its sites and write the table.
    Resolve,
    /// No group is left: write the table and stop.
    Finish,
}

/// The first group from the `k`th on that has sites, and its first step; the end, if there
/// is none.
pub open spec fn begin_at(sites: Seq<Seq<Seq<char>>>, k: int) -> (int, Step)
    decreases sites.len() - k,
{
    if k >= sites.len() {
        (sites.len() as int, Step::Finish)
    } else if sites[k].len() > 0 {
        (k, Step::Fetch)
    } else {
        begin_at(sites, k + 1)
    }
}

/// What follows the outcome of a step of the `k`th group: the group at hand and its step.
/// A group whose artifacts cannot be had or indexed is passed over.
pub open spec fn next_step(sites: Seq<Seq<Seq<char>>>, k: int, o: Outcome) -> (int, Step) {
    if k >= sites.len() {
        (sites.len() as int, Step::Finish)
    } else {
        match o {
            Outcome::Began => begin_at(sites, k),
            Outcome::Fetched(true) => (k, Step::Index),
            Outcome::Indexed(true) => (k, Step::Resolve),
            _ => begin_at(sites, k + 1),
        }
    }
}

/// What to do next, given the sites of each group, the group at hand and what came of its
/// last step.
pub fn next(sites: &Vec<Vec<String>>, k: usize, o: Outcome) -> (r: (usize, Step))
    ensures
        (r.0 as int, r.1) == next_step(sites.deep_view(), k as int, o),
{
    let ghost sv = sites.deep_view();
    let n = sites.len();
    if k >= n {
        return (n, Step::Finish);
    }
    let mut i = match o {
        Outcome::Began => k,
        Outcome::Fetched(true) => return (k, Step::Index),
        Outcome::Indexed(true) => return (k, Step::Resolve),
        _ => k + 1,
    };
    while i < n
        invariant
            i <= n,
            n == sites@.len(),
            k < n,
            sv == sites.deep_view(),
            next_step(sv, k as int, o) == begin_at(sv, i as int),
        decreases n - i,
    {
        proof {
            assert(sv[i as int] == sites@[i as int].deep_view());
        }
        if sites[i].len() > 0 {
            return (i, Step::Fetch);
        }
        i += 1;
    }
    (n, Step::Finish)
}

proof fn lemma_begin_at(sites: Seq<Seq<Seq<char>>>, k: int)
    requires
        0 <= k <= sites.len(),
    ensures
        ({
            let (g, step) = begin_at(sites, k);
            &&& k <= g <= sites.len()
            &&& forall|i: int| k <= i < g ==> (#[trigger] sites[i]).len() == 0
            &&& step == if g < sites.len() {
                Step::Fetch
            } else {
                Step::Finish
            }
            &&& g < sites.len() ==> sites[g].len() > 0
        }),
    decreases sites.len() - k,
{
    if k < sites.len() && sites[k].len() == 0 {
        lemma_begin_at(sites, k + 1);
    }
}

/// A run passes over no group that has sites, takes each only once and in order, and
/// finishes when none is left.
pub proof fn law_run_visits_every_group(sites: Seq<Seq<Seq<char>>>, k: int, o: Outcome)
    requires
        0 <= k < sites.len(),
    ensures
        ({
            let (g, step) = next_step(sites, k, o);
            let from = if o is Began {
                k
            } else {
                k + 1
            };
            &&& step == Step::Finish <==> g == sites.len()
            &&& step == Step::Index <==> o == Outcome::Fetched(true)
            &&& step == Step::Resolve <==> o == Outcome::Indexed(true)
            &&& step == Step::Index || step == Step::Resolve ==> g == k
            &&& step == Step::Fetch || step == Step::Finish ==> {
                &&& from <= g
                &&& forall|i: int| from <= i < g ==> (#[trigger] sites[i]).len() == 0
                &&& step == Step::Fetch ==> sites[g].len() > 0
            }
        }),
{
    lemma_begin_at(sites, k);
    lemma_begin_at(sites, k + 1);
}

/// Each observation is in exactly one group, that of its build and its device; a group
/// numbers its observations once each, in their order.
pub open spec fn partitions(gs: Seq<GroupV>, rows: Seq<ContentionV>) -> bool {
    &&& forall|a: int, b: int|
        0 <= a < b < gs.len() ==> (#[trigger] gs[a]).build_id != (#[trigger] gs[b]).build_id
            || gs[a].device != gs[b].device
    &&& forall|g: int, i: int|
        0 <= g < gs.len() && 0 <= i < gs[g].rows.len() ==> (#[trigger] gs[g].rows[i]) < rows.len()
            && belongs(rows[gs[g].rows[i] as int], gs[g])
    &&& forall|g: int, i: int, j: int|
        0 <= g < gs.len() && 0 <= i < j < gs[g].rows.len() ==> (#[trigger] gs[g].rows[i]) < (
        #[trigger] gs[g].rows[j])
    &&& forall|i: int|
        0 <= i < rows.len() ==> in_some_group(gs, #[trigger] rows[i], i as usize)
}

/// The observation of that number is in a group to which it belongs.
pub open spec fn in_some_group(gs: Seq<GroupV>, r: ContentionV, i: usize) -> bool {
    exists|g: int| 0 <= g < gs.len() && belongs(r, #[trigger] gs[g]) && gs[g].rows.contains(i)
}

proof fn lemma_group_from(gs: Seq<GroupV>, r: ContentionV, k: int)
    requires
        0 <= k,
    ensures
        match group_from(gs, r, k) {
            Some(g) => k <= g < gs.len() && belongs(r, gs[g]),
            None => forall|g: int| k <= g < gs.len() ==> !belongs(r, #[trigger] gs[g]),
        },
    decreases gs.len() - k,
{
    if k < gs.len() && !belongs(r, gs[k]) {
        lemma_group_from(gs, r, k + 1);
    }
}

proof fn lemma_groups(rows: Seq<ContentionV>)
    requires
        rows.len() <= usize::MAX,
    ensures
        partitions(groups(rows), rows),
    decreases rows.len(),
{
    if rows.len() > 0 {
        let front = rows.drop_last();
        let n = front.len();
        let old_gs = groups(front);
        let gs = groups(rows);
        let r = rows.last();
        lemma_groups(front);
        lemma_group_from(old_gs, r, 0);
        assert forall|g: int, i: int|
            0 <= g < gs.len() && 0 <= i < gs[g].rows.len() implies (#[trigger] gs[g].rows[i])
            < rows.len() && belongs(rows[gs[g].rows[i] as int], gs[g]) by {
            if g < old_gs.len() && i < old_gs[g].rows.len() {
                assert(old_gs[g].rows[i] < n);
                assert(front[old_gs[g].rows[i] as int] == rows[old_gs[g].rows[i] as int]);
            }
        }
        assert forall|g: int, i: int, j: int|
            0 <= g < gs.len() && 0 <= i < j < gs[g].rows.len() implies (#[trigger] gs[g].rows[i])
            < (#[trigger] gs[g].rows[j]) by {
            if g < old_gs.len() {
                assert(old_gs[g].rows[i] < n);
                if j < old_gs[g].rows.len() {
                    assert(old_gs[g].rows[i] < old_gs[g].rows[j]);
                }
            }
        }
        assert forall|i: int| 0 <= i < rows.len() implies in_some_group(
            gs,
            #[trigger] rows[i],
            i as usize,
        ) by {
            if i < n {
                assert(front[i] == rows[i]);
                assert(in_some_group(old_gs, front[i], i as usize));
                let g = choose|g: int|
                    0 <= g < old_gs.len() && belongs(rows[i], #[trigger] old_gs[g])
                        && old_gs[g].rows.contains(i as usize);
                let p = choose|p: int|
                    0 <= p < old_gs[g].rows.len() && old_gs[g].rows[p] == i as usize;
                assert(gs[g].rows[p] == i as usize);
                assert(belongs(rows[i], gs[g]));
            } else {
                let g = match group_from(old_gs, r, 0) {
                    Some(g) => g,
                    None => old_gs.len() as int,
                };
                assert(gs[g].rows[gs[g].rows.len() - 1] == i as usize);
                assert(belongs(rows[i], gs[g]));
            }
        }
    }
}

/// The plan puts each observation in exactly one group, that of its build and its device,
/// and the largest group comes first.
pub proof fn law_plan_partitions_the_rows(rows: Seq<ContentionV>)
    requires
        rows.len() <= usize::MAX,
    ensures
        partitions(planned(rows), rows),
        sort::in_order(planned(rows), larger_first()),
{
    broadcast use vstd::seq_lib::group_to_multiset_ensures;

    let gs = groups(rows);
    let ps = planned(rows);
    lemma_groups(rows);
    sort::lemma_sorted(gs, larger_first());
    assert(gs.no_duplicates());
    gs.lemma_multiset_has_no_duplicates();
    assert(ps.no_duplicates()) by {
        ps.lemma_multiset_has_no_duplicates_conv();
    }
    assert forall|g: int| 0 <= g < ps.len() implies gs.contains(#[trigger] ps[g]) by {
        assert(ps.contains(ps[g]));
        assert(ps.to_multiset().count(ps[g]) > 0);
    }
    assert forall|a: int, b: int| 0 <= a < b < ps.len() implies (#[trigger] ps[a]).build_id != (
    #[trigger] ps[b]).build_id || ps[a].device != ps[b].device by {
        assert(gs.contains(ps[a]) && gs.contains(ps[b]));
        let x = choose|x: int| 0 <= x < gs.len() && gs[x] == ps[a];
        let y = choose|y: int| 0 <= y < gs.len() && gs[y] == ps[b];
        assert(ps[a] != ps[b]);
        if x < y {
            assert(gs[x].build_id != gs[y].build_id || gs[x].device != gs[y].device);
        } else {
            assert(gs[y].build_id != gs[x].build_id || gs[y].device != gs[x].device);
        }
    }
    assert forall|g: int, i: int|
        0 <= g < ps.len() && 0 <= i < ps[g].rows.len() implies (#[trigger] ps[g].rows[i])
        < rows.len() && belongs(rows[ps[g].rows[i] as int], ps[g]) by {
        assert(gs.contains(ps[g]));
        let x = choose|x: int| 0 <= x < gs.len() && gs[x] == ps[g];
        assert(gs[x].rows[i] < rows.len());
    }
    assert forall|g: int, i: int, j: int|
        0 <= g < ps.len() && 0 <= i < j < ps[g].rows.len() implies (#[trigger] ps[g].rows[i]) < (
    #[trigger] ps[g].rows[j]) by {
        assert(gs.contains(ps[g]));
        let x = choose|x: int| 0 <= x < gs.len() && gs[x] == ps[g];
        assert(gs[x].rows[i] < gs[x].rows[j]);
    }
    assert forall|i: int| 0 <= i < rows.len() implies in_some_group(
        ps,
        #[trigger] rows[i],
        i as usize,
    ) by {
        assert(in_some_group(gs, rows[i], i as usize));
        let x = choose|x: int|
            0 <= x < gs.len() && belongs(rows[i], #[trigger] gs[x]) && gs[x].rows.contains(
                i as usize,
            );
        assert(gs.contains(gs[x]));
        assert(gs.to_multiset().count(gs[x]) > 0);
        assert(ps.contains(gs[x]));
        let g = choose|g: int| 0 <= g < ps.len() && ps[g] == gs[x];
        assert(belongs(rows[i], ps[g]) && ps[g].rows.contains(i as usize));
    }
}

} // verus!

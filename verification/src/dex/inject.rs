//! Interprocedural injection resolution: each lock field is resolved to the concrete
//! object it names, by parameter/copy propagation over the call graph.
//!
//! `this.f = param_i` (in any method) makes the field an alias of formal `i`; a formal
//! is the meet, over every call site that binds it, of the resolved actual argument.
//! This is a monotone system solved to its least fixpoint: cycles converge naturally (a
//! grounded cycle settles on its grounded value, an ungrounded one stays unresolved),
//! and constructors, setters and `super(...)` are all just call sites, so constructor,
//! setter and inheritance injection fall out of one algorithm. A conflict, or an actual
//! that does not resolve to a single object, gives no alias.

use crate::dex::extract::{Summary, SummaryV};
use crate::dex::model::{Lock, LockV, Root, RootV};
use crate::dict;
use crate::dict::{Dict, DictV};
use crate::tally;
use crate::text;
use crate::values;
use crate::values::{Dup, Same};
use vstd::prelude::*;

verus! {

/// A resolution: no information, below one object, below a conflict.
pub enum Res {
    Bottom,
    Val(Lock),
    Top,
}

/// A resolution.
pub enum ResV {
    Bottom,
    Val(LockV),
    Top,
}

impl DeepView for Res {
    type V = ResV;

    open spec fn deep_view(&self) -> ResV {
        match self {
            Res::Bottom => ResV::Bottom,
            Res::Val(l) => ResV::Val(l.deep_view()),
            Res::Top => ResV::Top,
        }
    }
}

impl Dup for Res {
    fn dup(&self) -> (r: Self) {
        match self {
            Res::Bottom => Res::Bottom,
            Res::Val(l) => Res::Val(l.dup()),
            Res::Top => Res::Top,
        }
    }
}

impl Same for Res {
    fn same(&self, other: &Self) -> (r: bool) {
        match (self, other) {
            (Res::Bottom, Res::Bottom) => true,
            (Res::Top, Res::Top) => true,
            (Res::Val(a), Res::Val(b)) => a.same(b),
            _ => false,
        }
    }
}

impl ResV {
    /// What both resolutions together say.
    pub open spec fn meet(self, other: ResV) -> ResV {
        match (self, other) {
            (ResV::Top, _) => ResV::Top,
            (_, ResV::Top) => ResV::Top,
            (ResV::Bottom, x) => x,
            (x, ResV::Bottom) => x,
            (ResV::Val(a), ResV::Val(b)) => if a == b {
                ResV::Val(a)
            } else {
                ResV::Top
            },
        }
    }

    /// `self` says no more than `other`.
    pub open spec fn le(self, other: ResV) -> bool {
        self is Bottom || other is Top || self == other
    }
}

impl Res {
    fn meet(self, other: Res) -> (r: Res)
        ensures
            r.deep_view() == self.deep_view().meet(other.deep_view()),
    {
        match (self, other) {
            (Res::Top, _) => Res::Top,
            (_, Res::Top) => Res::Top,
            (Res::Bottom, x) => x,
            (x, Res::Bottom) => x,
            (Res::Val(a), Res::Val(b)) => if a.same(&b) {
                Res::Val(a)
            } else {
                Res::Top
            },
        }
    }
}

/// The call sites by callee: which method calls, and with which of its bindings.
pub type Sites = DictV<Seq<(usize, usize)>>;

/// The bindings of method `s` from the `b`th on, behind `acc`.
pub open spec fn sites_in(ss: Seq<SummaryV>, s: int, b: int, acc: Sites) -> Sites
    decreases ss[s].arg_bindings.len() - b,
{
    if b >= ss[s].arg_bindings.len() {
        acc
    } else {
        sites_in(
            ss,
            s,
            b + 1,
            dict::put_more(acc, ss[s].arg_bindings[b].0, (s as usize, b as usize)),
        )
    }
}

/// The call sites of the methods from the `s`th on, behind `acc`.
pub open spec fn sites_from(ss: Seq<SummaryV>, s: int, acc: Sites) -> Sites
    decreases ss.len() - s,
{
    if s >= ss.len() {
        acc
    } else {
        sites_from(ss, s + 1, sites_in(ss, s, 0, acc))
    }
}

/// The call sites by callee.
pub open spec fn sites(ss: Seq<SummaryV>) -> Sites {
    sites_from(ss, 0, DictV::none())
}

/// The value of a call site's `i`th actual, where `f` gives the callers' own formals:
/// those keep the actual's field path, anything else is grounded in the caller.
pub open spec fn eval(
    ss: Seq<SummaryV>,
    site: (usize, usize),
    i: u32,
    f: spec_fn(int, u32) -> ResV,
) -> ResV {
    let s = ss[site.0 as int];
    let actuals = s.arg_bindings[site.1 as int].1;
    if i >= actuals.len() {
        ResV::Top
    } else {
        match actuals[i as int] {
            None => ResV::Top,
            Some(l) => match l.root {
                RootV::Param(j) => match f(site.0 as int, j) {
                    ResV::Val(base) => ResV::Val(base.append(l.fields, l.mode)),
                    other => other,
                },
                _ => {
                    let g = l.ground(s.class, s.key);
                    if g.is_concrete() {
                        ResV::Val(g)
                    } else {
                        ResV::Top
                    }
                },
            },
        }
    }
}

/// The meet of the `i`th actuals of the call sites from the `k`th on, and `acc`.
pub open spec fn met(
    ss: Seq<SummaryV>,
    at: Seq<(usize, usize)>,
    k: int,
    i: u32,
    f: spec_fn(int, u32) -> ResV,
    acc: ResV,
) -> ResV
    decreases at.len() - k,
{
    if k >= at.len() {
        acc
    } else {
        met(ss, at, k + 1, i, f, acc.meet(eval(ss, at[k], i, f)))
    }
}

/// Formal `i` of method `m`: the meet of its actuals over all call sites. A method
/// without an observed call site is unconstrained.
pub open spec fn transfer(
    ss: Seq<SummaryV>,
    m: int,
    i: u32,
    f: spec_fn(int, u32) -> ResV,
) -> ResV {
    let at = dict::list_at(sites(ss), ss[m].key);
    if at.len() == 0 {
        ResV::Top
    } else {
        met(ss, at, 0, i, f, ResV::Bottom)
    }
}

/// All formals after `n` rounds of the transfer, from no information.
pub open spec fn rounds(ss: Seq<SummaryV>, n: nat) -> spec_fn(int, u32) -> ResV
    decreases n,
{
    if n == 0 {
        |m: int, i: u32| ResV::Bottom
    } else {
        let prev = rounds(ss, (n - 1) as nat);
        |m: int, i: u32| transfer(ss, m, i, prev)
    }
}

/// What formal `i` of method `m` comes to: the limit of the rounds.
pub open spec fn solution(ss: Seq<SummaryV>, m: int, i: u32) -> ResV {
    if exists|n: nat| #[trigger] rounds(ss, n)(m, i) is Top {
        ResV::Top
    } else if exists|n: nat| #[trigger] rounds(ss, n)(m, i) is Val {
        let n = choose|n: nat| #[trigger] rounds(ss, n)(m, i) is Val;
        rounds(ss, n)(m, i)
    } else {
        ResV::Bottom
    }
}

/// `f` says no more than `g` of any formal.
pub open spec fn below(f: spec_fn(int, u32) -> ResV, g: spec_fn(int, u32) -> ResV) -> bool {
    forall|m: int, i: u32| (#[trigger] f(m, i)).le(g(m, i))
}

proof fn lemma_eval_grows(
    ss: Seq<SummaryV>,
    site: (usize, usize),
    i: u32,
    f: spec_fn(int, u32) -> ResV,
    g: spec_fn(int, u32) -> ResV,
)
    requires
        forall|j: u32| (#[trigger] reads(ss, site, i, j)) ==> f(site.0 as int, j).le(
            g(site.0 as int, j),
        ),
    ensures
        eval(ss, site, i, f).le(eval(ss, site, i, g)),
{
    let actuals = ss[site.0 as int].arg_bindings[site.1 as int].1;
    if i < actuals.len() {
        match actuals[i as int] {
            Some(l) => match l.root {
                RootV::Param(j) => {
                    assert(reads(ss, site, i, j));
                },
                _ => {},
            },
            None => {},
        }
    }
}

/// The call site's `i`th actual is the caller's formal `j`.
pub open spec fn reads(ss: Seq<SummaryV>, site: (usize, usize), i: u32, j: u32) -> bool {
    let actuals = ss[site.0 as int].arg_bindings[site.1 as int].1;
    i < actuals.len() && (actuals[i as int] matches Some(l) && l.root == RootV::Param(j))
}

proof fn lemma_met_grows(
    ss: Seq<SummaryV>,
    at: Seq<(usize, usize)>,
    k: int,
    i: u32,
    f: spec_fn(int, u32) -> ResV,
    g: spec_fn(int, u32) -> ResV,
    a: ResV,
    b: ResV,
)
    requires
        0 <= k,
        a.le(b),
        forall|t: int, j: u32|
            0 <= t < at.len() && (#[trigger] reads(ss, at[t], i, j)) ==> f(at[t].0 as int, j).le(
                g(at[t].0 as int, j),
            ),
    ensures
        met(ss, at, k, i, f, a).le(met(ss, at, k, i, g, b)),
    decreases at.len() - k,
{
    if k < at.len() {
        lemma_eval_grows(ss, at[k], i, f, g);
        let x = eval(ss, at[k], i, f);
        let y = eval(ss, at[k], i, g);
        assert(a.meet(x).le(b.meet(y)));
        lemma_met_grows(ss, at, k + 1, i, f, g, a.meet(x), b.meet(y));
    }
}

proof fn lemma_transfer_grows(
    ss: Seq<SummaryV>,
    m: int,
    i: u32,
    f: spec_fn(int, u32) -> ResV,
    g: spec_fn(int, u32) -> ResV,
)
    requires
        below(f, g),
    ensures
        transfer(ss, m, i, f).le(transfer(ss, m, i, g)),
{
    let at = dict::list_at(sites(ss), ss[m].key);
    lemma_met_grows(ss, at, 0, i, f, g, ResV::Bottom, ResV::Bottom);
}

proof fn lemma_rounds_grow(ss: Seq<SummaryV>, n: nat)
    ensures
        below(rounds(ss, n), rounds(ss, n + 1)),
    decreases n,
{
    assert forall|m: int, i: u32| (#[trigger] rounds(ss, n)(m, i)).le(
        rounds(ss, n + 1)(m, i),
    ) by {
        if n > 0 {
            let p = (n - 1) as nat;
            lemma_rounds_grow(ss, p);
            lemma_transfer_grows(ss, m, i, rounds(ss, p), rounds(ss, n));
            assert(rounds(ss, n)(m, i) == transfer(ss, m, i, rounds(ss, p)));
            assert(rounds(ss, n + 1)(m, i) == transfer(ss, m, i, rounds(ss, n)));
        }
    }
}

proof fn lemma_rounds_upto(ss: Seq<SummaryV>, n: nat, k: nat)
    requires
        n <= k,
    ensures
        below(rounds(ss, n), rounds(ss, k)),
    decreases k - n,
{
    if n < k {
        lemma_rounds_upto(ss, n, (k - 1) as nat);
        lemma_rounds_grow(ss, (k - 1) as nat);
        assert forall|m: int, i: u32| (#[trigger] rounds(ss, n)(m, i)).le(
            rounds(ss, k)(m, i),
        ) by {
            assert(rounds(ss, n)(m, i).le(rounds(ss, (k - 1) as nat)(m, i)));
            assert(rounds(ss, (k - 1) as nat)(m, i).le(rounds(ss, k)(m, i)));
        }
    }
}

proof fn lemma_solution(ss: Seq<SummaryV>, m: int, i: u32, n: nat, v: ResV)
    requires
        v.le(rounds(ss, n)(m, i)),
        forall|k: nat| (#[trigger] rounds(ss, k)(m, i)).le(v),
    ensures
        solution(ss, m, i) == v,
{
    assert(rounds(ss, n)(m, i).le(v));
    assert(rounds(ss, n)(m, i) == v);
    if exists|k: nat| #[trigger] rounds(ss, k)(m, i) is Top {
        let k = choose|k: nat| #[trigger] rounds(ss, k)(m, i) is Top;
        assert(rounds(ss, k)(m, i).le(v));
    } else if exists|k: nat| #[trigger] rounds(ss, k)(m, i) is Val {
        let k = choose|k: nat| #[trigger] rounds(ss, k)(m, i) is Val;
        assert(rounds(ss, k)(m, i).le(v));
    }
}

/// Every round stays below the solution.
pub proof fn law_rounds_below_solution(ss: Seq<SummaryV>, n: nat)
    ensures
        below(rounds(ss, n), |m: int, i: u32| solution(ss, m, i)),
{
    let sol = |m: int, i: u32| solution(ss, m, i);
    assert forall|m: int, i: u32| (#[trigger] rounds(ss, n)(m, i)).le(sol(m, i)) by {
        let x = rounds(ss, n)(m, i);
        match x {
            ResV::Bottom => {},
            ResV::Top => {
                assert(rounds(ss, n)(m, i) is Top);
            },
            ResV::Val(_) => {
                assert(rounds(ss, n)(m, i) is Val);
                if !(exists|k: nat| #[trigger] rounds(ss, k)(m, i) is Top) {
                    let k = choose|k: nat| #[trigger] rounds(ss, k)(m, i) is Val;
                    if k <= n {
                        lemma_rounds_upto(ss, k, n);
                        assert(rounds(ss, k)(m, i).le(rounds(ss, n)(m, i)));
                    } else {
                        lemma_rounds_upto(ss, n, k);
                        assert(rounds(ss, n)(m, i).le(rounds(ss, k)(m, i)));
                    }
                }
            },
        }
    }
}

/// The solution is the least assignment that the transfer does not raise: it stays
/// below any assignment that already accounts for every call site.
pub proof fn law_solution_is_least(ss: Seq<SummaryV>, g: spec_fn(int, u32) -> ResV)
    requires
        forall|m: int, i: u32| transfer(ss, m, i, g).le(#[trigger] g(m, i)),
    ensures
        below(|m: int, i: u32| solution(ss, m, i), g),
{
    let sol = |m: int, i: u32| solution(ss, m, i);
    assert forall|m: int, i: u32| (#[trigger] sol(m, i)).le(g(m, i)) by {
        if exists|k: nat| #[trigger] rounds(ss, k)(m, i) is Top {
            let k = choose|k: nat| #[trigger] rounds(ss, k)(m, i) is Top;
            lemma_rounds_under(ss, k, g);
            assert(rounds(ss, k)(m, i).le(g(m, i)));
        } else if exists|k: nat| #[trigger] rounds(ss, k)(m, i) is Val {
            let k = choose|k: nat| #[trigger] rounds(ss, k)(m, i) is Val;
            lemma_rounds_under(ss, k, g);
            assert(rounds(ss, k)(m, i).le(g(m, i)));
        }
    }
}

proof fn lemma_attained(ss: Seq<SummaryV>, m: int, i: u32) -> (n: nat)
    ensures
        rounds(ss, n)(m, i) == solution(ss, m, i),
{
    if exists|k: nat| #[trigger] rounds(ss, k)(m, i) is Top {
        choose|k: nat| #[trigger] rounds(ss, k)(m, i) is Top
    } else if exists|k: nat| #[trigger] rounds(ss, k)(m, i) is Val {
        choose|k: nat| #[trigger] rounds(ss, k)(m, i) is Val
    } else {
        0
    }
}

/// From some round on, all that the first `k` call sites read is solved.
proof fn lemma_read_attained(ss: Seq<SummaryV>, at: Seq<(usize, usize)>, k: int, i: u32) -> (n: nat)
    requires
        0 <= k <= at.len(),
    ensures
        forall|t: int, j: u32|
            0 <= t < k && (#[trigger] reads(ss, at[t], i, j)) ==> rounds(ss, n)(at[t].0 as int, j)
                == solution(ss, at[t].0 as int, j),
    decreases k,
{
    if k == 0 {
        0
    } else {
        let p = lemma_read_attained(ss, at, k - 1, i);
        let c = at[k - 1].0 as int;
        if exists|j: u32| #[trigger] reads(ss, at[k - 1], i, j) {
            let j = choose|j: u32| #[trigger] reads(ss, at[k - 1], i, j);
            let q = lemma_attained(ss, c, j);
            let n = if p < q {
                q
            } else {
                p
            };
            lemma_rounds_upto(ss, p, n);
            lemma_rounds_upto(ss, q, n);
            law_rounds_below_solution(ss, n);
            let sol = |m: int, i: u32| solution(ss, m, i);
            assert forall|t: int, x: u32|
                0 <= t < k && (#[trigger] reads(ss, at[t], i, x)) implies rounds(ss, n)(
                at[t].0 as int,
                x,
            ) == solution(ss, at[t].0 as int, x) by {
                let m = at[t].0 as int;
                if t == k - 1 {
                    assert(x == j);
                    assert(rounds(ss, q)(m, x).le(rounds(ss, n)(m, x)));
                } else {
                    assert(rounds(ss, p)(m, x).le(rounds(ss, n)(m, x)));
                }
                assert(rounds(ss, n)(m, x).le(sol(m, x)));
            }
            n
        } else {
            p
        }
    }
}

proof fn lemma_met_agrees(
    ss: Seq<SummaryV>,
    at: Seq<(usize, usize)>,
    k: int,
    i: u32,
    f: spec_fn(int, u32) -> ResV,
    acc: ResV,
)
    requires
        0 <= k,
    ensures
        acc.le(met(ss, at, k, i, f, acc)),
        forall|t: int|
            k <= t < at.len() ==> eval(ss, #[trigger] at[t], i, f).le(met(ss, at, k, i, f, acc)),
    decreases at.len() - k,
{
    if k < at.len() {
        lemma_met_agrees(ss, at, k + 1, i, f, acc.meet(eval(ss, at[k], i, f)));
    }
}

/// A formal comes to the meet of its actuals over all call sites, each taken at what its
/// caller's own formals come to. So a formal that comes to one object is bound to that
/// object, or to nothing known, at every call site.
pub proof fn law_formals_meet_their_actuals(ss: Seq<SummaryV>, m: int, i: u32)
    ensures
        ({
            let sol = |m: int, i: u32| solution(ss, m, i);
            let at = dict::list_at(sites(ss), ss[m].key);
            &&& solution(ss, m, i) == transfer(ss, m, i, sol)
            &&& forall|t: int|
                0 <= t < at.len() ==> eval(ss, #[trigger] at[t], i, sol).le(solution(ss, m, i))
        }),
{
    let sol = |m: int, i: u32| solution(ss, m, i);
    let at = dict::list_at(sites(ss), ss[m].key);
    let n = lemma_read_attained(ss, at, at.len() as int, i);
    let f = rounds(ss, n);
    lemma_met_grows(ss, at, 0, i, f, sol, ResV::Bottom, ResV::Bottom);
    lemma_met_grows(ss, at, 0, i, sol, f, ResV::Bottom, ResV::Bottom);
    assert(transfer(ss, m, i, sol) == rounds(ss, n + 1)(m, i));
    law_rounds_below_solution(ss, n + 1);
    assert(rounds(ss, n + 1)(m, i).le(sol(m, i)));
    let q = lemma_attained(ss, m, i);
    if q > 0 {
        let p = (q - 1) as nat;
        law_rounds_below_solution(ss, p);
        lemma_transfer_grows(ss, m, i, rounds(ss, p), sol);
        assert(rounds(ss, q)(m, i) == transfer(ss, m, i, rounds(ss, p)));
    }
    lemma_met_agrees(ss, at, 0, i, sol, ResV::Bottom);
}

proof fn lemma_rounds_under(ss: Seq<SummaryV>, n: nat, g: spec_fn(int, u32) -> ResV)
    requires
        forall|m: int, i: u32| transfer(ss, m, i, g).le(#[trigger] g(m, i)),
    ensures
        below(rounds(ss, n), g),
    decreases n,
{
    assert forall|m: int, i: u32| (#[trigger] rounds(ss, n)(m, i)).le(g(m, i)) by {
        if n > 0 {
            let p = (n - 1) as nat;
            lemma_rounds_under(ss, p, g);
            lemma_transfer_grows(ss, m, i, rounds(ss, p), g);
            assert(rounds(ss, n)(m, i) == transfer(ss, m, i, rounds(ss, p)));
            assert(transfer(ss, m, i, g).le(g(m, i)));
        }
    }
}

/// A partial solution: the formals of each method that matter.
pub open spec fn at(st: Seq<Seq<ResV>>, m: int, i: u32) -> ResV {
    if 0 <= m < st.len() && i < st[m].len() {
        st[m][i as int]
    } else {
        ResV::Bottom
    }
}

/// As a function of the formals.
pub open spec fn as_fn(st: Seq<Seq<ResV>>) -> spec_fn(int, u32) -> ResV {
    |m: int, i: u32| at(st, m, i)
}

/// The formals that call sites read, store or lock have a place.
pub open spec fn covers(ss: Seq<SummaryV>, st: Seq<Seq<ResV>>) -> bool {
    &&& st.len() == ss.len()
    &&& forall|s: int|
        0 <= s < ss.len() ==> #[trigger] covers_one(ss[s], st[s].len() as int) && st[s].len()
            <= 0x1_0000_0000
}

/// The formals of one method that matter lie below `n`.
pub open spec fn covers_one(s: SummaryV, n: int) -> bool {
    &&& forall|b: int, a: int|
        0 <= b < s.arg_bindings.len() && 0 <= a < s.arg_bindings[b].1.len() ==> within(
            #[trigger] s.arg_bindings[b].1[a],
            n,
        )
    &&& forall|k: int| 0 <= k < s.param_stores.len() ==> (#[trigger] s.param_stores[k]).1 < n
    &&& forall|k: int| 0 <= k < s.acq_sites.len() ==> within(Some(#[trigger] s.acq_sites[k].0), n)
}

/// The value is no formal past `n`.
pub open spec fn within(v: Option<LockV>, n: int) -> bool {
    match v {
        Some(LockV { root: RootV::Param(j), .. }) => j < n,
        _ => true,
    }
}

/// How far a resolution is from a conflict.
pub open spec fn slack(r: ResV) -> nat {
    match r {
        ResV::Bottom => 2,
        ResV::Val(_) => 1,
        ResV::Top => 0,
    }
}

/// How far a partial solution can still rise.
pub open spec fn room(st: Seq<Seq<ResV>>) -> nat {
    tally::sum(st, |row: Seq<ResV>| tally::sum(row, |r: ResV| slack(r)))
}

proof fn lemma_room_falls(st: Seq<Seq<ResV>>, m: int, i: int, v: ResV)
    requires
        0 <= m < st.len(),
        0 <= i < st[m].len(),
        st[m][i].le(v),
        st[m][i] != v,
    ensures
        room(st.update(m, st[m].update(i, v))) < room(st),
{
    let w = |r: ResV| slack(r);
    tally::lemma_sum_update(st[m], w, i, v);
    tally::lemma_sum_update(st, |row: Seq<ResV>| tally::sum(row, w), m, st[m].update(i, v));
}

/// The call-graph facts that resolution reads.
pub struct Injector<'a> {
    ss: &'a Vec<Summary>,
    sites: Dict<Vec<(usize, usize)>>,
}

impl<'a> Injector<'a> {
    /// The methods' facts.
    pub closed spec fn facts(&self) -> Seq<SummaryV> {
        self.ss.deep_view()
    }

    /// The call sites are those of the facts.
    pub closed spec fn wf(&self) -> bool {
        &&& self.sites.wf()
        &&& self.sites@ == sites(self.facts())
        &&& sound(self.facts(), self.sites@)
    }

    /// Group the call sites by callee.
    pub fn build(ss: &'a Vec<Summary>) -> (r: Injector<'a>)
        ensures
            r.wf(),
            r.facts() == ss.deep_view(),
    {
        let ghost all = ss.deep_view();
        let mut found: Dict<Vec<(usize, usize)>> = Dict::new();
        let mut s: usize = 0;
        while s < ss.len()
            invariant
                s <= ss@.len(),
                all == ss.deep_view(),
                found.wf(),
                sound(all, found@),
                sites(all) == sites_from(all, s as int, found@),
            decreases ss@.len() - s,
        {
            let ghost start = found@;
            let bindings = &ss[s].arg_bindings;
            let mut b: usize = 0;
            proof {
                assert(all[s as int] == ss@[s as int].deep_view());
            }
            while b < bindings.len()
                invariant
                    b <= bindings@.len(),
                    s < ss@.len(),
                    all == ss.deep_view(),
                    bindings == &ss@[s as int].arg_bindings,
                    all[s as int] == ss@[s as int].deep_view(),
                    found.wf(),
                    sound(all, found@),
                    sites_in(all, s as int, 0, start) == sites_in(all, s as int, b as int, found@),
                decreases bindings@.len() - b,
            {
                proof {
                    assert(all[s as int].arg_bindings[b as int] == bindings@[b as int].deep_view());
                }
                let ghost before = found@;
                found.push_to(bindings[b].0.as_str(), (s, b));
                proof {
                    assert(found@ == dict::put_more(before, bindings@[b as int].0@, (s, b)));
                    assert forall|k: Seq<char>, t: int|
                        found@.map.contains_key(k) && 0 <= t < found@.map[k].len() implies sited(
                        all,
                        #[trigger] found@.map[k][t],
                    ) by {
                        if k != bindings@[b as int].0@ {
                            assert(sited(all, before.map[k][t]));
                        } else {
                            let list = dict::list_at(before, k);
                            if t < list.len() {
                                assert(found@.map[k][t] == before.map[k][t]);
                                assert(sited(all, before.map[k][t]));
                            }
                        }
                    }
                }
                b += 1;
            }
            s += 1;
        }
        Injector { ss, sites: found }
    }

    /// The value of one actual argument under the partial solution `st`.
    fn eval(&self, site: (usize, usize), i: u32, st: &Vec<Vec<Res>>) -> (r: Res)
        requires
            self.wf(),
            sited(self.facts(), site),
            covers(self.facts(), st.deep_view()),
        ensures
            r.deep_view() == eval(self.facts(), site, i, as_fn(st.deep_view())),
    {
        let ghost ss = self.facts();
        let s = &self.ss[site.0];
        proof {
            assert(ss[site.0 as int] == s.deep_view());
            assert(ss[site.0 as int].arg_bindings[site.1 as int]
                == s.arg_bindings@[site.1 as int].deep_view());
        }
        let actuals = &s.arg_bindings[site.1].1;
        if i as u64 >= actuals.len() as u64 {
            return Res::Top;
        }
        let i = i as usize;
        proof {
            assert(actuals.deep_view()[i as int] == actuals@[i as int].deep_view());
        }
        match &actuals[i] {
            None => Res::Top,
            Some(l) => match &l.root {
                Root::Param(j) => {
                    proof {
                        let sv = ss[site.0 as int];
                        assert(covers_one(sv, st.deep_view()[site.0 as int].len() as int));
                        assert(within(
                            sv.arg_bindings[site.1 as int].1[i as int],
                            st.deep_view()[site.0 as int].len() as int,
                        ));
                        assert(st.deep_view()[site.0 as int] == st@[site.0 as int].deep_view());
                        assert(st@[site.0 as int].deep_view()[*j as int]
                            == st@[site.0 as int]@[*j as int].deep_view());
                    }
                    match &st[site.0][*j as usize] {
                        Res::Val(base) => Res::Val(base.append(&l.fields, l.mode)),
                        other => other.dup(),
                    }
                },
                _ => {
                    let g = l.ground(s.class.as_str(), s.key.as_str());
                    if g.is_concrete() {
                        Res::Val(g)
                    } else {
                        Res::Top
                    }
                },
            },
        }
    }

    /// A formal is the meet of its actuals over all call sites. A method without an
    /// observed call site is unconstrained.
    fn transfer(&self, m: usize, i: u32, st: &Vec<Vec<Res>>) -> (r: Res)
        requires
            self.wf(),
            m < self.facts().len(),
            covers(self.facts(), st.deep_view()),
        ensures
            r.deep_view() == transfer(self.facts(), m as int, i, as_fn(st.deep_view())),
    {
        let ghost ss = self.facts();
        let ghost f = as_fn(st.deep_view());
        proof {
            assert(ss[m as int] == self.ss@[m as int].deep_view());
        }
        match self.sites.get(self.ss[m].key.as_str()) {
            None => Res::Top,
            Some(list) => {
                let ghost at = list.deep_view();
                if list.len() == 0 {
                    return Res::Top;
                }
                let mut acc = Res::Bottom;
                let mut k: usize = 0;
                while k < list.len()
                    invariant
                        k <= list@.len(),
                        self.wf(),
                        ss == self.facts(),
                        at == list.deep_view(),
                        covers(ss, st.deep_view()),
                        f == as_fn(st.deep_view()),
                        forall|t: int| 0 <= t < at.len() ==> sited(ss, #[trigger] at[t]),
                        met(ss, at, 0, i, f, ResV::Bottom) == met(
                            ss,
                            at,
                            k as int,
                            i,
                            f,
                            acc.deep_view(),
                        ),
                    decreases list@.len() - k,
                {
                    proof {
                        assert(at[k as int] == list@[k as int]);
                    }
                    let v = self.eval(list[k], i, st);
                    acc = acc.meet(v);
                    k += 1;
                }
                acc
            },
        }
    }

    /// Resolve every formal that matters: round by round until none rises any more.
    pub fn solve(&self) -> (r: Vec<Vec<Res>>)
        requires
            self.wf(),
        ensures
            solves(self.facts(), r.deep_view()),
    {
        let ghost ss = self.facts();
        let mut st = no_info(self.ss);
        let ghost mut n: nat = 0;
        proof {
            assert(below(as_fn(st.deep_view()), rounds(ss, 0)));
        }
        let mut changed = true;
        while changed
            invariant
                self.wf(),
                ss == self.facts(),
                covers(ss, st.deep_view()),
                rising(ss, st.deep_view()),
                below(as_fn(st.deep_view()), rounds(ss, n)),
                !changed ==> settled(ss, st.deep_view()),
            decreases room(st.deep_view()), (if changed { 1int } else { 0 }),
        {
            changed = false;
            let ghost start = st.deep_view();
            let mut m: usize = 0;
            while m < st.len()
                invariant
                    self.wf(),
                    ss == self.facts(),
                    m <= st@.len(),
                    covers(ss, st.deep_view()),
                    rising(ss, st.deep_view()),
                    below(as_fn(st.deep_view()), rounds(ss, n)),
                    !changed ==> st.deep_view() == start,
                    changed ==> room(st.deep_view()) < room(start),
                    !changed ==> forall|x: int, y: u32|
                        0 <= x < m && y < start[x].len() ==> #[trigger] at(start, x, y) == transfer(
                            ss,
                            x,
                            y,
                            as_fn(start),
                        ),
                decreases st@.len() - m,
            {
                proof {
                    assert(st.deep_view()[m as int] == st@[m as int].deep_view());
                }
                let width = st[m].len();
                proof {
                    assert(covers_one(ss[m as int], width as int));
                }
                let mut i: usize = 0;
                while i < width
                    invariant
                        self.wf(),
                        ss == self.facts(),
                        m < st@.len(),
                        i <= width,
                        width == st.deep_view()[m as int].len(),
                        width <= 0x1_0000_0000,
                        covers(ss, st.deep_view()),
                        rising(ss, st.deep_view()),
                        below(as_fn(st.deep_view()), rounds(ss, n)),
                        !changed ==> st.deep_view() == start,
                        changed ==> room(st.deep_view()) < room(start),
                        !changed ==> forall|x: int, y: u32|
                            0 <= x < m && y < start[x].len() ==> #[trigger] at(start, x, y)
                                == transfer(ss, x, y, as_fn(start)),
                        !changed ==> forall|y: u32|
                            y < i ==> #[trigger] at(start, m as int, y) == transfer(
                                ss,
                                m as int,
                                y,
                                as_fn(start),
                            ),
                    decreases width - i,
                {
                    let ghost cur = st.deep_view();
                    proof {
                        assert(cur[m as int] == st@[m as int].deep_view());
                        assert(cur[m as int][i as int] == st@[m as int]@[i as int].deep_view());
                    }
                    let nv = self.transfer(m, i as u32, &st);
                    if !nv.same(&st[m][i]) {
                        let ghost v = nv.deep_view();
                        proof {
                            assert(at(cur, m as int, i as u32).le(
                                transfer(ss, m as int, i as u32, as_fn(cur)),
                            ));
                            lemma_room_falls(cur, m as int, i as int, v);
                        }
                        let mut row: Vec<Res> = Vec::new();
                        std::mem::swap(&mut st[m], &mut row);
                        row.set(i, nv);
                        let ghost rowv = row.deep_view();
                        st.set(m, row);
                        changed = true;
                        proof {
                            let next = st.deep_view();
                            assert(rowv =~= cur[m as int].update(i as int, v));
                            assert(next =~= cur.update(m as int, cur[m as int].update(
                                i as int,
                                v,
                            )));
                            lemma_raise(ss, cur, m as int, i as u32, n);
                            n = n + 1;
                        }
                    }
                    i += 1;
                }
                m += 1;
            }
        }
        proof {
            let fin = st.deep_view();
            assert forall|m: int, i: u32| 0 <= m < fin.len() && i < fin[m].len() implies #[trigger] at(
                fin,
                m,
                i,
            ) == solution(ss, m, i) by {
                assert forall|k: nat| (#[trigger] rounds(ss, k)(m, i)).le(at(fin, m, i)) by {
                    lemma_settled_above(ss, fin, k, m, i);
                }
                assert(as_fn(fin)(m, i).le(rounds(ss, n)(m, i)));
                lemma_solution(ss, m, i, n, at(fin, m, i));
            }
        }
        st
    }
}

/// No information on any formal.
pub open spec fn unknown(row: Seq<ResV>) -> bool {
    row.len() <= 0x1_0000_0000 && forall|i: int| 0 <= i < row.len() ==> #[trigger] row[i] is Bottom
}

fn grow(row: &mut Vec<Res>, j: u32)
    requires
        unknown(old(row).deep_view()),
    ensures
        unknown(final(row).deep_view()),
        j < final(row)@.len(),
        old(row)@.len() <= final(row)@.len(),
{
    while row.len() as u64 <= j as u64
        invariant
            unknown(row.deep_view()),
            old(row)@.len() <= row@.len(),
        decreases 0x1_0000_0000 - row@.len(),
    {
        values::push(row, Res::Bottom);
    }
}

fn grow_for(row: &mut Vec<Res>, l: &Lock)
    requires
        unknown(old(row).deep_view()),
    ensures
        unknown(final(row).deep_view()),
        old(row)@.len() <= final(row)@.len(),
        within(Some(l.deep_view()), final(row)@.len() as int),
{
    match &l.root {
        Root::Param(j) => grow(row, *j),
        _ => {},
    }
}

fn grow_for_all(row: &mut Vec<Res>, actuals: &Vec<Option<Lock>>)
    requires
        unknown(old(row).deep_view()),
    ensures
        unknown(final(row).deep_view()),
        old(row)@.len() <= final(row)@.len(),
        forall|a: int|
            0 <= a < actuals@.len() ==> within(
                #[trigger] actuals.deep_view()[a],
                final(row)@.len() as int,
            ),
{
    let ghost all = actuals.deep_view();
    let mut k: usize = 0;
    while k < actuals.len()
        invariant
            k <= actuals@.len(),
            all == actuals.deep_view(),
            unknown(row.deep_view()),
            old(row)@.len() <= row@.len(),
            forall|a: int| 0 <= a < k ==> within(#[trigger] all[a], row@.len() as int),
        decreases actuals@.len() - k,
    {
        proof {
            assert(all[k as int] == actuals@[k as int].deep_view());
        }
        match &actuals[k] {
            Some(l) => grow_for(row, l),
            None => {},
        }
        k += 1;
    }
}

fn row_for(s: &Summary) -> (row: Vec<Res>)
    ensures
        unknown(row.deep_view()),
        covers_one(s.deep_view(), row@.len() as int),
{
    let ghost sv = s.deep_view();
    let mut row: Vec<Res> = values::empty();
    let mut b: usize = 0;
    while b < s.arg_bindings.len()
        invariant
            b <= s.arg_bindings@.len(),
            sv == s.deep_view(),
            unknown(row.deep_view()),
            forall|x: int, a: int|
                0 <= x < b && 0 <= a < sv.arg_bindings[x].1.len() ==> within(
                    #[trigger] sv.arg_bindings[x].1[a],
                    row@.len() as int,
                ),
        decreases s.arg_bindings@.len() - b,
    {
        proof {
            assert(sv.arg_bindings[b as int] == s.arg_bindings@[b as int].deep_view());
        }
        grow_for_all(&mut row, &s.arg_bindings[b].1);
        b += 1;
    }
    let mut k: usize = 0;
    while k < s.param_stores.len()
        invariant
            k <= s.param_stores@.len(),
            sv == s.deep_view(),
            unknown(row.deep_view()),
            forall|x: int, a: int|
                0 <= x < sv.arg_bindings.len() && 0 <= a < sv.arg_bindings[x].1.len() ==> within(
                    #[trigger] sv.arg_bindings[x].1[a],
                    row@.len() as int,
                ),
            forall|x: int| 0 <= x < k ==> (#[trigger] sv.param_stores[x]).1 < row@.len(),
        decreases s.param_stores@.len() - k,
    {
        proof {
            assert(sv.param_stores[k as int] == s.param_stores@[k as int].deep_view());
        }
        grow(&mut row, s.param_stores[k].1);
        k += 1;
    }
    let mut k: usize = 0;
    while k < s.acq_sites.len()
        invariant
            k <= s.acq_sites@.len(),
            sv == s.deep_view(),
            unknown(row.deep_view()),
            forall|x: int, a: int|
                0 <= x < sv.arg_bindings.len() && 0 <= a < sv.arg_bindings[x].1.len() ==> within(
                    #[trigger] sv.arg_bindings[x].1[a],
                    row@.len() as int,
                ),
            forall|x: int|
                0 <= x < sv.param_stores.len() ==> (#[trigger] sv.param_stores[x]).1 < row@.len(),
            forall|x: int|
                0 <= x < k ==> within(Some(#[trigger] sv.acq_sites[x].0), row@.len() as int),
        decreases s.acq_sites@.len() - k,
    {
        proof {
            assert(sv.acq_sites[k as int] == s.acq_sites@[k as int].deep_view());
        }
        grow_for(&mut row, &s.acq_sites[k].0);
        k += 1;
    }
    row
}

fn no_info(ss: &Vec<Summary>) -> (r: Vec<Vec<Res>>)
    ensures
        covers(ss.deep_view(), r.deep_view()),
        forall|m: int, i: u32| #[trigger] at(r.deep_view(), m, i) is Bottom,
{
    let ghost all = ss.deep_view();
    let mut out: Vec<Vec<Res>> = values::empty();
    let mut s: usize = 0;
    while s < ss.len()
        invariant
            s <= ss@.len(),
            all == ss.deep_view(),
            out.deep_view().len() == s,
            forall|x: int|
                0 <= x < s ==> #[trigger] covers_one(all[x], out.deep_view()[x].len() as int)
                    && unknown(out.deep_view()[x]),
        decreases ss@.len() - s,
    {
        proof {
            assert(all[s as int] == ss@[s as int].deep_view());
        }
        let ghost before = out.deep_view();
        values::push(&mut out, row_for(&ss[s]));
        proof {
            assert forall|x: int| 0 <= x < s + 1 implies #[trigger] covers_one(
                all[x],
                out.deep_view()[x].len() as int,
            ) && unknown(out.deep_view()[x]) by {
                if x < s {
                    assert(covers_one(all[x], before[x].len() as int));
                }
            }
        }
        s += 1;
    }
    proof {
        assert forall|m: int, i: u32| #[trigger] at(out.deep_view(), m, i) is Bottom by {
            if 0 <= m < out.deep_view().len() {
                assert(covers_one(all[m], out.deep_view()[m].len() as int));
            }
        }
    }
    out
}

/// The call site exists.
pub open spec fn sited(ss: Seq<SummaryV>, site: (usize, usize)) -> bool {
    site.0 < ss.len() && site.1 < ss[site.0 as int].arg_bindings.len()
}

/// Every call site exists.
pub open spec fn sound(ss: Seq<SummaryV>, found: Sites) -> bool {
    forall|k: Seq<char>, t: int|
        found.map.contains_key(k) && 0 <= t < found.map[k].len() ==> sited(
            ss,
            #[trigger] found.map[k][t],
        )
}

/// The transfer lowers no formal.
pub open spec fn rising(ss: Seq<SummaryV>, st: Seq<Seq<ResV>>) -> bool {
    forall|m: int, i: u32|
        0 <= m < st.len() && i < st[m].len() ==> (#[trigger] at(st, m, i)).le(
            transfer(ss, m, i, as_fn(st)),
        )
}

/// The transfer changes no formal.
pub open spec fn settled(ss: Seq<SummaryV>, st: Seq<Seq<ResV>>) -> bool {
    forall|m: int, i: u32|
        0 <= m < st.len() && i < st[m].len() ==> #[trigger] at(st, m, i) == transfer(
            ss,
            m,
            i,
            as_fn(st),
        )
}

proof fn lemma_raise(ss: Seq<SummaryV>, cur: Seq<Seq<ResV>>, m: int, i: u32, n: nat)
    requires
        covers(ss, cur),
        rising(ss, cur),
        below(as_fn(cur), rounds(ss, n)),
        0 <= m < cur.len(),
        i < cur[m].len(),
    ensures
        ({
            let next = cur.update(m, cur[m].update(i as int, transfer(ss, m, i, as_fn(cur))));
            &&& covers(ss, next)
            &&& rising(ss, next)
            &&& below(as_fn(next), rounds(ss, n + 1))
        }),
{
    let v = transfer(ss, m, i, as_fn(cur));
    let next = cur.update(m, cur[m].update(i as int, v));
    assert(at(cur, m, i).le(v));
    assert forall|x: int, y: u32| (#[trigger] as_fn(cur)(x, y)).le(as_fn(next)(x, y)) by {
        if x == m && y == i {
            assert(as_fn(cur)(x, y) == at(cur, m, i));
        }
    }
    assert forall|s: int| 0 <= s < ss.len() implies #[trigger] covers_one(
        ss[s],
        next[s].len() as int,
    ) && next[s].len() <= 0x1_0000_0000 by {
        assert(covers_one(ss[s], cur[s].len() as int));
    }
    assert forall|x: int, y: u32| 0 <= x < next.len() && y < next[x].len() implies (#[trigger] at(
        next,
        x,
        y,
    )).le(transfer(ss, x, y, as_fn(next))) by {
        lemma_transfer_grows(ss, x, y, as_fn(cur), as_fn(next));
        if !(x == m && y == i) {
            assert(at(next, x, y) == at(cur, x, y));
        }
        assert(at(cur, x, y).le(transfer(ss, x, y, as_fn(cur))));
    }
    lemma_rounds_grow(ss, n);
    lemma_transfer_grows(ss, m, i, as_fn(cur), rounds(ss, n));
    assert forall|x: int, y: u32| (#[trigger] as_fn(next)(x, y)).le(rounds(ss, n + 1)(x, y)) by {
        assert(as_fn(cur)(x, y).le(rounds(ss, n)(x, y)));
        assert(rounds(ss, n)(x, y).le(rounds(ss, n + 1)(x, y)));
        if x == m && y == i {
            assert(as_fn(next)(x, y) == v);
            assert(rounds(ss, n + 1)(m, i) == transfer(ss, m, i, rounds(ss, n)));
        } else {
            assert(as_fn(next)(x, y) == as_fn(cur)(x, y));
        }
    }
}

proof fn lemma_settled_above(ss: Seq<SummaryV>, st: Seq<Seq<ResV>>, n: nat, m: int, i: u32)
    requires
        covers(ss, st),
        settled(ss, st),
        0 <= m < st.len(),
        i < st[m].len(),
        sound(ss, sites(ss)),
    ensures
        rounds(ss, n)(m, i).le(at(st, m, i)),
    decreases n,
{
    if n > 0 {
        let p = (n - 1) as nat;
        let list = dict::list_at(sites(ss), ss[m].key);
        let f = rounds(ss, p);
        let g = as_fn(st);
        assert forall|t: int, j: u32|
            0 <= t < list.len() && (#[trigger] reads(ss, list[t], i, j)) implies f(
            list[t].0 as int,
            j,
        ).le(g(list[t].0 as int, j)) by {
            let site = list[t];
            assert(sites(ss).map.contains_key(ss[m].key));
            assert(sited(ss, sites(ss).map[ss[m].key][t]));
            let s = ss[site.0 as int];
            assert(covers_one(s, st[site.0 as int].len() as int));
            assert(within(
                s.arg_bindings[site.1 as int].1[i as int],
                st[site.0 as int].len() as int,
            ));
            lemma_settled_above(ss, st, p, site.0 as int, j);
        }
        lemma_met_grows(ss, list, 0, i, f, g, ResV::Bottom, ResV::Bottom);
        assert(rounds(ss, n)(m, i) == transfer(ss, m, i, f));
        assert(at(st, m, i) == transfer(ss, m, i, g));
    }
}

/// The stores of formals by field: which method stores, and which formal.
pub type Stores = DictV<Seq<(usize, u32)>>;

/// The stores of method `s` from the `k`th on, behind `acc`.
pub open spec fn stores_in(ss: Seq<SummaryV>, s: int, k: int, acc: Stores) -> Stores
    decreases ss[s].param_stores.len() - k,
{
    if k >= ss[s].param_stores.len() {
        acc
    } else {
        let store = ss[s].param_stores[k];
        stores_in(ss, s, k + 1, dict::put_more(acc, store.0, (s as usize, store.1)))
    }
}

/// The stores of the methods from the `s`th on, behind `acc`.
pub open spec fn stores_from(ss: Seq<SummaryV>, s: int, acc: Stores) -> Stores
    decreases ss.len() - s,
{
    if s >= ss.len() {
        acc
    } else {
        stores_from(ss, s + 1, stores_in(ss, s, 0, acc))
    }
}

/// The stores of formals by field.
pub open spec fn stores(ss: Seq<SummaryV>) -> Stores {
    stores_from(ss, 0, DictV::none())
}

/// The meet of the stored formals from the `k`th on, and `acc`; an unresolved formal is
/// a conflict.
pub open spec fn stored_value(
    ss: Seq<SummaryV>,
    list: Seq<(usize, u32)>,
    k: int,
    acc: ResV,
) -> ResV
    decreases list.len() - k,
{
    if k >= list.len() {
        acc
    } else {
        let v = match solution(ss, list[k].0 as int, list[k].1) {
            ResV::Val(l) => ResV::Val(l),
            _ => ResV::Top,
        };
        stored_value(ss, list, k + 1, acc.meet(v))
    }
}

/// The fields from the `k`th on that resolve to a single object other than themselves,
/// behind `acc`.
pub open spec fn fields_from(ss: Seq<SummaryV>, k: int, acc: Seq<(Seq<char>, LockV)>) -> Seq<
    (Seq<char>, LockV),
>
    decreases stores(ss).keys.len() - k,
{
    if k >= stores(ss).keys.len() {
        acc
    } else {
        let field = stores(ss).keys[k];
        fields_from(
            ss,
            k + 1,
            match stored_value(ss, dict::list_at(stores(ss), field), 0, ResV::Bottom) {
                ResV::Val(l) => if l.name() != field {
                    acc.push((field, l))
                } else {
                    acc
                },
                _ => acc,
            },
        )
    }
}

/// A `synchronized(param)` operand as the object bound at the method's call sites, if
/// it is one.
pub open spec fn param_object(ss: Seq<SummaryV>, s: int, l: LockV) -> Option<LockV> {
    match l.root {
        RootV::Param(j) => match solution(ss, s, j) {
            ResV::Val(base) => Some(base.append(l.fields, l.mode)),
            _ => None,
        },
        _ => None,
    }
}

/// `st` holds the solution of every formal that matters.
pub open spec fn solves(ss: Seq<SummaryV>, st: Seq<Seq<ResV>>) -> bool {
    &&& covers(ss, st)
    &&& forall|m: int, i: u32|
        0 <= m < st.len() && i < st[m].len() ==> #[trigger] at(st, m, i) == solution(ss, m, i)
}

/// The stored formal exists and matters.
pub open spec fn stored_at(ss: Seq<SummaryV>, x: (usize, u32)) -> bool {
    x.0 < ss.len() && exists|k: int|
        0 <= k < ss[x.0 as int].param_stores.len() && (
        #[trigger] ss[x.0 as int].param_stores[k]).1 == x.1
}

fn group_stores(ss: &Vec<Summary>) -> (r: Dict<Vec<(usize, u32)>>)
    ensures
        r.wf(),
        r@ == stores(ss.deep_view()),
        forall|f: Seq<char>, t: int|
            r@.map.contains_key(f) && 0 <= t < r@.map[f].len() ==> stored_at(
                ss.deep_view(),
                #[trigger] r@.map[f][t],
            ),
{
    let ghost all = ss.deep_view();
    let mut found: Dict<Vec<(usize, u32)>> = Dict::new();
    let mut s: usize = 0;
    while s < ss.len()
        invariant
            s <= ss@.len(),
            all == ss.deep_view(),
            found.wf(),
            stores(all) == stores_from(all, s as int, found@),
            forall|f: Seq<char>, t: int|
                found@.map.contains_key(f) && 0 <= t < found@.map[f].len() ==> stored_at(
                    all,
                    #[trigger] found@.map[f][t],
                ),
        decreases ss@.len() - s,
    {
        let ghost start = found@;
        let list = &ss[s].param_stores;
        let mut k: usize = 0;
        proof {
            assert(all[s as int] == ss@[s as int].deep_view());
        }
        while k < list.len()
            invariant
                k <= list@.len(),
                s < ss@.len(),
                all == ss.deep_view(),
                list == &ss@[s as int].param_stores,
                all[s as int] == ss@[s as int].deep_view(),
                found.wf(),
                stores_in(all, s as int, 0, start) == stores_in(all, s as int, k as int, found@),
                forall|f: Seq<char>, t: int|
                    found@.map.contains_key(f) && 0 <= t < found@.map[f].len() ==> stored_at(
                        all,
                        #[trigger] found@.map[f][t],
                    ),
            decreases list@.len() - k,
        {
            let ghost before = found@;
            let ghost field = list@[k as int].0@;
            proof {
                assert(all[s as int].param_stores[k as int] == list@[k as int].deep_view());
            }
            found.push_to(list[k].0.as_str(), (s, list[k].1));
            proof {
                assert(stored_at(all, (s, list@[k as int].1)));
                assert forall|f: Seq<char>, t: int|
                    found@.map.contains_key(f) && 0 <= t < found@.map[f].len() implies stored_at(
                    all,
                    #[trigger] found@.map[f][t],
                ) by {
                    if f != field {
                        assert(stored_at(all, before.map[f][t]));
                    } else if t < dict::list_at(before, f).len() {
                        assert(found@.map[f][t] == before.map[f][t]);
                        assert(stored_at(all, before.map[f][t]));
                    }
                }
            }
            k += 1;
        }
        s += 1;
    }
    found
}

impl<'a> Injector<'a> {
    /// A `synchronized(param)` operand of method `s` as the concrete object bound at the
    /// method's call sites, if it resolves to one.
    pub fn resolve_param_lock(&self, s: usize, l: &Lock, st: &Vec<Vec<Res>>) -> (r: Option<Lock>)
        requires
            self.wf(),
            solves(self.facts(), st.deep_view()),
            s < self.facts().len(),
            within(Some(l.deep_view()), st.deep_view()[s as int].len() as int),
        ensures
            r.deep_view() == param_object(self.facts(), s as int, l.deep_view()),
    {
        match &l.root {
            Root::Param(j) => {
                proof {
                    let sv = st.deep_view();
                    assert(at(sv, s as int, *j) == solution(self.facts(), s as int, *j));
                    assert(sv[s as int] == st@[s as int].deep_view());
                    assert(sv[s as int][*j as int] == st@[s as int]@[*j as int].deep_view());
                }
                match &st[s][*j as usize] {
                    Res::Val(base) => Some(base.append(&l.fields, l.mode)),
                    _ => None,
                }
            },
            _ => None,
        }
    }

    /// Every field that resolves to a single concrete object other than itself.
    pub fn resolve_fields(&self, st: &Vec<Vec<Res>>) -> (r: Vec<(String, Lock)>)
        requires
            self.wf(),
            solves(self.facts(), st.deep_view()),
        ensures
            r.deep_view() == fields_from(self.facts(), 0, Seq::empty()),
    {
        let ghost ss = self.facts();
        let ghost sv = st.deep_view();
        let found = group_stores(self.ss);
        let mut out: Vec<(String, Lock)> = values::empty();
        let mut k: usize = 0;
        while k < found.len()
            invariant
                self.wf(),
                ss == self.facts(),
                sv == st.deep_view(),
                solves(ss, sv),
                found.wf(),
                found@ == stores(ss),
                forall|f: Seq<char>, t: int|
                    found@.map.contains_key(f) && 0 <= t < found@.map[f].len() ==> stored_at(
                        ss,
                        #[trigger] found@.map[f][t],
                    ),
                k <= found@.keys.len(),
                fields_from(ss, 0, Seq::empty()) == fields_from(ss, k as int, out.deep_view()),
            decreases found@.keys.len() - k,
        {
            let field = found.key_at(k);
            let list = found.val_at(k);
            let ghost lv = list.deep_view();
            let mut acc = Res::Bottom;
            let mut t: usize = 0;
            while t < list.len()
                invariant
                    ss == self.facts(),
                    sv == st.deep_view(),
                    solves(ss, sv),
                    lv == list.deep_view(),
                    t <= list@.len(),
                    forall|x: int| 0 <= x < lv.len() ==> stored_at(ss, #[trigger] lv[x]),
                    stored_value(ss, lv, 0, ResV::Bottom) == stored_value(
                        ss,
                        lv,
                        t as int,
                        acc.deep_view(),
                    ),
                decreases list@.len() - t,
            {
                let (m, i) = list[t];
                proof {
                    assert(lv[t as int] == (m, i));
                    assert(stored_at(ss, lv[t as int]));
                    assert(covers_one(ss[m as int], sv[m as int].len() as int));
                    assert(at(sv, m as int, i) == solution(ss, m as int, i));
                    assert(sv[m as int] == st@[m as int].deep_view());
                    assert(sv[m as int][i as int] == st@[m as int]@[i as int].deep_view());
                }
                let v = match &st[m][i as usize] {
                    Res::Val(l) => Res::Val(l.dup()),
                    _ => Res::Top,
                };
                acc = acc.meet(v);
                t += 1;
            }
            match acc {
                Res::Val(l) => {
                    if !text::str_eq(l.name().as_str(), field) {
                        values::push(&mut out, (field.to_string(), l));
                    }
                },
                _ => {},
            }
            k += 1;
        }
        out
    }
}

} // verus!

//! Deadlock candidates: the strongly connected components of the lock-order graph.

use crate::dex::ctx::index;
use crate::dex::ctx::index::{Index, IndexV, OrderEdge};
use crate::dex::ctx::query;
use crate::graph;
use crate::sort;
use crate::values;
use vstd::prelude::*;

verus! {

/// The lock-order graph.
pub open spec fn points(es: Seq<OrderEdge>) -> spec_fn(usize, usize) -> bool {
    |x: usize, y: usize| exists|i: int| 0 <= i < es.len() && joins(#[trigger] es[i], x, y)
}

/// The edge goes from `x` to `y`.
pub open spec fn joins(e: OrderEdge, x: usize, y: usize) -> bool {
    e.from == x && e.to == y
}

/// Each lock leads to the other.
pub open spec fn mutual(es: Seq<OrderEdge>, x: u32, y: u32) -> bool {
    graph::leads(points(es), x as usize, y as usize) && graph::leads(
        points(es),
        y as usize,
        x as usize,
    )
}

/// `c` is a strongly connected component of more than one lock, in ascending order.
pub open spec fn component(v: IndexV, c: Seq<u32>) -> bool {
    &&& c.len() > 1
    &&& query::climbs(c)
    &&& index::all_below(c, v.locks.len() as int)
    &&& forall|x: u32, y: u32| #[trigger]
        c.contains(x) ==> (#[trigger] c.contains(y) <==> y < v.locks.len() && mutual(
            v.order,
            x,
            y,
        ))
}

/// `r` holds every such component once, the larger first.
pub open spec fn are_cycles(v: IndexV, r: Seq<Seq<u32>>) -> bool {
    &&& forall|i: int| 0 <= i < r.len() ==> component(v, #[trigger] r[i])
    &&& r.no_duplicates()
    &&& forall|x: u32, y: u32|
        x < v.locks.len() && y < v.locks.len() && x != y && #[trigger] mutual(v.order, x, y)
            ==> covered(r, x)
    &&& forall|i: int, j: int|
        0 <= i < j < r.len() ==> (#[trigger] r[i]).len() >= (#[trigger] r[j]).len()
}

/// Some component holds `x`.
pub open spec fn covered(r: Seq<Seq<u32>>, x: u32) -> bool {
    exists|i: int| 0 <= i < r.len() && (#[trigger] r[i]).contains(x)
}

/// The larger first.
pub open spec fn larger() -> spec_fn(Seq<u32>, Seq<u32>) -> bool {
    |a: Seq<u32>, b: Seq<u32>| a.len() >= b.len()
}

/// The relation the other way round.
pub open spec fn turned(rel: spec_fn(usize, usize) -> bool) -> spec_fn(usize, usize) -> bool {
    |x: usize, y: usize| rel(y, x)
}

proof fn lemma_turned(rel: spec_fn(usize, usize) -> bool, x: usize, y: usize)
    requires
        graph::leads(rel, x, y),
    ensures
        graph::leads(turned(rel), y, x),
{
    let p = choose|p: Seq<usize>| graph::walks(rel, p, x, y);
    let q = p.reverse();
    let t = turned(rel);
    assert forall|i: int, j: int| 0 <= i && j == i + 1 && j < q.len() implies t(
        #[trigger] q[i],
        #[trigger] q[j],
    ) by {
        let a = p.len() - 1 - j;
        let b = p.len() - 1 - i;
        assert(rel(p[a], p[b]));
    }
    assert(graph::walks(t, q, y, x));
}

proof fn lemma_mutual(es: Seq<OrderEdge>, x: u32, y: u32)
    ensures
        graph::leads(turned(points(es)), x as usize, y as usize) == graph::leads(
            points(es),
            y as usize,
            x as usize,
        ),
{
    let rel = points(es);
    let a = x as usize;
    let b = y as usize;
    if graph::leads(turned(rel), a, b) {
        lemma_turned(turned(rel), a, b);
        assert(turned(turned(rel)) =~= rel);
    }
    if graph::leads(rel, b, a) {
        lemma_turned(rel, b, a);
    }
}

proof fn lemma_mutual_chains(es: Seq<OrderEdge>, x: u32, y: u32, z: u32)
    requires
        mutual(es, x, y),
        mutual(es, y, z),
    ensures
        mutual(es, x, z),
{
    graph::law_leads_chains(points(es), x as usize, y as usize, z as usize);
    graph::law_leads_chains(points(es), z as usize, y as usize, x as usize);
}

fn larger_first(a: &Vec<u32>, b: &Vec<u32>) -> (r: bool)
    ensures
        r == larger()(a.deep_view(), b.deep_view()),
{
    a.len() >= b.len()
}

/// The lists hold what the first `k` edges give, one way or the other.
spec fn listed(
    es: Seq<OrderEdge>,
    k: int,
    out: Seq<Seq<usize>>,
    inn: Seq<Seq<usize>>,
    n: int,
) -> bool {
    &&& out.len() == n && inn.len() == n
    &&& forall|x: int, i: int|
        0 <= x < n && 0 <= i < out[x].len() ==> #[trigger] out[x][i] < n && points(es.take(k))(
            x as usize,
            out[x][i],
        )
    &&& forall|x: int, i: int|
        0 <= x < n && 0 <= i < inn[x].len() ==> #[trigger] inn[x][i] < n && points(es.take(k))(
            inn[x][i],
            x as usize,
        )
    &&& forall|j: int|
        0 <= j < k ==> out[(#[trigger] es[j]).from as int].contains(es[j].to as usize)
            && inn[es[j].to as int].contains(es[j].from as usize)
}

proof fn lemma_listed_step(
    es: Seq<OrderEdge>,
    k: int,
    out: Seq<Seq<usize>>,
    inn: Seq<Seq<usize>>,
    n: int,
)
    requires
        0 <= k < es.len(),
        listed(es, k, out, inn, n),
        es[k].from < n,
        es[k].to < n,
        n <= usize::MAX,
        forall|j: int| 0 <= j < k ==> (#[trigger] es[j]).from < n && es[j].to < n,
    ensures
        listed(
            es,
            k + 1,
            out.update(es[k].from as int, out[es[k].from as int].push(es[k].to as usize)),
            inn.update(es[k].to as int, inn[es[k].to as int].push(es[k].from as usize)),
            n,
        ),
{
    let e = es[k];
    let a = es.take(k);
    let b = es.take(k + 1);
    let out2 = out.update(e.from as int, out[e.from as int].push(e.to as usize));
    let inn2 = inn.update(e.to as int, inn[e.to as int].push(e.from as usize));
    assert forall|x: usize, y: usize| points(a)(x, y) implies #[trigger] points(b)(x, y) by {
        let i = choose|i: int| 0 <= i < a.len() && joins(#[trigger] a[i], x, y);
        assert(b[i] == a[i]);
    }
    assert(joins(b[k], e.from as usize, e.to as usize));
    assert(points(b)(e.from as usize, e.to as usize));
    assert forall|x: int, i: int| 0 <= x < n && 0 <= i < out2[x].len() implies #[trigger] out2[x][i]
        < n && points(b)(x as usize, out2[x][i]) by {
        if x == e.from && i == out[x].len() {
        } else {
            assert(out2[x][i] == out[x][i]);
            assert(points(a)(x as usize, out[x][i]));
        }
    }
    assert forall|x: int, i: int| 0 <= x < n && 0 <= i < inn2[x].len() implies #[trigger] inn2[x][i]
        < n && points(b)(inn2[x][i], x as usize) by {
        if x == e.to && i == inn[x].len() {
        } else {
            assert(inn2[x][i] == inn[x][i]);
            assert(points(a)(inn[x][i], x as usize));
        }
    }
    assert forall|j: int| 0 <= j < k + 1 implies out2[(#[trigger] es[j]).from as int].contains(
        es[j].to as usize,
    ) && inn2[es[j].to as int].contains(es[j].from as usize) by {
        let f = es[j].from as int;
        let t = es[j].to as int;
        if j == k {
            assert(out2[f][out[f].len() as int] == e.to as usize);
            assert(inn2[t][inn[t].len() as int] == e.from as usize);
        } else {
            assert(out[f].contains(es[j].to as usize));
            assert(inn[t].contains(es[j].from as usize));
            let i = choose|i: int| 0 <= i < out[f].len() && out[f][i] == es[j].to as usize;
            assert(out2[f][i] == es[j].to as usize);
            let i = choose|i: int| 0 <= i < inn[t].len() && inn[t][i] == es[j].from as usize;
            assert(inn2[t][i] == es[j].from as usize);
        }
    }
}

proof fn lemma_lists(es: Seq<OrderEdge>, out: Seq<Seq<usize>>, inn: Seq<Seq<usize>>, n: int)
    requires
        listed(es, es.len() as int, out, inn, n),
    ensures
        graph::lists(points(es), out),
        graph::lists(turned(points(es)), inn),
{
    assert(es.take(es.len() as int) =~= es);
    let rel = points(es);
    let t = turned(rel);
    assert forall|x: usize, y: usize| x < out.len() && #[trigger] rel(x, y) implies out[
    x as int].contains(y) by {
        let i = choose|i: int| 0 <= i < es.len() && joins(#[trigger] es[i], x, y);
        assert(out[es[i].from as int].contains(es[i].to as usize));
    }
    assert forall|x: usize, y: usize| x < inn.len() && #[trigger] t(x, y) implies inn[
    x as int].contains(y) by {
        let i = choose|i: int| 0 <= i < es.len() && joins(#[trigger] es[i], y, x);
        assert(inn[es[i].to as int].contains(es[i].from as usize));
    }
}

/// `x` waits on the stack.
spec fn waits(stack: Seq<(usize, usize)>, x: usize) -> bool {
    exists|i: int| 0 <= i < stack.len() && (#[trigger] stack[i]).0 == x
}

/// How many points of its top node the stack has not followed.
spec fn to_follow(out: Seq<Seq<usize>>, stack: Seq<(usize, usize)>) -> int {
    if stack.len() > 0 {
        out[stack.last().0 as int].len() - stack.last().1
    } else {
        0
    }
}

/// Every node, by when a depth-first search leaves it.
fn finishing(out: &Vec<Vec<usize>>, Ghost(rel): Ghost<spec_fn(usize, usize) -> bool>) -> (r: Vec<
    usize,
>)
    requires
        graph::lists(rel, graph::list_views(out)),
    ensures
        forall|i: int| 0 <= i < r@.len() ==> #[trigger] r@[i] < out@.len(),
        forall|x: usize| x < out@.len() ==> #[trigger] r@.contains(x),
{
    let n = out.len();
    let ghost av = graph::list_views(out);
    let mut seen: Vec<bool> = Vec::new();
    let mut i: usize = 0;
    while i < n
        invariant
            i <= n,
            seen@.len() == i,
            forall|y: int| 0 <= y < i ==> !#[trigger] seen@[y],
        decreases n - i,
    {
        seen.push(false);
        i += 1;
    }
    let mut fin: Vec<usize> = Vec::new();
    let mut s: usize = 0;
    while s < n
        invariant
            s <= n,
            n == out@.len(),
            av == graph::list_views(out),
            graph::lists(rel, av),
            seen@.len() == n,
            forall|i: int| 0 <= i < fin@.len() ==> #[trigger] fin@[i] < n,
            forall|x: int| 0 <= x < n && #[trigger] seen@[x] ==> fin@.contains(x as usize),
            forall|x: int| 0 <= x < s ==> #[trigger] seen@[x],
        decreases n - s,
    {
        if !seen[s] {
            let ghost seen0 = seen@;
            seen.set(s, true);
            let mut stack: Vec<(usize, usize)> = Vec::new();
            stack.push((s, 0));
            proof {
                assert(stack@[0].0 == s);
                assert(waits(stack@, s));
            }
            while stack.len() > 0
                invariant
                    s < n,
                    n == out@.len(),
                    av == graph::list_views(out),
                    graph::lists(rel, av),
                    seen@.len() == n,
                    seen@[s as int],
                    forall|x: int| 0 <= x < s ==> #[trigger] seen@[x],
                    forall|i: int| 0 <= i < fin@.len() ==> #[trigger] fin@[i] < n,
                    forall|i: int|
                        0 <= i < stack@.len() ==> (#[trigger] stack@[i]).0 < n && stack@[i].1
                            <= av[stack@[i].0 as int].len(),
                    forall|x: int|
                        0 <= x < n && #[trigger] seen@[x] ==> fin@.contains(x as usize) || waits(
                            stack@,
                            x as usize,
                        ),
                decreases
                        graph::unmarked(seen@, n as int),
                        stack@.len(),
                        to_follow(av, stack@),
            {
                let ghost st = stack@;
                let ghost f0 = fin@;
                let top = stack.len() - 1;
                let (v, i) = stack[top];
                proof {
                    assert(st[top as int].0 < n);
                    assert(out@[v as int]@ == av[v as int]);
                }
                if i < out[v].len() {
                    let w = out[v][i];
                    proof {
                        assert(av[v as int][i as int] == w);
                    }
                    stack.set(top, (v, i + 1));
                    let ghost st1 = stack@;
                    proof {
                        assert forall|x: usize| waits(st, x) implies waits(st1, x) by {
                            let j = choose|j: int| 0 <= j < st.len() && (#[trigger] st[j]).0 == x;
                            assert(st1[j].0 == x);
                        }
                    }
                    if !seen[w] {
                        let ghost m0 = seen@;
                        seen.set(w, true);
                        stack.push((w, 0));
                        proof {
                            graph::lemma_unmarked(m0, w as int, n as int);
                            assert(stack@.last().0 == w);
                            assert forall|x: usize| waits(st1, x) implies waits(stack@, x) by {
                                let j = choose|j: int|
                                    0 <= j < st1.len() && (#[trigger] st1[j]).0 == x;
                                assert(stack@[j].0 == x);
                            }
                            assert(waits(stack@, w));
                        }
                    }
                } else {
                    fin.push(v);
                    stack.pop();
                    proof {
                        assert(fin@.last() == v);
                        assert forall|x: int| 0 <= x < n && #[trigger] seen@[x] implies fin@.contains(
                            x as usize,
                        ) || waits(stack@, x as usize) by {
                            if f0.contains(x as usize) {
                                let j = choose|j: int| 0 <= j < f0.len() && f0[j] == x as usize;
                                assert(fin@[j] == x as usize);
                            } else {
                                let j = choose|j: int|
                                    0 <= j < st.len() && (#[trigger] st[j]).0 == x as usize;
                                if j < st.len() - 1 {
                                    assert(stack@[j].0 == x as usize);
                                } else {
                                    assert(fin@[f0.len() as int] == x as usize);
                                }
                            }
                        }
                    }
                }
            }
            proof {
                assert forall|x: int| 0 <= x < n && #[trigger] seen@[x] implies fin@.contains(
                    x as usize,
                ) by {
                    assert(!waits(stack@, x as usize));
                }
            }
        }
        s += 1;
    }
    proof {
        assert forall|x: usize| x < n implies #[trigger] fin@.contains(x) by {
            assert(seen@[x as int]);
        }
    }
    fin
}

fn members(fwd: &Vec<bool>, bwd: &Vec<bool>, assigned: &mut Vec<bool>) -> (r: Vec<u32>)
    requires
        fwd@.len() == bwd@.len(),
        old(assigned)@.len() == fwd@.len(),
        fwd@.len() <= u32::MAX,
    ensures
        query::climbs(r@),
        index::all_below(r@, fwd@.len() as int),
        forall|x: u32| #[trigger]
            r@.contains(x) <==> x < fwd@.len() && fwd@[x as int] && bwd@[x as int],
        final(assigned)@.len() == fwd@.len(),
        forall|x: int|
            0 <= x < fwd@.len() ==> #[trigger] final(assigned)@[x] == (old(assigned)@[x] || fwd@[x]
                && bwd@[x]),
{
    let n = fwd.len();
    let ghost before = assigned@;
    let mut out: Vec<u32> = Vec::new();
    let mut k: usize = 0;
    while k < n
        invariant
            k <= n,
            n == fwd@.len(),
            n == bwd@.len(),
            n <= u32::MAX,
            assigned@.len() == n,
            query::climbs(out@),
            index::all_below(out@, k as int),
            forall|x: u32| #[trigger]
                out@.contains(x) <==> x < k && fwd@[x as int] && bwd@[x as int],
            forall|x: int|
                0 <= x < n ==> #[trigger] assigned@[x] == (before[x] || x < k && fwd@[x]
                    && bwd@[x]),
        decreases n - k,
    {
        if fwd[k] && bwd[k] {
            let ghost o = out@;
            out.push(k as u32);
            assigned.set(k, true);
            proof {
                assert forall|x: u32| #[trigger]
                    out@.contains(x) <==> x < k + 1 && fwd@[x as int] && bwd@[x as int] by {
                    if out@.contains(x) {
                        let i = choose|i: int| 0 <= i < out@.len() && out@[i] == x;
                        if i < o.len() {
                            assert(o[i] == x);
                            assert(o.contains(x));
                        }
                    }
                    if x < k && fwd@[x as int] && bwd@[x as int] {
                        assert(o.contains(x));
                        let i = choose|i: int| 0 <= i < o.len() && o[i] == x;
                        assert(out@[i] == x);
                    }
                    if x == k {
                        assert(out@[o.len() as int] == x);
                    }
                }
            }
        }
        k += 1;
    }
    out
}

/// A list with two members holds another one than `x`; a list without such has no more
/// than one.
proof fn lemma_alone(c: Seq<u32>, x: u32)
    requires
        query::climbs(c),
        c.contains(x),
    ensures
        c.len() <= 1 ==> forall|y: u32| #[trigger] c.contains(y) ==> y == x,
{
    if c.len() <= 1 {
        assert forall|y: u32| #[trigger] c.contains(y) implies y == x by {
            let i = choose|i: int| 0 <= i < c.len() && c[i] == x;
            let j = choose|j: int| 0 <= j < c.len() && c[j] == y;
            assert(i == j);
        }
    }
}

proof fn lemma_sorted_cycles(v: IndexV, a: Seq<Seq<u32>>)
    requires
        forall|i: int| 0 <= i < a.len() ==> component(v, #[trigger] a[i]),
        a.no_duplicates(),
        forall|x: u32, y: u32|
            x < v.locks.len() && y < v.locks.len() && x != y && #[trigger] mutual(v.order, x, y)
                ==> covered(a, x),
    ensures
        are_cycles(v, sort::sorted(a, larger())),
{
    let r = sort::sorted(a, larger());
    assert(sort::ranks(larger()));
    sort::lemma_sorted(a, larger());
    assert forall|i: int| 0 <= i < r.len() implies component(v, #[trigger] r[i]) by {
        sort::lemma_sorted_contains(a, larger(), r[i]);
        assert(r.contains(r[i]));
        let j = choose|j: int| 0 <= j < a.len() && a[j] == r[i];
        assert(component(v, a[j]));
    }
    a.lemma_multiset_has_no_duplicates();
    assert(r.to_multiset() == a.to_multiset());
    r.lemma_multiset_has_no_duplicates_conv();
    assert forall|x: u32, y: u32|
        x < v.locks.len() && y < v.locks.len() && x != y && #[trigger] mutual(
            v.order,
            x,
            y,
        ) implies covered(r, x) by {
        assert(covered(a, x));
        let i = choose|i: int| 0 <= i < a.len() && (#[trigger] a[i]).contains(x);
        sort::lemma_sorted_contains(a, larger(), a[i]);
        assert(a.contains(a[i]));
        let j = choose|j: int| 0 <= j < r.len() && r[j] == a[i];
        assert(r[j].contains(x));
    }
    assert forall|i: int, j: int| 0 <= i < j < r.len() implies (#[trigger] r[i]).len() >= (
    #[trigger] r[j]).len() by {
        assert(larger()(r[i], r[j]));
    }
}

impl Index {
    /// Non-trivial strongly connected components of the lock-order graph — sets of
    /// locks that can be acquired in inconsistent orders (deadlock candidates).
    pub fn cycles(&self) -> (r: Vec<Vec<u32>>)
        requires
            self.deep_view().joined(),
        ensures
            are_cycles(self.deep_view(), r.deep_view()),
    {
        let ghost v = self.deep_view();
        let ghost es = v.order;
        let ghost rel = points(es);
        let n = self.locks.len();
        let mut out: Vec<Vec<usize>> = Vec::new();
        let mut inn: Vec<Vec<usize>> = Vec::new();
        let mut i: usize = 0;
        while i < n
            invariant
                i <= n,
                out@.len() == i,
                inn@.len() == i,
                forall|x: int| 0 <= x < i ==> (#[trigger] out@[x])@.len() == 0,
                forall|x: int| 0 <= x < i ==> (#[trigger] inn@[x])@.len() == 0,
            decreases n - i,
        {
            out.push(Vec::new());
            inn.push(Vec::new());
            i += 1;
        }
        let mut k: usize = 0;
        while k < self.order.len()
            invariant
                k <= self.order@.len(),
                v == self.deep_view(),
                v.joined(),
                es == v.order,
                n == v.locks.len(),
                listed(es, k as int, graph::list_views(&out), graph::list_views(&inn), n as int),
            decreases self.order@.len() - k,
        {
            let e = self.order[k];
            proof {
                assert(es[k as int].from < n && es[k as int].to < n);
                lemma_listed_step(
                    es,
                    k as int,
                    graph::list_views(&out),
                    graph::list_views(&inn),
                    n as int,
                );
            }
            let ghost ov = graph::list_views(&out);
            let ghost iv = graph::list_views(&inn);
            let f = e.from as usize;
            let t = e.to as usize;
            let mut row: Vec<usize> = Vec::new();
            std::mem::swap(&mut out[f], &mut row);
            row.push(t);
            out.set(f, row);
            let mut row: Vec<usize> = Vec::new();
            std::mem::swap(&mut inn[t], &mut row);
            row.push(f);
            inn.set(t, row);
            proof {
                assert(graph::list_views(&out) =~= ov.update(f as int, ov[f as int].push(t)));
                assert(graph::list_views(&inn) =~= iv.update(t as int, iv[t as int].push(f)));
            }
            k += 1;
        }
        proof {
            lemma_lists(es, graph::list_views(&out), graph::list_views(&inn), n as int);
        }
        let fin = finishing(&out, Ghost(rel));
        let mut assigned: Vec<bool> = Vec::new();
        let mut i: usize = 0;
        while i < n
            invariant
                i <= n,
                assigned@.len() == i,
                forall|y: int| 0 <= y < i ==> !#[trigger] assigned@[y],
            decreases n - i,
        {
            assigned.push(false);
            i += 1;
        }
        let mut comps: Vec<Vec<u32>> = values::empty();
        let mut k = fin.len();
        while k > 0
            invariant
                k <= fin@.len(),
                n == v.locks.len(),
                n <= u32::MAX,
                es == v.order,
                rel == points(es),
                out@.len() == n,
                inn@.len() == n,
                graph::lists(rel, graph::list_views(&out)),
                graph::lists(turned(rel), graph::list_views(&inn)),
                assigned@.len() == n,
                forall|i: int| 0 <= i < fin@.len() ==> #[trigger] fin@[i] < n,
                forall|i: int| k <= i < fin@.len() ==> assigned@[#[trigger] fin@[i] as int],
                forall|i: int|
                    0 <= i < comps@.len() ==> component(v, #[trigger] comps.deep_view()[i]),
                comps.deep_view().no_duplicates(),
                forall|i: int, x: u32|
                    0 <= i < comps@.len() && #[trigger] comps.deep_view()[i].contains(x)
                        ==> assigned@[x as int],
                forall|x: u32, y: u32|
                    x < n && y < n && assigned@[x as int] && x != y && #[trigger] mutual(es, x, y)
                        ==> covered(comps.deep_view(), x),
            decreases k,
        {
            k -= 1;
            let s = fin[k];
            if !assigned[s] {
                let ghost a0 = assigned@;
                let ghost c0 = comps.deep_view();
                let mut start: Vec<usize> = Vec::new();
                start.push(s);
                let fwd = graph::reachable(&out, &start, Ghost(rel));
                let bwd = graph::reachable(&inn, &start, Ghost(turned(rel)));
                let c = members(&fwd, &bwd, &mut assigned);
                let ghost sx = s as u32;
                let ghost cv = c@;
                proof {
                    assert forall|x: u32| #[trigger]
                        cv.contains(x) <==> x < n && mutual(es, sx, x) by {
                        if x < n {
                            lemma_mutual(es, sx, x);
                            assert(start@[0] == s);
                            assert(fwd@[x as int] == graph::leads(rel, s, x as usize)) by {
                                if graph::leads(rel, s, x as usize) {
                                    assert(graph::leads(rel, start@[0], x as usize));
                                }
                            }
                            assert(bwd@[x as int] == graph::leads(turned(rel), s, x as usize)) by {
                                if graph::leads(turned(rel), s, x as usize) {
                                    assert(graph::leads(turned(rel), start@[0], x as usize));
                                }
                            }
                        }
                    }
                    graph::lemma_leads_self(rel, s);
                    assert(mutual(es, sx, sx));
                    assert(cv.contains(sx));
                    assert forall|x: u32, y: u32| #[trigger] cv.contains(x) implies (
                    #[trigger] cv.contains(y) <==> y < n && mutual(es, x, y)) by {
                        assert(mutual(es, sx, x));
                        assert(mutual(es, x, sx));
                        if cv.contains(y) {
                            lemma_mutual_chains(es, x, sx, y);
                        }
                        if y < n && mutual(es, x, y) {
                            lemma_mutual_chains(es, sx, x, y);
                        }
                    }
                    lemma_alone(cv, sx);
                    assert forall|x: int| 0 <= x < n implies #[trigger] assigned@[x] == (a0[x]
                        || cv.contains(x as u32)) by {}
                }
                if c.len() > 1 {
                    values::push(&mut comps, c);
                    proof {
                        let cs = comps.deep_view();
                        assert(c@ =~= cv);
                        assert(cs == c0.push(c.deep_view()));
                        assert(c.deep_view() =~= cv);
                        assert(cs.no_duplicates()) by {
                            assert forall|i: int| 0 <= i < c0.len() implies #[trigger] c0[i] != cv by {
                                if c0[i] == cv {
                                    assert(c0[i].contains(sx));
                                    assert(a0[sx as int]);
                                }
                            }
                        }
                        assert(component(v, cs[c0.len() as int]));
                        assert forall|i: int| 0 <= i < cs.len() implies component(
                            v,
                            #[trigger] cs[i],
                        ) by {
                            if i < c0.len() {
                                assert(component(v, c0[i]));
                            }
                        }
                        assert forall|i: int, x: u32|
                            0 <= i < cs.len() && #[trigger] cs[i].contains(x) implies assigned@[
                        x as int] by {
                            if i < c0.len() {
                                assert(component(v, c0[i]));
                                assert(c0[i].contains(x));
                                assert(a0[x as int]);
                                let q = choose|q: int| 0 <= q < c0[i].len() && c0[i][q] == x;
                                assert(c0[i][q] < n);
                            } else {
                                assert(cv.contains(x));
                            }
                        }
                    }
                }
                proof {
                    let cs = comps.deep_view();
                    assert forall|x: u32, y: u32|
                        x < n && y < n && assigned@[x as int] && x != y && #[trigger] mutual(
                            es,
                            x,
                            y,
                        ) implies covered(cs, x) by {
                        if a0[x as int] {
                            assert(covered(c0, x));
                            let i = choose|i: int|
                                0 <= i < c0.len() && (#[trigger] c0[i]).contains(x);
                            assert(cs[i].contains(x));
                        } else {
                            assert(cv.contains(x));
                            assert(cv.contains(y));
                            assert(cs[c0.len() as int].contains(x));
                        }
                    }
                    assert forall|i: int, x: u32|
                        0 <= i < cs.len() && #[trigger] cs[i].contains(x) implies assigned@[
                    x as int] by {
                        assert(component(v, cs[i]));
                        let q = choose|q: int| 0 <= q < cs[i].len() && cs[i][q] == x;
                        assert(cs[i][q] < n);
                        if i < c0.len() {
                            assert(c0[i].contains(x));
                        }
                    }
                    assert forall|i: int| k <= i < fin@.len() implies assigned@[
                    #[trigger] fin@[i] as int] by {
                        if i == k {
                            assert(cv.contains(sx));
                        } else {
                            assert(a0[fin@[i] as int]);
                        }
                    }
                }
            }
        }
        proof {
            let cs = comps.deep_view();
            assert forall|x: u32, y: u32|
                x < v.locks.len() && y < v.locks.len() && x != y && #[trigger] mutual(
                    v.order,
                    x,
                    y,
                ) implies covered(cs, x) by {
                assert(fin@.contains(x as usize));
                let i = choose|i: int| 0 <= i < fin@.len() && fin@[i] == x as usize;
                assert(assigned@[fin@[i] as int]);
            }
            lemma_sorted_cycles(v, cs);
        }
        sort::sort_by(comps, &larger_first, Ghost(larger()))
    }
}

} // verus!

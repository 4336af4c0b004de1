//! Directed graphs on numbers: what a node leads to.

use vstd::prelude::*;

verus! {

/// Each node of `p` but the last is followed by one that it points to.
pub open spec fn is_walk(rel: spec_fn(usize, usize) -> bool, p: Seq<usize>) -> bool {
    &&& p.len() >= 1
    &&& forall|i: int, j: int|
        0 <= i && j == i + 1 && j < p.len() ==> rel(#[trigger] p[i], #[trigger] p[j])
}

/// `p` is a walk from `x` to `y`.
pub open spec fn walks(
    rel: spec_fn(usize, usize) -> bool,
    p: Seq<usize>,
    x: usize,
    y: usize,
) -> bool {
    is_walk(rel, p) && p[0] == x && p.last() == y
}

/// Some walk goes from `x` to `y`.
pub open spec fn leads(rel: spec_fn(usize, usize) -> bool, x: usize, y: usize) -> bool {
    exists|p: Seq<usize>| walks(rel, p, x, y)
}

/// Some node of `from` leads to `y`.
pub open spec fn reached(rel: spec_fn(usize, usize) -> bool, from: Seq<usize>, y: usize) -> bool {
    exists|i: int| 0 <= i < from.len() && leads(rel, #[trigger] from[i], y)
}

/// Every node leads to itself.
pub proof fn lemma_leads_self(rel: spec_fn(usize, usize) -> bool, x: usize)
    ensures
        leads(rel, x, x),
{
    assert(walks(rel, seq![x], x, x));
}

/// What leads to a node leads to those that the node points to.
pub proof fn lemma_leads_step(rel: spec_fn(usize, usize) -> bool, x: usize, y: usize, z: usize)
    requires
        leads(rel, x, y),
        rel(y, z),
    ensures
        leads(rel, x, z),
{
    let p = choose|p: Seq<usize>| walks(rel, p, x, y);
    let q = p.push(z);
    assert forall|i: int, j: int| 0 <= i && j == i + 1 && j < q.len() implies rel(
        #[trigger] q[i],
        #[trigger] q[j],
    ) by {
        if j < p.len() {
            assert(rel(p[i], p[j]));
        } else {
            assert(q[i] == p.last());
        }
    }
    assert(walks(rel, q, x, z));
}

/// Leading chains.
pub proof fn law_leads_chains(rel: spec_fn(usize, usize) -> bool, x: usize, y: usize, z: usize)
    requires
        leads(rel, x, y),
        leads(rel, y, z),
    ensures
        leads(rel, x, z),
{
    let p = choose|p: Seq<usize>| walks(rel, p, y, z);
    lemma_chain(rel, x, y, p);
}

proof fn lemma_chain(rel: spec_fn(usize, usize) -> bool, x: usize, y: usize, p: Seq<usize>)
    requires
        leads(rel, x, y),
        is_walk(rel, p),
        p[0] == y,
    ensures
        leads(rel, x, p.last()),
    decreases p.len(),
{
    if p.len() > 1 {
        let q = p.drop_last();
        assert forall|i: int, j: int| 0 <= i && j == i + 1 && j < q.len() implies rel(
            #[trigger] q[i],
            #[trigger] q[j],
        ) by {
            assert(q[i] == p[i] && q[j] == p[j]);
        }
        lemma_chain(rel, x, y, q);
        assert(q.last() == p[p.len() - 2]);
        assert(rel(p[p.len() - 2], p[p.len() - 1]));
        lemma_leads_step(rel, x, q.last(), p.last());
    }
}

/// The lists hold exactly what each node points to, all of it below `adj.len()`.
pub open spec fn lists(rel: spec_fn(usize, usize) -> bool, adj: Seq<Seq<usize>>) -> bool {
    &&& forall|x: int, i: int|
        0 <= x < adj.len() && 0 <= i < adj[x].len() ==> rel(x as usize, #[trigger] adj[x][i])
            && adj[x][i] < adj.len()
    &&& forall|x: usize, y: usize|
        x < adj.len() && #[trigger] rel(x, y) ==> adj[x as int].contains(y)
}

/// The lists of a graph.
pub open spec fn list_views(adj: &Vec<Vec<usize>>) -> Seq<Seq<usize>> {
    Seq::new(adj@.len(), |i: int| adj@[i]@)
}

/// How many of the first `k` are unmarked.
pub open spec fn unmarked(m: Seq<bool>, k: int) -> nat
    decreases k,
{
    if k <= 0 {
        0
    } else {
        unmarked(m, k - 1) + if m[k - 1] {
            0nat
        } else {
            1
        }
    }
}

/// Marking a node leaves one unmarked node less.
pub proof fn lemma_unmarked(m: Seq<bool>, x: int, k: int)
    requires
        0 <= x < m.len(),
        0 <= k <= m.len(),
        !m[x],
    ensures
        unmarked(m.update(x, true), k) == unmarked(m, k) - if x < k {
            1int
        } else {
            0
        },
    decreases k,
{
    if k > 0 {
        lemma_unmarked(m, x, k - 1);
    }
}

proof fn lemma_closed(
    rel: spec_fn(usize, usize) -> bool,
    adj: Seq<Seq<usize>>,
    m: Seq<bool>,
    p: Seq<usize>,
)
    requires
        lists(rel, adj),
        m.len() == adj.len(),
        is_walk(rel, p),
        p[0] < m.len(),
        m[p[0] as int],
        forall|x: int, i: int|
            0 <= x < adj.len() && m[x] && 0 <= i < adj[x].len() ==> m[#[trigger] adj[x][i] as int],
    ensures
        p.last() < m.len() && m[p.last() as int],
    decreases p.len(),
{
    if p.len() > 1 {
        let q = p.drop_last();
        assert forall|i: int, j: int| 0 <= i && j == i + 1 && j < q.len() implies rel(
            #[trigger] q[i],
            #[trigger] q[j],
        ) by {
            assert(q[i] == p[i] && q[j] == p[j]);
        }
        lemma_closed(rel, adj, m, q);
        let x = q.last();
        assert(x == p[p.len() - 2]);
        assert(rel(p[p.len() - 2], p[p.len() - 1]));
        assert(adj[x as int].contains(p.last()));
        let i = choose|i: int| 0 <= i < adj[x as int].len() && adj[x as int][i] == p.last();
        assert(m[adj[x as int][i] as int]);
    }
}

/// Mark what the nodes of `from` lead to.
pub fn reachable(
    adj: &Vec<Vec<usize>>,
    from: &Vec<usize>,
    Ghost(rel): Ghost<spec_fn(usize, usize) -> bool>,
) -> (r: Vec<bool>)
    requires
        lists(rel, list_views(adj)),
        forall|i: int| 0 <= i < from@.len() ==> #[trigger] from@[i] < adj@.len(),
    ensures
        r@.len() == adj@.len(),
        forall|y: int| 0 <= y < r@.len() ==> #[trigger] r@[y] == reached(rel, from@, y as usize),
{
    let n = adj.len();
    let ghost av = list_views(adj);
    let mut marked: Vec<bool> = Vec::new();
    let mut i: usize = 0;
    while i < n
        invariant
            i <= n,
            marked@.len() == i,
            forall|y: int| 0 <= y < i ==> !#[trigger] marked@[y],
        decreases n - i,
    {
        marked.push(false);
        i += 1;
    }
    let mut work: Vec<usize> = Vec::new();
    let mut i: usize = 0;
    while i < from.len()
        invariant
            i <= from@.len(),
            n == adj@.len(),
            marked@.len() == n,
            forall|i: int| 0 <= i < from@.len() ==> #[trigger] from@[i] < n,
            forall|j: int| 0 <= j < i ==> marked@[#[trigger] from@[j] as int],
            forall|y: int| 0 <= y < n && #[trigger] marked@[y] ==> work@.contains(y as usize),
            forall|y: int|
                0 <= y < n && #[trigger] marked@[y] ==> reached(rel, from@, y as usize),
            forall|j: int| 0 <= j < work@.len() ==> #[trigger] work@[j] < n,
            forall|j: int| 0 <= j < work@.len() ==> marked@[#[trigger] work@[j] as int],
        decreases from@.len() - i,
    {
        let x = from[i];
        if !marked[x] {
            let ghost before = work@;
            marked.set(x, true);
            work.push(x);
            proof {
                assert(work@.last() == x);
                assert forall|y: int| 0 <= y < n && #[trigger] marked@[y] implies work@.contains(
                    y as usize,
                ) by {
                    if y != x {
                        assert(before.contains(y as usize));
                        let j = choose|j: int| 0 <= j < before.len() && before[j] == y as usize;
                        assert(work@[j] == y as usize);
                    }
                }
                lemma_leads_self(rel, x);
                assert(leads(rel, from@[i as int], x));
            }
        }
        i += 1;
    }
    while work.len() > 0
        invariant
            n == adj@.len(),
            av == list_views(adj),
            lists(rel, av),
            marked@.len() == n,
            forall|j: int| 0 <= j < from@.len() ==> (#[trigger] from@[j]) < n,
            forall|j: int| 0 <= j < from@.len() ==> marked@[#[trigger] from@[j] as int],
            forall|y: int|
                0 <= y < n && #[trigger] marked@[y] ==> reached(rel, from@, y as usize),
            forall|j: int| 0 <= j < work@.len() ==> #[trigger] work@[j] < n,
            forall|j: int| 0 <= j < work@.len() ==> marked@[#[trigger] work@[j] as int],
            forall|x: int, i: int|
                0 <= x < n && marked@[x] && !work@.contains(x as usize) && 0 <= i < av[x].len()
                    ==> marked@[#[trigger] av[x][i] as int],
        decreases unmarked(marked@, n as int), work@.len(),
    {
        let ghost m0 = marked@;
        let ghost w0 = work@;
        match work.pop() {
            None => {},
            Some(x) => {
                proof {
                    assert(w0.last() == x);
                    assert(m0[w0[w0.len() - 1] as int]);
                    assert(reached(rel, from@, x));
                }
                let row = &adj[x];
                let mut k: usize = 0;
                while k < row.len()
                    invariant
                        k <= row@.len(),
                        n == adj@.len(),
                        x < n,
                        av == list_views(adj),
                        row@ == av[x as int],
                        lists(rel, av),
                        marked@.len() == n,
                        m0.len() == n,
                        marked@[x as int],
                        reached(rel, from@, x),
                        forall|y: int| 0 <= y < n && m0[y] ==> #[trigger] marked@[y],
                        forall|y: int|
                            0 <= y < n && #[trigger] marked@[y] && !m0[y] ==> work@.contains(
                                y as usize,
                            ),
                        forall|y: int|
                            0 <= y < n && #[trigger] marked@[y] ==> reached(
                                rel,
                                from@,
                                y as usize,
                            ),
                        forall|j: int| 0 <= j < work@.len() ==> #[trigger] work@[j] < n,
                        forall|j: int| 0 <= j < work@.len() ==> marked@[#[trigger] work@[j] as int],
                        w0.len() >= 1,
                        work@.len() >= w0.len() - 1,
                        work@.take(w0.len() - 1) == w0.drop_last(),
                        forall|j: int| 0 <= j < k ==> marked@[#[trigger] row@[j] as int],
                        unmarked(marked@, n as int) < unmarked(m0, n as int) || marked@ == m0
                            && work@ == w0.drop_last(),
                        unmarked(marked@, n as int) <= unmarked(m0, n as int),
                    decreases row@.len() - k,
                {
                    let y = row[k];
                    proof {
                        assert(av[x as int][k as int] == y);
                        assert(rel(x, y));
                    }
                    if !marked[y] {
                        let ghost m1 = marked@;
                        let ghost w1 = work@;
                        marked.set(y, true);
                        work.push(y);
                        proof {
                            lemma_unmarked(m1, y as int, n as int);
                            assert(work@.take(w0.len() - 1) =~= w1.take(w0.len() - 1));
                            assert(work@.last() == y);
                            assert forall|z: int|
                                0 <= z < n && #[trigger] marked@[z] && !m0[z] implies work@.contains(
                                z as usize,
                            ) by {
                                if z != y {
                                    assert(m1[z]);
                                    assert(w1.contains(z as usize));
                                    let j = choose|j: int|
                                        0 <= j < w1.len() && w1[j] == z as usize;
                                    assert(work@[j] == z as usize);
                                }
                            }
                            let s = choose|s: int|
                                0 <= s < from@.len() && leads(rel, #[trigger] from@[s], x);
                            lemma_leads_step(rel, from@[s], x, y);
                            assert(leads(rel, from@[s], y));
                        }
                    }
                    k += 1;
                }
                proof {
                    assert forall|z: int, i: int|
                        0 <= z < n && marked@[z] && !work@.contains(z as usize) && 0 <= i
                            < av[z].len() implies marked@[#[trigger] av[z][i] as int] by {
                        if z == x {
                            assert(row@[i] == av[x as int][i]);
                        } else {
                            assert(m0[z]);
                            if w0.contains(z as usize) {
                                let j = choose|j: int| 0 <= j < w0.len() && w0[j] == z as usize;
                                assert(j < w0.len() - 1);
                                assert(work@.take(w0.len() - 1)[j] == z as usize);
                                assert(work@[j] == z as usize);
                            }
                            assert(m0[av[z][i] as int]);
                        }
                    }
                }
            },
        }
    }
    proof {
        assert forall|y: int| 0 <= y < n implies #[trigger] marked@[y] == reached(
            rel,
            from@,
            y as usize,
        ) by {
            if reached(rel, from@, y as usize) {
                let s = choose|s: int|
                    0 <= s < from@.len() && leads(rel, #[trigger] from@[s], y as usize);
                let (a, b) = (from@[s], y as usize);
                let p = choose|p: Seq<usize>| walks(rel, p, a, b);
                assert forall|x: int, i: int|
                    0 <= x < av.len() && marked@[x] && 0 <= i < av[x].len() implies marked@[
                #[trigger] av[x][i] as int] by {
                    assert(!work@.contains(x as usize));
                }
                lemma_closed(rel, av, marked@, p);
            }
        }
    }
    marked
}

} // verus!

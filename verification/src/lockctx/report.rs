//! The answer as text.

use crate::dex::ctx::cycles;
use crate::dex::ctx::index;
use crate::dex::ctx::index::{Hop, Index, IndexV, OrderEdge};
use crate::dex::ctx::query as ctx_query;
use crate::lockctx::ask;
use crate::lockctx::ask::Query;
use crate::sort;
use crate::text;
use vstd::prelude::*;

verus! {

/// What `std::fmt::Debug` of `str` makes of `s`: the string in quotes, escaped.
pub uninterp spec fn debug_text(s: Seq<char>) -> Seq<char>;

/// The `{:?}` of `std::format`: the string in quotes, escaped.
#[verifier::external_body]
pub(crate) fn quoted(s: &str) -> (r: String)
    ensures
        r@ == debug_text(s@),
{
    format!("{s:?}")
}

/// How many entries lie within `depth` frames, from the `k`th on.
pub open spec fn within(list: Seq<(u32, u8)>, depth: u8, k: int) -> nat
    decreases list.len() - k,
{
    if k >= list.len() {
        0
    } else {
        within(list, depth, k + 1) + if list[k].1 <= depth {
            1nat
        } else {
            0
        }
    }
}

/// What a frame of a path does, in brackets.
pub open spec fn note(acc: Seq<char>, v: IndexV, h: Hop) -> Seq<char> {
    match (h.acquire, h.call) {
        (None, None) => acc,
        (Some(a), None) => acc + "  (acquires at "@ + ask::loc_text(v, h.method, a) + ")"@,
        (None, Some(c)) => acc + "  (calls at "@ + ask::loc_text(v, h.method, c) + ")"@,
        (Some(a), Some(c)) => acc + "  (acquires at "@ + ask::loc_text(v, h.method, a)
            + "; calls at "@ + ask::loc_text(v, h.method, c) + ")"@,
    }
}

/// The frames of a path from the `i`th on, a line each.
pub open spec fn path_lines(acc: Seq<char>, v: IndexV, path: Seq<Hop>, i: int) -> Seq<char>
    decreases path.len() - i,
{
    if i >= path.len() {
        acc
    } else {
        let h = path[i];
        let head = acc + (if i == 0 {
            "      via "@
        } else {
            "          -> "@
        }) + v.methods[h.method as int].key;
        path_lines(note(head, v, h) + "\n"@, v, path, i + 1)
    }
}

/// A witness, where there is one.
pub open spec fn witness_lines(acc: Seq<char>, v: IndexV, m: u32, l: u32) -> Seq<char> {
    match v.witness(m, l) {
        Some(p) => path_lines(acc, v, p, 0),
        None => acc,
    }
}

/// The locks that the method holds at the line, from the `k`th on.
pub open spec fn held_lines(
    acc: Seq<char>,
    v: IndexV,
    m: u32,
    line: u32,
    held: Seq<u32>,
    k: int,
) -> Seq<char>
    decreases held.len() - k,
{
    if k >= held.len() {
        acc
    } else {
        let l = held[k];
        let at = match ctx_query::taken_at(v.methods[m as int].spans, l, line, 0) {
            Some(a) => ask::loc_text(v, m, a),
            None => ""@,
        };
        held_lines(
            acc + "    "@ + v.locks[l as int] + "   (acquired at "@ + at + ")\n"@,
            v,
            m,
            line,
            held,
            k + 1,
        )
    }
}

/// The locks that may be held on entry within `depth` frames, from the `k`th on.
pub open spec fn may_lines(
    acc: Seq<char>,
    v: IndexV,
    m: u32,
    may: Seq<(u32, u8)>,
    depth: u8,
    k: int,
) -> Seq<char>
    decreases may.len() - k,
{
    if k >= may.len() || may[k].1 > depth {
        acc
    } else {
        let (l, d) = may[k];
        may_lines(
            witness_lines(
                acc + "    [d="@ + text::dec(d as nat) + "] "@ + v.locks[l as int] + "\n"@,
                v,
                m,
                l,
            ),
            v,
            m,
            may,
            depth,
            k + 1,
        )
    }
}

/// The locks that the method holds at the line.
pub open spec fn held_part(acc: Seq<char>, v: IndexV, m: u32, line: u32, held: Seq<u32>) -> Seq<
    char,
> {
    if held.len() == 0 {
        acc + "  held by this method here: (none)\n"@
    } else {
        held_lines(acc + "  held by this method here:\n"@, v, m, line, held, 0)
    }
}

/// The locks that may be held on entry to the method.
pub open spec fn may_part(acc: Seq<char>, v: IndexV, m: u32, depth: u8) -> Seq<char> {
    let may = sort::sorted(v.row(m), ctx_query::near_le());
    if may.len() == 0 {
        acc + "  may be held on entry (from callers): (none)\n"@
    } else {
        may_lines(
            acc + "  may be held on entry (from callers): "@ + text::dec(within(may, depth, 0))
                + " within "@ + text::dec(depth as nat) + " frame(s), "@ + text::dec(may.len())
                + " total\n"@,
            v,
            m,
            may,
            depth,
            0,
        )
    }
}

/// What is known of a line of a method.
pub open spec fn point(
    acc: Seq<char>,
    v: IndexV,
    m: u32,
    line: u32,
    depth: u8,
    held: Seq<u32>,
) -> Seq<char> {
    may_part(
        held_part(
            acc + ask::loc_text(v, m, line) + "  in  "@ + v.methods[m as int].key + "\n"@,
            v,
            m,
            line,
            held,
        ),
        v,
        m,
        depth,
    ) + "\n"@
}

/// The points of the methods from the `k`th up to the `n`th, at the line that `at` gives
/// for each; `held` are the locks that each holds there.
pub open spec fn points_from(
    acc: Seq<char>,
    v: IndexV,
    ms: Seq<u32>,
    at: spec_fn(u32) -> u32,
    depth: u8,
    held: Seq<Seq<u32>>,
    k: int,
    n: int,
) -> Seq<char>
    decreases n - k,
{
    if k >= n {
        acc
    } else {
        points_from(
            point(acc, v, ms[k], at(ms[k]), depth, held[k]),
            v,
            ms,
            at,
            depth,
            held,
            k + 1,
            n,
        )
    }
}

/// The least of two.
pub open spec fn least(a: int, b: int) -> int {
    if a < b {
        a
    } else {
        b
    }
}

/// The sites from the `k`th up to the `n`th.
pub open spec fn site_lines(
    acc: Seq<char>,
    v: IndexV,
    sites: Seq<(u32, u32)>,
    k: int,
    n: int,
) -> Seq<char>
    decreases n - k,
{
    if k >= n {
        acc
    } else {
        let (m, line) = sites[k];
        site_lines(
            acc + "    "@ + ask::loc_text(v, m, line) + "  "@ + v.methods[m as int].key + "\n"@,
            v,
            sites,
            k + 1,
            n,
        )
    }
}

/// The methods on whose entry the lock may be held, from the `k`th up to the `n`th.
pub open spec fn holder_lines(
    acc: Seq<char>,
    v: IndexV,
    hs: Seq<(u32, u8)>,
    k: int,
    n: int,
) -> Seq<char>
    decreases n - k,
{
    if k >= n {
        acc
    } else {
        let (m, d) = hs[k];
        holder_lines(
            acc + "    [d="@ + text::dec(d as nat) + "] "@ + v.methods[m as int].key + "\n"@,
            v,
            hs,
            k + 1,
            n,
        )
    }
}

/// The entries within `depth` frames, from the `k`th on, behind `acc`.
pub open spec fn near_from(
    list: Seq<(u32, u8)>,
    depth: u8,
    k: int,
    acc: Seq<(u32, u8)>,
) -> Seq<(u32, u8)>
    decreases list.len() - k,
{
    if k >= list.len() {
        acc
    } else {
        near_from(
            list,
            depth,
            k + 1,
            if list[k].1 <= depth {
                acc.push(list[k])
            } else {
                acc
            },
        )
    }
}

/// The entries within `depth` frames.
pub open spec fn near(list: Seq<(u32, u8)>, depth: u8) -> Seq<(u32, u8)> {
    near_from(list, depth, 0, Seq::empty())
}

/// How many more there are than are shown.
pub open spec fn rest_line(acc: Seq<char>, len: int, n: int) -> Seq<char> {
    if len > n {
        acc + "    ... "@ + text::dec((len - n) as nat) + " more\n"@
    } else {
        acc
    }
}

/// The nearer first, then the more frequent.
pub open spec fn edge_le() -> spec_fn(OrderEdge, OrderEdge) -> bool {
    |a: OrderEdge, b: OrderEdge| a.dist < b.dist || a.dist == b.dist && a.count >= b.count
}

/// The edges from the `k`th up to the `n`th, with the lock at their other end.
pub open spec fn edge_lines(
    acc: Seq<char>,
    v: IndexV,
    es: Seq<OrderEdge>,
    out: bool,
    k: int,
    n: int,
) -> Seq<char>
    decreases n - k,
{
    if k >= n {
        acc
    } else {
        let e = es[k];
        let head = if out {
            acc + "    -> "@ + v.locks[e.to as int]
        } else {
            acc + "    <- "@ + v.locks[e.from as int]
        };
        edge_lines(
            head + "   ("@ + text::dec(e.count as nat) + "x, d="@ + text::dec(e.dist as nat)
                + ", e.g. "@ + ask::loc_text(v, e.method, e.line) + ")\n"@,
            v,
            es,
            out,
            k + 1,
            n,
        )
    }
}

/// The locks acquired while this one is held, or held while it is acquired.
pub open spec fn edge_part(acc: Seq<char>, v: IndexV, es: Seq<OrderEdge>, out: bool) -> Seq<char> {
    let by = sort::sorted(es, edge_le());
    if by.len() == 0 {
        acc
    } else {
        edge_lines(
            acc + (if out {
                "  held while acquiring ("@
            } else {
                "  acquired while holding ("@
            }) + text::dec(by.len()) + "):\n"@,
            v,
            by,
            out,
            0,
            least(15, by.len() as int),
        )
    }
}

/// What is known of a lock.
pub open spec fn lock_part(
    acc: Seq<char>,
    v: IndexV,
    l: u32,
    depth: u8,
    sites: Seq<(u32, u32)>,
) -> Seq<char> {
    let a = site_lines(
        acc + v.locks[l as int] + "\n"@ + "  acquired at "@ + text::dec(sites.len())
            + " site(s):\n"@,
        v,
        sites,
        0,
        least(15, sites.len() as int),
    );
    let hs = v.holders(l);
    let shown = near(hs, depth);
    let b = holder_lines(
        rest_line(a, sites.len() as int, 15) + "  may be held on entry to "@ + text::dec(
            shown.len(),
        ) + " method(s) within "@ + text::dec(depth as nat) + " frame(s), "@ + text::dec(hs.len())
            + " total\n"@,
        v,
        shown,
        0,
        least(10, shown.len() as int),
    );
    let c = edge_part(
        rest_line(b, shown.len() as int, 10),
        v,
        v.order.filter(ctx_query::leaves(l)),
        true,
    );
    edge_part(c, v, v.order.filter(ctx_query::arrives(l)), false) + "\n"@
}

/// The locks from the `k`th up to the `n`th; `sites` are the places of each.
pub open spec fn locks_from(
    acc: Seq<char>,
    v: IndexV,
    ls: Seq<u32>,
    depth: u8,
    sites: Seq<Seq<(u32, u32)>>,
    k: int,
    n: int,
) -> Seq<char>
    decreases n - k,
{
    if k >= n {
        acc
    } else {
        locks_from(
            lock_part(acc, v, ls[k], depth, sites[k]),
            v,
            ls,
            depth,
            sites,
            k + 1,
            n,
        )
    }
}

/// How many more matches there are than are shown.
pub open spec fn narrow_line(acc: Seq<char>, len: int, n: int) -> Seq<char> {
    if len > n {
        acc + "... "@ + text::dec((len - n) as nat) + " more matches; narrow the query\n"@
    } else {
        acc
    }
}

/// How many pairs have no common outer lock, from the `k`th on.
pub open spec fn ungated(inv: Seq<(OrderEdge, OrderEdge, Option<u32>)>, k: int) -> nat
    decreases inv.len() - k,
{
    if k >= inv.len() {
        0
    } else {
        ungated(inv, k + 1) + if inv[k].2 is None {
            1nat
        } else {
            0
        }
    }
}

/// One order of a pair, with its site.
pub open spec fn order_line(acc: Seq<char>, v: IndexV, e: OrderEdge) -> Seq<char> {
    acc + "    "@ + ask::short_name(v.locks[e.from as int]) + " -> "@ + ask::short_name(
        v.locks[e.to as int],
    ) + "   ("@ + text::dec(e.count as nat) + "x, d="@ + text::dec(e.dist as nat) + ", e.g. "@
        + ask::loc_text(v, e.method, e.line) + " in "@ + v.methods[e.method as int].key + ")\n"@
}

/// The pairs without a common outer lock from the `k`th on, as long as fewer than 40 are
/// shown.
pub open spec fn open_pairs(
    acc: Seq<char>,
    v: IndexV,
    inv: Seq<(OrderEdge, OrderEdge, Option<u32>)>,
    k: int,
    shown: int,
) -> Seq<char>
    decreases inv.len() - k,
{
    if k >= inv.len() || shown >= 40 {
        acc
    } else if inv[k].2 is None {
        let (a, b, _) = inv[k];
        let head = acc + "\n  "@ + v.locks[a.from as int] + "  <->  "@ + v.locks[a.to as int]
            + "\n"@;
        open_pairs(order_line(order_line(head, v, a), v, b), v, inv, k + 1, shown + 1)
    } else {
        open_pairs(acc, v, inv, k + 1, shown)
    }
}

/// The pairs with a common outer lock from the `k`th on, as long as fewer than 30 are
/// shown.
pub open spec fn gated_pairs(
    acc: Seq<char>,
    v: IndexV,
    inv: Seq<(OrderEdge, OrderEdge, Option<u32>)>,
    k: int,
    shown: int,
) -> Seq<char>
    decreases inv.len() - k,
{
    if k >= inv.len() || shown >= 30 {
        acc
    } else {
        match inv[k].2 {
            Some(g) => {
                let (a, b, _) = inv[k];
                gated_pairs(
                    acc + "  "@ + ask::short_name(v.locks[a.from as int]) + "  <->  "@
                        + ask::short_name(v.locks[a.to as int]) + "   under "@ + ask::short_name(
                        v.locks[g as int],
                    ) + "   ("@ + text::dec(a.count as nat) + "x / "@ + text::dec(b.count as nat)
                        + "x)\n"@,
                    v,
                    inv,
                    k + 1,
                    shown + 1,
                )
            },
            None => gated_pairs(acc, v, inv, k + 1, shown),
        }
    }
}

/// The lock pairs acquired in both orders.
pub open spec fn inversion_part(acc: Seq<char>, v: IndexV) -> Seq<char> {
    let inv = v.inversions();
    let un = ungated(inv, 0) as int;
    let a = open_pairs(
        acc + text::dec(inv.len()) + " lock pair(s) acquired in both orders: "@ + text::dec(
            un as nat,
        ) + " with no common outer lock, "@ + text::dec((inv.len() - un) as nat)
            + " gated (both orders taken under one lock)\n"@,
        v,
        inv,
        0,
        0,
    );
    let b = if un > 40 {
        a + "\n  ... "@ + text::dec((un - 40) as nat) + " more ungated\n"@
    } else {
        a
    };
    if inv.len() > un {
        let c = gated_pairs(
            b
                + "\ngated (both orders occur under a common outer lock, so they serialize):\n"@,
            v,
            inv,
            0,
            0,
        );
        if inv.len() - un > 30 {
            c + "  ... "@ + text::dec((inv.len() - un - 30) as nat) + " more gated\n"@
        } else {
            c
        }
    } else {
        b
    }
}

/// The names of a group from the `k`th up to the `n`th.
pub open spec fn group_names(acc: Seq<char>, v: IndexV, c: Seq<u32>, k: int, n: int) -> Seq<char>
    decreases n - k,
{
    if k >= n {
        acc
    } else {
        group_names(
            (if k == 0 {
                acc
            } else {
                acc + ", "@
            }) + ask::short_name(v.locks[c[k] as int]),
            v,
            c,
            k + 1,
            n,
        )
    }
}

/// The strongly connected groups from the `k`th on.
pub open spec fn group_lines(acc: Seq<char>, v: IndexV, cyc: Seq<Seq<u32>>, k: int) -> Seq<char>
    decreases cyc.len() - k,
{
    if k >= cyc.len() {
        acc
    } else {
        let c = cyc[k];
        let a = group_names(
            acc + "  ["@ + text::dec((k + 1) as nat) + "] "@ + text::dec(c.len()) + " locks: "@,
            v,
            c,
            0,
            least(6, c.len() as int),
        );
        let b = if c.len() > 6 {
            a + ", +"@ + text::dec((c.len() - 6) as nat) + " more"@
        } else {
            a
        };
        group_lines(b + "\n"@, v, cyc, k + 1)
    }
}

/// Deadlock candidates.
pub open spec fn cycles_part(v: IndexV, cyc: Seq<Seq<u32>>) -> Seq<char> {
    group_lines(
        inversion_part(Seq::empty(), v) + "\n"@ + text::dec(cyc.len())
            + " strongly connected group(s) in the lock-order graph:\n"@,
        v,
        cyc,
        0,
    )
}

/// The binder calls from the `k`th up to the `n`th; `last` is the distance of the one
/// before.
pub open spec fn binder_lines(
    acc: Seq<char>,
    v: IndexV,
    sites: Seq<(u32, u32, u32, u8)>,
    last: u8,
    k: int,
    n: int,
) -> Seq<char>
    decreases n - k,
{
    if k >= n {
        acc
    } else {
        let (call, t, l, d) = sites[k];
        let c = v.calls[call as int];
        let head = if d != last {
            acc + "\n-- d="@ + text::dec(d as nat) + " --\n"@
        } else {
            acc
        };
        let line = head + "  "@ + ask::loc_text(v, c.caller, c.line) + "  "@
            + v.methods[c.caller as int].key + "  ->  "@ + v.methods[t as int].key + "   holding "@
            + v.locks[l as int] + "\n"@;
        binder_lines(
            if d > 0 {
                witness_lines(line, v, c.caller, l)
            } else {
                line
            },
            v,
            sites,
            d,
            k + 1,
            n,
        )
    }
}

/// Binder calls made while a lock is held.
pub open spec fn binder_part(v: IndexV, depth: u8) -> Seq<char> {
    let sites = v.binder_sites(depth);
    let a = binder_lines(
        Seq::<char>::empty() + text::dec(sites.len()) + " binder call(s) with a lock held within "@
            + text::dec(depth as nat) + " frame(s) (nearest first):\n"@,
        v,
        sites,
        0xff,
        0,
        least(300, sites.len() as int),
    );
    if sites.len() > 300 {
        a + "\n  ... "@ + text::dec((sites.len() - 300) as nat)
            + " more; lower --depth to narrow\n"@
    } else {
        a
    }
}

/// Each method's list is that of the locks it holds at its line.
pub open spec fn held_lists(
    v: IndexV,
    ms: Seq<u32>,
    at: spec_fn(u32) -> u32,
    held: Seq<Seq<u32>>,
    n: int,
) -> bool {
    held.len() == n && forall|k: int|
        0 <= k < n ==> ask::held_list(v, ms[k], at(ms[k]), #[trigger] held[k])
}

/// Each lock's list is that of the places at which it is taken.
pub open spec fn site_lists(v: IndexV, ls: Seq<u32>, sites: Seq<Seq<(u32, u32)>>, n: int) -> bool {
    sites.len() == n && forall|k: int|
        0 <= k < n ==> ask::site_list(v, ls[k], #[trigger] sites[k])
}

/// The line that was asked for.
pub open spec fn asked(line: u32) -> spec_fn(u32) -> u32 {
    |m: u32| line
}

/// The first line of a method.
pub open spec fn first_line(v: IndexV) -> spec_fn(u32) -> u32 {
    |m: u32| v.methods[m as int].line_lo
}

/// `r` is the answer to the question, as text.
pub open spec fn answers(v: IndexV, q: Query, depth: u8, r: Seq<char>) -> bool {
    match q {
        Query::At { file, line } => {
            let ms = v.located(file@, line);
            exists|held: Seq<Seq<u32>>| #[trigger]
                held_lists(v, ms, asked(line), held, ms.len() as int) && r == points_from(
                    if ms.len() == 0 {
                        Seq::<char>::empty() + "no method covers "@ + file@ + ":"@ + text::dec(
                            line as nat,
                        ) + "\n"@
                    } else {
                        Seq::empty()
                    },
                    v,
                    ms,
                    asked(line),
                    depth,
                    held,
                    0,
                    ms.len() as int,
                )
        },
        Query::Method(needle) => {
            let ms = ctx_query::keyed(v.methods, needle@, 0, Seq::empty());
            let n = least(20, ms.len() as int);
            exists|held: Seq<Seq<u32>>| #[trigger]
                held_lists(v, ms, first_line(v), held, n) && r == narrow_line(
                    points_from(
                        if ms.len() == 0 {
                            Seq::<char>::empty() + "no method matches "@ + debug_text(needle@)
                                + "\n"@
                        } else {
                            Seq::empty()
                        },
                        v,
                        ms,
                        first_line(v),
                        depth,
                        held,
                        0,
                        n,
                    ),
                    ms.len() as int,
                    20,
                )
        },
        Query::Lock(needle) => {
            let ls = ctx_query::named(v.locks, needle@, 0, Seq::empty());
            let n = least(10, ls.len() as int);
            exists|sites: Seq<Seq<(u32, u32)>>| #[trigger]
                site_lists(v, ls, sites, n) && r == narrow_line(
                    locks_from(
                        if ls.len() == 0 {
                            Seq::<char>::empty() + "no lock matches "@ + debug_text(needle@)
                                + "\n"@
                        } else {
                            Seq::empty()
                        },
                        v,
                        ls,
                        depth,
                        sites,
                        0,
                        n,
                    ),
                    ls.len() as int,
                    10,
                )
        },
        Query::Cycles => exists|cyc: Seq<Seq<u32>>| #[trigger]
            cycles::are_cycles(v, cyc) && r == cycles_part(v, cyc),
        Query::Binder => r == binder_part(v, depth),
    }
}

fn put_dec(out: &mut String, n: usize)
    ensures
        final(out)@ == old(out)@ + text::dec(n as nat),
{
    text::push_dec(out, n as u64);
}

fn put_loc(out: &mut String, idx: &Index, m: u32, line: u32)
    requires
        idx.deep_view().wf(),
        m < idx.deep_view().methods.len(),
    ensures
        final(out)@ == old(out)@ + ask::loc_text(idx.deep_view(), m, line),
{
    let l = ask::loc(idx, m, line);
    out.append(l.as_str());
}

fn put_note(out: &mut String, idx: &Index, h: Hop)
    requires
        idx.deep_view().wf(),
        h.method < idx.deep_view().methods.len(),
    ensures
        final(out)@ == note(old(out)@, idx.deep_view(), h),
{
    match (h.acquire, h.call) {
        (None, None) => {},
        (Some(a), None) => {
            out.append("  (acquires at ");
            put_loc(out, idx, h.method, a);
            out.append(")");
        },
        (None, Some(c)) => {
            out.append("  (calls at ");
            put_loc(out, idx, h.method, c);
            out.append(")");
        },
        (Some(a), Some(c)) => {
            out.append("  (acquires at ");
            put_loc(out, idx, h.method, a);
            out.append("; calls at ");
            put_loc(out, idx, h.method, c);
            out.append(")");
        },
    }
}

fn write_path(idx: &Index, path: &Vec<Hop>, out: &mut String)
    requires
        idx.deep_view().wf(),
        forall|i: int|
            0 <= i < path@.len() ==> (#[trigger] path@[i]).method < idx.deep_view().methods.len(),
    ensures
        final(out)@ == path_lines(old(out)@, idx.deep_view(), path@, 0),
{
    let ghost v = idx.deep_view();
    let ghost begin = out@;
    let mut i: usize = 0;
    while i < path.len()
        invariant
            i <= path@.len(),
            v == idx.deep_view(),
            v.wf(),
            forall|i: int|
                0 <= i < path@.len() ==> (#[trigger] path@[i]).method < v.methods.len(),
            path_lines(begin, v, path@, 0) == path_lines(out@, v, path@, i as int),
        decreases path@.len() - i,
    {
        let h = path[i];
        if i == 0 {
            out.append("      via ");
        } else {
            out.append("          -> ");
        }
        out.append(ask::key_of(idx, h.method));
        put_note(out, idx, h);
        out.append("\n");
        i += 1;
    }
}

fn write_witness(idx: &Index, m: u32, l: u32, out: &mut String)
    requires
        idx.deep_view().wf(),
        m < idx.deep_view().methods.len(),
    ensures
        final(out)@ == witness_lines(old(out)@, idx.deep_view(), m, l),
{
    match idx.witness(m, l) {
        Some(p) => {
            proof {
                assert(p.deep_view() =~= p@);
            }
            write_path(idx, &p, out);
        },
        None => {},
    }
}

fn count_within(list: &Vec<(u32, u8)>, depth: u8) -> (r: usize)
    ensures
        r == within(list@, depth, 0),
{
    let len = list.len();
    let mut n: usize = 0;
    let mut k = len;
    while k > 0
        invariant
            k <= len,
            len == list@.len(),
            n == within(list@, depth, k as int),
            n <= len - k,
        decreases k,
    {
        k -= 1;
        if list[k].1 <= depth {
            n += 1;
        }
    }
    n
}

fn report_held(idx: &Index, m: u32, line: u32, held: &Vec<u32>, out: &mut String)
    requires
        idx.deep_view().wf(),
        m < idx.deep_view().methods.len(),
        index::all_below(held@, idx.deep_view().locks.len() as int),
    ensures
        final(out)@ == held_part(old(out)@, idx.deep_view(), m, line, held@),
{
    let ghost v = idx.deep_view();
    if held.len() == 0 {
        out.append("  held by this method here: (none)\n");
        return ;
    }
    out.append("  held by this method here:\n");
    let ghost begin = out@;
    let mut k: usize = 0;
    while k < held.len()
        invariant
            k <= held@.len(),
            v == idx.deep_view(),
            v.wf(),
            m < v.methods.len(),
            index::all_below(held@, v.locks.len() as int),
            held_lines(begin, v, m, line, held@, 0) == held_lines(
                out@,
                v,
                m,
                line,
                held@,
                k as int,
            ),
        decreases held@.len() - k,
    {
        let l = held[k];
        proof {
            assert(held@[k as int] < v.locks.len());
        }
        out.append("    ");
        out.append(ask::lock_of(idx, l));
        out.append("   (acquired at ");
        match idx.taken(m, l, line) {
            Some(a) => {
                put_loc(out, idx, m, a);
            },
            None => {
                out.append("");
            },
        }
        out.append(")\n");
        k += 1;
    }
}

fn report_may(idx: &Index, m: u32, depth: u8, out: &mut String)
    requires
        idx.deep_view().wf(),
        m < idx.deep_view().methods.len(),
    ensures
        final(out)@ == may_part(old(out)@, idx.deep_view(), m, depth),
{
    let ghost v = idx.deep_view();
    let may = idx.may_held(m);
    if may.len() == 0 {
        out.append("  may be held on entry (from callers): (none)\n");
        return ;
    }
    out.append("  may be held on entry (from callers): ");
    put_dec(out, count_within(&may, depth));
    out.append(" within ");
    put_dec(out, depth as usize);
    out.append(" frame(s), ");
    put_dec(out, may.len());
    out.append(" total\n");
    let ghost begin = out@;
    let mut k: usize = 0;
    while k < may.len() && may[k].1 <= depth
        invariant
            k <= may@.len(),
            v == idx.deep_view(),
            v.wf(),
            m < v.methods.len(),
            forall|i: int| 0 <= i < may@.len() ==> (#[trigger] may@[i]).0 < v.locks.len(),
            may_lines(begin, v, m, may@, depth, 0) == may_lines(
                out@,
                v,
                m,
                may@,
                depth,
                k as int,
            ),
        decreases may@.len() - k,
    {
        let (l, d) = may[k];
        proof {
            assert(may@[k as int].0 < v.locks.len());
        }
        out.append("    [d=");
        put_dec(out, d as usize);
        out.append("] ");
        out.append(ask::lock_of(idx, l));
        out.append("\n");
        write_witness(idx, m, l, out);
        k += 1;
    }
}

fn report_point(idx: &Index, m: u32, line: u32, depth: u8, held: &Vec<u32>, out: &mut String)
    requires
        idx.deep_view().wf(),
        m < idx.deep_view().methods.len(),
        index::all_below(held@, idx.deep_view().locks.len() as int),
    ensures
        final(out)@ == point(old(out)@, idx.deep_view(), m, line, depth, held@),
{
    put_loc(out, idx, m, line);
    out.append("  in  ");
    out.append(ask::key_of(idx, m));
    out.append("\n");
    report_held(idx, m, line, held, out);
    report_may(idx, m, depth, out);
    out.append("\n");
}

/// Report the first `n` methods, at `line` or, without one, at their first lines.
fn report_points(
    idx: &Index,
    ms: &Vec<u32>,
    n: usize,
    line: Option<u32>,
    depth: u8,
    out: &mut String,
    Ghost(at): Ghost<spec_fn(u32) -> u32>,
) -> (held: Ghost<Seq<Seq<u32>>>)
    requires
        idx.deep_view().wf(),
        n <= ms@.len(),
        index::all_below(ms@, idx.deep_view().methods.len() as int),
        at == match line {
            Some(l) => asked(l),
            None => first_line(idx.deep_view()),
        },
    ensures
        held_lists(idx.deep_view(), ms@, at, held@, n as int),
        final(out)@ == points_from(
            old(out)@,
            idx.deep_view(),
            ms@,
            at,
            depth,
            held@,
            0,
            n as int,
        ),
{
    let ghost v = idx.deep_view();
    let ghost begin = out@;
    let ghost mut held: Seq<Seq<u32>> = Seq::empty();
    let mut k: usize = 0;
    while k < n
        invariant
            k <= n,
            n <= ms@.len(),
            v == idx.deep_view(),
            v.wf(),
            index::all_below(ms@, v.methods.len() as int),
            at == match line {
                Some(l) => asked(l),
                None => first_line(v),
            },
            held_lists(v, ms@, at, held, k as int),
            out@ == points_from(begin, v, ms@, at, depth, held, 0, k as int),
        decreases n - k,
    {
        let m = ms[k];
        proof {
            assert(ms@[k as int] < v.methods.len());
            assert(v.methods[m as int] == idx.methods@[m as int].deep_view());
        }
        let l = match line {
            Some(l) => l,
            None => idx.methods[m as usize].line_lo,
        };
        let hs = ask::held_at(idx, m, l);
        let ghost old_held = held;
        report_point(idx, m, l, depth, &hs, out);
        proof {
            held = held.push(hs@);
            lemma_points_step(begin, v, ms@, at, depth, old_held, hs@, k as int);
            assert forall|i: int| 0 <= i < k + 1 implies ask::held_list(
                v,
                ms@[i],
                at(ms@[i]),
                #[trigger] held[i],
            ) by {
                if i < k {
                    assert(held[i] == old_held[i]);
                }
            }
        }
        k += 1;
    }
    Ghost(held)
}

proof fn lemma_points_step(
    acc: Seq<char>,
    v: IndexV,
    ms: Seq<u32>,
    at: spec_fn(u32) -> u32,
    depth: u8,
    held: Seq<Seq<u32>>,
    last: Seq<u32>,
    n: int,
)
    requires
        held.len() == n,
        0 <= n,
    ensures
        points_from(acc, v, ms, at, depth, held.push(last), 0, n + 1) == point(
            points_from(acc, v, ms, at, depth, held, 0, n),
            v,
            ms[n],
            at(ms[n]),
            depth,
            last,
        ),
{
    lemma_points_from(acc, v, ms, at, depth, held, last, 0, n);
}

proof fn lemma_points_from(
    acc: Seq<char>,
    v: IndexV,
    ms: Seq<u32>,
    at: spec_fn(u32) -> u32,
    depth: u8,
    held: Seq<Seq<u32>>,
    last: Seq<u32>,
    k: int,
    n: int,
)
    requires
        held.len() == n,
        0 <= k <= n,
    ensures
        points_from(acc, v, ms, at, depth, held.push(last), k, n + 1) == point(
            points_from(acc, v, ms, at, depth, held, k, n),
            v,
            ms[n],
            at(ms[n]),
            depth,
            last,
        ),
    decreases n - k,
{
    let more = held.push(last);
    if k < n {
        let next = point(acc, v, ms[k], at(ms[k]), depth, held[k]);
        assert(more[k] == held[k]);
        lemma_points_from(next, v, ms, at, depth, held, last, k + 1, n);
    } else {
        let next = point(acc, v, ms[n], at(ms[n]), depth, last);
        assert(points_from(next, v, ms, at, depth, more, n + 1, n + 1) == next);
        assert(points_from(acc, v, ms, at, depth, held, n, n) == acc);
    }
}

fn edge_nearer(a: &&OrderEdge, b: &&OrderEdge) -> (r: bool)
    ensures
        r == edge_le()(a.deep_view(), b.deep_view()),
{
    a.dist < b.dist || a.dist == b.dist && a.count >= b.count
}

fn report_edges(idx: &Index, es: Vec<&OrderEdge>, outwards: bool, out: &mut String)
    requires
        idx.deep_view().wf(),
        forall|i: int|
            0 <= i < es@.len() ==> index::edge_in(
                *#[trigger] es@[i],
                idx.deep_view().methods.len() as int,
                idx.deep_view().locks.len() as int,
            ),
    ensures
        final(out)@ == edge_part(old(out)@, idx.deep_view(), es.deep_view(), outwards),
{
    let ghost v = idx.deep_view();
    let ghost ev = es.deep_view();
    proof {
        let known = |e: OrderEdge|
            index::edge_in(e, v.methods.len() as int, v.locks.len() as int);
        assert forall|i: int| 0 <= i < ev.len() implies known(#[trigger] ev[i]) by {
            assert(ev[i] == *es@[i]);
        }
        sort::lemma_sorted_all(ev, edge_le(), known);
        assert forall|i: int| 0 <= i < sort::sorted(ev, edge_le()).len() implies index::edge_in(
            #[trigger] sort::sorted(ev, edge_le())[i],
            v.methods.len() as int,
            v.locks.len() as int,
        ) by {
            assert(known(sort::sorted(ev, edge_le())[i]));
        }
    }
    let by = sort::sort_by(es, &edge_nearer, Ghost(edge_le()));
    let ghost bv = by.deep_view();
    if by.len() == 0 {
        return ;
    }
    if outwards {
        out.append("  held while acquiring (");
    } else {
        out.append("  acquired while holding (");
    }
    put_dec(out, by.len());
    out.append("):\n");
    let n: usize = if by.len() < 15 {
        by.len()
    } else {
        15
    };
    let ghost begin = out@;
    let mut k: usize = 0;
    while k < n
        invariant
            k <= n,
            n <= by@.len(),
            bv == by.deep_view(),
            v == idx.deep_view(),
            v.wf(),
            forall|i: int|
                0 <= i < bv.len() ==> index::edge_in(
                    #[trigger] bv[i],
                    v.methods.len() as int,
                    v.locks.len() as int,
                ),
            edge_lines(begin, v, bv, outwards, 0, n as int) == edge_lines(
                out@,
                v,
                bv,
                outwards,
                k as int,
                n as int,
            ),
        decreases n - k,
    {
        let e = by[k];
        proof {
            assert(bv[k as int] == *by@[k as int]);
        }
        if outwards {
            out.append("    -> ");
            out.append(ask::lock_of(idx, e.to));
        } else {
            out.append("    <- ");
            out.append(ask::lock_of(idx, e.from));
        }
        out.append("   (");
        put_dec(out, e.count as usize);
        out.append("x, d=");
        put_dec(out, e.dist as usize);
        out.append(", e.g. ");
        put_loc(out, idx, e.method, e.line);
        out.append(")\n");
        k += 1;
    }
}

fn put_rest(out: &mut String, len: usize, n: usize)
    ensures
        final(out)@ == rest_line(old(out)@, len as int, n as int),
{
    if len > n {
        out.append("    ... ");
        put_dec(out, len - n);
        out.append(" more\n");
    }
}

fn keep_near(list: &Vec<(u32, u8)>, depth: u8) -> (r: Vec<(u32, u8)>)
    ensures
        r@ == near(list@, depth),
{
    let mut out: Vec<(u32, u8)> = Vec::new();
    let mut k: usize = 0;
    while k < list.len()
        invariant
            k <= list@.len(),
            near(list@, depth) == near_from(list@, depth, k as int, out@),
        decreases list@.len() - k,
    {
        if list[k].1 <= depth {
            out.push(list[k]);
        }
        k += 1;
    }
    out
}

proof fn lemma_near(list: Seq<(u32, u8)>, depth: u8, k: int, acc: Seq<(u32, u8)>)
    requires
        0 <= k,
    ensures
        forall|e: (u32, u8)| #[trigger]
            near_from(list, depth, k, acc).contains(e) <==> acc.contains(e) || e.1 <= depth
                && exists|i: int| k <= i < list.len() && #[trigger] list[i] == e,
        forall|i: int|
            0 <= i < near_from(list, depth, k, acc).len() ==> {
                let x = #[trigger] near_from(list, depth, k, acc)[i];
                acc.contains(x) || x.1 <= depth && list.contains(x)
            },
    decreases list.len() - k,
{
    if k < list.len() {
        let x = list[k];
        let next = if x.1 <= depth {
            acc.push(x)
        } else {
            acc
        };
        lemma_near(list, depth, k + 1, next);
        let r = near_from(list, depth, k, acc);
        assert(r == near_from(list, depth, k + 1, next));
        assert forall|e: (u32, u8)| #[trigger]
            next.contains(e) <==> acc.contains(e) || x.1 <= depth && e == x by {
            if acc.contains(e) {
                let i = choose|i: int| 0 <= i < acc.len() && acc[i] == e;
                assert(next[i] == e);
            }
            if x.1 <= depth {
                assert(next[acc.len() as int] == x);
            }
            if next.contains(e) {
                let i = choose|i: int| 0 <= i < next.len() && next[i] == e;
                if i < acc.len() {
                    assert(acc[i] == e);
                }
            }
        }
        assert forall|e: (u32, u8)| #[trigger]
            r.contains(e) <==> acc.contains(e) || e.1 <= depth && exists|i: int|
                k <= i < list.len() && #[trigger] list[i] == e by {
            assert(r.contains(e) <==> next.contains(e) || e.1 <= depth && exists|i: int|
                k + 1 <= i < list.len() && #[trigger] list[i] == e);
        }
    }
    assert forall|i: int| 0 <= i < near_from(list, depth, k, acc).len() implies ({
        let x = #[trigger] near_from(list, depth, k, acc)[i];
        acc.contains(x) || x.1 <= depth && list.contains(x)
    }) by {
        let x = near_from(list, depth, k, acc)[i];
        assert(near_from(list, depth, k, acc).contains(x));
    }
}

/// A lock report lists exactly the holders within `depth` frames; what is held further away
/// is left out.
pub proof fn law_lock_report_keeps_to_the_depth(v: IndexV, l: u32, depth: u8, e: (u32, u8))
    ensures
        near(v.holders(l), depth).contains(e) <==> v.holders(l).contains(e) && e.1 <= depth,
{
    let hs = v.holders(l);
    lemma_near(hs, depth, 0, Seq::empty());
    if hs.contains(e) {
        let i = choose|i: int| 0 <= i < hs.len() && hs[i] == e;
        assert(hs[i] == e);
    }
}

fn report_lock(idx: &Index, l: u32, depth: u8, out: &mut String) -> (sites: Vec<(u32, u32)>)
    requires
        idx.deep_view().wf(),
        l < idx.deep_view().locks.len(),
    ensures
        ask::site_list(idx.deep_view(), l, sites@),
        final(out)@ == lock_part(old(out)@, idx.deep_view(), l, depth, sites@),
{
    let ghost v = idx.deep_view();
    out.append(ask::lock_of(idx, l));
    out.append("\n");
    let sites = idx.sites(l);
    out.append("  acquired at ");
    put_dec(out, sites.len());
    out.append(" site(s):\n");
    let n: usize = if sites.len() < 15 {
        sites.len()
    } else {
        15
    };
    let ghost begin = out@;
    let mut k: usize = 0;
    while k < n
        invariant
            k <= n,
            n <= sites@.len(),
            v == idx.deep_view(),
            v.wf(),
            ask::site_list(v, l, sites@),
            site_lines(begin, v, sites@, 0, n as int) == site_lines(
                out@,
                v,
                sites@,
                k as int,
                n as int,
            ),
        decreases n - k,
    {
        let (m, line) = sites[k];
        proof {
            assert(sites@[k as int] == (m, line));
            assert(sites@.contains((m, line)));
        }
        out.append("    ");
        put_loc(out, idx, m, line);
        out.append("  ");
        out.append(ask::key_of(idx, m));
        out.append("\n");
        k += 1;
    }
    put_rest(out, sites.len(), 15);
    let all = idx.holders(l);
    let hs = keep_near(&all, depth);
    proof {
        lemma_near(all@, depth, 0, Seq::empty());
    }
    out.append("  may be held on entry to ");
    put_dec(out, hs.len());
    out.append(" method(s) within ");
    put_dec(out, depth as usize);
    out.append(" frame(s), ");
    put_dec(out, all.len());
    out.append(" total\n");
    let n: usize = if hs.len() < 10 {
        hs.len()
    } else {
        10
    };
    let ghost begin = out@;
    let mut k: usize = 0;
    while k < n
        invariant
            k <= n,
            n <= hs@.len(),
            v == idx.deep_view(),
            forall|i: int| 0 <= i < hs@.len() ==> (#[trigger] hs@[i]).0 < v.methods.len(),
            holder_lines(begin, v, hs@, 0, n as int) == holder_lines(
                out@,
                v,
                hs@,
                k as int,
                n as int,
            ),
        decreases n - k,
    {
        let (m, d) = hs[k];
        proof {
            assert(hs@[k as int].0 < v.methods.len());
        }
        out.append("    [d=");
        put_dec(out, d as usize);
        out.append("] ");
        out.append(ask::key_of(idx, m));
        out.append("\n");
        k += 1;
    }
    put_rest(out, hs.len(), 10);
    report_edges(idx, idx.order_out(l), true, out);
    report_edges(idx, idx.order_in(l), false, out);
    out.append("\n");
    sites
}

fn report_locks(idx: &Index, ls: &Vec<u32>, n: usize, depth: u8, out: &mut String) -> (sites: Ghost<
    Seq<Seq<(u32, u32)>>,
>)
    requires
        idx.deep_view().wf(),
        n <= ls@.len(),
        index::all_below(ls@, idx.deep_view().locks.len() as int),
    ensures
        site_lists(idx.deep_view(), ls@, sites@, n as int),
        final(out)@ == locks_from(old(out)@, idx.deep_view(), ls@, depth, sites@, 0, n as int),
{
    let ghost v = idx.deep_view();
    let ghost begin = out@;
    let ghost mut sites: Seq<Seq<(u32, u32)>> = Seq::empty();
    let mut k: usize = 0;
    while k < n
        invariant
            k <= n,
            n <= ls@.len(),
            v == idx.deep_view(),
            v.wf(),
            index::all_below(ls@, v.locks.len() as int),
            site_lists(v, ls@, sites, k as int),
            out@ == locks_from(begin, v, ls@, depth, sites, 0, k as int),
        decreases n - k,
    {
        let l = ls[k];
        proof {
            assert(ls@[k as int] < v.locks.len());
        }
        let ghost old_sites = sites;
        let s = report_lock(idx, l, depth, out);
        proof {
            sites = sites.push(s@);
            lemma_locks_from(begin, v, ls@, depth, old_sites, s@, 0, k as int);
            assert forall|i: int| 0 <= i < k + 1 implies ask::site_list(
                v,
                ls@[i],
                #[trigger] sites[i],
            ) by {
                if i < k {
                    assert(sites[i] == old_sites[i]);
                }
            }
        }
        k += 1;
    }
    Ghost(sites)
}

proof fn lemma_locks_from(
    acc: Seq<char>,
    v: IndexV,
    ls: Seq<u32>,
    depth: u8,
    sites: Seq<Seq<(u32, u32)>>,
    last: Seq<(u32, u32)>,
    k: int,
    n: int,
)
    requires
        sites.len() == n,
        0 <= k <= n,
    ensures
        locks_from(acc, v, ls, depth, sites.push(last), k, n + 1) == lock_part(
            locks_from(acc, v, ls, depth, sites, k, n),
            v,
            ls[n],
            depth,
            last,
        ),
    decreases n - k,
{
    let more = sites.push(last);
    if k < n {
        let next = lock_part(acc, v, ls[k], depth, sites[k]);
        assert(more[k] == sites[k]);
        lemma_locks_from(next, v, ls, depth, sites, last, k + 1, n);
    } else {
        let next = lock_part(acc, v, ls[n], depth, last);
        assert(locks_from(next, v, ls, depth, more, n + 1, n + 1) == next);
        assert(locks_from(acc, v, ls, depth, sites, n, n) == acc);
    }
}

fn put_narrow(out: &mut String, len: usize, n: usize)
    ensures
        final(out)@ == narrow_line(old(out)@, len as int, n as int),
{
    if len > n {
        out.append("... ");
        put_dec(out, len - n);
        out.append(" more matches; narrow the query\n");
    }
}

fn put_short(out: &mut String, idx: &Index, l: u32)
    requires
        l < idx.deep_view().locks.len(),
    ensures
        final(out)@ == old(out)@ + ask::short_name(idx.deep_view().locks[l as int]),
{
    let s = ask::short(ask::lock_of(idx, l));
    out.append(s.as_str());
}

fn put_order(out: &mut String, idx: &Index, e: OrderEdge)
    requires
        idx.deep_view().wf(),
        index::edge_in(
            e,
            idx.deep_view().methods.len() as int,
            idx.deep_view().locks.len() as int,
        ),
    ensures
        final(out)@ == order_line(old(out)@, idx.deep_view(), e),
{
    out.append("    ");
    put_short(out, idx, e.from);
    out.append(" -> ");
    put_short(out, idx, e.to);
    out.append("   (");
    put_dec(out, e.count as usize);
    out.append("x, d=");
    put_dec(out, e.dist as usize);
    out.append(", e.g. ");
    put_loc(out, idx, e.method, e.line);
    out.append(" in ");
    out.append(ask::key_of(idx, e.method));
    out.append(")\n");
}

fn count_ungated(inv: &Vec<(OrderEdge, OrderEdge, Option<u32>)>) -> (r: usize)
    ensures
        r == ungated(inv@, 0),
        r <= inv@.len(),
{
    let len = inv.len();
    let mut n: usize = 0;
    let mut k = len;
    while k > 0
        invariant
            k <= len,
            len == inv@.len(),
            n == ungated(inv@, k as int),
            n <= len - k,
        decreases k,
    {
        k -= 1;
        if inv[k].2.is_none() {
            n += 1;
        }
    }
    n
}

fn report_inversions(idx: &Index, out: &mut String)
    requires
        idx.deep_view().wf(),
    ensures
        final(out)@ == inversion_part(old(out)@, idx.deep_view()),
{
    let ghost v = idx.deep_view();
    let inv = idx.inversions();
    let un = count_ungated(&inv);
    put_dec(out, inv.len());
    out.append(" lock pair(s) acquired in both orders: ");
    put_dec(out, un);
    out.append(" with no common outer lock, ");
    put_dec(out, inv.len() - un);
    out.append(" gated (both orders taken under one lock)\n");
    let ghost begin = out@;
    let mut shown: usize = 0;
    let mut k: usize = 0;
    while k < inv.len() && shown < 40
        invariant
            k <= inv@.len(),
            shown <= 40,
            v == idx.deep_view(),
            v.wf(),
            forall|i: int|
                0 <= i < inv@.len() ==> ctx_query::known_pair(v, #[trigger] inv@[i]),
            open_pairs(begin, v, inv@, 0, 0) == open_pairs(
                out@,
                v,
                inv@,
                k as int,
                shown as int,
            ),
        decreases inv@.len() - k,
    {
        let (a, b, gate) = inv[k];
        proof {
            assert(ctx_query::known_pair(v, inv@[k as int]));
        }
        if gate.is_none() {
            out.append("\n  ");
            out.append(ask::lock_of(idx, a.from));
            out.append("  <->  ");
            out.append(ask::lock_of(idx, a.to));
            out.append("\n");
            put_order(out, idx, a);
            put_order(out, idx, b);
            shown += 1;
        }
        k += 1;
    }
    if un > 40 {
        out.append("\n  ... ");
        put_dec(out, un - 40);
        out.append(" more ungated\n");
    }
    if inv.len() > un {
        out.append("\ngated (both orders occur under a common outer lock, so they serialize):\n");
        let ghost begin = out@;
        let mut shown: usize = 0;
        let mut k: usize = 0;
        while k < inv.len() && shown < 30
            invariant
                k <= inv@.len(),
                shown <= 30,
                v == idx.deep_view(),
                v.wf(),
                forall|i: int|
                    0 <= i < inv@.len() ==> ctx_query::known_pair(v, #[trigger] inv@[i]),
                gated_pairs(begin, v, inv@, 0, 0) == gated_pairs(
                    out@,
                    v,
                    inv@,
                    k as int,
                    shown as int,
                ),
            decreases inv@.len() - k,
        {
            let (a, b, gate) = inv[k];
            proof {
                assert(ctx_query::known_pair(v, inv@[k as int]));
            }
            match gate {
                Some(g) => {
                    out.append("  ");
                    put_short(out, idx, a.from);
                    out.append("  <->  ");
                    put_short(out, idx, a.to);
                    out.append("   under ");
                    put_short(out, idx, g);
                    out.append("   (");
                    put_dec(out, a.count as usize);
                    out.append("x / ");
                    put_dec(out, b.count as usize);
                    out.append("x)\n");
                    shown += 1;
                },
                None => {},
            }
            k += 1;
        }
        if inv.len() - un > 30 {
            out.append("  ... ");
            put_dec(out, inv.len() - un - 30);
            out.append(" more gated\n");
        }
    }
}

fn report_groups(idx: &Index, cyc: &Vec<Vec<u32>>, out: &mut String)
    requires
        cycles::are_cycles(idx.deep_view(), cyc.deep_view()),
    ensures
        final(out)@ == group_lines(old(out)@, idx.deep_view(), cyc.deep_view(), 0),
{
    let ghost v = idx.deep_view();
    let ghost cv = cyc.deep_view();
    let ghost begin = out@;
    let mut k: usize = 0;
    while k < cyc.len()
        invariant
            k <= cyc@.len(),
            v == idx.deep_view(),
            cv == cyc.deep_view(),
            cycles::are_cycles(v, cv),
            group_lines(begin, v, cv, 0) == group_lines(out@, v, cv, k as int),
        decreases cyc@.len() - k,
    {
        let c = &cyc[k];
        let total = cyc.len();
        proof {
            assert(cv[k as int] =~= c@);
            assert(cycles::component(v, cv[k as int]));
        }
        out.append("  [");
        put_dec(out, k + 1);
        out.append("] ");
        put_dec(out, c.len());
        out.append(" locks: ");
        let n: usize = if c.len() < 6 {
            c.len()
        } else {
            6
        };
        let ghost begin_names = out@;
        let mut j: usize = 0;
        while j < n
            invariant
                j <= n,
                n <= c@.len(),
                v == idx.deep_view(),
                index::all_below(c@, v.locks.len() as int),
                group_names(begin_names, v, c@, 0, n as int) == group_names(
                    out@,
                    v,
                    c@,
                    j as int,
                    n as int,
                ),
            decreases n - j,
        {
            proof {
                assert(c@[j as int] < v.locks.len());
            }
            if j > 0 {
                out.append(", ");
            }
            put_short(out, idx, c[j]);
            j += 1;
        }
        if c.len() > 6 {
            out.append(", +");
            put_dec(out, c.len() - 6);
            out.append(" more");
        }
        out.append("\n");
        k += 1;
    }
}

fn report_binder(idx: &Index, depth: u8, out: &mut String)
    requires
        idx.deep_view().wf(),
        old(out)@ == Seq::<char>::empty(),
    ensures
        final(out)@ == binder_part(idx.deep_view(), depth),
{
    let ghost v = idx.deep_view();
    let sites = idx.binder_sites(depth);
    put_dec(out, sites.len());
    out.append(" binder call(s) with a lock held within ");
    put_dec(out, depth as usize);
    out.append(" frame(s) (nearest first):\n");
    let n: usize = if sites.len() < 300 {
        sites.len()
    } else {
        300
    };
    let ghost begin = out@;
    let mut last: u8 = 0xff;
    let mut k: usize = 0;
    while k < n
        invariant
            k <= n,
            n <= sites@.len(),
            v == idx.deep_view(),
            v.wf(),
            forall|i: int|
                0 <= i < sites@.len() ==> ctx_query::known_site(v, #[trigger] sites@[i]),
            binder_lines(begin, v, sites@, 0xff, 0, n as int) == binder_lines(
                out@,
                v,
                sites@,
                last,
                k as int,
                n as int,
            ),
        decreases n - k,
    {
        let (call, t, l, d) = sites[k];
        proof {
            assert(ctx_query::known_site(v, sites@[k as int]));
            assert(v.calls[call as int] == idx.calls@[call as int].deep_view());
            assert(index::call_in(
                v.calls[call as int],
                v.methods.len() as int,
                v.locks.len() as int,
            ));
        }
        let c = &idx.calls[call as usize];
        if d != last {
            out.append("\n-- d=");
            put_dec(out, d as usize);
            out.append(" --\n");
            last = d;
        }
        out.append("  ");
        put_loc(out, idx, c.caller, c.line);
        out.append("  ");
        out.append(ask::key_of(idx, c.caller));
        out.append("  ->  ");
        out.append(ask::key_of(idx, t));
        out.append("   holding ");
        out.append(ask::lock_of(idx, l));
        out.append("\n");
        if d > 0 {
            write_witness(idx, c.caller, l, out);
        }
        k += 1;
    }
    if sites.len() > 300 {
        out.append("\n  ... ");
        put_dec(out, sites.len() - 300);
        out.append(" more; lower --depth to narrow\n");
    }
}

/// Answer `q` against `idx` with a human-readable report. Locks held more than `depth`
/// call frames away are omitted.
pub fn query(idx: &Index, q: &Query, depth: u8) -> (r: String)
    requires
        idx.deep_view().wf(),
    ensures
        answers(idx.deep_view(), *q, depth, r@),
{
    let ghost v = idx.deep_view();
    let mut out = String::new();
    proof {
        assert(out@ =~= Seq::empty());
    }
    match q {
        Query::At { file, line } => {
            let ms = idx.locate(file.as_str(), *line);
            proof {
                lemma_located(v, file@, *line);
            }
            if ms.len() == 0 {
                out.append("no method covers ");
                out.append(file.as_str());
                out.append(":");
                put_dec(&mut out, *line as usize);
                out.append("\n");
            }
            let held = report_points(
                idx,
                &ms,
                ms.len(),
                Some(*line),
                depth,
                &mut out,
                Ghost(asked(*line)),
            );
            proof {
                assert(held_lists(v, ms@, asked(*line), held@, ms@.len() as int));
            }
        },
        Query::Method(needle) => {
            let ms = idx.find_methods(needle.as_str());
            proof {
                lemma_keyed(v, needle@, 0, Seq::empty());
            }
            if ms.len() == 0 {
                out.append("no method matches ");
                out.append(quoted(needle.as_str()).as_str());
                out.append("\n");
            }
            let n: usize = if ms.len() < 20 {
                ms.len()
            } else {
                20
            };
            let held = report_points(
                idx,
                &ms,
                n,
                None,
                depth,
                &mut out,
                Ghost(first_line(v)),
            );
            put_narrow(&mut out, ms.len(), 20);
            proof {
                assert(held_lists(v, ms@, first_line(v), held@, n as int));
                assert(n as int == least(20, ms@.len() as int));
            }
        },
        Query::Lock(needle) => {
            let ls = idx.find_locks(needle.as_str());
            proof {
                lemma_named(v, needle@, 0, Seq::empty());
            }
            if ls.len() == 0 {
                out.append("no lock matches ");
                out.append(quoted(needle.as_str()).as_str());
                out.append("\n");
            }
            let n: usize = if ls.len() < 10 {
                ls.len()
            } else {
                10
            };
            let sites = report_locks(idx, &ls, n, depth, &mut out);
            put_narrow(&mut out, ls.len(), 10);
            proof {
                assert(site_lists(v, ls@, sites@, n as int));
                assert(n as int == least(10, ls@.len() as int));
            }
        },
        Query::Cycles => {
            report_inversions(idx, &mut out);
            let cyc = idx.cycles();
            out.append("\n");
            put_dec(&mut out, cyc.len());
            out.append(" strongly connected group(s) in the lock-order graph:\n");
            report_groups(idx, &cyc, &mut out);
            proof {
                assert(cyc.deep_view().len() == cyc@.len());
                assert(cycles::are_cycles(v, cyc.deep_view()));
            }
        },
        Query::Binder => {
            report_binder(idx, depth, &mut out);
        },
    }
    out
}

/// The methods found at a line exist.
pub proof fn lemma_located(v: IndexV, file: Seq<char>, line: u32)
    requires
        v.methods.len() <= u32::MAX,
    ensures
        index::all_below(v.located(file, line), v.methods.len() as int),
{
    match ctx_query::place_of(v.files, text::tail_of(file, '/'), 0) {
        Some(f) => lemma_covering(v, f as u32, line, 0, Seq::empty()),
        None => {},
    }
}

proof fn lemma_covering(v: IndexV, file: u32, line: u32, k: int, acc: Seq<u32>)
    requires
        0 <= k,
        v.methods.len() <= u32::MAX,
        index::all_below(acc, v.methods.len() as int),
    ensures
        index::all_below(
            ctx_query::covering(v.methods, file, line, k, acc),
            v.methods.len() as int,
        ),
    decreases v.methods.len() - k,
{
    if k < v.methods.len() {
        let m = v.methods[k];
        let next = if m.file == file && m.line_lo <= line <= m.line_hi {
            acc.push(k as u32)
        } else {
            acc
        };
        lemma_covering(v, file, line, k + 1, next);
        assert(ctx_query::covering(v.methods, file, line, k, acc) == ctx_query::covering(
            v.methods,
            file,
            line,
            k + 1,
            next,
        ));
    }
}

/// The methods found by key exist.
pub proof fn lemma_keyed(v: IndexV, needle: Seq<char>, k: int, acc: Seq<u32>)
    requires
        0 <= k,
        v.methods.len() <= u32::MAX,
        index::all_below(acc, v.methods.len() as int),
    ensures
        index::all_below(
            ctx_query::keyed(v.methods, needle, k, acc),
            v.methods.len() as int,
        ),
    decreases v.methods.len() - k,
{
    if k < v.methods.len() {
        let next = if text::occurs(v.methods[k].key, needle) {
            acc.push(k as u32)
        } else {
            acc
        };
        lemma_keyed(v, needle, k + 1, next);
        assert(ctx_query::keyed(v.methods, needle, k, acc) == ctx_query::keyed(
            v.methods,
            needle,
            k + 1,
            next,
        ));
    }
}

/// The locks found by name exist.
pub proof fn lemma_named(v: IndexV, needle: Seq<char>, k: int, acc: Seq<u32>)
    requires
        0 <= k,
        v.locks.len() <= u32::MAX,
        index::all_below(acc, v.locks.len() as int),
    ensures
        index::all_below(ctx_query::named(v.locks, needle, k, acc), v.locks.len() as int),
    decreases v.locks.len() - k,
{
    if k < v.locks.len() {
        let next = if text::occurs(v.locks[k], needle) {
            acc.push(k as u32)
        } else {
            acc
        };
        lemma_named(v, needle, k + 1, next);
        assert(ctx_query::named(v.locks, needle, k, acc) == ctx_query::named(
            v.locks,
            needle,
            k + 1,
            next,
        ));
    }
}

} // verus!

//! What the answers to questions put to the index promise.

use crate::dex::ctx::index::{CallIx, IndexV, MethodIx, OrderEdge, SpanIx};
use crate::dex::ctx::query;
use crate::sort;
use crate::text;
use vstd::prelude::*;

verus! {

/// The edges that leave a lock are exactly the edges of the index that start at it, and those
/// that lead to it exactly the ones that end at it.
pub proof fn law_order_answers_are_the_edges_of_the_lock(v: IndexV, lock: u32, e: OrderEdge)
    ensures
        v.order.filter(query::leaves(lock)).contains(e) <==> v.order.contains(e) && e.from == lock,
        v.order.filter(query::arrives(lock)).contains(e) <==> v.order.contains(e) && e.to == lock,
{
    lemma_filtered(v.order, query::leaves(lock), e);
    lemma_filtered(v.order, query::arrives(lock), e);
}

/// A filter keeps exactly the members that it lets through.
pub proof fn lemma_filtered<A>(s: Seq<A>, p: spec_fn(A) -> bool, x: A)
    ensures
        s.filter(p).contains(x) <==> s.contains(x) && p(x),
{
    s.filter_lemma(p);
    if s.contains(x) && p(x) {
        let i = choose|i: int| 0 <= i < s.len() && s[i] == x;
        assert(s.filter(p).contains(s[i]));
    }
    if s.filter(p).contains(x) {
        let i = choose|i: int| 0 <= i < s.filter(p).len() && s.filter(p)[i] == x;
        assert(p(s.filter(p)[i]));
        s.lemma_filter_contains_rev(p, x);
    }
}

proof fn lemma_keyed(ms: Seq<MethodIx>, needle: Seq<char>, k: int, acc: Seq<u32>, m: u32)
    requires
        0 <= k,
        ms.len() <= u32::MAX,
    ensures
        query::keyed(ms, needle, k, acc).contains(m) <==> acc.contains(m) || (k <= m < ms.len()
            && text::occurs(ms[m as int].key, needle)),
    decreases ms.len() - k,
{
    if k < ms.len() {
        let next = if text::occurs(ms[k].key, needle) {
            acc.push(k as u32)
        } else {
            acc
        };
        lemma_keyed(ms, needle, k + 1, next, m);
        lemma_pushed(acc, k as u32, m);
    }
}

proof fn lemma_named(ns: Seq<Seq<char>>, needle: Seq<char>, k: int, acc: Seq<u32>, m: u32)
    requires
        0 <= k,
        ns.len() <= u32::MAX,
    ensures
        query::named(ns, needle, k, acc).contains(m) <==> acc.contains(m) || (k <= m < ns.len()
            && text::occurs(ns[m as int], needle)),
    decreases ns.len() - k,
{
    if k < ns.len() {
        let next = if text::occurs(ns[k], needle) {
            acc.push(k as u32)
        } else {
            acc
        };
        lemma_named(ns, needle, k + 1, next, m);
        lemma_pushed(acc, k as u32, m);
    }
}

/// What a sequence holds once an item is pushed.
pub proof fn lemma_pushed<A>(s: Seq<A>, y: A, x: A)
    ensures
        s.push(y).contains(x) <==> s.contains(x) || x == y,
{
    if s.contains(x) {
        let i = choose|i: int| 0 <= i < s.len() && s[i] == x;
        assert(s.push(y)[i] == x);
    }
    if x == y {
        assert(s.push(y)[s.len() as int] == x);
    }
    if s.push(y).contains(x) {
        let i = choose|i: int| 0 <= i < s.push(y).len() && s.push(y)[i] == x;
        if i < s.len() {
            assert(s[i] == x);
        }
    }
}

/// A method or a lock is found by a needle exactly where its name is the needle between any
/// two texts.
pub proof fn law_found_names_hold_the_needle(
    v: IndexV,
    needle: Seq<char>,
    n: u32,
    before: Seq<char>,
    behind: Seq<char>,
)
    requires
        v.methods.len() <= u32::MAX,
        v.locks.len() <= u32::MAX,
    ensures
        ({
            let ms = query::keyed(v.methods, needle, 0, Seq::empty());
            let ls = query::named(v.locks, needle, 0, Seq::empty());
            &&& n < v.methods.len() && v.methods[n as int].key == before + needle + behind
                ==> ms.contains(n)
            &&& n < v.locks.len() && v.locks[n as int] == before + needle + behind ==> ls.contains(n)
            &&& ms.contains(n) ==> n < v.methods.len() && exists|a: Seq<char>, b: Seq<char>|
                v.methods[n as int].key == #[trigger] (a + needle + b)
            &&& ls.contains(n) ==> n < v.locks.len() && exists|a: Seq<char>, b: Seq<char>|
                v.locks[n as int] == #[trigger] (a + needle + b)
        }),
{
    lemma_keyed(v.methods, needle, 0, Seq::empty(), n);
    lemma_named(v.locks, needle, 0, Seq::empty(), n);
    lemma_occurs(v.methods[n as int].key, needle, before, behind);
    lemma_occurs(v.locks[n as int], needle, before, behind);
}

/// A text occurs in another exactly where that is it between two more.
pub proof fn lemma_occurs(s: Seq<char>, p: Seq<char>, before: Seq<char>, behind: Seq<char>)
    ensures
        s == before + p + behind ==> text::occurs(s, p),
        text::occurs(s, p) ==> exists|a: Seq<char>, b: Seq<char>| s == #[trigger] (a + p + b),
{
    if s == before + p + behind {
        assert(s.subrange(before.len() as int, (before.len() + p.len()) as int) =~= p);
        assert(text::occurs_at(s, p, before.len() as int));
    }
    if text::occurs(s, p) {
        let i = choose|i: int| text::occurs_at(s, p, i);
        let a = s.take(i);
        let b = s.skip(i + p.len());
        assert(s =~= a + s.subrange(i, i + p.len()) + b);
        assert(s == a + p + b);
    }
}

proof fn lemma_covering(ms: Seq<MethodIx>, file: u32, line: u32, k: int, acc: Seq<u32>, m: u32)
    requires
        0 <= k,
        ms.len() <= u32::MAX,
    ensures
        query::covering(ms, file, line, k, acc).contains(m) <==> acc.contains(m) || {
            &&& k <= m < ms.len()
            &&& ms[m as int].file == file
            &&& ms[m as int].line_lo <= line
            &&& line <= ms[m as int].line_hi
        },
    decreases ms.len() - k,
{
    if k < ms.len() {
        let next = if ms[k].file == file && ms[k].line_lo <= line <= ms[k].line_hi {
            acc.push(k as u32)
        } else {
            acc
        };
        lemma_covering(ms, file, line, k + 1, next, m);
        lemma_pushed(acc, k as u32, m);
    }
}

proof fn lemma_place(s: Seq<Seq<char>>, x: Seq<char>, k: int)
    requires
        0 <= k,
    ensures
        match query::place_of(s, x, k) {
            Some(p) => k <= p < s.len() && s[p] == x && forall|i: int|
                k <= i < p ==> #[trigger] s[i] != x,
            None => forall|i: int| k <= i < s.len() ==> #[trigger] s[i] != x,
        },
    decreases s.len() - k,
{
    if k < s.len() && s[k] != x {
        lemma_place(s, x, k + 1);
    }
}

pub proof fn lemma_tail(dir: Seq<char>, base: Seq<char>, c: char)
    requires
        !base.contains(c),
    ensures
        text::tail_of(base, c) == base,
        text::tail_of(dir + seq![c] + base, c) == base,
    decreases base.len(),
{
    let s = dir + seq![c] + base;
    if base.len() == 0 {
        assert(s.last() == c);
        assert(base =~= Seq::empty());
    } else {
        let b = base.drop_last();
        assert(base.contains(base.last()));
        assert(!b.contains(c)) by {
            if b.contains(c) {
                let i = choose|i: int| 0 <= i < b.len() && b[i] == c;
                assert(base[i] == c);
            }
        }
        assert(s.drop_last() =~= dir + seq![c] + b);
        assert(s.last() == base.last());
        lemma_tail(dir, b, c);
        assert(b.push(base.last()) =~= base);
    }
}

/// A line of a file lies in exactly the methods of that file whose range of lines holds it;
/// the file goes by what stands behind the last slash of its path.
pub proof fn law_located_methods_hold_the_line(
    v: IndexV,
    dir: Seq<char>,
    base: Seq<char>,
    f: u32,
    line: u32,
    m: u32,
)
    requires
        v.methods.len() <= u32::MAX,
        v.files.len() <= u32::MAX,
        !base.contains('/'),
        f < v.files.len(),
        v.files[f as int] == base,
        forall|i: int| 0 <= i < f ==> #[trigger] v.files[i] != base,
    ensures
        v.located(base, line).contains(m) <==> {
            &&& m < v.methods.len()
            &&& v.methods[m as int].file == f
            &&& v.methods[m as int].line_lo <= line
            &&& line <= v.methods[m as int].line_hi
        },
        v.located(dir + seq!['/'] + base, line) == v.located(base, line),
{
    lemma_tail(dir, base, '/');
    lemma_place(v.files, base, 0);
    lemma_covering(v.methods, f, line, 0, Seq::empty(), m);
}

/// No method is found at a line of a file that the index does not know.
pub proof fn law_unknown_files_have_no_methods(v: IndexV, dir: Seq<char>, base: Seq<char>, line: u32)
    requires
        !base.contains('/'),
        !v.files.contains(base),
    ensures
        v.located(base, line).len() == 0,
        v.located(dir + seq!['/'] + base, line).len() == 0,
{
    lemma_tail(dir, base, '/');
    lemma_place(v.files, base, 0);
}

/// A span holds its lock from the line at which it takes it up to, but not at, the line at
/// which it lets it go.
pub proof fn law_spans_hold_from_enter_to_exit(ss: Seq<SpanIx>, i: int, line: u32)
    requires
        0 <= i < ss.len(),
    ensures
        ss[i].enter <= line && line < ss[i].exit ==> query::span_holds(ss, ss[i].lock, line),
        query::span_takes(ss, ss[i].lock, ss[i].enter),
        forall|l: u32| #[trigger]
            query::span_holds(ss, l, line) ==> exists|j: int|
                0 <= j < ss.len() && (#[trigger] ss[j]).lock == l && ss[j].enter <= line && line
                    < ss[j].exit,
        forall|l: u32| #[trigger]
            query::span_takes(ss, l, line) ==> exists|j: int|
                0 <= j < ss.len() && (#[trigger] ss[j]).lock == l && ss[j].enter == line,
{
}

proof fn lemma_holding(v: IndexV, lock: u32, k: int, acc: Seq<(u32, u8)>, m: u32, d: u8)
    requires
        0 <= k,
        v.methods.len() <= u32::MAX,
    ensures
        query::holding(v, lock, k, acc).contains((m, d)) <==> acc.contains((m, d)) || (k <= m
            < v.methods.len() && v.dist(m, lock) == Some(d)),
    decreases v.methods.len() - k,
{
    if k < v.methods.len() {
        match v.dist(k as u32, lock) {
            Some(x) => {
                lemma_holding(v, lock, k + 1, acc.push((k as u32, x)), m, d);
                lemma_pushed(acc, (k as u32, x), (m, d));
            },
            None => {
                lemma_holding(v, lock, k + 1, acc, m, d);
            },
        }
    }
}

proof fn lemma_dist(v: IndexV, lock: u32, i: int, end: int)
    ensures
        match query::dist_from(v, lock, i, end) {
            Some(d) => exists|j: int|
                i <= j < end && #[trigger] v.may_lock[j] == lock && v.may_dist[j] == d,
            None => forall|j: int| i <= j < end ==> #[trigger] v.may_lock[j] != lock,
        },
    decreases end - i,
{
    if i < end && v.may_lock[i] != lock {
        lemma_dist(v, lock, i + 1, end);
    }
}

/// The methods on whose entry a lock may be held are exactly those to which the index gives
/// it a distance, and they come nearest first.
pub proof fn law_holders_are_the_methods_at_a_distance(v: IndexV, lock: u32, m: u32, d: u8)
    requires
        v.methods.len() <= u32::MAX,
    ensures
        v.holders(lock).contains((m, d)) <==> m < v.methods.len() && v.dist(m, lock) == Some(d),
        forall|i: int, j: int|
            0 <= i < j < v.holders(lock).len() ==> (#[trigger] v.holders(lock)[i]).1 <= (
            #[trigger] v.holders(lock)[j]).1,
        v.dist(m, lock) is Some <==> exists|i: int|
            v.may_off[m as int] <= i < v.may_off[m + 1] && #[trigger] v.may_lock[i] == lock,
        v.dist(m, lock) == Some(d) ==> exists|i: int|
            v.may_off[m as int] <= i < v.may_off[m + 1] && #[trigger] v.may_lock[i] == lock
                && v.may_dist[i] == d,
{
    let s = query::holding(v, lock, 0, Seq::empty());
    lemma_holding(v, lock, 0, Seq::empty(), m, d);
    sort::lemma_sorted_contains(s, query::near_le(), (m, d));
    sort::lemma_sorted(s, query::near_le());
    lemma_dist(v, lock, v.may_off[m as int] as int, v.may_off[m + 1] as int);
    let r = v.holders(lock);
    assert forall|i: int, j: int| 0 <= i < j < r.len() implies (#[trigger] r[i]).1 <= (
    #[trigger] r[j]).1 by {
        assert(query::near_le()(r[i], r[j]));
    }
}

/// The locks that may be held on entry to a method come nearest first, each with its distance,
/// and none is left out.
pub proof fn law_entry_locks_come_nearest_first(v: IndexV, m: u32, e: (u32, u8))
    requires
        v.wf(),
        m < v.methods.len(),
    ensures
        ({
            let r = sort::sorted(v.row(m), query::near_le());
            &&& r.contains(e) <==> exists|i: int|
                v.may_off[m as int] <= i < v.may_off[m + 1] && #[trigger] v.may_lock[i] == e.0
                    && v.may_dist[i] == e.1
            &&& forall|i: int, j: int|
                0 <= i < j < r.len() ==> (#[trigger] r[i]).1 < (#[trigger] r[j]).1 || r[i].1
                    == r[j].1 && r[i].0 <= r[j].0
        }),
{
    let s = v.row(m);
    let a = v.may_off[m as int] as int;
    let r = sort::sorted(s, query::near_le());
    sort::lemma_sorted_contains(s, query::near_le(), e);
    sort::lemma_sorted(s, query::near_le());
    assert(v.may_off[m as int] <= v.may_off[m + 1]);
    if s.contains(e) {
        let i = choose|i: int| 0 <= i < s.len() && s[i] == e;
        assert(v.may_lock[a + i] == e.0);
    }
    if exists|i: int|
        v.may_off[m as int] <= i < v.may_off[m + 1] && #[trigger] v.may_lock[i] == e.0
            && v.may_dist[i] == e.1 {
        let i = choose|i: int|
            v.may_off[m as int] <= i < v.may_off[m + 1] && #[trigger] v.may_lock[i] == e.0
                && v.may_dist[i] == e.1;
        assert(s[i - a] == e);
    }
    assert forall|i: int, j: int| 0 <= i < j < r.len() implies (#[trigger] r[i]).1 < (
    #[trigger] r[j]).1 || r[i].1 == r[j].1 && r[i].0 <= r[j].0 by {
        assert(query::near_le()(r[i], r[j]));
    }
}

proof fn lemma_remote_target(ts: Seq<u32>, remote: Seq<u32>, k: int)
    requires
        0 <= k,
    ensures
        match query::remote_target(ts, remote, k) {
            Some(t) => exists|i: int| k <= i < ts.len() && #[trigger] ts[i] == t && remote.contains(t),
            None => forall|i: int| k <= i < ts.len() ==> !remote.contains(#[trigger] ts[i]),
        },
    decreases ts.len() - k,
{
    if k < ts.len() && !remote.contains(ts[k]) {
        lemma_remote_target(ts, remote, k + 1);
    }
}

proof fn lemma_held_sites(
    c: CallIx,
    k: u32,
    t: u32,
    j: int,
    acc: Seq<(u32, u32, u32, u8)>,
    x: (u32, u32, u32, u8),
)
    requires
        0 <= j,
        forall|i: int| 0 <= i < j && i < c.held.len() ==> acc.contains((k, t, #[trigger] c.held[i], 0u8)),
    ensures
        query::held_sites(c, k, t, j, acc).contains(x) <==> acc.contains(x) || exists|i: int|
            j <= i < c.held.len() && x == (k, t, #[trigger] c.held[i], 0u8),
    decreases c.held.len() - j,
{
    if j < c.held.len() {
        let e = (k, t, c.held[j], 0u8);
        let next = if c.held.take(j).contains(c.held[j]) {
            acc
        } else {
            acc.push(e)
        };
        lemma_pushed(acc, e, x);
        if c.held.take(j).contains(c.held[j]) {
            let i = choose|i: int| 0 <= i < c.held.take(j).len() && c.held.take(j)[i] == c.held[j];
            assert(c.held[i] == c.held[j]);
            assert(acc.contains(e));
        }
        assert forall|i: int| 0 <= i < j + 1 && i < c.held.len() implies next.contains(
            (k, t, #[trigger] c.held[i], 0u8),
        ) by {
            lemma_pushed(acc, e, (k, t, c.held[i], 0u8));
        }
        lemma_held_sites(c, k, t, j + 1, next, x);
    }
}

proof fn lemma_entry_sites(
    v: IndexV,
    k: u32,
    t: u32,
    depth: u8,
    i: int,
    end: int,
    acc: Seq<(u32, u32, u32, u8)>,
    x: (u32, u32, u32, u8),
)
    ensures
        query::entry_sites(v, k, t, depth, i, end, acc).contains(x) <==> acc.contains(x) || exists|
            j: int,
        |
            i <= j < end && v.may_dist[j] <= depth && !v.calls[k as int].held.contains(v.may_lock[j])
                && x == (k, t, #[trigger] v.may_lock[j], v.may_dist[j]),
    decreases end - i,
{
    if i < end {
        let e = (k, t, v.may_lock[i], v.may_dist[i]);
        let next = if v.may_dist[i] <= depth && !v.calls[k as int].held.contains(v.may_lock[i]) {
            acc.push(e)
        } else {
            acc
        };
        lemma_pushed(acc, e, x);
        lemma_entry_sites(v, k, t, depth, i + 1, end, next, x);
    }
}

/// The site is a binder call with a lock held at it, or on entry to its caller within that
/// many frames and not at the call as well.
pub open spec fn is_binder_site(v: IndexV, depth: u8, x: (u32, u32, u32, u8)) -> bool {
    let c = v.calls[x.0 as int];
    &&& x.0 < v.calls.len()
    &&& query::remote_target(c.targets, v.binder, 0) == Some(x.1)
    &&& {
        ||| x.3 == 0 && c.held.contains(x.2)
        ||| x.3 <= depth && !c.held.contains(x.2) && exists|j: int|
            v.may_off[c.caller as int] <= j < v.may_off[c.caller + 1] && #[trigger] v.may_lock[j] == x.2
                && v.may_dist[j] == x.3
    }
}

proof fn lemma_remote_sites(
    v: IndexV,
    depth: u8,
    k: int,
    acc: Seq<(u32, u32, u32, u8)>,
    x: (u32, u32, u32, u8),
)
    requires
        0 <= k,
        v.calls.len() <= u32::MAX,
    ensures
        query::remote_sites(v, depth, k, acc).contains(x) <==> acc.contains(x) || (k <= x.0
            && is_binder_site(v, depth, x)),
    decreases v.calls.len() - k,
{
    if k < v.calls.len() {
        let c = v.calls[k];
        match query::remote_target(c.targets, v.binder, 0) {
            Some(t) => {
                let a = v.may_off[c.caller as int] as int;
                let b = v.may_off[c.caller + 1] as int;
                let one = query::held_sites(c, k as u32, t, 0, acc);
                let two = query::entry_sites(v, k as u32, t, depth, a, b, one);
                lemma_held_sites(c, k as u32, t, 0, acc, x);
                lemma_entry_sites(v, k as u32, t, depth, a, b, one, x);
                lemma_remote_sites(v, depth, k + 1, two, x);
                if c.held.contains(x.2) {
                    let i = choose|i: int| 0 <= i < c.held.len() && c.held[i] == x.2;
                    assert(c.held[i] == x.2);
                }
            },
            None => {
                lemma_remote_sites(v, depth, k + 1, acc, x);
            },
        }
    }
}

/// The binder sites are exactly the calls that may reach a binder method while a lock is
/// held: at the call itself, at no distance, or on entry to the caller, at its distance where
/// that is within the depth asked for. They come nearest first.
pub proof fn law_binder_sites_are_calls_under_locks(v: IndexV, depth: u8, x: (u32, u32, u32, u8))
    requires
        v.calls.len() <= u32::MAX,
    ensures
        v.binder_sites(depth).contains(x) <==> is_binder_site(v, depth, x),
        x.0 < v.calls.len() ==> (query::remote_target(v.calls[x.0 as int].targets, v.binder, 0) is Some
            <==> exists|i: int|
            0 <= i < v.calls[x.0 as int].targets.len() && v.binder.contains(
                #[trigger] v.calls[x.0 as int].targets[i],
            )),
        v.binder_sites(depth).contains(x) ==> v.calls[x.0 as int].targets.contains(x.1)
            && v.binder.contains(x.1),
        forall|i: int, j: int|
            0 <= i < j < v.binder_sites(depth).len() ==> (#[trigger] v.binder_sites(depth)[i]).3 <= (
            #[trigger] v.binder_sites(depth)[j]).3,
{
    let s = query::remote_sites(v, depth, 0, Seq::empty());
    lemma_remote_sites(v, depth, 0, Seq::empty(), x);
    sort::lemma_sorted_contains(s, query::site_le(), x);
    sort::lemma_sorted(s, query::site_le());
    lemma_remote_target(v.calls[x.0 as int].targets, v.binder, 0);
    let r = v.binder_sites(depth);
    assert forall|i: int, j: int| 0 <= i < j < r.len() implies (#[trigger] r[i]).3 <= (
    #[trigger] r[j]).3 by {
        assert(query::site_le()(r[i], r[j]));
    }
}

/// The line at which a lock that is held at a line was taken is that of a span of the lock
/// that covers the line, and there is one exactly where there is such a span.
pub proof fn law_taken_lines_begin_a_span(ss: Seq<SpanIx>, lock: u32, line: u32)
    ensures
        match query::taken_at(ss, lock, line, 0) {
            Some(l) => exists|i: int|
                0 <= i < ss.len() && (#[trigger] ss[i]).lock == lock && ss[i].enter == l && ss[i].enter
                    <= line && line < ss[i].exit,
            None => forall|i: int|
                0 <= i < ss.len() && (#[trigger] ss[i]).lock == lock ==> !(ss[i].enter <= line && line
                    < ss[i].exit),
        },
{
    lemma_taken(ss, lock, line, 0);
}

proof fn lemma_taken(ss: Seq<SpanIx>, lock: u32, line: u32, k: int)
    requires
        0 <= k,
    ensures
        match query::taken_at(ss, lock, line, k) {
            Some(l) => exists|i: int|
                k <= i < ss.len() && (#[trigger] ss[i]).lock == lock && ss[i].enter == l && ss[i].enter
                    <= line && line < ss[i].exit,
            None => forall|i: int|
                k <= i < ss.len() && (#[trigger] ss[i]).lock == lock ==> !(ss[i].enter <= line && line
                    < ss[i].exit),
        },
    decreases ss.len() - k,
{
    if k < ss.len() && !(ss[k].lock == lock && query::covers(ss[k], line)) {
        lemma_taken(ss, lock, line, k + 1);
    }
}

} // verus!

//! Questions put to the index.

use crate::dex::ctx::answers;
use crate::dex::ctx::index;
use crate::dex::ctx::index::{CallIx, Hop, Index, IndexV, MethodIx, OrderEdge, SpanIx};
use crate::sort;
use crate::text;
use crate::values;
use vstd::prelude::*;

verus! {

/// The numbers climb.
pub open spec fn climbs(s: Seq<u32>) -> bool {
    forall|i: int, j: int| 0 <= i < j < s.len() ==> #[trigger] s[i] < #[trigger] s[j]
}

/// Where `x` stands first among the names from the `k`th on.
pub open spec fn place_of(s: Seq<Seq<char>>, x: Seq<char>, k: int) -> Option<int>
    decreases s.len() - k,
{
    if k >= s.len() {
        None
    } else if s[k] == x {
        Some(k)
    } else {
        place_of(s, x, k + 1)
    }
}

/// The methods from the `k`th on that cover a line of a file, behind `acc`.
pub open spec fn covering(
    ms: Seq<MethodIx>,
    file: u32,
    line: u32,
    k: int,
    acc: Seq<u32>,
) -> Seq<u32>
    decreases ms.len() - k,
{
    if k >= ms.len() {
        acc
    } else {
        covering(
            ms,
            file,
            line,
            k + 1,
            if ms[k].file == file && ms[k].line_lo <= line <= ms[k].line_hi {
                acc.push(k as u32)
            } else {
                acc
            },
        )
    }
}

/// The methods from the `k`th on whose key holds `needle`, behind `acc`.
pub open spec fn keyed(ms: Seq<MethodIx>, needle: Seq<char>, k: int, acc: Seq<u32>) -> Seq<u32>
    decreases ms.len() - k,
{
    if k >= ms.len() {
        acc
    } else {
        keyed(
            ms,
            needle,
            k + 1,
            if text::occurs(ms[k].key, needle) {
                acc.push(k as u32)
            } else {
                acc
            },
        )
    }
}

/// The names from the `k`th on that hold `needle`, behind `acc`.
pub open spec fn named(ns: Seq<Seq<char>>, needle: Seq<char>, k: int, acc: Seq<u32>) -> Seq<u32>
    decreases ns.len() - k,
{
    if k >= ns.len() {
        acc
    } else {
        named(
            ns,
            needle,
            k + 1,
            if text::occurs(ns[k], needle) {
                acc.push(k as u32)
            } else {
                acc
            },
        )
    }
}

/// The span covers the line.
pub open spec fn covers(s: SpanIx, line: u32) -> bool {
    s.enter <= line < s.exit
}

/// Some span takes lock `l` over the line.
pub open spec fn span_holds(ss: Seq<SpanIx>, l: u32, line: u32) -> bool {
    exists|i: int| 0 <= i < ss.len() && (#[trigger] ss[i]).lock == l && covers(ss[i], line)
}

/// Some span takes lock `l` at the line.
pub open spec fn span_takes(ss: Seq<SpanIx>, l: u32, line: u32) -> bool {
    exists|i: int| 0 <= i < ss.len() && (#[trigger] ss[i]).lock == l && ss[i].enter == line
}

/// The distance of `lock` among the entries from the `i`th up to the `end`th.
pub open spec fn dist_from(v: IndexV, lock: u32, i: int, end: int) -> Option<u8>
    decreases end - i,
{
    if i >= end {
        None
    } else if v.may_lock[i] == lock {
        Some(v.may_dist[i])
    } else {
        dist_from(v, lock, i + 1, end)
    }
}

/// The nearer first, then the smaller.
pub open spec fn near_le() -> spec_fn((u32, u8), (u32, u8)) -> bool {
    |a: (u32, u8), b: (u32, u8)| a.1 < b.1 || a.1 == b.1 && a.0 <= b.0
}

/// At a call, `lock` is held there (`d` is 1) or `d - 1` frames above its caller's entry.
pub open spec fn steps(v: IndexV, k: u32, lock: u32, d: nat) -> bool {
    let c = v.calls[k as int];
    if d == 1 {
        c.held.contains(lock)
    } else {
        match v.dist(c.caller, lock) {
            Some(x) => x + 1 == d,
            None => false,
        }
    }
}

/// The first call among the entries from the `i`th up to the `end`th that brings `lock`
/// `d` frames down.
pub open spec fn bringing(v: IndexV, lock: u32, d: nat, i: int, end: int) -> Option<u32>
    decreases end - i,
{
    if i >= end {
        None
    } else if steps(v, v.callers[i], lock, d) {
        Some(v.callers[i])
    } else {
        bringing(v, lock, d, i + 1, end)
    }
}

/// The calls back from `cur` to the frame that holds `lock`, behind `acc`.
pub open spec fn chain(v: IndexV, cur: u32, lock: u32, d: nat, acc: Seq<u32>) -> Option<Seq<u32>>
    decreases d,
{
    if d == 0 {
        Some(acc)
    } else {
        match bringing(
            v,
            lock,
            d,
            v.caller_off[cur as int] as int,
            v.caller_off[cur + 1] as int,
        ) {
            None => None,
            Some(k) => chain(
                v,
                v.calls[k as int].caller,
                lock,
                (d - 1) as nat,
                acc.push(k),
            ),
        }
    }
}

/// Where the first span from the `k`th on takes `lock` over `line`.
pub open spec fn taken_at(ss: Seq<SpanIx>, lock: u32, line: u32, k: int) -> Option<u32>
    decreases ss.len() - k,
{
    if k >= ss.len() {
        None
    } else if ss[k].lock == lock && covers(ss[k], line) {
        Some(ss[k].enter)
    } else {
        taken_at(ss, lock, line, k + 1)
    }
}

/// The `i`th frame of the path that a chain of calls gives.
pub open spec fn hop(v: IndexV, ch: Seq<u32>, m: u32, lock: u32, i: int) -> Hop {
    if i < ch.len() {
        let c = v.calls[ch[ch.len() - 1 - i] as int];
        Hop {
            method: c.caller,
            acquire: if i == 0 {
                taken_at(v.methods[c.caller as int].spans, lock, c.line, 0)
            } else {
                None
            },
            call: Some(c.line),
        }
    } else {
        Hop { method: m, acquire: None, call: None }
    }
}

/// The methods from the `k`th on with the distance of `lock` to them, behind `acc`.
pub open spec fn holding(v: IndexV, lock: u32, k: int, acc: Seq<(u32, u8)>) -> Seq<(u32, u8)>
    decreases v.methods.len() - k,
{
    if k >= v.methods.len() {
        acc
    } else {
        holding(
            v,
            lock,
            k + 1,
            match v.dist(k as u32, lock) {
                Some(d) => acc.push((k as u32, d)),
                None => acc,
            },
        )
    }
}

/// The edges that leave `lock`.
pub open spec fn leaves(lock: u32) -> spec_fn(OrderEdge) -> bool {
    |e: OrderEdge| e.from == lock
}

/// The edges that lead to `lock`.
pub open spec fn arrives(lock: u32) -> spec_fn(OrderEdge) -> bool {
    |e: OrderEdge| e.to == lock
}

/// The first edge from the `k`th on from `from` to `to`.
pub open spec fn edge_of(es: Seq<OrderEdge>, from: u32, to: u32, k: int) -> Option<OrderEdge>
    decreases es.len() - k,
{
    if k >= es.len() {
        None
    } else if es[k].from == from && es[k].to == to {
        Some(es[k])
    } else {
        edge_of(es, from, to, k + 1)
    }
}

/// Lock `x` is held around the site of an edge: by the method when it acquires, or on its
/// entry.
pub open spec fn around(v: IndexV, e: OrderEdge, x: u32) -> bool {
    held_with(v.methods[e.method as int].spans, e.to, e.line, x) || v.dist(e.method, x) is Some
}

/// Some span that takes `lock` at the line does so while `x` is held.
pub open spec fn held_with(ss: Seq<SpanIx>, lock: u32, line: u32, x: u32) -> bool {
    exists|i: int|
        0 <= i < ss.len() && (#[trigger] ss[i]).lock == lock && ss[i].enter == line
            && ss[i].held.contains(x)
}

/// The first lock from the `k`th on under which both orders occur.
pub open spec fn gate_from(v: IndexV, a: OrderEdge, b: OrderEdge, k: int) -> Option<u32>
    decreases v.locks.len() - k,
{
    if k >= v.locks.len() {
        None
    } else if k != a.from && k != a.to && around(v, a, k as u32) && around(v, b, k as u32) {
        Some(k as u32)
    } else {
        gate_from(v, a, b, k + 1)
    }
}

/// The lock pairs acquired in both orders among the edges from the `k`th on, behind
/// `acc`: both edges, and the lock under which both occur.
pub open spec fn inverted(
    v: IndexV,
    k: int,
    acc: Seq<(OrderEdge, OrderEdge, Option<u32>)>,
) -> Seq<(OrderEdge, OrderEdge, Option<u32>)>
    decreases v.order.len() - k,
{
    if k >= v.order.len() {
        acc
    } else {
        let a = v.order[k];
        inverted(
            v,
            k + 1,
            match edge_of(v.order, a.to, a.from, 0) {
                Some(b) => if a.from < a.to {
                    acc.push((a, b, gate_from(v, a, b, 0)))
                } else {
                    acc
                },
                None => acc,
            },
        )
    }
}

/// The first target from the `k`th on whose call is a binder call.
pub open spec fn remote_target(ts: Seq<u32>, remote: Seq<u32>, k: int) -> Option<u32>
    decreases ts.len() - k,
{
    if k >= ts.len() {
        None
    } else if remote.contains(ts[k]) {
        Some(ts[k])
    } else {
        remote_target(ts, remote, k + 1)
    }
}

/// The locks held at the call itself from the `j`th on, each once, behind `acc`.
pub open spec fn held_sites(
    c: CallIx,
    k: u32,
    t: u32,
    j: int,
    acc: Seq<(u32, u32, u32, u8)>,
) -> Seq<(u32, u32, u32, u8)>
    decreases c.held.len() - j,
{
    if j >= c.held.len() {
        acc
    } else {
        held_sites(
            c,
            k,
            t,
            j + 1,
            if c.held.take(j).contains(c.held[j]) {
                acc
            } else {
                acc.push((k, t, c.held[j], 0))
            },
        )
    }
}

/// The locks held on entry to the caller within `depth` frames, from the `i`th entry up to
/// the `end`th, but for those held at the call itself, behind `acc`.
pub open spec fn entry_sites(
    v: IndexV,
    k: u32,
    t: u32,
    depth: u8,
    i: int,
    end: int,
    acc: Seq<(u32, u32, u32, u8)>,
) -> Seq<(u32, u32, u32, u8)>
    decreases end - i,
{
    if i >= end {
        acc
    } else {
        entry_sites(
            v,
            k,
            t,
            depth,
            i + 1,
            end,
            if v.may_dist[i] <= depth && !v.calls[k as int].held.contains(v.may_lock[i]) {
                acc.push((k, t, v.may_lock[i], v.may_dist[i]))
            } else {
                acc
            },
        )
    }
}

/// The binder calls from the `k`th call on with each lock held there, behind `acc`.
pub open spec fn remote_sites(
    v: IndexV,
    depth: u8,
    k: int,
    acc: Seq<(u32, u32, u32, u8)>,
) -> Seq<(u32, u32, u32, u8)>
    decreases v.calls.len() - k,
{
    if k >= v.calls.len() {
        acc
    } else {
        let c = v.calls[k];
        remote_sites(
            v,
            depth,
            k + 1,
            match remote_target(c.targets, v.binder, 0) {
                Some(t) => entry_sites(
                    v,
                    k as u32,
                    t,
                    depth,
                    v.may_off[c.caller as int] as int,
                    v.may_off[c.caller + 1] as int,
                    held_sites(c, k as u32, t, 0, acc),
                ),
                None => acc,
            },
        )
    }
}

/// The nearer first.
pub open spec fn site_le() -> spec_fn((u32, u32, u32, u8), (u32, u32, u32, u8)) -> bool {
    |a: (u32, u32, u32, u8), b: (u32, u32, u32, u8)| a.3 <= b.3
}

impl IndexV {
    /// The methods that cover a line of a file, which is named by the last component of
    /// its path.
    pub open spec fn located(self, file: Seq<char>, line: u32) -> Seq<u32> {
        match place_of(self.files, text::tail_of(file, '/'), 0) {
            Some(f) => covering(self.methods, f as u32, line, 0, Seq::empty()),
            None => Seq::empty(),
        }
    }

    /// The locks that may be held on entry to `m`, with their distances, by lock.
    pub open spec fn row(self, m: u32) -> Seq<(u32, u8)> {
        let a = self.may_off[m as int] as int;
        let b = self.may_off[m + 1] as int;
        Seq::new((b - a) as nat, |i: int| (self.may_lock[a + i], self.may_dist[a + i]))
    }

    /// The fewest frames from a holder of `lock` to entry of `m`.
    pub open spec fn dist(self, m: u32, lock: u32) -> Option<u8> {
        dist_from(
            self,
            lock,
            self.may_off[m as int] as int,
            self.may_off[m + 1] as int,
        )
    }

    /// A shortest call path by which `lock` comes to be held on entry to `m`.
    pub open spec fn witness(self, m: u32, lock: u32) -> Option<Seq<Hop>> {
        match self.dist(m, lock) {
            None => None,
            Some(d) => match chain(self, m, lock, d as nat, Seq::empty()) {
                None => None,
                Some(ch) => Some(
                    Seq::new((ch.len() + 1) as nat, |i: int| hop(self, ch, m, lock, i)),
                ),
            },
        }
    }

    /// The methods on whose entry `lock` may be held, nearest first.
    pub open spec fn holders(self, lock: u32) -> Seq<(u32, u8)> {
        sort::sorted(holding(self, lock, 0, Seq::empty()), near_le())
    }

    /// The lock pairs acquired in both orders.
    pub open spec fn inversions(self) -> Seq<(OrderEdge, OrderEdge, Option<u32>)> {
        inverted(self, 0, Seq::empty())
    }

    /// The binder calls made while a lock is held within `depth` frames: call, target,
    /// lock and distance, nearest first.
    pub open spec fn binder_sites(self, depth: u8) -> Seq<(u32, u32, u32, u8)> {
        sort::sorted(remote_sites(self, depth, 0, Seq::empty()), site_le())
    }
}

/// The edges and the lock of the pair exist.
pub open spec fn known_pair(v: IndexV, p: (OrderEdge, OrderEdge, Option<u32>)) -> bool {
    &&& index::edge_in(p.0, v.methods.len() as int, v.locks.len() as int)
    &&& index::edge_in(p.1, v.methods.len() as int, v.locks.len() as int)
    &&& (p.2 matches Some(g) ==> g < v.locks.len())
}

/// The call, the target and the lock of the site exist.
pub open spec fn known_site(v: IndexV, s: (u32, u32, u32, u8)) -> bool {
    s.0 < v.calls.len() && s.1 < v.methods.len() && s.2 < v.locks.len()
}

/// Put `x` in its place.
fn insert_climbing(v: &mut Vec<u32>, x: u32)
    requires
        climbs(old(v)@),
    ensures
        climbs(final(v)@),
        forall|y: u32| #[trigger] final(v)@.contains(y) <==> old(v)@.contains(y) || y == x,
{
    let ghost before = v@;
    let mut k: usize = 0;
    while k < v.len() && v[k] < x
        invariant
            k <= v@.len(),
            v@ == before,
            forall|i: int| 0 <= i < k ==> #[trigger] v@[i] < x,
        decreases v@.len() - k,
    {
        k += 1;
    }
    if k < v.len() && v[k] == x {
        proof {
            assert(v@[k as int] == x);
            assert(v@.contains(x));
        }
        return ;
    }
    v.insert(k, x);
    proof {
        assert(v@ == before.insert(k as int, x));
        assert forall|i: int, j: int| 0 <= i < j < v@.len() implies #[trigger] v@[i]
            < #[trigger] v@[j] by {
            if j < k {
                assert(before[i] < before[j]);
            } else if j == k {
                assert(before[i] < x);
            } else if i < k {
                assert(before[i] < before[j - 1]);
            } else if i == k {
                if j - 1 > k {
                    assert(before[k as int] < before[j - 1]);
                }
            } else {
                assert(before[i - 1] < before[j - 1]);
            }
        }
        assert forall|y: u32| #[trigger] v@.contains(y) <==> before.contains(y) || y == x by {
            if v@.contains(y) && y != x {
                let i = choose|i: int| 0 <= i < v@.len() && v@[i] == y;
                if i < k {
                    assert(before[i] == y);
                } else {
                    assert(before[i - 1] == y);
                }
            }
            if before.contains(y) {
                let i = choose|i: int| 0 <= i < before.len() && before[i] == y;
                if i < k {
                    assert(v@[i] == y);
                } else {
                    assert(v@[i + 1] == y);
                }
            }
            assert(v@[k as int] == x);
        }
    }
}

fn listed_before(s: &Vec<u32>, x: u32, upto: usize) -> (r: bool)
    requires
        upto <= s@.len(),
    ensures
        r == s@.take(upto as int).contains(x),
{
    let ghost t = s@.take(upto as int);
    let mut k: usize = 0;
    while k < upto
        invariant
            k <= upto,
            upto <= s@.len(),
            t == s@.take(upto as int),
            forall|i: int| 0 <= i < k ==> #[trigger] t[i] != x,
        decreases upto - k,
    {
        if s[k] == x {
            proof {
                assert(t[k as int] == x);
            }
            return true;
        }
        k += 1;
    }
    false
}

/// Whether `x` is among the numbers.
pub fn lists_number(s: &Vec<u32>, x: u32) -> (r: bool)
    ensures
        r == s@.contains(x),
{
    proof {
        assert(s@.take(s@.len() as int) =~= s@);
    }
    listed_before(s, x, s.len())
}

fn nearer(a: &(u32, u8), b: &(u32, u8)) -> (r: bool)
    ensures
        r == near_le()(a.deep_view(), b.deep_view()),
{
    a.1 < b.1 || a.1 == b.1 && a.0 <= b.0
}

fn nearer_site(a: &(u32, u32, u32, u8), b: &(u32, u32, u32, u8)) -> (r: bool)
    ensures
        r == site_le()(a.deep_view(), b.deep_view()),
{
    a.3 <= b.3
}

impl Index {
    /// Methods in `file` (basename) whose line range contains `line`.
    pub fn locate(&self, file: &str, line: u32) -> (r: Vec<u32>)
        ensures
            r@ == self.deep_view().located(file@, line),
    {
        let ghost v = self.deep_view();
        let base = text::after_last(file, '/');
        let mut f: usize = 0;
        while f < self.files.len() && !text::str_eq(self.files[f].as_str(), base.as_str())
            invariant
                f <= self.files@.len(),
                v == self.deep_view(),
                place_of(v.files, base@, 0) == place_of(v.files, base@, f as int),
            decreases self.files@.len() - f,
        {
            proof {
                assert(v.files[f as int] == self.files@[f as int]@);
            }
            f += 1;
        }
        let mut out: Vec<u32> = Vec::new();
        if f < self.files.len() {
            proof {
                assert(v.files[f as int] == self.files@[f as int]@);
            }
            let fid: u32 = #[verifier::truncate]
            (f as u32);
            let mut k: usize = 0;
            while k < self.methods.len()
                invariant
                    k <= self.methods@.len(),
                    v == self.deep_view(),
                    covering(v.methods, fid, line, 0, Seq::empty()) == covering(
                        v.methods,
                        fid,
                        line,
                        k as int,
                        out@,
                    ),
                decreases self.methods@.len() - k,
            {
                let m = &self.methods[k];
                proof {
                    assert(v.methods[k as int] == m.deep_view());
                }
                if m.file == fid && m.line_lo <= line && line <= m.line_hi {
                    out.push(
                        #[verifier::truncate]
                        (k as u32),
                    );
                }
                k += 1;
            }
        }
        out
    }

    /// Methods whose key contains `needle`.
    pub fn find_methods(&self, needle: &str) -> (r: Vec<u32>)
        ensures
            r@ == keyed(self.deep_view().methods, needle@, 0, Seq::empty()),
    {
        let ghost v = self.deep_view();
        let mut out: Vec<u32> = Vec::new();
        let mut k: usize = 0;
        while k < self.methods.len()
            invariant
                k <= self.methods@.len(),
                v == self.deep_view(),
                keyed(v.methods, needle@, 0, Seq::empty()) == keyed(
                    v.methods,
                    needle@,
                    k as int,
                    out@,
                ),
            decreases self.methods@.len() - k,
        {
            proof {
                assert(v.methods[k as int] == self.methods@[k as int].deep_view());
            }
            if text::contains(self.methods[k].key.as_str(), needle) {
                out.push(
                    #[verifier::truncate]
                    (k as u32),
                );
            }
            k += 1;
        }
        out
    }

    /// Locks whose name contains `needle`.
    pub fn find_locks(&self, needle: &str) -> (r: Vec<u32>)
        ensures
            r@ == named(self.deep_view().locks, needle@, 0, Seq::empty()),
    {
        let ghost v = self.deep_view();
        let mut out: Vec<u32> = Vec::new();
        let mut k: usize = 0;
        while k < self.locks.len()
            invariant
                k <= self.locks@.len(),
                v == self.deep_view(),
                named(v.locks, needle@, 0, Seq::empty()) == named(
                    v.locks,
                    needle@,
                    k as int,
                    out@,
                ),
            decreases self.locks@.len() - k,
        {
            proof {
                assert(v.locks[k as int] == self.locks@[k as int]@);
            }
            if text::contains(self.locks[k].as_str(), needle) {
                out.push(
                    #[verifier::truncate]
                    (k as u32),
                );
            }
            k += 1;
        }
        out
    }

    /// Locks held intra-procedurally at `line` of method `m`, in ascending order.
    pub fn intra_held(&self, m: u32, line: u32) -> (r: Vec<u32>)
        requires
            m < self.deep_view().methods.len(),
        ensures
            climbs(r@),
            forall|l: u32| #[trigger]
                r@.contains(l) <==> span_holds(
                    self.deep_view().methods[m as int].spans,
                    l,
                    line,
                ),
    {
        let spans = &self.methods[m as usize].spans;
        let ghost sv = self.deep_view().methods[m as int].spans;
        let mut out: Vec<u32> = Vec::new();
        let mut k: usize = 0;
        while k < spans.len()
            invariant
                k <= spans@.len(),
                sv == spans.deep_view(),
                climbs(out@),
                forall|l: u32| #[trigger]
                    out@.contains(l) <==> exists|i: int|
                        0 <= i < k && (#[trigger] sv[i]).lock == l && covers(sv[i], line),
            decreases spans@.len() - k,
        {
            let s = &spans[k];
            let ghost before = out@;
            proof {
                assert(sv[k as int] == s.deep_view());
            }
            if s.enter <= line && line < s.exit {
                insert_climbing(&mut out, s.lock);
            }
            proof {
                assert forall|l: u32| #[trigger]
                    out@.contains(l) <==> exists|i: int|
                        0 <= i < k + 1 && (#[trigger] sv[i]).lock == l && covers(sv[i], line) by {
                    assert(before.contains(l) <==> exists|i: int|
                        0 <= i < k && (#[trigger] sv[i]).lock == l && covers(sv[i], line));
                    if covers(sv[k as int], line) && sv[k as int].lock == l {
                        assert(out@.contains(l));
                    }
                    if before.contains(l) {
                        assert(out@.contains(l));
                    }
                }
            }
            k += 1;
        }
        out
    }

    /// Locks that may be held on entry to `m`, with the fewest frames to a holder,
    /// nearest first.
    pub fn may_held(&self, m: u32) -> (r: Vec<(u32, u8)>)
        requires
            self.deep_view().wf(),
            m < self.deep_view().methods.len(),
        ensures
            r@ == sort::sorted(self.deep_view().row(m), near_le()),
            forall|i: int|
                0 <= i < r@.len() ==> (#[trigger] r@[i]).0 < self.deep_view().locks.len(),
    {
        let ghost v = self.deep_view();
        let n = self.methods.len();
        let a = self.may_off[m as usize] as usize;
        let b = self.may_off[m as usize + 1] as usize;
        let mut out: Vec<(u32, u8)> = Vec::new();
        let mut i = a;
        while i < b
            invariant
                a <= i <= b,
                v == self.deep_view(),
                a == v.may_off[m as int] && b == v.may_off[m + 1],
                b <= v.may_lock.len(),
                v.may_dist.len() == v.may_lock.len(),
                out@ == v.row(m).take(i - a),
            decreases b - i,
        {
            out.push((self.may_lock[i], self.may_dist[i]));
            i += 1;
            proof {
                assert(out@ =~= v.row(m).take(i - a));
            }
        }
        proof {
            assert(out@ =~= v.row(m));
            assert(out.deep_view() =~= out@);
            let known = |x: (u32, u8)| x.0 < v.locks.len();
            assert forall|i: int| 0 <= i < v.row(m).len() implies known(#[trigger] v.row(m)[i]) by {
                assert(v.may_lock[a + i] < v.locks.len());
            }
            sort::lemma_sorted_all(v.row(m), near_le(), known);
            assert forall|i: int| 0 <= i < sort::sorted(v.row(m), near_le()).len() implies (
            #[trigger] sort::sorted(v.row(m), near_le())[i]).0 < v.locks.len() by {
                assert(known(sort::sorted(v.row(m), near_le())[i]));
            }
        }
        let r = sort::sort_by(out, &nearer, Ghost(near_le()));
        proof {
            assert(r.deep_view() =~= r@);
        }
        r
    }

    /// Frames from a holder of `lock` to entry of `m`, if `lock` may be held there.
    pub fn dist(&self, m: u32, lock: u32) -> (r: Option<u8>)
        requires
            self.deep_view().wf(),
            m < self.deep_view().methods.len(),
        ensures
            r == self.deep_view().dist(m, lock),
    {
        let ghost v = self.deep_view();
        let n = self.methods.len();
        let a = self.may_off[m as usize] as usize;
        let b = self.may_off[m as usize + 1] as usize;
        let mut i = a;
        while i < b
            invariant
                a <= i <= b,
                v == self.deep_view(),
                b <= v.may_lock.len(),
                v.may_dist.len() == v.may_lock.len(),
                v.dist(m, lock) == dist_from(v, lock, i as int, b as int),
            decreases b - i,
        {
            if self.may_lock[i] == lock {
                return Some(self.may_dist[i]);
            }
            i += 1;
        }
        None
    }

    /// The first call site of `m` that brings `lock` `d` frames down.
    fn caller_bringing(&self, m: u32, lock: u32, d: u8) -> (r: Option<u32>)
        requires
            self.deep_view().wf(),
            m < self.deep_view().methods.len(),
            d > 0,
        ensures
            r == bringing(
                self.deep_view(),
                lock,
                d as nat,
                self.deep_view().caller_off[m as int] as int,
                self.deep_view().caller_off[m + 1] as int,
            ),
            r matches Some(k) ==> k < self.deep_view().calls.len(),
    {
        let ghost v = self.deep_view();
        let n = self.methods.len();
        let a = self.caller_off[m as usize] as usize;
        let b = self.caller_off[m as usize + 1] as usize;
        let mut i = a;
        while i < b
            invariant
                a <= i <= b,
                v == self.deep_view(),
                v.wf(),
                d > 0,
                b <= v.callers.len(),
                bringing(v, lock, d as nat, a as int, b as int) == bringing(
                    v,
                    lock,
                    d as nat,
                    i as int,
                    b as int,
                ),
                a == v.caller_off[m as int] && b == v.caller_off[m + 1],
            decreases b - i,
        {
            let k = self.callers[i];
            proof {
                assert(v.callers[i as int] < v.calls.len());
            }
            let c = &self.calls[k as usize];
            proof {
                assert(v.calls[k as int] == c.deep_view());
                assert(index::call_in(
                    v.calls[k as int],
                    v.methods.len() as int,
                    v.locks.len() as int,
                ));
            }
            let brings = if d == 1 {
                lists_number(&c.held, lock)
            } else {
                match self.dist(c.caller, lock) {
                    Some(x) => x == d - 1,
                    None => false,
                }
            };
            if brings {
                return Some(k);
            }
            i += 1;
        }
        None
    }

    /// A shortest call path by which `lock` comes to be held on entry to `m`, from
    /// the frame that acquires it down to `m`. `None` if `lock` is not may-held.
    pub fn witness(&self, m: u32, lock: u32) -> (r: Option<Vec<Hop>>)
        requires
            self.deep_view().wf(),
            m < self.deep_view().methods.len(),
        ensures
            r.deep_view() == self.deep_view().witness(m, lock),
            r matches Some(p) ==> forall|i: int|
                0 <= i < p@.len() ==> (#[trigger] p@[i]).method < self.deep_view().methods.len(),
    {
        let ghost v = self.deep_view();
        let d0 = match self.dist(m, lock) {
            None => {
                return None;
            },
            Some(d) => d,
        };
        let mut ch: Vec<u32> = Vec::new();
        let mut cur = m;
        let mut d = d0;
        while d > 0
            invariant
                v == self.deep_view(),
                v.wf(),
                cur < v.methods.len(),
                v.dist(m, lock) == Some(d0),
                chain(v, m, lock, d0 as nat, Seq::empty()) == chain(v, cur, lock, d as nat, ch@),
                forall|i: int| 0 <= i < ch@.len() ==> #[trigger] ch@[i] < v.calls.len(),
                ch@.len() + d == d0,
            decreases d,
        {
            match self.caller_bringing(cur, lock, d) {
                None => {
                    return None;
                },
                Some(k) => {
                    ch.push(k);
                    cur = self.calls[k as usize].caller;
                    proof {
                        assert(v.calls[k as int] == self.calls@[k as int].deep_view());
                        assert(index::call_in(
                            v.calls[k as int],
                            v.methods.len() as int,
                            v.locks.len() as int,
                        ));
                    }
                    d -= 1;
                },
            }
        }
        let n = ch.len();
        let mut path: Vec<Hop> = Vec::new();
        let mut i: usize = 0;
        while i < n
            invariant
                i <= n,
                n == ch@.len(),
                v == self.deep_view(),
                v.wf(),
                forall|i: int| 0 <= i < ch@.len() ==> #[trigger] ch@[i] < v.calls.len(),
                path@ == Seq::new(i as nat, |j: int| hop(v, ch@, m, lock, j)),
                forall|j: int| 0 <= j < i ==> (#[trigger] path@[j]).method < v.methods.len(),
            decreases n - i,
        {
            let k = ch[n - 1 - i];
            let c = &self.calls[k as usize];
            proof {
                assert(v.calls[k as int] == c.deep_view());
                assert(index::call_in(
                    v.calls[k as int],
                    v.methods.len() as int,
                    v.locks.len() as int,
                ));
                assert(v.methods[c.caller as int] == self.methods@[c.caller as int].deep_view());
            }
            let acquire = if i == 0 {
                self.taken(c.caller, lock, c.line)
            } else {
                None
            };
            path.push(Hop { method: c.caller, acquire, call: Some(c.line) });
            i += 1;
            proof {
                assert(path@ =~= Seq::new(i as nat, |j: int| hop(v, ch@, m, lock, j)));
            }
        }
        path.push(Hop { method: m, acquire: None, call: None });
        proof {
            assert(path.deep_view() =~= path@);
            assert(path@ =~= Seq::new((n + 1) as nat, |j: int| hop(v, ch@, m, lock, j)));
        }
        Some(path)
    }

    /// Where method `m` takes `lock` to hold it at `line`.
    pub fn taken(&self, m: u32, lock: u32, line: u32) -> (r: Option<u32>)
        requires
            m < self.deep_view().methods.len(),
        ensures
            r == taken_at(self.deep_view().methods[m as int].spans, lock, line, 0),
    {
        let spans = &self.methods[m as usize].spans;
        let ghost sv = self.deep_view().methods[m as int].spans;
        let mut k: usize = 0;
        while k < spans.len()
            invariant
                k <= spans@.len(),
                sv == spans.deep_view(),
                taken_at(sv, lock, line, 0) == taken_at(sv, lock, line, k as int),
                sv == self.deep_view().methods[m as int].spans,
            decreases spans@.len() - k,
        {
            let s = &spans[k];
            proof {
                assert(sv[k as int] == s.deep_view());
            }
            if s.lock == lock && s.enter <= line && line < s.exit {
                return Some(s.enter);
            }
            k += 1;
        }
        None
    }

    /// Acquisition sites of `lock`, (method, line), in ascending order.
    pub fn sites(&self, lock: u32) -> (r: Vec<(u32, u32)>)
        requires
            self.deep_view().wf(),
        ensures
            forall|i: int, j: int|
                0 <= i < j < r@.len() ==> (#[trigger] r@[i]).0 < (#[trigger] r@[j]).0 || r@[i].0
                    == r@[j].0 && r@[i].1 < r@[j].1,
            forall|m: u32, line: u32|
                #![trigger r@.contains((m, line))]
                r@.contains((m, line)) <==> m < self.deep_view().methods.len() && span_takes(
                    self.deep_view().methods[m as int].spans,
                    lock,
                    line,
                ),
    {
        let ghost v = self.deep_view();
        let n = self.methods.len();
        let mut out: Vec<(u32, u32)> = Vec::new();
        let mut k: usize = 0;
        while k < n
            invariant
                k <= n,
                n == self.methods@.len(),
                n <= u32::MAX,
                v == self.deep_view(),
                forall|i: int, j: int|
                    0 <= i < j < out@.len() ==> (#[trigger] out@[i]).0 < (#[trigger] out@[j]).0
                        || out@[i].0 == out@[j].0 && out@[i].1 < out@[j].1,
                forall|i: int| 0 <= i < out@.len() ==> (#[trigger] out@[i]).0 < k,
                forall|m: u32, line: u32|
                    #![trigger out@.contains((m, line))]
                    out@.contains((m, line)) <==> m < k && span_takes(
                        v.methods[m as int].spans,
                        lock,
                        line,
                    ),
            decreases n - k,
        {
            let lines = self.lines_taking(k as u32, lock);
            let ghost before = out@;
            let mut j: usize = 0;
            while j < lines.len()
                invariant
                    j <= lines@.len(),
                    k < n,
                    n <= u32::MAX,
                    climbs(lines@),
                    forall|i: int| 0 <= i < before.len() ==> (#[trigger] before[i]).0 < k,
                    forall|i: int, j: int|
                        0 <= i < j < before.len() ==> (#[trigger] before[i]).0 < (
                        #[trigger] before[j]).0 || before[i].0 == before[j].0 && before[i].1
                            < before[j].1,
                    out@.len() == before.len() + j,
                    forall|i: int| 0 <= i < before.len() ==> #[trigger] out@[i] == before[i],
                    forall|i: int|
                        before.len() <= i < out@.len() ==> #[trigger] out@[i] == (
                            k as u32,
                            lines@[i - before.len()],
                        ),
                decreases lines@.len() - j,
            {
                out.push((k as u32, lines[j]));
                j += 1;
            }
            proof {
                assert forall|i: int, j: int| 0 <= i < j < out@.len() implies (#[trigger] out@[i]).0
                    < (#[trigger] out@[j]).0 || out@[i].0 == out@[j].0 && out@[i].1 < out@[j].1 by {
                    if j < before.len() {
                        assert(out@[i] == before[i] && out@[j] == before[j]);
                    } else if i >= before.len() {
                        assert(lines@[i - before.len()] < lines@[j - before.len()]);
                    }
                }
                assert forall|m: u32, line: u32|
                    #![trigger out@.contains((m, line))]
                    out@.contains((m, line)) <==> m < k + 1 && span_takes(
                        v.methods[m as int].spans,
                        lock,
                        line,
                    ) by {
                    if out@.contains((m, line)) {
                        let i = choose|i: int| 0 <= i < out@.len() && out@[i] == (m, line);
                        if i < before.len() {
                            assert(before[i] == (m, line));
                            assert(before.contains((m, line)));
                        } else {
                            assert(lines@[i - before.len()] == line);
                            assert(lines@.contains(line));
                        }
                    }
                    if m < k + 1 && span_takes(v.methods[m as int].spans, lock, line) {
                        if m < k {
                            assert(before.contains((m, line)));
                            let i = choose|i: int|
                                0 <= i < before.len() && before[i] == (m, line);
                            assert(out@[i] == (m, line));
                        } else {
                            assert(lines@.contains(line));
                            let i = choose|i: int| 0 <= i < lines@.len() && lines@[i] == line;
                            assert(out@[before.len() + i] == (m, line));
                        }
                    }
                }
            }
            k += 1;
        }
        out
    }

    /// The lines at which method `m` takes `lock`, in ascending order.
    fn lines_taking(&self, m: u32, lock: u32) -> (r: Vec<u32>)
        requires
            m < self.deep_view().methods.len(),
        ensures
            climbs(r@),
            forall|line: u32| #[trigger]
                r@.contains(line) <==> span_takes(
                    self.deep_view().methods[m as int].spans,
                    lock,
                    line,
                ),
    {
        let spans = &self.methods[m as usize].spans;
        let ghost sv = self.deep_view().methods[m as int].spans;
        let mut out: Vec<u32> = Vec::new();
        let mut k: usize = 0;
        while k < spans.len()
            invariant
                k <= spans@.len(),
                sv == spans.deep_view(),
                climbs(out@),
                forall|line: u32| #[trigger]
                    out@.contains(line) <==> exists|i: int|
                        0 <= i < k && (#[trigger] sv[i]).lock == lock && sv[i].enter == line,
            decreases spans@.len() - k,
        {
            let s = &spans[k];
            let ghost before = out@;
            proof {
                assert(sv[k as int] == s.deep_view());
            }
            if s.lock == lock {
                insert_climbing(&mut out, s.enter);
            }
            proof {
                assert forall|line: u32| #[trigger]
                    out@.contains(line) <==> exists|i: int|
                        0 <= i < k + 1 && (#[trigger] sv[i]).lock == lock && sv[i].enter == line by {
                    assert(before.contains(line) <==> exists|i: int|
                        0 <= i < k && (#[trigger] sv[i]).lock == lock && sv[i].enter == line);
                    if sv[k as int].lock == lock && sv[k as int].enter == line {
                        assert(out@.contains(line));
                    }
                    if before.contains(line) {
                        assert(out@.contains(line));
                    }
                }
            }
            k += 1;
        }
        out
    }

    /// Methods on whose entry `lock` may be held, with distance, nearest first.
    pub fn holders(&self, lock: u32) -> (r: Vec<(u32, u8)>)
        requires
            self.deep_view().wf(),
        ensures
            r@ == self.deep_view().holders(lock),
            forall|i: int|
                0 <= i < r@.len() ==> (#[trigger] r@[i]).0 < self.deep_view().methods.len(),
    {
        let ghost v = self.deep_view();
        let n = self.methods.len();
        let mut out: Vec<(u32, u8)> = Vec::new();
        let mut k: usize = 0;
        while k < n
            invariant
                k <= n,
                n == self.methods@.len(),
                n <= u32::MAX,
                v == self.deep_view(),
                v.wf(),
                holding(v, lock, 0, Seq::empty()) == holding(v, lock, k as int, out@),
                forall|i: int| 0 <= i < out@.len() ==> (#[trigger] out@[i]).0 < n,
            decreases n - k,
        {
            match self.dist(k as u32, lock) {
                Some(d) => out.push((k as u32, d)),
                None => {},
            }
            k += 1;
        }
        proof {
            assert(out.deep_view() =~= out@);
            let known = |x: (u32, u8)| x.0 < n;
            sort::lemma_sorted_all(out@, near_le(), known);
            assert forall|i: int| 0 <= i < sort::sorted(out@, near_le()).len() implies (
            #[trigger] sort::sorted(out@, near_le())[i]).0 < n by {
                assert(known(sort::sorted(out@, near_le())[i]));
            }
        }
        let r = sort::sort_by(out, &nearer, Ghost(near_le()));
        proof {
            assert(r.deep_view() =~= r@);
        }
        r
    }

    /// The order edges that leave `lock`.
    pub fn order_out(&self, lock: u32) -> (r: Vec<&OrderEdge>)
        ensures
            r.deep_view() == self.deep_view().order.filter(leaves(lock)),
            forall|e: OrderEdge| #[trigger]
                r.deep_view().contains(e) <==> self.deep_view().order.contains(e) && e.from == lock,
            self.deep_view().wf() ==> forall|i: int|
                0 <= i < r@.len() ==> index::edge_in(
                    *#[trigger] r@[i],
                    self.deep_view().methods.len() as int,
                    self.deep_view().locks.len() as int,
                ),
    {
        let ghost v = self.deep_view();
        let mut out: Vec<&OrderEdge> = values::empty();
        let mut k: usize = 0;
        while k < self.order.len()
            invariant
                k <= self.order@.len(),
                v == self.deep_view(),
                out.deep_view() == v.order.take(k as int).filter(leaves(lock)),
                v.wf() ==> forall|i: int|
                    0 <= i < out@.len() ==> index::edge_in(
                        *#[trigger] out@[i],
                        v.methods.len() as int,
                        v.locks.len() as int,
                    ),
            decreases self.order@.len() - k,
        {
            let e = &self.order[k];
            proof {
                let t = v.order.take(k + 1);
                assert(t.drop_last() =~= v.order.take(k as int));
                assert(t.last() == v.order[k as int]);
                reveal(Seq::filter);
            }
            if e.from == lock {
                values::push(&mut out, e);
            }
            k += 1;
        }
        proof {
            assert(v.order.take(k as int) =~= v.order);
            assert forall|e: OrderEdge| #[trigger]
                out.deep_view().contains(e) <==> v.order.contains(e) && e.from == lock by {
                answers::lemma_filtered(v.order, leaves(lock), e);
            }
        }
        out
    }

    /// The order edges that lead to `lock`.
    pub fn order_in(&self, lock: u32) -> (r: Vec<&OrderEdge>)
        ensures
            r.deep_view() == self.deep_view().order.filter(arrives(lock)),
            forall|e: OrderEdge| #[trigger]
                r.deep_view().contains(e) <==> self.deep_view().order.contains(e) && e.to == lock,
            self.deep_view().wf() ==> forall|i: int|
                0 <= i < r@.len() ==> index::edge_in(
                    *#[trigger] r@[i],
                    self.deep_view().methods.len() as int,
                    self.deep_view().locks.len() as int,
                ),
    {
        let ghost v = self.deep_view();
        let mut out: Vec<&OrderEdge> = values::empty();
        let mut k: usize = 0;
        while k < self.order.len()
            invariant
                k <= self.order@.len(),
                v == self.deep_view(),
                out.deep_view() == v.order.take(k as int).filter(arrives(lock)),
                v.wf() ==> forall|i: int|
                    0 <= i < out@.len() ==> index::edge_in(
                        *#[trigger] out@[i],
                        v.methods.len() as int,
                        v.locks.len() as int,
                    ),
            decreases self.order@.len() - k,
        {
            let e = &self.order[k];
            proof {
                let t = v.order.take(k + 1);
                assert(t.drop_last() =~= v.order.take(k as int));
                assert(t.last() == v.order[k as int]);
                reveal(Seq::filter);
            }
            if e.to == lock {
                values::push(&mut out, e);
            }
            k += 1;
        }
        proof {
            assert(v.order.take(k as int) =~= v.order);
            assert forall|e: OrderEdge| #[trigger]
                out.deep_view().contains(e) <==> v.order.contains(e) && e.to == lock by {
                answers::lemma_filtered(v.order, arrives(lock), e);
            }
        }
        out
    }

    fn edge_between(&self, from: u32, to: u32) -> (r: Option<OrderEdge>)
        ensures
            r == edge_of(self.deep_view().order, from, to, 0),
            r matches Some(e) ==> self.deep_view().order.contains(e),
    {
        let ghost es = self.deep_view().order;
        let mut k: usize = 0;
        while k < self.order.len()
            invariant
                k <= self.order@.len(),
                es == self.order@,
                edge_of(es, from, to, 0) == edge_of(es, from, to, k as int),
            decreases self.order@.len() - k,
        {
            if self.order[k].from == from && self.order[k].to == to {
                return Some(self.order[k]);
            }
            k += 1;
        }
        None
    }

    fn is_around(&self, e: OrderEdge, x: u32) -> (r: bool)
        requires
            self.deep_view().wf(),
            e.method < self.deep_view().methods.len(),
        ensures
            r == around(self.deep_view(), e, x),
    {
        let spans = &self.methods[e.method as usize].spans;
        let ghost sv = self.deep_view().methods[e.method as int].spans;
        let mut k: usize = 0;
        while k < spans.len()
            invariant
                k <= spans@.len(),
                sv == spans.deep_view(),
                sv == self.deep_view().methods[e.method as int].spans,
                forall|i: int|
                    0 <= i < k ==> !((#[trigger] sv[i]).lock == e.to && sv[i].enter == e.line
                        && sv[i].held.contains(x)),
            decreases spans@.len() - k,
        {
            let s = &spans[k];
            proof {
                assert(sv[k as int] == s.deep_view());
            }
            if s.lock == e.to && s.enter == e.line && lists_number(&s.held, x) {
                return true;
            }
            k += 1;
        }
        self.dist(e.method, x).is_some()
    }

    /// The lock pairs acquired in both orders — the concrete deadlock candidates: the
    /// edges of both orders, and where there is one, the lock under which both occur, so
    /// that they serialize.
    pub fn inversions(&self) -> (r: Vec<(OrderEdge, OrderEdge, Option<u32>)>)
        requires
            self.deep_view().wf(),
        ensures
            r@ == self.deep_view().inversions(),
            forall|i: int| 0 <= i < r@.len() ==> known_pair(self.deep_view(), #[trigger] r@[i]),
    {
        let ghost v = self.deep_view();
        let locks = self.locks.len();
        let mut out: Vec<(OrderEdge, OrderEdge, Option<u32>)> = Vec::new();
        let mut k: usize = 0;
        while k < self.order.len()
            invariant
                k <= self.order@.len(),
                v == self.deep_view(),
                v.wf(),
                locks == v.locks.len(),
                inverted(v, 0, Seq::empty()) == inverted(v, k as int, out@),
                forall|i: int| 0 <= i < out@.len() ==> known_pair(v, #[trigger] out@[i]),
            decreases self.order@.len() - k,
        {
            let a = self.order[k];
            proof {
                assert(index::edge_in(
                    v.order[k as int],
                    v.methods.len() as int,
                    v.locks.len() as int,
                ));
            }
            match self.edge_between(a.to, a.from) {
                Some(b) => {
                    if a.from < a.to {
                        proof {
                            let i = choose|i: int| 0 <= i < v.order.len() && v.order[i] == b;
                            assert(index::edge_in(
                                v.order[i],
                                v.methods.len() as int,
                                v.locks.len() as int,
                            ));
                        }
                        let mut gate: Option<u32> = None;
                        let mut x: usize = 0;
                        while x < locks && gate.is_none()
                            invariant
                                x <= locks,
                                v == self.deep_view(),
                                v.wf(),
                                locks == v.locks.len(),
                                a.method < v.methods.len(),
                                b.method < v.methods.len(),
                                match gate {
                                    None => gate_from(v, a, b, 0) == gate_from(v, a, b, x as int),
                                    Some(g) => gate_from(v, a, b, 0) == Some(g) && g < locks,
                                },
                            decreases locks - x,
                        {
                            let l = x as u32;
                            if l != a.from && l != a.to && self.is_around(a, l) && self.is_around(
                                b,
                                l,
                            ) {
                                gate = Some(l);
                            }
                            x += 1;
                        }
                        out.push((a, b, gate));
                    }
                },
                None => {},
            }
            k += 1;
        }
        out
    }

    /// Binder calls made while a lock is held at the call or within `depth` frames above
    /// it: (call, target, lock, frames), nearest first.
    pub fn binder_sites(&self, depth: u8) -> (r: Vec<(u32, u32, u32, u8)>)
        requires
            self.deep_view().wf(),
        ensures
            r@ == self.deep_view().binder_sites(depth),
            forall|i: int| 0 <= i < r@.len() ==> known_site(self.deep_view(), #[trigger] r@[i]),
    {
        let ghost v = self.deep_view();
        let n = self.calls.len();
        let flags = self.remote_flags();
        let mut out: Vec<(u32, u32, u32, u8)> = Vec::new();
        let mut k: usize = 0;
        while k < n
            invariant
                k <= n,
                n == self.calls@.len(),
                n <= u32::MAX,
                v == self.deep_view(),
                v.wf(),
                flags@.len() == v.methods.len(),
                forall|t: int|
                    0 <= t < flags@.len() ==> #[trigger] flags@[t] == v.binder.contains(t as u32),
                remote_sites(v, depth, 0, Seq::empty()) == remote_sites(
                    v,
                    depth,
                    k as int,
                    out@,
                ),
                forall|i: int| 0 <= i < out@.len() ==> known_site(v, #[trigger] out@[i]),
            decreases n - k,
        {
            let c = &self.calls[k];
            proof {
                assert(v.calls[k as int] == c.deep_view());
                assert(index::call_in(
                    v.calls[k as int],
                    v.methods.len() as int,
                    v.locks.len() as int,
                ));
            }
            match first_flagged(&c.targets, &flags, Ghost(v.binder)) {
                None => {},
                Some(t) => {
                    let ghost cv = c.deep_view();
                    let ghost begin = out@;
                    let mut j: usize = 0;
                    while j < c.held.len()
                        invariant
                            j <= c.held@.len(),
                            cv == c.deep_view(),
                            k < v.calls.len(),
                            k <= u32::MAX,
                            t < v.methods.len(),
                            index::all_below(c.held@, v.locks.len() as int),
                            forall|i: int| 0 <= i < out@.len() ==> known_site(v, #[trigger] out@[i]),
                            held_sites(cv, k as u32, t, 0, begin) == held_sites(
                                cv,
                                k as u32,
                                t,
                                j as int,
                                out@,
                            ),
                        decreases c.held@.len() - j,
                    {
                        if !listed_before(&c.held, c.held[j], j) {
                            out.push((k as u32, t, c.held[j], 0));
                        }
                        j += 1;
                    }
                    let methods = self.methods.len();
                    let a = self.may_off[c.caller as usize] as usize;
                    let b = self.may_off[c.caller as usize + 1] as usize;
                    let ghost mid = out@;
                    let mut i = a;
                    while i < b
                        invariant
                            a <= i <= b,
                            v == self.deep_view(),
                            k < v.calls.len(),
                            k <= u32::MAX,
                            v.calls[k as int] == c.deep_view(),
                            b <= v.may_lock.len(),
                            v.may_dist.len() == v.may_lock.len(),
                            t < v.methods.len(),
                            index::all_below(v.may_lock, v.locks.len() as int),
                            forall|i: int| 0 <= i < out@.len() ==> known_site(v, #[trigger] out@[i]),
                            entry_sites(v, k as u32, t, depth, a as int, b as int, mid)
                                == entry_sites(
                                v,
                                k as u32,
                                t,
                                depth,
                                i as int,
                                b as int,
                                out@,
                            ),
                        decreases b - i,
                    {
                        if self.may_dist[i] <= depth && !lists_number(&c.held, self.may_lock[i]) {
                            out.push((k as u32, t, self.may_lock[i], self.may_dist[i]));
                        }
                        i += 1;
                    }
                },
            }
            k += 1;
        }
        proof {
            assert(out.deep_view() =~= out@);
            let known = |x: (u32, u32, u32, u8)| known_site(v, x);
            sort::lemma_sorted_all(out@, site_le(), known);
            assert forall|i: int| 0 <= i < sort::sorted(out@, site_le()).len() implies known_site(
                v,
                #[trigger] sort::sorted(out@, site_le())[i],
            ) by {
                assert(known(sort::sorted(out@, site_le())[i]));
            }
        }
        let r = sort::sort_by(out, &nearer_site, Ghost(site_le()));
        proof {
            assert(r.deep_view() =~= r@);
        }
        r
    }

    /// For each method whether its call is a binder call.
    fn remote_flags(&self) -> (r: Vec<bool>)
        requires
            index::all_below(self.binder@, self.methods@.len() as int),
            self.methods@.len() <= u32::MAX,
        ensures
            r@.len() == self.methods@.len(),
            forall|t: int| 0 <= t < r@.len() ==> #[trigger] r@[t] == self.binder@.contains(t as u32),
    {
        let n = self.methods.len();
        let mut out: Vec<bool> = Vec::new();
        let mut i: usize = 0;
        while i < n
            invariant
                i <= n,
                out@.len() == i,
                forall|t: int| 0 <= t < i ==> !#[trigger] out@[t],
            decreases n - i,
        {
            out.push(false);
            i += 1;
        }
        let mut k: usize = 0;
        while k < self.binder.len()
            invariant
                k <= self.binder@.len(),
                n == self.methods@.len(),
                n <= u32::MAX,
                out@.len() == n,
                index::all_below(self.binder@, n as int),
                forall|t: int|
                    0 <= t < n ==> #[trigger] out@[t] == self.binder@.take(k as int).contains(
                        t as u32,
                    ),
            decreases self.binder@.len() - k,
        {
            let x = self.binder[k] as usize;
            let ghost before = out@;
            let ghost a = self.binder@.take(k as int);
            let ghost b = self.binder@.take(k + 1);
            proof {
                assert(self.binder@[k as int] < n);
            }
            out.set(x, true);
            k += 1;
            proof {
                assert(b =~= a.push(x as u32));
                assert forall|t: int| 0 <= t < n implies #[trigger] out@[t] == b.contains(
                    t as u32,
                ) by {
                    assert(before[t] == a.contains(t as u32));
                    if t == x {
                        assert(b[k - 1] == x as u32);
                    } else {
                        if a.contains(t as u32) {
                            let i = choose|i: int| 0 <= i < a.len() && a[i] == t as u32;
                            assert(b[i] == t as u32);
                        }
                        if b.contains(t as u32) {
                            let i = choose|i: int| 0 <= i < b.len() && b[i] == t as u32;
                            if i < a.len() {
                                assert(a[i] == t as u32);
                            } else {
                                assert(x as u32 == t as u32);
                            }
                        }
                    }
                }
            }
        }
        proof {
            assert(self.binder@.take(k as int) =~= self.binder@);
        }
        out
    }
}

fn first_flagged(ts: &Vec<u32>, flags: &Vec<bool>, Ghost(remote): Ghost<Seq<u32>>) -> (r: Option<u32>)
    requires
        index::all_below(ts@, flags@.len() as int),
        forall|t: int| 0 <= t < flags@.len() ==> #[trigger] flags@[t] == remote.contains(t as u32),
    ensures
        r == remote_target(ts@, remote, 0),
        r matches Some(t) ==> t < flags@.len(),
{
    let mut k: usize = 0;
    while k < ts.len()
        invariant
            k <= ts@.len(),
            index::all_below(ts@, flags@.len() as int),
            forall|t: int|
                0 <= t < flags@.len() ==> #[trigger] flags@[t] == remote.contains(t as u32),
            remote_target(ts@, remote, 0) == remote_target(ts@, remote, k as int),
        decreases ts@.len() - k,
    {
        let t = ts[k];
        if flags[t as usize] {
            return Some(t);
        }
        k += 1;
    }
    None
}

} // verus!

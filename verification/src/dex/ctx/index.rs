//! The lock-context index itself: its tables, and what makes them consistent.

use vstd::prelude::*;

verus! {

/// A lock acquisition and the source-line range it is held over.
#[derive(Debug)]
pub struct Span {
    pub lock: u32,
    pub enter: u32,
    /// Exclusive; the greatest line when the release was not observed in the method.
    pub exit: u32,
    /// Locks (intra-procedural) already held when this one was taken.
    pub held: Vec<u32>,
}

/// A call site: where in the caller, what is held there, and what it may reach.
#[derive(Debug)]
pub struct Call {
    pub caller: u32,
    pub line: u32,
    /// Locks held intra-procedurally at the call.
    pub held: Vec<u32>,
    /// Resolved target methods (static target plus bounded overrides).
    pub targets: Vec<u32>,
}

/// A method, its lock spans, and the range of its call sites.
#[derive(Debug)]
pub struct MethodRec {
    pub key: String,
    pub file: u32,
    pub line_lo: u32,
    pub line_hi: u32,
    pub spans: Vec<Span>,
    /// Range into [`Index::calls`] of this method's call sites.
    pub calls: (u32, u32),
}

/// `to` is acquired while `from` is held; `method`/`line` is one such site and
/// `dist` how many frames away `from` was taken there (0 = same method).
#[derive(Clone, Copy, Debug, PartialEq, Eq, Structural)]
pub struct OrderEdge {
    pub from: u32,
    pub to: u32,
    pub count: u32,
    pub method: u32,
    pub line: u32,
    pub dist: u8,
}

/// The lock-context index.
pub struct Index {
    pub methods: Vec<MethodRec>,
    pub locks: Vec<String>,
    pub files: Vec<String>,
    pub calls: Vec<Call>,
    /// Rows end to end: `callers[caller_off[m]..caller_off[m+1]]` are indices into
    /// `calls` whose targets hold `m`.
    pub callers: Vec<u32>,
    pub caller_off: Vec<u32>,
    /// Rows end to end: `may_lock/may_dist[may_off[m]..may_off[m+1]]` — locks that may be
    /// held on entry to `m`, sorted by lock, with the fewest frames to a holder.
    pub may_off: Vec<u32>,
    pub may_lock: Vec<u32>,
    pub may_dist: Vec<u8>,
    pub order: Vec<OrderEdge>,
    /// Methods whose call is a binder call, ascending.
    pub binder: Vec<u32>,
}

/// One frame of a witness path, from the acquiring method down to the queried one.
#[derive(Clone, Copy, Debug, PartialEq, Eq, Structural)]
pub struct Hop {
    pub method: u32,
    /// Where this frame acquires the lock (head frame only).
    pub acquire: Option<u32>,
    /// Where this frame calls the next one (all but the last frame).
    pub call: Option<u32>,
}

/// Build options.
#[derive(Clone, Copy, Debug)]
pub struct Options {
    /// Link a virtual/interface call to its overrides only when the program has at
    /// most this many declarations of that signature; larger sets are left
    /// unlinked (static target only).
    pub cha_cap: usize,
    /// Furthest (in call frames) a held lock propagates; beyond this it is dropped.
    pub max_depth: u8,
    /// Lock-order edges relate an acquisition only to locks taken within this
    /// many frames.
    pub order_depth: u8,
}

impl Default for Options {
    fn default() -> (r: Self)
        ensures
            r == (Options { cha_cap: 16, max_depth: 8, order_depth: 3 }),
    {
        Options { cha_cap: 16, max_depth: 8, order_depth: 3 }
    }
}

impl Default for Index {
    fn default() -> (r: Self)
        ensures
            r.deep_view() == IndexV::none(),
    {
        let r = Index {
            methods: Vec::new(),
            locks: Vec::new(),
            files: Vec::new(),
            calls: Vec::new(),
            callers: Vec::new(),
            caller_off: Vec::new(),
            may_off: Vec::new(),
            may_lock: Vec::new(),
            may_dist: Vec::new(),
            order: Vec::new(),
            binder: Vec::new(),
        };
        proof {
            assert(r.methods.deep_view() =~= Seq::empty());
            assert(r.locks.deep_view() =~= Seq::empty());
            assert(r.files.deep_view() =~= Seq::empty());
            assert(r.calls.deep_view() =~= Seq::empty());
        }
        r
    }
}

/// What a span holds.
pub struct SpanIx {
    pub lock: u32,
    pub enter: u32,
    pub exit: u32,
    pub held: Seq<u32>,
}

/// What a call site holds.
pub struct CallIx {
    pub caller: u32,
    pub line: u32,
    pub held: Seq<u32>,
    pub targets: Seq<u32>,
}

/// What a method record holds.
pub struct MethodIx {
    pub key: Seq<char>,
    pub file: u32,
    pub line_lo: u32,
    pub line_hi: u32,
    pub spans: Seq<SpanIx>,
    pub calls: (u32, u32),
}

/// What an index holds.
#[verifier::ext_equal]
pub struct IndexV {
    pub methods: Seq<MethodIx>,
    pub locks: Seq<Seq<char>>,
    pub files: Seq<Seq<char>>,
    pub calls: Seq<CallIx>,
    pub callers: Seq<u32>,
    pub caller_off: Seq<u32>,
    pub may_off: Seq<u32>,
    pub may_lock: Seq<u32>,
    pub may_dist: Seq<u8>,
    pub order: Seq<OrderEdge>,
    pub binder: Seq<u32>,
}

impl DeepView for Span {
    type V = SpanIx;

    open spec fn deep_view(&self) -> SpanIx {
        SpanIx { lock: self.lock, enter: self.enter, exit: self.exit, held: self.held@ }
    }
}

impl DeepView for Call {
    type V = CallIx;

    open spec fn deep_view(&self) -> CallIx {
        CallIx {
            caller: self.caller,
            line: self.line,
            held: self.held@,
            targets: self.targets@,
        }
    }
}

impl DeepView for MethodRec {
    type V = MethodIx;

    open spec fn deep_view(&self) -> MethodIx {
        MethodIx {
            key: self.key@,
            file: self.file,
            line_lo: self.line_lo,
            line_hi: self.line_hi,
            spans: self.spans.deep_view(),
            calls: self.calls,
        }
    }
}

impl DeepView for OrderEdge {
    type V = OrderEdge;

    open spec fn deep_view(&self) -> OrderEdge {
        *self
    }
}

impl DeepView for Hop {
    type V = Hop;

    open spec fn deep_view(&self) -> Hop {
        *self
    }
}

impl DeepView for Index {
    type V = IndexV;

    open spec fn deep_view(&self) -> IndexV {
        IndexV {
            methods: self.methods.deep_view(),
            locks: self.locks.deep_view(),
            files: self.files.deep_view(),
            calls: self.calls.deep_view(),
            callers: self.callers@,
            caller_off: self.caller_off@,
            may_off: self.may_off@,
            may_lock: self.may_lock@,
            may_dist: self.may_dist@,
            order: self.order@,
            binder: self.binder@,
        }
    }
}

/// Every number is below `n`.
pub open spec fn all_below(s: Seq<u32>, n: int) -> bool {
    forall|i: int| 0 <= i < s.len() ==> #[trigger] s[i] < n
}

/// The span's locks exist.
pub open spec fn span_in(s: SpanIx, locks: int) -> bool {
    s.lock < locks && all_below(s.held, locks)
}

/// The call's caller, locks and targets exist.
pub open spec fn call_in(c: CallIx, methods: int, locks: int) -> bool {
    c.caller < methods && all_below(c.held, locks) && all_below(c.targets, methods)
}

/// The method's file, spans and calls exist.
pub open spec fn method_in(m: MethodIx, files: int, locks: int, calls: int) -> bool {
    &&& m.file < files
    &&& m.calls.0 <= m.calls.1 <= calls
    &&& forall|i: int| 0 <= i < m.spans.len() ==> span_in(#[trigger] m.spans[i], locks)
}

/// The edge's locks and method exist.
pub open spec fn edge_in(e: OrderEdge, methods: int, locks: int) -> bool {
    e.from < locks && e.to < locks && e.method < methods
}

/// `off` cuts `total` items into `rows` rows. It may be empty where there are no rows.
pub open spec fn cuts(off: Seq<u32>, rows: int, total: int) -> bool {
    &&& off.len() == rows + 1 || off.len() == 0 && rows == 0
    &&& forall|i: int, j: int|
        0 <= i <= j < off.len() ==> #[trigger] off[i] <= #[trigger] off[j] <= total
}

impl IndexV {
    /// An index of nothing.
    pub open spec fn none() -> IndexV {
        IndexV {
            methods: Seq::empty(),
            locks: Seq::empty(),
            files: Seq::empty(),
            calls: Seq::empty(),
            callers: Seq::empty(),
            caller_off: Seq::empty(),
            may_off: Seq::empty(),
            may_lock: Seq::empty(),
            may_dist: Seq::empty(),
            order: Seq::empty(),
            binder: Seq::empty(),
        }
    }

    /// The order edges join locks that exist.
    pub open spec fn joined(self) -> bool {
        &&& self.locks.len() <= u32::MAX
        &&& forall|i: int|
            0 <= i < self.order.len() ==> (#[trigger] self.order[i]).from < self.locks.len()
                && self.order[i].to < self.locks.len()
    }

    /// Everything that the tables name exists.
    pub open spec fn wf(self) -> bool {
        let methods = self.methods.len() as int;
        let locks = self.locks.len() as int;
        let calls = self.calls.len() as int;
        &&& methods <= u32::MAX && locks <= u32::MAX && calls <= u32::MAX
        &&& self.files.len() <= u32::MAX
        &&& forall|i: int|
            0 <= i < methods ==> method_in(
                #[trigger] self.methods[i],
                self.files.len() as int,
                locks,
                calls,
            )
        &&& forall|i: int| 0 <= i < calls ==> call_in(#[trigger] self.calls[i], methods, locks)
        &&& cuts(self.caller_off, methods, self.callers.len() as int)
        &&& all_below(self.callers, calls)
        &&& cuts(self.may_off, methods, self.may_lock.len() as int)
        &&& self.may_dist.len() == self.may_lock.len()
        &&& all_below(self.may_lock, locks)
        &&& forall|i: int|
            0 <= i < self.order.len() ==> edge_in(#[trigger] self.order[i], methods, locks)
        &&& all_below(self.binder, methods)
    }
}

fn check_below(s: &Vec<u32>, n: usize) -> (r: bool)
    ensures
        r == all_below(s@, n as int),
{
    let mut k: usize = 0;
    while k < s.len()
        invariant
            k <= s@.len(),
            forall|i: int| 0 <= i < k ==> #[trigger] s@[i] < n,
        decreases s@.len() - k,
    {
        if s[k] as u64 >= n as u64 {
            return false;
        }
        k += 1;
    }
    true
}

fn check_cuts(off: &Vec<u32>, rows: usize, total: usize) -> (r: bool)
    ensures
        r == cuts(off@, rows as int, total as int),
{
    if off.len() == 0 {
        return rows == 0;
    }
    if off.len() - 1 != rows {
        return false;
    }
    let mut k: usize = 0;
    while k < off.len()
        invariant
            k <= off@.len(),
            forall|i: int, j: int|
                0 <= i <= j < k ==> #[trigger] off@[i] <= #[trigger] off@[j] <= total,
        decreases off@.len() - k,
    {
        if off[k] as u64 > total as u64 {
            proof {
                assert(off@[k as int] <= off@[k as int]);
            }
            return false;
        }
        if k > 0 && off[k] < off[k - 1] {
            proof {
                assert(off@[k - 1] > off@[k as int]);
            }
            return false;
        }
        k += 1;
    }
    true
}

fn check_method(m: &MethodRec, files: usize, locks: usize, calls: usize) -> (r: bool)
    ensures
        r == method_in(m.deep_view(), files as int, locks as int, calls as int),
{
    let ghost mv = m.deep_view();
    if m.file as u64 >= files as u64 || m.calls.0 > m.calls.1 || m.calls.1 as u64 > calls as u64 {
        return false;
    }
    let mut k: usize = 0;
    while k < m.spans.len()
        invariant
            k <= m.spans@.len(),
            mv == m.deep_view(),
            forall|i: int| 0 <= i < k ==> span_in(#[trigger] mv.spans[i], locks as int),
        decreases m.spans@.len() - k,
    {
        let s = &m.spans[k];
        proof {
            assert(mv.spans[k as int] == s.deep_view());
        }
        if s.lock as u64 >= locks as u64 || !check_below(&s.held, locks) {
            proof {
                assert(!span_in(mv.spans[k as int], locks as int));
            }
            return false;
        }
        k += 1;
    }
    true
}

impl Index {
    /// Whether everything that the tables name exists: true of every index that was built
    /// here, and to be asked of one that comes from elsewhere.
    pub fn is_consistent(&self) -> (r: bool)
        ensures
            r == self.deep_view().wf(),
    {
        let ghost v = self.deep_view();
        let methods = self.methods.len();
        let locks = self.locks.len();
        let files = self.files.len();
        let calls = self.calls.len();
        let max: u64 = 0xffff_ffff;
        if methods as u64 > max || locks as u64 > max || files as u64 > max || calls as u64 > max {
            return false;
        }
        let mut k: usize = 0;
        while k < methods
            invariant
                k <= methods,
                methods == self.methods@.len(),
                v == self.deep_view(),
                forall|i: int|
                    0 <= i < k ==> method_in(
                        #[trigger] v.methods[i],
                        files as int,
                        locks as int,
                        calls as int,
                    ),
                files == v.files.len() && locks == v.locks.len() && calls == v.calls.len(),
            decreases methods - k,
        {
            proof {
                assert(v.methods[k as int] == self.methods@[k as int].deep_view());
            }
            if !check_method(&self.methods[k], files, locks, calls) {
                return false;
            }
            k += 1;
        }
        let mut k: usize = 0;
        while k < calls
            invariant
                k <= calls,
                calls == self.calls@.len(),
                v == self.deep_view(),
                forall|i: int|
                    0 <= i < k ==> call_in(#[trigger] v.calls[i], methods as int, locks as int),
                methods == v.methods.len() && locks == v.locks.len() && calls == v.calls.len(),
            decreases calls - k,
        {
            let c = &self.calls[k];
            proof {
                assert(v.calls[k as int] == c.deep_view());
            }
            if c.caller as u64 >= methods as u64 || !check_below(&c.held, locks) || !check_below(
                &c.targets,
                methods,
            ) {
                proof {
                    assert(!call_in(v.calls[k as int], methods as int, locks as int));
                }
                return false;
            }
            k += 1;
        }
        let mut k: usize = 0;
        while k < self.order.len()
            invariant
                k <= self.order@.len(),
                v == self.deep_view(),
                forall|i: int|
                    0 <= i < k ==> edge_in(#[trigger] v.order[i], methods as int, locks as int),
                methods == v.methods.len() && locks == v.locks.len(),
            decreases self.order@.len() - k,
        {
            let e = self.order[k];
            if e.from as u64 >= locks as u64 || e.to as u64 >= locks as u64 || e.method as u64
                >= methods as u64 {
                proof {
                    assert(!edge_in(v.order[k as int], methods as int, locks as int));
                }
                return false;
            }
            k += 1;
        }
        check_cuts(&self.caller_off, methods, self.callers.len()) && check_below(
            &self.callers,
            calls,
        ) && check_cuts(&self.may_off, methods, self.may_lock.len()) && self.may_dist.len()
            == self.may_lock.len() && check_below(&self.may_lock, locks) && check_below(
            &self.binder,
            methods,
        )
    }
}

} // verus!

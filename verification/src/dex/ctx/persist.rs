//! Persistence: a little-endian binary of length-prefixed sections. The header says whether a
//! list of the binder methods stands behind the ten tables of an index; without such methods
//! there is none.

use crate::bytes;
use crate::dex::ctx::index::{
    Call, CallIx, Index, IndexV, MethodIx, MethodRec, OrderEdge, Span, SpanIx,
};
use crate::text;
use crate::values;
use vstd::prelude::*;
use vstd::utf8::*;

verus! {

/// Why bytes are no index.
#[derive(Clone, Copy, Debug, PartialEq, Eq, Structural)]
pub enum ReadError {
    /// There is no whole header.
    Header,
    /// The header is not that of an index.
    NotAnIndex,
    /// The bytes end too soon.
    Short,
    /// A name is not UTF-8.
    Text,
}

impl ReadError {
    /// What the error says.
    pub open spec fn says(self) -> Seq<char> {
        match self {
            ReadError::Header => "reading index header"@,
            ReadError::NotAnIndex => "not a dexlock ctx index"@,
            ReadError::Short => "the index is cut short"@,
            ReadError::Text => "a name in the index is not UTF-8"@,
        }
    }

    /// What the error says.
    pub fn message(&self) -> (r: &'static str)
        ensures
            r@ == self.says(),
    {
        match self {
            ReadError::Header => "reading index header",
            ReadError::NotAnIndex => "not a dexlock ctx index",
            ReadError::Short => "the index is cut short",
            ReadError::Text => "a name in the index is not UTF-8",
        }
    }
}

/// The header of an index of ten tables: `DXLKCTX1`.
pub open spec fn magic() -> Seq<u8> {
    seq![0x44u8, 0x58, 0x4c, 0x4b, 0x43, 0x54, 0x58, 0x31]
}

/// The header of an index with a list of binder methods behind its tables: `DXLKCTX2`.
pub open spec fn binder_magic() -> Seq<u8> {
    seq![0x44u8, 0x58, 0x4c, 0x4b, 0x43, 0x54, 0x58, 0x32]
}

/// The header of the index.
pub open spec fn header(v: IndexV) -> Seq<u8> {
    if v.binder.len() == 0 {
        magic()
    } else {
        binder_magic()
    }
}

/// The four bytes of `x`.
pub open spec fn w32(x: u32) -> Seq<u8> {
    seq![
        (x % 0x100) as u8,
        (x / 0x100 % 0x100) as u8,
        (x / 0x1_0000 % 0x100) as u8,
        (x / 0x100_0000) as u8,
    ]
}

/// The items from the `k`th on, one behind the other.
pub open spec fn wcat<A>(s: Seq<A>, w: spec_fn(A) -> Seq<u8>, k: int) -> Seq<u8>
    decreases s.len() - k,
{
    if k >= s.len() {
        Seq::empty()
    } else {
        w(s[k]) + wcat(s, w, k + 1)
    }
}

/// A list: how many, then each.
pub open spec fn wlist<A>(s: Seq<A>, w: spec_fn(A) -> Seq<u8>) -> Seq<u8> {
    w32(s.len() as u32) + wcat(s, w, 0)
}

/// Writes a number.
pub open spec fn w_num() -> spec_fn(u32) -> Seq<u8> {
    |x: u32| w32(x)
}

/// Writes a byte.
pub open spec fn w_byte() -> spec_fn(u8) -> Seq<u8> {
    |x: u8| seq![x]
}

/// Writes a string: its bytes as a list.
pub open spec fn w_str() -> spec_fn(Seq<char>) -> Seq<u8> {
    |s: Seq<char>| w32(encode_utf8(s).len() as u32) + encode_utf8(s)
}

/// Writes a span.
pub open spec fn w_span() -> spec_fn(SpanIx) -> Seq<u8> {
    |s: SpanIx| w32(s.lock) + w32(s.enter) + w32(s.exit) + wlist(s.held, w_num())
}

/// Writes a method.
pub open spec fn w_method() -> spec_fn(MethodIx) -> Seq<u8> {
    |m: MethodIx|
        w_str()(m.key) + w32(m.file) + w32(m.line_lo) + w32(m.line_hi) + wlist(m.spans, w_span())
            + w32(m.calls.0) + w32(m.calls.1)
}

/// Writes a call.
pub open spec fn w_call() -> spec_fn(CallIx) -> Seq<u8> {
    |c: CallIx|
        w32(c.caller) + w32(c.line) + wlist(c.held, w_num()) + wlist(c.targets, w_num())
}

/// Writes an edge.
pub open spec fn w_edge() -> spec_fn(OrderEdge) -> Seq<u8> {
    |e: OrderEdge|
        w32(e.from) + w32(e.to) + w32(e.count) + w32(e.method) + w32(e.line) + seq![e.dist]
}

/// The names and the call graph.
pub open spec fn wgraph(v: IndexV) -> Seq<u8> {
    header(v) + wlist(v.locks, w_str()) + wlist(v.files, w_str()) + wlist(v.methods, w_method())
        + wlist(v.calls, w_call())
}

/// What was solved over the call graph.
pub open spec fn wsolved(v: IndexV) -> Seq<u8> {
    wlist(v.callers, w_num()) + wlist(v.caller_off, w_num()) + wlist(v.may_off, w_num()) + wlist(
        v.may_lock,
        w_num(),
    ) + wlist(v.may_dist, w_byte()) + wlist(v.order, w_edge()) + wbinder(v)
}

/// The list of binder methods, where there are any.
pub open spec fn wbinder(v: IndexV) -> Seq<u8> {
    if v.binder.len() == 0 {
        Seq::empty()
    } else {
        wlist(v.binder, w_num())
    }
}

/// The index as bytes.
pub open spec fn written(v: IndexV) -> Seq<u8> {
    wgraph(v) + wsolved(v)
}

/// What a reader finds at a place, and where it ends.
pub type Found<A> = Result<(A, int), ReadError>;

/// Reads a number.
pub open spec fn r_num() -> spec_fn(Seq<u8>, int) -> Found<u32> {
    |b: Seq<u8>, at: int|
        if at + 4 <= b.len() {
            Ok((bytes::le32(b, at) as u32, at + 4))
        } else {
            Err(ReadError::Short)
        }
}

/// Reads a byte.
pub open spec fn r_byte() -> spec_fn(Seq<u8>, int) -> Found<u8> {
    |b: Seq<u8>, at: int|
        if at + 1 <= b.len() {
            Ok((b[at], at + 1))
        } else {
            Err(ReadError::Short)
        }
}

/// Reads `n` items, behind `acc`.
pub open spec fn rcat<A>(
    b: Seq<u8>,
    at: int,
    n: nat,
    r: spec_fn(Seq<u8>, int) -> Found<A>,
    acc: Seq<A>,
) -> Found<Seq<A>>
    decreases n,
{
    if n == 0 {
        Ok((acc, at))
    } else {
        match r(b, at) {
            Err(e) => Err(e),
            Ok((x, p)) => rcat(b, p, (n - 1) as nat, r, acc.push(x)),
        }
    }
}

/// Reads a list.
pub open spec fn rlist<A>(b: Seq<u8>, at: int, r: spec_fn(Seq<u8>, int) -> Found<A>) -> Found<
    Seq<A>,
> {
    match r_num()(b, at) {
        Err(e) => Err(e),
        Ok((n, p)) => rcat(b, p, n as nat, r, Seq::empty()),
    }
}

/// Reads a string.
pub open spec fn r_str() -> spec_fn(Seq<u8>, int) -> Found<Seq<char>> {
    |b: Seq<u8>, at: int|
        match r_num()(b, at) {
            Err(e) => Err(e),
            Ok((n, p)) => if p + n > b.len() {
                Err(ReadError::Short)
            } else if valid_utf8(b.subrange(p, p + n)) {
                Ok((decode_utf8(b.subrange(p, p + n)), p + n))
            } else {
                Err(ReadError::Text)
            },
        }
}

/// Reads a span.
pub open spec fn r_span() -> spec_fn(Seq<u8>, int) -> Found<SpanIx> {
    |b: Seq<u8>, at: int|
        if at + 12 > b.len() {
            Err(ReadError::Short)
        } else {
            match rlist(b, at + 12, r_num()) {
                Err(e) => Err(e),
                Ok((held, p)) => Ok(
                    (
                        SpanIx {
                            lock: bytes::le32(b, at) as u32,
                            enter: bytes::le32(b, at + 4) as u32,
                            exit: bytes::le32(b, at + 8) as u32,
                            held,
                        },
                        p,
                    ),
                ),
            }
        }
}

/// Reads a method.
pub open spec fn r_method() -> spec_fn(Seq<u8>, int) -> Found<MethodIx> {
    |b: Seq<u8>, at: int|
        match r_str()(b, at) {
            Err(e) => Err(e),
            Ok((key, p)) => if p + 12 > b.len() {
                Err(ReadError::Short)
            } else {
                match rlist(b, p + 12, r_span()) {
                    Err(e) => Err(e),
                    Ok((spans, q)) => if q + 8 > b.len() {
                        Err(ReadError::Short)
                    } else {
                        Ok(
                            (
                                MethodIx {
                                    key,
                                    file: bytes::le32(b, p) as u32,
                                    line_lo: bytes::le32(b, p + 4) as u32,
                                    line_hi: bytes::le32(b, p + 8) as u32,
                                    spans,
                                    calls: (
                                        bytes::le32(b, q) as u32,
                                        bytes::le32(b, q + 4) as u32,
                                    ),
                                },
                                q + 8,
                            ),
                        )
                    },
                }
            },
        }
}

/// Reads a call.
pub open spec fn r_call() -> spec_fn(Seq<u8>, int) -> Found<CallIx> {
    |b: Seq<u8>, at: int|
        if at + 8 > b.len() {
            Err(ReadError::Short)
        } else {
            match rlist(b, at + 8, r_num()) {
                Err(e) => Err(e),
                Ok((held, p)) => match rlist(b, p, r_num()) {
                    Err(e) => Err(e),
                    Ok((targets, q)) => Ok(
                        (
                            CallIx {
                                caller: bytes::le32(b, at) as u32,
                                line: bytes::le32(b, at + 4) as u32,
                                held,
                                targets,
                            },
                            q,
                        ),
                    ),
                },
            }
        }
}

/// Reads an edge.
pub open spec fn r_edge() -> spec_fn(Seq<u8>, int) -> Found<OrderEdge> {
    |b: Seq<u8>, at: int|
        if at + 21 > b.len() {
            Err(ReadError::Short)
        } else {
            Ok(
                (
                    OrderEdge {
                        from: bytes::le32(b, at) as u32,
                        to: bytes::le32(b, at + 4) as u32,
                        count: bytes::le32(b, at + 8) as u32,
                        method: bytes::le32(b, at + 12) as u32,
                        line: bytes::le32(b, at + 16) as u32,
                        dist: b[at + 20],
                    },
                    at + 21,
                ),
            )
        }
}

/// `s` stands in `b` at `at`.
pub open spec fn stands(b: Seq<u8>, at: int, s: Seq<u8>) -> bool {
    0 <= at && at + s.len() <= b.len() && b.subrange(at, at + s.len()) == s
}

/// The index that the bytes hold.
pub open spec fn read_back(b: Seq<u8>) -> Result<IndexV, ReadError> {
    match read_from(b) {
        Err(e) => Err(e),
        Ok((v, _)) => Ok(v),
    }
}

/// The index that the bytes begin with, and where it ends.
pub open spec fn read_from(b: Seq<u8>) -> Found<IndexV> {
    if b.len() < 8 {
        Err(ReadError::Header)
    } else if b.take(8) != magic() && b.take(8) != binder_magic() {
        Err(ReadError::NotAnIndex)
    } else {
        let more = b.take(8) == binder_magic();
        match rlist(b, 8, r_str()) {
            Err(e) => Err(e),
            Ok((locks, p)) => match rlist(b, p, r_str()) {
                Err(e) => Err(e),
                Ok((files, p)) => match rlist(b, p, r_method()) {
                    Err(e) => Err(e),
                    Ok((methods, p)) => match rlist(b, p, r_call()) {
                        Err(e) => Err(e),
                        Ok((calls, p)) => read_solved(b, p, locks, files, methods, calls, more),
                    },
                },
            },
        }
    }
}

/// The list of binder methods, where there is `more` than the tables.
pub open spec fn read_binder(b: Seq<u8>, p: int, more: bool) -> Found<Seq<u32>> {
    if more {
        rlist(b, p, r_num())
    } else {
        Ok((Seq::empty(), p))
    }
}

/// The rest of the index.
pub open spec fn read_solved(
    b: Seq<u8>,
    p: int,
    locks: Seq<Seq<char>>,
    files: Seq<Seq<char>>,
    methods: Seq<MethodIx>,
    calls: Seq<CallIx>,
    more: bool,
) -> Found<IndexV> {
    match rlist(b, p, r_num()) {
        Err(e) => Err(e),
        Ok((callers, p)) => match rlist(b, p, r_num()) {
            Err(e) => Err(e),
            Ok((caller_off, p)) => match rlist(b, p, r_num()) {
                Err(e) => Err(e),
                Ok((may_off, p)) => match rlist(b, p, r_num()) {
                    Err(e) => Err(e),
                    Ok((may_lock, p)) => match rlist(b, p, r_byte()) {
                        Err(e) => Err(e),
                        Ok((may_dist, p)) => match rlist(b, p, r_edge()) {
                            Err(e) => Err(e),
                            Ok((order, p)) => match read_binder(b, p, more) {
                                Err(e) => Err(e),
                                Ok((binder, p)) => Ok(
                                    (
                                        IndexV {
                                            methods,
                                            locks,
                                            files,
                                            calls,
                                            callers,
                                            caller_off,
                                            may_off,
                                            may_lock,
                                            may_dist,
                                            order,
                                            binder,
                                        },
                                        p,
                                    ),
                                ),
                            },
                        },
                    },
                },
            },
        },
    }
}

/// Where `w` wrote `x`, `r` reads it back, and knows where it ends.
pub open spec fn returns_to<A>(
    w: spec_fn(A) -> Seq<u8>,
    r: spec_fn(Seq<u8>, int) -> Found<A>,
    x: A,
) -> bool {
    forall|b: Seq<u8>, at: int| #[trigger]
        stands(b, at, w(x)) ==> r(b, at) == Ok::<(A, int), ReadError>((x, at + w(x).len()))
}

proof fn lemma_stands(b: Seq<u8>, at: int, s: Seq<u8>, t: Seq<u8>)
    requires
        stands(b, at, s + t),
    ensures
        stands(b, at, s),
        stands(b, at + s.len(), t),
{
    let n = (s + t).len();
    let whole = b.subrange(at, at + n);
    assert forall|i: int| 0 <= i < s.len() implies b.subrange(at, at + s.len())[i] == s[i] by {
        assert(whole[i] == (s + t)[i]);
    }
    assert(b.subrange(at, at + s.len()) =~= s);
    let p = at + s.len();
    assert forall|i: int| 0 <= i < t.len() implies b.subrange(p, p + t.len())[i] == t[i] by {
        assert(whole[s.len() + i] == (s + t)[s.len() + i]);
    }
    assert(b.subrange(p, p + t.len()) =~= t);
}

proof fn lemma_num(b: Seq<u8>, at: int, x: u32)
    requires
        stands(b, at, w32(x)),
    ensures
        at + 4 <= b.len(),
        bytes::le32(b, at) == x,
{
    let s = b.subrange(at, at + 4);
    assert(s =~= w32(x));
    assert(b[at] == s[0] && b[at + 1] == s[1] && b[at + 2] == s[2] && b[at + 3] == s[3]);
}

proof fn lemma_cat<A>(
    b: Seq<u8>,
    at: int,
    s: Seq<A>,
    k: int,
    w: spec_fn(A) -> Seq<u8>,
    r: spec_fn(Seq<u8>, int) -> Found<A>,
    acc: Seq<A>,
)
    requires
        0 <= k <= s.len(),
        acc == s.take(k),
        stands(b, at, wcat(s, w, k)),
        forall|i: int| 0 <= i < s.len() ==> returns_to(w, r, #[trigger] s[i]),
    ensures
        rcat(b, at, (s.len() - k) as nat, r, acc) == Ok::<(Seq<A>, int), ReadError>(
            (s, at + wcat(s, w, k).len()),
        ),
    decreases s.len() - k,
{
    if k < s.len() {
        lemma_stands(b, at, w(s[k]), wcat(s, w, k + 1));
        assert(returns_to(w, r, s[k]));
        assert(acc.push(s[k]) =~= s.take(k + 1));
        lemma_cat(b, at + w(s[k]).len(), s, k + 1, w, r, acc.push(s[k]));
    } else {
        assert(acc =~= s);
    }
}

proof fn lemma_list<A>(
    b: Seq<u8>,
    at: int,
    s: Seq<A>,
    w: spec_fn(A) -> Seq<u8>,
    r: spec_fn(Seq<u8>, int) -> Found<A>,
)
    requires
        s.len() <= u32::MAX,
        stands(b, at, wlist(s, w)),
        forall|i: int| 0 <= i < s.len() ==> returns_to(w, r, #[trigger] s[i]),
    ensures
        rlist(b, at, r) == Ok::<(Seq<A>, int), ReadError>((s, at + wlist(s, w).len())),
{
    lemma_stands(b, at, w32(s.len() as u32), wcat(s, w, 0));
    lemma_num(b, at, s.len() as u32);
    assert(s.take(0) =~= Seq::empty());
    lemma_cat(b, at + 4, s, 0, w, r, Seq::empty());
}

proof fn lemma_nums(x: u32)
    ensures
        returns_to(w_num(), r_num(), x),
{
    assert forall|b: Seq<u8>, at: int| #[trigger] stands(b, at, w_num()(x)) implies r_num()(b, at)
        == Ok::<(u32, int), ReadError>((x, at + w_num()(x).len())) by {
        lemma_num(b, at, x);
    }
}

proof fn lemma_bytes(x: u8)
    ensures
        returns_to(w_byte(), r_byte(), x),
{
    assert forall|b: Seq<u8>, at: int| #[trigger] stands(b, at, w_byte()(x)) implies r_byte()(
        b,
        at,
    ) == Ok::<(u8, int), ReadError>((x, at + w_byte()(x).len())) by {
        assert(b.subrange(at, at + 1)[0] == b[at]);
    }
}

/// The string's bytes can be counted.
pub open spec fn countable(s: Seq<char>) -> bool {
    encode_utf8(s).len() <= u32::MAX
}

proof fn lemma_strs(s: Seq<char>)
    requires
        countable(s),
    ensures
        returns_to(w_str(), r_str(), s),
{
    let e = encode_utf8(s);
    assert forall|b: Seq<u8>, at: int| #[trigger] stands(b, at, w_str()(s)) implies r_str()(b, at)
        == Ok::<(Seq<char>, int), ReadError>((s, at + w_str()(s).len())) by {
        lemma_stands(b, at, w32(e.len() as u32), e);
        lemma_num(b, at, e.len() as u32);
        encode_utf8_valid_utf8(s);
        encode_utf8_decode_utf8(s);
    }
}

proof fn lemma_spans(s: SpanIx)
    requires
        s.held.len() <= u32::MAX,
    ensures
        returns_to(w_span(), r_span(), s),
{
    assert forall|b: Seq<u8>, at: int| #[trigger] stands(b, at, w_span()(s)) implies r_span()(
        b,
        at,
    ) == Ok::<(SpanIx, int), ReadError>((s, at + w_span()(s).len())) by {
        let h = wlist(s.held, w_num());
        lemma_stands(b, at, w32(s.lock) + w32(s.enter) + w32(s.exit), h);
        lemma_stands(b, at, w32(s.lock) + w32(s.enter), w32(s.exit));
        lemma_stands(b, at, w32(s.lock), w32(s.enter));
        lemma_num(b, at, s.lock);
        lemma_num(b, at + 4, s.enter);
        lemma_num(b, at + 8, s.exit);
        assert forall|i: int| 0 <= i < s.held.len() implies returns_to(
            w_num(),
            r_num(),
            #[trigger] s.held[i],
        ) by {
            lemma_nums(s.held[i]);
        }
        lemma_list(b, at + 12, s.held, w_num(), r_num());
    }
}

/// The method's parts can be counted.
pub open spec fn method_countable(m: MethodIx) -> bool {
    &&& countable(m.key)
    &&& m.spans.len() <= u32::MAX
    &&& forall|i: int| 0 <= i < m.spans.len() ==> (#[trigger] m.spans[i]).held.len() <= u32::MAX
}

proof fn lemma_method(b: Seq<u8>, at: int, m: MethodIx)
    requires
        method_countable(m),
        stands(b, at, w_method()(m)),
    ensures
        r_method()(b, at) == Ok::<(MethodIx, int), ReadError>((m, at + w_method()(m).len())),
{
    let k = w_str()(m.key);
    let f = w32(m.file);
    let lo = w32(m.line_lo);
    let hi = w32(m.line_hi);
    let ss = wlist(m.spans, w_span());
    let c0 = w32(m.calls.0);
    let c1 = w32(m.calls.1);
    let p = at + k.len();
    let q = p + 12 + ss.len();
    assert(stands(b, at, k) && stands(b, p, f) && stands(b, p + 4, lo) && stands(b, p + 8, hi)
        && stands(b, p + 12, ss) && stands(b, q, c0) && stands(b, q + 4, c1)) by {
        lemma_stands(b, at, k + f + lo + hi + ss + c0, c1);
        lemma_stands(b, at, k + f + lo + hi + ss, c0);
        lemma_stands(b, at, k + f + lo + hi, ss);
        lemma_stands(b, at, k + f + lo, hi);
        lemma_stands(b, at, k + f, lo);
        lemma_stands(b, at, k, f);
    }
    assert(r_str()(b, at) == Ok::<(Seq<char>, int), ReadError>((m.key, p))) by {
        lemma_strs(m.key);
    }
    lemma_num(b, p, m.file);
    lemma_num(b, p + 4, m.line_lo);
    lemma_num(b, p + 8, m.line_hi);
    assert(rlist(b, p + 12, r_span()) == Ok::<(Seq<SpanIx>, int), ReadError>((m.spans, q))) by {
        assert forall|i: int| 0 <= i < m.spans.len() implies returns_to(
            w_span(),
            r_span(),
            #[trigger] m.spans[i],
        ) by {
            lemma_spans(m.spans[i]);
        }
        lemma_list(b, p + 12, m.spans, w_span(), r_span());
    }
    lemma_num(b, q, m.calls.0);
    lemma_num(b, q + 4, m.calls.1);
}

proof fn lemma_methods(m: MethodIx)
    requires
        method_countable(m),
    ensures
        returns_to(w_method(), r_method(), m),
{
    assert forall|b: Seq<u8>, at: int| #[trigger] stands(b, at, w_method()(m)) implies r_method()(
        b,
        at,
    ) == Ok::<(MethodIx, int), ReadError>((m, at + w_method()(m).len())) by {
        lemma_method(b, at, m);
    }
}

proof fn lemma_calls(c: CallIx)
    requires
        c.held.len() <= u32::MAX,
        c.targets.len() <= u32::MAX,
    ensures
        returns_to(w_call(), r_call(), c),
{
    assert forall|b: Seq<u8>, at: int| #[trigger] stands(b, at, w_call()(c)) implies r_call()(
        b,
        at,
    ) == Ok::<(CallIx, int), ReadError>((c, at + w_call()(c).len())) by {
        let x = w32(c.caller);
        let l = w32(c.line);
        let h = wlist(c.held, w_num());
        let t = wlist(c.targets, w_num());
        lemma_stands(b, at, x + l + h, t);
        lemma_stands(b, at, x + l, h);
        lemma_stands(b, at, x, l);
        lemma_num(b, at, c.caller);
        lemma_num(b, at + 4, c.line);
        assert forall|i: int| 0 <= i < c.held.len() implies returns_to(
            w_num(),
            r_num(),
            #[trigger] c.held[i],
        ) by {
            lemma_nums(c.held[i]);
        }
        assert forall|i: int| 0 <= i < c.targets.len() implies returns_to(
            w_num(),
            r_num(),
            #[trigger] c.targets[i],
        ) by {
            lemma_nums(c.targets[i]);
        }
        lemma_list(b, at + 8, c.held, w_num(), r_num());
        lemma_list(b, at + 8 + h.len(), c.targets, w_num(), r_num());
    }
}

proof fn lemma_edges(e: OrderEdge)
    ensures
        returns_to(w_edge(), r_edge(), e),
{
    assert forall|b: Seq<u8>, at: int| #[trigger] stands(b, at, w_edge()(e)) implies r_edge()(
        b,
        at,
    ) == Ok::<(OrderEdge, int), ReadError>((e, at + w_edge()(e).len())) by {
        let f = w32(e.from);
        let t = w32(e.to);
        let c = w32(e.count);
        let m = w32(e.method);
        let l = w32(e.line);
        let d = seq![e.dist];
        lemma_stands(b, at, f + t + c + m + l, d);
        lemma_stands(b, at, f + t + c + m, l);
        lemma_stands(b, at, f + t + c, m);
        lemma_stands(b, at, f + t, c);
        lemma_stands(b, at, f, t);
        lemma_num(b, at, e.from);
        lemma_num(b, at + 4, e.to);
        lemma_num(b, at + 8, e.count);
        lemma_num(b, at + 12, e.method);
        lemma_num(b, at + 16, e.line);
        assert(b.subrange(at + 20, at + 21)[0] == b[at + 20]);
    }
}

/// Every list of the index can be counted.
pub open spec fn storable(v: IndexV) -> bool {
    &&& v.locks.len() <= u32::MAX && v.files.len() <= u32::MAX
    &&& v.methods.len() <= u32::MAX && v.calls.len() <= u32::MAX
    &&& v.callers.len() <= u32::MAX && v.caller_off.len() <= u32::MAX
    &&& v.may_off.len() <= u32::MAX && v.may_lock.len() <= u32::MAX
    &&& v.may_dist.len() <= u32::MAX && v.order.len() <= u32::MAX && v.binder.len() <= u32::MAX
    &&& forall|i: int| 0 <= i < v.locks.len() ==> countable(#[trigger] v.locks[i])
    &&& forall|i: int| 0 <= i < v.files.len() ==> countable(#[trigger] v.files[i])
    &&& forall|i: int| 0 <= i < v.methods.len() ==> method_countable(#[trigger] v.methods[i])
    &&& forall|i: int|
        0 <= i < v.calls.len() ==> (#[trigger] v.calls[i]).held.len() <= u32::MAX
            && v.calls[i].targets.len() <= u32::MAX
}

proof fn lemma_num_list(b: Seq<u8>, at: int, s: Seq<u32>)
    requires
        s.len() <= u32::MAX,
        stands(b, at, wlist(s, w_num())),
    ensures
        rlist(b, at, r_num()) == Ok::<(Seq<u32>, int), ReadError>((s, at + wlist(s, w_num()).len())),
{
    assert forall|i: int| 0 <= i < s.len() implies returns_to(w_num(), r_num(), #[trigger] s[i]) by {
        lemma_nums(s[i]);
    }
    lemma_list(b, at, s, w_num(), r_num());
}

proof fn lemma_byte_list(b: Seq<u8>, at: int, s: Seq<u8>)
    requires
        s.len() <= u32::MAX,
        stands(b, at, wlist(s, w_byte())),
    ensures
        rlist(b, at, r_byte()) == Ok::<(Seq<u8>, int), ReadError>((s, at + wlist(s, w_byte()).len())),
{
    assert forall|i: int| 0 <= i < s.len() implies returns_to(w_byte(), r_byte(), #[trigger] s[i]) by {
        lemma_bytes(s[i]);
    }
    lemma_list(b, at, s, w_byte(), r_byte());
}

proof fn lemma_edge_list(b: Seq<u8>, at: int, s: Seq<OrderEdge>)
    requires
        s.len() <= u32::MAX,
        stands(b, at, wlist(s, w_edge())),
    ensures
        rlist(b, at, r_edge()) == Ok::<(Seq<OrderEdge>, int), ReadError>((s, at + wlist(s, w_edge()).len())),
{
    assert forall|i: int| 0 <= i < s.len() implies returns_to(w_edge(), r_edge(), #[trigger] s[i]) by {
        lemma_edges(s[i]);
    }
    lemma_list(b, at, s, w_edge(), r_edge());
}

proof fn lemma_str_list(b: Seq<u8>, at: int, s: Seq<Seq<char>>)
    requires
        s.len() <= u32::MAX,
        stands(b, at, wlist(s, w_str())),
        forall|i: int| 0 <= i < s.len() ==> countable(#[trigger] s[i]),
    ensures
        rlist(b, at, r_str()) == Ok::<(Seq<Seq<char>>, int), ReadError>((s, at + wlist(s, w_str()).len())),
{
    assert forall|i: int| 0 <= i < s.len() implies returns_to(w_str(), r_str(), #[trigger] s[i]) by {
        lemma_strs(s[i]);
    }
    lemma_list(b, at, s, w_str(), r_str());
}

proof fn lemma_method_list(b: Seq<u8>, at: int, s: Seq<MethodIx>)
    requires
        s.len() <= u32::MAX,
        stands(b, at, wlist(s, w_method())),
        forall|i: int| 0 <= i < s.len() ==> method_countable(#[trigger] s[i]),
    ensures
        rlist(b, at, r_method()) == Ok::<(Seq<MethodIx>, int), ReadError>((s, at + wlist(s, w_method()).len())),
{
    assert forall|i: int| 0 <= i < s.len() implies returns_to(w_method(), r_method(), #[trigger] s[i]) by {
        lemma_methods(s[i]);
    }
    lemma_list(b, at, s, w_method(), r_method());
}

proof fn lemma_call_list(b: Seq<u8>, at: int, s: Seq<CallIx>)
    requires
        s.len() <= u32::MAX,
        stands(b, at, wlist(s, w_call())),
        forall|i: int|
            0 <= i < s.len() ==> (#[trigger] s[i]).held.len() <= u32::MAX && s[i].targets.len()
                <= u32::MAX,
    ensures
        rlist(b, at, r_call()) == Ok::<(Seq<CallIx>, int), ReadError>((s, at + wlist(s, w_call()).len())),
{
    assert forall|i: int| 0 <= i < s.len() implies returns_to(w_call(), r_call(), #[trigger] s[i]) by {
        lemma_calls(s[i]);
    }
    lemma_list(b, at, s, w_call(), r_call());
}

proof fn lemma_graph(b: Seq<u8>, v: IndexV)
    requires
        storable(v),
        stands(b, 0, wgraph(v)),
    ensures
        b.len() >= 8,
        b.take(8) == header(v),
        read_from(b) == read_solved(
            b,
            wgraph(v).len() as int,
            v.locks,
            v.files,
            v.methods,
            v.calls,
            v.binder.len() > 0,
        ),
{
    let m = header(v);
    assert(magic()[7] != binder_magic()[7]);
    let l = wlist(v.locks, w_str());
    let f = wlist(v.files, w_str());
    let ms = wlist(v.methods, w_method());
    let cs = wlist(v.calls, w_call());
    lemma_stands(b, 0, m + l + f + ms, cs);
    lemma_stands(b, 0, m + l + f, ms);
    lemma_stands(b, 0, m + l, f);
    lemma_stands(b, 0, m, l);
    assert(b.take(8) =~= b.subrange(0, 8));
    lemma_str_list(b, 8, v.locks);
    let p = 8int + l.len();
    lemma_str_list(b, p, v.files);
    let p = p + f.len();
    lemma_method_list(b, p, v.methods);
    let p = p + ms.len();
    lemma_call_list(b, p, v.calls);
    let p = p + cs.len();
    assert(p == wgraph(v).len());
}

proof fn lemma_whole(b: Seq<u8>)
    ensures
        stands(b, 0, b),
{
    assert(b.subrange(0, b.len() as int) =~= b);
}

proof fn lemma_written(v: IndexV)
    requires
        storable(v),
    ensures
        read_from(written(v)) == Ok::<(IndexV, int), ReadError>((v, written(v).len() as int)),
{
    let g = wgraph(v);
    let s = wsolved(v);
    let b = g + s;
    lemma_whole(b);
    lemma_stands(b, 0, g, s);
    lemma_graph(b, v);
    lemma_solved(b, g.len() as int, v);
}

/// Reading what was written gives the index back.
pub proof fn law_read_returns_written(v: IndexV)
    requires
        storable(v),
    ensures
        read_back(written(v)) == Ok::<IndexV, ReadError>(v),
{
    lemma_written(v);
}

proof fn lemma_solved(b: Seq<u8>, at: int, v: IndexV)
    requires
        storable(v),
        stands(b, at, wsolved(v)),
    ensures
        read_solved(
            b,
            at,
            v.locks,
            v.files,
            v.methods,
            v.calls,
            v.binder.len() > 0,
        ) == Ok::<(IndexV, int), ReadError>((v, at + wsolved(v).len())),
{
    let c = wlist(v.callers, w_num());
    let co = wlist(v.caller_off, w_num());
    let mo = wlist(v.may_off, w_num());
    let ml = wlist(v.may_lock, w_num());
    let md = wlist(v.may_dist, w_byte());
    let or = wlist(v.order, w_edge());
    let bi = wbinder(v);
    lemma_stands(b, at, c + co + mo + ml + md + or, bi);
    lemma_stands(b, at, c + co + mo + ml + md, or);
    lemma_stands(b, at, c + co + mo + ml, md);
    lemma_stands(b, at, c + co + mo, ml);
    lemma_stands(b, at, c + co, mo);
    lemma_stands(b, at, c, co);
    lemma_num_list(b, at, v.callers);
    let p = at + c.len();
    lemma_num_list(b, p, v.caller_off);
    let p = p + co.len();
    lemma_num_list(b, p, v.may_off);
    let p = p + mo.len();
    lemma_num_list(b, p, v.may_lock);
    let p = p + ml.len();
    lemma_byte_list(b, p, v.may_dist);
    let p = p + md.len();
    lemma_edge_list(b, p, v.order);
    let p = p + or.len();
    if v.binder.len() > 0 {
        lemma_num_list(b, p, v.binder);
    } else {
        assert(v.binder =~= Seq::empty());
    }
    assert(p + bi.len() == at + wsolved(v).len());
}

/// `c` goes on where `b` ends.
pub open spec fn begins(b: Seq<u8>, c: Seq<u8>) -> bool {
    b.len() <= c.len() && forall|i: int| 0 <= i < b.len() ==> #[trigger] b[i] == c[i]
}

/// What is read stays within the bytes, and more bytes behind them do not change it.
spec fn steady<A>(f: Found<A>, g: Found<A>, at: int, b: Seq<u8>) -> bool {
    f matches Ok((x, p)) ==> at <= p <= b.len() && g == f
}

/// The reader looks at nothing behind what it reads.
spec fn stops<A>(r: spec_fn(Seq<u8>, int) -> Found<A>) -> bool {
    forall|b: Seq<u8>, c: Seq<u8>, at: int|
        0 <= at && begins(b, c) ==> steady(#[trigger] r(b, at), #[trigger] r(c, at), at, b)
}

proof fn lemma_num_stops()
    ensures
        stops(r_num()),
{
}

proof fn lemma_byte_stops()
    ensures
        stops(r_byte()),
{
}

proof fn lemma_edge_stops()
    ensures
        stops(r_edge()),
{
}

proof fn lemma_cat_stops<A>(
    b: Seq<u8>,
    c: Seq<u8>,
    at: int,
    n: nat,
    r: spec_fn(Seq<u8>, int) -> Found<A>,
    acc: Seq<A>,
)
    requires
        0 <= at <= b.len(),
        begins(b, c),
        stops(r),
    ensures
        steady(rcat(b, at, n, r, acc), rcat(c, at, n, r, acc), at, b),
    decreases n,
{
    if n > 0 {
        assert(steady(r(b, at), r(c, at), at, b));
        match r(b, at) {
            Ok((x, p)) => {
                lemma_cat_stops(b, c, p, (n - 1) as nat, r, acc.push(x));
            },
            Err(_) => {},
        }
    }
}

proof fn lemma_list_stops<A>(
    b: Seq<u8>,
    c: Seq<u8>,
    at: int,
    r: spec_fn(Seq<u8>, int) -> Found<A>,
)
    requires
        0 <= at,
        begins(b, c),
        stops(r),
    ensures
        steady(rlist(b, at, r), rlist(c, at, r), at, b),
{
    lemma_num_stops();
    assert(steady(r_num()(b, at), r_num()(c, at), at, b));
    match r_num()(b, at) {
        Ok((n, p)) => {
            lemma_cat_stops(b, c, p, n as nat, r, Seq::empty());
        },
        Err(_) => {},
    }
}

proof fn lemma_str_stops()
    ensures
        stops(r_str()),
{
    lemma_num_stops();
    assert forall|b: Seq<u8>, c: Seq<u8>, at: int| 0 <= at && begins(b, c) implies steady(
        #[trigger] r_str()(b, at),
        #[trigger] r_str()(c, at),
        at,
        b,
    ) by {
        assert(steady(r_num()(b, at), r_num()(c, at), at, b));
        match r_num()(b, at) {
            Ok((n, p)) => {
                if p + n <= b.len() {
                    assert(b.subrange(p, p + n) =~= c.subrange(p, p + n));
                }
            },
            Err(_) => {},
        }
    }
}

proof fn lemma_span_stops()
    ensures
        stops(r_span()),
{
    lemma_num_stops();
    assert forall|b: Seq<u8>, c: Seq<u8>, at: int| 0 <= at && begins(b, c) implies steady(
        #[trigger] r_span()(b, at),
        #[trigger] r_span()(c, at),
        at,
        b,
    ) by {
        lemma_list_stops(b, c, at + 12, r_num());
    }
}

proof fn lemma_method_stops()
    ensures
        stops(r_method()),
{
    lemma_str_stops();
    lemma_span_stops();
    assert forall|b: Seq<u8>, c: Seq<u8>, at: int| 0 <= at && begins(b, c) implies steady(
        #[trigger] r_method()(b, at),
        #[trigger] r_method()(c, at),
        at,
        b,
    ) by {
        assert(steady(r_str()(b, at), r_str()(c, at), at, b));
        match r_str()(b, at) {
            Ok((key, p)) => {
                lemma_list_stops(b, c, p + 12, r_span());
            },
            Err(_) => {},
        }
    }
}

proof fn lemma_call_stops()
    ensures
        stops(r_call()),
{
    lemma_num_stops();
    assert forall|b: Seq<u8>, c: Seq<u8>, at: int| 0 <= at && begins(b, c) implies steady(
        #[trigger] r_call()(b, at),
        #[trigger] r_call()(c, at),
        at,
        b,
    ) by {
        lemma_list_stops(b, c, at + 8, r_num());
        match rlist(b, at + 8, r_num()) {
            Ok((held, p)) => {
                lemma_list_stops(b, c, p, r_num());
            },
            Err(_) => {},
        }
    }
}

proof fn lemma_solved_stops(
    b: Seq<u8>,
    c: Seq<u8>,
    p: int,
    locks: Seq<Seq<char>>,
    files: Seq<Seq<char>>,
    methods: Seq<MethodIx>,
    calls: Seq<CallIx>,
    more: bool,
)
    requires
        0 <= p,
        begins(b, c),
    ensures
        steady(
            read_solved(b, p, locks, files, methods, calls, more),
            read_solved(c, p, locks, files, methods, calls, more),
            p,
            b,
        ),
{
    lemma_num_stops();
    lemma_byte_stops();
    lemma_edge_stops();
    lemma_list_stops(b, c, p, r_num());
    if let Ok((_, p)) = rlist(b, p, r_num()) {
        lemma_list_stops(b, c, p, r_num());
        if let Ok((_, p)) = rlist(b, p, r_num()) {
            lemma_list_stops(b, c, p, r_num());
            if let Ok((_, p)) = rlist(b, p, r_num()) {
                lemma_list_stops(b, c, p, r_num());
                if let Ok((_, p)) = rlist(b, p, r_num()) {
                    lemma_list_stops(b, c, p, r_byte());
                    if let Ok((_, p)) = rlist(b, p, r_byte()) {
                        lemma_list_stops(b, c, p, r_edge());
                        if let Ok((_, p)) = rlist(b, p, r_edge()) {
                            lemma_list_stops(b, c, p, r_num());
                        }
                    }
                }
            }
        }
    }
}

proof fn lemma_read_stops(b: Seq<u8>, c: Seq<u8>)
    requires
        begins(b, c),
    ensures
        steady(read_from(b), read_from(c), 0, b),
{
    lemma_str_stops();
    lemma_method_stops();
    lemma_call_stops();
    if b.len() >= 8 {
        assert(b.take(8) =~= c.take(8));
        lemma_list_stops(b, c, 8, r_str());
        if let Ok((locks, p)) = rlist(b, 8, r_str()) {
            lemma_list_stops(b, c, p, r_str());
            if let Ok((files, p)) = rlist(b, p, r_str()) {
                lemma_list_stops(b, c, p, r_method());
                if let Ok((methods, p)) = rlist(b, p, r_method()) {
                    lemma_list_stops(b, c, p, r_call());
                    if let Ok((calls, p)) = rlist(b, p, r_call()) {
                        let more = b.take(8) == binder_magic();
                        lemma_solved_stops(b, c, p, locks, files, methods, calls, more);
                    }
                }
            }
        }
    }
}

/// An index that is cut short anywhere is no index: no proper prefix of what was written is
/// read.
pub proof fn law_cut_index_is_refused(v: IndexV, n: int)
    requires
        storable(v),
        0 <= n < written(v).len(),
    ensures
        read_back(written(v).take(n)) is Err,
{
    let b = written(v).take(n);
    lemma_written(v);
    lemma_read_stops(b, written(v));
}

/// Nothing is read that does not begin with one of the two headers.
pub proof fn law_other_headers_are_refused(b: Seq<u8>)
    requires
        b.len() < 8 || b.take(8) != magic() && b.take(8) != binder_magic(),
    ensures
        read_back(b) is Err,
{
}

/// The ten tables alone, under the header that promises more, are no index: so of an index
/// without binder methods no other header is read.
pub proof fn law_header_says_what_follows(v: IndexV, head: Seq<u8>)
    requires
        storable(v),
        v.binder.len() == 0,
        head.len() == 8,
        head != magic(),
    ensures
        read_back(head + written(v).skip(8)) is Err,
{
    let b = head + written(v).skip(8);
    let (g, s) = (wnamed(v), wtables(v));
    lemma_plain_written(v);
    lemma_other_head(written(v), head, g, s);
    if head == binder_magic() {
        lemma_named_under(b, v);
        lemma_tables_under(b, (8 + g.len()) as int, v);
    } else {
        law_other_headers_are_refused(b);
    }
}

proof fn lemma_other_head(w: Seq<u8>, head: Seq<u8>, g: Seq<u8>, s: Seq<u8>)
    requires
        w == magic() + (g + s),
        head.len() == 8,
    ensures
        ({
            let b = head + w.skip(8);
            &&& b.take(8) == head
            &&& stands(b, 8, g)
            &&& stands(b, (8 + g.len()) as int, s)
            &&& b.len() == 8 + g.len() + s.len()
        }),
{
    let b = head + w.skip(8);
    assert(w.skip(8) =~= g + s);
    assert(b.take(8) =~= head);
    lemma_whole(b);
    lemma_stands(b, 0, head, g + s);
    lemma_stands(b, 8, g, s);
}

/// The names and the call graph without their header.
#[verifier::opaque]
spec fn wnamed(v: IndexV) -> Seq<u8> {
    wlist(v.locks, w_str()) + wlist(v.files, w_str()) + wlist(v.methods, w_method()) + wlist(
        v.calls,
        w_call(),
    )
}

/// What was solved, without binder methods.
#[verifier::opaque]
spec fn wtables(v: IndexV) -> Seq<u8> {
    wlist(v.callers, w_num()) + wlist(v.caller_off, w_num()) + wlist(v.may_off, w_num()) + wlist(
        v.may_lock,
        w_num(),
    ) + wlist(v.may_dist, w_byte()) + wlist(v.order, w_edge())
}

proof fn lemma_plain_written(v: IndexV)
    requires
        v.binder.len() == 0,
    ensures
        written(v) == magic() + (wnamed(v) + wtables(v)),
{
    reveal(wnamed);
    reveal(wtables);
    let m = magic();
    let l = wlist(v.locks, w_str());
    let f = wlist(v.files, w_str());
    let ms = wlist(v.methods, w_method());
    let cs = wlist(v.calls, w_call());
    let s = wtables(v);
    lemma_assoc(m, l, f);
    lemma_assoc(m, l + f, ms);
    lemma_assoc(m, l + f + ms, cs);
    lemma_assoc(m, wnamed(v), s);
    assert(s + Seq::<u8>::empty() =~= s);
    assert(wsolved(v) == s + Seq::<u8>::empty());
}

proof fn lemma_named_under(b: Seq<u8>, v: IndexV)
    requires
        storable(v),
        b.len() >= 8,
        b.take(8) == binder_magic(),
        stands(b, 8, wnamed(v)),
    ensures
        read_from(b) == read_solved(
            b,
            (8 + wnamed(v).len()) as int,
            v.locks,
            v.files,
            v.methods,
            v.calls,
            true,
        ),
{
    reveal(wnamed);
    let l = wlist(v.locks, w_str());
    let f = wlist(v.files, w_str());
    let ms = wlist(v.methods, w_method());
    let cs = wlist(v.calls, w_call());
    lemma_stands(b, 8, l + f + ms, cs);
    lemma_stands(b, 8, l + f, ms);
    lemma_stands(b, 8, l, f);
    lemma_str_list(b, 8, v.locks);
    let p = 8int + l.len();
    lemma_str_list(b, p, v.files);
    let p = p + f.len();
    lemma_method_list(b, p, v.methods);
    let p = p + ms.len();
    lemma_call_list(b, p, v.calls);
    let p = p + cs.len();
    assert(p == 8 + wnamed(v).len());
}

proof fn lemma_tables_under(b: Seq<u8>, at: int, v: IndexV)
    requires
        storable(v),
        stands(b, at, wtables(v)),
        b.len() == at + wtables(v).len(),
    ensures
        read_solved(b, at, v.locks, v.files, v.methods, v.calls, true) is Err,
{
    reveal(wtables);
    let c = wlist(v.callers, w_num());
    let co = wlist(v.caller_off, w_num());
    let mo = wlist(v.may_off, w_num());
    let ml = wlist(v.may_lock, w_num());
    let md = wlist(v.may_dist, w_byte());
    let or = wlist(v.order, w_edge());
    lemma_stands(b, at, c + co + mo + ml + md, or);
    lemma_stands(b, at, c + co + mo + ml, md);
    lemma_stands(b, at, c + co + mo, ml);
    lemma_stands(b, at, c + co, mo);
    lemma_stands(b, at, c, co);
    lemma_num_list(b, at, v.callers);
    let p = at + c.len();
    lemma_num_list(b, p, v.caller_off);
    let p = p + co.len();
    lemma_num_list(b, p, v.may_off);
    let p = p + mo.len();
    lemma_num_list(b, p, v.may_lock);
    let p = p + ml.len();
    lemma_byte_list(b, p, v.may_dist);
    let p = p + md.len();
    lemma_edge_list(b, p, v.order);
    let p = p + or.len();
    assert(p == b.len());
    assert(rlist(b, p, r_num()) is Err);
}

fn put32(out: &mut Vec<u8>, x: u32)
    ensures
        final(out)@ == old(out)@ + w32(x),
{
    let ghost start = out@;
    out.push((x % 0x100) as u8);
    out.push((x / 0x100 % 0x100) as u8);
    out.push((x / 0x1_0000 % 0x100) as u8);
    out.push((x / 0x100_0000) as u8);
    proof {
        assert(out@ =~= start + w32(x));
    }
}

fn put_nums(out: &mut Vec<u8>, s: &Vec<u32>)
    ensures
        final(out)@ == old(out)@ + wlist(s@, w_num()),
{
    let ghost start = out@;
    put32(
        out,
        #[verifier::truncate]
        (s.len() as u32),
    );
    let ghost head = out@;
    let mut k: usize = 0;
    while k < s.len()
        invariant
            k <= s@.len(),
            head + wcat(s@, w_num(), 0) == out@ + wcat(s@, w_num(), k as int),
        decreases s@.len() - k,
    {
        let ghost before = out@;
        put32(out, s[k]);
        proof {
            let rest = wcat(s@, w_num(), k + 1);
            assert(before + (w_num()(s@[k as int]) + rest) =~= out@ + rest);
        }
        k += 1;
    }
    proof {
        assert(out@ + Seq::<u8>::empty() =~= out@);
        assert(start + wlist(s@, w_num()) =~= head + wcat(s@, w_num(), 0));
    }
}

fn put_str(out: &mut Vec<u8>, s: &str)
    ensures
        final(out)@ == old(out)@ + w_str()(s@),
{
    let ghost start = out@;
    let b = s.as_bytes();
    put32(
        out,
        #[verifier::truncate]
        (b.len() as u32),
    );
    bytes::append_bytes(out, b);
    proof {
        assert(out@ =~= start + w_str()(s@));
    }
}

fn put_strs(out: &mut Vec<u8>, s: &Vec<String>)
    ensures
        final(out)@ == old(out)@ + wlist(s.deep_view(), w_str()),
{
    let ghost start = out@;
    let ghost sv = s.deep_view();
    put32(
        out,
        #[verifier::truncate]
        (s.len() as u32),
    );
    let ghost head = out@;
    let mut k: usize = 0;
    while k < s.len()
        invariant
            k <= s@.len(),
            sv == s.deep_view(),
            head + wcat(sv, w_str(), 0) == out@ + wcat(sv, w_str(), k as int),
        decreases s@.len() - k,
    {
        let ghost before = out@;
        put_str(out, s[k].as_str());
        proof {
            assert(sv[k as int] == s@[k as int]@);
            let rest = wcat(sv, w_str(), k + 1);
            assert(before + (w_str()(sv[k as int]) + rest) =~= out@ + rest);
        }
        k += 1;
    }
    proof {
        assert(out@ + Seq::<u8>::empty() =~= out@);
        assert(start + wlist(sv, w_str()) =~= head + wcat(sv, w_str(), 0));
    }
}

fn put_spans(out: &mut Vec<u8>, s: &Vec<Span>)
    ensures
        final(out)@ == old(out)@ + wlist(s.deep_view(), w_span()),
{
    let ghost start = out@;
    let ghost sv = s.deep_view();
    put32(
        out,
        #[verifier::truncate]
        (s.len() as u32),
    );
    let ghost head = out@;
    let mut k: usize = 0;
    while k < s.len()
        invariant
            k <= s@.len(),
            sv == s.deep_view(),
            head + wcat(sv, w_span(), 0) == out@ + wcat(sv, w_span(), k as int),
        decreases s@.len() - k,
    {
        let ghost before = out@;
        let x = &s[k];
        put32(out, x.lock);
        put32(out, x.enter);
        put32(out, x.exit);
        put_nums(out, &x.held);
        proof {
            assert(sv[k as int] == x.deep_view());
            let rest = wcat(sv, w_span(), k + 1);
            assert(out@ =~= before + w_span()(sv[k as int]));
            assert(before + (w_span()(sv[k as int]) + rest) =~= out@ + rest);
        }
        k += 1;
    }
    proof {
        assert(out@ + Seq::<u8>::empty() =~= out@);
        assert(start + wlist(sv, w_span()) =~= head + wcat(sv, w_span(), 0));
    }
}

fn put_methods(out: &mut Vec<u8>, s: &Vec<MethodRec>)
    ensures
        final(out)@ == old(out)@ + wlist(s.deep_view(), w_method()),
{
    let ghost start = out@;
    let ghost sv = s.deep_view();
    put32(
        out,
        #[verifier::truncate]
        (s.len() as u32),
    );
    let ghost head = out@;
    let mut k: usize = 0;
    while k < s.len()
        invariant
            k <= s@.len(),
            sv == s.deep_view(),
            head + wcat(sv, w_method(), 0) == out@ + wcat(sv, w_method(), k as int),
        decreases s@.len() - k,
    {
        let ghost before = out@;
        let x = &s[k];
        put_str(out, x.key.as_str());
        put32(out, x.file);
        put32(out, x.line_lo);
        put32(out, x.line_hi);
        put_spans(out, &x.spans);
        put32(out, x.calls.0);
        put32(out, x.calls.1);
        proof {
            assert(sv[k as int] == x.deep_view());
            let rest = wcat(sv, w_method(), k + 1);
            assert(out@ =~= before + w_method()(sv[k as int]));
            assert(before + (w_method()(sv[k as int]) + rest) =~= out@ + rest);
        }
        k += 1;
    }
    proof {
        assert(out@ + Seq::<u8>::empty() =~= out@);
        assert(start + wlist(sv, w_method()) =~= head + wcat(sv, w_method(), 0));
    }
}

fn put_calls(out: &mut Vec<u8>, s: &Vec<Call>)
    ensures
        final(out)@ == old(out)@ + wlist(s.deep_view(), w_call()),
{
    let ghost start = out@;
    let ghost sv = s.deep_view();
    put32(
        out,
        #[verifier::truncate]
        (s.len() as u32),
    );
    let ghost head = out@;
    let mut k: usize = 0;
    while k < s.len()
        invariant
            k <= s@.len(),
            sv == s.deep_view(),
            head + wcat(sv, w_call(), 0) == out@ + wcat(sv, w_call(), k as int),
        decreases s@.len() - k,
    {
        let ghost before = out@;
        let x = &s[k];
        put32(out, x.caller);
        put32(out, x.line);
        put_nums(out, &x.held);
        put_nums(out, &x.targets);
        proof {
            assert(sv[k as int] == x.deep_view());
            let rest = wcat(sv, w_call(), k + 1);
            assert(out@ =~= before + w_call()(sv[k as int]));
            assert(before + (w_call()(sv[k as int]) + rest) =~= out@ + rest);
        }
        k += 1;
    }
    proof {
        assert(out@ + Seq::<u8>::empty() =~= out@);
        assert(start + wlist(sv, w_call()) =~= head + wcat(sv, w_call(), 0));
    }
}

fn put_dists(out: &mut Vec<u8>, s: &Vec<u8>)
    ensures
        final(out)@ == old(out)@ + wlist(s@, w_byte()),
{
    let ghost start = out@;
    put32(
        out,
        #[verifier::truncate]
        (s.len() as u32),
    );
    let ghost head = out@;
    let mut k: usize = 0;
    while k < s.len()
        invariant
            k <= s@.len(),
            head + wcat(s@, w_byte(), 0) == out@ + wcat(s@, w_byte(), k as int),
        decreases s@.len() - k,
    {
        let ghost before = out@;
        out.push(s[k]);
        proof {
            let rest = wcat(s@, w_byte(), k + 1);
            assert(before + (w_byte()(s@[k as int]) + rest) =~= out@ + rest);
        }
        k += 1;
    }
    proof {
        assert(out@ + Seq::<u8>::empty() =~= out@);
        assert(start + wlist(s@, w_byte()) =~= head + wcat(s@, w_byte(), 0));
    }
}

fn put_edges(out: &mut Vec<u8>, s: &Vec<OrderEdge>)
    ensures
        final(out)@ == old(out)@ + wlist(s@, w_edge()),
{
    let ghost start = out@;
    put32(
        out,
        #[verifier::truncate]
        (s.len() as u32),
    );
    let ghost head = out@;
    let mut k: usize = 0;
    while k < s.len()
        invariant
            k <= s@.len(),
            head + wcat(s@, w_edge(), 0) == out@ + wcat(s@, w_edge(), k as int),
        decreases s@.len() - k,
    {
        let ghost before = out@;
        let e = s[k];
        put32(out, e.from);
        put32(out, e.to);
        put32(out, e.count);
        put32(out, e.method);
        put32(out, e.line);
        out.push(e.dist);
        proof {
            let rest = wcat(s@, w_edge(), k + 1);
            assert(out@ =~= before + w_edge()(s@[k as int]));
            assert(before + (w_edge()(s@[k as int]) + rest) =~= out@ + rest);
        }
        k += 1;
    }
    proof {
        assert(out@ + Seq::<u8>::empty() =~= out@);
        assert(start + wlist(s@, w_edge()) =~= head + wcat(s@, w_edge(), 0));
    }
}

proof fn lemma_assoc(a: Seq<u8>, b: Seq<u8>, c: Seq<u8>)
    ensures
        a + b + c == a + (b + c),
{
    assert(a + b + c =~= a + (b + c));
}

impl Index {
    fn write_solved(&self, out: &mut Vec<u8>)
        ensures
            final(out)@ == old(out)@ + wsolved(self.deep_view()),
    {
        let ghost g = out@;
        let ghost c = wlist(self.callers@, w_num());
        let ghost co = wlist(self.caller_off@, w_num());
        let ghost mo = wlist(self.may_off@, w_num());
        let ghost ml = wlist(self.may_lock@, w_num());
        let ghost md = wlist(self.may_dist@, w_byte());
        let ghost or = wlist(self.order@, w_edge());
        let ghost bi = wbinder(self.deep_view());
        put_nums(out, &self.callers);
        put_nums(out, &self.caller_off);
        put_nums(out, &self.may_off);
        put_nums(out, &self.may_lock);
        put_dists(out, &self.may_dist);
        put_edges(out, &self.order);
        let ghost tables = out@;
        if self.binder.len() > 0 {
            put_nums(out, &self.binder);
        }
        proof {
            if self.binder@.len() == 0 {
                assert(tables + Seq::<u8>::empty() =~= tables);
            }
            lemma_assoc(g, c, co);
            lemma_assoc(g, c + co, mo);
            lemma_assoc(g, c + co + mo, ml);
            lemma_assoc(g, c + co + mo + ml, md);
            lemma_assoc(g, c + co + mo + ml + md, or);
            lemma_assoc(g, c + co + mo + ml + md + or, bi);
        }
    }

    /// The index as bytes.
    pub fn write(&self) -> (r: Vec<u8>)
        ensures
            r@ == written(self.deep_view()),
    {
        let ghost v = self.deep_view();
        let kind: u8 = if self.binder.len() > 0 {
            0x32
        } else {
            0x31
        };
        let mut out: Vec<u8> = vec![0x44, 0x58, 0x4c, 0x4b, 0x43, 0x54, 0x58, kind];
        proof {
            assert(out@ =~= header(v));
        }
        put_strs(&mut out, &self.locks);
        put_strs(&mut out, &self.files);
        put_methods(&mut out, &self.methods);
        put_calls(&mut out, &self.calls);
        let ghost graph = out@;
        self.write_solved(&mut out);
        proof {
            assert(graph == wgraph(v));
        }
        out
    }
}

/// What a reader gives is what is found.
spec fn same_found<A>(r: Result<(A, usize), ReadError>, b: Seq<u8>, f: Found<A>) -> bool {
    match r {
        Ok((x, p)) => f == Ok::<(A, int), ReadError>((x, p as int)) && p <= b.len(),
        Err(e) => f == Err::<(A, int), ReadError>(e),
    }
}

fn get32(b: &[u8], at: usize) -> (r: Result<(u32, usize), ReadError>)
    requires
        at <= b@.len(),
    ensures
        same_found(r, b@, r_num()(b@, at as int)),
{
    if b.len() - at < 4 {
        return Err(ReadError::Short);
    }
    Ok((bytes::u32_at(b, at), at + 4))
}

fn get8(b: &[u8], at: usize) -> (r: Result<(u8, usize), ReadError>)
    requires
        at <= b@.len(),
    ensures
        same_found(r, b@, r_byte()(b@, at as int)),
{
    if b.len() - at < 1 {
        return Err(ReadError::Short);
    }
    Ok((b[at], at + 1))
}

fn get_edge(b: &[u8], at: usize) -> (r: Result<(OrderEdge, usize), ReadError>)
    requires
        at <= b@.len(),
    ensures
        same_found(r, b@, r_edge()(b@, at as int)),
{
    if b.len() - at < 21 {
        return Err(ReadError::Short);
    }
    Ok(
        (
            OrderEdge {
                from: bytes::u32_at(b, at),
                to: bytes::u32_at(b, at + 4),
                count: bytes::u32_at(b, at + 8),
                method: bytes::u32_at(b, at + 12),
                line: bytes::u32_at(b, at + 16),
                dist: b[at + 20],
            },
            at + 21,
        ),
    )
}

/// What a reader gives stands for what is found.
spec fn stands_for<T: DeepView>(
    r: Result<(T, usize), ReadError>,
    b: Seq<u8>,
    f: Found<T::V>,
) -> bool {
    match r {
        Ok((x, p)) => f == Ok::<(T::V, int), ReadError>((x.deep_view(), p as int)) && p
            <= b.len(),
        Err(e) => f == Err::<(T::V, int), ReadError>(e),
    }
}

fn get_str(b: &[u8], at: usize) -> (r: Result<(String, usize), ReadError>)
    requires
        at <= b@.len(),
    ensures
        stands_for(r, b@, r_str()(b@, at as int)),
{
    let (n, p) = match get32(b, at) {
        Err(e) => {
            return Err(e);
        },
        Ok(x) => x,
    };
    if (b.len() - p) as u64 >= n as u64 {
        let n = n as usize;
        let mut t: Vec<u8> = Vec::new();
        bytes::append_bytes(&mut t, vstd::slice::slice_subrange(b, p, p + n));
        proof {
            assert(t@ =~= b@.subrange(p as int, p + n));
        }
        match text::utf8_text(t) {
            Some(s) => Ok((s, p + n)),
            None => Err(ReadError::Text),
        }
    } else {
        Err(ReadError::Short)
    }
}

fn get_nums(b: &[u8], at: usize) -> (r: Result<(Vec<u32>, usize), ReadError>)
    requires
        at <= b@.len(),
    ensures
        match r {
            Ok((s, p)) => rlist(b@, at as int, r_num()) == Ok::<(Seq<u32>, int), ReadError>(
                (s.deep_view(), p as int),
            ) && p <= b@.len(),
            Err(e) => rlist(b@, at as int, r_num()) == Err::<(Seq<u32>, int), ReadError>(e),
        },
{
    let (n, start) = match get32(b, at) {
        Err(e) => {
            return Err(e);
        },
        Ok(x) => x,
    };
    let mut out: Vec<u32> = values::empty();
    let mut p = start;
    let mut k: u32 = 0;
    while k < n
        invariant
            k <= n,
            p <= b@.len(),
            rcat(b@, start as int, n as nat, r_num(), Seq::empty()) == rcat(
                b@,
                p as int,
                (n - k) as nat,
                r_num(),
                out.deep_view(),
            ),
            rlist(b@, at as int, r_num()) == rcat(b@, start as int, n as nat, r_num(), Seq::empty()),
        decreases n - k,
    {
        match get32(b, p) {
            Err(e) => {
                return Err(e);
            },
            Ok((x, q)) => {
                values::push(&mut out, x);
                p = q;
            },
        }
        k += 1;
    }
    Ok((out, p))
}

fn get_dists(b: &[u8], at: usize) -> (r: Result<(Vec<u8>, usize), ReadError>)
    requires
        at <= b@.len(),
    ensures
        match r {
            Ok((s, p)) => rlist(b@, at as int, r_byte()) == Ok::<(Seq<u8>, int), ReadError>(
                (s.deep_view(), p as int),
            ) && p <= b@.len(),
            Err(e) => rlist(b@, at as int, r_byte()) == Err::<(Seq<u8>, int), ReadError>(e),
        },
{
    let (n, start) = match get32(b, at) {
        Err(e) => {
            return Err(e);
        },
        Ok(x) => x,
    };
    let mut out: Vec<u8> = values::empty();
    let mut p = start;
    let mut k: u32 = 0;
    while k < n
        invariant
            k <= n,
            p <= b@.len(),
            rcat(b@, start as int, n as nat, r_byte(), Seq::empty()) == rcat(
                b@,
                p as int,
                (n - k) as nat,
                r_byte(),
                out.deep_view(),
            ),
            rlist(b@, at as int, r_byte()) == rcat(b@, start as int, n as nat, r_byte(), Seq::empty()),
        decreases n - k,
    {
        match get8(b, p) {
            Err(e) => {
                return Err(e);
            },
            Ok((x, q)) => {
                values::push(&mut out, x);
                p = q;
            },
        }
        k += 1;
    }
    Ok((out, p))
}

fn get_strs(b: &[u8], at: usize) -> (r: Result<(Vec<String>, usize), ReadError>)
    requires
        at <= b@.len(),
    ensures
        match r {
            Ok((s, p)) => rlist(b@, at as int, r_str()) == Ok::<(Seq<Seq<char>>, int), ReadError>(
                (s.deep_view(), p as int),
            ) && p <= b@.len(),
            Err(e) => rlist(b@, at as int, r_str()) == Err::<(Seq<Seq<char>>, int), ReadError>(e),
        },
{
    let (n, start) = match get32(b, at) {
        Err(e) => {
            return Err(e);
        },
        Ok(x) => x,
    };
    let mut out: Vec<String> = values::empty();
    let mut p = start;
    let mut k: u32 = 0;
    while k < n
        invariant
            k <= n,
            p <= b@.len(),
            rcat(b@, start as int, n as nat, r_str(), Seq::empty()) == rcat(
                b@,
                p as int,
                (n - k) as nat,
                r_str(),
                out.deep_view(),
            ),
            rlist(b@, at as int, r_str()) == rcat(b@, start as int, n as nat, r_str(), Seq::empty()),
        decreases n - k,
    {
        match get_str(b, p) {
            Err(e) => {
                return Err(e);
            },
            Ok((x, q)) => {
                values::push(&mut out, x);
                p = q;
            },
        }
        k += 1;
    }
    Ok((out, p))
}

fn get_edges(b: &[u8], at: usize) -> (r: Result<(Vec<OrderEdge>, usize), ReadError>)
    requires
        at <= b@.len(),
    ensures
        match r {
            Ok((s, p)) => rlist(b@, at as int, r_edge()) == Ok::<(Seq<OrderEdge>, int), ReadError>(
                (s.deep_view(), p as int),
            ) && p <= b@.len(),
            Err(e) => rlist(b@, at as int, r_edge()) == Err::<(Seq<OrderEdge>, int), ReadError>(e),
        },
{
    let (n, start) = match get32(b, at) {
        Err(e) => {
            return Err(e);
        },
        Ok(x) => x,
    };
    let mut out: Vec<OrderEdge> = values::empty();
    let mut p = start;
    let mut k: u32 = 0;
    while k < n
        invariant
            k <= n,
            p <= b@.len(),
            rcat(b@, start as int, n as nat, r_edge(), Seq::empty()) == rcat(
                b@,
                p as int,
                (n - k) as nat,
                r_edge(),
                out.deep_view(),
            ),
            rlist(b@, at as int, r_edge()) == rcat(b@, start as int, n as nat, r_edge(), Seq::empty()),
        decreases n - k,
    {
        match get_edge(b, p) {
            Err(e) => {
                return Err(e);
            },
            Ok((x, q)) => {
                values::push(&mut out, x);
                p = q;
            },
        }
        k += 1;
    }
    Ok((out, p))
}

fn get_span(b: &[u8], at: usize) -> (r: Result<(Span, usize), ReadError>)
    requires
        at <= b@.len(),
    ensures
        stands_for(r, b@, r_span()(b@, at as int)),
{
    if b.len() - at < 12 {
        return Err(ReadError::Short);
    }
    match get_nums(b, at + 12) {
        Err(e) => Err(e),
        Ok((held, p)) => {
            proof {
                assert(held.deep_view() =~= held@);
            }
            Ok(
                (
                    Span {
                        lock: bytes::u32_at(b, at),
                        enter: bytes::u32_at(b, at + 4),
                        exit: bytes::u32_at(b, at + 8),
                        held,
                    },
                    p,
                ),
            )
        },
    }
}

fn get_spans(b: &[u8], at: usize) -> (r: Result<(Vec<Span>, usize), ReadError>)
    requires
        at <= b@.len(),
    ensures
        match r {
            Ok((s, p)) => rlist(b@, at as int, r_span()) == Ok::<(Seq<SpanIx>, int), ReadError>(
                (s.deep_view(), p as int),
            ) && p <= b@.len(),
            Err(e) => rlist(b@, at as int, r_span()) == Err::<(Seq<SpanIx>, int), ReadError>(e),
        },
{
    let (n, start) = match get32(b, at) {
        Err(e) => {
            return Err(e);
        },
        Ok(x) => x,
    };
    let mut out: Vec<Span> = values::empty();
    let mut p = start;
    let mut k: u32 = 0;
    while k < n
        invariant
            k <= n,
            p <= b@.len(),
            rcat(b@, start as int, n as nat, r_span(), Seq::empty()) == rcat(
                b@,
                p as int,
                (n - k) as nat,
                r_span(),
                out.deep_view(),
            ),
            rlist(b@, at as int, r_span()) == rcat(b@, start as int, n as nat, r_span(), Seq::empty()),
        decreases n - k,
    {
        match get_span(b, p) {
            Err(e) => {
                return Err(e);
            },
            Ok((x, q)) => {
                values::push(&mut out, x);
                p = q;
            },
        }
        k += 1;
    }
    Ok((out, p))
}

fn get_method(b: &[u8], at: usize) -> (r: Result<(MethodRec, usize), ReadError>)
    requires
        at <= b@.len(),
    ensures
        stands_for(r, b@, r_method()(b@, at as int)),
{
    let (key, p) = match get_str(b, at) {
        Err(e) => {
            return Err(e);
        },
        Ok(x) => x,
    };
    if b.len() - p < 12 {
        return Err(ReadError::Short);
    }
    let (spans, q) = match get_spans(b, p + 12) {
        Err(e) => {
            return Err(e);
        },
        Ok(x) => x,
    };
    if b.len() - q < 8 {
        return Err(ReadError::Short);
    }
    Ok(
        (
            MethodRec {
                key,
                file: bytes::u32_at(b, p),
                line_lo: bytes::u32_at(b, p + 4),
                line_hi: bytes::u32_at(b, p + 8),
                spans,
                calls: (bytes::u32_at(b, q), bytes::u32_at(b, q + 4)),
            },
            q + 8,
        ),
    )
}

fn get_call(b: &[u8], at: usize) -> (r: Result<(Call, usize), ReadError>)
    requires
        at <= b@.len(),
    ensures
        stands_for(r, b@, r_call()(b@, at as int)),
{
    if b.len() - at < 8 {
        return Err(ReadError::Short);
    }
    let (held, p) = match get_nums(b, at + 8) {
        Err(e) => {
            return Err(e);
        },
        Ok(x) => x,
    };
    let (targets, q) = match get_nums(b, p) {
        Err(e) => {
            return Err(e);
        },
        Ok(x) => x,
    };
    proof {
        assert(held.deep_view() =~= held@);
        assert(targets.deep_view() =~= targets@);
    }
    Ok(
        (
            Call { caller: bytes::u32_at(b, at), line: bytes::u32_at(b, at + 4), held, targets },
            q,
        ),
    )
}

fn get_methods(b: &[u8], at: usize) -> (r: Result<(Vec<MethodRec>, usize), ReadError>)
    requires
        at <= b@.len(),
    ensures
        match r {
            Ok((s, p)) => rlist(b@, at as int, r_method()) == Ok::<(Seq<MethodIx>, int), ReadError>(
                (s.deep_view(), p as int),
            ) && p <= b@.len(),
            Err(e) => rlist(b@, at as int, r_method()) == Err::<(Seq<MethodIx>, int), ReadError>(e),
        },
{
    let (n, start) = match get32(b, at) {
        Err(e) => {
            return Err(e);
        },
        Ok(x) => x,
    };
    let mut out: Vec<MethodRec> = values::empty();
    let mut p = start;
    let mut k: u32 = 0;
    while k < n
        invariant
            k <= n,
            p <= b@.len(),
            rcat(b@, start as int, n as nat, r_method(), Seq::empty()) == rcat(
                b@,
                p as int,
                (n - k) as nat,
                r_method(),
                out.deep_view(),
            ),
            rlist(b@, at as int, r_method()) == rcat(b@, start as int, n as nat, r_method(), Seq::empty()),
        decreases n - k,
    {
        match get_method(b, p) {
            Err(e) => {
                return Err(e);
            },
            Ok((x, q)) => {
                values::push(&mut out, x);
                p = q;
            },
        }
        k += 1;
    }
    Ok((out, p))
}

fn get_calls(b: &[u8], at: usize) -> (r: Result<(Vec<Call>, usize), ReadError>)
    requires
        at <= b@.len(),
    ensures
        match r {
            Ok((s, p)) => rlist(b@, at as int, r_call()) == Ok::<(Seq<CallIx>, int), ReadError>(
                (s.deep_view(), p as int),
            ) && p <= b@.len(),
            Err(e) => rlist(b@, at as int, r_call()) == Err::<(Seq<CallIx>, int), ReadError>(e),
        },
{
    let (n, start) = match get32(b, at) {
        Err(e) => {
            return Err(e);
        },
        Ok(x) => x,
    };
    let mut out: Vec<Call> = values::empty();
    let mut p = start;
    let mut k: u32 = 0;
    while k < n
        invariant
            k <= n,
            p <= b@.len(),
            rcat(b@, start as int, n as nat, r_call(), Seq::empty()) == rcat(
                b@,
                p as int,
                (n - k) as nat,
                r_call(),
                out.deep_view(),
            ),
            rlist(b@, at as int, r_call()) == rcat(b@, start as int, n as nat, r_call(), Seq::empty()),
        decreases n - k,
    {
        match get_call(b, p) {
            Err(e) => {
                return Err(e);
            },
            Ok((x, q)) => {
                values::push(&mut out, x);
                p = q;
            },
        }
        k += 1;
    }
    Ok((out, p))
}

impl Index {
    /// The index that the bytes hold.
    pub fn read(b: &[u8]) -> (r: Result<Index, ReadError>)
        ensures
            match r {
                Ok(x) => read_back(b@) == Ok::<IndexV, ReadError>(x.deep_view()),
                Err(e) => read_back(b@) == Err::<IndexV, ReadError>(e),
            },
    {
        if b.len() < 8 {
            return Err(ReadError::Header);
        }
        let tables: Vec<u8> = vec![0x44, 0x58, 0x4c, 0x4b, 0x43, 0x54, 0x58, 0x31];
        let with_binder: Vec<u8> = vec![0x44, 0x58, 0x4c, 0x4b, 0x43, 0x54, 0x58, 0x32];
        proof {
            assert(tables@ =~= magic());
            assert(with_binder@ =~= binder_magic());
            assert(b@.subrange(0, 8) =~= b@.take(8));
        }
        let head = vstd::slice::slice_subrange(b, 0, 8);
        let more = text::bytes_eq(head, with_binder.as_slice());
        if !more && !text::bytes_eq(head, tables.as_slice()) {
            return Err(ReadError::NotAnIndex);
        }
        let p: usize = 8;
        let (locks, p) = match get_strs(b, p) {
            Err(e) => {
                return Err(e);
            },
            Ok(x) => x,
        };
        let (files, p) = match get_strs(b, p) {
            Err(e) => {
                return Err(e);
            },
            Ok(x) => x,
        };
        let (methods, p) = match get_methods(b, p) {
            Err(e) => {
                return Err(e);
            },
            Ok(x) => x,
        };
        let (calls, p) = match get_calls(b, p) {
            Err(e) => {
                return Err(e);
            },
            Ok(x) => x,
        };
        let (callers, p) = match get_nums(b, p) {
            Err(e) => {
                return Err(e);
            },
            Ok(x) => x,
        };
        let (caller_off, p) = match get_nums(b, p) {
            Err(e) => {
                return Err(e);
            },
            Ok(x) => x,
        };
        let (may_off, p) = match get_nums(b, p) {
            Err(e) => {
                return Err(e);
            },
            Ok(x) => x,
        };
        let (may_lock, p) = match get_nums(b, p) {
            Err(e) => {
                return Err(e);
            },
            Ok(x) => x,
        };
        let (may_dist, p) = match get_dists(b, p) {
            Err(e) => {
                return Err(e);
            },
            Ok(x) => x,
        };
        let (order, p) = match get_edges(b, p) {
            Err(e) => {
                return Err(e);
            },
            Ok(x) => x,
        };
        let binder: Vec<u32> = if more {
            match get_nums(b, p) {
                Err(e) => {
                    return Err(e);
                },
                Ok((list, _)) => list,
            }
        } else {
            Vec::new()
        };
        proof {
            assert(callers.deep_view() =~= callers@);
            assert(caller_off.deep_view() =~= caller_off@);
            assert(may_off.deep_view() =~= may_off@);
            assert(may_lock.deep_view() =~= may_lock@);
            assert(may_dist.deep_view() =~= may_dist@);
            assert(order.deep_view() =~= order@);
            assert(binder.deep_view() =~= binder@);
        }
        Ok(
            Index {
                methods,
                locks,
                files,
                calls,
                callers,
                caller_off,
                may_off,
                may_lock,
                may_dist,
                order,
                binder,
            },
        )
    }
}

} // verus!

//! What an LZ4 block is: how its sequences are written, and that reading gives back what was
//! written.

use crate::bytes;
use crate::dex::apex::lz4;
use crate::dex::apex::lz4::Lz4Error;
use vstd::prelude::*;

verus! {

/// The four bits of a length: fifteen where more follows.
pub open spec fn nibble(n: nat) -> int {
    if n < 15 {
        n as int
    } else {
        15
    }
}

/// What of a length does not fit the four bits: bytes that add up to it, of which the first
/// below 255 is the last.
pub open spec fn spill(n: nat) -> Seq<u8>
    decreases n,
{
    if n < 255 {
        seq![n as u8]
    } else {
        seq![255u8] + spill((n - 255) as nat)
    }
}

/// The bytes that continue a length.
pub open spec fn continued(n: nat) -> Seq<u8> {
    if n < 15 {
        Seq::empty()
    } else {
        spill((n - 15) as nat)
    }
}

/// A sequence: literals, then a match of `m + 4` bytes that reaches `off` bytes back.
pub open spec fn sequence(lits: Seq<u8>, off: u16, m: nat) -> Seq<u8> {
    seq![(nibble(lits.len()) * 16 + nibble(m)) as u8] + continued(lits.len()) + lits + seq![
        (off % 256) as u8,
        (off / 256) as u8,
    ] + continued(m)
}

/// The last sequence of a block: literals only.
pub open spec fn last_sequence(lits: Seq<u8>) -> Seq<u8> {
    seq![(nibble(lits.len()) * 16) as u8] + continued(lits.len()) + lits
}

/// `b` is `a` continued by `n` bytes, each the one that stands `off` before it.
pub open spec fn repeats(a: Seq<u8>, off: int, n: nat, b: Seq<u8>) -> bool {
    &&& b.len() == a.len() + n
    &&& forall|p: int| 0 <= p < a.len() ==> #[trigger] b[p] == a[p]
    &&& forall|p: int| a.len() <= p < b.len() ==> #[trigger] b[p] == b[p - off]
}

proof fn lemma_spill(src: Seq<u8>, i: int, n: nat, len: int)
    requires
        0 <= i,
        i + spill(n).len() <= src.len(),
        src.subrange(i, i + spill(n).len()) == spill(n),
    ensures
        lz4::extended(src, i, len) == Some((len + n, i + spill(n).len())),
        spill(n).len() > 0,
    decreases n,
{
    let s = spill(n);
    if n < 255 {
        assert(s.len() == 1);
        assert(src.subrange(i, i + s.len())[0] == s[0]);
    } else {
        let t = spill((n - 255) as nat);
        assert(s.len() == 1 + t.len());
        assert(src.subrange(i, i + s.len())[0] == s[0]);
        assert(src.subrange(i + 1, i + 1 + t.len()) =~= t) by {
            assert forall|j: int| 0 <= j < t.len() implies src[i + 1 + j] == t[j] by {
                assert(src.subrange(i, i + s.len())[1 + j] == s[1 + j]);
            }
        }
        lemma_spill(src, i + 1, (n - 255) as nat, len + 255);
    }
}

proof fn lemma_length(src: Seq<u8>, i: int, n: nat)
    requires
        0 <= i,
        i + continued(n).len() <= src.len(),
        src.subrange(i, i + continued(n).len()) == continued(n),
    ensures
        lz4::length(src, i, nibble(n)) == Some((n as int, i + continued(n).len())),
{
    if n >= 15 {
        lemma_spill(src, i, (n - 15) as nat, 15);
    }
}

proof fn lemma_repeat(a: Seq<u8>, off: int, n: nat, b: Seq<u8>)
    requires
        0 < off <= a.len(),
        repeats(a, off, n, b),
    ensures
        lz4::repeat(a, off, n) == b,
    decreases n,
{
    if n == 0 {
        assert(a =~= b);
    } else {
        let next = a.push(a[a.len() - off]);
        assert(b[a.len() as int] == b[a.len() - off]);
        lemma_repeat(next, off, (n - 1) as nat, b);
    }
}

proof fn lemma_part(head: Seq<u8>, part: Seq<u8>, tail: Seq<u8>, a: int, b: int)
    requires
        0 <= a <= b <= part.len(),
    ensures
        (head + part + tail).subrange(head.len() + a, head.len() + b) == part.subrange(a, b),
{
    assert((head + part + tail).subrange(head.len() + a, head.len() + b) =~= part.subrange(a, b));
}

/// A sequence adds its literals and then its match: reading goes on behind it with `out`,
/// which is what was read before it, its literals, and as many bytes more as it says, each
/// the one that stands its offset before it.
pub proof fn law_sequence_adds_literals_and_match(
    head: Seq<u8>,
    lits: Seq<u8>,
    off: u16,
    m: nat,
    tail: Seq<u8>,
    dst: Seq<u8>,
    out: Seq<u8>,
    want: nat,
)
    requires
        0 < off <= dst.len() + lits.len(),
        repeats(dst + lits, off as int, m + 4, out),
        out.len() <= want,
    ensures
        ({
            let src = head + sequence(lits, off, m) + tail;
            lz4::sequences(src, head.len() as int, dst, want) == lz4::sequences(
                src,
                (head.len() + sequence(lits, off, m).len()) as int,
                out,
                want,
            )
        }),
{
    let s = sequence(lits, off, m);
    let src = head + s + tail;
    let h = head.len() as int;
    let c1 = continued(lits.len());
    let c2 = continued(m);
    let n1 = c1.len() as int;
    let n = lits.len() as int;
    let o = seq![(off % 256) as u8, (off / 256) as u8];
    assert(s.len() == 1 + n1 + n + 2 + c2.len());
    let token = nibble(lits.len()) * 16 + nibble(m);
    assert(s[0] == token as u8);
    assert(src[h] == s[0]);
    assert(src[h] as int / 16 == nibble(lits.len()));
    assert(src[h] as int % 16 == nibble(m));
    assert(s.subrange(1, 1 + n1) =~= c1);
    lemma_part(head, s, tail, 1, 1 + n1);
    lemma_length(src, h + 1, lits.len());
    let j = h + 1 + n1;
    let k = j + n;
    assert(s.subrange(1 + n1, 1 + n1 + n) =~= lits);
    lemma_part(head, s, tail, 1 + n1, 1 + n1 + n);
    assert(src.subrange(j, k) == lits);
    assert(s[1 + n1 + n] == o[0]);
    assert(s[1 + n1 + n + 1] == o[1]);
    assert(src[k] == o[0] && src[k + 1] == o[1]);
    assert(bytes::le16(src, k) == off);
    assert(s.subrange(1 + n1 + n + 2, s.len() as int) =~= c2);
    lemma_part(head, s, tail, 1 + n1 + n + 2, s.len() as int);
    lemma_length(src, k + 2, m);
    lemma_repeat(dst + lits, off as int, m + 4, out);
}

/// A block ends with literals: what was read before them and they are what it holds.
pub proof fn law_block_ends_in_literals(head: Seq<u8>, lits: Seq<u8>, dst: Seq<u8>, want: nat)
    requires
        dst.len() < want,
    ensures
        lz4::sequences(head + last_sequence(lits), head.len() as int, dst, want) == Ok::<
            _,
            Lz4Error,
        >(dst + lits),
{
    let s = last_sequence(lits);
    let src = head + s;
    let h = head.len() as int;
    let c1 = continued(lits.len());
    let n1 = c1.len() as int;
    assert(s.len() == 1 + n1 + lits.len());
    assert(s[0] == (nibble(lits.len()) * 16) as u8);
    assert(src[h] == s[0]);
    assert(src[h] as int / 16 == nibble(lits.len()));
    assert(src.subrange(h + 1, h + 1 + n1) =~= c1);
    lemma_length(src, h + 1, lits.len());
    assert(src.subrange(h + 1 + n1, src.len() as int) =~= lits);
}

/// The sequences of a block from the `k`th on, written one behind the other, and its last
/// literals.
pub open spec fn block_from(seqs: Seq<(Seq<u8>, u16, nat)>, last: Seq<u8>, k: int) -> Seq<u8>
    decreases seqs.len() - k,
{
    if k >= seqs.len() {
        last_sequence(last)
    } else {
        sequence(seqs[k].0, seqs[k].1, seqs[k].2) + block_from(seqs, last, k + 1)
    }
}

/// What was read once `k` sequences were: each adds its literals and its match to what was
/// read before it.
pub open spec fn written(seqs: Seq<(Seq<u8>, u16, nat)>, outs: Seq<Seq<u8>>) -> bool {
    &&& outs.len() == seqs.len() + 1
    &&& outs[0].len() == 0
    &&& forall|k: int|
        #![trigger seqs[k]]
        0 <= k < seqs.len() ==> 0 < seqs[k].1 <= outs[k].len() + seqs[k].0.len() && repeats(
            outs[k] + seqs[k].0,
            seqs[k].1 as int,
            seqs[k].2 + 4,
            outs[k + 1],
        )
}

proof fn lemma_written_grows(seqs: Seq<(Seq<u8>, u16, nat)>, outs: Seq<Seq<u8>>, k: int)
    requires
        written(seqs, outs),
        0 <= k <= seqs.len(),
    ensures
        outs[k].len() <= outs[seqs.len() as int].len(),
    decreases seqs.len() - k,
{
    if k < seqs.len() {
        let s = seqs[k];
        lemma_written_grows(seqs, outs, k + 1);
    }
}

proof fn lemma_block(
    head: Seq<u8>,
    seqs: Seq<(Seq<u8>, u16, nat)>,
    outs: Seq<Seq<u8>>,
    last: Seq<u8>,
    k: int,
)
    requires
        written(seqs, outs),
        last.len() > 0,
        0 <= k <= seqs.len(),
    ensures
        lz4::sequences(
            head + block_from(seqs, last, k),
            head.len() as int,
            outs[k],
            outs[seqs.len() as int].len() + last.len(),
        ) == Ok::<_, Lz4Error>(outs[seqs.len() as int] + last),
    decreases seqs.len() - k,
{
    let want = outs[seqs.len() as int].len() + last.len();
    if k >= seqs.len() {
        law_block_ends_in_literals(head, last, outs[k], want);
    } else {
        let s = seqs[k];
        let e = sequence(s.0, s.1, s.2);
        let rest = block_from(seqs, last, k + 1);
        lemma_written_grows(seqs, outs, k + 1);
        law_sequence_adds_literals_and_match(
            head,
            s.0,
            s.1,
            s.2,
            rest,
            outs[k],
            outs[k + 1],
            want,
        );
        assert(head + block_from(seqs, last, k) =~= head + e + rest);
        lemma_block(head + e, seqs, outs, last, k + 1);
        assert((head + e).len() == head.len() + e.len());
    }
}

/// Reading a block gives back what was written into it: of any number of sequences the
/// literals and the matches, one behind the other, and then the literals at its end.
pub proof fn law_block_reads_back(
    seqs: Seq<(Seq<u8>, u16, nat)>,
    outs: Seq<Seq<u8>>,
    last: Seq<u8>,
)
    requires
        written(seqs, outs),
        last.len() > 0,
    ensures
        ({
            let all = outs[seqs.len() as int] + last;
            lz4::decompressed(block_from(seqs, last, 0), all.len()) == Ok::<_, Lz4Error>(all)
        }),
{
    let all = outs[seqs.len() as int] + last;
    lemma_block(Seq::empty(), seqs, outs, last, 0);
    assert(Seq::<u8>::empty() + block_from(seqs, last, 0) =~= block_from(seqs, last, 0));
    assert(outs[0] =~= Seq::empty());
    assert(all.take(all.len() as int) =~= all);
}

} // verus!

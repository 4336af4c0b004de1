//! LZ4 block decompression — the raw block format, no frame — which is what an
//! EROFS physical cluster holds.

use crate::bytes::{append_bytes, u16_at};
use vstd::prelude::*;
use vstd::slice::slice_subrange;

verus! {

/// Why a block does not decompress.
#[derive(Debug, Clone, Copy, PartialEq, Eq, Structural)]
pub enum Lz4Error {
    /// A length runs past the end of the block.
    TruncatedLength,
    /// The literals of a sequence run past the end of the block.
    LiteralsPastEnd,
    /// The block ends inside a match offset.
    TruncatedOffset,
    /// A match reaches `off` bytes back into `len` bytes of output.
    BadOffset { off: usize, len: usize },
    /// The block holds only `got` bytes of the `expected`.
    Short { got: usize, expected: usize },
}

/// A length that a nibble of 15 continues: the bytes from `i` on are added until
/// one of them is not 255. Gives the length and where it ends.
pub open spec fn extended(src: Seq<u8>, i: int, len: int) -> Option<(int, int)>
    decreases src.len() - i,
{
    if i < 0 || i >= src.len() {
        None
    } else if src[i] == 255 {
        extended(src, i + 1, len + 255)
    } else {
        Some((len + src[i], i + 1))
    }
}

/// The length that starts from the nibble `nib`, with its continuation at `i`.
pub open spec fn length(src: Seq<u8>, i: int, nib: int) -> Option<(int, int)> {
    if nib == 15 {
        extended(src, i, 15)
    } else {
        Some((nib, i))
    }
}

/// `dst` continued by `n` bytes, each the one `off` places before it.
pub open spec fn repeat(dst: Seq<u8>, off: int, n: nat) -> Seq<u8>
    decreases n,
{
    if n == 0 {
        dst
    } else {
        repeat(dst.push(dst[dst.len() - off]), off, (n - 1) as nat)
    }
}

/// What remains of the block at `i` adds to the output `dst`, until the output
/// holds `want` bytes or the block ends. A match is copied no further than `want`.
pub open spec fn sequences(src: Seq<u8>, i: int, dst: Seq<u8>, want: nat) -> Result<
    Seq<u8>,
    Lz4Error,
>
    decreases src.len() - i,
{
    if i < 0 || i >= src.len() || dst.len() >= want {
        Ok(dst)
    } else {
        match length(src, i + 1, src[i] as int / 16) {
            None => Err(Lz4Error::TruncatedLength),
            Some((lit, j)) => if j + lit > src.len() {
                Err(Lz4Error::LiteralsPastEnd)
            } else {
                let k = j + lit;
                let lits = dst + src.subrange(j, k);
                if k >= src.len() || lits.len() >= want {
                    Ok(lits)
                } else if k + 2 > src.len() {
                    Err(Lz4Error::TruncatedOffset)
                } else {
                    let off = crate::bytes::le16(src, k);
                    if off == 0 || off > lits.len() {
                        Err(Lz4Error::BadOffset { off: off as usize, len: lits.len() as usize })
                    } else {
                        match length(src, k + 2, src[i] as int % 16) {
                            None => Err(Lz4Error::TruncatedLength),
                            Some((m, next)) => {
                                let room = want - lits.len();
                                let n = if m + 4 < room { m + 4 } else { room };
                                proof {
                                    lemma_extended_bounds(src, i + 1, 15);
                                    lemma_extended_bounds(src, k + 2, 15);
                                }
                                sequences(src, next, repeat(lits, off, n as nat), want)
                            },
                        }
                    }
                }
            },
        }
    }
}

/// The first `want` bytes that the block `src` decompresses to.
pub open spec fn decompressed(src: Seq<u8>, want: nat) -> Result<Seq<u8>, Lz4Error> {
    match sequences(src, 0, Seq::empty(), want) {
        Err(e) => Err(e),
        Ok(out) => if out.len() < want {
            Err(Lz4Error::Short { got: out.len() as usize, expected: want as usize })
        } else {
            Ok(out.take(want as int))
        },
    }
}

/// A continued length ends behind where it starts, and each byte adds at most 255.
pub proof fn lemma_extended_bounds(src: Seq<u8>, i: int, len: int)
    requires
        0 <= i,
    ensures
        match extended(src, i, len) {
            None => true,
            Some((l, j)) => i < j <= src.len() && len <= l <= len + 255 * (j - i),
        },
    decreases src.len() - i,
{
    if i < src.len() && src[i] == 255 {
        lemma_extended_bounds(src, i + 1, len + 255);
    }
}

proof fn lemma_repeat_len(dst: Seq<u8>, off: int, n: nat)
    ensures
        repeat(dst, off, n).len() == dst.len() + n,
    decreases n,
{
    if n > 0 {
        lemma_repeat_len(dst.push(dst[dst.len() - off]), off, (n - 1) as nat);
    }
}

/// A match that is copied further begins with what it is when it is cut.
proof fn lemma_repeat_cut(dst: Seq<u8>, off: int, n: nat, m: nat)
    requires
        m <= n,
    ensures
        repeat(dst, off, n).take((dst.len() + m) as int) == repeat(dst, off, m),
    decreases m,
{
    lemma_repeat_keeps(dst, off, n);
    if m > 0 {
        lemma_repeat_cut(dst.push(dst[dst.len() - off]), off, (n - 1) as nat, (m - 1) as nat);
    } else {
        assert(repeat(dst, off, n).take(dst.len() as int) =~= dst);
    }
}

proof fn lemma_repeat_keeps(dst: Seq<u8>, off: int, n: nat)
    ensures
        repeat(dst, off, n).len() == dst.len() + n,
        repeat(dst, off, n).take(dst.len() as int) =~= dst,
    decreases n,
{
    lemma_repeat_len(dst, off, n);
    if n > 0 {
        let next = dst.push(dst[dst.len() - off]);
        lemma_repeat_keeps(next, off, (n - 1) as nat);
        assert(repeat(dst, off, n).take(dst.len() as int) =~= repeat(dst, off, n).take(
            next.len() as int,
        ).take(dst.len() as int));
        assert(next.take(dst.len() as int) =~= dst);
    }
}

/// What is written stays.
proof fn lemma_sequences_keep(src: Seq<u8>, i: int, dst: Seq<u8>, want: nat)
    ensures
        match sequences(src, i, dst, want) {
            Ok(out) => out.len() >= dst.len() && out.take(dst.len() as int) == dst,
            Err(_) => true,
        },
    decreases src.len() - i,
{
    if i < 0 || i >= src.len() || dst.len() >= want {
        assert(dst.take(dst.len() as int) =~= dst);
    } else if let Some((lit, j)) = length(src, i + 1, src[i] as int / 16) {
        lemma_extended_bounds(src, i + 1, 15);
        let k = j + lit;
        if k <= src.len() {
            let lits = dst + src.subrange(j, k);
            assert(lits.take(dst.len() as int) =~= dst);
            if k + 2 <= src.len() && lits.len() < want {
                let off = crate::bytes::le16(src, k);
                if let Some((m, next)) = length(src, k + 2, src[i] as int % 16) {
                    lemma_extended_bounds(src, k + 2, 15);
                    let room = want - lits.len();
                    let n = if m + 4 < room {
                        m + 4
                    } else {
                        room
                    };
                    let more = repeat(lits, off, n as nat);
                    lemma_repeat_keeps(lits, off, n as nat);
                    lemma_sequences_keep(src, next, more, want);
                    if let Ok(out) = sequences(src, next, more, want) {
                        assert(out.take(dst.len() as int) =~= out.take(more.len() as int).take(
                            lits.len() as int,
                        ).take(dst.len() as int));
                    }
                }
            }
        }
    }
}

proof fn lemma_sequences_cut(src: Seq<u8>, i: int, dst: Seq<u8>, want: nat, less: nat)
    requires
        less <= want,
        match sequences(src, i, dst, want) {
            Ok(out) => out.len() >= want,
            Err(_) => false,
        },
    ensures
        match sequences(src, i, dst, less) {
            Ok(out) => out.len() >= less && out.take(less as int) == sequences(
                src,
                i,
                dst,
                want,
            )->Ok_0.take(less as int),
            Err(_) => false,
        },
    decreases src.len() - i,
{
    let all = sequences(src, i, dst, want)->Ok_0;
    lemma_sequences_keep(src, i, dst, want);
    if i < 0 || i >= src.len() || dst.len() >= want {
    } else if dst.len() >= less {
        assert(all.take(less as int) =~= all.take(dst.len() as int).take(less as int));
    } else {
        let (lit, j) = length(src, i + 1, src[i] as int / 16)->Some_0;
        lemma_extended_bounds(src, i + 1, 15);
        let k = j + lit;
        let lits = dst + src.subrange(j, k);
        if k >= src.len() || lits.len() >= want {
        } else {
            let off = crate::bytes::le16(src, k);
            let (m, next) = length(src, k + 2, src[i] as int % 16)->Some_0;
            lemma_extended_bounds(src, k + 2, 15);
            let room = want - lits.len();
            let n = if m + 4 < room {
                m + 4
            } else {
                room
            };
            let more = repeat(lits, off, n as nat);
            lemma_repeat_keeps(lits, off, n as nat);
            lemma_sequences_keep(src, next, more, want);
            if lits.len() >= less {
                assert(all.take(less as int) =~= all.take(more.len() as int).take(
                    lits.len() as int,
                ).take(less as int));
            } else {
                let near = less - lits.len();
                if m + 4 < near {
                    lemma_sequences_cut(src, next, more, want, less);
                } else {
                    let cut = repeat(lits, off, near as nat);
                    lemma_repeat_keeps(lits, off, near as nat);
                    lemma_repeat_cut(lits, off, n as nat, near as nat);
                    assert(more.take(less as int) == cut);
                    assert(all.take(less as int) =~= all.take(more.len() as int).take(less as int));
                    assert(cut.take(less as int) =~= cut);
                    assert(sequences(src, next, cut, less) == Ok::<Seq<u8>, Lz4Error>(cut));
                }
            }
        }
    }
}

/// The first bytes of a block do not depend on how many more are asked for.
pub proof fn law_fewer_bytes_are_a_prefix(src: Seq<u8>, want: nat, less: nat)
    requires
        less <= want,
        decompressed(src, want) is Ok,
    ensures
        decompressed(src, less) == Ok::<Seq<u8>, Lz4Error>(
            decompressed(src, want)->Ok_0.take(less as int),
        ),
{
    lemma_sequences_cut(src, 0, Seq::empty(), want, less);
    let all = sequences(src, 0, Seq::empty(), want)->Ok_0;
    assert(all.take(less as int) =~= all.take(want as int).take(less as int));
}

proof fn lemma_extended_tail(src: Seq<u8>, tail: Seq<u8>, i: int, len: int)
    requires
        0 <= i,
        extended(src, i, len) is Some,
    ensures
        extended(src + tail, i, len) == extended(src, i, len),
    decreases src.len() - i,
{
    assert((src + tail)[i] == src[i]);
    if src[i] == 255 {
        lemma_extended_tail(src, tail, i + 1, len + 255);
    }
}

proof fn lemma_sequences_tail(src: Seq<u8>, tail: Seq<u8>, i: int, dst: Seq<u8>, want: nat)
    requires
        0 <= i,
        match sequences(src, i, dst, want) {
            Ok(out) => out.len() >= want,
            Err(_) => false,
        },
    ensures
        match sequences(src + tail, i, dst, want) {
            Ok(out) => out == sequences(src, i, dst, want)->Ok_0,
            Err(_) => false,
        },
    decreases src.len() - i,
{
    let long = src + tail;
    if i < src.len() && dst.len() < want {
        assert(long[i] == src[i]);
        if src[i] as int / 16 == 15 {
            lemma_extended_tail(src, tail, i + 1, 15);
        }
        let (lit, j) = length(src, i + 1, src[i] as int / 16)->Some_0;
        lemma_extended_bounds(src, i + 1, 15);
        let k = j + lit;
        assert(long.subrange(j, k) =~= src.subrange(j, k));
        let lits = dst + src.subrange(j, k);
        if k < src.len() && lits.len() < want {
            assert(long[k] == src[k] && long[k + 1] == src[k + 1]);
            let off = crate::bytes::le16(src, k);
            if src[i] as int % 16 == 15 {
                lemma_extended_tail(src, tail, k + 2, 15);
            }
            let (m, next) = length(src, k + 2, src[i] as int % 16)->Some_0;
            lemma_extended_bounds(src, k + 2, 15);
            let room = want - lits.len();
            let n = if m + 4 < room {
                m + 4
            } else {
                room
            };
            lemma_sequences_tail(src, tail, next, repeat(lits, off, n as nat), want);
        }
    }
}

/// What stands behind a block does not matter: a physical cluster may end in padding.
pub proof fn law_padding_is_ignored(src: Seq<u8>, tail: Seq<u8>, want: nat)
    requires
        decompressed(src, want) is Ok,
    ensures
        decompressed(src + tail, want) == decompressed(src, want),
{
    lemma_sequences_tail(src, tail, 0, Seq::empty(), want);
}

/// Read the length that starts from `nib`, with its continuation at `i`.
fn read_length(src: &[u8], i: usize, nib: u8) -> (r: Option<(u128, usize)>)
    requires
        i <= src@.len(),
        nib <= 15,
    ensures
        match r {
            None => length(src@, i as int, nib as int) is None,
            Some((l, j)) => {
                &&& length(src@, i as int, nib as int) == Some((l as int, j as int))
                &&& i <= j <= src@.len()
                &&& l <= 15 + 255 * src@.len()
            },
        },
{
    if nib < 15 {
        return Some((nib as u128, i));
    }
    let mut len: u128 = 15;
    let mut j = i;
    while j < src.len()
        invariant
            nib == 15,
            i <= j <= src@.len(),
            len == 15 + 255 * (j - i),
            extended(src@, i as int, 15) == extended(src@, j as int, len as int),
        decreases src@.len() - j,
    {
        let b = src[j];
        j += 1;
        len += b as u128;
        if b != 255 {
            proof {
                lemma_extended_bounds(src@, i as int, 15);
            }
            return Some((len, j));
        }
    }
    None
}

/// Decompress one LZ4 block into exactly `out_len` bytes.
pub fn decompress(src: &[u8], out_len: usize) -> (r: Result<Vec<u8>, Lz4Error>)
    ensures
        match r {
            Ok(v) => decompressed(src@, out_len as nat) == Ok::<Seq<u8>, Lz4Error>(v@) && v@.len()
                == out_len,
            Err(e) => decompressed(src@, out_len as nat) == Err::<Seq<u8>, Lz4Error>(e),
        },
{
    let mut dst: Vec<u8> = Vec::new();
    let n = src.len();
    let mut i: usize = 0;
    while i < n && dst.len() < out_len
        invariant_except_break
            i <= n,
            n == src@.len(),
            sequences(src@, 0, Seq::empty(), out_len as nat) == sequences(
                src@,
                i as int,
                dst@,
                out_len as nat,
            ),
        ensures
            sequences(src@, 0, Seq::empty(), out_len as nat) == Ok::<Seq<u8>, Lz4Error>(dst@),
        decreases n - i,
    {
        let token = src[i];
        let (lit, j) = match read_length(src, i + 1, token / 16) {
            None => return Err(Lz4Error::TruncatedLength),
            Some(p) => p,
        };
        if j as u128 + lit > n as u128 {
            return Err(Lz4Error::LiteralsPastEnd);
        }
        let k = j + lit as usize;
        append_bytes(&mut dst, slice_subrange(src, j, k));
        if k >= n || dst.len() >= out_len {
            break;
        }
        if n - k < 2 {
            return Err(Lz4Error::TruncatedOffset);
        }
        let off = u16_at(src, k) as usize;
        if off == 0 || off > dst.len() {
            return Err(Lz4Error::BadOffset { off, len: dst.len() });
        }
        let (m, next) = match read_length(src, k + 2, token % 16) {
            None => return Err(Lz4Error::TruncatedLength),
            Some(p) => p,
        };
        let room = out_len - dst.len();
        let len = if m + 4 < room as u128 { (m + 4) as usize } else { room };
        // A match may overlap its own output, so it is copied byte by byte.
        let ghost lits = dst@;
        let mut c: usize = 0;
        while c < len
            invariant
                c <= len,
                0 < off <= dst@.len(),
                repeat(lits, off as int, len as nat) == repeat(dst@, off as int, (len - c) as nat),
            decreases len - c,
        {
            let b = dst[dst.len() - off];
            dst.push(b);
            c += 1;
        }
        i = next;
    }
    if dst.len() < out_len {
        return Err(Lz4Error::Short { got: dst.len(), expected: out_len });
    }
    dst.truncate(out_len);
    Ok(dst)
}

} // verus!

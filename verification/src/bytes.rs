//! Little-endian integers in a byte sequence.

use vstd::arithmetic::power2::*;
use vstd::prelude::*;

verus! {

/// The little-endian 16-bit value at `o`.
pub open spec fn le16(d: Seq<u8>, o: int) -> int {
    d[o] + 0x100 * d[o + 1]
}

/// The little-endian 32-bit value at `o`.
pub open spec fn le32(d: Seq<u8>, o: int) -> int {
    le16(d, o) + 0x1_0000 * le16(d, o + 2)
}

/// The little-endian 64-bit value at `o`.
pub open spec fn le64(d: Seq<u8>, o: int) -> int {
    le32(d, o) + 0x1_0000_0000 * le32(d, o + 4)
}

/// Bit `k` of `x` is set; `p` is two to the power `k`.
pub open spec fn has_bit(x: int, p: int) -> bool {
    (x / p) % 2 == 1
}

/// The 16-bit value at `o`.
pub fn u16_at(d: &[u8], o: usize) -> (r: u16)
    requires
        o + 2 <= d.len(),
    ensures
        r == le16(d@, o as int),
{
    d[o] as u16 + 0x100 * (d[o + 1] as u16)
}

/// The 32-bit value at `o`.
pub fn u32_at(d: &[u8], o: usize) -> (r: u32)
    requires
        o + 4 <= d.len(),
    ensures
        r == le32(d@, o as int),
{
    u16_at(d, o) as u32 + 0x1_0000 * (u16_at(d, o + 2) as u32)
}

/// The 64-bit value at `o`.
pub fn u64_at(d: &[u8], o: usize) -> (r: u64)
    requires
        o + 8 <= d.len(),
    ensures
        r == le64(d@, o as int),
{
    u32_at(d, o) as u64 + 0x1_0000_0000 * (u32_at(d, o + 4) as u64)
}

/// Two to the power `k`.
pub fn two_pow(k: u32) -> (r: u64)
    requires
        k < 64,
    ensures
        r == pow2(k as nat),
{
    let mut r: u64 = 1;
    let mut i: u32 = 0;
    proof {
        lemma2_to64();
    }
    while i < k
        invariant
            i <= k < 64,
            r == pow2(i as nat),
        decreases k - i,
    {
        proof {
            lemma_pow2_unfold((i + 1) as nat);
            lemma2_to64_rest();
            if i + 1 < 63 {
                lemma_pow2_strictly_increases((i + 1) as nat, 63);
            }
        }
        r = r * 2;
        i += 1;
    }
    r
}

/// A power of two is positive, and grows with its exponent.
pub proof fn lemma_two_pow(k: nat, top: nat)
    requires
        k <= top,
    ensures
        0 < pow2(k) <= pow2(top),
{
    lemma_pow2_pos(k);
    if k < top {
        lemma_pow2_strictly_increases(k, top);
    }
}

/// A byte is its own view.
pub proof fn lemma_deep(v: &Vec<u8>)
    ensures
        v.deep_view() == v@,
{
    assert(v.deep_view() =~= v@);
}

/// Append the bytes of `s` to `v`.
pub fn append_bytes(v: &mut Vec<u8>, s: &[u8])
    ensures
        final(v)@ == old(v)@ + s@,
{
    let n = s.len();
    let mut k: usize = 0;
    while k < n
        invariant
            k <= n,
            n == s@.len(),
            v@ == old(v)@ + s@.take(k as int),
        decreases n - k,
    {
        v.push(s[k]);
        proof {
            assert(s@.take(k as int).push(s@[k as int]) =~= s@.take(k + 1));
        }
        k += 1;
    }
    proof {
        assert(s@.take(n as int) =~= s@);
    }
}

} // verus!

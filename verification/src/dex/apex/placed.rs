//! Where in an EROFS image the bytes of a file stand.

use crate::dex::apex::erofs::{ErofsError, Head, Node, Volume};
use vstd::arithmetic::power2::*;
use vstd::prelude::*;

verus! {

/// Where the extent of the `k`th head ends: where the next one starts, or with the file.
pub open spec fn end_of(heads: Seq<Head>, k: int, size: int) -> int {
    if k + 1 < heads.len() {
        heads[k + 1].start
    } else {
        size
    }
}

/// The bytes of the extent of the `k`th head are what its cluster decodes to.
pub open spec fn extent_placed(v: Volume, heads: Seq<Head>, k: int, size: int, b: Seq<u8>) -> bool {
    let a = heads[k].start;
    let e = end_of(heads, k, size);
    &&& 0 <= a <= e <= b.len()
    &&& a < e ==> v.cluster(heads[k], e - a) == Ok::<_, ErofsError>(b.subrange(a, e))
}

proof fn lemma_cluster_len(v: Volume, h: Head, len: int)
    requires
        0 <= len,
    ensures
        v.cluster(h, len) matches Ok(x) ==> x.len() == len,
{
}

proof fn lemma_joined(v: Volume, heads: Seq<Head>, k: int, size: int, acc: Seq<u8>)
    requires
        0 <= k <= heads.len(),
    ensures
        v.joined(heads, k, size, acc) matches Ok(b) ==> {
            &&& b.len() == size
            &&& acc.len() <= size
            &&& b.take(acc.len() as int) == acc
            &&& k < heads.len() ==> heads[k].start == acc.len()
            &&& k >= heads.len() ==> acc.len() == size
            &&& forall|j: int| k <= j < heads.len() ==> #[trigger] extent_placed(v, heads, j, size, b)
        },
    decreases heads.len() - k,
{
    match v.joined(heads, k, size, acc) {
        Err(_) => {},
        Ok(b) => {
            if k >= heads.len() {
                assert(b.take(acc.len() as int) =~= acc);
            } else {
                let start = heads[k].start;
                let end = end_of(heads, k, size);
                if end == start {
                    lemma_joined(v, heads, k + 1, size, acc);
                    assert(extent_placed(v, heads, k, size, b));
                } else {
                    let x = v.cluster(heads[k], end - start)->Ok_0;
                    lemma_cluster_len(v, heads[k], end - start);
                    lemma_joined(v, heads, k + 1, size, acc + x);
                    assert(b.subrange(start, end) =~= x) by {
                        assert(b.take((acc + x).len() as int) == acc + x);
                        assert forall|j: int| 0 <= j < x.len() implies b[start + j] == x[j] by {
                            assert(b.take((acc + x).len() as int)[start + j] == (acc + x)[start + j]);
                        }
                    }
                    assert(b.take(acc.len() as int) =~= acc) by {
                        assert forall|j: int| 0 <= j < acc.len() implies b[j] == acc[j] by {
                            assert(b.take((acc + x).len() as int)[j] == (acc + x)[j]);
                        }
                    }
                    assert(extent_placed(v, heads, k, size, b));
                }
            }
        },
    }
}

/// Every byte of a compressed file comes from the cluster in whose extent it stands: the
/// extents follow one another from the first byte to the last, each is where its head says,
/// and its bytes are what its cluster decodes to.
pub proof fn law_clusters_stand_in_file_order(v: Volume, n: Node)
    requires
        n.layout == 1 || n.layout == 3,
    ensures
        v.contents(n) matches Ok(b) ==> (v.cluster_map(n) matches Ok(z) && (v.heads(
            n,
            z,
            0,
            Seq::empty(),
        ) matches Ok(hs) && {
            &&& b.len() == n.size
            &&& hs.len() > 0 ==> hs[0].start == 0
            &&& hs.len() == 0 ==> b.len() == 0
            &&& forall|k: int|
                #![trigger hs[k]]
                0 <= k < hs.len() ==> {
                    let e = if k + 1 < hs.len() {
                        hs[k + 1].start
                    } else {
                        n.size
                    };
                    &&& 0 <= hs[k].start <= e <= b.len()
                    &&& hs[k].start < e ==> v.cluster(hs[k], e - hs[k].start) == Ok::<_, ErofsError>(
                        b.subrange(hs[k].start, e),
                    )
                }
        })),
{
    match v.cluster_map(n) {
        Ok(z) => match v.heads(n, z, 0, Seq::empty()) {
            Ok(hs) => {
                lemma_joined(v, hs, 0, n.size, Seq::empty());
                match v.contents(n) {
                    Ok(b) => {
                        assert forall|k: int| #![trigger hs[k]] 0 <= k < hs.len() implies {
                            let e = if k + 1 < hs.len() {
                                hs[k + 1].start
                            } else {
                                n.size
                            };
                            &&& 0 <= hs[k].start <= e <= b.len()
                            &&& hs[k].start < e ==> v.cluster(hs[k], e - hs[k].start) == Ok::<
                                _,
                                ErofsError,
                            >(b.subrange(hs[k].start, e))
                        } by {
                            assert(extent_placed(v, hs, k, n.size, b));
                        }
                    },
                    Err(_) => {},
                }
            },
            Err(_) => {},
        },
        Err(_) => {},
    }
}

/// A plain cluster holds its extent as it is, from the start of its block on.
pub proof fn law_plain_clusters_are_stored_as_they_are(v: Volume, h: Head, len: int, j: int)
    requires
        0 <= h.pblk,
        h.ty == 0,
        0 <= j < len,
    ensures
        v.cluster(h, len) matches Ok(x) ==> {
            &&& x.len() == len
            &&& h.pblk * pow2(v.bits) + j < v.d.len()
            &&& x[j] == v.d[h.pblk * pow2(v.bits) + j]
        },
{
    lemma_pow2_pos(v.bits);
    assert(h.pblk * v.bs() >= 0) by (nonlinear_arith)
        requires
            h.pblk >= 0,
            v.bs() > 0,
    ;
}

proof fn lemma_run(v: Volume, base: int, b: int, full: int, acc: Seq<u8>, at: int)
    requires
        0 <= base,
        0 <= b <= full,
        acc.len() == b * v.bs(),
        0 <= at,
    ensures
        v.run(base, b, full, acc) matches Ok(r) ==> {
            &&& r.len() == full * v.bs()
            &&& at < acc.len() ==> r[at] == acc[at]
            &&& acc.len() <= at < r.len() ==> base * v.bs() + at < v.d.len() && r[at]
                == v.d[base * v.bs() + at]
        },
    decreases full - b,
{
    lemma_pow2_pos(v.bits);
    let bs = v.bs();
    if b < full {
        match v.block(base + b) {
            Ok(blk) => {
                assert((base + b) * bs == base * bs + b * bs) by (nonlinear_arith);
                assert((b + 1) * bs == b * bs + bs) by (nonlinear_arith);
                assert(base * bs >= 0) by (nonlinear_arith)
                    requires
                        base >= 0,
                        bs > 0,
                ;
                assert(b * bs >= 0) by (nonlinear_arith)
                    requires
                        b >= 0,
                        bs > 0,
                ;
                if blk.len() >= bs {
                    lemma_run(v, base, b + 1, full, acc + blk, at);
                    if acc.len() <= at < acc.len() + bs {
                        assert((acc + blk)[at] == blk[at - acc.len()]);
                    }
                }
            },
            Err(_) => {},
        }
    }
}

/// An uncompressed file stands in the image byte by byte: its whole blocks from its first
/// block on, and its tail either right behind them or, where the inode holds it, behind the
/// inode and its attributes.
pub proof fn law_flat_bytes_stand_in_the_image(v: Volume, n: Node, j: int)
    requires
        n.layout == 0 || n.layout == 2,
        0 <= n.raw_blkaddr,
        0 <= n.off,
        0 <= n.isize,
        0 <= n.xsize,
        0 <= j < n.size,
    ensures
        v.contents(n) matches Ok(b) ==> {
            let bs = pow2(v.bits) as int;
            let whole = n.size - n.size % bs;
            let at = if n.layout == 2 && j >= whole {
                n.off + n.isize + n.xsize + (j - whole)
            } else {
                n.raw_blkaddr * bs + j
            };
            &&& b.len() == n.size
            &&& 0 <= at < v.d.len()
            &&& b[j] == v.d[at]
        },
{
    let bs = v.bs();
    let full = n.size / bs;
    let tail = n.size % bs;
    lemma_pow2_pos(v.bits);
    vstd::arithmetic::div_mod::lemma_fundamental_div_mod(n.size, bs);
    vstd::arithmetic::div_mod::lemma_div_pos_is_pos(n.size, bs);
    vstd::arithmetic::div_mod::lemma_mod_bound(n.size, bs);
    vstd::arithmetic::mul::lemma_mul_is_commutative(full, bs);
    assert(0 * bs == 0);
    assert(n.raw_blkaddr * bs >= 0) by (nonlinear_arith)
        requires
            n.raw_blkaddr >= 0,
            bs > 0,
    ;
    assert((n.raw_blkaddr + full) * bs == n.raw_blkaddr * bs + full * bs) by (nonlinear_arith);
    lemma_run(v, n.raw_blkaddr, 0, full, Seq::empty(), j);
}

} // verus!

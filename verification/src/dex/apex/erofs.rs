//! Read-only EROFS: walk directories and read files, including LZ4-compressed
//! ones in both the legacy (8-byte per logical cluster) and the compact
//! (bit-packed, `COMPACTED_2B`) index layouts — what `mkfs.erofs` produces for
//! an APEX payload. Layouts and advise bits outside that (big pclusters, inline
//! or fragment pclusters, chunk-based files, non-LZ4 algorithms) are reported as
//! errors so the caller can fall back.

use crate::bytes;
use crate::bytes::{append_bytes, two_pow, u16_at, u32_at, u64_at};
use crate::dex::apex::lz4;
use crate::dex::apex::lz4::Lz4Error;
use crate::text;
use vstd::arithmetic::power2::*;
use vstd::prelude::*;
use vstd::slice::slice_subrange;

verus! {

/// Where the superblock stands.
pub const SB_OFF: usize = 1024;

/// The superblock's magic number.
pub const MAGIC: u32 = 0xE0F5_E1E2;

/// The file type of a regular file in a directory entry.
pub const FT_REG: u8 = 1;

/// Inode data layouts.
pub const LAYOUT_FLAT_PLAIN: u16 = 0;

pub const LAYOUT_COMPRESSED_FULL: u16 = 1;

pub const LAYOUT_FLAT_INLINE: u16 = 2;

pub const LAYOUT_COMPRESSED_COMPACT: u16 = 3;

/// Logical cluster types: stored as it is, or continuing the cluster before it. The
/// other two head a compressed cluster.
pub const T_PLAIN: u32 = 0;

pub const T_NONHEAD: u32 = 2;

/// Why an image cannot be read.
#[derive(Debug, Clone, Copy, PartialEq, Eq, Structural)]
pub enum ErofsError {
    /// No EROFS superblock.
    NotErofs,
    /// A block size outside 512 bytes to 64 KiB.
    BadBlockBits(u8),
    /// A structure reaches past the end of the image.
    PastEnd,
    /// The block starts past the end of the image.
    BlockPastEnd(u64),
    /// An inode data layout that is not read.
    UnsupportedLayout(u16),
    /// A physical-cluster layout that is not read.
    UnsupportedAdvise(u16),
    /// A compression algorithm other than LZ4.
    UnsupportedAlgorithm(u8),
    /// A physical cluster does not start where the one before it ends.
    Gap { start: u64, have: u64 },
    /// A logical extent that ends before it starts, or is too long to hold.
    BadExtent { start: u64, end: u64 },
    /// A plain cluster is shorter than its extent.
    PlainShort,
    /// A compressed cluster does not decompress.
    Lz4(Lz4Error),
    /// The clusters hold another number of bytes than the file.
    Decoded { got: u64, want: u64 },
    /// The inode is no directory.
    NotDirectory,
    /// A directory entry that leaves its block.
    CorruptDirent,
}

/// An image and what its superblock says of it.
pub struct Volume {
    pub d: Seq<u8>,
    pub bits: nat,
    pub meta: int,
    pub root: int,
    pub zero_padding: bool,
}

/// What an inode says of its file.
pub struct Node {
    pub off: int,
    pub layout: int,
    pub size: int,
    pub raw_blkaddr: int,
    pub isize: int,
    pub xsize: int,
    pub is_dir: bool,
}

/// A directory entry.
pub struct Dirent {
    pub name: Seq<char>,
    pub nid: int,
    pub ftype: u8,
}

/// The head of a physical cluster: where its data starts in the file, how it is
/// stored, and in which block.
pub struct Head {
    pub start: int,
    pub ty: int,
    pub pblk: int,
}

/// One logical cluster's index: its type, the offset in the cluster, and the block.
pub struct Index {
    pub ty: int,
    pub lo: int,
    pub pblk: int,
}

/// The image begins with an EROFS superblock.
pub open spec fn magic(d: Seq<u8>) -> bool {
    d.len() >= SB_OFF + 4 && bytes::le32(d, SB_OFF as int) == MAGIC
}

/// The volume that the superblock of `d` describes.
pub open spec fn volume(d: Seq<u8>) -> Result<Volume, ErofsError> {
    if !magic(d) || d.len() < SB_OFF + 128 {
        Err(ErofsError::NotErofs)
    } else if d[SB_OFF + 12] < 9 || d[SB_OFF + 12] > 16 {
        Err(ErofsError::BadBlockBits(d[SB_OFF + 12]))
    } else {
        Ok(
            Volume {
                d,
                bits: d[SB_OFF + 12] as nat,
                meta: bytes::le32(d, SB_OFF + 40),
                root: bytes::le16(d, SB_OFF + 14),
                zero_padding: bytes::le32(d, SB_OFF + 80) % 2 == 1,
            },
        )
    }
}

/// How many leading zero bytes `b` has.
pub open spec fn leading_zeros(b: Seq<u8>) -> nat
    decreases b.len(),
{
    if b.len() > 0 && b[0] == 0 {
        1 + leading_zeros(b.skip(1))
    } else {
        0
    }
}

/// `b` up to its first zero byte.
pub open spec fn until_zero(b: Seq<u8>) -> Seq<u8>
    decreases b.len(),
{
    if b.len() == 0 || b[0] == 0 {
        Seq::empty()
    } else {
        seq![b[0]] + until_zero(b.skip(1))
    }
}

/// The entries of a directory block from the `k`th on, behind `acc`.
pub open spec fn dirents(blk: Seq<u8>, k: int, count: int, acc: Seq<Dirent>) -> Result<
    Seq<Dirent>,
    ErofsError,
>
    decreases count - k,
{
    if k >= count {
        Ok(acc)
    } else if k * 12 + 11 > blk.len() || (k + 1 < count && k * 12 + 22 > blk.len()) {
        Err(ErofsError::CorruptDirent)
    } else {
        let from = bytes::le16(blk, k * 12 + 8);
        let to = if k + 1 < count {
            bytes::le16(blk, k * 12 + 20)
        } else {
            blk.len() as int
        };
        if from > to || to > blk.len() {
            Err(ErofsError::CorruptDirent)
        } else {
            let e = Dirent {
                name: text::utf8_lossy(until_zero(blk.subrange(from, to))),
                nid: bytes::le64(blk, k * 12),
                ftype: blk[k * 12 + 10],
            };
            dirents(blk, k + 1, count, acc.push(e))
        }
    }
}

/// The first entry of that name.
pub open spec fn named(es: Seq<Dirent>, name: Seq<char>) -> Option<Dirent>
    decreases es.len(),
{
    if es.len() == 0 {
        None
    } else if es[0].name == name {
        Some(es[0])
    } else {
        named(es.skip(1), name)
    }
}

impl Volume {
    /// The block size.
    pub open spec fn bs(self) -> int {
        pow2(self.bits) as int
    }

    /// The `len` bytes at `off`.
    pub open spec fn range(self, off: int, len: int) -> Result<Seq<u8>, ErofsError> {
        if off + len > self.d.len() {
            Err(ErofsError::PastEnd)
        } else {
            Ok(self.d.subrange(off, off + len))
        }
    }

    /// The block `addr`; the last one may be short.
    pub open spec fn block(self, addr: int) -> Result<Seq<u8>, ErofsError> {
        let off = addr * self.bs();
        if off >= self.d.len() {
            Err(ErofsError::BlockPastEnd(addr as u64))
        } else if off + self.bs() <= self.d.len() {
            Ok(self.d.subrange(off, off + self.bs()))
        } else {
            Ok(self.d.skip(off))
        }
    }

    /// The inode `nid`.
    pub open spec fn node(self, nid: int) -> Result<Node, ErofsError> {
        let off = self.meta * self.bs() + nid * 32;
        match self.range(off, 32) {
            Err(e) => Err(e),
            Ok(h) => {
                let format = bytes::le16(h, 0);
                let x = bytes::le16(h, 2);
                let extended = format % 2 == 1;
                match self.range(off, if extended { 64 } else { 32 }) {
                    Err(e) => Err(e),
                    Ok(r) => Ok(
                        Node {
                            off,
                            layout: (format / 2) % 8,
                            size: if extended { bytes::le64(r, 8) } else { bytes::le32(r, 8) },
                            raw_blkaddr: bytes::le32(r, 16),
                            isize: if extended { 64 } else { 32 },
                            xsize: if x == 0 { 0 } else { 12 + (x - 1) * 4 },
                            is_dir: bytes::le16(r, 4) / 0x1000 == 4,
                        },
                    ),
                }
            },
        }
    }

    /// The blocks from `base + b` up to `base + full`, behind `acc`; each of them whole.
    pub open spec fn run(self, base: int, b: int, full: int, acc: Seq<u8>) -> Result<
        Seq<u8>,
        ErofsError,
    >
        decreases full - b,
    {
        if b >= full {
            Ok(acc)
        } else {
            match self.block(base + b) {
                Err(e) => Err(e),
                Ok(blk) => if blk.len() < self.bs() {
                    Err(ErofsError::PastEnd)
                } else {
                    self.run(base, b + 1, full, acc + blk)
                },
            }
        }
    }

    /// An uncompressed file: its whole blocks, then its tail, which stands behind the
    /// inode or in a block of its own.
    pub open spec fn flat(self, n: Node) -> Result<Seq<u8>, ErofsError> {
        let full = n.size / self.bs();
        let tail = n.size % self.bs();
        match self.run(n.raw_blkaddr, 0, full, Seq::empty()) {
            Err(e) => Err(e),
            Ok(body) => if tail == 0 {
                Ok(body)
            } else if n.layout == LAYOUT_FLAT_INLINE {
                match self.range(n.off + n.isize + n.xsize, tail) {
                    Err(e) => Err(e),
                    Ok(t) => Ok(body + t),
                }
            } else {
                match self.block(n.raw_blkaddr + full) {
                    Err(e) => Err(e),
                    Ok(blk) => if blk.len() < tail {
                        Err(ErofsError::PastEnd)
                    } else {
                        Ok(body + blk.take(tail))
                    },
                }
            },
        }
    }

    /// Legacy index: type, cluster offset, then the block address of a head or the
    /// distance of a non-head.
    #[verifier::opaque]
    pub open spec fn legacy(self, ebase: int, lcn: int) -> Result<Index, ErofsError> {
        match self.range(ebase + lcn * 8, 8) {
            Err(e) => Err(e),
            Ok(r) => {
                let ty = bytes::le16(r, 0) % 4;
                if ty == T_NONHEAD {
                    Ok(Index { ty, lo: bytes::le16(r, 4), pblk: 0 })
                } else {
                    Ok(Index { ty, lo: bytes::le16(r, 2), pblk: bytes::le32(r, 4) })
                }
            },
        }
    }

    /// Compact index: entries are bit-packed into packs of two (four bytes each) or
    /// sixteen (two bytes each) with one block address per pack. The indexes begin
    /// with four-byte entries up to a 32-byte boundary, then two-byte packs, then
    /// four-byte entries for the remainder.
    #[verifier::opaque]
    pub open spec fn compact(
        self,
        ebase: int,
        total: int,
        lcn: int,
        lcbits: nat,
        two_byte: bool,
    ) -> Result<Index, ErofsError> {
        let initial = ((32 - ebase % 32) / 4) % 8;
        let packed = if two_byte && initial < total {
            (total - initial) / 16 * 16
        } else {
            0
        };
        let small = initial <= lcn < initial + packed;
        let pos = ebase + (if lcn < initial {
            lcn * 4
        } else if small {
            initial * 4 + (lcn - initial) * 2
        } else {
            initial * 4 + packed * 2 + (lcn - initial - packed) * 4
        });
        let size: int = if small { 32 } else { 8 };
        let within = if small { (pos % self.bs()) % 32 } else { (pos % self.bs()) % 8 };
        let i = if small { within / 2 } else { within / 4 };
        let width: int = if small { 14 } else { 16 };
        let lobits = if lcbits < 12 { 12 } else { lcbits };
        match self.range(pos - within, size) {
            Err(e) => Err(e),
            Ok(pack) => {
                let (lo, ty) = unpacked(pack, width, lobits, i);
                if ty == T_NONHEAD {
                    Ok(Index { ty, lo, pblk: 0 })
                } else {
                    Ok(
                        Index {
                            ty,
                            lo,
                            pblk: bytes::le32(pack, size - 4) + 1 + heads_before(
                                pack,
                                width,
                                lobits,
                                i,
                            ),
                        },
                    )
                }
            },
        }
    }

    /// The heads of the logical clusters from `lcn` on, behind `acc`.
    pub open spec fn heads(self, n: Node, z: ClusterMap, lcn: int, acc: Seq<Head>) -> Result<
        Seq<Head>,
        ErofsError,
    >
        decreases z.total - lcn,
    {
        if lcn >= z.total {
            Ok(acc)
        } else {
            let index = if n.layout == LAYOUT_COMPRESSED_FULL {
                self.legacy(z.ebase, lcn)
            } else {
                self.compact(z.ebase, z.total, lcn, z.lcbits, z.two_byte)
            };
            match index {
                Err(e) => Err(e),
                Ok(x) => self.heads(
                    n,
                    z,
                    lcn + 1,
                    if x.ty == T_NONHEAD {
                        acc
                    } else {
                        acc.push(
                            Head {
                                start: lcn * pow2(z.lcbits) + x.lo,
                                ty: x.ty,
                                pblk: x.pblk,
                            },
                        )
                    },
                ),
            }
        }
    }

    /// The data of one physical cluster: `len` bytes of the file.
    pub open spec fn cluster(self, h: Head, len: int) -> Result<Seq<u8>, ErofsError> {
        match self.block(h.pblk) {
            Err(e) => Err(e),
            Ok(blk) => if h.ty == T_PLAIN {
                if len > blk.len() {
                    Err(ErofsError::PlainShort)
                } else {
                    Ok(blk.take(len))
                }
            } else {
                let src = if self.zero_padding {
                    blk.skip(leading_zeros(blk) as int)
                } else {
                    blk
                };
                match lz4::decompressed(src, len as nat) {
                    Err(e) => Err(ErofsError::Lz4(e)),
                    Ok(v) => Ok(v),
                }
            },
        }
    }

    /// The clusters from the `k`th head on, behind `acc`.
    pub open spec fn joined(self, heads: Seq<Head>, k: int, size: int, acc: Seq<u8>) -> Result<
        Seq<u8>,
        ErofsError,
    >
        decreases heads.len() - k,
    {
        if k >= heads.len() {
            if acc.len() != size {
                Err(ErofsError::Decoded { got: acc.len() as u64, want: size as u64 })
            } else {
                Ok(acc)
            }
        } else {
            let start = heads[k].start;
            let end = if k + 1 < heads.len() { heads[k + 1].start } else { size };
            if start != acc.len() {
                Err(ErofsError::Gap { start: start as u64, have: acc.len() as u64 })
            } else if end < start || end - start > usize::MAX {
                Err(ErofsError::BadExtent { start: start as u64, end: end as u64 })
            } else if end == start {
                self.joined(heads, k + 1, size, acc)
            } else {
                match self.cluster(heads[k], end - start) {
                    Err(e) => Err(e),
                    Ok(v) => self.joined(heads, k + 1, size, acc + v),
                }
            }
        }
    }

    /// The cluster map of a compressed file, from the header behind its inode.
    pub open spec fn cluster_map(self, n: Node) -> Result<ClusterMap, ErofsError> {
        let mh = (n.off + n.isize + n.xsize + 7) / 8 * 8;
        match self.range(mh, 8) {
            Err(e) => Err(e),
            Ok(h) => {
                let advise = bytes::le16(h, 4);
                if (advise / 4) % 32 != 0 {
                    Err(ErofsError::UnsupportedAdvise(advise as u16))
                } else if h[6] != 0 {
                    Err(ErofsError::UnsupportedAlgorithm(h[6]))
                } else {
                    let lcbits = self.bits + (h[7] % 8) as nat;
                    Ok(
                        ClusterMap {
                            ebase: mh + 8,
                            lcbits,
                            total: (n.size + pow2(lcbits) - 1) / (pow2(lcbits) as int),
                            two_byte: advise % 2 == 1,
                        },
                    )
                }
            },
        }
    }

    /// A compressed file: every logical cluster's index names the physical clusters,
    /// each of which holds one extent of the file.
    pub open spec fn compressed(self, n: Node) -> Result<Seq<u8>, ErofsError> {
        match self.cluster_map(n) {
            Err(e) => Err(e),
            Ok(z) => match self.heads(n, z, 0, Seq::empty()) {
                Err(e) => Err(e),
                Ok(hs) => self.joined(hs, 0, n.size, Seq::empty()),
            },
        }
    }

    /// Whole contents of an inode.
    pub open spec fn contents(self, n: Node) -> Result<Seq<u8>, ErofsError> {
        if n.layout == LAYOUT_FLAT_PLAIN || n.layout == LAYOUT_FLAT_INLINE {
            self.flat(n)
        } else if n.layout == LAYOUT_COMPRESSED_FULL || n.layout == LAYOUT_COMPRESSED_COMPACT {
            self.compressed(n)
        } else {
            Err(ErofsError::UnsupportedLayout(n.layout as u16))
        }
    }

    /// The entries of the directory `data` from the block at `off` on, behind `acc`.
    /// A block too short for an entry ends the directory.
    pub open spec fn listed(self, data: Seq<u8>, off: int, acc: Seq<Dirent>) -> Result<
        Seq<Dirent>,
        ErofsError,
    >
        decreases (if off < data.len() { data.len() - off } else { 0 }),
    {
        if off >= data.len() {
            Ok(acc)
        } else {
            let blk = if off + self.bs() <= data.len() {
                data.subrange(off, off + self.bs())
            } else {
                data.skip(off)
            };
            if blk.len() < 12 {
                Ok(acc)
            } else {
                match dirents(blk, 0, bytes::le16(blk, 8) / 12, acc) {
                    Err(e) => Err(e),
                    Ok(es) => {
                        proof {
                            lemma_pow2_pos(self.bits);
                        }
                        self.listed(data, off + self.bs(), es)
                    },
                }
            }
        }
    }

    /// Entries of a directory inode.
    pub open spec fn dir(self, n: Node) -> Result<Seq<Dirent>, ErofsError> {
        if !n.is_dir {
            Err(ErofsError::NotDirectory)
        } else {
            match self.contents(n) {
                Err(e) => Err(e),
                Ok(data) => self.listed(data, 0, Seq::empty()),
            }
        }
    }

    /// The inode reached from `n` along the components from `k` on.
    pub open spec fn walk(self, nid: int, n: Node, path: Seq<Seq<char>>, k: int) -> Result<
        Option<(int, Node)>,
        ErofsError,
    >
        decreases path.len() - k,
    {
        if k >= path.len() {
            Ok(Some((nid, n)))
        } else {
            match self.dir(n) {
                Err(e) => Err(e),
                Ok(es) => match named(es, path[k]) {
                    None => Ok(None),
                    Some(e) => match self.node(e.nid) {
                        Err(e) => Err(e),
                        Ok(m) => self.walk(e.nid, m, path, k + 1),
                    },
                },
            }
        }
    }

    /// The inode at `path`, if the path exists.
    pub open spec fn at(self, path: Seq<char>) -> Result<Option<(int, Node)>, ErofsError> {
        match self.node(self.root) {
            Err(e) => Err(e),
            Ok(n) => self.walk(self.root, n, text::components(path), 0),
        }
    }

    /// Directory listing at `path`, or nothing if the path does not exist.
    pub open spec fn listing(self, path: Seq<char>) -> Result<Option<Seq<Dirent>>, ErofsError> {
        match self.at(path) {
            Err(e) => Err(e),
            Ok(None) => Ok(None),
            Ok(Some((_, n))) => match self.dir(n) {
                Err(e) => Err(e),
                Ok(es) => Ok(Some(es)),
            },
        }
    }

    /// Contents of the file with inode `nid`.
    pub open spec fn file(self, nid: int) -> Result<Seq<u8>, ErofsError> {
        match self.node(nid) {
            Err(e) => Err(e),
            Ok(n) => self.contents(n),
        }
    }
}

proof fn lemma_run_len(v: Volume, base: int, b: int, full: int, acc: Seq<u8>)
    requires
        0 <= base,
        0 <= b <= full,
    ensures
        v.run(base, b, full, acc) matches Ok(r) ==> r.len() == acc.len() + (full - b) * v.bs(),
    decreases full - b,
{
    if b < full {
        match v.block(base + b) {
            Ok(blk) => {
                lemma_pow2_pos(v.bits);
                assert((base + b) * v.bs() >= 0) by (nonlinear_arith)
                    requires
                        base + b >= 0,
                        v.bs() > 0,
                ;
                lemma_run_len(v, base, b + 1, full, acc + blk);
                assert((full - b) * v.bs() == v.bs() + (full - (b + 1)) * v.bs()) by (
                    nonlinear_arith);
            },
            Err(_) => {},
        }
    } else {
        assert((full - b) * v.bs() == 0) by (nonlinear_arith)
            requires
                full == b,
        ;
    }
}

proof fn lemma_joined_len(v: Volume, heads: Seq<Head>, k: int, size: int, acc: Seq<u8>)
    ensures
        v.joined(heads, k, size, acc) matches Ok(r) ==> r.len() == size,
    decreases heads.len() - k,
{
    if k < heads.len() {
        let start = heads[k].start;
        let end = if k + 1 < heads.len() { heads[k + 1].start } else { size };
        lemma_joined_len(v, heads, k + 1, size, acc);
        match v.cluster(heads[k], end - start) {
            Ok(x) => {
                lemma_joined_len(v, heads, k + 1, size, acc + x);
            },
            Err(_) => {},
        }
    }
}

/// What is read of a file is its whole contents: as many bytes as its inode says, or an
/// error.
pub proof fn law_contents_are_whole(v: Volume, nid: int)
    requires
        0 <= nid,
        0 <= v.meta,
    ensures
        v.file(nid) matches Ok(b) ==> (v.node(nid) matches Ok(n) && b.len() == n.size),
{
    match v.node(nid) {
        Ok(n) => {
            lemma_pow2_pos(v.bits);
            assert(v.meta * v.bs() >= 0) by (nonlinear_arith)
                requires
                    v.meta >= 0,
                    v.bs() > 0,
            ;
            lemma_contents_len(v, n);
        },
        Err(_) => {},
    }
}

proof fn lemma_contents_len(v: Volume, n: Node)
    requires
        0 <= n.size,
        0 <= n.off,
        0 <= n.isize,
        0 <= n.xsize,
        0 <= n.raw_blkaddr,
    ensures
        v.contents(n) matches Ok(b) ==> b.len() == n.size,
{
    let bs = v.bs();
    let full = n.size / bs;
    lemma_pow2_pos(v.bits);
    vstd::arithmetic::div_mod::lemma_fundamental_div_mod(n.size, bs);
    vstd::arithmetic::div_mod::lemma_div_pos_is_pos(n.size, bs);
    vstd::arithmetic::div_mod::lemma_mod_bound(n.size, bs);
    vstd::arithmetic::mul::lemma_mul_is_commutative(full, bs);
    lemma_run_len(v, n.raw_blkaddr, 0, full, Seq::empty());
    match v.cluster_map(n) {
        Ok(z) => match v.heads(n, z, 0, Seq::empty()) {
            Ok(hs) => {
                lemma_joined_len(v, hs, 0, n.size, Seq::empty());
            },
            Err(_) => {},
        },
        Err(_) => {},
    }
}

/// Where a compressed file's cluster indexes stand and how they are stored.
pub struct ClusterMap {
    pub ebase: int,
    pub lcbits: nat,
    pub total: int,
    pub two_byte: bool,
}

/// Entry `idx` of a pack of `width`-bit entries: the offset in its low bits, then the
/// cluster type.
pub open spec fn unpacked(pack: Seq<u8>, width: int, lobits: nat, idx: int) -> (int, int) {
    let p = width * idx;
    let v = bytes::le32(pack, p / 8) / (pow2((p % 8) as nat) as int);
    (v % (pow2(lobits) as int), (v / (pow2(lobits) as int)) % 4)
}

/// How many of the first `i` entries of a pack are heads.
pub open spec fn heads_before(pack: Seq<u8>, width: int, lobits: nat, i: int) -> int
    decreases i,
{
    if i <= 0 {
        0
    } else {
        heads_before(pack, width, lobits, i - 1) + (if unpacked(pack, width, lobits, i - 1).1
            != T_NONHEAD {
            1int
        } else {
            0
        })
    }
}

/// A mounted image.
pub struct Erofs<'a> {
    d: &'a [u8],
    blkszbits: u32,
    bs: u64,
    meta_blkaddr: u64,
    root_nid: u64,
    zero_padding: bool,
}

/// What an inode says of its file.
struct Inode {
    off: usize,
    layout: u16,
    size: u64,
    raw_blkaddr: u64,
    /// inode record size (32 compact / 64 extended) and the xattr area after it.
    isize: u64,
    xsize: u64,
    is_dir: bool,
}

/// An entry of a directory.
pub struct Entry {
    pub name: String,
    pub nid: u64,
    pub ftype: u8,
}

impl DeepView for Entry {
    type V = Dirent;

    open spec fn deep_view(&self) -> Dirent {
        Dirent { name: self.name@, nid: self.nid as int, ftype: self.ftype }
    }
}

impl DeepView for Inode {
    type V = Node;

    closed spec fn deep_view(&self) -> Node {
        Node {
            off: self.off as int,
            layout: self.layout as int,
            size: self.size as int,
            raw_blkaddr: self.raw_blkaddr as int,
            isize: self.isize as int,
            xsize: self.xsize as int,
            is_dir: self.is_dir,
        }
    }
}

impl Inode {
    /// The sizes that the format admits.
    spec fn wf(self) -> bool {
        &&& self.raw_blkaddr <= 0xffff_ffff
        &&& self.isize <= 64
        &&& self.xsize <= 0x4_0010
    }
}

impl<'a> View for Erofs<'a> {
    type V = Volume;

    closed spec fn view(&self) -> Volume {
        Volume {
            d: self.d@,
            bits: self.blkszbits as nat,
            meta: self.meta_blkaddr as int,
            root: self.root_nid as int,
            zero_padding: self.zero_padding,
        }
    }
}

/// The image begins with an EROFS superblock.
pub fn is_erofs(d: &[u8]) -> (r: bool)
    ensures
        r == magic(d@),
{
    d.len() >= SB_OFF + 4 && u32_at(d, SB_OFF) == MAGIC
}

impl<'a> Erofs<'a> {
    /// The block size belongs to the superblock's bits.
    pub closed spec fn wf(self) -> bool {
        &&& 9 <= self.blkszbits <= 16
        &&& self.bs == pow2(self.blkszbits as nat)
        &&& self.meta_blkaddr <= 0xffff_ffff
        &&& self.root_nid <= 0xffff
    }

    /// Read the superblock.
    pub fn parse(d: &'a [u8]) -> (r: Result<Erofs<'a>, ErofsError>)
        ensures
            match r {
                Ok(fs) => fs.wf() && volume(d@) == Ok::<Volume, ErofsError>(fs@),
                Err(e) => volume(d@) == Err::<Volume, ErofsError>(e),
            },
    {
        if !is_erofs(d) || d.len() < SB_OFF + 128 {
            return Err(ErofsError::NotErofs);
        }
        let bits: u8 = d[SB_OFF + 12];
        if bits < 9 || bits > 16 {
            return Err(ErofsError::BadBlockBits(bits));
        }
        let bs = two_pow(bits as u32);
        Ok(
            Erofs {
                d,
                blkszbits: bits as u32,
                bs,
                meta_blkaddr: u32_at(d, SB_OFF + 40) as u64,
                root_nid: u16_at(d, SB_OFF + 14) as u64,
                zero_padding: u32_at(d, SB_OFF + 80) % 2 == 1,
            },
        )
    }

    proof fn lemma_bs(&self)
        requires
            self.wf(),
        ensures
            self.bs == self@.bs(),
            512 <= self.bs <= 65536,
    {
        lemma2_to64();
        bytes::lemma_two_pow(9, self.blkszbits as nat);
        bytes::lemma_two_pow(self.blkszbits as nat, 16);
    }

    fn slice(&self, off: u128, len: u64) -> (r: Result<&'a [u8], ErofsError>)
        requires
            off <= 0xffff_ffff_ffff_ffff_ffff_ffff,
        ensures
            match r {
                Ok(s) => self@.range(off as int, len as int) == Ok::<Seq<u8>, ErofsError>(s@)
                    && s@.len() == len && off + len <= self@.d.len() <= usize::MAX,
                Err(e) => self@.range(off as int, len as int) == Err::<Seq<u8>, ErofsError>(e),
            },
    {
        if off + len as u128 > self.d.len() as u128 {
            return Err(ErofsError::PastEnd);
        }
        Ok(slice_subrange(self.d, off as usize, off as usize + len as usize))
    }

    fn block(&self, addr: u64) -> (r: Result<&'a [u8], ErofsError>)
        requires
            self.wf(),
        ensures
            match r {
                Ok(s) => self@.block(addr as int) == Ok::<Seq<u8>, ErofsError>(s@),
                Err(e) => self@.block(addr as int) == Err::<Seq<u8>, ErofsError>(e),
            },
    {
        proof {
            self.lemma_bs();
            assert(addr * self.bs <= 0xffff_ffff_ffff_ffff * 65536) by (nonlinear_arith)
                requires
                    addr <= 0xffff_ffff_ffff_ffff,
                    self.bs <= 65536,
            ;
            assert(0 <= addr * self.bs) by (nonlinear_arith);
        }
        let off: u128 = addr as u128 * self.bs as u128;
        let n = self.d.len();
        if off >= n as u128 {
            return Err(ErofsError::BlockPastEnd(addr));
        }
        let end = if off + self.bs as u128 <= n as u128 {
            off as usize + self.bs as usize
        } else {
            n
        };
        proof {
            assert(self.d@.subrange(off as int, n as int) =~= self.d@.skip(off as int));
        }
        Ok(slice_subrange(self.d, off as usize, end))
    }

    fn inode(&self, nid: u64) -> (r: Result<Inode, ErofsError>)
        requires
            self.wf(),
        ensures
            match r {
                Ok(n) => n.wf() && self@.node(nid as int) == Ok::<Node, ErofsError>(n.deep_view()),
                Err(e) => self@.node(nid as int) == Err::<Node, ErofsError>(e),
            },
    {
        proof {
            self.lemma_bs();
            assert(0 <= self.meta_blkaddr * self.bs <= 0xffff_ffff * 65536) by (nonlinear_arith)
                requires
                    self.meta_blkaddr <= 0xffff_ffff,
                    self.bs <= 65536,
            ;
        }
        let off: u128 = self.meta_blkaddr as u128 * self.bs as u128 + nid as u128 * 32;
        let h = match self.slice(off, 32) {
            Ok(h) => h,
            Err(e) => return Err(e),
        };
        let format = u16_at(h, 0);
        let x = u16_at(h, 2) as u64;
        let xsize: u64 = if x == 0 {
            0
        } else {
            12 + (x - 1) * 4
        };
        let layout = (format / 2) % 8;
        if format % 2 == 1 {
            let r = match self.slice(off, 64) {
                Ok(r) => r,
                Err(e) => return Err(e),
            };
            Ok(
                Inode {
                    off: off as usize,
                    layout,
                    size: u64_at(r, 8),
                    raw_blkaddr: u32_at(r, 16) as u64,
                    isize: 64,
                    xsize,
                    is_dir: u16_at(r, 4) / 0x1000 == 4,
                },
            )
        } else {
            Ok(
                Inode {
                    off: off as usize,
                    layout,
                    size: u32_at(h, 8) as u64,
                    raw_blkaddr: u32_at(h, 16) as u64,
                    isize: 32,
                    xsize,
                    is_dir: u16_at(h, 4) / 0x1000 == 4,
                },
            )
        }
    }

    fn read_flat(&self, ino: &Inode) -> (r: Result<Vec<u8>, ErofsError>)
        requires
            self.wf(),
            ino.wf(),
        ensures
            match r {
                Ok(v) => self@.flat(ino.deep_view()) == Ok::<Seq<u8>, ErofsError>(v@),
                Err(e) => self@.flat(ino.deep_view()) == Err::<Seq<u8>, ErofsError>(e),
            },
    {
        proof {
            self.lemma_bs();
        }
        let full = ino.size / self.bs;
        let tail = ino.size % self.bs;
        proof {
            assert(full <= ino.size / 512) by (nonlinear_arith)
                requires
                    full == ino.size / self.bs,
                    self.bs >= 512,
            ;
        }
        let mut out: Vec<u8> = Vec::new();
        let mut b: u64 = 0;
        while b < full
            invariant
                self.wf(),
                ino.wf(),
                b <= full,
                full <= 0xff_ffff_ffff_ffff,
                self@.run(ino.raw_blkaddr as int, 0, full as int, Seq::empty()) == self@.run(
                    ino.raw_blkaddr as int,
                    b as int,
                    full as int,
                    out@,
                ),
                self@.bs() == self.bs,
                full == ino.size / self.bs,
            decreases full - b,
        {
            match self.block(ino.raw_blkaddr + b) {
                Ok(blk) => {
                    if (blk.len() as u64) < self.bs {
                        return Err(ErofsError::PastEnd);
                    }
                    append_bytes(&mut out, blk);
                },
                Err(e) => return Err(e),
            }
            b += 1;
        }
        if tail > 0 {
            if ino.layout == LAYOUT_FLAT_INLINE {
                match self.slice(ino.off as u128 + ino.isize as u128 + ino.xsize as u128, tail) {
                    Ok(t) => append_bytes(&mut out, t),
                    Err(e) => return Err(e),
                }
            } else {
                match self.block(ino.raw_blkaddr + full) {
                    Ok(blk) => {
                        if (blk.len() as u64) < tail {
                            return Err(ErofsError::PastEnd);
                        }
                        proof {
                            assert(blk@.subrange(0, tail as int) =~= blk@.take(tail as int));
                        }
                        append_bytes(&mut out, slice_subrange(blk, 0, tail as usize));
                    },
                    Err(e) => return Err(e),
                }
            }
        }
        Ok(out)
    }

    fn legacy_index(&self, ebase: u64, lcn: u64) -> (r: Result<(u32, u32, u64), ErofsError>)
        requires
            lcn <= 0xff_ffff_ffff_ffff,
        ensures
            match r {
                Ok(x) => x.1 <= 0xffff && self@.legacy(ebase as int, lcn as int) == Ok::<
                    Index,
                    ErofsError,
                >(Index { ty: x.0 as int, lo: x.1 as int, pblk: x.2 as int }),
                Err(e) => self@.legacy(ebase as int, lcn as int) == Err::<Index, ErofsError>(e),
            },
    {
        proof {
            reveal(Volume::legacy);
        }
        let e = match self.slice(ebase as u128 + lcn as u128 * 8, 8) {
            Ok(e) => e,
            Err(e) => return Err(e),
        };
        let ty = (u16_at(e, 0) % 4) as u32;
        if ty == T_NONHEAD {
            Ok((ty, u16_at(e, 4) as u32, 0))
        } else {
            Ok((ty, u16_at(e, 2) as u32, u32_at(e, 4) as u64))
        }
    }

    #[verifier::rlimit(60)]
    #[verifier::spinoff_prover]
    fn compact_index(&self, ebase: u64, total: u64, lcn: u64, lcbits: u32, two_byte: bool) -> (r:
        Result<(u32, u32, u64), ErofsError>)
        requires
            self.wf(),
            ebase <= usize::MAX,
            lcn < total <= 0xff_ffff_ffff_ffff,
            lcbits <= 23,
        ensures
            match r {
                Ok(x) => x.1 < 0x80_0000 && self@.compact(
                    ebase as int,
                    total as int,
                    lcn as int,
                    lcbits as nat,
                    two_byte,
                ) == Ok::<Index, ErofsError>(
                    Index { ty: x.0 as int, lo: x.1 as int, pblk: x.2 as int },
                ),
                Err(e) => self@.compact(
                    ebase as int,
                    total as int,
                    lcn as int,
                    lcbits as nat,
                    two_byte,
                ) == Err::<Index, ErofsError>(e),
            },
    {
        proof {
            reveal(Volume::compact);
            self.lemma_bs();
        }
        let initial: u64 = ((32 - ebase % 32) / 4) % 8;
        let packed: u64 = if two_byte && initial < total {
            (total - initial) / 16 * 16
        } else {
            0
        };
        let small = initial <= lcn && lcn < initial + packed;
        let rel: u64 = if lcn < initial {
            lcn * 4
        } else if small {
            initial * 4 + (lcn - initial) * 2
        } else {
            initial * 4 + packed * 2 + (lcn - initial - packed) * 4
        };
        let pos: u128 = ebase as u128 + rel as u128;
        let size: u64 = if small {
            32
        } else {
            8
        };
        let eofs: u128 = pos % self.bs as u128;
        let within: u64 = if small {
            (eofs % 32) as u64
        } else {
            (eofs % 8) as u64
        };
        let i: u64 = if small {
            within / 2
        } else {
            within / 4
        };
        let width: u64 = if small {
            14
        } else {
            16
        };
        let lobits: u32 = if lcbits < 12 {
            12
        } else {
            lcbits
        };
        proof {
            let p = pos as int;
            let b = self.bs as int;
            assert(p % b <= p) by (nonlinear_arith)
                requires
                    p >= 0,
                    b > 0,
            ;
            assert((p % b) % 32 <= p % b);
            assert((p % b) % 8 <= p % b);
        }
        let pack = match self.slice(pos - within as u128, size) {
            Ok(p) => p,
            Err(e) => return Err(e),
        };
        let (lo, ty) = unpack(pack, width, lobits, i);
        if ty == T_NONHEAD {
            return Ok((ty, lo, 0));
        }
        // The pack's block address is that of the pcluster running into it; each
        // head before this one in the pack owns the next block.
        let mut before: u64 = 0;
        let mut j: u64 = 0;
        while j < i
            invariant
                j <= i <= 15,
                before <= j,
                width == 14 || (width == 16 && i <= 1),
                12 <= lobits <= 23,
                pack@.len() == (if width == 14 { 32int } else { 8int }),
                before == heads_before(pack@, width as int, lobits as nat, j as int),
            decreases i - j,
        {
            let (_, t) = unpack(pack, width, lobits, j);
            if t != T_NONHEAD {
                before += 1;
            }
            j += 1;
        }
        let base = u32_at(pack, size as usize - 4) as u64;
        Ok((ty, lo, base + 1 + before))
    }

    fn cluster_header(&self, ino: &Inode) -> (r: Result<(u64, u32, u64, bool), ErofsError>)
        requires
            self.wf(),
            ino.wf(),
        ensures
            match r {
                Ok(z) => z.1 <= 23 && z.2 <= 0xff_ffff_ffff_ffff && z.0 <= usize::MAX
                    && self@.cluster_map(ino.deep_view()) == Ok::<ClusterMap, ErofsError>(
                    ClusterMap {
                        ebase: z.0 as int,
                        lcbits: z.1 as nat,
                        total: z.2 as int,
                        two_byte: z.3,
                    },
                ),
                Err(e) => self@.cluster_map(ino.deep_view()) == Err::<ClusterMap, ErofsError>(e),
            },
    {
        let mh: u128 = (ino.off as u128 + ino.isize as u128 + ino.xsize as u128 + 7) / 8 * 8;
        let h = match self.slice(mh, 8) {
            Ok(h) => h,
            Err(e) => return Err(e),
        };
        let advise = u16_at(h, 4);
        if (advise / 4) % 32 != 0 {
            return Err(ErofsError::UnsupportedAdvise(advise));
        }
        if h[6] != 0 {
            return Err(ErofsError::UnsupportedAlgorithm(h[6]));
        }
        let lcbits = self.blkszbits + (h[7] % 8) as u32;
        let lcs = two_pow(lcbits);
        proof {
            lemma2_to64();
            bytes::lemma_two_pow(9, lcbits as nat);
            bytes::lemma_two_pow(lcbits as nat, 23);
        }
        let total: u128 = (ino.size as u128 + lcs as u128 - 1) / lcs as u128;
        proof {
            let top = ino.size as int + lcs as int - 1;
            let l = lcs as int;
            assert(top / l <= top / 512) by (nonlinear_arith)
                requires
                    l >= 512,
                    top >= 0,
            ;
        }
        Ok((mh as u64 + 8, lcbits, total as u64, advise % 2 == 1))
    }

    /// Decode every logical cluster's index, collect the pcluster heads, and
    /// decompress each pcluster into its logical extent.
    fn read_compressed(&self, ino: &Inode) -> (r: Result<Vec<u8>, ErofsError>)
        requires
            self.wf(),
            ino.wf(),
        ensures
            match r {
                Ok(v) => self@.compressed(ino.deep_view()) == Ok::<Seq<u8>, ErofsError>(v@),
                Err(e) => self@.compressed(ino.deep_view()) == Err::<Seq<u8>, ErofsError>(e),
            },
    {
        let (ebase, lcbits, total, two_byte) = match self.cluster_header(ino) {
            Ok(z) => z,
            Err(e) => return Err(e),
        };
        let ghost n = ino.deep_view();
        let ghost z = ClusterMap {
            ebase: ebase as int,
            lcbits: lcbits as nat,
            total: total as int,
            two_byte,
        };
        let lcs = two_pow(lcbits);
        proof {
            lemma2_to64();
            bytes::lemma_two_pow(lcbits as nat, 23);
        }
        let mut heads: Vec<Extent> = Vec::new();
        let mut lcn: u64 = 0;
        proof {
            assert(heads.deep_view() =~= Seq::empty());
        }
        while lcn < total
            invariant
                self.wf(),
                ino.wf(),
                n == ino.deep_view(),
                lcn <= total <= 0xff_ffff_ffff_ffff,
                lcbits <= 23,
                ebase <= usize::MAX,
                lcs == pow2(lcbits as nat),
                lcs <= 0x80_0000,
                z == (ClusterMap {
                    ebase: ebase as int,
                    lcbits: lcbits as nat,
                    total: total as int,
                    two_byte,
                }),
                self@.cluster_map(n) == Ok::<ClusterMap, ErofsError>(z),
                self@.heads(n, z, 0, Seq::empty()) == self@.heads(
                    n,
                    z,
                    lcn as int,
                    heads.deep_view(),
                ),
            decreases total - lcn,
        {
            let index = if ino.layout == LAYOUT_COMPRESSED_FULL {
                self.legacy_index(ebase, lcn)
            } else {
                self.compact_index(ebase, total, lcn, lcbits, two_byte)
            };
            let (ty, lo, pblk) = match index {
                Ok(x) => x,
                Err(e) => return Err(e),
            };
            if ty != T_NONHEAD {
                proof {
                    assert(0 <= lcn * lcs <= 0xff_ffff_ffff_ffff * 0x80_0000) by (nonlinear_arith)
                        requires
                            lcn <= 0xff_ffff_ffff_ffff,
                            lcs <= 0x80_0000,
                    ;
                }
                let ghost before = heads.deep_view();
                let x = Extent { start: lcn as u128 * lcs as u128 + lo as u128, ty, pblk };
                heads.push(x);
                proof {
                    assert(heads.deep_view() =~= before.push(x.deep_view()));
                }
            }
            lcn += 1;
        }
        self.join(&heads, ino.size)
    }

    /// Concatenate the clusters, each of which must start where the one before ended.
    fn join(&self, heads: &Vec<Extent>, size: u64) -> (r: Result<Vec<u8>, ErofsError>)
        requires
            self.wf(),
        ensures
            match r {
                Ok(v) => self@.joined(heads.deep_view(), 0, size as int, Seq::empty()) == Ok::<
                    Seq<u8>,
                    ErofsError,
                >(v@),
                Err(e) => self@.joined(heads.deep_view(), 0, size as int, Seq::empty()) == Err::<
                    Seq<u8>,
                    ErofsError,
                >(e),
            },
    {
        let ghost hs = heads.deep_view();
        let mut out: Vec<u8> = Vec::new();
        let mut k: usize = 0;
        while k < heads.len()
            invariant
                self.wf(),
                hs == heads.deep_view(),
                k <= heads@.len(),
                self@.joined(hs, 0, size as int, Seq::empty()) == self@.joined(
                    hs,
                    k as int,
                    size as int,
                    out@,
                ),
            decreases heads@.len() - k,
        {
            let start = heads[k].start;
            let end: u128 = if k + 1 < heads.len() {
                heads[k + 1].start
            } else {
                size as u128
            };
            proof {
                assert(hs[k as int] == heads@[k as int].deep_view());
                if k + 1 < heads@.len() {
                    assert(hs[k + 1] == heads@[k + 1].deep_view());
                }
            }
            if start != out.len() as u128 {
                return Err(ErofsError::Gap { start: start as u64, have: out.len() as u64 });
            }
            if end < start || end - start > usize::MAX as u128 {
                return Err(ErofsError::BadExtent { start: start as u64, end: end as u64 });
            }
            if end > start {
                match self.read_cluster(&heads[k], (end - start) as usize) {
                    Ok(v) => append_bytes(&mut out, &v),
                    Err(e) => return Err(e),
                }
            }
            k += 1;
        }
        if out.len() as u64 != size {
            return Err(ErofsError::Decoded { got: out.len() as u64, want: size });
        }
        Ok(out)
    }

    fn read_cluster(&self, h: &Extent, len: usize) -> (r: Result<Vec<u8>, ErofsError>)
        requires
            self.wf(),
        ensures
            match r {
                Ok(v) => self@.cluster(h.deep_view(), len as int) == Ok::<Seq<u8>, ErofsError>(v@),
                Err(e) => self@.cluster(h.deep_view(), len as int) == Err::<Seq<u8>, ErofsError>(e),
            },
    {
        let blk = match self.block(h.pblk) {
            Ok(b) => b,
            Err(e) => return Err(e),
        };
        if h.ty == T_PLAIN {
            if len > blk.len() {
                return Err(ErofsError::PlainShort);
            }
            let mut out: Vec<u8> = Vec::new();
            append_bytes(&mut out, slice_subrange(blk, 0, len));
            proof {
                assert(out@ =~= blk@.take(len as int));
            }
            return Ok(out);
        }
        let lead = if self.zero_padding {
            count_leading_zeros(blk)
        } else {
            0
        };
        let src = slice_subrange(blk, lead, blk.len());
        proof {
            assert(src@ =~= blk@.skip(lead as int));
            assert(blk@.skip(0) =~= blk@);
        }
        match lz4::decompress(src, len) {
            Ok(v) => Ok(v),
            Err(e) => Err(ErofsError::Lz4(e)),
        }
    }

    /// Whole contents of an inode.
    fn read(&self, ino: &Inode) -> (r: Result<Vec<u8>, ErofsError>)
        requires
            self.wf(),
            ino.wf(),
        ensures
            match r {
                Ok(v) => self@.contents(ino.deep_view()) == Ok::<Seq<u8>, ErofsError>(v@),
                Err(e) => self@.contents(ino.deep_view()) == Err::<Seq<u8>, ErofsError>(e),
            },
    {
        if ino.layout == LAYOUT_FLAT_PLAIN || ino.layout == LAYOUT_FLAT_INLINE {
            self.read_flat(ino)
        } else if ino.layout == LAYOUT_COMPRESSED_FULL || ino.layout == LAYOUT_COMPRESSED_COMPACT {
            self.read_compressed(ino)
        } else {
            Err(ErofsError::UnsupportedLayout(ino.layout))
        }
    }

    /// Entries of a directory inode.
    fn entries(&self, ino: &Inode) -> (r: Result<Vec<Entry>, ErofsError>)
        requires
            self.wf(),
            ino.wf(),
        ensures
            match r {
                Ok(v) => self@.dir(ino.deep_view()) == Ok::<Seq<Dirent>, ErofsError>(
                    v.deep_view(),
                ),
                Err(e) => self@.dir(ino.deep_view()) == Err::<Seq<Dirent>, ErofsError>(e),
            },
    {
        if !ino.is_dir {
            return Err(ErofsError::NotDirectory);
        }
        let data = match self.read(ino) {
            Ok(d) => d,
            Err(e) => return Err(e),
        };
        proof {
            self.lemma_bs();
        }
        let bs = self.bs;
        let mut out: Vec<Entry> = Vec::new();
        let mut off: usize = 0;
        proof {
            assert(out.deep_view() =~= Seq::empty());
        }
        while off < data.len()
            invariant
                self.wf(),
                bs == self@.bs(),
                512 <= bs <= 65536,
                self@.dir(ino.deep_view()) == self@.listed(data@, off as int, out.deep_view()),
            decreases data@.len() - off,
        {
            let end = if data.len() - off >= bs as usize {
                off + bs as usize
            } else {
                data.len()
            };
            let blk = slice_subrange(data.as_slice(), off, end);
            proof {
                assert(data@.subrange(off as int, data@.len() as int) =~= data@.skip(off as int));
            }
            if blk.len() < 12 {
                return Ok(out);
            }
            match block_entries(blk, out) {
                Ok(v) => {
                    out = v;
                },
                Err(e) => return Err(e),
            }
            if data.len() - off < bs as usize {
                proof {
                    assert(self@.listed(data@, off + bs, out.deep_view()) == Ok::<
                        Seq<Dirent>,
                        ErofsError,
                    >(out.deep_view()));
                }
                return Ok(out);
            }
            off = off + bs as usize;
        }
        Ok(out)
    }

    fn lookup(&self, path: &str) -> (r: Result<Option<(u64, Inode)>, ErofsError>)
        requires
            self.wf(),
        ensures
            match r {
                Ok(None) => self@.at(path@) == Ok::<Option<(int, Node)>, ErofsError>(None),
                Ok(Some(x)) => x.1.wf() && self@.at(path@) == Ok::<
                    Option<(int, Node)>,
                    ErofsError,
                >(Some((x.0 as int, x.1.deep_view()))),
                Err(e) => self@.at(path@) == Err::<Option<(int, Node)>, ErofsError>(e),
            },
    {
        let mut nid = self.root_nid;
        let mut ino = match self.inode(nid) {
            Ok(i) => i,
            Err(e) => return Err(e),
        };
        let comps = text::path_components(path);
        let ghost cs = comps.deep_view();
        let mut k: usize = 0;
        while k < comps.len()
            invariant
                self.wf(),
                ino.wf(),
                k <= comps@.len(),
                cs == comps.deep_view(),
                self@.at(path@) == self@.walk(nid as int, ino.deep_view(), cs, k as int),
            decreases comps@.len() - k,
        {
            proof {
                assert(cs[k as int] == comps@[k as int]@);
            }
            let es = match self.entries(&ino) {
                Ok(es) => es,
                Err(e) => return Err(e),
            };
            match find_entry(&es, comps[k].as_str()) {
                None => return Ok(None),
                Some(id) => {
                    nid = id;
                },
            }
            ino = match self.inode(nid) {
                Ok(i) => i,
                Err(e) => return Err(e),
            };
            k += 1;
        }
        Ok(Some((nid, ino)))
    }

    /// Directory listing at `path`, or `None` if the path does not exist.
    pub fn read_dir(&self, path: &str) -> (r: Result<Option<Vec<Entry>>, ErofsError>)
        requires
            self.wf(),
        ensures
            match r {
                Ok(o) => self@.listing(path@) == Ok::<Option<Seq<Dirent>>, ErofsError>(
                    o.deep_view(),
                ),
                Err(e) => self@.listing(path@) == Err::<Option<Seq<Dirent>>, ErofsError>(e),
            },
    {
        match self.lookup(path) {
            Err(e) => Err(e),
            Ok(None) => Ok(None),
            Ok(Some((_, ino))) => match self.entries(&ino) {
                Ok(es) => Ok(Some(es)),
                Err(e) => Err(e),
            },
        }
    }

    /// Contents of the regular file with inode `nid`.
    pub fn read_nid(&self, nid: u64) -> (r: Result<Vec<u8>, ErofsError>)
        requires
            self.wf(),
        ensures
            match r {
                Ok(v) => self@.file(nid as int) == Ok::<Seq<u8>, ErofsError>(v@),
                Err(e) => self@.file(nid as int) == Err::<Seq<u8>, ErofsError>(e),
            },
    {
        match self.inode(nid) {
            Ok(ino) => self.read(&ino),
            Err(e) => Err(e),
        }
    }
}

/// Where a physical cluster's data starts in the file, how it is stored, and its block.
struct Extent {
    start: u128,
    ty: u32,
    pblk: u64,
}

impl DeepView for Extent {
    type V = Head;

    closed spec fn deep_view(&self) -> Head {
        Head { start: self.start as int, ty: self.ty as int, pblk: self.pblk as int }
    }
}

fn unpack(pack: &[u8], width: u64, lobits: u32, idx: u64) -> (r: (u32, u32))
    requires
        width == 14 && idx <= 15 && pack@.len() == 32 || width == 16 && idx <= 1 && pack@.len()
            == 8,
        12 <= lobits <= 23,
    ensures
        (r.0 as int, r.1 as int) == unpacked(pack@, width as int, lobits as nat, idx as int),
        r.0 < 0x80_0000,
{
    proof {
        assert(width * idx <= 210) by (nonlinear_arith)
            requires
                width == 14 && idx <= 15 || width == 16 && idx <= 1,
        ;
        lemma2_to64();
        bytes::lemma_two_pow(lobits as nat, 23);
    }
    let p = width * idx;
    let shift = two_pow((p % 8) as u32);
    let low = two_pow(lobits);
    proof {
        lemma_pow2_pos((p % 8) as nat);
        lemma_pow2_pos(lobits as nat);
    }
    let v = u32_at(pack, (p / 8) as usize) as u64 / shift;
    proof {
        let m = low as int;
        assert(v as int % m < m) by (nonlinear_arith)
            requires
                m > 0,
        ;
    }
    ((v % low) as u32, ((v / low) % 4) as u32)
}

fn count_leading_zeros(b: &[u8]) -> (r: usize)
    ensures
        r == leading_zeros(b@),
        r <= b@.len(),
{
    let mut k: usize = 0;
    proof {
        assert(b@.skip(0) =~= b@);
    }
    while k < b.len() && b[k] == 0
        invariant
            k <= b@.len(),
            leading_zeros(b@) == k + leading_zeros(b@.skip(k as int)),
        decreases b@.len() - k,
    {
        proof {
            assert(b@.skip(k as int).skip(1) =~= b@.skip(k + 1));
        }
        k += 1;
    }
    k
}

fn name_of(b: &[u8]) -> (r: String)
    ensures
        r@ == text::utf8_lossy(until_zero(b@)),
{
    let mut k: usize = 0;
    proof {
        assert(b@.skip(0) =~= b@);
        assert(b@.take(0) + until_zero(b@) =~= until_zero(b@));
    }
    while k < b.len() && b[k] != 0
        invariant
            k <= b@.len(),
            until_zero(b@) == b@.take(k as int) + until_zero(b@.skip(k as int)),
        decreases b@.len() - k,
    {
        proof {
            let rest = b@.skip(k as int);
            assert(rest.skip(1) =~= b@.skip(k + 1));
            assert(b@.take(k as int) + (seq![rest[0]] + until_zero(rest.skip(1))) =~= b@.take(k + 1)
                + until_zero(b@.skip(k + 1)));
        }
        k += 1;
    }
    proof {
        assert(until_zero(b@.skip(k as int)) =~= Seq::empty());
        assert(until_zero(b@) =~= b@.subrange(0, k as int));
    }
    text::lossy_text(slice_subrange(b, 0, k))
}

fn block_entries(blk: &[u8], acc: Vec<Entry>) -> (r: Result<Vec<Entry>, ErofsError>)
    requires
        blk@.len() >= 12,
    ensures
        match r {
            Ok(v) => dirents(blk@, 0, bytes::le16(blk@, 8) / 12, acc.deep_view()) == Ok::<
                Seq<Dirent>,
                ErofsError,
            >(v.deep_view()),
            Err(e) => dirents(blk@, 0, bytes::le16(blk@, 8) / 12, acc.deep_view()) == Err::<
                Seq<Dirent>,
                ErofsError,
            >(e),
        },
{
    let ghost acc0 = acc.deep_view();
    let mut out = acc;
    let n = blk.len();
    let count: usize = (u16_at(blk, 8) / 12) as usize;
    let mut k: usize = 0;
    while k < count
        invariant
            k <= count <= 0xffff,
            n == blk@.len(),
            acc0 == acc.deep_view(),
            count == bytes::le16(blk@, 8) / 12,
            dirents(blk@, 0, count as int, acc0) == dirents(
                blk@,
                k as int,
                count as int,
                out.deep_view(),
            ),
        decreases count - k,
    {
        let at = k * 12;
        if n < 11 || at > n - 11 || (k + 1 < count && (n < 22 || at > n - 22)) {
            return Err(ErofsError::CorruptDirent);
        }
        let nid = u64_at(blk, at);
        let from = u16_at(blk, at + 8) as usize;
        let ftype = blk[at + 10];
        let to: usize = if k + 1 < count {
            u16_at(blk, at + 20) as usize
        } else {
            n
        };
        if from > to || to > n {
            return Err(ErofsError::CorruptDirent);
        }
        let name = name_of(slice_subrange(blk, from, to));
        let e = Entry { name, nid, ftype };
        let ghost before = out.deep_view();
        out.push(e);
        proof {
            assert(out.deep_view() =~= before.push(e.deep_view()));
        }
        k += 1;
    }
    Ok(out)
}

fn find_entry(es: &Vec<Entry>, name: &str) -> (r: Option<u64>)
    ensures
        match r {
            None => named(es.deep_view(), name@) is None,
            Some(nid) => named(es.deep_view(), name@) matches Some(e) && e.nid == nid,
        },
{
    let ghost all = es.deep_view();
    let mut k: usize = 0;
    proof {
        assert(all.skip(0) =~= all);
    }
    while k < es.len()
        invariant
            k <= es@.len(),
            all == es.deep_view(),
            named(all, name@) == named(all.skip(k as int), name@),
        decreases es@.len() - k,
    {
        proof {
            assert(all.skip(k as int)[0] == es@[k as int].deep_view());
            assert(all.skip(k as int).skip(1) =~= all.skip(k + 1));
        }
        if text::str_eq(es[k].name.as_str(), name) {
            return Some(es[k].nid);
        }
        k += 1;
    }
    None
}

} // verus!

//! What the headers of an image say, how its paths are walked, and where an EROFS file's
//! clusters are listed.

use crate::bytes;
use crate::dex::apex::erofs;
use crate::dex::apex::erofs::{Dirent, ErofsError, Head, Index, Node, Volume};
use crate::dex::apex::ext4;
use crate::dex::apex::ext4::Ext4Error;
use crate::text;
use vstd::arithmetic::power2::{lemma2_to64, lemma_pow2_pos, pow2};
use vstd::prelude::*;

verus! {

/// What the superblock of an EROFS image says, and when it is one.
pub proof fn law_erofs_superblocks_describe_the_volume(d: Seq<u8>)
    ensures
        d.len() >= 1152 && bytes::le32(d, 1024) == 0xE0F5_E1E2 && 9 <= d[1036] <= 16 ==> erofs::volume(d)
            == Ok::<Volume, ErofsError>(
            Volume {
                d,
                bits: d[1036] as nat,
                meta: bytes::le32(d, 1064),
                root: bytes::le16(d, 1038),
                zero_padding: bytes::le32(d, 1104) % 2 == 1,
            },
        ),
        d.len() < 1152 || bytes::le32(d, 1024) != 0xE0F5_E1E2 ==> erofs::volume(d) == Err::<
            Volume,
            ErofsError,
        >(ErofsError::NotErofs),
{
}

/// What the superblock of an ext4 image says, and when it is one.
pub proof fn law_ext4_superblocks_describe_the_volume(d: Seq<u8>)
    ensures
        d.len() >= 2048 && bytes::le16(d, 1080) == 0xEF53 && bytes::le32(d, 1048) <= 53 ==> {
            &&& ext4::volume(d) matches Ok(v)
            &&& v.d == d
            &&& v.bs == 1024 * pow2(bytes::le32(d, 1048) as nat)
            &&& v.inodes_per_group == bytes::le32(d, 1064)
            &&& v.inode_size == bytes::le16(d, 1112)
            &&& v.gdt_off == (bytes::le32(d, 1044) + 1) * v.bs
            &&& v.desc_size == if bytes::le32(d, 1120) / 128 % 2 == 1 && bytes::le16(d, 1278) > 32 {
                bytes::le16(d, 1278)
            } else {
                32
            }
        },
        d.len() < 2048 || bytes::le16(d, 1080) != 0xEF53 ==> ext4::volume(d) == Err::<
            ext4::Volume,
            Ext4Error,
        >(Ext4Error::NotExt4),
{
}

/// An EROFS inode stands at its number in units of 32 bytes, and says how its file is stored
/// and how long it is; a long one is twice as long and has a longer size.
pub proof fn law_erofs_inodes_stand_at_their_number(v: Volume, nid: int)
    requires
        v.meta >= 0,
        nid >= 0,
    ensures
        v.node(nid) matches Ok(n) ==> {
            let at = v.meta * pow2(v.bits) + 32 * nid;
            let long = bytes::le16(v.d, at) % 2 == 1;
            let x = bytes::le16(v.d, at + 2);
            &&& n.off == at
            &&& n.layout == bytes::le16(v.d, at) / 2 % 8
            &&& !long ==> n.size == bytes::le32(v.d, at + 8) && n.isize == 32
            &&& long ==> n.size == bytes::le32(v.d, at + 8) + 0x1_0000_0000 * bytes::le32(v.d, at + 12)
                && n.isize == 64
            &&& n.raw_blkaddr == bytes::le32(v.d, at + 16)
            &&& n.xsize == if x == 0 {
                0
            } else {
                8 + 4 * x
            }
            &&& n.is_dir <==> bytes::le16(v.d, at + 4) / 4096 == 4
        },
{
    lemma_pow2_pos(v.bits);
    assert(v.meta * v.bs() >= 0) by (nonlinear_arith)
        requires
            v.meta >= 0,
            v.bs() > 0,
    ;
    let off = v.meta * v.bs() + nid * 32;
    match v.range(off, 32) {
        Err(_) => {},
        Ok(h) => {
            assert(h[0] == v.d[off] && h[1] == v.d[off + 1] && h[2] == v.d[off + 2] && h[3] == v.d[off
                + 3]);
            let long = bytes::le16(h, 0) % 2 == 1;
            match v.range(off, if long { 64 } else { 32 }) {
                Err(_) => {},
                Ok(r) => {
                    assert(bytes::le32(r, 8) == bytes::le32(v.d, off + 8));
                    if long {
                        assert(bytes::le32(r, 12) == bytes::le32(v.d, off + 12));
                    }
                    assert(bytes::le32(r, 16) == bytes::le32(v.d, off + 16));
                    assert(bytes::le16(r, 4) == bytes::le16(v.d, off + 4));
                },
            }
        },
    }
}

/// An entry of a full index is eight bytes: its type, where in its cluster the data of a head
/// starts, and the block of a head.
pub proof fn law_full_indexes_are_read_entry_by_entry(v: Volume, ebase: int, lcn: int)
    requires
        ebase >= 0,
        lcn >= 0,
    ensures
        v.legacy(ebase, lcn) matches Ok(x) ==> {
            let at = ebase + 8 * lcn;
            &&& x.ty == bytes::le16(v.d, at) % 4
            &&& x.ty != 2 ==> x.lo == bytes::le16(v.d, at + 2) && x.pblk == bytes::le32(v.d, at + 4)
        },
{
    reveal(Volume::legacy);
    match v.range(ebase + lcn * 8, 8) {
        Err(_) => {},
        Ok(r) => {
            let at = ebase + 8 * lcn;
            assert(bytes::le16(r, 0) == bytes::le16(v.d, at));
            assert(bytes::le16(r, 2) == bytes::le16(v.d, at + 2));
            assert(bytes::le32(r, 4) == bytes::le32(v.d, at + 4));
        },
    }
}

/// An entry of a pack: twelve bits of offset and two of type; sixteen bits each in a pack of
/// two, fourteen in a pack of sixteen, without a gap, the low bits first.
pub proof fn law_packed_entries_are_bit_fields(pack: Seq<u8>, q: int)
    requires
        0 <= q,
    ensures
        erofs::unpacked(pack, 16, 12, q) == (
            bytes::le32(pack, 2 * q) % 4096,
            bytes::le32(pack, 2 * q) / 4096 % 4,
        ),
        erofs::unpacked(pack, 14, 12, 4 * q) == (
            bytes::le32(pack, 7 * q) % 4096,
            bytes::le32(pack, 7 * q) / 4096 % 4,
        ),
        erofs::unpacked(pack, 14, 12, 4 * q + 1) == (
            bytes::le32(pack, 7 * q + 1) / 64 % 4096,
            bytes::le32(pack, 7 * q + 1) / 64 / 4096 % 4,
        ),
        erofs::unpacked(pack, 14, 12, 4 * q + 2) == (
            bytes::le32(pack, 7 * q + 3) / 16 % 4096,
            bytes::le32(pack, 7 * q + 3) / 16 / 4096 % 4,
        ),
        erofs::unpacked(pack, 14, 12, 4 * q + 3) == (
            bytes::le32(pack, 7 * q + 5) / 4 % 4096,
            bytes::le32(pack, 7 * q + 5) / 4 / 4096 % 4,
        ),
{
    lemma2_to64();
    let a = bytes::le32(pack, 2 * q);
    let b = bytes::le32(pack, 7 * q);
    assert(a / (pow2(0) as int) == a && b / (pow2(0) as int) == b);
    assert(16 * q / 8 == 2 * q && 16 * q % 8 == 0);
    assert(14 * (4 * q) / 8 == 7 * q && 14 * (4 * q) % 8 == 0);
    assert(14 * (4 * q + 1) / 8 == 7 * q + 1 && 14 * (4 * q + 1) % 8 == 6);
    assert(14 * (4 * q + 2) / 8 == 7 * q + 3 && 14 * (4 * q + 2) % 8 == 4);
    assert(14 * (4 * q + 3) / 8 == 7 * q + 5 && 14 * (4 * q + 3) % 8 == 2);
}

/// Of the entries of a pack, each head has a block of its own, one behind that of the head
/// before it.
pub proof fn law_heads_of_a_pack_are_counted(pack: Seq<u8>, width: int, lobits: nat, i: int)
    requires
        0 <= i,
    ensures
        erofs::heads_before(pack, width, lobits, 0) == 0,
        erofs::unpacked(pack, width, lobits, i).1 == 2 ==> erofs::heads_before(
            pack,
            width,
            lobits,
            i + 1,
        ) == erofs::heads_before(pack, width, lobits, i),
        erofs::unpacked(pack, width, lobits, i).1 != 2 ==> erofs::heads_before(
            pack,
            width,
            lobits,
            i + 1,
        ) == erofs::heads_before(pack, width, lobits, i) + 1,
{
}

/// The index of a logical cluster.
pub open spec fn index_of(v: Volume, n: Node, z: erofs::ClusterMap, lcn: int) -> Result<
    Index,
    ErofsError,
> {
    if n.layout == 1 {
        v.legacy(z.ebase, lcn)
    } else {
        v.compact(z.ebase, z.total, lcn, z.lcbits, z.two_byte)
    }
}

/// The head is that of a logical cluster: it starts where its index says, counted from the
/// cluster's start.
pub open spec fn heads_at(v: Volume, n: Node, z: erofs::ClusterMap, lcn: int, h: Head) -> bool {
    index_of(v, n, z, lcn) matches Ok(x) && x.ty != 2 && h.ty == x.ty && h.pblk == x.pblk && h.start
        == lcn * pow2(z.lcbits) + x.lo
}

proof fn lemma_heads(v: Volume, n: Node, z: erofs::ClusterMap, lcn: int, acc: Seq<Head>, h: Head)
    requires
        0 <= lcn,
    ensures
        v.heads(n, z, lcn, acc) matches Ok(r) ==> (r.contains(h) <==> acc.contains(h) || exists|k: int|
            lcn <= k < z.total && #[trigger] heads_at(v, n, z, k, h)),
    decreases z.total - lcn,
{
    if lcn < z.total {
        match index_of(v, n, z, lcn) {
            Err(_) => {},
            Ok(x) => {
                let y = Head { start: lcn * pow2(z.lcbits) + x.lo, ty: x.ty, pblk: x.pblk };
                let next = if x.ty == 2 {
                    acc
                } else {
                    acc.push(y)
                };
                lemma_heads(v, n, z, lcn + 1, next, h);
                crate::dex::ctx::answers::lemma_pushed(acc, y, h);
                assert(heads_at(v, n, z, lcn, h) <==> x.ty != 2 && h == y);
            },
        }
    }
}

/// The clusters of a compressed file are exactly those of the heads among its logical
/// clusters.
pub proof fn law_clusters_are_those_of_the_heads(v: Volume, n: Node, z: erofs::ClusterMap, h: Head)
    ensures
        v.heads(n, z, 0, Seq::empty()) matches Ok(r) ==> (r.contains(h) <==> exists|k: int|
            0 <= k < z.total && #[trigger] heads_at(v, n, z, k, h)),
{
    lemma_heads(v, n, z, 0, Seq::empty(), h);
}

/// The index of a compressed file begins behind the header that follows its inode and its
/// attributes, and has an entry for each logical cluster that the file reaches into.
pub proof fn law_cluster_maps_cover_the_file(v: Volume, n: Node)
    requires
        n.off >= 0,
        n.isize >= 0,
        n.xsize >= 0,
        n.size >= 0,
    ensures
        v.cluster_map(n) matches Ok(z) ==> {
            let end = n.off + n.isize + n.xsize;
            let at = z.ebase - 8;
            &&& end <= at < end + 8 && at % 8 == 0
            &&& z.lcbits == v.bits + v.d[at + 7] % 8
            &&& z.two_byte <==> v.d[at + 4] % 2 == 1
            &&& v.d[at + 6] == 0
            &&& (z.total - 1) * pow2(z.lcbits) < n.size <= z.total * pow2(z.lcbits)
        },
{
    let mh = (n.off + n.isize + n.xsize + 7) / 8 * 8;
    match v.range(mh, 8) {
        Err(_) => {},
        Ok(h) => {
            assert(h[4] == v.d[mh + 4] && h[5] == v.d[mh + 5] && h[6] == v.d[mh + 6] && h[7] == v.d[mh
                + 7]);
            let bits = v.bits + (h[7] % 8) as nat;
            lemma_pow2_pos(bits);
            let p = pow2(bits) as int;
            let t = (n.size + p - 1) / p;
            vstd::arithmetic::div_mod::lemma_fundamental_div_mod(n.size + p - 1, p);
            vstd::arithmetic::div_mod::lemma_mod_bound(n.size + p - 1, p);
            assert(p * t == t * p) by (nonlinear_arith);
            assert((t - 1) * p == t * p - p) by (nonlinear_arith);
        },
    }
}

/// An entry of a directory block is twelve bytes: the inode, where its name starts, and its
/// type; the name ends where the next one starts, the last at a zero or the end of the block.
pub proof fn law_erofs_directory_entries(blk: Seq<u8>, k: int, count: int, acc: Seq<Dirent>)
    requires
        0 <= k < count,
        12 * count <= blk.len(),
    ensures
        ({
            let from = bytes::le16(blk, 12 * k + 8);
            let to = if k + 1 == count {
                blk.len() as int
            } else {
                bytes::le16(blk, 12 * (k + 1) + 8)
            };
            from <= to <= blk.len() ==> erofs::dirents(blk, k, count, acc) == erofs::dirents(
                blk,
                k + 1,
                count,
                acc.push(
                    Dirent {
                        name: text::utf8_lossy(erofs::until_zero(blk.subrange(from, to))),
                        nid: bytes::le32(blk, 12 * k) + 0x1_0000_0000 * bytes::le32(blk, 12 * k + 4),
                        ftype: blk[12 * k + 10],
                    },
                ),
            )
        }),
{
}

/// What stands before the first zero.
pub proof fn law_names_end_at_a_zero(name: Seq<u8>, rest: Seq<u8>)
    requires
        !name.contains(0),
    ensures
        erofs::until_zero(name) == name,
        erofs::until_zero(name + seq![0u8] + rest) == name,
    decreases name.len(),
{
    let s = name + seq![0u8] + rest;
    if name.len() == 0 {
        assert(s[0] == 0);
        assert(name =~= Seq::empty());
    } else {
        let t = name.skip(1);
        assert(name.contains(name[0]));
        assert(!t.contains(0)) by {
            if t.contains(0) {
                let i = choose|i: int| 0 <= i < t.len() && t[i] == 0;
                assert(name[i + 1] == 0);
            }
        }
        assert(s[0] == name[0]);
        assert(s.skip(1) =~= t + seq![0u8] + rest);
        law_names_end_at_a_zero(t, rest);
        assert(seq![name[0]] + t =~= name);
    }
}

/// An entry is found by its name: the first that has it.
pub proof fn law_erofs_entries_are_found_by_name(es: Seq<Dirent>, name: Seq<char>, i: int)
    requires
        0 <= i < es.len(),
        es[i].name == name,
        forall|j: int| 0 <= j < i ==> (#[trigger] es[j]).name != name,
    ensures
        erofs::named(es, name) == Some(es[i]),
    decreases es.len(),
{
    if i > 0 {
        assert(es[0].name != name);
        let t = es.skip(1);
        assert(t[i - 1] == es[i]);
        assert forall|j: int| 0 <= j < i - 1 implies (#[trigger] t[j]).name != name by {
            assert(es[j + 1].name != name);
        }
        law_erofs_entries_are_found_by_name(t, name, i - 1);
    }
}

proof fn lemma_erofs_walk(v: Volume, nid: int, n: Node, path: Seq<Seq<char>>, c: Seq<char>, k: int)
    requires
        0 <= k <= path.len(),
    ensures
        v.walk(nid, n, path.push(c), k) == match v.walk(nid, n, path, k) {
            Err(e) => Err(e),
            Ok(None) => Ok(None),
            Ok(Some((_, m))) => match v.dir(m) {
                Err(e) => Err(e),
                Ok(es) => match erofs::named(es, c) {
                    None => Ok(None),
                    Some(e) => match v.node(e.nid) {
                        Err(e) => Err(e),
                        Ok(x) => Ok(Some((e.nid, x))),
                    },
                },
            },
        },
    decreases path.len() - k,
{
    let more = path.push(c);
    assert(more[k] == if k < path.len() {
        path[k]
    } else {
        c
    });
    match v.dir(n) {
        Err(_) => {},
        Ok(es) => match erofs::named(es, more[k]) {
            None => {},
            Some(e) => match v.node(e.nid) {
                Err(_) => {},
                Ok(m) => {
                    if k < path.len() {
                        lemma_erofs_walk(v, e.nid, m, path, c, k + 1);
                    } else {
                        assert(v.walk(e.nid, m, more, k + 1) == Ok::<_, ErofsError>(Some((e.nid, m))));
                    }
                },
            },
        },
    }
}

proof fn lemma_ext4_walk(
    v: ext4::Volume,
    ino: int,
    n: ext4::Node,
    path: Seq<Seq<char>>,
    c: Seq<char>,
    k: int,
)
    requires
        0 <= k <= path.len(),
    ensures
        v.walk(ino, n, path.push(c), k) == match v.walk(ino, n, path, k) {
            Err(e) => Err(e),
            Ok(None) => Ok(None),
            Ok(Some((_, m))) => match v.dir(m) {
                Err(e) => Err(e),
                Ok(es) => match ext4::named(es, c) {
                    None => Ok(None),
                    Some(e) => match v.node(e.ino) {
                        Err(e) => Err(e),
                        Ok(x) => Ok(Some((e.ino, x))),
                    },
                },
            },
        },
    decreases path.len() - k,
{
    let more = path.push(c);
    assert(more[k] == if k < path.len() {
        path[k]
    } else {
        c
    });
    match v.dir(n) {
        Err(_) => {},
        Ok(es) => match ext4::named(es, more[k]) {
            None => {},
            Some(e) => match v.node(e.ino) {
                Err(_) => {},
                Ok(m) => {
                    if k < path.len() {
                        lemma_ext4_walk(v, e.ino, m, path, c, k + 1);
                    } else {
                        assert(v.walk(e.ino, m, more, k + 1) == Ok::<_, Ext4Error>(Some((e.ino, m))));
                    }
                },
            },
        },
    }
}

proof fn lemma_split(dir: Seq<char>, c: char, base: Seq<char>)
    requires
        !base.contains(c),
    ensures
        text::split(dir + seq![c] + base, c) == text::split(dir, c).push(base),
        text::split(base, c) == seq![base],
    decreases base.len(),
{
    let s = dir + seq![c] + base;
    if base.len() == 0 {
        assert(s.drop_last() =~= dir);
        assert(base =~= Seq::empty());
    } else {
        let b = base.drop_last();
        assert(base.contains(base.last()));
        assert(!b.contains(c)) by {
            if b.contains(c) {
                let i = choose|i: int| 0 <= i < b.len() && b[i] == c;
                assert(base[i] == c);
            }
        }
        lemma_split(dir, c, b);
        assert(s.drop_last() =~= dir + seq![c] + b);
        assert(b.push(base.last()) =~= base);
        let front = text::split(dir, c).push(b);
        assert(front.drop_last() =~= text::split(dir, c));
        assert(seq![b].drop_last() =~= Seq::empty());
        assert(Seq::<Seq<char>>::empty().push(base) =~= seq![base]);
    }
}

/// A path is its parts between the slashes, without the empty ones.
pub proof fn law_paths_are_split_at_slashes(dir: Seq<char>, base: Seq<char>)
    requires
        !base.contains('/'),
    ensures
        base.len() > 0 ==> text::components(dir + seq!['/'] + base) == text::components(dir).push(base),
        base.len() == 0 ==> text::components(dir + seq!['/'] + base) == text::components(dir),
        base.len() > 0 ==> text::components(base) == seq![base],
        text::components(Seq::empty()) == Seq::<Seq<char>>::empty(),
{
    reveal(Seq::filter);
    lemma_split(dir, '/', base);
    lemma_split(dir, '/', Seq::empty());
    let p = |c: Seq<char>| c.len() > 0;
    let front = text::split(dir, '/');
    assert(front.push(base).drop_last() =~= front);
    assert(seq![base].drop_last() =~= Seq::empty());
    let none = Seq::<char>::empty();
    assert(seq![none].drop_last() =~= Seq::empty());
    assert(Seq::<Seq<char>>::empty().filter(p) =~= Seq::empty());
    assert(Seq::<Seq<char>>::empty().push(base) =~= seq![base]);
}

/// A path is walked from the root, a directory a part: the inode at a longer path is that of
/// the entry of its last part in the directory at the rest, and there is none where there is no
/// such entry.
pub proof fn law_erofs_paths_are_walked_from_the_root(v: Volume, dir: Seq<char>, base: Seq<char>)
    requires
        !base.contains('/'),
        base.len() > 0,
    ensures
        v.at(Seq::empty()) == match v.node(v.root) {
            Err(e) => Err(e),
            Ok(n) => Ok(Some((v.root, n))),
        },
        v.at(dir + seq!['/'] + base) == match v.at(dir) {
            Err(e) => Err(e),
            Ok(None) => Ok(None),
            Ok(Some((_, m))) => match v.dir(m) {
                Err(e) => Err(e),
                Ok(es) => match erofs::named(es, base) {
                    None => Ok(None),
                    Some(e) => match v.node(e.nid) {
                        Err(e) => Err(e),
                        Ok(x) => Ok(Some((e.nid, x))),
                    },
                },
            },
        },
{
    law_paths_are_split_at_slashes(dir, base);
    if let Ok(n) = v.node(v.root) {
        lemma_erofs_walk(v, v.root, n, text::components(dir), base, 0);
    }
}

/// A path of an ext4 image is walked in the same way, from inode two.
pub proof fn law_ext4_paths_are_walked_from_the_root(v: ext4::Volume, dir: Seq<char>, base: Seq<char>)
    requires
        !base.contains('/'),
        base.len() > 0,
    ensures
        v.at(Seq::empty()) == match v.node(2) {
            Err(e) => Err(e),
            Ok(n) => Ok(Some((2int, n))),
        },
        v.at(dir + seq!['/'] + base) == match v.at(dir) {
            Err(e) => Err(e),
            Ok(None) => Ok(None),
            Ok(Some((_, m))) => match v.dir(m) {
                Err(e) => Err(e),
                Ok(es) => match ext4::named(es, base) {
                    None => Ok(None),
                    Some(e) => match v.node(e.ino) {
                        Err(e) => Err(e),
                        Ok(x) => Ok(Some((e.ino, x))),
                    },
                },
            },
        },
{
    law_paths_are_split_at_slashes(dir, base);
    if let Ok(n) = v.node(2) {
        lemma_ext4_walk(v, 2, n, text::components(dir), base, 0);
    }
}

} // verus!

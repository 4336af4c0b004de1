//! Where in an ext4 image the bytes of a file stand, and what its directories list.

use crate::bytes;
use crate::dex::apex::ext4;
use crate::dex::apex::ext4::{Dirent, Node, Volume};
use crate::text;
use vstd::prelude::*;

verus! {

/// The byte of a file, given where its blocks stand: of a hole zero, else of its block.
pub open spec fn byte_at(v: Volume, map: Seq<Option<int>>, j: int) -> u8 {
    match map[j / v.bs] {
        None => 0,
        Some(p) => v.d[p * v.bs + j % v.bs],
    }
}

proof fn lemma_gathered(v: Volume, map: Seq<Option<int>>, k: int, acc: Seq<u8>, j: int)
    requires
        v.bs > 0,
        0 <= k <= map.len(),
        acc.len() == k * v.bs,
        0 <= j,
        j < acc.len() ==> acc[j] == byte_at(v, map, j),
        forall|i: int| 0 <= i < map.len() ==> (#[trigger] map[i] matches Some(p) ==> p >= 0),
    ensures
        v.gathered(map, k, acc) matches Ok(r) ==> {
            &&& r.len() == map.len() * v.bs
            &&& j < r.len() ==> r[j] == byte_at(v, map, j)
        },
    decreases map.len() - k,
{
    let bs = v.bs;
    if k < map.len() {
        assert((k + 1) * bs == k * bs + bs) by (nonlinear_arith);
        let next = match map[k] {
            None => Ok(acc + Seq::new(bs as nat, |i: int| 0u8)),
            Some(p) => match v.block(p) {
                Err(e) => Err(e),
                Ok(b) => Ok(acc + b),
            },
        };
        if let Ok(more) = next {
            if acc.len() <= j < acc.len() + bs {
                assert(j / bs == k && j % bs == j - k * bs) by {
                    vstd::arithmetic::div_mod::lemma_fundamental_div_mod_converse(
                        j,
                        bs,
                        k,
                        j - k * bs,
                    );
                }
                match map[k] {
                    None => {},
                    Some(p) => {
                        assert(p * bs >= 0) by (nonlinear_arith)
                            requires
                                p >= 0,
                                bs > 0,
                        ;
                        assert(more[j] == v.d[p * bs + (j - k * bs)]);
                    },
                }
                assert(more[j] == byte_at(v, map, j));
            }
            match map[k] {
                None => {},
                Some(p) => {
                    assert(p * bs >= 0) by (nonlinear_arith)
                        requires
                            p >= 0,
                            bs > 0,
                    ;
                },
            }
            lemma_gathered(v, map, k + 1, more, j);
        }
    }
}

/// Every byte of a file is the byte of the block that the file's layout gives for it, at its
/// place in the block, and zero in a hole.
pub proof fn law_bytes_stand_in_their_blocks(v: Volume, n: Node, j: int)
    requires
        v.bs > 0,
        0 <= j < n.size,
        v.layout(n) matches Ok(map) && forall|i: int|
            0 <= i < map.len() ==> (#[trigger] map[i] matches Some(p) ==> p >= 0),
    ensures
        v.contents(n) matches Ok(b) ==> (v.layout(n) matches Ok(map) && (j < b.len() ==> b[j] == match map[j
            / v.bs] {
            None => 0,
            Some(p) => v.d[p * v.bs + j % v.bs],
        })),
{
    let map = v.layout(n)->Ok_0;
    assert(0 * v.bs == 0);
    lemma_gathered(v, map, 0, Seq::empty(), j);
}

/// Which blocks the `k`th extent of a leaf gives: where it starts in the file, how many they
/// are, and where they start in the image.
pub open spec fn extent(node: Seq<u8>, k: int) -> (int, int, int) {
    let e = 12 + 12 * k;
    (
        bytes::le32(node, e),
        bytes::le16(node, e + 4),
        bytes::le32(node, e + 8) + bytes::le16(node, e + 6) * 0x1_0000_0000,
    )
}

/// The extent gives the block.
pub open spec fn gives(node: Seq<u8>, k: int, i: int) -> bool {
    let (at, len, start) = extent(node, k);
    len <= 32768 && at <= i < at + len
}

proof fn lemma_slots(v: Volume, node: Seq<u8>, k: int, map: Seq<Option<int>>, depth: int, x: int, i: int)
    requires
        bytes::le16(node, 6) == 0,
        0 <= k,
        0 <= i < map.len(),
        0 <= x < bytes::le16(node, 2),
        gives(node, x, i),
        forall|y: int| x < y < bytes::le16(node, 2) ==> !gives(node, y, i),
        k > x ==> map[i] == Some(extent(node, x).2 + (i - extent(node, x).0)),
    ensures
        v.slots(node, k, map, depth) matches Ok(r) ==> r.len() == map.len() && r[i] == Some(
            extent(node, x).2 + (i - extent(node, x).0),
        ),
    decreases bytes::le16(node, 2) - k,
{
    if k < bytes::le16(node, 2) && 12 + k * 12 + 12 <= node.len() {
        let (at, len, start) = extent(node, k);
        let next = if len > 32768 {
            map
        } else {
            ext4::filled(map, at, len, start)
        };
        if k > x {
            assert(!gives(node, k, i));
        }
        lemma_slots(v, node, k + 1, next, depth, x, i);
    }
}

/// A leaf of an extent tree maps the blocks of each extent to the blocks that follow one
/// another from where the extent starts; the last extent that has a block counts.
pub proof fn law_extents_map_their_blocks(
    v: Volume,
    node: Seq<u8>,
    map: Seq<Option<int>>,
    depth: int,
    x: int,
    i: int,
)
    requires
        bytes::le16(node, 0) == 0xf30a,
        bytes::le16(node, 6) == 0,
        0 <= i < map.len(),
        0 <= x < bytes::le16(node, 2),
        gives(node, x, i),
        forall|y: int| x < y < bytes::le16(node, 2) ==> !gives(node, y, i),
    ensures
        v.tree(node, map, depth) matches Ok(r) ==> r.len() == map.len() && r[i] == Some(
            extent(node, x).2 + (i - extent(node, x).0),
        ),
{
    lemma_slots(v, node, 0, map, depth, x, i);
}

/// A block that no extent of a leaf gives keeps what it had: a hole stays one.
pub proof fn law_unmapped_blocks_stay_holes(
    v: Volume,
    node: Seq<u8>,
    map: Seq<Option<int>>,
    depth: int,
    i: int,
)
    requires
        bytes::le16(node, 6) == 0,
        0 <= i < map.len(),
        forall|y: int| 0 <= y < bytes::le16(node, 2) ==> !gives(node, y, i),
    ensures
        v.tree(node, map, depth) matches Ok(r) ==> r.len() == map.len() && r[i] == map[i],
{
    lemma_unmapped(v, node, 0, map, depth, i);
}

proof fn lemma_unmapped(v: Volume, node: Seq<u8>, k: int, map: Seq<Option<int>>, depth: int, i: int)
    requires
        bytes::le16(node, 6) == 0,
        0 <= k,
        0 <= i < map.len(),
        forall|y: int| 0 <= y < bytes::le16(node, 2) ==> !gives(node, y, i),
    ensures
        v.slots(node, k, map, depth) matches Ok(r) ==> r.len() == map.len() && r[i] == map[i],
    decreases bytes::le16(node, 2) - k,
{
    if k < bytes::le16(node, 2) && 12 + k * 12 + 12 <= node.len() {
        let (at, len, start) = extent(node, k);
        let next = if len > 32768 {
            map
        } else {
            ext4::filled(map, at, len, start)
        };
        assert(!gives(node, k, i));
        lemma_unmapped(v, node, k + 1, next, depth, i);
    }
}

/// The blocks of a doubly indirect map do not touch those before it.
proof fn lemma_doubly(v: Volume, qs: Seq<int>, k: int, at: int, map: Seq<Option<int>>, i: int)
    requires
        0 <= k,
        v.bs >= 4,
        0 <= i < map.len(),
        i < at,
    ensures
        v.doubly(qs, k, at, map) matches Ok(r) ==> r.len() == map.len() && r[i] == map[i],
    decreases qs.len() - k,
{
    if k < qs.len() {
        match v.pointers(qs[k]) {
            Ok(ps) => {
                lemma_doubly(v, qs, k + 1, at + v.bs / 4, ext4::pointed(map, at, ps), i);
            },
            Err(_) => {},
        }
    }
}

/// A classic map names the first twelve blocks of a file itself, and the next ones in its
/// indirect block, four bytes each; zero is a hole.
pub proof fn law_classic_maps_name_their_blocks(v: Volume, block: Seq<u8>, n: int, i: int)
    requires
        v.bs >= 4,
        0 <= i < n,
        i < 12 + v.bs / 4,
        bytes::le32(block, 48) != 0,
    ensures
        v.classic(block, n) matches Ok(map) ==> {
            let p = if i < 12 {
                bytes::le32(block, 4 * i)
            } else {
                bytes::le32(v.block(bytes::le32(block, 48))->Ok_0, 4 * (i - 12))
            };
            map.len() == n && map[i] == if p == 0 {
                None
            } else {
                Some(p)
            }
        },
{
    let holes = Seq::new(n as nat, |i: int| None::<int>);
    let first = ext4::pointed(holes, 0, Seq::new(12, |i: int| bytes::le32(block, i * 4)));
    match v.pointers(bytes::le32(block, 48)) {
        Ok(ps) => match v.pointers(bytes::le32(block, 52)) {
            Ok(qs) => {
                lemma_doubly(v, qs, 0, 12 + v.bs / 4, ext4::pointed(first, 12, ps), i);
            },
            Err(_) => {},
        },
        Err(_) => {},
    }
}

/// A directory record that is in use is listed with its name, its inode and its type; one that
/// is not is passed over; either way the next one stands as far on as the record is long.
pub proof fn law_directory_records_are_listed(data: Seq<u8>, off: int, acc: Seq<Dirent>)
    requires
        0 <= off,
        off + 8 <= data.len(),
        bytes::le16(data, off + 4) >= 8,
    ensures
        ({
            let len = data[off + 6] as int;
            let next = off + bytes::le16(data, off + 4);
            &&& bytes::le32(data, off) == 0 ==> ext4::dirents(data, off, acc) == ext4::dirents(
                data,
                next,
                acc,
            )
            &&& bytes::le32(data, off) != 0 && 8 + len <= bytes::le16(data, off + 4) && off + 8 + len
                <= data.len() ==> ext4::dirents(data, off, acc) == ext4::dirents(
                data,
                next,
                acc.push(
                    Dirent {
                        name: text::utf8_lossy(data.subrange(off + 8, off + 8 + len)),
                        ino: bytes::le32(data, off),
                        ftype: data[off + 7],
                    },
                ),
            )
        }),
{
}

/// An entry is found by its name: the first that has it.
pub proof fn law_entries_are_found_by_name(es: Seq<Dirent>, name: Seq<char>, i: int)
    requires
        0 <= i < es.len(),
        es[i].name == name,
        forall|j: int| 0 <= j < i ==> (#[trigger] es[j]).name != name,
    ensures
        ext4::named(es, name) == Some(es[i]),
    decreases es.len(),
{
    if i > 0 {
        assert(es[0].name != name);
        let t = es.skip(1);
        assert(t[i - 1] == es[i]);
        assert forall|j: int| 0 <= j < i - 1 implies (#[trigger] t[j]).name != name by {
            assert(es[j + 1].name != name);
        }
        law_entries_are_found_by_name(t, name, i - 1);
    }
}

/// What an inode says stands where ext4 has it: the mode first, the size in two halves, the
/// flags, and the sixty bytes of the layout; inodes are counted from one within their group.
pub proof fn law_inodes_are_found_in_their_group(v: Volume, ino: int)
    requires
        ino > 0,
        v.inodes_per_group > 0,
        v.desc_size == 32,
        v.gdt_off >= 0,
        v.inode_size >= 0,
        v.bs > 0,
    ensures
        v.node(ino) matches Ok(n) ==> {
            let g = (ino - 1) / v.inodes_per_group;
            let table = bytes::le32(v.d, v.gdt_off + g * 32 + 8);
            let at = table * v.bs + ((ino - 1) % v.inodes_per_group) * v.inode_size;
            &&& n.mode == bytes::le16(v.d, at)
            &&& n.size == bytes::le32(v.d, at + 4) + 0x1_0000_0000 * bytes::le32(v.d, at + 108)
            &&& n.flags == bytes::le32(v.d, at + 32)
            &&& n.block == v.d.subrange(at + 40, at + 100)
        },
{
    let g = (ino - 1) / v.inodes_per_group;
    let x = (ino - 1) % v.inodes_per_group;
    vstd::arithmetic::div_mod::lemma_div_pos_is_pos(ino - 1, v.inodes_per_group);
    vstd::arithmetic::div_mod::lemma_mod_bound(ino - 1, v.inodes_per_group);
    assert(g * 32 >= 0);
    match v.node(ino) {
        Ok(n) => {
            let gd = v.d.subrange(v.gdt_off + g * 32, v.gdt_off + g * 32 + 32);
            let table = bytes::le32(gd, 8);
            assert(table == bytes::le32(v.d, v.gdt_off + g * 32 + 8));
            assert(table * v.bs >= 0) by (nonlinear_arith)
                requires
                    table >= 0,
                    v.bs > 0,
            ;
            assert(x * v.inode_size >= 0) by (nonlinear_arith)
                requires
                    x >= 0,
                    v.inode_size >= 0,
            ;
            let at = table * v.bs + x * v.inode_size;
            let r = v.d.subrange(at, at + 128);
            assert(r.subrange(40, 100) =~= v.d.subrange(at + 40, at + 100));
        },
        Err(_) => {},
    }
}

} // verus!

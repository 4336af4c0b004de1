//! Read-only ext4: walk directories and read files, with extent trees, the
//! classic block map, 64-bit group descriptors, and inline directory data. An
//! APEX payload built with `mke2fs` uses extents throughout.

use crate::bytes;
use crate::bytes::{append_bytes, two_pow, u16_at, u32_at};
use crate::text;
use vstd::arithmetic::power2::*;
use vstd::prelude::*;
use vstd::slice::slice_subrange;

verus! {

/// Where the superblock stands.
pub const SB_OFF: usize = 1024;

/// The superblock's magic number.
pub const MAGIC: u16 = 0xEF53;

/// The header of an extent-tree node begins with this.
pub const EXTENT_MAGIC: u16 = 0xF30A;

/// The root directory.
pub const ROOT_INO: u32 = 2;

/// The file type of a regular file in a directory entry.
pub const FT_REG: u8 = 1;

/// Why an image cannot be read.
#[derive(Debug, Clone, Copy, PartialEq, Eq, Structural)]
pub enum Ext4Error {
    /// No ext4 superblock.
    NotExt4,
    /// A block size past 2^63 bytes.
    BadBlockSize(u32),
    /// A group without inodes.
    EmptyGroups,
    /// A structure reaches past the end of the image.
    PastEnd,
    /// Inode number zero.
    InodeZero,
    /// A file too large to hold.
    TooLarge(u64),
    /// The block map goes three levels deep.
    TripleIndirect,
    /// An extent tree of more than eight levels.
    TooDeep,
    /// An extent-tree node without its magic number.
    BadExtentHeader,
    /// An extent-tree node with more entries than it can hold.
    ExtentPastNode,
    /// A regular file whose data stands in the inode.
    InlineFile,
    /// The inode is no directory.
    NotDirectory,
}

/// An image and what its superblock says of it.
pub struct Volume {
    pub d: Seq<u8>,
    pub bs: int,
    pub inodes_per_group: int,
    pub inode_size: int,
    pub desc_size: int,
    pub gdt_off: int,
}

/// What an inode says of its file; `block` is an extent tree root, a block map, or
/// inline data.
pub struct Node {
    pub mode: int,
    pub size: int,
    pub flags: int,
    pub block: Seq<u8>,
}

/// A directory entry.
pub struct Dirent {
    pub name: Seq<char>,
    pub ino: int,
    pub ftype: u8,
}

impl Node {
    pub open spec fn has_extents(self) -> bool {
        bytes::has_bit(self.flags, 0x8_0000)
    }

    pub open spec fn is_inline(self) -> bool {
        bytes::has_bit(self.flags, 0x1000_0000)
    }

    pub open spec fn is_dir(self) -> bool {
        self.mode / 0x1000 == 4
    }
}

/// The image begins with an ext4 superblock.
pub open spec fn magic(d: Seq<u8>) -> bool {
    d.len() >= SB_OFF + 58 && bytes::le16(d, SB_OFF + 56) == MAGIC
}

/// The volume that the superblock of `d` describes.
pub open spec fn volume(d: Seq<u8>) -> Result<Volume, Ext4Error> {
    if !magic(d) || d.len() < SB_OFF + 1024 {
        Err(Ext4Error::NotExt4)
    } else {
        let log = bytes::le32(d, SB_OFF + 24);
        if log > 53 {
            Err(Ext4Error::BadBlockSize(log as u32))
        } else {
            let bs = 1024 * pow2(log as nat) as int;
            let wide = bytes::has_bit(bytes::le32(d, SB_OFF + 96), 0x80);
            let size = bytes::le16(d, SB_OFF + 254);
            Ok(
                Volume {
                    d,
                    bs,
                    inodes_per_group: bytes::le32(d, SB_OFF + 40),
                    inode_size: bytes::le16(d, SB_OFF + 88),
                    desc_size: if wide && size > 32 { size } else { 32 },
                    gdt_off: (bytes::le32(d, SB_OFF + 20) + 1) * bs,
                },
            )
        }
    }
}

/// `map` with the blocks `at..at + len` at `start` and on.
pub open spec fn filled(map: Seq<Option<int>>, at: int, len: int, start: int) -> Seq<Option<int>> {
    Seq::new(map.len(), |i: int| if at <= i < at + len { Some(start + (i - at)) } else { map[i] })
}

/// `map` with the block pointers `ps` from `at` on; a zero pointer is a hole.
pub open spec fn pointed(map: Seq<Option<int>>, at: int, ps: Seq<int>) -> Seq<Option<int>> {
    Seq::new(
        map.len(),
        |i: int| if at <= i < at + ps.len() && ps[i - at] != 0 { Some(ps[i - at]) } else { map[i] },
    )
}

/// A directory's entries from `off` on, behind `acc`.
pub open spec fn dirents(data: Seq<u8>, off: int, acc: Seq<Dirent>) -> Seq<Dirent>
    decreases (if off + 8 <= data.len() { data.len() - off } else { 0 }),
{
    if off + 8 > data.len() {
        acc
    } else {
        let inode = bytes::le32(data, off);
        let rec_len = bytes::le16(data, off + 4);
        let name_len = data[off + 6] as int;
        if rec_len < 8 {
            acc
        } else {
            dirents(
                data,
                off + rec_len,
                if inode != 0 && 8 + name_len <= rec_len && off + 8 + name_len <= data.len() {
                    acc.push(
                        Dirent {
                            name: text::utf8_lossy(data.subrange(off + 8, off + 8 + name_len)),
                            ino: inode,
                            ftype: data[off + 7],
                        },
                    )
                } else {
                    acc
                },
            )
        }
    }
}

/// The first entry of that name.
pub open spec fn named(es: Seq<Dirent>, name: Seq<char>) -> Option<Dirent>
    decreases es.len(),
{
    if es.len() == 0 {
        None
    } else if es[0].name == name {
        Some(es[0])
    } else {
        named(es.skip(1), name)
    }
}

impl Volume {
    /// The `len` bytes at `off`.
    pub open spec fn range(self, off: int, len: int) -> Result<Seq<u8>, Ext4Error> {
        if off + len > self.d.len() {
            Err(Ext4Error::PastEnd)
        } else {
            Ok(self.d.subrange(off, off + len))
        }
    }

    /// The block `n`.
    pub open spec fn block(self, n: int) -> Result<Seq<u8>, Ext4Error> {
        self.range(n * self.bs, self.bs)
    }

    /// The inode `ino`: its group's descriptor gives the inode table.
    pub open spec fn node(self, ino: int) -> Result<Node, Ext4Error> {
        if ino == 0 {
            Err(Ext4Error::InodeZero)
        } else if self.inodes_per_group == 0 {
            Err(Ext4Error::EmptyGroups)
        } else {
            let group = (ino - 1) / self.inodes_per_group;
            let index = (ino - 1) % self.inodes_per_group;
            match self.range(self.gdt_off + group * self.desc_size, self.desc_size) {
                Err(e) => Err(e),
                Ok(gd) => {
                    let table = bytes::le32(gd, 8) + (if self.desc_size >= 64 {
                        bytes::le32(gd, 40) * 0x1_0000_0000
                    } else {
                        0
                    });
                    match self.range(table * self.bs + index * self.inode_size, 128) {
                        Err(e) => Err(e),
                        Ok(r) => Ok(
                            Node {
                                mode: bytes::le16(r, 0),
                                size: bytes::le32(r, 4) + bytes::le32(r, 108) * 0x1_0000_0000,
                                flags: bytes::le32(r, 32),
                                block: r.subrange(40, 100),
                            },
                        ),
                    }
                },
            }
        }
    }

    /// An extent-tree node, `depth` levels below the root: its extents go into `map`.
    pub open spec fn tree(self, node: Seq<u8>, map: Seq<Option<int>>, depth: int) -> Result<
        Seq<Option<int>>,
        Ext4Error,
    >
        decreases 8 - depth, 1int, 0int,
    {
        if bytes::le16(node, 0) != EXTENT_MAGIC {
            Err(Ext4Error::BadExtentHeader)
        } else {
            self.slots(node, 0, map, depth)
        }
    }

    /// The entries of an extent-tree node from the `k`th on.
    pub open spec fn slots(
        self,
        node: Seq<u8>,
        k: int,
        map: Seq<Option<int>>,
        depth: int,
    ) -> Result<Seq<Option<int>>, Ext4Error>
        decreases 8 - depth, 0int, bytes::le16(node, 2) - k,
    {
        let e = 12 + k * 12;
        if k >= bytes::le16(node, 2) {
            Ok(map)
        } else if e + 12 > node.len() {
            Err(Ext4Error::ExtentPastNode)
        } else if bytes::le16(node, 6) == 0 {
            let len = bytes::le16(node, e + 4);
            let start = bytes::le32(node, e + 8) + bytes::le16(node, e + 6) * 0x1_0000_0000;
            // Past 32768 the extent is allocated and not yet written.
            self.slots(
                node,
                k + 1,
                if len > 32768 {
                    map
                } else {
                    filled(map, bytes::le32(node, e), len, start)
                },
                depth,
            )
        } else {
            let child = bytes::le32(node, e + 4) + bytes::le16(node, e + 8) * 0x1_0000_0000;
            match self.block(child) {
                Err(e) => Err(e),
                Ok(b) => if depth >= 8 {
                    Err(Ext4Error::TooDeep)
                } else {
                    match self.tree(b, map, depth + 1) {
                        Err(e) => Err(e),
                        Ok(m) => self.slots(node, k + 1, m, depth),
                    }
                },
            }
        }
    }

    /// The block pointers in block `b`; block zero stands for as many holes.
    pub open spec fn pointers(self, b: int) -> Result<Seq<int>, Ext4Error> {
        if b == 0 {
            Ok(Seq::new((self.bs / 4) as nat, |i: int| 0))
        } else {
            match self.block(b) {
                Err(e) => Err(e),
                Ok(blk) => Ok(Seq::new((self.bs / 4) as nat, |i: int| bytes::le32(blk, i * 4))),
            }
        }
    }

    /// The blocks behind the pointer blocks `qs` from the `k`th on, which go into `map`
    /// from `at` on.
    pub open spec fn doubly(self, qs: Seq<int>, k: int, at: int, map: Seq<Option<int>>) -> Result<
        Seq<Option<int>>,
        Ext4Error,
    >
        decreases qs.len() - k,
    {
        if k >= qs.len() {
            Ok(map)
        } else {
            match self.pointers(qs[k]) {
                Err(e) => Err(e),
                Ok(ps) => self.doubly(qs, k + 1, at + self.bs / 4, pointed(map, at, ps)),
            }
        }
    }

    /// The classic block map: twelve blocks, those of an indirect block, and those of
    /// a doubly indirect one.
    pub open spec fn classic(self, block: Seq<u8>, n: int) -> Result<Seq<Option<int>>, Ext4Error> {
        let holes = Seq::new(n as nat, |i: int| None);
        let first = pointed(holes, 0, Seq::new(12, |i: int| bytes::le32(block, i * 4)));
        let per = self.bs / 4;
        match self.pointers(bytes::le32(block, 48)) {
            Err(e) => Err(e),
            Ok(ps) => match self.pointers(bytes::le32(block, 52)) {
                Err(e) => Err(e),
                Ok(qs) => match self.doubly(qs, 0, 12 + per, pointed(first, 12, ps)) {
                    Err(e) => Err(e),
                    Ok(map) => if bytes::le32(block, 56) != 0 && 12 + per + per * per < n {
                        Err(Ext4Error::TripleIndirect)
                    } else {
                        Ok(map)
                    },
                },
            },
        }
    }

    /// Physical blocks of a file in logical order (`None` = hole), from its extent tree
    /// or classic block map.
    pub open spec fn layout(self, n: Node) -> Result<Seq<Option<int>>, Ext4Error> {
        let len = (n.size + self.bs - 1) / self.bs;
        if len > usize::MAX {
            Err(Ext4Error::TooLarge(n.size as u64))
        } else if n.has_extents() {
            self.tree(n.block, Seq::new(len as nat, |i: int| None), 0)
        } else {
            self.classic(n.block, len)
        }
    }

    /// The blocks from the `k`th on, behind `acc`; a hole reads as zeros.
    pub open spec fn gathered(self, map: Seq<Option<int>>, k: int, acc: Seq<u8>) -> Result<
        Seq<u8>,
        Ext4Error,
    >
        decreases map.len() - k,
    {
        if k >= map.len() {
            Ok(acc)
        } else {
            match map[k] {
                None => self.gathered(map, k + 1, acc + Seq::new(self.bs as nat, |i: int| 0u8)),
                Some(p) => match self.block(p) {
                    Err(e) => Err(e),
                    Ok(b) => self.gathered(map, k + 1, acc + b),
                },
            }
        }
    }

    /// Whole contents of a file.
    pub open spec fn contents(self, n: Node) -> Result<Seq<u8>, Ext4Error> {
        if n.is_inline() {
            Err(Ext4Error::InlineFile)
        } else {
            match self.layout(n) {
                Err(e) => Err(e),
                Ok(map) => match self.gathered(map, 0, Seq::empty()) {
                    Err(e) => Err(e),
                    Ok(v) => Ok(if n.size < v.len() { v.take(n.size) } else { v }),
                },
            }
        }
    }

    /// Entries of a directory inode; inline ones follow the parent's inode number.
    pub open spec fn dir(self, n: Node) -> Result<Seq<Dirent>, Ext4Error> {
        if !n.is_dir() {
            Err(Ext4Error::NotDirectory)
        } else if n.is_inline() {
            Ok(dirents(n.block.skip(4), 0, Seq::empty()))
        } else {
            match self.contents(n) {
                Err(e) => Err(e),
                Ok(data) => Ok(dirents(data, 0, Seq::empty())),
            }
        }
    }

    /// The inode reached from `n` along the components from `k` on.
    pub open spec fn walk(self, ino: int, n: Node, path: Seq<Seq<char>>, k: int) -> Result<
        Option<(int, Node)>,
        Ext4Error,
    >
        decreases path.len() - k,
    {
        if k >= path.len() {
            Ok(Some((ino, n)))
        } else {
            match self.dir(n) {
                Err(e) => Err(e),
                Ok(es) => match named(es, path[k]) {
                    None => Ok(None),
                    Some(e) => match self.node(e.ino) {
                        Err(e) => Err(e),
                        Ok(m) => self.walk(e.ino, m, path, k + 1),
                    },
                },
            }
        }
    }

    /// The inode at `path`, if the path exists.
    pub open spec fn at(self, path: Seq<char>) -> Result<Option<(int, Node)>, Ext4Error> {
        match self.node(ROOT_INO as int) {
            Err(e) => Err(e),
            Ok(n) => self.walk(ROOT_INO as int, n, text::components(path), 0),
        }
    }

    /// Directory listing at `path`, or nothing if the path does not exist.
    pub open spec fn listing(self, path: Seq<char>) -> Result<Option<Seq<Dirent>>, Ext4Error> {
        match self.at(path) {
            Err(e) => Err(e),
            Ok(None) => Ok(None),
            Ok(Some((_, n))) => match self.dir(n) {
                Err(e) => Err(e),
                Ok(es) => Ok(Some(es)),
            },
        }
    }

    /// Contents of the file with inode number `ino`.
    pub open spec fn file(self, ino: int) -> Result<Seq<u8>, Ext4Error> {
        match self.node(ino) {
            Err(e) => Err(e),
            Ok(n) => self.contents(n),
        }
    }
}

/// Every block has a number.
spec fn placed(map: Seq<Option<int>>) -> bool {
    forall|i: int| 0 <= i < map.len() ==> (#[trigger] map[i] matches Some(p) ==> 0 <= p)
}

proof fn lemma_tree_len(v: Volume, node: Seq<u8>, map: Seq<Option<int>>, depth: int)
    requires
        placed(map),
    ensures
        v.tree(node, map, depth) matches Ok(m) ==> m.len() == map.len() && placed(m),
    decreases 8 - depth, 1int, 0int,
{
    lemma_slots_len(v, node, 0, map, depth);
}

proof fn lemma_slots_len(v: Volume, node: Seq<u8>, k: int, map: Seq<Option<int>>, depth: int)
    requires
        placed(map),
    ensures
        v.slots(node, k, map, depth) matches Ok(m) ==> m.len() == map.len() && placed(m),
    decreases 8 - depth, 0int, bytes::le16(node, 2) - k,
{
    let e = 12 + k * 12;
    if k < bytes::le16(node, 2) && e + 12 <= node.len() {
        if bytes::le16(node, 6) == 0 {
            let start = bytes::le32(node, e + 8) + bytes::le16(node, e + 6) * 0x1_0000_0000;
            let more = filled(map, bytes::le32(node, e), bytes::le16(node, e + 4), start);
            lemma_slots_len(v, node, k + 1, map, depth);
            lemma_slots_len(v, node, k + 1, more, depth);
        } else {
            let child = bytes::le32(node, e + 4) + bytes::le16(node, e + 8) * 0x1_0000_0000;
            if let Ok(b) = v.block(child) {
                if depth < 8 {
                    lemma_tree_len(v, b, map, depth + 1);
                    if let Ok(m) = v.tree(b, map, depth + 1) {
                        lemma_slots_len(v, node, k + 1, m, depth);
                    }
                }
            }
        }
    }
}

proof fn lemma_doubly_len(v: Volume, qs: Seq<int>, k: int, at: int, map: Seq<Option<int>>)
    requires
        placed(map),
    ensures
        v.doubly(qs, k, at, map) matches Ok(m) ==> m.len() == map.len() && placed(m),
    decreases qs.len() - k,
{
    if k < qs.len() {
        if let Ok(ps) = v.pointers(qs[k]) {
            lemma_doubly_len(v, qs, k + 1, at + v.bs / 4, pointed(map, at, ps));
        }
    }
}

proof fn lemma_layout_len(v: Volume, n: Node)
    requires
        0 < v.bs,
        0 <= n.size,
    ensures
        v.layout(n) matches Ok(m) ==> m.len() == (n.size + v.bs - 1) / v.bs && placed(m),
{
    let len = (n.size + v.bs - 1) / v.bs;
    vstd::arithmetic::div_mod::lemma_div_pos_is_pos(n.size + v.bs - 1, v.bs);
    let holes: Seq<Option<int>> = Seq::new(len as nat, |i: int| None);
    lemma_tree_len(v, n.block, holes, 0);
    let first = pointed(holes, 0, Seq::new(12, |i: int| bytes::le32(n.block, i * 4)));
    let per = v.bs / 4;
    if let Ok(ps) = v.pointers(bytes::le32(n.block, 48)) {
        if let Ok(qs) = v.pointers(bytes::le32(n.block, 52)) {
            lemma_doubly_len(v, qs, 0, 12 + per, pointed(first, 12, ps));
        }
    }
}

proof fn lemma_gathered_len(v: Volume, map: Seq<Option<int>>, k: int, acc: Seq<u8>)
    requires
        0 < v.bs,
        0 <= k <= map.len(),
        placed(map),
    ensures
        v.gathered(map, k, acc) matches Ok(b) ==> b.len() == acc.len() + (map.len() - k) * v.bs,
    decreases map.len() - k,
{
    if k < map.len() {
        assert((map.len() - k) * v.bs == (map.len() - (k + 1)) * v.bs + v.bs) by (nonlinear_arith);
        match map[k] {
            None => {
                lemma_gathered_len(v, map, k + 1, acc + Seq::new(v.bs as nat, |i: int| 0u8));
            },
            Some(p) => {
                assert(0 <= p * v.bs) by (nonlinear_arith)
                    requires
                        0 <= p,
                        0 < v.bs,
                ;
                if let Ok(b) = v.block(p) {
                    lemma_gathered_len(v, map, k + 1, acc + b);
                }
            },
        }
    } else {
        assert((map.len() - k) * v.bs == 0) by (nonlinear_arith)
            requires
                map.len() == k,
        ;
    }
}

/// What is read of a file is its whole contents: as many bytes as its inode says, or an
/// error.
pub proof fn law_contents_are_whole(v: Volume, ino: int)
    requires
        0 < v.bs,
    ensures
        v.file(ino) matches Ok(b) ==> (v.node(ino) matches Ok(n) && b.len() == n.size),
{
    if let Ok(n) = v.node(ino) {
        assert(0 <= n.size);
        lemma_layout_len(v, n);
        if let Ok(map) = v.layout(n) {
            lemma_gathered_len(v, map, 0, Seq::empty());
            vstd::arithmetic::div_mod::lemma_fundamental_div_mod(n.size + v.bs - 1, v.bs);
            vstd::arithmetic::div_mod::lemma_mod_bound(n.size + v.bs - 1, v.bs);
            vstd::arithmetic::mul::lemma_mul_is_commutative(map.len() as int, v.bs);
        }
    }
}

/// A mounted image.
pub struct Ext4<'a> {
    d: &'a [u8],
    bs: u64,
    inodes_per_group: u32,
    inode_size: u64,
    desc_size: u64,
    gdt_off: u128,
}

struct Inode {
    mode: u16,
    size: u64,
    flags: u32,
    block: Vec<u8>,
}

/// An entry of a directory.
pub struct Entry {
    pub name: String,
    pub ino: u32,
    pub ftype: u8,
}

impl DeepView for Entry {
    type V = Dirent;

    open spec fn deep_view(&self) -> Dirent {
        Dirent { name: self.name@, ino: self.ino as int, ftype: self.ftype }
    }
}

impl DeepView for Inode {
    type V = Node;

    closed spec fn deep_view(&self) -> Node {
        Node {
            mode: self.mode as int,
            size: self.size as int,
            flags: self.flags as int,
            block: self.block@,
        }
    }
}

impl Inode {
    spec fn wf(self) -> bool {
        self.block@.len() == 60
    }
}

impl<'a> View for Ext4<'a> {
    type V = Volume;

    closed spec fn view(&self) -> Volume {
        Volume {
            d: self.d@,
            bs: self.bs as int,
            inodes_per_group: self.inodes_per_group as int,
            inode_size: self.inode_size as int,
            desc_size: self.desc_size as int,
            gdt_off: self.gdt_off as int,
        }
    }
}

/// The image begins with an ext4 superblock.
pub fn is_ext4(d: &[u8]) -> (r: bool)
    ensures
        r == magic(d@),
{
    d.len() >= SB_OFF + 58 && u16_at(d, SB_OFF + 56) == MAGIC
}

/// The numbers of a block map, as the specifications have them.
pub open spec fn numbers(map: Seq<Option<u64>>) -> Seq<Option<int>> {
    Seq::new(
        map.len(),
        |i: int|
            match map[i] {
                None => None,
                Some(b) => Some(b as int),
            },
    )
}

impl<'a> Ext4<'a> {
    /// The sizes that a superblock admits.
    pub closed spec fn wf(self) -> bool {
        &&& 1024 <= self.bs <= 0x8000_0000_0000_0000
        &&& self.inode_size <= 0xffff
        &&& 32 <= self.desc_size <= 0xffff
        &&& self.gdt_off <= 0x8000_0000_0000_0000 * 0x1_0000_0000
    }

    /// Read the superblock.
    pub fn parse(d: &'a [u8]) -> (r: Result<Ext4<'a>, Ext4Error>)
        ensures
            match r {
                Ok(fs) => fs.wf() && volume(d@) == Ok::<Volume, Ext4Error>(fs@),
                Err(e) => volume(d@) == Err::<Volume, Ext4Error>(e),
            },
    {
        if !is_ext4(d) || d.len() < SB_OFF + 1024 {
            return Err(Ext4Error::NotExt4);
        }
        let log = u32_at(d, SB_OFF + 24);
        if log > 53 {
            return Err(Ext4Error::BadBlockSize(log));
        }
        let scale = two_pow(log);
        proof {
            lemma2_to64();
            lemma2_to64_rest();
            bytes::lemma_two_pow(log as nat, 53);
        }
        let bs: u64 = 1024 * scale;
        let first = u32_at(d, SB_OFF + 20) as u128;
        let wide = (u32_at(d, SB_OFF + 96) / 0x80) % 2 == 1;
        let size = u16_at(d, SB_OFF + 254) as u64;
        proof {
            assert(0 <= (first + 1) * bs <= 0x1_0000_0000 * 0x8000_0000_0000_0000)
                by (nonlinear_arith)
                requires
                    first <= 0xffff_ffff,
                    bs <= 0x8000_0000_0000_0000,
            ;
        }
        Ok(
            Ext4 {
                d,
                bs,
                inodes_per_group: u32_at(d, SB_OFF + 40),
                inode_size: u16_at(d, SB_OFF + 88) as u64,
                desc_size: if wide && size > 32 {
                    size
                } else {
                    32
                },
                gdt_off: (first + 1) * bs as u128,
            },
        )
    }

    fn slice(&self, off: u128, len: u64) -> (r: Result<&'a [u8], Ext4Error>)
        ensures
            match r {
                Ok(s) => self@.range(off as int, len as int) == Ok::<Seq<u8>, Ext4Error>(s@)
                    && s@.len() == len,
                Err(e) => self@.range(off as int, len as int) == Err::<Seq<u8>, Ext4Error>(e),
            },
    {
        let n = self.d.len() as u128;
        if off > n || len as u128 > n - off {
            return Err(Ext4Error::PastEnd);
        }
        Ok(slice_subrange(self.d, off as usize, off as usize + len as usize))
    }

    fn block(&self, n: u64) -> (r: Result<&'a [u8], Ext4Error>)
        requires
            self.wf(),
        ensures
            match r {
                Ok(s) => self@.block(n as int) == Ok::<Seq<u8>, Ext4Error>(s@) && s@.len()
                    == self.bs,
                Err(e) => self@.block(n as int) == Err::<Seq<u8>, Ext4Error>(e),
            },
    {
        proof {
            assert(0 <= n * self.bs <= 0xffff_ffff_ffff_ffff * 0x8000_0000_0000_0000)
                by (nonlinear_arith)
                requires
                    n <= 0xffff_ffff_ffff_ffff,
                    self.bs <= 0x8000_0000_0000_0000,
            ;
        }
        self.slice(n as u128 * self.bs as u128, self.bs)
    }

    fn inode(&self, ino: u32) -> (r: Result<Inode, Ext4Error>)
        requires
            self.wf(),
        ensures
            match r {
                Ok(n) => n.wf() && self@.node(ino as int) == Ok::<Node, Ext4Error>(n.deep_view()),
                Err(e) => self@.node(ino as int) == Err::<Node, Ext4Error>(e),
            },
    {
        if ino == 0 {
            return Err(Ext4Error::InodeZero);
        }
        if self.inodes_per_group == 0 {
            return Err(Ext4Error::EmptyGroups);
        }
        let group = (ino - 1) / self.inodes_per_group;
        let index = (ino - 1) % self.inodes_per_group;
        proof {
            assert(0 <= group * self.desc_size <= 0xffff_ffff * 0xffff) by (nonlinear_arith)
                requires
                    group <= 0xffff_ffff,
                    self.desc_size <= 0xffff,
            ;
            assert(0 <= index * self.inode_size <= 0xffff_ffff * 0xffff) by (nonlinear_arith)
                requires
                    index <= 0xffff_ffff,
                    self.inode_size <= 0xffff,
            ;
        }
        let at: u128 = self.gdt_off + group as u128 * self.desc_size as u128;
        let gd = match self.slice(at, self.desc_size) {
            Ok(s) => s,
            Err(e) => return Err(e),
        };
        let mut table: u64 = u32_at(gd, 8) as u64;
        if self.desc_size >= 64 {
            table = table + u32_at(gd, 40) as u64 * 0x1_0000_0000;
        }
        proof {
            assert(0 <= table * self.bs <= 0xffff_ffff_ffff_ffff * 0x8000_0000_0000_0000)
                by (nonlinear_arith)
                requires
                    table <= 0xffff_ffff_ffff_ffff,
                    self.bs <= 0x8000_0000_0000_0000,
            ;
        }
        let off: u128 = table as u128 * self.bs as u128 + index as u128 * self.inode_size as u128;
        let r = match self.slice(off, 128) {
            Ok(s) => s,
            Err(e) => return Err(e),
        };
        let mut block: Vec<u8> = Vec::new();
        append_bytes(&mut block, slice_subrange(r, 40, 100));
        proof {
            assert(block@ =~= r@.subrange(40, 100));
        }
        Ok(
            Inode {
                mode: u16_at(r, 0),
                size: u32_at(r, 4) as u64 + u32_at(r, 108) as u64 * 0x1_0000_0000,
                flags: u32_at(r, 32),
                block,
            },
        )
    }

    fn extents(&self, node: &[u8], map: &mut Vec<Option<u64>>, depth: u32) -> (r: Result<
        (),
        Ext4Error,
    >)
        requires
            self.wf(),
            node@.len() >= 60,
            depth <= 8,
        ensures
            match r {
                Ok(_) => self@.tree(node@, numbers(old(map)@), depth as int) == Ok::<
                    Seq<Option<int>>,
                    Ext4Error,
                >(numbers(final(map)@)),
                Err(e) => self@.tree(node@, numbers(old(map)@), depth as int) == Err::<
                    Seq<Option<int>>,
                    Ext4Error,
                >(e),
            },
        decreases 8 - depth,
    {
        if u16_at(node, 0) != EXTENT_MAGIC {
            return Err(Ext4Error::BadExtentHeader);
        }
        let entries = u16_at(node, 2) as usize;
        let levels = u16_at(node, 6);
        let mut k: usize = 0;
        while k < entries
            invariant
                self.wf(),
                node@.len() >= 60,
                depth <= 8,
                k <= entries <= 0xffff,
                entries == bytes::le16(node@, 2),
                levels == bytes::le16(node@, 6),
                self@.tree(node@, numbers(old(map)@), depth as int) == self@.slots(
                    node@,
                    k as int,
                    numbers(map@),
                    depth as int,
                ),
            decreases entries - k,
        {
            let e = 12 + k * 12;
            if e > node.len() - 12 {
                return Err(Ext4Error::ExtentPastNode);
            }
            if levels == 0 {
                let lblk = u32_at(node, e) as u64;
                let len = u16_at(node, e + 4);
                let start: u64 = u32_at(node, e + 8) as u64 + u16_at(node, e + 6) as u64
                    * 0x1_0000_0000;
                if len <= 32768 {
                    fill(map, lblk, len, start);
                }
            } else {
                let child: u64 = u32_at(node, e + 4) as u64 + u16_at(node, e + 8) as u64
                    * 0x1_0000_0000;
                let b = match self.block(child) {
                    Ok(b) => b,
                    Err(e) => return Err(e),
                };
                if depth >= 8 {
                    return Err(Ext4Error::TooDeep);
                }
                match self.extents(b, map, depth + 1) {
                    Ok(_) => {},
                    Err(e) => return Err(e),
                }
            }
            k += 1;
        }
        Ok(())
    }

    fn pointer_block(&self, b: u32) -> (r: Result<Pointers<'a>, Ext4Error>)
        requires
            self.wf(),
        ensures
            match r {
                Ok(p) => self@.pointers(b as int) == Ok::<Seq<int>, Ext4Error>(p@) && p.len == self.bs
                    / 4 && p.wf(),
                Err(e) => self@.pointers(b as int) == Err::<Seq<int>, Ext4Error>(e),
            },
    {
        let len = self.bs / 4;
        if b == 0 {
            let p = Pointers { blk: None, len };
            proof {
                assert(p@ =~= Seq::new((self@.bs / 4) as nat, |i: int| 0));
            }
            return Ok(p);
        }
        match self.block(b as u64) {
            Ok(blk) => {
                let p = Pointers { blk: Some(blk), len };
                proof {
                    assert(p@ =~= Seq::new(
                        (self@.bs / 4) as nat,
                        |i: int| bytes::le32(blk@, i * 4),
                    ));
                }
                Ok(p)
            },
            Err(e) => Err(e),
        }
    }

    fn block_map(&self, block: &[u8], n: usize) -> (r: Result<Vec<Option<u64>>, Ext4Error>)
        requires
            self.wf(),
            block@.len() == 60,
        ensures
            match r {
                Ok(v) => self@.classic(block@, n as int) == Ok::<Seq<Option<int>>, Ext4Error>(
                    numbers(v@),
                ),
                Err(e) => self@.classic(block@, n as int) == Err::<Seq<Option<int>>, Ext4Error>(e),
            },
    {
        let mut map = no_blocks(n);
        let per = self.bs / 4;
        let direct = Pointers { blk: Some(block), len: 12 };
        proof {
            assert(direct@ =~= Seq::new(12, |i: int| bytes::le32(block@, i * 4)));
        }
        point(&mut map, 0, &direct);
        let ps = match self.pointer_block(u32_at(block, 48)) {
            Ok(p) => p,
            Err(e) => return Err(e),
        };
        point(&mut map, 12, &ps);
        let qs = match self.pointer_block(u32_at(block, 52)) {
            Ok(p) => p,
            Err(e) => return Err(e),
        };
        let ghost q = qs@;
        let ghost map0 = numbers(map@);
        let mut at: u128 = 12 + per as u128;
        let mut k: u64 = 0;
        while k < per
            invariant
                self.wf(),
                qs.wf(),
                q == qs@,
                q.len() == per,
                per == self@.bs / 4,
                k <= per <= 0x8000_0000_0000_0000,
                at == 12 + per + k * per,
                k * per <= 0x8000_0000_0000_0000 * 0x8000_0000_0000_0000,
                self@.doubly(q, 0, 12 + per, map0) == self@.doubly(q, k as int, at as int, numbers(map@)),
                match self@.doubly(q, 0, 12 + per, map0) {
                    Err(e) => self@.classic(block@, n as int) == Err::<
                        Seq<Option<int>>,
                        Ext4Error,
                    >(e),
                    Ok(m) => true,
                },
            decreases per - k,
        {
            let b = qs.get(k);
            let ps = match self.pointer_block(b) {
                Ok(p) => p,
                Err(e) => return Err(e),
            };
            point(&mut map, at, &ps);
            proof {
                assert((k + 1) * per == k * per + per) by (nonlinear_arith);
                assert((k + 1) * per <= 0x8000_0000_0000_0000 * 0x8000_0000_0000_0000)
                    by (nonlinear_arith)
                    requires
                        k + 1 <= 0x8000_0000_0000_0000,
                        per <= 0x8000_0000_0000_0000,
                ;
            }
            at = at + per as u128;
            k += 1;
        }
        if u32_at(block, 56) != 0 && at < n as u128 {
            return Err(Ext4Error::TripleIndirect);
        }
        Ok(map)
    }

    /// Physical blocks of a file in logical order (`None` = hole), from its
    /// extent tree or classic block map.
    fn blocks(&self, ino: &Inode) -> (r: Result<Vec<Option<u64>>, Ext4Error>)
        requires
            self.wf(),
            ino.wf(),
        ensures
            match r {
                Ok(v) => self@.layout(ino.deep_view()) == Ok::<Seq<Option<int>>, Ext4Error>(
                    numbers(v@),
                ),
                Err(e) => self@.layout(ino.deep_view()) == Err::<Seq<Option<int>>, Ext4Error>(e),
            },
    {
        let n: u128 = (ino.size as u128 + self.bs as u128 - 1) / self.bs as u128;
        if n > usize::MAX as u128 {
            return Err(Ext4Error::TooLarge(ino.size));
        }
        if (ino.flags / 0x8_0000) % 2 == 1 {
            let mut map = no_blocks(n as usize);
            match self.extents(&ino.block, &mut map, 0) {
                Ok(_) => Ok(map),
                Err(e) => Err(e),
            }
        } else {
            self.block_map(&ino.block, n as usize)
        }
    }

    fn read(&self, ino: &Inode) -> (r: Result<Vec<u8>, Ext4Error>)
        requires
            self.wf(),
            ino.wf(),
        ensures
            match r {
                Ok(v) => self@.contents(ino.deep_view()) == Ok::<Seq<u8>, Ext4Error>(v@),
                Err(e) => self@.contents(ino.deep_view()) == Err::<Seq<u8>, Ext4Error>(e),
            },
    {
        if (ino.flags / 0x1000_0000) % 2 == 1 {
            return Err(Ext4Error::InlineFile);
        }
        let map = match self.blocks(ino) {
            Ok(m) => m,
            Err(e) => return Err(e),
        };
        let ghost m = numbers(map@);
        let mut out: Vec<u8> = Vec::new();
        let mut k: usize = 0;
        while k < map.len()
            invariant
                self.wf(),
                m == numbers(map@),
                k <= map@.len(),
                self@.layout(ino.deep_view()) == Ok::<Seq<Option<int>>, Ext4Error>(m),
                !ino.deep_view().is_inline(),
                self@.gathered(m, 0, Seq::empty()) == self@.gathered(m, k as int, out@),
            decreases map@.len() - k,
        {
            match map[k] {
                Some(p) => match self.block(p) {
                    Ok(b) => append_bytes(&mut out, b),
                    Err(e) => return Err(e),
                },
                None => append_zeros(&mut out, self.bs),
            }
            k += 1;
        }
        if ino.size < out.len() as u64 {
            out.truncate(ino.size as usize);
        }
        Ok(out)
    }

    /// Linear directory entries (`ext4_dir_entry_2`); an htree index is an
    /// overlay on the same blocks, so a linear walk still sees every entry.
    fn entries(&self, ino: &Inode) -> (r: Result<Vec<Entry>, Ext4Error>)
        requires
            self.wf(),
            ino.wf(),
        ensures
            match r {
                Ok(v) => self@.dir(ino.deep_view()) == Ok::<Seq<Dirent>, Ext4Error>(v.deep_view()),
                Err(e) => self@.dir(ino.deep_view()) == Err::<Seq<Dirent>, Ext4Error>(e),
            },
    {
        if ino.mode / 0x1000 != 4 {
            return Err(Ext4Error::NotDirectory);
        }
        if (ino.flags / 0x1000_0000) % 2 == 1 {
            // Inline: parent inode number, then entries in the rest of i_block.
            let rest = slice_subrange(ino.block.as_slice(), 4, ino.block.len());
            proof {
                assert(rest@ =~= ino.block@.skip(4));
            }
            return Ok(list_entries(rest));
        }
        match self.read(ino) {
            Ok(data) => Ok(list_entries(&data)),
            Err(e) => Err(e),
        }
    }

    fn lookup(&self, path: &str) -> (r: Result<Option<(u32, Inode)>, Ext4Error>)
        requires
            self.wf(),
        ensures
            match r {
                Ok(None) => self@.at(path@) == Ok::<Option<(int, Node)>, Ext4Error>(None),
                Ok(Some(x)) => x.1.wf() && self@.at(path@) == Ok::<Option<(int, Node)>, Ext4Error>(
                    Some((x.0 as int, x.1.deep_view())),
                ),
                Err(e) => self@.at(path@) == Err::<Option<(int, Node)>, Ext4Error>(e),
            },
    {
        let mut num = ROOT_INO;
        let mut ino = match self.inode(num) {
            Ok(i) => i,
            Err(e) => return Err(e),
        };
        let comps = text::path_components(path);
        let ghost cs = comps.deep_view();
        let mut k: usize = 0;
        while k < comps.len()
            invariant
                self.wf(),
                ino.wf(),
                k <= comps@.len(),
                cs == comps.deep_view(),
                self@.at(path@) == self@.walk(num as int, ino.deep_view(), cs, k as int),
            decreases comps@.len() - k,
        {
            proof {
                assert(cs[k as int] == comps@[k as int]@);
            }
            let es = match self.entries(&ino) {
                Ok(es) => es,
                Err(e) => return Err(e),
            };
            match find_entry(&es, comps[k].as_str()) {
                None => return Ok(None),
                Some(id) => {
                    num = id;
                },
            }
            ino = match self.inode(num) {
                Ok(i) => i,
                Err(e) => return Err(e),
            };
            k += 1;
        }
        Ok(Some((num, ino)))
    }

    /// Directory listing at `path`, or `None` if the path does not exist.
    pub fn read_dir(&self, path: &str) -> (r: Result<Option<Vec<Entry>>, Ext4Error>)
        requires
            self.wf(),
        ensures
            match r {
                Ok(o) => self@.listing(path@) == Ok::<Option<Seq<Dirent>>, Ext4Error>(
                    o.deep_view(),
                ),
                Err(e) => self@.listing(path@) == Err::<Option<Seq<Dirent>>, Ext4Error>(e),
            },
    {
        match self.lookup(path) {
            Err(e) => Err(e),
            Ok(None) => Ok(None),
            Ok(Some((_, ino))) => match self.entries(&ino) {
                Ok(es) => Ok(Some(es)),
                Err(e) => Err(e),
            },
        }
    }

    /// Contents of the regular file with inode number `ino`.
    pub fn read_ino(&self, ino: u32) -> (r: Result<Vec<u8>, Ext4Error>)
        requires
            self.wf(),
        ensures
            match r {
                Ok(v) => self@.file(ino as int) == Ok::<Seq<u8>, Ext4Error>(v@),
                Err(e) => self@.file(ino as int) == Err::<Seq<u8>, Ext4Error>(e),
            },
    {
        match self.inode(ino) {
            Ok(i) => self.read(&i),
            Err(e) => Err(e),
        }
    }
}

/// The pointers in a block, or as many zeros.
struct Pointers<'a> {
    blk: Option<&'a [u8]>,
    len: u64,
}

impl<'a> View for Pointers<'a> {
    type V = Seq<int>;

    closed spec fn view(&self) -> Seq<int> {
        Seq::new(
            self.len as nat,
            |i: int|
                match self.blk {
                    None => 0,
                    Some(b) => bytes::le32(b@, i * 4),
                },
        )
    }
}

impl<'a> Pointers<'a> {
    spec fn wf(self) -> bool {
        match self.blk {
            None => true,
            Some(b) => self.len * 4 <= b@.len(),
        }
    }

    fn get(&self, i: u64) -> (r: u32)
        requires
            self.wf(),
            i < self@.len(),
        ensures
            r == self@[i as int],
    {
        match self.blk {
            None => 0,
            Some(b) => {
                proof {
                    assert(b.len() >= self.len * 4);
                }
                u32_at(b, i as usize * 4)
            },
        }
    }
}

fn no_blocks(n: usize) -> (r: Vec<Option<u64>>)
    ensures
        numbers(r@) == Seq::new(n as nat, |i: int| None::<int>),
{
    let mut out: Vec<Option<u64>> = Vec::new();
    let mut k: usize = 0;
    while k < n
        invariant
            k <= n,
            out@.len() == k,
            forall|i: int| 0 <= i < k ==> out@[i] is None,
        decreases n - k,
    {
        out.push(None);
        k += 1;
    }
    proof {
        assert(numbers(out@) =~= Seq::new(n as nat, |i: int| None::<int>));
    }
    out
}

fn fill(map: &mut Vec<Option<u64>>, at: u64, len: u16, start: u64)
    requires
        at <= 0xffff_ffff,
        start <= 0xffff_ffff_ffff,
    ensures
        numbers(final(map)@) == filled(numbers(old(map)@), at as int, len as int, start as int),
{
    let ghost m0 = numbers(map@);
    let mut j: u64 = 0;
    proof {
        assert(m0 =~= filled(m0, at as int, 0, start as int));
    }
    while j < len as u64
        invariant
            j <= len,
            at <= 0xffff_ffff,
            start <= 0xffff_ffff_ffff,
            map@.len() == m0.len(),
            numbers(map@) == filled(m0, at as int, j as int, start as int),
        decreases len - j,
    {
        let ghost prev = map@;
        if at + j < map.len() as u64 {
            map.set((at + j) as usize, Some(start + j));
        }
        proof {
            assert(numbers(map@) =~= filled(m0, at as int, j + 1, start as int)) by {
                assert forall|i: int| 0 <= i < map@.len() implies #[trigger] numbers(map@)[i]
                    == filled(m0, at as int, j + 1, start as int)[i] by {
                    assert(numbers(prev)[i] == filled(m0, at as int, j as int, start as int)[i]);
                }
            }
        }
        j += 1;
    }
}

fn point(map: &mut Vec<Option<u64>>, at: u128, ps: &Pointers)
    requires
        ps.wf(),
        at <= 0xffff_ffff_ffff_ffff_ffff_ffff_ffff_ffff - 0x1_0000_0000_0000_0000,
    ensures
        numbers(final(map)@) == pointed(numbers(old(map)@), at as int, ps@),
{
    let ghost m0 = numbers(map@);
    let ghost p = ps@;
    let mut j: u64 = 0;
    proof {
        assert(m0 =~= pointed(m0, at as int, p.take(0)));
    }
    while j < ps.len && at + (j as u128) < map.len() as u128
        invariant
            j <= ps.len,
            ps.wf(),
            p == ps@,
            p.len() == ps.len,
            map@.len() == m0.len(),
            at <= 0xffff_ffff_ffff_ffff_ffff_ffff_ffff_ffff - 0x1_0000_0000_0000_0000,
            numbers(map@) == pointed(m0, at as int, p.take(j as int)),
        decreases ps.len - j,
    {
        let ghost prev = map@;
        let b = ps.get(j);
        if b != 0 {
            map.set((at + j as u128) as usize, Some(b as u64));
        }
        proof {
            let q = p.take(j + 1);
            assert(numbers(map@) =~= pointed(m0, at as int, q)) by {
                assert forall|i: int| 0 <= i < map@.len() implies #[trigger] numbers(map@)[i]
                    == pointed(m0, at as int, q)[i] by {
                    assert(numbers(prev)[i] == pointed(m0, at as int, p.take(j as int))[i]);
                }
            }
        }
        j += 1;
    }
    proof {
        assert(numbers(map@) =~= pointed(m0, at as int, p)) by {
            assert forall|i: int| 0 <= i < map@.len() implies #[trigger] numbers(map@)[i]
                == pointed(m0, at as int, p)[i] by {
                assert(numbers(map@)[i] == pointed(m0, at as int, p.take(j as int))[i]);
            }
        }
    }
}

fn append_zeros(out: &mut Vec<u8>, n: u64)
    ensures
        final(out)@ == old(out)@ + Seq::new(n as nat, |i: int| 0u8),
{
    let ghost before = out@;
    let mut k: u64 = 0;
    proof {
        assert(before =~= before + Seq::new(0, |i: int| 0u8));
    }
    while k < n
        invariant
            k <= n,
            out@ == before + Seq::new(k as nat, |i: int| 0u8),
        decreases n - k,
    {
        out.push(0);
        proof {
            assert(out@ =~= before + Seq::new((k + 1) as nat, |i: int| 0u8));
        }
        k += 1;
    }
}

fn list_entries(data: &[u8]) -> (r: Vec<Entry>)
    ensures
        r.deep_view() == dirents(data@, 0, Seq::empty()),
{
    let mut out: Vec<Entry> = Vec::new();
    let n = data.len();
    let mut off: usize = 0;
    proof {
        assert(out.deep_view() =~= Seq::empty());
    }
    while n >= 8 && off <= n - 8
        invariant
            n == data@.len(),
            off <= n,
            dirents(data@, 0, Seq::empty()) == dirents(data@, off as int, out.deep_view()),
        decreases n - off,
    {
        let inode = u32_at(data, off);
        let rec_len = u16_at(data, off + 4) as usize;
        let name_len = data[off + 6] as usize;
        let ftype = data[off + 7];
        if rec_len < 8 {
            return out;
        }
        if inode != 0 && 8 + name_len <= rec_len && name_len <= n - off - 8 {
            let name = text::lossy_text(slice_subrange(data, off + 8, off + 8 + name_len));
            let e = Entry { name, ino: inode, ftype };
            let ghost before = out.deep_view();
            out.push(e);
            proof {
                assert(out.deep_view() =~= before.push(e.deep_view()));
            }
        }
        if rec_len > n - off {
            proof {
                assert(dirents(data@, off + rec_len, out.deep_view()) == out.deep_view());
            }
            return out;
        }
        off = off + rec_len;
    }
    out
}

fn find_entry(es: &Vec<Entry>, name: &str) -> (r: Option<u32>)
    ensures
        match r {
            None => named(es.deep_view(), name@) is None,
            Some(ino) => named(es.deep_view(), name@) matches Some(e) && e.ino == ino,
        },
{
    let ghost all = es.deep_view();
    let mut k: usize = 0;
    proof {
        assert(all.skip(0) =~= all);
    }
    while k < es.len()
        invariant
            k <= es@.len(),
            all == es.deep_view(),
            named(all, name@) == named(all.skip(k as int), name@),
        decreases es@.len() - k,
    {
        proof {
            assert(all.skip(k as int)[0] == es@[k as int].deep_view());
            assert(all.skip(k as int).skip(1) =~= all.skip(k + 1));
        }
        if text::str_eq(es[k].name.as_str(), name) {
            return Some(es[k].ino);
        }
        k += 1;
    }
    None
}

} // verus!

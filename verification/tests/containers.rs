//! Archives, packages and the filesystem images inside them.

use dexlock::dex::apex::erofs::{is_erofs, Erofs};
use dexlock::dex::apex::ext4::{is_ext4, Ext4};
use dexlock::dex::apex::{is_apex_name, jars_in_image, javalib_jars, javalib_jars_at, ApexError};
use dexlock::dex::archive::{base, dex_blobs, interesting, is_zip_ext, soong_jars, ArchiveError, Source};
use std::io::Write;

fn zip(entries: &[(&str, &[u8])]) -> Vec<u8> {
    let mut w = zip::ZipWriter::new(std::io::Cursor::new(Vec::new()));
    for (name, data) in entries {
        w.start_file(*name, zip::write::SimpleFileOptions::default()).unwrap();
        w.write_all(data).unwrap();
    }
    w.finish().unwrap().into_inner()
}

fn put(d: &mut [u8], at: usize, bytes: &[u8]) {
    d[at..at + bytes.len()].copy_from_slice(bytes);
}

// --- EROFS --------------------------------------------------------------------

/// The entries of a directory, each with its inode and its type.
fn erofs_dir(entries: &[(&[u8], u64, u8)]) -> Vec<u8> {
    let mut head = Vec::new();
    let mut names: Vec<u8> = Vec::new();
    for (name, nid, ftype) in entries {
        head.extend(nid.to_le_bytes());
        head.extend(((12 * entries.len() + names.len()) as u16).to_le_bytes());
        head.extend([*ftype, 0]);
        names.extend_from_slice(name);
    }
    head.extend(names);
    head
}

fn erofs_inode(format: u16, mode: u16, size: usize, blkaddr: u32) -> Vec<u8> {
    let mut h = vec![0; 32];
    put(&mut h, 0, &format.to_le_bytes());
    put(&mut h, 4, &mode.to_le_bytes());
    put(&mut h, 8, &(size as u32).to_le_bytes());
    put(&mut h, 16, &blkaddr.to_le_bytes());
    h
}

/// Blocks of 512 bytes: inodes from block 4 on, `/javalib` with an inline, a compressed
/// and a plain file.
fn erofs() -> Vec<u8> {
    let mut d = vec![0; 512 * 10];
    put(&mut d, 1024, &0xe0f5_e1e2u32.to_le_bytes());
    d[1024 + 12] = 9;
    put(&mut d, 1024 + 40, &4u32.to_le_bytes());
    let root = erofs_dir(&[(b"javalib", 1, 2)]);
    let javalib = erofs_dir(&[(b"b.jar", 4, 1), (b"a.jar", 2, 1), (b"notes.txt", 2, 1), (b"\xffc.jar", 7, 1)]);
    let meta = 4 * 512;
    put(&mut d, meta, &erofs_inode(0, 0x4000, root.len(), 5));
    put(&mut d, meta + 32, &erofs_inode(0, 0x4000, javalib.len(), 6));
    put(&mut d, meta + 64, &erofs_inode(2 << 1, 0x8000, 5, 0));
    put(&mut d, meta + 96, b"hello");
    put(&mut d, meta + 128, &erofs_inode(1 << 1, 0x8000, 10, 0));
    // the index of its one cluster: a compressed head at offset 0, in block 7
    put(&mut d, meta + 160 + 8, &[1, 0, 0, 0, 7, 0, 0, 0]);
    put(&mut d, meta + 224, &erofs_inode(0, 0x8000, 600, 8));
    put(&mut d, 5 * 512, &root);
    put(&mut d, 6 * 512, &javalib);
    put(&mut d, 7 * 512, &[0x50, b'a', b'b', b'c', b'd', b'e', 0x05, 0x00, 0x10, b'!']);
    put(&mut d, 8 * 512, &[7; 600]);
    d
}

#[test]
fn erofs_files_are_read() {
    let d = erofs();
    assert!(is_erofs(&d) && !is_ext4(&d));
    let fs = Erofs::parse(&d).unwrap();
    let names: Vec<String> = fs.read_dir("javalib").unwrap().unwrap().into_iter().map(|e| e.name).collect();
    assert_eq!(names, ["b.jar", "a.jar", "notes.txt", "\u{fffd}c.jar"]);
    assert_eq!(fs.read_nid(2).unwrap(), b"hello");
    assert_eq!(fs.read_nid(4).unwrap(), b"abcdeabcd!");
    assert_eq!(fs.read_nid(7).unwrap(), vec![7; 600]);
    assert!(fs.read_dir("lib").unwrap().is_none());
    assert!(fs.read_dir("javalib/a.jar").is_err());
    assert_eq!(fs.read_dir("/").unwrap().unwrap().len(), 1);
    assert!(fs.read_nid(1_000_000).is_err());
}

#[test]
fn erofs_refuses_what_it_does_not_cover() {
    let mut d = erofs();
    d[4 * 512 + 160 + 4] = 4; // a big physical cluster
    assert!(Erofs::parse(&d).unwrap().read_nid(4).is_err());
    let mut d = erofs();
    d[1024 + 12] = 30;
    assert!(Erofs::parse(&d).is_err());
    assert!(Erofs::parse(&[0; 64]).is_err());
}

#[test]
fn cut_erofs_image_is_refused() {
    let d = erofs();
    // the plain file is 600 bytes from block 8 on
    assert_eq!(Erofs::parse(&d[..8 * 512 + 600]).unwrap().read_nid(7).unwrap().len(), 600);
    for end in [8 * 512, 8 * 512 + 100, 8 * 512 + 511] {
        assert!(Erofs::parse(&d[..end]).unwrap().read_nid(7).is_err(), "{end}");
    }
}

// --- ext4 ---------------------------------------------------------------------

fn ext4_inode(mode: u16, size: u32, flags: u32, block: &[u8]) -> Vec<u8> {
    let mut h = vec![0; 128];
    put(&mut h, 0, &mode.to_le_bytes());
    put(&mut h, 4, &size.to_le_bytes());
    put(&mut h, 32, &flags.to_le_bytes());
    put(&mut h, 40, block);
    h
}

fn extent(start: u32, len: u16) -> Vec<u8> {
    let mut b = vec![0; 24];
    put(&mut b, 0, &[0x0a, 0xf3, 1, 0, 4, 0, 0, 0]);
    put(&mut b, 16, &len.to_le_bytes());
    put(&mut b, 20, &start.to_le_bytes());
    b
}

fn ext4_dir(entries: &[(&str, u32, u8)]) -> Vec<u8> {
    let mut d = vec![0; 1024];
    let mut at = 0;
    for (i, (name, ino, ftype)) in entries.iter().enumerate() {
        let len = if i + 1 == entries.len() { 1024 - at } else { (8 + name.len()).div_ceil(4) * 4 };
        put(&mut d, at, &ino.to_le_bytes());
        put(&mut d, at + 4, &(len as u16).to_le_bytes());
        d[at + 6] = name.len() as u8;
        d[at + 7] = *ftype;
        put(&mut d, at + 8, name.as_bytes());
        at += len;
    }
    d
}

/// Blocks of 1024 bytes: `/javalib` with a file of two blocks and one with a hole.
fn ext4() -> Vec<u8> {
    let mut d = vec![0; 1024 * 10];
    put(&mut d, 1024 + 20, &1u32.to_le_bytes());
    put(&mut d, 1024 + 40, &16u32.to_le_bytes());
    put(&mut d, 1024 + 56, &0xef53u16.to_le_bytes());
    put(&mut d, 1024 + 88, &128u16.to_le_bytes());
    put(&mut d, 2048 + 8, &3u32.to_le_bytes());
    let at = |ino: usize| 3072 + (ino - 1) * 128;
    put(&mut d, at(2), &ext4_inode(0x4000, 1024, 0x8_0000, &extent(5, 1)));
    put(&mut d, at(11), &ext4_inode(0x4000, 1024, 0, &[6, 0, 0, 0]));
    put(&mut d, at(12), &ext4_inode(0x8000, 1500, 0x8_0000, &extent(7, 2)));
    put(&mut d, at(13), &ext4_inode(0x8000, 1027, 0, &[0, 0, 0, 0, 9, 0, 0, 0]));
    put(&mut d, 5 * 1024, &ext4_dir(&[(".", 2, 2), ("javalib", 11, 2)]));
    put(&mut d, 6 * 1024, &ext4_dir(&[("z.jar", 12, 1), ("m.jar", 13, 1), ("sub.jar", 11, 2)]));
    put(&mut d, 7 * 1024, &[1; 1024]);
    put(&mut d, 8 * 1024, &[2; 1024]);
    put(&mut d, 9 * 1024, b"end");
    d
}

#[test]
fn ext4_files_are_read() {
    let d = ext4();
    assert!(is_ext4(&d) && !is_erofs(&d));
    let fs = Ext4::parse(&d).unwrap();
    let names: Vec<String> = fs.read_dir("javalib").unwrap().unwrap().into_iter().map(|e| e.name).collect();
    assert_eq!(names, ["z.jar", "m.jar", "sub.jar"]);
    let two = fs.read_ino(12).unwrap();
    assert_eq!((two.len(), two[1023], two[1024], two[1499]), (1500, 1, 2, 2));
    let hole = fs.read_ino(13).unwrap();
    assert_eq!(hole[..1024], vec![0; 1024]);
    assert_eq!(&hole[1024..], b"end");
    assert!(fs.read_dir("javalib/none").unwrap().is_none());
    assert!(fs.read_dir("javalib/z.jar").is_err());
    assert!(fs.read_ino(0).is_err());
    assert!(fs.read_ino(100_000).is_err());
}

#[test]
fn cut_ext4_image_is_refused() {
    let d = ext4();
    assert_eq!(Ext4::parse(&d[..9 * 1024]).unwrap().read_ino(12).unwrap().len(), 1500);
    for end in [8 * 1024, 8 * 1024 + 500, 9 * 1024 - 1] {
        assert!(Ext4::parse(&d[..end]).unwrap().read_ino(12).is_err(), "{end}");
    }
}

#[test]
fn ext4_refuses_a_bad_extent_tree() {
    let mut d = ext4();
    d[3072 + 11 * 128 + 40] = 0;
    assert!(Ext4::parse(&d).unwrap().read_ino(12).is_err());
    assert!(Ext4::parse(&[0; 64]).is_err());
}

// --- packages -----------------------------------------------------------------

#[test]
fn jars_come_by_name() {
    let names = |img: &[u8]| -> Vec<String> { jars_in_image(img).unwrap().into_iter().map(|j| j.0).collect() };
    assert_eq!(names(&erofs()), ["a.jar", "b.jar", "\u{fffd}c.jar"]);
    assert_eq!(names(&ext4()), ["m.jar", "z.jar"]);
    assert_eq!(jars_in_image(&[0; 4096]).err(), Some(ApexError::UnknownImage));
}

#[test]
fn package_is_unwrapped() {
    let apex = zip(&[("apex_manifest.pb", b"x"), ("apex_payload.img", &erofs())]);
    let jars = javalib_jars(&apex).unwrap();
    assert_eq!(jars[0], ("a.jar".to_string(), b"hello".to_vec()));
    let capex = zip(&[("original_apex", &apex)]);
    assert_eq!(javalib_jars(&capex).unwrap(), jars);
    let deep = zip(&[("original_apex", &zip(&[("original_apex", &capex)]))]);
    assert_eq!(javalib_jars(&deep).err(), Some(ApexError::TooDeep));
    assert_eq!(javalib_jars(b"nothing").err(), Some(ApexError::NotZip));
    assert_eq!(javalib_jars(&zip(&[("other", b"x")])).err(), Some(ApexError::NoPayload));
    assert!(is_apex_name("com.android.art.apex") && is_apex_name("x.capex") && !is_apex_name("x.apk"));
}

#[test]
fn other_tool_steps_in_where_a_package_cannot_be_read() {
    let apex = zip(&[("apex_payload.img", &ext4())]);
    let other = vec![("other.jar".to_string(), vec![1])];
    assert_eq!(javalib_jars_at(&apex, Some(other.clone())).unwrap()[0].0, "m.jar");
    assert_eq!(javalib_jars_at(b"nothing", Some(other.clone())).unwrap(), other);
    let files = ["z.jar", "notes.txt", "a.jar", "jar"].map(|n| (n.to_string(), n.as_bytes().to_vec()));
    let names: Vec<String> =
        javalib_jars_at(b"nothing", Some(files.to_vec())).unwrap().into_iter().map(|j| j.0).collect();
    assert_eq!(names, ["a.jar", "z.jar"]);
    assert_eq!(javalib_jars_at(b"nothing", None).err(), Some(ApexError::NotZip));
}

// --- archives -----------------------------------------------------------------

fn file(name: &str, bytes: Vec<u8>) -> Source {
    Source::File { name: name.to_string(), bytes }
}

#[test]
fn dex_is_found_in_nested_archives() {
    let dex = b"dex\n035\0one".to_vec();
    let two = b"dex\n035\0two".to_vec();
    let inner = zip(&[("classes.dex", &two), ("res.bin", b"dex\nno")]);
    let jar = zip(&[("META-INF/MANIFEST.MF", b"x"), ("classes.dex", &dex), ("lib/inner.apk", &inner)]);
    let got = dex_blobs(vec![file("a.jar", jar.clone()), file("plain.dex", two.clone()), file("odd", vec![1, 2])]);
    assert_eq!(got.unwrap(), vec![dex.clone(), two.clone(), two.clone()]);
    let jars = Source::Jars(vec![("core.jar".to_string(), jar)]);
    assert_eq!(dex_blobs(vec![jars]).unwrap(), vec![dex, two]);
}

#[test]
fn broken_archives_are_refused() {
    assert_eq!(dex_blobs(vec![file("a.jar", vec![1, 2])]).err(), Some(ArchiveError::NotZip));
    let mut z = zip(&[("classes.dex", b"dex\n stored bytes, long enough to be found")]);
    let at = z.windows(4).position(|w| w == b"PK\x01\x02").unwrap();
    z[at - 5] ^= 0xff;
    assert!(dex_blobs(vec![file("a.jar", z)]).is_err());
}

#[test]
fn members_are_chosen_by_name() {
    assert!(interesting("classes2.dex") && interesting("classes") && interesting("x.aar"));
    assert!(!interesting("AndroidManifest.xml"));
    assert!(is_zip_ext("a.apk") && is_zip_ext("jar") && !is_zip_ext("a.dex"));
    assert_eq!(base("a/b/c.jar"), "c.jar");
    assert_eq!(base("c.jar"), "c.jar");
}

#[test]
fn soong_layout_is_preferred() {
    let list = |names: &[&str]| -> Vec<String> { names.iter().map(|n| n.to_string()).collect() };
    let soong = list(&["services.jar", "framework.jar", "services.txt"]);
    let plain = list(&["a.apk", "b.capex", "c.txt", "d.dex", "e.aar"]);
    let all = soong_jars(&soong, &plain, None);
    assert!(all.soong);
    assert_eq!(all.names, ["services.jar", "framework.jar"]);
    assert_eq!(soong_jars(&soong, &plain, Some("serv")).names, ["services.jar"]);
    let none = soong_jars(&soong, &plain, Some("telephony"));
    assert!(!none.soong);
    assert_eq!(none.names, ["a.apk", "b.capex", "d.dex", "e.aar"]);
}

#[test]
fn library_archive_of_a_directory_is_read() {
    let dex = b"dex\n035\0one".to_vec();
    let names = vec!["lib.aar".to_string()];
    let picked = soong_jars(&Vec::new(), &names, None);
    assert_eq!(picked.names, ["lib.aar"]);
    let aar = zip(&[("classes.dex", &dex)]);
    assert_eq!(dex_blobs(vec![file("lib.aar", aar)]).unwrap(), vec![dex]);
}

//! The columnar dump and the profile.

use dexlock::dex::Acquisition;
use dexlock::dump::{write_proto, Pool};
use dexlock::proto::{encode_lock_points, len_delim, packed_u32, put_varint, tag};
use dexlock::{gzip, pprof};

#[test]
fn varint_roundtrip() {
    let mut b = Vec::new();
    put_varint(&mut b, 0);
    put_varint(&mut b, 127);
    put_varint(&mut b, 128);
    put_varint(&mut b, 300);
    assert_eq!(b, vec![0x00, 0x7f, 0x80, 0x01, 0xac, 0x02]);
}

#[test]
fn message_shape() {
    // one string, one row: tag(1,2) len=1 'a'; then packed columns each tag+len+1 byte.
    let bytes = encode_lock_points(&vec!["a".into()], &[0], &[0], &[0], &[5]);
    assert_eq!(bytes[0], (1 << 3) | 2); // field 1, wire 2
    assert_eq!(bytes[1], 1); // len 1
    assert_eq!(bytes[2], b'a');
    // remainder is four packed columns; the last (line) must carry the value 5.
    assert!(bytes.ends_with(&[5]));
}

#[test]
fn largest_varint_takes_ten_bytes() {
    let mut b = Vec::new();
    put_varint(&mut b, u64::MAX);
    assert_eq!(b, vec![0xff, 0xff, 0xff, 0xff, 0xff, 0xff, 0xff, 0xff, 0xff, 0x01]);
}

#[test]
fn fields_carry_tag_and_length() {
    let mut b = Vec::new();
    tag(&mut b, 16, 2);
    assert_eq!(b, vec![0x82, 0x01]);
    let mut b = vec![7];
    len_delim(&mut b, 3, b"xy");
    assert_eq!(b, vec![7, 0x1a, 2, b'x', b'y']);
    let mut b = Vec::new();
    packed_u32(&mut b, 2, &[1, 300]);
    assert_eq!(b, vec![0x12, 3, 1, 0xac, 0x02]);
}

fn point(class: &str, method: &str, file: Option<&str>, line: Option<u32>, lock: &str) -> Acquisition {
    Acquisition {
        class: class.to_string(),
        method: method.to_string(),
        source_file: file.map(|f| f.to_string()),
        line,
        lock: lock.to_string(),
    }
}

#[test]
fn pool_numbers_strings_as_first_seen() {
    let mut p = Pool::new();
    assert_eq!(p.intern("b"), 0);
    assert_eq!(p.intern("a"), 1);
    assert_eq!(p.intern("b"), 0);
    assert_eq!(p.into_strings(), vec!["b".to_string(), "a".to_string()]);
}

#[test]
fn dump_interns_every_name_once() {
    let acqs = vec![
        point("C", "C.m", Some("C.java"), Some(5), "L"),
        point("C", "C.n", None, None, "L"),
    ];
    let mut want = Vec::new();
    for s in ["", "C", "C.m", "C.java", "L", "C.n"] {
        len_delim(&mut want, 1, s.as_bytes());
    }
    packed_u32(&mut want, 2, &[1, 1]);
    packed_u32(&mut want, 3, &[2, 5]);
    packed_u32(&mut want, 4, &[4, 4]);
    packed_u32(&mut want, 5, &[5, 0]);
    packed_u32(&mut want, 6, &[3, 0]);
    assert_eq!(write_proto(&acqs), want);
}

#[test]
fn profile_weighs_edges_by_their_sites() {
    let acqs = vec![
        point("C", "m", Some("F"), Some(5), "L"),
        point("C", "m", Some("F"), Some(9), "L"),
    ];
    let p = pprof::profile(&acqs);
    // the value type, by the place of its strings: "", m, F, L, acquisitions, count
    let mut head = Vec::new();
    pprof::field_varint(&mut head, 1, 4);
    pprof::field_varint(&mut head, 2, 5);
    let mut want = Vec::new();
    pprof::field_bytes(&mut want, 1, &head);
    // one sample: the lock is the leaf, the method above it, two sites
    let mut sample = Vec::new();
    pprof::field_varint(&mut sample, 1, 2);
    pprof::field_varint(&mut sample, 1, 1);
    pprof::field_varint(&mut sample, 2, 2);
    pprof::field_bytes(&mut want, 2, &sample);
    assert!(p.starts_with(&want), "{p:?}");
    for s in ["", "m", "F", "L", "acquisitions", "count"] {
        let mut f = Vec::new();
        pprof::field_bytes(&mut f, 6, s.as_bytes());
        assert!(p.windows(f.len()).any(|w| w == f), "{s}");
    }
}

#[test]
fn graph_is_the_gzipped_profile() {
    let acqs = vec![point("C", "m", None, None, "L")];
    let z = pprof::lock_graph(&acqs).unwrap();
    assert_eq!(&z[..2], &[0x1f, 0x8b]);
    let back = gzip::unpack(z, true);
    assert!(back.whole);
    assert_eq!(back.bytes, pprof::profile(&acqs));
}

#[test]
fn packing_is_undone() {
    let b = b"some bytes, some bytes, some bytes".to_vec();
    let z = gzip::pack(b.clone(), true).unwrap();
    assert_ne!(z, b);
    let back = gzip::unpack(z, true);
    assert!(back.whole);
    assert_eq!(back.bytes, b);
    assert_eq!(gzip::pack(b.clone(), false), Some(b.clone()));
    assert!(!gzip::unpack(b.clone(), true).whole);
    assert_eq!(gzip::unpack(b.clone(), false).bytes, b);
    assert!(gzip::is_gzip("out/locks.pb.gz"));
    assert!(!gzip::is_gzip("out.gz/locks.pb"));
    assert!(!gzip::is_gzip(".gz"));
}

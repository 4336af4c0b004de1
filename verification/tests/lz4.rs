//! LZ4 block decompression.

use dexlock::dex::apex::lz4::{decompress, Lz4Error};

#[test]
fn literals_and_overlapping_match() {
    // token 0x50: 5 literals "abcde", then match len 4 (nibble 0 + 4) at offset 5
    // -> "abcdeabcd"; then a final literal-only token for "!".
    let src = [0x50, b'a', b'b', b'c', b'd', b'e', 0x05, 0x00, 0x10, b'!'];
    assert_eq!(decompress(&src, 10).unwrap(), b"abcdeabcd!");
    // An offset of 1 repeats the last byte: "x" + 6 x 'x'.
    let src = [0x12, b'x', 0x01, 0x00];
    assert_eq!(decompress(&src, 7).unwrap(), b"xxxxxxx");
}

#[test]
fn rejects_bad_offset() {
    assert!(decompress(&[0x10, b'a', 0x09, 0x00], 6).is_err());
}

#[test]
fn nothing_decompresses_to_nothing() {
    assert_eq!(decompress(&[], 0).unwrap(), Vec::<u8>::new());
}

#[test]
fn fewer_bytes_are_a_prefix() {
    let src = [0x50, b'a', b'b', b'c', b'd', b'e', 0x05, 0x00, 0x10, b'!'];
    for n in 0..=10 {
        assert_eq!(decompress(&src, n).unwrap(), b"abcdeabcd!"[..n].to_vec());
    }
    assert_eq!(decompress(&src, 11), Err(Lz4Error::Short { got: 10, expected: 11 }));
}

#[test]
fn padding_is_ignored() {
    let mut src = vec![0x50, b'a', b'b', b'c', b'd', b'e', 0x05, 0x00, 0x10, b'!'];
    src.extend([0xff; 40]);
    assert_eq!(decompress(&src, 10).unwrap(), b"abcdeabcd!");
}

#[test]
fn broken_blocks_are_told_apart() {
    assert_eq!(decompress(&[0xf0], 20), Err(Lz4Error::TruncatedLength));
    assert_eq!(decompress(&[0x50, b'a'], 5), Err(Lz4Error::LiteralsPastEnd));
    assert_eq!(decompress(&[0x10, b'a', 1], 5), Err(Lz4Error::TruncatedOffset));
    assert_eq!(decompress(&[0x10, b'a', 9, 0], 6), Err(Lz4Error::BadOffset { off: 9, len: 1 }));
}

//! The DEX byte reader.

use dexlock::dex::native::reader::{mutf8_to_string, DexError, Reader};

#[test]
fn leb128_numbers() {
    let mut r = Reader::new(&[0xe5, 0x8e, 0x26, 0x7f, 0x80, 0x7f, 0x00]);
    assert_eq!(r.uleb128(), Ok(624485));
    assert_eq!(r.sleb128(), Ok(-1));
    assert_eq!(r.sleb128(), Ok(-128));
    assert_eq!(r.uleb128p1(), Ok(-1));
    assert!(r.u8().is_err());
    let mut long = Reader::new(&[0x80, 0x80, 0x80, 0x80, 0x80, 0x80, 0x01]);
    assert_eq!(long.uleb128(), Err(DexError::UlebTooLong));
    let mut long = Reader::new(&[0x80, 0x80, 0x80, 0x80, 0x80, 0x80, 0x01]);
    assert_eq!(long.sleb128(), Err(DexError::SlebTooLong));
}

#[test]
fn fixed_width_numbers() {
    let mut r = Reader::new(&[1, 2, 3, 4, 5, 6, 7]);
    assert_eq!(r.u8(), Ok(1));
    assert_eq!(r.u16(), Ok(0x0302));
    assert_eq!(r.u32(), Ok(0x0706_0504));
    assert!(r.u16().is_err());
    assert_eq!(r.u32_at(0), Ok(0x0403_0201));
    assert_eq!(r.u16_at(5), Ok(0x0706));
    assert_eq!(r.u32_at(4), Err(DexError::U32Past(4)));
    assert_eq!(r.u16_at(6), Err(DexError::U16Past(6)));
    assert_eq!(DexError::U32Past(4).message(), "u32 read past end at 4");
}

#[test]
fn modified_utf8() {
    assert_eq!(mutf8_to_string(b"plain"), "plain");
    assert_eq!(mutf8_to_string(&[0xc0, 0x80]), "\0");
    assert_eq!(mutf8_to_string(&[0xc3, 0xa9]), "\u{e9}");
    assert_eq!(mutf8_to_string(&[0xe2, 0x82, 0xac]), "\u{20ac}");
    // a surrogate pair, three bytes each
    assert_eq!(mutf8_to_string(&[0xed, 0xa0, 0xbd, 0xed, 0xb8, 0x80]), "\u{1f600}");
    // a surrogate alone
    assert_eq!(mutf8_to_string(&[0xed, 0xa0, 0xbd, b'x']), "\u{fffd}x");
}

#[test]
fn string_data_ends_at_its_nul() {
    let r = Reader::new(&[3, b'a', b'b', b'c', 0, b'd']);
    assert_eq!(r.string_data_at(0), Ok("abc".to_string()));
}

#[test]
fn plain_utf8_reads_as_itself() {
    let s = "plain, \u{e9}, \u{20ac} and \0";
    assert_eq!(mutf8_to_string(s.as_bytes()), s);
    let mut long = s.as_bytes().to_vec();
    long.extend([0xed, 0xa0, 0xbd, 0xed, 0xb8, 0x80, 0xff]);
    assert_eq!(mutf8_to_string(&long), format!("{s}\u{1f600}\u{fffd}"));
}

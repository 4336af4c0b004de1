//! Contention source sites.

use dexlock::site::{is_resolvable, parse};

fn site(file: &str, line: i64) -> Option<(String, i64)> {
    Some((file.to_string(), line))
}

#[test]
fn accepts_real_sites() {
    assert_eq!(parse("Foo.java:12"), site("Foo.java", 12));
    assert_eq!(
        parse("com/example/pkg/Foo.java:9"),
        site("com/example/pkg/Foo.java", 9)
    );
}

#[test]
fn rejects_non_sites() {
    assert!(parse("Foo.java").is_none()); // no line
    assert!(parse("Foo.java:abc").is_none()); // non-numeric
    assert!(parse(":12").is_none()); // no file
    assert!(parse("Foo.java:<lambda>:3").is_none()); // synthetic frame
    assert!(parse("").is_none());
}

#[test]
fn white_space_and_signs() {
    assert_eq!(parse("  Foo.java: 12\t"), site("Foo.java", 12));
    assert_eq!(parse("\u{a0}Foo.java:+12\u{3000}"), site("Foo.java", 12));
    assert_eq!(parse("Foo.java:-1"), site("Foo.java", -1));
    assert_eq!(parse("a:b:7"), site("a:b", 7));
    assert!(parse("Foo.java:").is_none());
    assert!(parse("Foo.java:-").is_none());
    assert!(parse("   ").is_none());
}

#[test]
fn lines_fit_in_64_bits() {
    assert_eq!(parse("F:9223372036854775807"), site("F", i64::MAX));
    assert_eq!(parse("F:-9223372036854775808"), site("F", i64::MIN));
    assert!(parse("F:9223372036854775808").is_none());
    assert!(parse("F:99999999999999999999999999").is_none());
    assert_eq!(parse("F:000000000000000000000000000001"), site("F", 1));
}

#[test]
fn resolvable_sites_parse() {
    assert!(is_resolvable("Foo.java:12"));
    assert!(!is_resolvable("Unknown Source"));
}

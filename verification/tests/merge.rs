//! Merging per-artifact parses.

use dexlock::dex::input::{merge_dexes, parse_inputs, InputError};
use dexlock::dex::model::{Class, Dex, Method};

/// A class in two artifacts is kept once, from the first, so that calls cannot
/// resolve to one copy and orphan another — an orphan has no callers, and
/// "no caller holds a lock" is then read off the call graph as a fact.
#[test]
fn merge_keeps_one_copy_of_a_duplicated_class() {
    let cls = |d: &str, m: &str| Class {
        descriptor: d.to_string(),
        super_class: None,
        interfaces: Vec::new(),
        methods: vec![Method {
            class: d.to_string(),
            name: m.to_string(),
            sig: "()V".to_string(),
            access: 0,
            registers: 0,
            ins: 0,
            insns: Vec::new(),
            positions: Vec::new(),
            catches: Vec::new(),
            source_file: None,
        }],
    };
    let mut a = Dex::default();
    a.classes.push(cls("pkg.Shared", "first"));
    a.classes.push(cls("pkg.OnlyA", "a"));
    let mut b = Dex::default();
    b.classes.push(cls("pkg.Shared", "second"));
    b.classes.push(cls("pkg.OnlyB", "b"));
    let merged = merge_dexes(vec![a, b]);
    let names: Vec<&str> = merged.classes.iter().map(|c| c.descriptor.as_str()).collect();
    assert_eq!(names, ["pkg.Shared", "pkg.OnlyA", "pkg.OnlyB"]);
    // The copy kept is the one from the artifact given first.
    assert_eq!(merged.classes[0].methods[0].name, "first");
}

#[test]
fn merge_preserves_final_or_volatile_fields() {
    let mut a = Dex::default();
    a.final_or_volatile_fields.insert("pkg.A.mState".to_string());
    let mut b = Dex::default();
    b.final_or_volatile_fields.insert("pkg.B.mFlag".to_string());
    let merged = merge_dexes(vec![a, b]);
    assert!(merged.final_or_volatile_fields.contains("pkg.A.mState"));
    assert!(merged.final_or_volatile_fields.contains("pkg.B.mFlag"));
}

#[test]
fn inputs_without_dex_are_refused() {
    assert_eq!(parse_inputs(vec![]).err(), Some(InputError::NoInputs));
    assert_eq!(parse_inputs(vec![vec![]]).err(), Some(InputError::NoDex));
    let bad = parse_inputs(vec![vec![b"no image".to_vec()]]).err().unwrap();
    assert!(matches!(bad, InputError::Bad(_)));
    assert_eq!(InputError::NoInputs.message(), "no inputs to analyze");
    assert_eq!(InputError::NoDex.message(), "no dex found in the given inputs");
    assert_eq!(bad.message(), "not a dex file (bad magic)");
}

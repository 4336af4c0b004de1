//! From a contention table to its locks.

use dexlock::artifact::{base_name, extract_dex_bearing, target_name, ArtifactError};
use dexlock::csv_io::{index_or_push, load, records, save, table, CsvError};
use dexlock::dex::resolve::{ResolveIndex, Site};
use dexlock::dex::Acquisition;
use dexlock::model::{Contention, Query};
use dexlock::pipeline::{group_sites, next, plan, resolve_group, Outcome, Step};
use dexlock::resolver::{build_index, cache_name, is_current, sanitize, Options, Resolver};
use dexlock::traces::{CsvTraceSource, MockTraceSource, TraceSource};
use std::io::Write;

fn site(relpath: &str, line: Option<u32>, lock: &str) -> Site {
    Site { relpath: relpath.to_string(), method: "m".to_string(), line, lock: lock.to_string() }
}

fn index(sites: Vec<Site>) -> ResolveIndex {
    ResolveIndex { version: ResolveIndex::VERSION, sites }
}

fn resolver(fuzz: u32, if_unique: bool) -> Resolver {
    Resolver::new("cache".to_string(), None, Options { fuzz, if_unique })
}

fn one(r: &Resolver, i: &ResolveIndex, s: &str) -> String {
    r.resolve(i, &vec![s.to_string()]).get(s).unwrap().clone()
}

/// Load, group, resolve and save.
fn run(csv: &str, index: &ResolveIndex, compact: bool) -> String {
    let source = CsvTraceSource { csv: csv.as_bytes().to_vec() };
    let mut rows = source.fetch(&Query::default()).unwrap();
    let headers = load(csv.as_bytes()).unwrap().headers;
    let resolver = Resolver::new("cache".to_string(), None, Options::default());
    for group in plan(&rows) {
        if !group_sites(&rows, &group).is_empty() {
            resolve_group(&mut rows, &group, &resolver, index);
        }
    }
    String::from_utf8(save(&headers, &rows, compact).unwrap()).unwrap()
}

#[test]
fn resolves_from_cached_index() {
    let index = index(vec![
        site("demo/Svc.java", Some(10), "demo.Svc.mLock"),
        site("demo/Svc.java", Some(20), "demo.Other.mGuard"),
    ]);
    assert_eq!(cache_name("BUILD1"), "BUILD1.idx.json");
    assert!(is_current(&index));
    let text = run(
        "build_id,device_name,blocked_src,blocking_src,short_blocked_method,short_blocking_method\n\
         BUILD1,demo,Svc.java:10,Svc.java:20,a,b\n\
         BUILD1,demo,Svc.java:20,Svc.java:10,b,a\n",
        &index,
        false,
    );
    assert!(text.contains("resolved_blocked_lock"));
    // Row 1: blocked=Svc.java:10 -> demo.Svc.mLock, blocking=Svc.java:20 -> demo.Other.mGuard
    assert!(text.contains("demo.Svc.mLock"), "output:\n{text}");
    assert!(text.contains("demo.Other.mGuard"), "output:\n{text}");

    // Every data row got both columns filled (no leftover N/A on known sites).
    for line in text.lines().skip(1) {
        assert!(!line.contains("N/A"), "unexpected N/A: {line}");
    }
}

#[test]
fn compact_counts_aggregates() {
    let index = index(vec![site("demo/Svc.java", Some(10), "demo.Svc.mLock")]);
    let mut csv = String::from(
        "build_id,device_name,blocked_src,blocking_src,short_blocked_method,short_blocking_method\n",
    );
    for _ in 0..5 {
        csv.push_str("B,demo,Svc.java:10,Svc.java:10,a,a\n");
    }
    let text = run(&csv, &index, true);
    assert!(text.contains("traces"));
    assert!(text.trim().ends_with(",5"), "expected an aggregate of 5:\n{text}");
}

#[test]
fn lookup_prefers_the_exact_line() {
    let i = index(vec![
        site("a/Foo.java", Some(10), "L1"),
        site("a/Foo.java", Some(12), "L2"),
        site("b/Foo.java", Some(12), "L3"),
        site("a/Bar.java", None, "L4"),
    ]);
    assert_eq!(one(&resolver(0, false), &i, "Foo.java:10"), "L1");
    assert_eq!(one(&resolver(9, true), &i, "x/y/Foo.java:12"), "L2, L3");
    assert_eq!(one(&resolver(0, false), &i, "Foo.java:11"), "N/A");
    assert_eq!(one(&resolver(1, false), &i, "Foo.java:11"), "L1, L2, L3");
    assert_eq!(one(&resolver(3, false), &i, "Foo.java:8"), "L1");
    assert_eq!(one(&resolver(1, false), &i, "Foo.java:8"), "N/A");
    assert_eq!(one(&resolver(0, true), &i, "Bar.java:3"), "L4");
    assert_eq!(one(&resolver(0, false), &i, "Bar.java:3"), "N/A");
    assert_eq!(one(&resolver(0, true), &i, "Foo.java:99"), "N/A");
    assert_eq!(one(&resolver(0, true), &i, "Other.java:1"), "N/A");
    assert_eq!(one(&resolver(0, true), &i, "no site"), "N/A");
    let asked = vec!["Foo.java:10".to_string()];
    assert!(resolver(0, false).resolve(&i, &asked).get("Foo.java:12").is_none());
}

#[test]
fn projection_places_sites_in_their_files() {
    let acq = |class: &str, file: Option<&str>, lock: &str| Acquisition {
        class: class.to_string(),
        method: format!("{class}.m:()V"),
        source_file: file.map(|f| f.to_string()),
        line: Some(3),
        lock: lock.to_string(),
    };
    let i = ResolveIndex::from_acquisitions(&vec![
        acq("com.example.Foo$1", Some("Foo.java"), "com.example.Foo.mLock"),
        acq("com.example.Bar$Inner$2", None, "L"),
        acq("Top", None, "T"),
        acq("com.example.Foo", Some("Foo.java"), "?@escaped"),
    ]);
    let paths: Vec<&str> = i.sites.iter().map(|s| s.relpath.as_str()).collect();
    assert_eq!(paths, ["com/example/Foo.java", "com/example/Bar.java", "Top.java"]);
    assert_eq!(i.version, 1);
    assert_eq!(i.sites[0].method, "com.example.Foo$1.m:()V");
}

#[test]
fn index_of_nothing_is_refused() {
    assert!(build_index(vec![]).is_err());
    assert!(!is_current(&ResolveIndex { version: 0, sites: vec![] }));
}

#[test]
fn sanitizes_build_ids() {
    assert_eq!(sanitize("a/b c:d"), "a_b_c_d");
    assert_eq!(sanitize("AP1A.240305-x_9"), "AP1A.240305-x_9");
    assert_eq!(sanitize("\u{e9}"), "_");
    assert_eq!(sanitize(&sanitize("a/b c:d")), sanitize("a/b c:d"));
}

#[test]
fn groups_come_largest_first() {
    let mut rows = MockTraceSource::synthetic("B1", "d", &[("F.java:1", "F.java:2")], 1).rows;
    rows.extend(MockTraceSource::synthetic("B2", "d", &[("F.java:1", "none"), ("F.java:3", "F.java:1")], 3).rows);
    rows.extend(MockTraceSource::synthetic("B1", "d", &[("G.java:1", "<x>")], 1).rows);
    let gs = plan(&rows);
    assert_eq!(gs.len(), 2);
    assert_eq!((gs[0].build_id.as_str(), gs[0].rows.clone()), ("B2", vec![1, 2, 3]));
    assert_eq!((gs[1].build_id.as_str(), gs[1].rows.clone()), ("B1", vec![0, 4]));
    assert_eq!(group_sites(&rows, &gs[0]), ["F.java:1", "F.java:3"]);
    assert_eq!(group_sites(&rows, &gs[1]), ["F.java:1", "F.java:2", "G.java:1"]);
    let i = index(vec![site("F.java", Some(1), "L")]);
    resolve_group(&mut rows, &gs[0], &resolver(0, false), &i);
    assert_eq!(rows[1].resolved_blocked_lock, "L");
    assert_eq!(rows[1].resolved_blocking_lock, "N/A");
    assert_eq!(rows[2].resolved_blocking_lock, "L");
    assert_eq!(rows[0].resolved_blocked_lock, "N/A"); // another group
}

#[test]
fn synthetic_rows_alternate_their_sites() {
    let m = MockTraceSource::synthetic("B", "dev", &[("a:1", "b:2"), ("c:3", "d:4")], 3);
    let rows = m.fetch(&Query::default()).unwrap();
    assert_eq!(rows.len(), 3);
    assert_eq!(rows[2].blocked_src, "a:1");
    assert_eq!(rows[1].raw, ["B", "dev", "c:3", "d:4"]);
    assert_eq!(rows[0].group_key(), ("B".to_string(), "dev".to_string()));
    assert_eq!(MockTraceSource::synthetic("B", "dev", &[], 0).rows.len(), 0);
}

const HEADER: &str =
    "build_id,device_name,blocked_src,blocking_src,short_blocked_method,short_blocking_method";

#[test]
fn queries_select_rows() {
    let csv = format!("{HEADER}\nB1,d1,a:1,b:2,x,y\nB2,d1,a:1,b:2,x,y\nB1,d2,a:1,b:2,x,y\nB1,d1,c:1,b:2,x,y\n");
    let source = CsvTraceSource { csv: csv.into_bytes() };
    let fetch = |limit: usize, build: Option<&str>, device: Option<&str>| {
        let q = Query {
            limit,
            last_days: 0,
            build_id: build.map(|b| b.to_string()),
            device: device.map(|d| d.to_string()),
        };
        source.fetch(&q).unwrap().len()
    };
    assert_eq!(fetch(0, None, None), 4);
    assert_eq!(fetch(3, None, None), 3);
    assert_eq!(fetch(0, Some("B1"), None), 3);
    assert_eq!(fetch(0, Some("B1"), Some("d1")), 2);
    assert_eq!(fetch(1, Some("B1"), Some("d1")), 1);
    assert_eq!(fetch(0, Some("none"), None), 0);
    let bad = CsvTraceSource { csv: b"a,b\n1,2\n".to_vec() };
    assert_eq!(bad.fetch(&Query::default()).unwrap_err(), "missing column 'build_id' in CSV");
}

#[test]
fn fields_are_trimmed_and_raw_is_kept() {
    let csv = format!("extra,{HEADER}\n\"x,1\", B1 ,d, F.java:1 ,F.java:2,m,n\n");
    let t = load(csv.as_bytes()).unwrap();
    assert_eq!(t.headers[0], "extra");
    assert_eq!(t.rows[0].build_id, "B1");
    assert_eq!(t.rows[0].blocked_src, "F.java:1");
    assert_eq!(t.rows[0].raw[0], "x,1");
    assert_eq!(t.rows[0].raw[1], " B1 ");
    assert_eq!(t.rows[0].resolved_blocked_lock, "N/A");
    let out = String::from_utf8(save(&t.headers, &t.rows, false).unwrap()).unwrap();
    assert_eq!(
        out,
        format!("extra,{HEADER},resolved_blocked_lock,resolved_blocking_lock\n\"x,1\", B1 ,d, F.java:1 ,F.java:2,m,n,N/A,N/A\n")
    );
}

#[test]
fn resolved_columns_are_overwritten_in_place() {
    let csv = format!("resolved_blocking_lock,{HEADER}\nold,B,d,a:1,b:2,m,n\n");
    let mut t = load(csv.as_bytes()).unwrap();
    t.rows[0].resolved_blocking_lock = "K".to_string();
    t.rows[0].resolved_blocked_lock = "L".to_string();
    let all = records(&t.headers, &t.rows, false);
    assert_eq!(all[0].last().unwrap(), "resolved_blocked_lock");
    assert_eq!(all[0].len(), 8);
    assert_eq!(all[1][0], "K");
    assert_eq!(all[1][7], "L");
}

#[test]
fn bad_tables_are_refused() {
    let missing = load(b"build_id,device_name\n1,2\n").unwrap_err();
    assert!(matches!(&missing, CsvError::Missing(c) if c == "blocked_src"));
    assert_eq!(missing.message(), "missing column 'blocked_src' in CSV");
    let uneven = load(format!("{HEADER}\nB,d,a:1\n").as_bytes()).unwrap_err();
    assert!(matches!(uneven, CsvError::Parse(_)));
    assert!(matches!(load(b"\xff\xfe,x\n").unwrap_err(), CsvError::Parse(_)));
    // a missing column is reported before a bad record
    assert!(matches!(load(b"a,b\n1\n").unwrap_err(), CsvError::Missing(_)));
    let headers: Vec<String> = HEADER.split(',').map(|h| h.to_string()).collect();
    let e = table(headers, Err("bad record".to_string())).unwrap_err();
    assert_eq!(e.message(), "bad record");
}

#[test]
fn short_rows_are_filled_up_and_long_ones_refused() {
    let headers: Vec<String> = HEADER.split(',').map(|h| h.to_string()).collect();
    let mut rows = MockTraceSource::synthetic("B", "d", &[("a:1", "b:2")], 1).rows;
    let all = records(&headers, &rows, false);
    assert_eq!(all[1], ["B", "d", "a:1", "b:2", "", "", "N/A", "N/A"]);
    rows[0].raw.extend(["".to_string(), "".to_string(), "".to_string(), "".to_string(), "".to_string()]);
    assert!(save(&headers, &rows, false).is_err());
}

#[test]
fn aggregate_is_sorted_by_count() {
    let row = |b: &str, k: &str| Contention {
        resolved_blocked_lock: b.to_string(),
        resolved_blocking_lock: k.to_string(),
        ..MockTraceSource::synthetic("B", "d", &[("a:1", "b:2")], 1).rows.remove(0)
    };
    let rows = vec![row("Y", "K"), row("X", "K"), row("Z", "K"), row("Z", "K")];
    let all = records(&Vec::new(), &rows, true);
    assert_eq!(
        all[0],
        ["resolved_blocked_lock", "resolved_blocking_lock", "short_blocked_method", "short_blocking_method", "traces"]
    );
    assert_eq!(all[1], ["Z", "K", "blocked", "blocking", "2"]);
    assert_eq!(all[2], ["X", "K", "blocked", "blocking", "1"]);
    assert_eq!(all[3], ["Y", "K", "blocked", "blocking", "1"]);
    assert_eq!(all.len(), 4);
}

#[test]
fn column_index_is_found_or_made() {
    let mut h = vec!["a".to_string(), "b".to_string()];
    assert_eq!(index_or_push(&mut h, "b"), 1);
    assert_eq!(index_or_push(&mut h, "c"), 2);
    assert_eq!(h, ["a", "b", "c"]);
}

fn zip(entries: &[(&str, &[u8])]) -> Vec<u8> {
    let mut w = zip::ZipWriter::new(std::io::Cursor::new(Vec::new()));
    for (name, data) in entries {
        w.start_file(*name, zip::write::SimpleFileOptions::default()).unwrap();
        w.write_all(data).unwrap();
    }
    w.finish().unwrap().into_inner()
}

#[test]
fn archive_is_unpacked_flat() {
    let z = zip(&[("a/x.jar", b"one"), ("notes.txt", b"no"), ("b/x.jar", b"two"), ("c.apk", b"three")]);
    let files = extract_dex_bearing(z).unwrap();
    let got: Vec<(&str, &[u8])> = files.iter().map(|f| (f.name.as_str(), f.data.as_slice())).collect();
    assert_eq!(
        got,
        [("0000_x.jar", &b"one"[..]), ("0002_x.jar", &b"two"[..]), ("0003_c.apk", &b"three"[..])]
    );
    assert_eq!(extract_dex_bearing(b"no archive".to_vec()).err(), Some(ArtifactError::Archive));
    assert_eq!(ArtifactError::Archive.message(), "not a zip archive");
    assert_eq!(target_name(12345, "x/y.jar"), "12345_y.jar");
    assert_eq!(base_name("x/y.jar"), "y.jar");
    let mut broken = zip(&[("a.jar", b"payload")]);
    let at = broken.windows(7).position(|w| w == b"payload");
    if let Some(at) = at {
        broken[at] ^= 1;
        assert_eq!(extract_dex_bearing(broken).err(), Some(ArtifactError::Entry));
    }
}

#[test]
fn run_passes_over_what_cannot_be_had() {
    let one = || vec!["A.java:1".to_string()];
    let sites = vec![Vec::new(), one(), one(), Vec::new(), one(), Vec::new()];
    assert_eq!(next(&sites, 0, Outcome::Began), (1, Step::Fetch));
    assert_eq!(next(&sites, 1, Outcome::Fetched(true)), (1, Step::Index));
    assert_eq!(next(&sites, 1, Outcome::Indexed(true)), (1, Step::Resolve));
    assert_eq!(next(&sites, 1, Outcome::Resolved), (2, Step::Fetch));
    assert_eq!(next(&sites, 2, Outcome::Fetched(false)), (4, Step::Fetch));
    assert_eq!(next(&sites, 2, Outcome::Indexed(false)), (4, Step::Fetch));
    assert_eq!(next(&sites, 4, Outcome::Resolved), (6, Step::Finish));
    assert_eq!(next(&sites, 6, Outcome::Began), (6, Step::Finish));
    assert_eq!(next(&Vec::new(), 0, Outcome::Began), (0, Step::Finish));
}

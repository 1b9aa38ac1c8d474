use dircmp::digest::hash_file;
use dircmp::snapshot::{Snapshot, build_snapshot, snapshot_from_entries};
use dircmp::codec::{save_snapshot, load_snapshot};

fn listing(entries: &[(&str, &[u8])]) -> Vec<(String, Vec<u8>)> {
    entries.iter().map(|(p, b)| (p.to_string(), b.to_vec())).collect()
}

fn entries_of(s: &Snapshot) -> Vec<(String, String)> {
    let mut out = Vec::new();
    let mut i: usize = 0;
    while i < s.len() {
        out.push(s.entry_at(i));
        i += 1;
    }
    out
}

#[test]
fn digest_is_deterministic() {
    let x = b"x".to_vec();
    let x2 = b"x".to_vec();
    let y = b"y".to_vec();
    assert_eq!(hash_file(&x), hash_file(&x2));
    assert_ne!(hash_file(&x), hash_file(&y));
}

#[test]
fn digest_is_a_real_hex_digest() {
    let x = b"x".to_vec();
    let d = hash_file(&x);
    assert_ne!(d, "x");
    assert_eq!(d.len(), 64);
    assert!(d.chars().all(|c| c.is_ascii_hexdigit()));
    let empty = Vec::new();
    let d0 = hash_file(&empty);
    assert_eq!(d0.len(), 64);
    assert_ne!(d0, d);
}

#[test]
fn snapshot_of_two_files() {
    let files = listing(&[("a.txt", b"x"), ("sub/b.txt", b"y")]);
    let snap = build_snapshot(&files);
    assert_eq!(snap.len(), 2);
    assert_eq!(snap.get(&"a.txt".to_string()), Some(&hash_file(&b"x".to_vec())));
    assert_eq!(snap.get(&"sub/b.txt".to_string()), Some(&hash_file(&b"y".to_vec())));
    assert_eq!(snap.get(&"c.txt".to_string()), None);
}

#[test]
fn snapshot_contains_every_listed_file() {
    let files = listing(&[("a", b"1"), ("b/c", b"2"), ("d/e/f", b"3")]);
    let snap = build_snapshot(&files);
    for (p, _) in &files {
        assert!(snap.get(p).is_some());
    }
    assert_eq!(snap.len(), 3);
}

#[test]
fn snapshot_does_not_depend_on_listing_order() {
    let files1 = listing(&[("a.txt", b"x"), ("sub/b.txt", b"y")]);
    let files2 = listing(&[("sub/b.txt", b"y"), ("a.txt", b"x")]);
    let s1 = build_snapshot(&files1);
    let s2 = build_snapshot(&files2);
    assert_eq!(entries_of(&s1), entries_of(&s2));
}

#[test]
fn entries_come_out_sorted_by_path() {
    let mut snap = Snapshot::new();
    snap.insert("sub/b.txt".to_string(), "h2".to_string());
    snap.insert("a.txt".to_string(), "h1".to_string());
    assert_eq!(snap.len(), 2);
    assert_eq!(snap.entry_at(0), ("a.txt".to_string(), "h1".to_string()));
    assert_eq!(snap.entry_at(1), ("sub/b.txt".to_string(), "h2".to_string()));
}

#[test]
fn sorting_handles_prefixes_and_code_points() {
    let mut snap = Snapshot::new();
    snap.insert("ab".to_string(), "h3".to_string());
    snap.insert("a.txt".to_string(), "h2".to_string());
    snap.insert("a".to_string(), "h1".to_string());
    // "a" is a prefix of both; "." sorts below "b" by code point.
    assert_eq!(snap.entry_at(0).0, "a");
    assert_eq!(snap.entry_at(1).0, "a.txt");
    assert_eq!(snap.entry_at(2).0, "ab");
}

#[test]
fn insert_replaces_an_existing_path() {
    let mut snap = Snapshot::new();
    snap.insert("a.txt".to_string(), "h1".to_string());
    snap.insert("a.txt".to_string(), "h2".to_string());
    assert_eq!(snap.len(), 1);
    assert_eq!(snap.get(&"a.txt".to_string()), Some(&"h2".to_string()));
}

#[test]
fn round_trip_keeps_every_entry() {
    let files = listing(&[("a.txt", b"x"), ("sub/b.txt", b"y"), ("z", b"")]);
    let snap = build_snapshot(&files);
    let bytes = save_snapshot(&snap);
    let loaded = load_snapshot(&bytes).expect("a saved snapshot loads back");
    assert_eq!(entries_of(&snap), entries_of(&loaded));
}

#[test]
fn round_trip_of_the_empty_snapshot() {
    let snap = Snapshot::new();
    let bytes = save_snapshot(&snap);
    let loaded = load_snapshot(&bytes).expect("a saved snapshot loads back");
    assert_eq!(loaded.len(), 0);
}

#[test]
fn save_then_load_returns_the_same_snapshot() {
    let files = listing(&[("a.txt", b"x"), ("sub/b.txt", b"y")]);
    let snap = build_snapshot(&files);
    let back = dircmp::codec::save_then_load(&snap);
    assert_eq!(entries_of(&snap), entries_of(&back));
}

#[test]
fn save_is_deterministic_and_injective() {
    let files = listing(&[("a.txt", b"x")]);
    let other = listing(&[("a.txt", b"y")]);
    assert_eq!(save_snapshot(&build_snapshot(&files)), save_snapshot(&build_snapshot(&files)));
    assert_ne!(save_snapshot(&build_snapshot(&files)), save_snapshot(&build_snapshot(&other)));
}

#[test]
fn malformed_bytes_are_a_decode_error() {
    // Claims a huge entry count with no data behind it.
    let bytes = vec![9u8, 0, 0, 0, 0, 0, 0, 0];
    assert!(load_snapshot(&bytes).is_err());
    let empty = Vec::new();
    assert!(load_snapshot(&empty).is_err());
}

#[test]
fn only_sorted_entry_lists_make_a_snapshot() {
    let sorted = vec![
        ("a.txt".to_string(), "h1".to_string()),
        ("b.txt".to_string(), "h2".to_string()),
    ];
    assert!(snapshot_from_entries(sorted).is_some());
    let unsorted = vec![
        ("b.txt".to_string(), "h2".to_string()),
        ("a.txt".to_string(), "h1".to_string()),
    ];
    assert!(snapshot_from_entries(unsorted).is_none());
    let duplicate = vec![
        ("a.txt".to_string(), "h1".to_string()),
        ("a.txt".to_string(), "h2".to_string()),
    ];
    assert!(snapshot_from_entries(duplicate).is_none());
}

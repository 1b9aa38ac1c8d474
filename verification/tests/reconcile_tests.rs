use dircmp::reconcile::{Classification, reconcile};
use dircmp::snapshot::build_snapshot;

fn listing(entries: &[(&str, &[u8])]) -> Vec<(String, Vec<u8>)> {
    entries.iter().map(|(p, b)| (p.to_string(), b.to_vec())).collect()
}

#[test]
fn unchanged_directory_reports_nothing() {
    let files = listing(&[("a.txt", b"x"), ("sub/b.txt", b"y")]);
    let record = build_snapshot(&files);
    let out = reconcile(&files, &record);
    assert!(out.is_empty());
}

#[test]
fn deleted_and_added_files_are_reported() {
    let before = listing(&[("a.txt", b"x"), ("sub/b.txt", b"y")]);
    let record = build_snapshot(&before);
    // sub/b.txt deleted, c.txt added, a.txt untouched.
    let changed = listing(&[("a.txt", b"x"), ("c.txt", b"z")]);
    let out = reconcile(&changed, &record);
    assert_eq!(out, vec![
        Classification::OnlyInDirectory("c.txt".to_string()),
        Classification::OnlyInRecord("sub/b.txt".to_string()),
    ]);
}

#[test]
fn overwritten_file_differs() {
    let before = listing(&[("a.txt", b"x"), ("sub/b.txt", b"y")]);
    let record = build_snapshot(&before);
    let changed = listing(&[("a.txt", b"x2"), ("sub/b.txt", b"y")]);
    let out = reconcile(&changed, &record);
    assert_eq!(out, vec![Classification::Differs("a.txt".to_string())]);
}

#[test]
fn empty_directory_reports_every_record_entry() {
    let before = listing(&[("m.txt", b"1"), ("a.txt", b"2"), ("z.txt", b"3")]);
    let record = build_snapshot(&before);
    let empty = Vec::new();
    let out = reconcile(&empty, &record);
    // One line per recorded file, in path-sorted order, nothing else.
    assert_eq!(out, vec![
        Classification::OnlyInRecord("a.txt".to_string()),
        Classification::OnlyInRecord("m.txt".to_string()),
        Classification::OnlyInRecord("z.txt".to_string()),
    ]);
}

#[test]
fn empty_record_reports_every_directory_file() {
    let record = build_snapshot(&Vec::new());
    let files = listing(&[("a.txt", b"x"), ("b.txt", b"y")]);
    let out = reconcile(&files, &record);
    assert_eq!(out, vec![
        Classification::OnlyInDirectory("a.txt".to_string()),
        Classification::OnlyInDirectory("b.txt".to_string()),
    ]);
}

#[test]
fn mixed_changes_partition_the_paths() {
    let before = listing(&[("keep", b"k"), ("gone", b"g"), ("edit", b"1")]);
    let record = build_snapshot(&before);
    let changed = listing(&[("keep", b"k"), ("edit", b"2"), ("new", b"n")]);
    let out = reconcile(&changed, &record);
    // Walk-order classifications first, then the unobserved record entries.
    assert_eq!(out, vec![
        Classification::Differs("edit".to_string()),
        Classification::OnlyInDirectory("new".to_string()),
        Classification::OnlyInRecord("gone".to_string()),
    ]);
}

#[test]
fn live_classifications_follow_walk_order() {
    let record = build_snapshot(&Vec::new());
    let files = listing(&[("z.txt", b"x"), ("a.txt", b"y")]);
    let out = reconcile(&files, &record);
    assert_eq!(out, vec![
        Classification::OnlyInDirectory("z.txt".to_string()),
        Classification::OnlyInDirectory("a.txt".to_string()),
    ]);
}

//! Properties that tie the snapshot builder, the record codec and the
//! reconciler together.

use vstd::prelude::*;
use crate::digest::digest_of;
use crate::order::{lex_lt, lemma_lex_lt_asymmetric};
use crate::snapshot::{spec_build, lookup, has_key, sorted_unique, lemma_lex_insert_lookup};
use crate::reconcile::{ClassV, live_classes, record_only, spec_reconcile, paths_of,
    class_of_file};

verus! {

/// No two files of a directory listing share a relative path: what one walk
/// of a real filesystem tree yields.
pub open spec fn unique_paths(files: Seq<(Seq<char>, Seq<u8>)>) -> bool {
    forall|i: int, j: int| 0 <= i < j < files.len() ==> files[i].0 != files[j].0
}

/// Law: digests and snapshots are functions of their inputs alone — the same
/// byte content always has the same digest, and the same directory listing
/// always builds the same snapshot.
pub proof fn lemma_deterministic(
    b1: Seq<u8>,
    b2: Seq<u8>,
    f1: Seq<(Seq<char>, Seq<u8>)>,
    f2: Seq<(Seq<char>, Seq<u8>)>,
)
    requires
        b1 == b2,
        f1 == f2,
    ensures
        digest_of(b1) == digest_of(b2),
        spec_build(f1) == spec_build(f2),
{
}

/// A prefix of a listing with unique paths has unique paths.
proof fn lemma_unique_drop_last(files: Seq<(Seq<char>, Seq<u8>)>)
    requires
        unique_paths(files),
        files.len() > 0,
    ensures
        unique_paths(files.drop_last()),
{
    assert forall|i: int, j: int| 0 <= i < j < files.drop_last().len()
        implies files.drop_last()[i].0 != files.drop_last()[j].0 by {
        assert(files.drop_last()[i] == files[i]);
        assert(files.drop_last()[j] == files[j]);
    }
}

/// In the snapshot built from a listing with unique paths, every file's path
/// is recorded with exactly the digest of that file's bytes.
pub proof fn lemma_build_lookup(files: Seq<(Seq<char>, Seq<u8>)>, i: int)
    requires
        unique_paths(files),
        0 <= i < files.len(),
    ensures
        lookup(spec_build(files), files[i].0) == Some(digest_of(files[i].1)),
    decreases files.len(),
{
    let dl = files.drop_last();
    let last = files.last();
    lemma_lex_insert_lookup(spec_build(dl), last.0, digest_of(last.1), files[i].0);
    if i == files.len() - 1 {
        assert(files[i] == last);
    } else {
        assert(files[i].0 != last.0);
        lemma_unique_drop_last(files);
        lemma_build_lookup(dl, i);
        assert(dl[i] == files[i]);
    }
}

/// Law: completeness — the snapshot of a directory listing has a key equal to
/// each listed file's relative path.
pub proof fn lemma_build_complete(files: Seq<(Seq<char>, Seq<u8>)>, i: int)
    requires
        0 <= i < files.len(),
    ensures
        has_key(spec_build(files), files[i].0),
    decreases files.len(),
{
    let dl = files.drop_last();
    let last = files.last();
    lemma_lex_insert_lookup(spec_build(dl), last.0, digest_of(last.1), files[i].0);
    if i < files.len() - 1 {
        lemma_build_complete(dl, i);
        assert(dl[i] == files[i]);
        if files[i].0 != last.0 {
            assert(lookup(spec_build(files), files[i].0) == lookup(spec_build(dl), files[i].0));
        }
    } else {
        assert(files[i] == last);
    }
}

/// Every key of the built snapshot is the path of some listed file.
pub proof fn lemma_build_key_from_files(files: Seq<(Seq<char>, Seq<u8>)>, k: Seq<char>)
    requires
        has_key(spec_build(files), k),
    ensures
        paths_of(files).contains(k),
    decreases files.len(),
{
    if files.len() == 0 {
        assert(lookup(spec_build(files), k) is None);
    } else {
        let dl = files.drop_last();
        let last = files.last();
        lemma_lex_insert_lookup(spec_build(dl), last.0, digest_of(last.1), k);
        if k == last.0 {
            assert(paths_of(files)[files.len() - 1] == k);
        } else {
            lemma_build_key_from_files(dl, k);
            let t = choose|t: int| 0 <= t < paths_of(dl).len() && paths_of(dl)[t] == k;
            assert(paths_of(dl)[t] == dl[t].0);
            assert(dl[t] == files[t]);
            assert(paths_of(files)[t] == k);
        }
    }
}

/// Every entry of a list is found by a lookup of its own path.
pub proof fn lemma_index_has_key(s: Seq<(Seq<char>, Seq<char>)>, t: int)
    requires
        0 <= t < s.len(),
    ensures
        has_key(s, s[t].0),
    decreases t,
{
    if s[0].0 != s[t].0 {
        assert(t > 0);
        assert(s.drop_first()[t - 1] == s[t]);
        lemma_index_has_key(s.drop_first(), t - 1);
    }
}

/// A walk whose every file agrees with the record emits nothing.
proof fn lemma_live_all_match(
    files: Seq<(Seq<char>, Seq<u8>)>,
    rec: Seq<(Seq<char>, Seq<char>)>,
)
    requires
        forall|t: int| 0 <= t < files.len()
            ==> lookup(rec, #[trigger] files[t].0) == Some(digest_of(files[t].1)),
    ensures
        live_classes(files, rec) =~= Seq::<ClassV>::empty(),
    decreases files.len(),
{
    if files.len() > 0 {
        let dl = files.drop_last();
        assert forall|t: int| 0 <= t < dl.len()
            implies lookup(rec, #[trigger] dl[t].0) == Some(digest_of(dl[t].1)) by {
            assert(dl[t] == files[t]);
        }
        lemma_live_all_match(dl, rec);
        assert(files.last() == files[files.len() - 1]);
        assert(class_of_file(files.last(), rec) =~= Seq::<ClassV>::empty());
    }
}

/// A record whose every path was observed adds nothing after the walk.
proof fn lemma_record_only_all_seen(rec: Seq<(Seq<char>, Seq<char>)>, seen: Seq<Seq<char>>)
    requires
        forall|t: int| 0 <= t < rec.len() ==> seen.contains(#[trigger] rec[t].0),
    ensures
        record_only(rec, seen) =~= Seq::<ClassV>::empty(),
    decreases rec.len(),
{
    if rec.len() > 0 {
        let dl = rec.drop_last();
        assert forall|t: int| 0 <= t < dl.len() implies seen.contains(#[trigger] dl[t].0) by {
            assert(dl[t] == rec[t]);
        }
        lemma_record_only_all_seen(dl, seen);
        assert(seen.contains(rec[rec.len() - 1].0));
    }
}

/// Law: idempotence of comparison — reconciling a directory listing against
/// the record just built from it yields no classification at all.
pub proof fn lemma_compare_self(files: Seq<(Seq<char>, Seq<u8>)>)
    requires
        unique_paths(files),
    ensures
        spec_reconcile(files, spec_build(files)) =~= Seq::<ClassV>::empty(),
{
    let rec = spec_build(files);
    assert forall|t: int| 0 <= t < files.len()
        implies lookup(rec, #[trigger] files[t].0) == Some(digest_of(files[t].1)) by {
        lemma_build_lookup(files, t);
    }
    lemma_live_all_match(files, rec);
    assert forall|t: int| 0 <= t < rec.len()
        implies paths_of(files).contains(#[trigger] rec[t].0) by {
        lemma_index_has_key(rec, t);
        lemma_build_key_from_files(files, rec[t].0);
    }
    lemma_record_only_all_seen(rec, paths_of(files));
}

/// Under a strictly sorted entry list, a path never recurs past its entry.
proof fn lemma_sorted_head_not_in_tail(s: Seq<(Seq<char>, Seq<char>)>)
    requires
        sorted_unique(s),
        s.len() > 0,
    ensures
        lookup(s.drop_first(), s[0].0) is None,
{
    let tail = s.drop_first();
    lemma_has_key_index(tail, s[0].0);
    if has_key(tail, s[0].0) {
        let t = choose|t: int| 0 <= t < tail.len() && tail[t].0 == s[0].0;
        assert(tail[t] == s[t + 1]);
        assert(lex_lt(s[0].0, s[t + 1].0));
        lemma_lex_lt_asymmetric(s[0].0, s[0].0);
    }
}

/// Law: canonical form — two well-formed snapshots that record the same
/// digest for every path (and so have the same keys) have equal entry lists,
/// whatever order their entries were inserted in.
pub proof fn lemma_snapshot_canonical(
    s1: Seq<(Seq<char>, Seq<char>)>,
    s2: Seq<(Seq<char>, Seq<char>)>,
)
    requires
        sorted_unique(s1),
        sorted_unique(s2),
        forall|k: Seq<char>| lookup(s1, k) == lookup(s2, k),
    ensures
        s1 == s2,
    decreases s1.len(),
{
    if s1.len() == 0 && s2.len() == 0 {
        assert(s1 =~= s2);
    } else if s1.len() == 0 {
        lemma_index_has_key(s2, 0);
        assert(lookup(s1, s2[0].0) is None);
        assert(false);
    } else if s2.len() == 0 {
        lemma_index_has_key(s1, 0);
        assert(lookup(s2, s1[0].0) is None);
        assert(false);
    } else {
        let k1 = s1[0].0;
        let k2 = s2[0].0;
        assert(lookup(s1, k1) == Some(s1[0].1));
        assert(lookup(s2, k2) == Some(s2[0].1));
        if k1 != k2 {
            lemma_has_key_index(s2, k1);
            let t = choose|t: int| 0 <= t < s2.len() && s2[t].0 == k1;
            assert(t > 0);
            assert(lex_lt(k2, k1));
            lemma_has_key_index(s1, k2);
            let u = choose|u: int| 0 <= u < s1.len() && s1[u].0 == k2;
            assert(u > 0);
            assert(lex_lt(k1, k2));
            lemma_lex_lt_asymmetric(k1, k2);
            assert(false);
        }
        assert(s1[0].1 == s2[0].1);
        let t1 = s1.drop_first();
        let t2 = s2.drop_first();
        assert forall|i: int, j: int| 0 <= i < j < t1.len()
            implies lex_lt(t1[i].0, t1[j].0) by {
            assert(t1[i] == s1[i + 1]);
            assert(t1[j] == s1[j + 1]);
        }
        assert forall|i: int, j: int| 0 <= i < j < t2.len()
            implies lex_lt(t2[i].0, t2[j].0) by {
            assert(t2[i] == s2[i + 1]);
            assert(t2[j] == s2[j + 1]);
        }
        lemma_sorted_head_not_in_tail(s1);
        lemma_sorted_head_not_in_tail(s2);
        assert forall|k: Seq<char>| lookup(t1, k) == lookup(t2, k) by {
            if k == k1 {
            } else {
                assert(lookup(s1, k) == lookup(t1, k));
                assert(lookup(s2, k) == lookup(t2, k));
            }
        }
        lemma_snapshot_canonical(t1, t2);
        assert(s1 =~= s2) by {
            assert forall|i: int| 0 <= i < s1.len() implies s1[i] == s2[i] by {
                if i > 0 {
                    assert(s1[i] == t1[i - 1]);
                    assert(s2[i] == t2[i - 1]);
                }
            }
        }
    }
}

/// Membership in a concatenation is membership in either part.
proof fn lemma_contains_concat<A>(a: Seq<A>, b: Seq<A>, x: A)
    ensures
        (a + b).contains(x) <==> a.contains(x) || b.contains(x),
{
    if (a + b).contains(x) {
        let i = choose|i: int| 0 <= i < (a + b).len() && (a + b)[i] == x;
        if i < a.len() {
            assert(a[i] == x);
        } else {
            assert(b[i - a.len()] == x);
        }
    }
    if a.contains(x) {
        let i = choose|i: int| 0 <= i < a.len() && a[i] == x;
        assert((a + b)[i] == x);
    }
    if b.contains(x) {
        let i = choose|i: int| 0 <= i < b.len() && b[i] == x;
        assert((a + b)[a.len() + i] == x);
    }
}

/// A singleton holds exactly its one element.
proof fn lemma_contains_singleton<A>(x: A, y: A)
    ensures
        seq![x].contains(y) <==> x == y,
{
    if seq![x].contains(y) {
        let i = choose|i: int| 0 <= i < seq![x].len() && seq![x][i] == y;
        assert(i == 0);
    }
    assert(seq![x][0] == x);
}

/// Whether a path was observed in the directory listing.
pub open spec fn in_directory(files: Seq<(Seq<char>, Seq<u8>)>, p: Seq<char>) -> bool {
    paths_of(files).contains(p)
}

/// Whether a path is a key of the record.
pub open spec fn in_record(rec: Seq<(Seq<char>, Seq<char>)>, p: Seq<char>) -> bool {
    has_key(rec, p)
}

/// The digest of the first listed file with the given path, if any.
pub open spec fn file_digest(files: Seq<(Seq<char>, Seq<u8>)>, p: Seq<char>) -> Option<Seq<char>>
    decreases files.len(),
{
    if files.len() == 0 {
        None
    } else if file_digest(files.drop_last(), p) is Some {
        file_digest(files.drop_last(), p)
    } else if files.last().0 == p {
        Some(digest_of(files.last().1))
    } else {
        None
    }
}

/// Status: observed in the directory, not known to the record.
pub open spec fn status_only_in_directory(
    files: Seq<(Seq<char>, Seq<u8>)>,
    rec: Seq<(Seq<char>, Seq<char>)>,
    p: Seq<char>,
) -> bool {
    in_directory(files, p) && !in_record(rec, p)
}

/// Status: known to the record, never observed in the directory.
pub open spec fn status_only_in_record(
    files: Seq<(Seq<char>, Seq<u8>)>,
    rec: Seq<(Seq<char>, Seq<char>)>,
    p: Seq<char>,
) -> bool {
    !in_directory(files, p) && in_record(rec, p)
}

/// Status: present on both sides with disagreeing digests.
pub open spec fn status_differs(
    files: Seq<(Seq<char>, Seq<u8>)>,
    rec: Seq<(Seq<char>, Seq<char>)>,
    p: Seq<char>,
) -> bool {
    in_directory(files, p) && in_record(rec, p) && file_digest(files, p) != lookup(rec, p)
}

/// Status: present on both sides with the same digest; emitted nowhere.
pub open spec fn status_unchanged(
    files: Seq<(Seq<char>, Seq<u8>)>,
    rec: Seq<(Seq<char>, Seq<char>)>,
    p: Seq<char>,
) -> bool {
    in_directory(files, p) && in_record(rec, p) && file_digest(files, p) == lookup(rec, p)
}

/// The path a classification speaks of.
pub open spec fn class_path(c: ClassV) -> Seq<char> {
    match c {
        ClassV::OnlyInDirectory(p) => p,
        ClassV::OnlyInRecord(p) => p,
        ClassV::Differs(p) => p,
    }
}

/// A path is observed in a listing exactly when some file carries it.
proof fn lemma_in_directory_index(files: Seq<(Seq<char>, Seq<u8>)>, p: Seq<char>)
    ensures
        in_directory(files, p) <==> exists|t: int| 0 <= t < files.len() && files[t].0 == p,
{
    if in_directory(files, p) {
        let t = choose|t: int| 0 <= t < paths_of(files).len() && paths_of(files)[t] == p;
        assert(files[t].0 == p);
    }
    if exists|t: int| 0 <= t < files.len() && files[t].0 == p {
        let t = choose|t: int| 0 <= t < files.len() && files[t].0 == p;
        assert(paths_of(files)[t] == p);
    }
}

/// A path has a first-file digest exactly when it is observed.
proof fn lemma_file_digest_some(files: Seq<(Seq<char>, Seq<u8>)>, p: Seq<char>)
    ensures
        file_digest(files, p) is Some <==> in_directory(files, p),
    decreases files.len(),
{
    lemma_in_directory_index(files, p);
    if files.len() > 0 {
        let dl = files.drop_last();
        lemma_file_digest_some(dl, p);
        lemma_in_directory_index(dl, p);
        if in_directory(files, p) {
            let t = choose|t: int| 0 <= t < files.len() && files[t].0 == p;
            if t < files.len() - 1 {
                assert(dl[t] == files[t]);
            }
        }
        if file_digest(dl, p) is Some {
            let t = choose|t: int| 0 <= t < dl.len() && dl[t].0 == p;
            assert(files[t] == dl[t]);
        }
    }
}

/// With unique paths, the first-file digest of a listed path is the digest of
/// that file's bytes.
pub proof fn lemma_file_digest_unique(files: Seq<(Seq<char>, Seq<u8>)>, t: int)
    requires
        unique_paths(files),
        0 <= t < files.len(),
    ensures
        file_digest(files, files[t].0) == Some(digest_of(files[t].1)),
    decreases files.len(),
{
    let dl = files.drop_last();
    let p = files[t].0;
    lemma_unique_drop_last(files);
    if t == files.len() - 1 {
        lemma_file_digest_some(dl, p);
        lemma_in_directory_index(dl, p);
        if file_digest(dl, p) is Some {
            let m = choose|m: int| 0 <= m < dl.len() && dl[m].0 == p;
            assert(files[m] == dl[m]);
            assert(files[m].0 == files[t].0);
        }
        assert(file_digest(dl, p) is None);
        assert(files.last() == files[t]);
    } else {
        lemma_file_digest_unique(dl, t);
        assert(dl[t] == files[t]);
    }
}

/// What the walk's output holds for a path: its "only in directory" entry
/// exactly when the record does not know the path, its "differs" entry
/// exactly when the record disagrees with the observed digest, and never an
/// "only in record" entry.
pub proof fn lemma_live_contains(
    files: Seq<(Seq<char>, Seq<u8>)>,
    rec: Seq<(Seq<char>, Seq<char>)>,
    p: Seq<char>,
)
    requires
        unique_paths(files),
    ensures
        live_classes(files, rec).contains(ClassV::OnlyInDirectory(p))
            <==> (in_directory(files, p) && !in_record(rec, p)),
        live_classes(files, rec).contains(ClassV::Differs(p))
            <==> (in_directory(files, p) && in_record(rec, p)
                && lookup(rec, p) != file_digest(files, p)),
        !live_classes(files, rec).contains(ClassV::OnlyInRecord(p)),
    decreases files.len(),
{
    lemma_in_directory_index(files, p);
    if files.len() == 0 {
        assert(!in_directory(files, p));
    } else {
        let dl = files.drop_last();
        let last = files.last();
        lemma_unique_drop_last(files);
        lemma_live_contains(dl, rec, p);
        lemma_in_directory_index(dl, p);
        let left = live_classes(dl, rec);
        let right = class_of_file(last, rec);
        lemma_contains_concat(left, right, ClassV::OnlyInDirectory(p));
        lemma_contains_concat(left, right, ClassV::Differs(p));
        lemma_contains_concat(left, right, ClassV::OnlyInRecord(p));
        assert(live_classes(files, rec) == left + right);
        assert forall|t: int| 0 <= t < files.len() - 1 implies files[t] == dl[t] by {}
        // Relate observation in the whole listing to the prefix and the last file.
        assert(in_directory(files, p) <==> (in_directory(dl, p) || p == last.0)) by {
            if in_directory(files, p) {
                let t = choose|t: int| 0 <= t < files.len() && files[t].0 == p;
                if t < files.len() - 1 {
                    assert(dl[t].0 == p);
                }
            }
            if in_directory(dl, p) {
                let t = choose|t: int| 0 <= t < dl.len() && dl[t].0 == p;
                assert(files[t].0 == p);
            }
            assert(files[files.len() - 1] == last);
        }
        // Relate the first-file digest of the whole listing to the prefix.
        lemma_file_digest_some(dl, p);
        if p == last.0 {
            if in_directory(dl, p) {
                let t = choose|t: int| 0 <= t < dl.len() && dl[t].0 == p;
                assert(files[t].0 == files[files.len() - 1].0);
                assert(false);
            }
            assert(file_digest(files, p) == Some(digest_of(last.1)));
        } else {
            assert(file_digest(files, p) == file_digest(dl, p));
        }
        // What the last file contributes.
        if lookup(rec, last.0) is None {
            lemma_contains_singleton(ClassV::OnlyInDirectory(last.0), ClassV::OnlyInDirectory(p));
            lemma_contains_singleton(ClassV::OnlyInDirectory(last.0), ClassV::Differs(p));
            lemma_contains_singleton(ClassV::OnlyInDirectory(last.0), ClassV::OnlyInRecord(p));
        } else if lookup(rec, last.0).unwrap() != digest_of(last.1) {
            lemma_contains_singleton(ClassV::Differs(last.0), ClassV::OnlyInDirectory(p));
            lemma_contains_singleton(ClassV::Differs(last.0), ClassV::Differs(p));
            lemma_contains_singleton(ClassV::Differs(last.0), ClassV::OnlyInRecord(p));
        }
    }
}

/// What the after-walk output holds for a path: its "only in record" entry
/// exactly when the record knows a path that was never observed, and nothing
/// else.
pub proof fn lemma_record_only_contains(
    rec: Seq<(Seq<char>, Seq<char>)>,
    seen: Seq<Seq<char>>,
    p: Seq<char>,
)
    ensures
        record_only(rec, seen).contains(ClassV::OnlyInRecord(p))
            <==> ((exists|t: int| 0 <= t < rec.len() && rec[t].0 == p) && !seen.contains(p)),
        !record_only(rec, seen).contains(ClassV::OnlyInDirectory(p)),
        !record_only(rec, seen).contains(ClassV::Differs(p)),
    decreases rec.len(),
{
    if rec.len() > 0 {
        let dl = rec.drop_last();
        let last = rec.last();
        lemma_record_only_contains(dl, seen, p);
        let right: Seq<ClassV> = if seen.contains(last.0) {
            Seq::empty()
        } else {
            seq![ClassV::OnlyInRecord(last.0)]
        };
        lemma_contains_concat(record_only(dl, seen), right, ClassV::OnlyInRecord(p));
        lemma_contains_concat(record_only(dl, seen), right, ClassV::OnlyInDirectory(p));
        lemma_contains_concat(record_only(dl, seen), right, ClassV::Differs(p));
        assert(record_only(rec, seen) == record_only(dl, seen) + right);
        if !seen.contains(last.0) {
            lemma_contains_singleton(ClassV::OnlyInRecord(last.0), ClassV::OnlyInRecord(p));
            lemma_contains_singleton(ClassV::OnlyInRecord(last.0), ClassV::OnlyInDirectory(p));
            lemma_contains_singleton(ClassV::OnlyInRecord(last.0), ClassV::Differs(p));
        }
        if (exists|t: int| 0 <= t < rec.len() && rec[t].0 == p) && !seen.contains(p) {
            let t = choose|t: int| 0 <= t < rec.len() && rec[t].0 == p;
            if t < rec.len() - 1 {
                assert(dl[t] == rec[t]);
            } else {
                assert(rec[t] == last);
            }
        }
        if exists|t: int| 0 <= t < dl.len() && dl[t].0 == p {
            let t = choose|t: int| 0 <= t < dl.len() && dl[t].0 == p;
            assert(rec[t] == dl[t]);
        }
    }
}

/// A key of the record sits at some entry position.
proof fn lemma_has_key_index(rec: Seq<(Seq<char>, Seq<char>)>, p: Seq<char>)
    ensures
        has_key(rec, p) <==> exists|t: int| 0 <= t < rec.len() && rec[t].0 == p,
    decreases rec.len(),
{
    if rec.len() > 0 {
        lemma_has_key_index(rec.drop_first(), p);
        if rec[0].0 == p {
            assert(rec[0].0 == p && 0 < rec.len());
        } else {
            if exists|t: int| 0 <= t < rec.drop_first().len() && rec.drop_first()[t].0 == p {
                let t = choose|t: int| 0 <= t < rec.drop_first().len()
                    && rec.drop_first()[t].0 == p;
                assert(rec[t + 1].0 == p);
            }
            if exists|t: int| 0 <= t < rec.len() && rec[t].0 == p {
                let t = choose|t: int| 0 <= t < rec.len() && rec[t].0 == p;
                assert(rec.drop_first()[t - 1].0 == p);
            }
        }
    }
}

/// Law: partition — every path observed in the directory or known to the
/// record has exactly one of the four statuses, and the comparison output
/// mentions the path according to that status: an "only in directory" entry
/// exactly for the first status, an "only in record" entry exactly for the
/// second, a "differs" entry exactly for the third, and no entry at all for
/// an unchanged path.
pub proof fn lemma_partition(
    files: Seq<(Seq<char>, Seq<u8>)>,
    rec: Seq<(Seq<char>, Seq<char>)>,
    p: Seq<char>,
)
    requires
        unique_paths(files),
        in_directory(files, p) || in_record(rec, p),
    ensures
        status_only_in_directory(files, rec, p) || status_only_in_record(files, rec, p)
            || status_differs(files, rec, p) || status_unchanged(files, rec, p),
        status_only_in_directory(files, rec, p) ==> !status_only_in_record(files, rec, p)
            && !status_differs(files, rec, p) && !status_unchanged(files, rec, p),
        status_only_in_record(files, rec, p) ==> !status_differs(files, rec, p)
            && !status_unchanged(files, rec, p),
        status_differs(files, rec, p) ==> !status_unchanged(files, rec, p),
        spec_reconcile(files, rec).contains(ClassV::OnlyInDirectory(p))
            <==> status_only_in_directory(files, rec, p),
        spec_reconcile(files, rec).contains(ClassV::OnlyInRecord(p))
            <==> status_only_in_record(files, rec, p),
        spec_reconcile(files, rec).contains(ClassV::Differs(p))
            <==> status_differs(files, rec, p),
        status_unchanged(files, rec, p) ==> forall|c: ClassV|
            spec_reconcile(files, rec).contains(c) ==> class_path(c) != p,
{
    let live = live_classes(files, rec);
    let after = record_only(rec, paths_of(files));
    lemma_live_contains(files, rec, p);
    lemma_record_only_contains(rec, paths_of(files), p);
    lemma_has_key_index(rec, p);
    lemma_contains_concat(live, after, ClassV::OnlyInDirectory(p));
    lemma_contains_concat(live, after, ClassV::OnlyInRecord(p));
    lemma_contains_concat(live, after, ClassV::Differs(p));
    if status_unchanged(files, rec, p) {
        assert forall|c: ClassV| spec_reconcile(files, rec).contains(c)
            implies class_path(c) != p by {
            lemma_contains_concat(live, after, c);
            match c {
                ClassV::OnlyInDirectory(q) => {
                    if q == p {
                        lemma_contains_concat(live, after, ClassV::OnlyInDirectory(p));
                    }
                },
                ClassV::OnlyInRecord(q) => {
                    if q == p {
                        lemma_contains_concat(live, after, ClassV::OnlyInRecord(p));
                    }
                },
                ClassV::Differs(q) => {
                    if q == p {
                        lemma_contains_concat(live, after, ClassV::Differs(p));
                    }
                },
            }
        }
    }
}

} // verus!

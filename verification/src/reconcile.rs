//! Reconciliation of a live directory listing against a recorded snapshot.

use vstd::prelude::*;
use crate::digest::{digest_of, hash_file};
use crate::snapshot::{Snapshot, files_view, lookup};

verus! {

/// The status of one relative path after comparing a directory against a record.
/// A path present in both with an unchanged digest gets no classification.
#[derive(PartialEq, Eq, Debug)]
pub enum Classification {
    /// The path exists under the directory but is not a key of the record.
    OnlyInDirectory(String),
    /// The path is a key of the record but was not observed in the directory.
    OnlyInRecord(String),
    /// The path exists in both, with different content digests.
    Differs(String),
}

/// The character-level form of a classification.
pub enum ClassV {
    OnlyInDirectory(Seq<char>),
    OnlyInRecord(Seq<char>),
    Differs(Seq<char>),
}

impl View for Classification {
    type V = ClassV;

    open spec fn view(&self) -> ClassV {
        match self {
            Classification::OnlyInDirectory(p) => ClassV::OnlyInDirectory(p@),
            Classification::OnlyInRecord(p) => ClassV::OnlyInRecord(p@),
            Classification::Differs(p) => ClassV::Differs(p@),
        }
    }
}

/// The character-level contents of a classification list.
pub open spec fn classes_view(s: Seq<Classification>) -> Seq<ClassV> {
    s.map(|i: int, c: Classification| c@)
}

/// The character-level contents of a path list.
pub open spec fn strs_view(s: Seq<String>) -> Seq<Seq<char>> {
    s.map(|i: int, p: String| p@)
}

/// The relative paths of a directory listing, in listing order.
pub open spec fn paths_of(files: Seq<(Seq<char>, Seq<u8>)>) -> Seq<Seq<char>> {
    files.map(|i: int, f: (Seq<char>, Seq<u8>)| f.0)
}

/// What one observed file contributes to the comparison output: its path if
/// the record does not know it, its path if the digests disagree, nothing if
/// the digests agree.
pub open spec fn class_of_file(
    f: (Seq<char>, Seq<u8>),
    rec: Seq<(Seq<char>, Seq<char>)>,
) -> Seq<ClassV> {
    match lookup(rec, f.0) {
        None => seq![ClassV::OnlyInDirectory(f.0)],
        Some(d) => if d != digest_of(f.1) {
            seq![ClassV::Differs(f.0)]
        } else {
            Seq::empty()
        },
    }
}

/// The classifications emitted while walking the directory listing, in
/// listing order.
pub open spec fn live_classes(
    files: Seq<(Seq<char>, Seq<u8>)>,
    rec: Seq<(Seq<char>, Seq<char>)>,
) -> Seq<ClassV>
    decreases files.len(),
{
    if files.len() == 0 {
        Seq::empty()
    } else {
        live_classes(files.drop_last(), rec) + class_of_file(files.last(), rec)
    }
}

/// The classifications emitted after the walk: one per record entry whose
/// path was never observed, in record (path-sorted) order.
pub open spec fn record_only(
    rec: Seq<(Seq<char>, Seq<char>)>,
    seen: Seq<Seq<char>>,
) -> Seq<ClassV>
    decreases rec.len(),
{
    if rec.len() == 0 {
        Seq::empty()
    } else {
        record_only(rec.drop_last(), seen) + (if seen.contains(rec.last().0) {
            Seq::empty()
        } else {
            seq![ClassV::OnlyInRecord(rec.last().0)]
        })
    }
}

/// The full comparison output: the walk's classifications in listing order,
/// then the unobserved record entries in record order.
pub open spec fn spec_reconcile(
    files: Seq<(Seq<char>, Seq<u8>)>,
    rec: Seq<(Seq<char>, Seq<char>)>,
) -> Seq<ClassV> {
    live_classes(files, rec) + record_only(rec, paths_of(files))
}

/// Whether a path list holds the given path.
fn contains_string(v: &Vec<String>, s: &String) -> (r: bool)
    ensures
        r == strs_view(v@).contains(s@),
{
    let n = v.len();
    let mut i: usize = 0;
    while i < n
        invariant
            0 <= i <= n,
            n == v.len(),
            forall|j: int| 0 <= j < i ==> strs_view(v@)[j] != s@,
        decreases n - i,
    {
        if v[i] == *s {
            proof {
                assert(strs_view(v@)[i as int] == s@);
            }
            return true;
        }
        proof {
            assert(strs_view(v@)[i as int] == v@[i as int]@);
        }
        i += 1;
    }
    proof {
        if strs_view(v@).contains(s@) {
            let j = choose|j: int| 0 <= j < strs_view(v@).len() && strs_view(v@)[j] == s@;
            assert(strs_view(v@)[j] != s@);
        }
    }
    false
}

/// Compares a directory listing against a recorded snapshot. Every observed
/// path missing from the record is reported, every observed path whose
/// content digest disagrees with the record is reported, and every record
/// path never observed is reported after the walk; unchanged files are
/// silent.
pub fn reconcile(files: &Vec<(String, Vec<u8>)>, record: &Snapshot) -> (out: Vec<Classification>)
    ensures
        classes_view(out@) == spec_reconcile(files_view(files@), record@),
{
    let mut out: Vec<Classification> = Vec::new();
    let mut hits: Vec<String> = Vec::new();
    let n = files.len();
    let mut i: usize = 0;
    proof {
        assert(classes_view(out@) =~= live_classes(files_view(files@).take(0), record@));
        assert(strs_view(hits@) =~= paths_of(files_view(files@).take(0)));
    }
    while i < n
        invariant
            0 <= i <= n,
            n == files.len(),
            classes_view(out@) == live_classes(files_view(files@).take(i as int), record@),
            strs_view(hits@) == paths_of(files_view(files@).take(i as int)),
        decreases n - i,
    {
        let ghost fv = files_view(files@);
        let ghost out0 = out@;
        let ghost hits0 = hits@;
        proof {
            assert(fv.take(i as int + 1).drop_last() =~= fv.take(i as int));
            assert(fv.take(i as int + 1).last() == fv[i as int]);
            assert(fv[i as int] == (files@[i as int].0@, files@[i as int].1@));
        }
        let path = &files[i].0;
        match record.get(path) {
            None => {
                out.push(Classification::OnlyInDirectory(path.clone()));
                proof {
                    assert(classes_view(out0.push(
                        Classification::OnlyInDirectory(files@[i as int].0),
                    )) =~= classes_view(out0) + class_of_file(fv[i as int], record@));
                }
            },
            Some(d) => {
                let dig = hash_file(&files[i].1);
                if dig == *d {
                    proof {
                        assert(class_of_file(fv[i as int], record@)
                            =~= Seq::<ClassV>::empty());
                        assert(classes_view(out@) =~= classes_view(out0)
                            + class_of_file(fv[i as int], record@));
                    }
                } else {
                    out.push(Classification::Differs(path.clone()));
                    proof {
                        assert(classes_view(out0.push(
                            Classification::Differs(files@[i as int].0),
                        )) =~= classes_view(out0) + class_of_file(fv[i as int], record@));
                    }
                }
            },
        }
        hits.push(files[i].0.clone());
        proof {
            assert(strs_view(hits@) =~= strs_view(hits0).push(files@[i as int].0@));
            assert(paths_of(fv.take(i as int + 1))
                =~= paths_of(fv.take(i as int)).push(fv[i as int].0));
        }
        i += 1;
    }
    proof {
        assert(files_view(files@).take(n as int) =~= files_view(files@));
    }
    let ghost seen = strs_view(hits@);
    let rn = record.len();
    let mut j: usize = 0;
    proof {
        assert(record_only(record@.take(0), seen) =~= Seq::<ClassV>::empty());
        assert(classes_view(out@) =~= live_classes(files_view(files@), record@)
            + record_only(record@.take(0), seen));
    }
    while j < rn
        invariant
            0 <= j <= rn,
            rn == record@.len(),
            seen == strs_view(hits@),
            classes_view(out@) == live_classes(files_view(files@), record@)
                + record_only(record@.take(j as int), seen),
        decreases rn - j,
    {
        let ghost out0 = out@;
        proof {
            assert(record@.take(j as int + 1).drop_last() =~= record@.take(j as int));
            assert(record@.take(j as int + 1).last() == record@[j as int]);
        }
        let e = record.entry_at(j);
        if !contains_string(&hits, &e.0) {
            out.push(Classification::OnlyInRecord(e.0));
            proof {
                assert(classes_view(out@) =~= classes_view(out0)
                    + seq![ClassV::OnlyInRecord(record@[j as int].0)]);
            }
        } else {
            proof {
                assert(classes_view(out@) =~= classes_view(out0) + Seq::<ClassV>::empty());
            }
        }
        j += 1;
    }
    proof {
        assert(record@.take(rn as int) =~= record@);
    }
    out
}

} // verus!

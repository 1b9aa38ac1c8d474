//! Snapshots: sorted mappings from relative file paths to content digests.

use vstd::prelude::*;
use crate::order::{lex_lt, str_lt, lemma_lex_lt_asymmetric, lemma_lex_lt_trichotomy,
    lemma_lex_lt_transitive};
use crate::digest::{digest_of, hash_file};

verus! {

/// The character-level contents of a list of (path, digest) string pairs.
pub open spec fn pairs_view(s: Seq<(String, String)>) -> Seq<(Seq<char>, Seq<char>)> {
    s.map(|i: int, e: (String, String)| (e.0@, e.1@))
}

/// The character-level contents of a directory listing: each file's relative
/// path with its complete byte content.
pub open spec fn files_view(s: Seq<(String, Vec<u8>)>) -> Seq<(Seq<char>, Seq<u8>)> {
    s.map(|i: int, f: (String, Vec<u8>)| (f.0@, f.1@))
}

/// Entries are strictly sorted by path, so every path occurs at most once.
pub open spec fn sorted_unique(s: Seq<(Seq<char>, Seq<char>)>) -> bool {
    forall|i: int, j: int| 0 <= i < j < s.len() ==> lex_lt(s[i].0, s[j].0)
}

/// The digest recorded for a path, if any: the first entry with that path.
pub open spec fn lookup(s: Seq<(Seq<char>, Seq<char>)>, k: Seq<char>) -> Option<Seq<char>>
    decreases s.len(),
{
    if s.len() == 0 {
        None
    } else if s[0].0 == k {
        Some(s[0].1)
    } else {
        lookup(s.drop_first(), k)
    }
}

/// Whether a path is a key of the entry list.
pub open spec fn has_key(s: Seq<(Seq<char>, Seq<char>)>, k: Seq<char>) -> bool {
    lookup(s, k) is Some
}

/// Insertion into a path-sorted entry list: an entry with the same path is
/// replaced, any other path is placed at its ordered position.
pub open spec fn lex_insert(
    s: Seq<(Seq<char>, Seq<char>)>,
    k: Seq<char>,
    v: Seq<char>,
) -> Seq<(Seq<char>, Seq<char>)>
    decreases s.len(),
{
    if s.len() == 0 {
        seq![(k, v)]
    } else if lex_lt(k, s[0].0) {
        seq![(k, v)] + s
    } else if k == s[0].0 {
        seq![(k, v)] + s.drop_first()
    } else {
        seq![s[0]] + lex_insert(s.drop_first(), k, v)
    }
}

/// Every entry of an insertion result is the inserted pair or an original entry.
pub proof fn lemma_lex_insert_elems(s: Seq<(Seq<char>, Seq<char>)>, k: Seq<char>, v: Seq<char>)
    ensures
        forall|m: int| 0 <= m < lex_insert(s, k, v).len()
            ==> #[trigger] lex_insert(s, k, v)[m] == (k, v) || s.contains(lex_insert(s, k, v)[m]),
        lex_insert(s, k, v).len() <= s.len() + 1,
    decreases s.len(),
{
    let r = lex_insert(s, k, v);
    if s.len() == 0 {
    } else if lex_lt(k, s[0].0) {
        assert forall|m: int| 0 <= m < r.len() implies r[m] == (k, v) || s.contains(r[m]) by {
            if m > 0 {
                assert(r[m] == s[m - 1]);
            }
        }
    } else if k == s[0].0 {
        assert forall|m: int| 0 <= m < r.len() implies r[m] == (k, v) || s.contains(r[m]) by {
            if m > 0 {
                assert(r[m] == s.drop_first()[m - 1]);
                assert(s.drop_first()[m - 1] == s[m]);
            }
        }
    } else {
        lemma_lex_insert_elems(s.drop_first(), k, v);
        let rt = lex_insert(s.drop_first(), k, v);
        assert forall|m: int| 0 <= m < r.len() implies r[m] == (k, v) || s.contains(r[m]) by {
            if m == 0 {
                assert(r[0] == s[0]);
                assert(s.contains(s[0]));
            } else {
                assert(r[m] == rt[m - 1]);
                if rt[m - 1] == (k, v) {
                } else {
                    let t = choose|t: int| 0 <= t < s.drop_first().len()
                        && s.drop_first()[t] == rt[m - 1];
                    assert(s[t + 1] == rt[m - 1]);
                }
            }
        }
    }
}

/// Insertion keeps the entry list strictly sorted by path.
pub proof fn lemma_lex_insert_sorted(s: Seq<(Seq<char>, Seq<char>)>, k: Seq<char>, v: Seq<char>)
    requires
        sorted_unique(s),
    ensures
        sorted_unique(lex_insert(s, k, v)),
    decreases s.len(),
{
    let r = lex_insert(s, k, v);
    if s.len() == 0 {
    } else if lex_lt(k, s[0].0) {
        assert forall|i: int, j: int| 0 <= i < j < r.len() implies lex_lt(r[i].0, r[j].0) by {
            assert(r[j] == s[j - 1]);
            if i == 0 {
                if j > 1 {
                    lemma_lex_lt_transitive(k, s[0].0, s[j - 1].0);
                }
            } else {
                assert(r[i] == s[i - 1]);
            }
        }
    } else if k == s[0].0 {
        assert forall|i: int, j: int| 0 <= i < j < r.len() implies lex_lt(r[i].0, r[j].0) by {
            assert(r[j] == s.drop_first()[j - 1]);
            assert(s.drop_first()[j - 1] == s[j]);
            if i > 0 {
                assert(r[i] == s[i]);
            }
        }
    } else {
        lemma_lex_lt_asymmetric(k, s[0].0);
        lemma_lex_lt_trichotomy(k, s[0].0);
        assert(lex_lt(s[0].0, k));
        assert forall|i: int, j: int| 0 <= i < j < s.drop_first().len()
            implies lex_lt(s.drop_first()[i].0, s.drop_first()[j].0) by {
            assert(s.drop_first()[i] == s[i + 1]);
            assert(s.drop_first()[j] == s[j + 1]);
        }
        assert(sorted_unique(s.drop_first()));
        lemma_lex_insert_sorted(s.drop_first(), k, v);
        lemma_lex_insert_elems(s.drop_first(), k, v);
        let rt = lex_insert(s.drop_first(), k, v);
        assert forall|i: int, j: int| 0 <= i < j < r.len() implies lex_lt(r[i].0, r[j].0) by {
            if i == 0 {
                assert(r[j] == rt[j - 1]);
                if rt[j - 1] == (k, v) {
                    assert(lex_lt(s[0].0, k));
                } else {
                    let t = choose|t: int| 0 <= t < s.drop_first().len()
                        && s.drop_first()[t] == rt[j - 1];
                    assert(s[t + 1] == rt[j - 1]);
                    assert(lex_lt(s[0].0, s[t + 1].0));
                }
            } else {
                assert(r[i] == rt[i - 1]);
                assert(r[j] == rt[j - 1]);
            }
        }
    }
}

/// Looking up the inserted path finds the inserted digest; every other path
/// is unaffected by the insertion.
pub proof fn lemma_lex_insert_lookup(
    s: Seq<(Seq<char>, Seq<char>)>,
    k: Seq<char>,
    v: Seq<char>,
    k2: Seq<char>,
)
    ensures
        lookup(lex_insert(s, k, v), k) == Some(v),
        k2 != k ==> lookup(lex_insert(s, k, v), k2) == lookup(s, k2),
    decreases s.len(),
{
    let r = lex_insert(s, k, v);
    if s.len() == 0 {
        assert(r.drop_first() =~= Seq::<(Seq<char>, Seq<char>)>::empty());
    } else if lex_lt(k, s[0].0) {
        lemma_lex_lt_asymmetric(k, s[0].0);
        assert(k != s[0].0);
        assert(r.drop_first() =~= s);
    } else if k == s[0].0 {
        assert(r.drop_first() =~= s.drop_first());
        if k2 != k {
            assert(lookup(r, k2) == lookup(s.drop_first(), k2));
            assert(lookup(s, k2) == lookup(s.drop_first(), k2));
        }
    } else {
        lemma_lex_insert_lookup(s.drop_first(), k, v, k2);
        assert(r[0] == s[0]);
        assert(r.drop_first() =~= lex_insert(s.drop_first(), k, v));
        if k2 != k {
            if k2 == s[0].0 {
                assert(lookup(r, k2) == Some(s[0].1));
                assert(lookup(s, k2) == Some(s[0].1));
            } else {
                assert(lookup(r, k2) == lookup(r.drop_first(), k2));
                assert(lookup(s, k2) == lookup(s.drop_first(), k2));
            }
        }
    }
}

/// Inserting at the position found by a linear scan is the ordered insertion.
pub proof fn lemma_lex_insert_at(
    s: Seq<(Seq<char>, Seq<char>)>,
    k: Seq<char>,
    v: Seq<char>,
    idx: int,
)
    requires
        sorted_unique(s),
        0 <= idx <= s.len(),
        forall|j: int| 0 <= j < idx ==> lex_lt(#[trigger] s[j].0, k),
        idx < s.len() ==> !lex_lt(s[idx].0, k),
    ensures
        idx < s.len() && s[idx].0 == k ==> lex_insert(s, k, v) == s.update(idx, (k, v)),
        !(idx < s.len() && s[idx].0 == k) ==> lex_insert(s, k, v) == s.insert(idx, (k, v)),
    decreases idx,
{
    if idx == 0 {
        if s.len() == 0 {
            assert(lex_insert(s, k, v) =~= s.insert(0, (k, v)));
        } else if s[0].0 == k {
            lemma_lex_lt_asymmetric(k, k);
            assert(lex_insert(s, k, v) == seq![(k, v)] + s.drop_first());
            assert(seq![(k, v)] + s.drop_first() =~= s.update(0, (k, v)));
        } else {
            lemma_lex_lt_trichotomy(k, s[0].0);
            assert(lex_lt(k, s[0].0));
            assert(seq![(k, v)] + s =~= s.insert(0, (k, v)));
        }
    } else {
        assert(lex_lt(s[0].0, k));
        lemma_lex_lt_asymmetric(s[0].0, k);
        assert(k != s[0].0);
        let tail = s.drop_first();
        assert forall|i: int, j: int| 0 <= i < j < tail.len()
            implies lex_lt(tail[i].0, tail[j].0) by {
            assert(tail[i] == s[i + 1]);
            assert(tail[j] == s[j + 1]);
        }
        assert forall|j: int| 0 <= j < idx - 1 implies lex_lt(#[trigger] tail[j].0, k) by {
            assert(tail[j] == s[j + 1]);
        }
        assert(idx - 1 < tail.len() ==> tail[idx - 1] == s[idx]);
        lemma_lex_insert_at(tail, k, v, idx - 1);
        assert(lex_insert(s, k, v) == seq![s[0]] + lex_insert(tail, k, v));
        if idx < s.len() && s[idx].0 == k {
            assert(seq![s[0]] + tail.update(idx - 1, (k, v)) =~= s.update(idx, (k, v)));
        } else {
            assert(seq![s[0]] + tail.insert(idx - 1, (k, v)) =~= s.insert(idx, (k, v)));
        }
    }
}

/// A list whose adjacent entries are ordered is sorted throughout.
pub proof fn lemma_adjacent_implies_sorted(s: Seq<(Seq<char>, Seq<char>)>)
    requires
        forall|i: int| 0 <= i && i + 1 < s.len() ==> lex_lt(#[trigger] s[i].0, s[i + 1].0),
    ensures
        sorted_unique(s),
{
    assert forall|i: int, j: int| 0 <= i < j < s.len() implies lex_lt(s[i].0, s[j].0) by {
        lemma_sorted_chain(s, i, j);
    }
}

proof fn lemma_sorted_chain(s: Seq<(Seq<char>, Seq<char>)>, i: int, j: int)
    requires
        forall|m: int| 0 <= m && m + 1 < s.len() ==> lex_lt(#[trigger] s[m].0, s[m + 1].0),
        0 <= i < j < s.len(),
    ensures
        lex_lt(s[i].0, s[j].0),
    decreases j - i,
{
    if j == i + 1 {
        assert(lex_lt(s[i].0, s[i + 1].0));
    } else {
        lemma_sorted_chain(s, i, j - 1);
        assert(lex_lt(s[j - 1].0, s[j].0));
        lemma_lex_lt_transitive(s[i].0, s[j - 1].0, s[j].0);
    }
}

/// A snapshot of a directory: one entry per regular file, keyed by the file's
/// path relative to the traversal root, holding the digest of its content.
/// Entries are kept strictly sorted by path.
pub struct Snapshot {
    entries: Vec<(String, String)>,
}

impl View for Snapshot {
    type V = Seq<(Seq<char>, Seq<char>)>;

    closed spec fn view(&self) -> Seq<(Seq<char>, Seq<char>)> {
        pairs_view(self.entries@)
    }
}

/// The snapshot that a directory listing determines: every file inserted in
/// turn, each under its relative path with the digest of its bytes.
pub open spec fn spec_build(files: Seq<(Seq<char>, Seq<u8>)>) -> Seq<(Seq<char>, Seq<char>)>
    decreases files.len(),
{
    if files.len() == 0 {
        Seq::empty()
    } else {
        lex_insert(spec_build(files.drop_last()), files.last().0, digest_of(files.last().1))
    }
}

impl Snapshot {
    /// Entries sorted strictly by path: the snapshot's invariant.
    pub open spec fn wf(&self) -> bool {
        sorted_unique(self@)
    }

    /// The empty snapshot.
    pub fn new() -> (s: Snapshot)
        ensures
            s@ =~= Seq::<(Seq<char>, Seq<char>)>::empty(),
            s.wf(),
    {
        Snapshot { entries: Vec::new() }
    }

    /// Number of recorded files.
    pub fn len(&self) -> (n: usize)
        ensures
            n == self@.len(),
    {
        self.entries.len()
    }

    /// The entry at a position, as a (path, digest) pair of fresh strings.
    pub fn entry_at(&self, i: usize) -> (e: (String, String))
        requires
            i < self@.len(),
        ensures
            e.0@ == self@[i as int].0,
            e.1@ == self@[i as int].1,
    {
        (self.entries[i].0.clone(), self.entries[i].1.clone())
    }

    /// The digest recorded for a path, if the path is a key of the snapshot.
    pub fn get(&self, path: &String) -> (r: Option<&String>)
        ensures
            match r {
                Some(d) => lookup(self@, path@) == Some(d@),
                None => lookup(self@, path@) is None,
            },
    {
        let n = self.entries.len();
        let mut i: usize = 0;
        proof {
            assert(self@.skip(0) =~= self@);
        }
        loop
            invariant
                0 <= i <= n,
                n == self.entries.len(),
                lookup(self@, path@) == lookup(self@.skip(i as int), path@),
            decreases n - i,
        {
            if i == n {
                proof {
                    assert(self@.skip(i as int) =~= Seq::<(Seq<char>, Seq<char>)>::empty());
                }
                return None;
            }
            proof {
                assert(self@.skip(i as int)[0] == self@[i as int]);
                assert(self@.skip(i as int).drop_first() =~= self@.skip(i as int + 1));
            }
            if self.entries[i].0 == *path {
                return Some(&self.entries[i].1);
            }
            i += 1;
        }
    }

    /// Records a digest for a path, replacing any digest the path had.
    pub fn insert(&mut self, path: String, digest: String)
        requires
            old(self).wf(),
        ensures
            final(self).wf(),
            final(self)@ == lex_insert(old(self)@, path@, digest@),
    {
        let idx = find_pos(&self.entries, &path);
        proof {
            lemma_lex_insert_at(self@, path@, digest@, idx as int);
            lemma_lex_insert_sorted(self@, path@, digest@);
        }
        if idx < self.entries.len() && self.entries[idx].0 == path {
            self.entries.remove(idx);
            self.entries.insert(idx, (path, digest));
            proof {
                assert(pairs_view(self.entries@)
                    =~= lex_insert(pairs_view(old(self).entries@), path@, digest@));
            }
        } else {
            self.entries.insert(idx, (path, digest));
            proof {
                assert(pairs_view(self.entries@)
                    =~= lex_insert(pairs_view(old(self).entries@), path@, digest@));
            }
        }
    }
}

impl Snapshot {
    /// The underlying sorted entry list.
    pub(crate) fn entry_list(&self) -> (r: &Vec<(String, String)>)
        ensures
            pairs_view(r@) == self@,
    {
        &self.entries
    }
}

/// Wraps an entry list as a snapshot, if the list is strictly sorted by path;
/// any other list is refused.
pub fn snapshot_from_entries(entries: Vec<(String, String)>) -> (r: Option<Snapshot>)
    ensures
        r is Some <==> sorted_unique(pairs_view(entries@)),
        r is Some ==> r.unwrap().wf() && r.unwrap()@ == pairs_view(entries@),
{
    let n = entries.len();
    let mut i: usize = 1;
    while i < n
        invariant
            1 <= i,
            i <= n || n == 0,
            n == entries.len(),
            forall|m: int| 0 <= m && m + 1 < i ==> lex_lt(
                #[trigger] pairs_view(entries@)[m].0,
                pairs_view(entries@)[m + 1].0,
            ),
        decreases n - i,
    {
        if !str_lt(&entries[i - 1].0, &entries[i].0) {
            proof {
                assert(pairs_view(entries@)[i - 1].0 == entries@[i - 1].0@);
                assert(pairs_view(entries@)[i as int].0 == entries@[i as int].0@);
                assert(!sorted_unique(pairs_view(entries@)));
            }
            return None;
        }
        proof {
            assert(pairs_view(entries@)[i - 1].0 == entries@[i - 1].0@);
            assert(pairs_view(entries@)[i as int].0 == entries@[i as int].0@);
        }
        i += 1;
    }
    proof {
        lemma_adjacent_implies_sorted(pairs_view(entries@));
    }
    Some(Snapshot { entries })
}

/// Position of the first entry whose path is not below the given one.
fn find_pos(entries: &Vec<(String, String)>, path: &String) -> (idx: usize)
    ensures
        0 <= idx <= entries.len(),
        forall|j: int| 0 <= j < idx ==> lex_lt(#[trigger] pairs_view(entries@)[j].0, path@),
        idx < entries.len() ==> !lex_lt(pairs_view(entries@)[idx as int].0, path@),
{
    let n = entries.len();
    let mut idx: usize = 0;
    loop
        invariant
            0 <= idx <= n,
            n == entries.len(),
            forall|j: int| 0 <= j < idx ==> lex_lt(#[trigger] pairs_view(entries@)[j].0, path@),
        decreases n - idx,
    {
        if idx == n {
            return idx;
        }
        if !str_lt(&entries[idx].0, path) {
            return idx;
        }
        proof {
            assert(pairs_view(entries@)[idx as int].0 == entries@[idx as int].0@);
        }
        idx += 1;
    }
}

/// Builds the snapshot of a directory listing: for every file of the listing,
/// one entry mapping its relative path to the digest of its byte content.
pub fn build_snapshot(files: &Vec<(String, Vec<u8>)>) -> (s: Snapshot)
    ensures
        s.wf(),
        s@ == spec_build(files_view(files@)),
{
    let mut s = Snapshot::new();
    let n = files.len();
    let mut i: usize = 0;
    while i < n
        invariant
            0 <= i <= n,
            n == files.len(),
            s.wf(),
            s@ == spec_build(files_view(files@).take(i as int)),
        decreases n - i,
    {
        let path = files[i].0.clone();
        let digest = hash_file(&files[i].1);
        proof {
            let fv = files_view(files@);
            assert(fv.take(i as int + 1).drop_last() =~= fv.take(i as int));
            assert(fv.take(i as int + 1).last() == fv[i as int]);
            assert(fv[i as int] == (files@[i as int].0@, files@[i as int].1@));
        }
        s.insert(path, digest);
        i += 1;
    }
    proof {
        assert(files_view(files@).take(n as int) =~= files_view(files@));
    }
    s
}

} // verus!

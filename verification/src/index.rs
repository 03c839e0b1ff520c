//! The tag index: two association lists built together in one pass over the
//! corpus, one from note to tags and one from tag to notes, kept in step so
//! that a note carries a tag exactly when the tag lists the note. The index
//! is immutable for one query session and rebuilt by the next scan.
use vstd::prelude::*;

use crate::ExomemError;
use crate::tags::{note_tag_set, find_tags};
use crate::text::{contains_string, scan_while, lemma_scan_while, lemma_scan_while_stops,
    chars_vec, lex_le, str_le, lemma_lex_total, lemma_lex_trans};
use vstd::string::StrSliceExecFns;

verus! {

/// One note handed to the index builder: its path and the lines of its
/// content. The caller reads the files; a note it could not read is handed
/// in with no lines, which reads the same as a note without tags.
pub struct NoteFile {
    pub path: String,
    pub lines: Vec<String>,
}

/// Whether the association list has an entry with key `k`.
spec fn assoc_has_key(es: Seq<(String, Vec<String>)>, k: Seq<char>) -> bool {
    exists|i: int| 0 <= i < es.len() && es[i].0@ == k
}

/// Whether the entry with key `k` holds the value `v`.
spec fn assoc_contains(es: Seq<(String, Vec<String>)>, k: Seq<char>, v: Seq<char>) -> bool {
    exists|i: int| 0 <= i < es.len() && es[i].0@ == k && es[i].1.deep_view().contains(v)
}

/// No two entries share a key.
spec fn distinct_keys(es: Seq<(String, Vec<String>)>) -> bool {
    forall|i: int, j: int| 0 <= i < j < es.len() ==> es[i].0@ != es[j].0@
}

/// Every entry holds at least one value and no value twice.
spec fn entries_wf(es: Seq<(String, Vec<String>)>) -> bool {
    forall|i: int| 0 <= i < es.len() ==> (#[trigger] es[i].1)@.len() > 0
        && es[i].1.deep_view().no_duplicates()
}

/// The bidirectional tag index of one scan session.
pub struct TagIndex {
    notes: Vec<(String, Vec<String>)>,
    tags: Vec<(String, Vec<String>)>,
}

impl TagIndex {
    /// The note `n` is in the index and its tag set holds `t`.
    pub closed spec fn note_has_tag(self, n: Seq<char>, t: Seq<char>) -> bool {
        assoc_contains(self.notes@, n, t)
    }

    /// The tag `t` is in the index and its note set holds `n`.
    pub closed spec fn tag_has_note(self, t: Seq<char>, n: Seq<char>) -> bool {
        assoc_contains(self.tags@, t, n)
    }

    /// The note `n` appears in the index.
    pub closed spec fn has_note(self, n: Seq<char>) -> bool {
        assoc_has_key(self.notes@, n)
    }

    /// The tag `t` appears in the index.
    pub closed spec fn has_tag(self, t: Seq<char>) -> bool {
        assoc_has_key(self.tags@, t)
    }

    /// Well-formed: keys are unique on both sides, no side holds an empty or
    /// duplicated entry, every key is backed by a member, and membership is
    /// bidirectional: a note holds a tag exactly when the tag holds the note.
    pub closed spec fn wf(self) -> bool {
        &&& distinct_keys(self.notes@)
        &&& distinct_keys(self.tags@)
        &&& entries_wf(self.notes@)
        &&& entries_wf(self.tags@)
        &&& forall|n: Seq<char>, t: Seq<char>| #![trigger self.note_has_tag(n, t)]
            #![trigger self.tag_has_note(t, n)]
            self.note_has_tag(n, t) <==> self.tag_has_note(t, n)
        &&& forall|n: Seq<char>| #[trigger] self.has_note(n) ==> exists|t: Seq<char>|
            self.note_has_tag(n, t)
        &&& forall|t: Seq<char>| #[trigger] self.has_tag(t) ==> exists|n: Seq<char>|
            self.tag_has_note(t, n)
    }
}

/// The position of the entry with key `k`, if the list has one.
fn assoc_find(es: &Vec<(String, Vec<String>)>, k: &String) -> (r: Option<usize>)
    ensures
        match r {
            Some(i) => i < es@.len() && es@[i as int].0@ == k@,
            None => !assoc_has_key(es@, k@),
        },
{
    let mut i: usize = 0;
    while i < es.len()
        invariant
            i <= es.len(),
            forall|j: int| 0 <= j < i ==> es@[j].0@ != k@,
        decreases es.len() - i,
    {
        if es[i].0 == *k {
            return Some(i);
        }
        i = i + 1;
    }
    None
}

/// Records that the note at `path` carries `tag`: appends the path to the
/// tag's entry, or opens a new entry when the tag is new.
fn register_tag(tags: &mut Vec<(String, Vec<String>)>, tag: &String, path: &String)
    requires
        distinct_keys(old(tags)@),
        entries_wf(old(tags)@),
        !assoc_contains(old(tags)@, tag@, path@),
    ensures
        distinct_keys(final(tags)@),
        entries_wf(final(tags)@),
        forall|k: Seq<char>, v: Seq<char>| #[trigger] assoc_contains(final(tags)@, k, v) <==> (
        assoc_contains(old(tags)@, k, v) || (k == tag@ && v == path@)),
        forall|k: Seq<char>| #[trigger] assoc_has_key(final(tags)@, k) <==> (assoc_has_key(
            old(tags)@,
            k,
        ) || k == tag@),
{
    let ghost before = tags@;
    match assoc_find(tags, tag) {
        Some(i) => {
            let entry = tags.remove(i);
            let (key, mut items) = entry;
            let ghost items_before = items.deep_view();
            proof {
                assert(before[i as int].1.deep_view() == items_before);
                assert(!items_before.contains(path@)) by {
                    if items_before.contains(path@) {
                        assert(assoc_contains(before, tag@, path@));
                    }
                }
            }
            items.push(path.clone());
            proof {
                assert(items.deep_view() =~= items_before.push(path@));
            }
            tags.push((key, items));
            proof {
                let after = tags@;
                let last = after.len() - 1;
                // the list keeps the old entries, with `path` added under `tag`
                assert(after[last].0@ == tag@);
                assert forall|j: int| 0 <= j < last implies after[j] == (if j < i {
                    before[j]
                } else {
                    before[j + 1]
                }) by {}
                assert forall|x: Seq<char>| after[last].1.deep_view().contains(x) implies (
                items_before.contains(x) || x == path@) by {
                    let q = choose|q: int|
                        0 <= q < after[last].1.deep_view().len() && after[last].1.deep_view()[q]
                            == x;
                    if q < items_before.len() {
                        assert(items_before[q] == x);
                    }
                }
                assert(distinct_keys(after)) by {
                    assert forall|a: int, b: int| 0 <= a < b < after.len() implies after[a].0@
                        != after[b].0@ by {
                        if b == last {
                            let a0: int = if a < i {
                                a
                            } else {
                                a + 1
                            };
                            assert(before[a0].0@ == after[a].0@);
                            assert(before[i as int].0@ == tag@);
                        }
                    }
                }
                assert(entries_wf(after)) by {
                    assert forall|j: int|
                        0 <= j < after.len() implies (#[trigger] after[j].1)@.len() > 0
                        && after[j].1.deep_view().no_duplicates() by {
                        if j == last {
                            assert(after[j].1.deep_view() == items_before.push(path@));
                            assert forall|a: int, b: int|
                                0 <= a < b < items_before.push(path@).len() implies
                                items_before.push(path@)[a] != items_before.push(path@)[b] by {
                                if b == items_before.len() {
                                    assert(items_before.contains(items_before[a])) by {
                                        assert(items_before[a] == items_before[a]);
                                    }
                                }
                            }
                        } else {
                            let j0: int = if j < i {
                                j
                            } else {
                                j + 1
                            };
                            assert(before[j0] == after[j]);
                        }
                    }
                }
                assert forall|k: Seq<char>, v: Seq<char>| #[trigger] assoc_contains(after, k, v)
                    implies (assoc_contains(before, k, v) || (k == tag@ && v == path@)) by {
                    let j = choose|j: int|
                        0 <= j < after.len() && after[j].0@ == k && after[j].1.deep_view().contains(
                            v,
                        );
                    if j == last {
                        if v != path@ {
                            assert(items_before.contains(v));
                            assert(assoc_contains(before, k, v)) by {
                                assert(before[i as int].0@ == k && before[
                                    i as int
                                ].1.deep_view().contains(v));
                            }
                        }
                    } else {
                        let j0: int = if j < i {
                            j
                        } else {
                            j + 1
                        };
                        assert(assoc_contains(before, k, v)) by {
                            assert(before[j0].0@ == k && before[j0].1.deep_view().contains(v));
                        }
                    }
                }
                assert forall|k: Seq<char>, v: Seq<char>|
                    assoc_contains(before, k, v) || (k == tag@ && v == path@) implies #[trigger]
                assoc_contains(after, k, v) by {
                    if assoc_contains(before, k, v) {
                        let j = choose|j: int|
                            0 <= j < before.len() && before[j].0@ == k
                                && before[j].1.deep_view().contains(v);
                        if j == i {
                            assert(items_before.contains(v));
                            let q = choose|q: int|
                                0 <= q < items_before.len() && items_before[q] == v;
                            assert(after[last].1.deep_view()[q] == v);
                            assert(after[last].1.deep_view().contains(v));
                        } else {
                            let j1: int = if j < i {
                                j
                            } else {
                                j - 1
                            };
                            assert(after[j1].0@ == k && after[j1].1.deep_view().contains(v));
                        }
                    } else {
                        assert(after[last].1.deep_view()[items_before.len() as int] == path@);
                        assert(after[last].1.deep_view().contains(path@));
                    }
                }
                assert forall|k: Seq<char>| #[trigger]
                assoc_has_key(after, k) <==> (assoc_has_key(before, k) || k == tag@) by {
                    if assoc_has_key(after, k) {
                        let j = choose|j: int| 0 <= j < after.len() && after[j].0@ == k;
                        if j < last {
                            let j0: int = if j < i {
                                j
                            } else {
                                j + 1
                            };
                            assert(before[j0].0@ == k);
                        }
                    }
                    if assoc_has_key(before, k) {
                        let j = choose|j: int| 0 <= j < before.len() && before[j].0@ == k;
                        if j == i {
                            assert(after[last].0@ == k);
                        } else {
                            let j1: int = if j < i {
                                j
                            } else {
                                j - 1
                            };
                            assert(after[j1].0@ == k);
                        }
                    }
                    if k == tag@ {
                        assert(after[last].0@ == k);
                    }
                }
            }
        },
        None => {
            let mut items: Vec<String> = Vec::new();
            items.push(path.clone());
            tags.push((tag.clone(), items));
            proof {
                let after = tags@;
                let last = after.len() - 1;
                assert(after[last].0@ == tag@);
                assert(after[last].1.deep_view() =~= Seq::<Seq<char>>::empty().push(path@));
                assert(after[last].1.deep_view().contains(path@)) by {
                    assert(after[last].1.deep_view()[0] == path@);
                }
                assert(forall|j: int| 0 <= j < last ==> after[j] == before[j]);
                assert(distinct_keys(after)) by {
                    assert forall|a: int, b: int| 0 <= a < b < after.len() implies after[a].0@
                        != after[b].0@ by {
                        if b == last {
                            assert(assoc_has_key(before, after[a].0@)) by {
                                assert(before[a].0@ == after[a].0@);
                            }
                        }
                    }
                }
                assert forall|k: Seq<char>, v: Seq<char>| #[trigger] assoc_contains(after, k, v)
                    implies (assoc_contains(before, k, v) || (k == tag@ && v == path@)) by {
                    let j = choose|j: int|
                        0 <= j < after.len() && after[j].0@ == k && after[j].1.deep_view().contains(
                            v,
                        );
                    if j == last {
                        assert(v == path@);
                    } else {
                        assert(assoc_contains(before, k, v)) by {
                            assert(before[j].0@ == k && before[j].1.deep_view().contains(v));
                        }
                    }
                }
                assert forall|k: Seq<char>, v: Seq<char>|
                    assoc_contains(before, k, v) || (k == tag@ && v == path@) implies #[trigger]
                assoc_contains(after, k, v) by {
                    if assoc_contains(before, k, v) {
                        let j = choose|j: int|
                            0 <= j < before.len() && before[j].0@ == k
                                && before[j].1.deep_view().contains(v);
                        assert(after[j].0@ == k && after[j].1.deep_view().contains(v));
                    } else {
                        assert(after[last].0@ == k && after[last].1.deep_view().contains(v));
                    }
                }
                assert forall|k: Seq<char>| #[trigger]
                assoc_has_key(after, k) <==> (assoc_has_key(before, k) || k == tag@) by {
                    if assoc_has_key(after, k) {
                        let j = choose|j: int| 0 <= j < after.len() && after[j].0@ == k;
                        if j < last {
                            assert(before[j].0@ == k);
                        }
                    }
                    if assoc_has_key(before, k) {
                        let j = choose|j: int| 0 <= j < before.len() && before[j].0@ == k;
                        assert(after[j].0@ == k);
                    }
                    if k == tag@ {
                        assert(after[last].0@ == k);
                    }
                }
            }
        },
    }
}


/// The tag set extracted from one note's lines.
pub open spec fn note_file_tags(nf: NoteFile) -> Set<Seq<char>> {
    note_tag_set(nf.lines.deep_view())
}

/// Whether one of the first `m` notes is at path `n` and carries tag `t`.
spec fn corpus_has_upto(files: Seq<NoteFile>, m: int, n: Seq<char>, t: Seq<char>) -> bool {
    exists|j: int|
        0 <= j < m && j < files.len() && files[j].path@ == n && note_file_tags(files[j]).contains(
            t,
        )
}

/// Whether some note of the corpus is at path `n` and carries tag `t`.
pub open spec fn corpus_has(files: Seq<NoteFile>, n: Seq<char>, t: Seq<char>) -> bool {
    exists|j: int|
        0 <= j < files.len() && files[j].path@ == n && note_file_tags(files[j]).contains(t)
}

/// The paths of the corpus are pairwise distinct.
pub open spec fn distinct_paths(files: Seq<NoteFile>) -> bool {
    forall|a: int, b: int| 0 <= a < b < files.len() ==> files[a].path@ != files[b].path@
}

/// Builds the session's index over the given notes: each note with at least
/// one extracted tag is recorded under its path with exactly its tag set,
/// and each of its tags records the note back; a note without tags is left
/// out entirely.
#[verifier::loop_isolation(false)]
pub fn process_files(files: Vec<NoteFile>) -> (r: TagIndex)
    requires
        distinct_paths(files@),
    ensures
        r.wf(),
        forall|n: Seq<char>, t: Seq<char>| #[trigger] r.note_has_tag(n, t) <==> corpus_has(
            files@,
            n,
            t,
        ),
        forall|n: Seq<char>, t: Seq<char>| #[trigger] r.tag_has_note(t, n) <==> corpus_has(
            files@,
            n,
            t,
        ),
        forall|n: Seq<char>| #[trigger] r.has_note(n) <==> exists|t: Seq<char>|
            corpus_has(files@, n, t),
        forall|t: Seq<char>| #[trigger] r.has_tag(t) <==> exists|n: Seq<char>|
            corpus_has(files@, n, t),
{
    let ghost fs = files@;
    let mut notes: Vec<(String, Vec<String>)> = Vec::new();
    let mut tags: Vec<(String, Vec<String>)> = Vec::new();
    let mut m: usize = 0;
    while m < files.len()
        invariant
            m <= files.len(),
            distinct_keys(notes@),
            distinct_keys(tags@),
            entries_wf(notes@),
            entries_wf(tags@),
            forall|n: Seq<char>, t: Seq<char>| #[trigger] assoc_contains(notes@, n, t)
                <==> corpus_has_upto(fs, m as int, n, t),
            forall|n: Seq<char>| #[trigger] assoc_has_key(notes@, n) <==> exists|t: Seq<char>|
                corpus_has_upto(fs, m as int, n, t),
            forall|t: Seq<char>, v: Seq<char>| #[trigger] assoc_contains(tags@, t, v)
                <==> corpus_has_upto(fs, m as int, v, t),
            forall|t: Seq<char>| #[trigger] assoc_has_key(tags@, t) <==> exists|n: Seq<char>|
                corpus_has_upto(fs, m as int, n, t),
        decreases files.len() - m,
    {
        let nf = &files[m];
        let ghost path = nf.path@;
        let ghost m1: int = m + 1;
        match find_tags(&nf.lines) {
            Some(tagvec) => {
                let ghost tv = tagvec.deep_view();
                proof {
                    assert(forall|t: Seq<char>| tv.contains(t) <==> note_file_tags(
                        fs[m as int],
                    ).contains(t));
                    // this path is new: an earlier note at it would repeat a path
                    assert forall|t: Seq<char>| !corpus_has_upto(fs, m as int, path, t) by {
                        if corpus_has_upto(fs, m as int, path, t) {
                            let j = choose|j: int|
                                0 <= j < m && fs[j].path@ == path && note_file_tags(
                                    fs[j],
                                ).contains(t);
                            assert(fs[j].path@ != fs[m as int].path@);
                        }
                    }
                }
                let mut k: usize = 0;
                while k < tagvec.len()
                    invariant
                        k <= tagvec.len(),
                        distinct_keys(tags@),
                        entries_wf(tags@),
                        forall|t: Seq<char>, v: Seq<char>| #[trigger] assoc_contains(tags@, t, v)
                            <==> (corpus_has_upto(fs, m as int, v, t) || (v == path && exists|
                            q: int,
                        |
                            0 <= q < k && tv[q] == t)),
                        forall|t: Seq<char>| #[trigger] assoc_has_key(tags@, t) <==> ((exists|
                            n: Seq<char>,
                        |
                            corpus_has_upto(fs, m as int, n, t)) || (exists|q: int|
                            0 <= q < k && tv[q] == t)),
                    decreases tagvec.len() - k,
                {
                    proof {
                        assert(tv[k as int] == tagvec@[k as int]@);
                        assert(!assoc_contains(tags@, tagvec@[k as int]@, path)) by {
                            if exists|q: int| 0 <= q < k && tv[q] == tv[k as int] {
                                let q = choose|q: int| 0 <= q < k && tv[q] == tv[k as int];
                                assert(!tv.no_duplicates());
                            }
                        }
                    }
                    register_tag(&mut tags, &tagvec[k], &nf.path);
                    proof {
                        assert forall|t: Seq<char>, v: Seq<char>| #[trigger] assoc_contains(
                            tags@,
                            t,
                            v,
                        ) <==> (corpus_has_upto(fs, m as int, v, t) || (v == path && exists|q: int|
                            0 <= q < k + 1 && tv[q] == t)) by {
                            if v == path && (exists|q: int| 0 <= q < k + 1 && tv[q] == t) {
                                let q = choose|q: int| 0 <= q < k + 1 && tv[q] == t;
                                if q < k {
                                    assert(exists|q2: int| 0 <= q2 < k && tv[q2] == t);
                                } else {
                                    assert(t == tv[k as int]);
                                }
                            }
                        }
                        assert forall|t: Seq<char>| #[trigger] assoc_has_key(tags@, t) <==> ((
                        exists|n: Seq<char>| corpus_has_upto(fs, m as int, n, t)) || (exists|
                            q: int,
                        |
                            0 <= q < k + 1 && tv[q] == t)) by {
                            if exists|q: int| 0 <= q < k + 1 && tv[q] == t {
                                let q = choose|q: int| 0 <= q < k + 1 && tv[q] == t;
                                if q < k {
                                    assert(exists|q2: int| 0 <= q2 < k && tv[q2] == t);
                                } else {
                                    assert(t == tv[k as int]);
                                }
                            }
                        }
                    }
                    k = k + 1;
                }
                let ghost notes_before = notes@;
                proof {
                    assert(!assoc_has_key(notes@, path)) by {
                        if assoc_has_key(notes@, path) {
                            assert(tv.len() > 0);
                            assert(tv.contains(tv[0]));
                        }
                    }
                }
                notes.push((nf.path.clone(), tagvec));
                proof {
                    let after = notes@;
                    let last = after.len() - 1;
                    assert(after[last].0@ == path);
                    assert(after[last].1.deep_view() == tv);
                    assert(forall|j: int| 0 <= j < last ==> after[j] == notes_before[j]);
                    assert(distinct_keys(after)) by {
                        assert forall|a: int, b: int| 0 <= a < b < after.len() implies after[a].0@
                            != after[b].0@ by {
                            if b == last {
                                assert(assoc_has_key(notes_before, after[a].0@)) by {
                                    assert(notes_before[a].0@ == after[a].0@);
                                }
                                assert(exists|t: Seq<char>|
                                    corpus_has_upto(fs, m as int, after[a].0@, t));
                            }
                        }
                    }
                    assert(entries_wf(after)) by {
                        assert forall|j: int|
                            0 <= j < after.len() implies (#[trigger] after[j].1)@.len() > 0
                            && after[j].1.deep_view().no_duplicates() by {
                            if j < last {
                                assert(after[j] == notes_before[j]);
                            }
                        }
                    }
                    // membership as of the longer prefix
                    assert forall|n: Seq<char>, t: Seq<char>|
                        corpus_has_upto(fs, m1, n, t) <==> (corpus_has_upto(
                            fs,
                            m as int,
                            n,
                            t,
                        ) || (n == path && tv.contains(t))) by {
                        if corpus_has_upto(fs, m1, n, t) {
                            let j = choose|j: int|
                                0 <= j < m + 1 && fs[j].path@ == n && note_file_tags(
                                    fs[j],
                                ).contains(t);
                            if j < m {
                                assert(corpus_has_upto(fs, m as int, n, t));
                            } else {
                                assert(tv.contains(t));
                            }
                        }
                        if corpus_has_upto(fs, m as int, n, t) {
                            let j = choose|j: int|
                                0 <= j < m && fs[j].path@ == n && note_file_tags(fs[j]).contains(
                                    t,
                                );
                            assert(0 <= j < m + 1 && fs[j].path@ == n && note_file_tags(
                                fs[j],
                            ).contains(t));
                        }
                        if n == path && tv.contains(t) {
                            assert(note_file_tags(fs[m as int]).contains(t));
                        }
                    }
                    assert forall|n: Seq<char>, t: Seq<char>| #[trigger] assoc_contains(
                        after,
                        n,
                        t,
                    ) <==> corpus_has_upto(fs, m1, n, t) by {
                        if assoc_contains(after, n, t) {
                            let j = choose|j: int|
                                0 <= j < after.len() && after[j].0@ == n
                                    && after[j].1.deep_view().contains(t);
                            if j < last {
                                assert(assoc_contains(notes_before, n, t)) by {
                                    assert(notes_before[j].0@ == n
                                        && notes_before[j].1.deep_view().contains(t));
                                }
                            }
                        }
                        if corpus_has_upto(fs, m1, n, t) {
                            if corpus_has_upto(fs, m as int, n, t) {
                                assert(assoc_contains(notes_before, n, t));
                                let j = choose|j: int|
                                    0 <= j < notes_before.len() && notes_before[j].0@ == n
                                        && notes_before[j].1.deep_view().contains(t);
                                assert(after[j].0@ == n && after[j].1.deep_view().contains(t));
                            } else {
                                assert(after[last].0@ == n && after[last].1.deep_view().contains(
                                    t,
                                ));
                            }
                        }
                    }
                    assert forall|n: Seq<char>| #[trigger] assoc_has_key(after, n) <==> exists|
                        t: Seq<char>,
                    | corpus_has_upto(fs, m1, n, t) by {
                        if assoc_has_key(after, n) {
                            let j = choose|j: int| 0 <= j < after.len() && after[j].0@ == n;
                            if j < last {
                                assert(assoc_has_key(notes_before, n)) by {
                                    assert(notes_before[j].0@ == n);
                                }
                            } else {
                                assert(corpus_has_upto(fs, m1, n, tv[0])) by {
                                    assert(tv.contains(tv[0]));
                                    assert(note_file_tags(fs[m as int]).contains(tv[0]));
                                }
                            }
                        }
                        if exists|t: Seq<char>| corpus_has_upto(fs, m1, n, t) {
                            let t = choose|t: Seq<char>| corpus_has_upto(fs, m1, n, t);
                            if corpus_has_upto(fs, m as int, n, t) {
                                assert(assoc_has_key(notes_before, n));
                                let j = choose|j: int|
                                    0 <= j < notes_before.len() && notes_before[j].0@ == n;
                                assert(after[j].0@ == n);
                            } else {
                                assert(after[last].0@ == n);
                            }
                        }
                    }
                    // the tags side, restated for the longer prefix
                    assert forall|t: Seq<char>, v: Seq<char>| #[trigger] assoc_contains(
                        tags@,
                        t,
                        v,
                    ) <==> corpus_has_upto(fs, m1, v, t) by {
                        assert(assoc_contains(tags@, t, v) <==> (corpus_has_upto(fs, m as int, v, t)
                            || (v == path && exists|q: int| 0 <= q < tv.len() && tv[q] == t)));
                        assert((exists|q: int| 0 <= q < tv.len() && tv[q] == t) == tv.contains(t));
                    }
                    assert forall|t: Seq<char>| #[trigger] assoc_has_key(tags@, t) <==> exists|
                        n: Seq<char>,
                    | corpus_has_upto(fs, m1, n, t) by {
                        assert((exists|q: int| 0 <= q < tv.len() && tv[q] == t) == tv.contains(t));
                        if exists|q: int| 0 <= q < tv.len() && tv[q] == t {
                            assert(corpus_has_upto(fs, m1, path, t)) by {
                                assert(note_file_tags(fs[m as int]).contains(t));
                            }
                        }
                        if exists|n: Seq<char>| corpus_has_upto(fs, m1, n, t) {
                            let n = choose|n: Seq<char>| corpus_has_upto(fs, m1, n, t);
                            if corpus_has_upto(fs, m as int, n, t) {
                                assert(exists|n2: Seq<char>| corpus_has_upto(fs, m as int, n2, t));
                            } else {
                                let j = choose|j: int|
                                    0 <= j < m + 1 && fs[j].path@ == n && note_file_tags(
                                        fs[j],
                                    ).contains(t);
                                assert(j == m);
                                assert(tv.contains(t));
                                let q = choose|q: int| 0 <= q < tv.len() && tv[q] == t;
                                assert(exists|q2: int| 0 <= q2 < tv.len() && tv[q2] == t);
                            }
                        }
                    }
                }
            },
            None => {
                proof {
                    assert forall|n: Seq<char>, t: Seq<char>|
                        corpus_has_upto(fs, m1, n, t) <==> corpus_has_upto(
                            fs,
                            m as int,
                            n,
                            t,
                        ) by {
                        if corpus_has_upto(fs, m1, n, t) {
                            let j = choose|j: int|
                                0 <= j < m + 1 && fs[j].path@ == n && note_file_tags(
                                    fs[j],
                                ).contains(t);
                            if j == m {
                                assert(!note_tag_set(fs[m as int].lines.deep_view()).contains(t));
                            } else {
                                assert(corpus_has_upto(fs, m as int, n, t));
                            }
                        }
                        if corpus_has_upto(fs, m as int, n, t) {
                            let j = choose|j: int|
                                0 <= j < m && fs[j].path@ == n && note_file_tags(fs[j]).contains(
                                    t,
                                );
                            assert(0 <= j < m + 1 && fs[j].path@ == n && note_file_tags(
                                fs[j],
                            ).contains(t));
                        }
                    }
                }
            },
        }
        m = m + 1;
    }
    let r = TagIndex { notes, tags };
    proof {
        assert forall|n: Seq<char>, t: Seq<char>|
            corpus_has_upto(fs, fs.len() as int, n, t) <==> corpus_has(fs, n, t) by {}
        assert forall|n: Seq<char>| #[trigger] r.has_note(n) <==> (exists|t: Seq<char>|
            corpus_has(fs, n, t)) by {
            if r.has_note(n) {
                let t = choose|t: Seq<char>| corpus_has_upto(fs, m as int, n, t);
                assert(corpus_has(fs, n, t));
            }
            if exists|t: Seq<char>| corpus_has(fs, n, t) {
                let t = choose|t: Seq<char>| corpus_has(fs, n, t);
                assert(corpus_has_upto(fs, m as int, n, t));
            }
        }
        assert forall|t: Seq<char>| #[trigger] r.has_tag(t) <==> (exists|n: Seq<char>|
            corpus_has(fs, n, t)) by {
            if r.has_tag(t) {
                let n = choose|n: Seq<char>| corpus_has_upto(fs, m as int, n, t);
                assert(corpus_has(fs, n, t));
            }
            if exists|n: Seq<char>| corpus_has(fs, n, t) {
                let n = choose|n: Seq<char>| corpus_has(fs, n, t);
                assert(corpus_has_upto(fs, m as int, n, t));
            }
        }
        assert(r.wf()) by {
            assert forall|n: Seq<char>, t: Seq<char>| #![trigger r.note_has_tag(n, t)]
                #![trigger r.tag_has_note(t, n)]
            r.note_has_tag(n, t) <==> r.tag_has_note(t, n) by {
                assert(r.note_has_tag(n, t) == assoc_contains(r.notes@, n, t));
                assert(r.tag_has_note(t, n) == assoc_contains(r.tags@, t, n));
            }
            assert forall|n: Seq<char>| #[trigger] r.has_note(n) implies exists|t: Seq<char>|
                r.note_has_tag(n, t) by {
                let t = choose|t: Seq<char>| corpus_has_upto(fs, m as int, n, t);
                assert(r.note_has_tag(n, t));
            }
            assert forall|t: Seq<char>| #[trigger] r.has_tag(t) implies exists|n: Seq<char>|
                r.tag_has_note(t, n) by {
                let n = choose|n: Seq<char>| corpus_has_upto(fs, m as int, n, t);
                assert(r.tag_has_note(t, n));
            }
        }
    }
    r
}

/// Every note of the corpus is listed in the index built from it under
/// exactly the tags extracted from its lines, and stands in the index at
/// all exactly when that tag set is non-empty.
pub proof fn lemma_index_covers_corpus(idx: TagIndex, files: Seq<NoteFile>, j: int)
    requires
        idx.wf(),
        distinct_paths(files),
        forall|n: Seq<char>, t: Seq<char>| #[trigger] idx.note_has_tag(n, t) <==> corpus_has(
            files,
            n,
            t,
        ),
        forall|n: Seq<char>| #[trigger] idx.has_note(n) <==> exists|t: Seq<char>|
            corpus_has(files, n, t),
        0 <= j < files.len(),
    ensures
        forall|t: Seq<char>| #[trigger] idx.tag_has_note(t, files[j].path@) <==> note_file_tags(
            files[j],
        ).contains(t),
        idx.has_note(files[j].path@) <==> !(note_file_tags(files[j]) =~= Set::<Seq<char>>::empty()),
{
    let p = files[j].path@;
    assert forall|t: Seq<char>|
        corpus_has(files, p, t) <==> note_file_tags(files[j]).contains(t) by {
        if corpus_has(files, p, t) {
            let j2 = choose|j2: int|
                0 <= j2 < files.len() && files[j2].path@ == p && note_file_tags(
                    files[j2],
                ).contains(t);
            if j2 != j {
                if j2 < j {
                    assert(files[j2].path@ != files[j].path@);
                } else {
                    assert(files[j].path@ != files[j2].path@);
                }
            }
        }
    }
    assert forall|t: Seq<char>| #[trigger]
    idx.tag_has_note(t, p) <==> note_file_tags(files[j]).contains(t) by {
        assert(idx.note_has_tag(p, t) <==> idx.tag_has_note(t, p));
        assert(idx.note_has_tag(p, t) <==> corpus_has(files, p, t));
    }
    if idx.has_note(p) {
        let t = choose|t: Seq<char>| corpus_has(files, p, t);
        assert(note_file_tags(files[j]).contains(t));
    }
    if !(note_file_tags(files[j]) =~= Set::<Seq<char>>::empty()) {
        assert(exists|t: Seq<char>| note_file_tags(files[j]).contains(t)) by {
            if forall|t: Seq<char>| !note_file_tags(files[j]).contains(t) {
                assert(note_file_tags(files[j]) =~= Set::<Seq<char>>::empty());
            }
        }
        let t = choose|t: Seq<char>| note_file_tags(files[j]).contains(t);
        assert(corpus_has(files, p, t));
    }
}

/// For every tag and note of a well-formed index, the note's tag set holds
/// the tag exactly when the tag's note set holds the note.
pub proof fn lemma_index_bidirectional(idx: TagIndex)
    requires
        idx.wf(),
    ensures
        forall|n: Seq<char>, t: Seq<char>| #![trigger idx.note_has_tag(n, t)]
            #![trigger idx.tag_has_note(t, n)]
            idx.note_has_tag(n, t) <==> idx.tag_has_note(t, n),
{
}


/// The `+`-separated pieces of a query line from position `i` on: split at
/// every `+`, empty pieces kept.
pub open spec fn split_plus_from(s: Seq<char>, i: int) -> Seq<Seq<char>>
    decreases s.len() - i,
    when 0 <= i <= s.len()
    via split_plus_from_dec
{
    let k = scan_while(s, i, |c: char| c != '+');
    if k == s.len() {
        seq![s.subrange(i, k)]
    } else {
        seq![s.subrange(i, k)] + split_plus_from(s, k + 1)
    }
}

#[via_fn]
proof fn split_plus_from_dec(s: Seq<char>, i: int) {
    lemma_scan_while(s, i, |c: char| c != '+');
}

/// The `+`-joined terms of a query line.
pub open spec fn split_plus(s: Seq<char>) -> Seq<Seq<char>> {
    split_plus_from(s, 0)
}

/// Splits a query line at every `+`.
fn split_terms(line: &str) -> (r: Vec<String>)
    ensures
        r.deep_view() == split_plus(line@),
        r@.len() >= 1,
{
    let ghost s = line@;
    let cs = chars_vec(line);
    let n = cs.len();
    let mut terms: Vec<String> = Vec::new();
    let mut start: usize = 0;
    loop
        invariant_except_break
            terms.deep_view() + split_plus_from(s, start as int) == split_plus(s),
        invariant
            s == line@,
            cs@ == s,
            n == s.len(),
            n == cs.len(),
            start <= n,
        ensures
            terms.deep_view() == split_plus(s),
            terms@.len() >= 1,
        decreases n - start,
    {
        let mut k: usize = start;
        while k < n && cs[k] != '+'
            invariant
                start <= k <= n,
                cs@ == s,
                n == s.len(),
                n == cs.len(),
                forall|j: int| start <= j < k ==> s[j] != '+',
            decreases n - k,
        {
            k = k + 1;
        }
        proof {
            lemma_scan_while_stops(s, start as int, k as int, |c: char| c != '+');
        }
        let piece = line.substring_char(start, k).to_owned();
        let ghost word = s.subrange(start as int, k as int);
        let ghost before = terms.deep_view();
        terms.push(piece);
        proof {
            assert(terms.deep_view() =~= before.push(word));
            assert(before.push(word) =~= before + seq![word]);
        }
        if k == n {
            proof {
                assert(split_plus_from(s, start as int) =~= seq![word]);
                assert(terms.deep_view() =~= before + split_plus_from(s, start as int));
            }
            break ;
        }
        proof {
            assert(split_plus_from(s, start as int) =~= seq![word] + split_plus_from(
                s,
                k + 1 as int,
            ));
            assert(before + (seq![word] + split_plus_from(s, k + 1 as int)) =~= (before
                + seq![word]) + split_plus_from(s, k + 1 as int));
        }
        start = k + 1;
    }
    terms
}

/// Clones a vector of strings, keeping every element equal.
fn clone_strings(v: &Vec<String>) -> (r: Vec<String>)
    ensures
        r@ == v@,
        r.deep_view() == v.deep_view(),
{
    let mut r: Vec<String> = Vec::new();
    let mut i: usize = 0;
    while i < v.len()
        invariant
            i <= v.len(),
            r@ =~= v@.subrange(0, i as int),
        decreases v.len() - i,
    {
        r.push(v[i].clone());
        proof {
            assert(r@ =~= v@.subrange(0, i + 1));
        }
        i = i + 1;
    }
    proof {
        assert(r@ =~= v@);
        assert(r.deep_view() =~= v.deep_view());
    }
    r
}

/// Keeps the elements of `acc` that `other` also holds, in order.
fn filter_by(acc: Vec<String>, other: &Vec<String>) -> (r: Vec<String>)
    requires
        acc.deep_view().no_duplicates(),
    ensures
        r.deep_view().no_duplicates(),
        forall|x: Seq<char>| #[trigger] r.deep_view().contains(x) <==> (acc.deep_view().contains(
            x,
        ) && other.deep_view().contains(x)),
{
    let ghost av = acc.deep_view();
    let mut r: Vec<String> = Vec::new();
    let mut i: usize = 0;
    while i < acc.len()
        invariant
            i <= acc.len(),
            av == acc.deep_view(),
            av.no_duplicates(),
            r.deep_view().no_duplicates(),
            forall|x: Seq<char>| #[trigger] r.deep_view().contains(x) ==> exists|q: int|
                0 <= q < i && av[q] == x,
            forall|x: Seq<char>| #[trigger] r.deep_view().contains(x) ==> other.deep_view().contains(
                x,
            ),
            forall|q: int| 0 <= q < i ==> (r.deep_view().contains(#[trigger] av[q])
                <==> other.deep_view().contains(av[q])),
        decreases acc.len() - i,
    {
        proof {
            assert(av[i as int] == acc@[i as int]@);
        }
        if contains_string(other, &acc[i]) {
            let ghost before = r.deep_view();
            proof {
                assert(!before.contains(av[i as int])) by {
                    if before.contains(av[i as int]) {
                        let q = choose|q: int| 0 <= q < i && av[q] == av[i as int];
                        assert(!av.no_duplicates());
                    }
                }
            }
            r.push(acc[i].clone());
            proof {
                assert(r.deep_view() =~= before.push(av[i as int]));
                assert forall|a: int, b: int|
                    0 <= a < b < r.deep_view().len() implies r.deep_view()[a]
                    != r.deep_view()[b] by {
                    if b == before.len() {
                        assert(before.contains(before[a])) by {
                            assert(before[a] == before[a]);
                        }
                    }
                }
                assert forall|x: Seq<char>| #[trigger] r.deep_view().contains(x) implies (exists|
                    q: int,
                |
                    0 <= q < i + 1 && av[q] == x) && other.deep_view().contains(x) by {
                    let b = choose|b: int|
                        0 <= b < r.deep_view().len() && r.deep_view()[b] == x;
                    if b < before.len() {
                        assert(before[b] == x);
                        assert(before.contains(x));
                    } else {
                        assert(x == av[i as int]);
                    }
                }
                assert(r.deep_view().contains(av[i as int])) by {
                    assert(r.deep_view()[before.len() as int] == av[i as int]);
                }
                assert forall|q: int|
                    0 <= q < i + 1 implies (r.deep_view().contains(#[trigger] av[q])
                    <==> other.deep_view().contains(av[q])) by {
                    if q < i {
                        if other.deep_view().contains(av[q]) {
                            assert(before.contains(av[q]));
                            let b = choose|b: int|
                                0 <= b < before.len() && before[b] == av[q];
                            assert(r.deep_view()[b] == av[q]);
                        }
                    }
                }
            }
        } else {
            proof {
                assert(!other.deep_view().contains(av[i as int]));
                assert forall|q: int|
                    0 <= q < i + 1 implies (r.deep_view().contains(#[trigger] av[q])
                    <==> other.deep_view().contains(av[q])) by {
                    if q == i {
                        if r.deep_view().contains(av[q]) {
                            assert(other.deep_view().contains(av[q]));
                        }
                    }
                }
                assert forall|x: Seq<char>| #[trigger] r.deep_view().contains(x) implies exists|
                    q: int,
                | 0 <= q < i + 1 && av[q] == x by {
                    let q = choose|q: int| 0 <= q < i && av[q] == x;
                    assert(0 <= q < i + 1 && av[q] == x);
                }
            }
        }
        i = i + 1;
    }
    proof {
        assert forall|x: Seq<char>| #[trigger]
        r.deep_view().contains(x) <==> (av.contains(x) && other.deep_view().contains(x)) by {
            if r.deep_view().contains(x) {
                let q = choose|q: int| 0 <= q < acc@.len() && av[q] == x;
                assert(av.contains(x)) by {
                    assert(av[q] == x);
                }
            }
            if av.contains(x) && other.deep_view().contains(x) {
                let q = choose|q: int| 0 <= q < av.len() && av[q] == x;
                assert(r.deep_view().contains(av[q]) <==> other.deep_view().contains(av[q]));
            }
        }
    }
    r
}

impl TagIndex {
    /// The notes recorded under `tag`, or `None` when the index does not
    /// know the tag.
    pub fn notes_of_tag(&self, tag: &String) -> (r: Option<&Vec<String>>)
        requires
            self.wf(),
        ensures
            match r {
                Some(v) => self.has_tag(tag@) && v.deep_view().no_duplicates() && (forall|
                    n: Seq<char>,
                | #[trigger] v.deep_view().contains(n) <==> self.tag_has_note(tag@, n)),
                None => !self.has_tag(tag@),
            },
    {
        match assoc_find(&self.tags, tag) {
            Some(i) => {
                let v = &self.tags[i].1;
                proof {
                    assert(self.has_tag(tag@)) by {
                        assert(self.tags@[i as int].0@ == tag@);
                    }
                    assert forall|n: Seq<char>| #[trigger]
                    v.deep_view().contains(n) <==> self.tag_has_note(tag@, n) by {
                        if v.deep_view().contains(n) {
                            assert(assoc_contains(self.tags@, tag@, n)) by {
                                assert(self.tags@[i as int].0@ == tag@ && self.tags@[
                                    i as int
                                ].1.deep_view().contains(n));
                            }
                        }
                        if self.tag_has_note(tag@, n) {
                            let j = choose|j: int|
                                0 <= j < self.tags@.len() && self.tags@[j].0@ == tag@
                                    && self.tags@[j].1.deep_view().contains(n);
                            if j != i {
                                if j < i {
                                    assert(self.tags@[j].0@ != self.tags@[i as int].0@);
                                } else {
                                    assert(self.tags@[i as int].0@ != self.tags@[j].0@);
                                }
                            }
                        }
                    }
                }
                Some(v)
            },
            None => None,
        }
    }

    /// The tags recorded for the note at `path`, or `None` when the index
    /// does not hold the note.
    pub fn tags_of_note(&self, path: &String) -> (r: Option<&Vec<String>>)
        requires
            self.wf(),
        ensures
            match r {
                Some(v) => self.has_note(path@) && v.deep_view().no_duplicates() && (forall|
                    t: Seq<char>,
                | #[trigger] v.deep_view().contains(t) <==> self.note_has_tag(path@, t)),
                None => !self.has_note(path@),
            },
    {
        match assoc_find(&self.notes, path) {
            Some(i) => {
                let v = &self.notes[i].1;
                proof {
                    assert(self.has_note(path@)) by {
                        assert(self.notes@[i as int].0@ == path@);
                    }
                    assert forall|t: Seq<char>| #[trigger]
                    v.deep_view().contains(t) <==> self.note_has_tag(path@, t) by {
                        if v.deep_view().contains(t) {
                            assert(assoc_contains(self.notes@, path@, t)) by {
                                assert(self.notes@[i as int].0@ == path@ && self.notes@[
                                    i as int
                                ].1.deep_view().contains(t));
                            }
                        }
                        if self.note_has_tag(path@, t) {
                            let j = choose|j: int|
                                0 <= j < self.notes@.len() && self.notes@[j].0@ == path@
                                    && self.notes@[j].1.deep_view().contains(t);
                            if j != i {
                                if j < i {
                                    assert(self.notes@[j].0@ != self.notes@[i as int].0@);
                                } else {
                                    assert(self.notes@[i as int].0@ != self.notes@[j].0@);
                                }
                            }
                        }
                    }
                }
                Some(v)
            },
            None => None,
        }
    }

    /// The tags the index knows, each once, in ascending lexicographic
    /// order by code point.
    pub fn tag_list(&self) -> (r: Vec<String>)
        requires
            self.wf(),
        ensures
            r.deep_view().no_duplicates(),
            forall|t: Seq<char>| #[trigger] r.deep_view().contains(t) <==> self.has_tag(t),
            forall|a: int, b: int| 0 <= a < b < r.deep_view().len() ==> lex_le(
                r.deep_view()[a],
                r.deep_view()[b],
            ),
    {
        let mut r: Vec<String> = Vec::new();
        let mut i: usize = 0;
        while i < self.tags.len()
            invariant
                i <= self.tags@.len(),
                self.wf(),
                r.deep_view().no_duplicates(),
                forall|t: Seq<char>| #[trigger] r.deep_view().contains(t) <==> exists|j: int|
                    0 <= j < i && self.tags@[j].0@ == t,
                forall|a: int, b: int| 0 <= a < b < r.deep_view().len() ==> lex_le(
                    r.deep_view()[a],
                    r.deep_view()[b],
                ),
            decreases self.tags.len() - i,
        {
            let key = self.tags[i].0.clone();
            let ghost kv = key@;
            let ghost before = r.deep_view();
            proof {
                assert(kv == self.tags@[i as int].0@);
                assert(!before.contains(kv)) by {
                    if before.contains(kv) {
                        let j = choose|j: int| 0 <= j < i && self.tags@[j].0@ == kv;
                        assert(self.tags@[j].0@ != self.tags@[i as int].0@);
                    }
                }
            }
            // the first place whose entry does not come before the key
            let mut idx: usize = 0;
            while idx < r.len() && !str_le(&key, &r[idx])
                invariant
                    idx <= r@.len(),
                    kv == key@,
                    before == r.deep_view(),
                    forall|j: int| 0 <= j < idx ==> !lex_le(kv, #[trigger] before[j]),
                decreases r.len() - idx,
            {
                proof {
                    assert(before[idx as int] == r@[idx as int]@);
                }
                idx = idx + 1;
            }
            proof {
                if idx < r@.len() {
                    assert(before[idx as int] == r@[idx as int]@);
                }
            }
            r.insert(idx, key);
            proof {
                let after = r.deep_view();
                assert(after.len() == before.len() + 1);
                assert forall|j: int| 0 <= j < after.len() implies after[j] == (if j < idx {
                    before[j]
                } else if j == idx {
                    kv
                } else {
                    before[j - 1]
                }) by {
                    assert(after[j] == r@[j]@);
                }
                assert forall|a: int, b: int| 0 <= a < b < after.len() implies lex_le(
                    after[a],
                    after[b],
                ) by {
                    if a < idx && b == idx {
                        lemma_lex_total(kv, before[a], 0);
                    } else if a == idx && b > idx {
                        assert(lex_le(kv, before[idx as int]));
                        if b - 1 > idx {
                            assert(lex_le(before[idx as int], before[b - 1]));
                            lemma_lex_trans(kv, before[idx as int], before[b - 1], 0);
                        }
                    }
                }
                assert forall|t: Seq<char>| #[trigger] after.contains(t) implies (exists|j: int|
                    0 <= j < i + 1 && self.tags@[j].0@ == t) by {
                    let q = choose|q: int| 0 <= q < after.len() && after[q] == t;
                    if q != idx {
                        let q0: int = if q < idx {
                            q
                        } else {
                            q - 1
                        };
                        assert(before.contains(t)) by {
                            assert(before[q0] == t);
                        }
                        let j = choose|j: int| 0 <= j < i && self.tags@[j].0@ == t;
                        assert(0 <= j < i + 1 && self.tags@[j].0@ == t);
                    } else {
                        assert(self.tags@[i as int].0@ == t);
                    }
                }
                assert forall|t: Seq<char>|
                    (exists|j: int| 0 <= j < i + 1 && self.tags@[j].0@ == t) implies #[trigger]
                after.contains(t) by {
                    let j = choose|j: int| 0 <= j < i + 1 && self.tags@[j].0@ == t;
                    if j < i {
                        assert(before.contains(t));
                        let q = choose|q: int| 0 <= q < before.len() && before[q] == t;
                        if q < idx {
                            assert(after[q] == t);
                        } else {
                            assert(after[q + 1] == t);
                        }
                    } else {
                        assert(after[idx as int] == t);
                    }
                }
                assert forall|a: int, b: int|
                    0 <= a < b < after.len() implies after[a] != after[b] by {
                    if b == idx {
                        assert(before.contains(before[a])) by {
                            assert(before[a] == before[a]);
                        }
                    } else if a == idx {
                        assert(before.contains(before[b - 1])) by {
                            assert(before[b - 1] == before[b - 1]);
                        }
                    }
                }
            }
            i = i + 1;
        }
        proof {
            assert forall|t: Seq<char>| #[trigger]
            r.deep_view().contains(t) <==> self.has_tag(t) by {
                if r.deep_view().contains(t) {
                    let j = choose|j: int|
                        0 <= j < self.tags@.len() && self.tags@[j].0@ == t;
                    assert(assoc_has_key(self.tags@, t));
                }
                if self.has_tag(t) {
                    let j = choose|j: int| 0 <= j < self.tags@.len() && self.tags@[j].0@ == t;
                    assert(exists|j2: int| 0 <= j2 < i && self.tags@[j2].0@ == t);
                }
            }
        }
        r
    }

    /// Resolves a `+`-joined tag-intersection query against the index: the
    /// notes that carry every term, each once. Every term must name a known
    /// tag; a query with any unknown term reports `UnknownTag` rather than
    /// an empty result.
    #[verifier::loop_isolation(false)]
    pub fn query(&self, line: &str) -> (r: Result<Vec<String>, ExomemError>)
        requires
            self.wf(),
        ensures
            r is Ok <==> (forall|j: int| 0 <= j < split_plus(line@).len() ==> self.has_tag(
                #[trigger] split_plus(line@)[j],
            )),
            match r {
                Ok(v) => v.deep_view().no_duplicates() && (forall|n: Seq<char>| #[trigger]
                v.deep_view().contains(n) <==> (forall|j: int|
                    0 <= j < split_plus(line@).len() ==> self.tag_has_note(
                        #[trigger] split_plus(line@)[j],
                        n,
                    ))),
                Err(e) => e == ExomemError::UnknownTag,
            },
    {
        let ghost tseq = split_plus(line@);
        let terms = split_terms(line);
        // every term must name a known tag
        let mut j: usize = 0;
        while j < terms.len()
            invariant
                j <= terms@.len(),
                self.wf(),
                terms.deep_view() == tseq,
                forall|q: int| 0 <= q < j ==> self.has_tag(#[trigger] tseq[q]),
            decreases terms.len() - j,
        {
            proof {
                assert(tseq[j as int] == terms@[j as int]@);
            }
            match self.notes_of_tag(&terms[j]) {
                Some(_) => {},
                None => {
                    assert(!self.has_tag(tseq[j as int]));
                    return Err(ExomemError::UnknownTag);
                },
            }
            j = j + 1;
        }
        // intersect the note sets of the terms, left to right
        proof {
            assert(tseq[0] == terms@[0]@);
        }
        let mut acc: Vec<String>;
        match self.notes_of_tag(&terms[0]) {
            Some(v0) => {
                acc = clone_strings(v0);
            },
            None => {
                proof {
                    assert(false);
                }
                return Err(ExomemError::UnknownTag);
            },
        }
        proof {
            assert forall|n: Seq<char>| #[trigger]
            acc.deep_view().contains(n) <==> (forall|q: int|
                0 <= q < 1 ==> self.tag_has_note(#[trigger] tseq[q], n)) by {
                if forall|q: int| 0 <= q < 1 ==> self.tag_has_note(#[trigger] tseq[q], n) {
                    assert(self.tag_has_note(tseq[0], n));
                }
            }
        }
        let mut k: usize = 1;
        while k < terms.len()
            invariant
                1 <= k <= terms@.len(),
                self.wf(),
                terms.deep_view() == tseq,
                forall|q: int| 0 <= q < terms@.len() ==> self.has_tag(#[trigger] tseq[q]),
                acc.deep_view().no_duplicates(),
                forall|n: Seq<char>| #[trigger] acc.deep_view().contains(n) <==> (forall|q: int|
                    0 <= q < k ==> self.tag_has_note(#[trigger] tseq[q], n)),
            decreases terms.len() - k,
        {
            if acc.len() == 0 {
                // the accumulator is already empty: no note can carry every term
                proof {
                    assert forall|n: Seq<char>| #[trigger]
                    acc.deep_view().contains(n) <==> (forall|q: int|
                        0 <= q < tseq.len() ==> self.tag_has_note(#[trigger] tseq[q], n)) by {
                        if forall|q: int|
                            0 <= q < tseq.len() ==> self.tag_has_note(#[trigger] tseq[q], n) {
                            assert forall|q: int|
                                0 <= q < k implies self.tag_has_note(#[trigger] tseq[q], n) by {
                                assert(self.tag_has_note(tseq[q], n));
                            }
                        }
                    }
                }
                return Ok(acc);
            }
            proof {
                assert(tseq[k as int] == terms@[k as int]@);
            }
            let ghost acc_before = acc.deep_view();
            match self.notes_of_tag(&terms[k]) {
                Some(vk) => {
                    acc = filter_by(acc, vk);
                    proof {
                        assert forall|n: Seq<char>| #[trigger]
                        acc.deep_view().contains(n) <==> (forall|q: int|
                            0 <= q < k + 1 ==> self.tag_has_note(#[trigger] tseq[q], n)) by {
                            if acc.deep_view().contains(n) {
                                assert(acc_before.contains(n));
                                assert(vk.deep_view().contains(n));
                                assert forall|q: int|
                                    0 <= q < k + 1 implies self.tag_has_note(
                                    #[trigger] tseq[q],
                                    n,
                                ) by {
                                    if q < k {
                                        assert(self.tag_has_note(tseq[q], n));
                                    } else {
                                        assert(self.tag_has_note(tseq[k as int], n));
                                    }
                                }
                            }
                            if forall|q: int|
                                0 <= q < k + 1 ==> self.tag_has_note(#[trigger] tseq[q], n) {
                                assert forall|q: int|
                                    0 <= q < k implies self.tag_has_note(
                                    #[trigger] tseq[q],
                                    n,
                                ) by {
                                    assert(self.tag_has_note(tseq[q], n));
                                }
                                assert(acc_before.contains(n));
                                assert(self.tag_has_note(tseq[k as int], n));
                                assert(vk.deep_view().contains(n));
                            }
                        }
                    }
                },
                None => {
                    proof {
                        assert(false);
                    }
                    return Err(ExomemError::UnknownTag);
                },
            }
            k = k + 1;
        }
        Ok(acc)
    }
}

} // verus!

//! Extraction of hashtag tags from the lines of one note.
//!
//! A line contributes tags through its leftmost hashtag run: a maximal
//! sequence of `#word` tokens (word characters only) separated by spaces or
//! tabs. The tag set of a note is the union over its lines. Matching is
//! line-local: a run split across a line break is not recognized.
use vstd::prelude::*;

use crate::text::{is_word_char, is_run_space, word_char, run_space, scan_while, lemma_scan_while,
    lemma_scan_while_stops, chars_vec, contains_string};
use vstd::string::StrSliceExecFns;

verus! {

/// Whether a hashtag token starts at position `i`: a `#` immediately
/// followed by a word character.
pub open spec fn run_start(s: Seq<char>, i: int) -> bool {
    0 <= i && i + 1 < s.len() && s[i] == '#' && is_word_char(s[i + 1])
}

/// The words of the hashtag run that begins at `i`: the token at `i`, and
/// the tokens of the rest of the run, which continues after one or more
/// spaces or tabs with another `#word` token.
pub open spec fn run_tags(s: Seq<char>, i: int) -> Set<Seq<char>>
    decreases s.len() - i,
    when run_start(s, i)
    via run_tags_dec
{
    let e = scan_while(s, i + 1, |c: char| is_word_char(c));
    let w = s.subrange(i + 1, e);
    let k = scan_while(s, e, |c: char| is_run_space(c));
    if k > e && run_start(s, k) {
        run_tags(s, k).insert(w)
    } else {
        set![w]
    }
}

#[via_fn]
proof fn run_tags_dec(s: Seq<char>, i: int) {
    if run_start(s, i) {
        lemma_scan_while(s, i + 1, |c: char| is_word_char(c));
        lemma_scan_while(s, i + 2, |c: char| is_word_char(c));
        assert(scan_while(s, i + 1, |c: char| is_word_char(c)) == scan_while(
            s,
            i + 2,
            |c: char| is_word_char(c),
        ));
        let e = scan_while(s, i + 1, |c: char| is_word_char(c));
        lemma_scan_while(s, e, |c: char| is_run_space(c));
    }
}

/// The position of the first hashtag token at or after `i`, or -1 if the
/// rest of the line has none.
pub open spec fn first_run_from(s: Seq<char>, i: int) -> int
    decreases s.len() - i,
    when 0 <= i
{
    if i + 1 >= s.len() {
        -1
    } else if run_start(s, i) {
        i
    } else {
        first_run_from(s, i + 1)
    }
}

/// The tags contributed by one line: the words of its leftmost hashtag run.
pub open spec fn line_tag_set(s: Seq<char>) -> Set<Seq<char>> {
    let p = first_run_from(s, 0);
    if p >= 0 {
        run_tags(s, p)
    } else {
        Set::empty()
    }
}

/// All tags of a note: the union of the tag sets of its lines.
pub open spec fn note_tag_set(lines: Seq<Seq<char>>) -> Set<Seq<char>>
    decreases lines.len(),
{
    if lines.len() == 0 {
        Set::empty()
    } else {
        note_tag_set(lines.drop_last()).union(line_tag_set(lines.last()))
    }
}

/// The collected words and the words of the rest of the run together make
/// up the base words and the words of the whole run.
spec fn run_absorbed(
    acc: Seq<Seq<char>>,
    rest: Set<Seq<char>>,
    base: Seq<Seq<char>>,
    full: Set<Seq<char>>,
) -> bool {
    forall|t: Seq<char>| (acc.contains(t) || rest.contains(t)) <==> (base.contains(t)
        || full.contains(t))
}

/// Pushes `w` unless an equal string is already present, keeping the
/// elements distinct.
fn push_unique(acc: &mut Vec<String>, w: String)
    requires
        old(acc).deep_view().no_duplicates(),
    ensures
        final(acc).deep_view().no_duplicates(),
        forall|t: Seq<char>| final(acc).deep_view().contains(t) <==> old(
            acc,
        ).deep_view().contains(t) || t == w@,
{
    let ghost wv = w@;
    if !contains_string(acc, &w) {
        let ghost before = acc.deep_view();
        acc.push(w);
        proof {
            assert(acc.deep_view() =~= before.push(wv));
            assert forall|i: int, j: int|
                0 <= i < j < acc.deep_view().len() implies acc.deep_view()[i]
                != acc.deep_view()[j] by {
                if j < before.len() {
                } else {
                    assert(acc.deep_view()[j] == wv);
                }
            }
            assert forall|t: Seq<char>| acc.deep_view().contains(t) implies before.contains(t) || t
                == wv by {
                let i = choose|i: int|
                    0 <= i < acc.deep_view().len() && acc.deep_view()[i] == t;
                if i < before.len() {
                    assert(before[i] == t);
                }
            }
            assert forall|t: Seq<char>| before.contains(t) || t == wv implies
                acc.deep_view().contains(t) by {
                if before.contains(t) {
                    let i = choose|i: int| 0 <= i < before.len() && before[i] == t;
                    assert(acc.deep_view()[i] == t);
                } else {
                    assert(acc.deep_view()[before.len() as int] == t);
                }
            }
        }
    } else {
        assert(acc.deep_view().contains(wv));
    }
}

/// Adds the tags of one line to `acc`, keeping the elements distinct.
#[verifier::loop_isolation(false)]
fn line_tags_into(line: &str, acc: &mut Vec<String>)
    requires
        old(acc).deep_view().no_duplicates(),
    ensures
        final(acc).deep_view().no_duplicates(),
        forall|t: Seq<char>| final(acc).deep_view().contains(t) <==> old(
            acc,
        ).deep_view().contains(t) || line_tag_set(line@).contains(t),
{
    let ghost s = line@;
    let ghost start_dv = acc.deep_view();
    let cs = chars_vec(line);
    let n = cs.len();
    // the leftmost hashtag token, if the line has one
    let mut i: usize = 0;
    while i < n
        invariant
            i <= n,
            first_run_from(s, 0) == first_run_from(s, i as int),
        decreases n - i,
    {
        if cs[i] == '#' && i + 1 < n && word_char(cs[i + 1]) {
            break ;
        }
        assert(!run_start(s, i as int));
        i = i + 1;
    }
    if i == n {
        assert(first_run_from(s, n as int) == -1);
        return ;
    }
    assert(run_start(s, i as int));
    assert(first_run_from(s, 0) == i as int);
    let ghost p0 = i as int;
    // walk the run token by token, collecting each word
    let mut cur: usize = i;
    proof {
        assert(run_absorbed(acc.deep_view(), run_tags(s, p0), start_dv, run_tags(s, p0))) by {
            assert(acc.deep_view() == start_dv);
        }
    }
    #[verifier::loop_isolation(true)]
    loop
        invariant_except_break
            run_start(s, cur as int),
            cur < n,
            run_absorbed(acc.deep_view(), run_tags(s, cur as int), start_dv, run_tags(s, p0)),
        invariant
            s == line@,
            cs@ == s,
            n == s.len(),
            n == cs.len(),
            acc.deep_view().no_duplicates(),
        ensures
            acc.deep_view().no_duplicates(),
            forall|t: Seq<char>| acc.deep_view().contains(t) <==> (start_dv.contains(t)
                || run_tags(s, p0).contains(t)),
        decreases n - cur,
    {
        let mut e: usize = cur + 1;
        while e < n && word_char(cs[e])
            invariant
                cur + 1 <= e <= n,
                forall|k: int| cur + 1 <= k < e ==> is_word_char(s[k]),
            decreases n - e,
        {
            e = e + 1;
        }
        proof {
            lemma_scan_while_stops(s, cur + 1 as int, e as int, |c: char| is_word_char(c));
        }
        let w = line.substring_char(cur + 1, e).to_owned();
        let ghost word = s.subrange(cur + 1 as int, e as int);
        let ghost run_here = run_tags(s, cur as int);
        // skip spaces and tabs; another token continues the run
        let mut k: usize = e;
        while k < n && run_space(cs[k])
            invariant
                e <= k <= n,
                forall|j: int| e <= j < k ==> is_run_space(s[j]),
            decreases n - k,
        {
            k = k + 1;
        }
        proof {
            lemma_scan_while_stops(s, e as int, k as int, |c: char| is_run_space(c));
        }
        let ghost pre = acc.deep_view();
        proof {
            assert(forall|t: Seq<char>| (pre.contains(t) || run_here.contains(t)) <==> (
            start_dv.contains(t) || run_tags(s, p0).contains(t)));
        }
        push_unique(acc, w);
        if k > e && k < n && cs[k] == '#' && k + 1 < n && word_char(cs[k + 1]) {
            proof {
                assert(run_start(s, k as int));
                assert(run_here == run_tags(s, k as int).insert(word));
                assert forall|t: Seq<char>|
                    (acc.deep_view().contains(t) || run_tags(s, k as int).contains(t)) <==> (
                start_dv.contains(t) || run_tags(s, p0).contains(t)) by {
                    assert(run_here.contains(t) == (t == word || run_tags(s, k as int).contains(
                        t,
                    )));
                    assert(acc.deep_view().contains(t) == (pre.contains(t) || t == word));
                    assert((pre.contains(t) || run_here.contains(t)) == (start_dv.contains(t)
                        || run_tags(s, p0).contains(t)));
                }
                assert(run_absorbed(
                    acc.deep_view(),
                    run_tags(s, k as int),
                    start_dv,
                    run_tags(s, p0),
                ));
            }
            cur = k;
        } else {
            proof {
                assert(!(k > e && run_start(s, k as int)));
                assert(run_here == set![word]);
                assert forall|t: Seq<char>| acc.deep_view().contains(t) <==> (start_dv.contains(t)
                    || run_tags(s, p0).contains(t)) by {
                    assert(run_tags(s, cur as int).contains(t) == (t == word));
                    assert(acc.deep_view().contains(t) == (pre.contains(t) || t == word));
                    assert((pre.contains(t) || run_here.contains(t)) == (start_dv.contains(t)
                        || run_tags(s, p0).contains(t)));
                }
            }
            break ;
        }
    }
    assert(line_tag_set(s) == run_tags(s, p0));
    assert(forall|t: Seq<char>|
        acc.deep_view().contains(t) <==> old(acc).deep_view().contains(t) || line_tag_set(
            line@,
        ).contains(t));
}

/// The tags of a note, given its lines: `Some` of the distinct tags when any
/// line holds a hashtag run, `None` when none does. A note with no tags is
/// simply absent from the index; unreadable notes are reported the same way
/// by the caller handing in no lines.
#[verifier::loop_isolation(false)]
pub fn find_tags(lines: &Vec<String>) -> (r: Option<Vec<String>>)
    ensures
        match r {
            Some(v) => v@.len() > 0 && v.deep_view().no_duplicates() && (forall|t: Seq<char>|
                v.deep_view().contains(t) <==> note_tag_set(lines.deep_view()).contains(t)),
            None => forall|t: Seq<char>| !note_tag_set(lines.deep_view()).contains(t),
        },
{
    let ghost dv = lines.deep_view();
    let mut acc: Vec<String> = Vec::new();
    let mut j: usize = 0;
    while j < lines.len()
        invariant
            j <= lines.len(),
            acc.deep_view().no_duplicates(),
            forall|t: Seq<char>| acc.deep_view().contains(t) <==> note_tag_set(
                dv.subrange(0, j as int),
            ).contains(t),
        decreases lines.len() - j,
    {
        let ghost before = dv.subrange(0, j as int);
        line_tags_into(lines[j].as_str(), &mut acc);
        proof {
            assert(lines.deep_view()[j as int] == lines@[j as int]@);
            let ext = dv.subrange(0, j + 1);
            assert(ext.drop_last() =~= before);
            assert(ext.last() == dv[j as int]);
        }
        j = j + 1;
    }
    assert(dv.subrange(0, lines.len() as int) =~= dv);
    assert(note_tag_set(dv.subrange(0, lines.len() as int)) == note_tag_set(dv));
    assert forall|t: Seq<char>|
        acc.deep_view().contains(t) <==> note_tag_set(lines.deep_view()).contains(t) by {
        assert(acc.deep_view().contains(t) == note_tag_set(
            dv.subrange(0, lines.len() as int),
        ).contains(t));
    }
    if acc.len() == 0 {
        assert forall|t: Seq<char>| !note_tag_set(lines.deep_view()).contains(t) by {
            assert(!acc.deep_view().contains(t));
        }
        None
    } else {
        assert(acc.deep_view().contains(acc.deep_view()[0]));
        Some(acc)
    }
}

} // verus!

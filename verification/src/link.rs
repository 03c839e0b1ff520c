//! Structured link records, the link-line grammar, and the two serialized
//! forms of a link: the single display line `[name](href)#tag#tag` and the
//! persisted note-file content with a `#tag #tag` header.
use vstd::prelude::*;

use crate::text::{is_tag_char, tag_char, scan_while, lemma_scan_while, lemma_scan_while_stops,
    chars_vec};
use vstd::string::StrSliceExecFns;
use vstd::string::StringExecFns;

verus! {

/// A captured web resource or a parsed link line: a display name, a target
/// URL and an ordered list of tags. `name` and `href` are non-empty in every
/// value produced by the parser; `tags` may be empty.
#[derive(Debug, Clone)]
pub struct Link {
    pub name: String,
    pub href: String,
    pub tags: Vec<String>,
}

/// Whether two string vectors hold the same characters position by position.
pub fn string_vecs_eq(a: &Vec<String>, b: &Vec<String>) -> (r: bool)
    ensures
        r == (a.deep_view() == b.deep_view()),
{
    if a.len() != b.len() {
        assert(a.deep_view().len() == a@.len());
        assert(b.deep_view().len() == b@.len());
        return false;
    }
    let mut i: usize = 0;
    while i < a.len()
        invariant
            i <= a.len(),
            a@.len() == b@.len(),
            forall|j: int| 0 <= j < i ==> a.deep_view()[j] == b.deep_view()[j],
        decreases a.len() - i,
    {
        assert(a.deep_view()[i as int] == a@[i as int]@);
        assert(b.deep_view()[i as int] == b@[i as int]@);
        if a[i] != b[i] {
            return false;
        }
        i = i + 1;
    }
    assert(a.deep_view() =~= b.deep_view());
    true
}

impl PartialEq for Link {
    fn eq(&self, other: &Link) -> (r: bool) {
        self.name == other.name && self.href == other.href && string_vecs_eq(
            &self.tags,
            &other.tags,
        )
    }
}

impl vstd::std_specs::cmp::PartialEqSpecImpl for Link {
    open spec fn obeys_eq_spec() -> bool {
        true
    }

    open spec fn eq_spec(&self, other: &Link) -> bool {
        self.name@ == other.name@ && self.href@ == other.href@ && self.tags.deep_view()
            == other.tags.deep_view()
    }
}

/// The tag suffix of a display line: `#` before each tag, no separation.
pub open spec fn spec_tags_suffix(tags: Seq<Seq<char>>) -> Seq<char>
    decreases tags.len(),
{
    if tags.len() == 0 {
        Seq::empty()
    } else {
        seq!['#'] + tags[0] + spec_tags_suffix(tags.drop_first())
    }
}

/// The single-line display form of a link: `[name](href)` followed by the
/// tag suffix.
pub open spec fn spec_link_line(name: Seq<char>, href: Seq<char>, tags: Seq<Seq<char>>) -> Seq<
    char,
> {
    seq!['['] + name + seq![']', '('] + href + seq![')'] + spec_tags_suffix(tags)
}

/// The rest of a note-file header after its first tag: ` #tag` repeated.
pub open spec fn spec_header_rest(tags: Seq<Seq<char>>, k: int) -> Seq<char>
    decreases tags.len() - k,
    when 0 <= k <= tags.len()
{
    if k == tags.len() {
        Seq::empty()
    } else {
        seq![' ', '#'] + tags[k] + spec_header_rest(tags, k + 1)
    }
}

/// The persisted note-file form of a link: a space-joined `#tag` header and a
/// blank line when there are tags, then the markdown link line and a final
/// newline.
pub open spec fn spec_link_file_content(
    name: Seq<char>,
    href: Seq<char>,
    tags: Seq<Seq<char>>,
) -> Seq<char> {
    let line = seq!['['] + name + seq![']', '('] + href + seq![')', '\n'];
    if tags.len() == 0 {
        line
    } else {
        seq!['#'] + tags[0] + spec_header_rest(tags, 1) + seq!['\n', '\n'] + line
    }
}

/// The display form `[name](href)#tag#tag` of a link, on one line.
pub fn format_link_line(link: &Link) -> (r: String)
    ensures
        r@ == spec_link_line(link.name@, link.href@, link.tags.deep_view()),
{
    proof {
        reveal_strlit("[");
        reveal_strlit("](");
        reveal_strlit(")");
        reveal_strlit("#");
    }
    let ghost tags = link.tags.deep_view();
    let mut r = String::new();
    r.append("[");
    r.append(link.name.as_str());
    r.append("](");
    r.append(link.href.as_str());
    r.append(")");
    assert(r@ =~= seq!['['] + link.name@ + seq![']', '('] + link.href@ + seq![')']);
    let ghost head = r@;
    assert(tags.subrange(0, tags.len() as int) =~= tags);
    let mut k: usize = 0;
    while k < link.tags.len()
        invariant
            k <= link.tags.len(),
            tags == link.tags.deep_view(),
            tags.len() == link.tags@.len(),
            "#"@ == seq!['#'],
            r@ + spec_tags_suffix(tags.subrange(k as int, tags.len() as int)) == head
                + spec_tags_suffix(tags),
        decreases link.tags.len() - k,
    {
        let ghost before = r@;
        let ghost rest = tags.subrange(k as int, tags.len() as int);
        r.append("#");
        r.append(link.tags[k].as_str());
        proof {
            assert(link.tags.deep_view()[k as int] == link.tags@[k as int]@);
            assert(rest.drop_first() =~= tags.subrange(k + 1, tags.len() as int));
            assert(rest[0] == tags[k as int]);
            assert(before + (seq!['#'] + tags[k as int] + spec_tags_suffix(rest.drop_first()))
                =~= (before + seq!['#'] + tags[k as int]) + spec_tags_suffix(
                rest.drop_first(),
            ));
        }
        k = k + 1;
    }
    proof {
        assert(tags.subrange(k as int, tags.len() as int) =~= Seq::<Seq<char>>::empty());
        assert(r@ + Seq::<char>::empty() =~= r@);
        assert(head + spec_tags_suffix(tags) =~= spec_link_line(
            link.name@,
            link.href@,
            link.tags.deep_view(),
        ));
    }
    r
}

/// The note-file content for a link: tags header, blank line, link line.
pub fn format_link_file_content(link: Link) -> (r: String)
    ensures
        r@ == spec_link_file_content(link.name@, link.href@, link.tags.deep_view()),
{
    proof {
        reveal_strlit("[");
        reveal_strlit("](");
        reveal_strlit(")\n");
        reveal_strlit("#");
        reveal_strlit(" #");
        reveal_strlit("\n\n");
    }
    let ghost tags = link.tags.deep_view();
    let mut r = String::new();
    if link.tags.len() > 0 {
        r.append("#");
        r.append(link.tags[0].as_str());
        assert(link.tags.deep_view()[0] == link.tags@[0]@);
        assert(r@ =~= seq!['#'] + tags[0]);
        let ghost head = r@;
        let mut k: usize = 1;
        while k < link.tags.len()
            invariant
                1 <= k <= link.tags.len(),
                tags == link.tags.deep_view(),
                tags.len() == link.tags@.len(),
                " #"@ == seq![' ', '#'],
                r@ + spec_header_rest(tags, k as int) == head + spec_header_rest(tags, 1),
            decreases link.tags.len() - k,
        {
            let ghost before = r@;
            r.append(" #");
            r.append(link.tags[k].as_str());
            proof {
                assert(link.tags.deep_view()[k as int] == link.tags@[k as int]@);
                assert(before + (seq![' ', '#'] + tags[k as int] + spec_header_rest(
                    tags,
                    k + 1,
                )) =~= (before + seq![' ', '#'] + tags[k as int]) + spec_header_rest(tags, k + 1));
            }
            k = k + 1;
        }
        assert(spec_header_rest(tags, k as int) =~= Seq::<char>::empty());
        assert(r@ + Seq::<char>::empty() =~= r@);
        r.append("\n\n");
    }
    let ghost header = r@;
    r.append("[");
    r.append(link.name.as_str());
    r.append("](");
    r.append(link.href.as_str());
    r.append(")\n");
    proof {
        let line = seq!['['] + link.name@ + seq![']', '('] + link.href@ + seq![')', '\n'];
        assert(r@ =~= header + line);
        if tags.len() == 0 {
            assert(header =~= Seq::<char>::empty());
            assert(r@ =~= line);
        } else {
            assert(header =~= seq!['#'] + tags[0] + spec_header_rest(tags, 1) + seq!['\n', '\n']);
            assert(r@ =~= spec_link_file_content(link.name@, link.href@, tags));
        }
    }
    r
}


/// Whether the two-character separator `](` stands at position `i` of `s`.
pub open spec fn sep_at(s: Seq<char>, i: int) -> bool {
    0 <= i && i + 1 < s.len() && s[i] == ']' && s[i + 1] == '('
}

/// The largest index at which `c` stands in `s`, or -1 if it does not occur.
pub open spec fn last_index_of(s: Seq<char>, c: char) -> int
    decreases s.len(),
{
    if s.len() == 0 {
        -1
    } else if s[s.len() - 1] == c {
        s.len() - 1
    } else {
        last_index_of(s.drop_last(), c)
    }
}

pub proof fn lemma_last_index_of(s: Seq<char>, c: char)
    ensures
        last_index_of(s, c) == -1 ==> forall|j: int| 0 <= j < s.len() ==> s[j] != c,
        last_index_of(s, c) >= 0 ==> last_index_of(s, c) < s.len() && s[last_index_of(s, c)] == c,
    decreases s.len(),
{
    if s.len() != 0 && s[s.len() - 1] != c {
        lemma_last_index_of(s.drop_last(), c);
        assert(forall|j: int| 0 <= j < s.len() - 1 ==> s.drop_last()[j] == s[j]);
    }
}

/// The last occurrence is pinned down by one occurrence with none after it.
pub proof fn lemma_last_index_of_unique(s: Seq<char>, c: char, p: int)
    requires
        0 <= p < s.len(),
        s[p] == c,
        forall|j: int| p < j < s.len() ==> s[j] != c,
    ensures
        last_index_of(s, c) == p,
    decreases s.len(),
{
    if p < s.len() - 1 {
        assert(forall|j: int| 0 <= j < s.len() - 1 ==> s.drop_last()[j] == s[j]);
        lemma_last_index_of_unique(s.drop_last(), c, p);
    }
}

/// The largest index at most `bound` where the `](` separator stands, or -1
/// if there is none.
pub open spec fn last_sep_at_or_before(s: Seq<char>, bound: int) -> int
    decreases bound + 1,
{
    if bound < 0 {
        -1
    } else if sep_at(s, bound) {
        bound
    } else {
        last_sep_at_or_before(s, bound - 1)
    }
}

pub proof fn lemma_last_sep_props(s: Seq<char>, bound: int)
    ensures
        last_sep_at_or_before(s, bound) == -1 || (0 <= last_sep_at_or_before(s, bound) <= bound
            && sep_at(s, last_sep_at_or_before(s, bound))),
    decreases bound + 1,
{
    if bound >= 0 && !sep_at(s, bound) {
        lemma_last_sep_props(s, bound - 1);
    }
}

/// The last separator is pinned down by one occurrence with none after it.
pub proof fn lemma_last_sep_unique(s: Seq<char>, bound: int, i: int)
    requires
        sep_at(s, i),
        i <= bound,
        forall|j: int| i < j <= bound ==> !sep_at(s, j),
    ensures
        last_sep_at_or_before(s, bound) == i,
    decreases bound,
{
    if bound > i {
        lemma_last_sep_unique(s, bound - 1, i);
    }
}

/// Whether the characters of `s` from `i` to the end are a (possibly empty)
/// sequence of `#tag` groups, each tag one or more tag characters.
pub open spec fn valid_tags_from(s: Seq<char>, i: int) -> bool
    decreases s.len() - i,
    when 0 <= i <= s.len()
    via valid_tags_from_dec
{
    if i == s.len() {
        true
    } else if s[i] == '#' && i + 1 < s.len() && is_tag_char(s[i + 1]) {
        valid_tags_from(s, scan_while(s, i + 1, |c: char| is_tag_char(c)))
    } else {
        false
    }
}

#[via_fn]
proof fn valid_tags_from_dec(s: Seq<char>, i: int) {
    if i < s.len() && s[i] == '#' && i + 1 < s.len() && is_tag_char(s[i + 1]) {
        lemma_scan_while(s, i + 1, |c: char| is_tag_char(c));
        lemma_scan_while(s, i + 2, |c: char| is_tag_char(c));
        assert(scan_while(s, i + 1, |c: char| is_tag_char(c)) == scan_while(
            s,
            i + 2,
            |c: char| is_tag_char(c),
        ));
    }
}

/// The tag words of a `#tag` group sequence starting at `i`, in order.
pub open spec fn tags_from(s: Seq<char>, i: int) -> Seq<Seq<char>>
    decreases s.len() - i,
    when 0 <= i <= s.len()
    via tags_from_dec
{
    if i < s.len() && s[i] == '#' && i + 1 < s.len() && is_tag_char(s[i + 1]) {
        let e = scan_while(s, i + 1, |c: char| is_tag_char(c));
        seq![s.subrange(i + 1, e)] + tags_from(s, e)
    } else {
        Seq::empty()
    }
}

#[via_fn]
proof fn tags_from_dec(s: Seq<char>, i: int) {
    if i < s.len() && s[i] == '#' && i + 1 < s.len() && is_tag_char(s[i + 1]) {
        lemma_scan_while(s, i + 1, |c: char| is_tag_char(c));
        lemma_scan_while(s, i + 2, |c: char| is_tag_char(c));
        assert(scan_while(s, i + 1, |c: char| is_tag_char(c)) == scan_while(
            s,
            i + 2,
            |c: char| is_tag_char(c),
        ));
    }
}

/// The result of matching a full line against the link grammar
/// `[<title>](<href>)(#tag)*`: title, href and tag words, or `None` when the
/// line does not match or title or href would be empty. Title and href may
/// hold any characters but a newline; the title is the longest that any
/// successful split allows, then the href the longest, so the closing
/// parenthesis is the last one of the line and the `](` separator the last
/// one that leaves the href non-empty.
pub open spec fn spec_parse_link(s: Seq<char>) -> Option<(Seq<char>, Seq<char>, Seq<Seq<char>>)> {
    let p = last_index_of(s, ')');
    let i = last_sep_at_or_before(s, p - 3);
    if s.len() == 0 || s[0] != '[' || s.contains('\n') {
        None
    } else if p < 0 || !valid_tags_from(s, p + 1) {
        None
    } else if i < 2 {
        None
    } else {
        Some((s.subrange(1, i), s.subrange(i + 2, p), tags_from(s, p + 1)))
    }
}

/// A line that parses at all parses into a non-empty title and a non-empty
/// href: the grammar has no match for an empty one.
pub proof fn lemma_parse_link_nonempty(s: Seq<char>)
    ensures
        spec_parse_link(s) matches Some(parts) ==> parts.0.len() >= 1 && parts.1.len() >= 1,
{
    if spec_parse_link(s) is Some {
        let p = last_index_of(s, ')');
        let i = last_sep_at_or_before(s, p - 3);
        lemma_last_index_of(s, ')');
        lemma_last_sep_props(s, p - 3);
    }
}

/// Parses a preformatted markdown link line `[title](href)#tag#tag` into a
/// `Link`, returning `None` when the line does not match the grammar.
#[verifier::loop_isolation(false)]
pub fn link_line_to_struct(link: &str) -> (r: Option<Link>)
    ensures
        match r {
            Some(l) => spec_parse_link(link@) == Some((l.name@, l.href@, l.tags.deep_view())),
            None => spec_parse_link(link@) is None,
        },
{
    let ghost s = link@;
    let cs = chars_vec(link);
    let n = cs.len();
    if n == 0 || cs[0] != '[' {
        return None;
    }
    // a line holding a newline matches nothing
    let mut j: usize = 0;
    while j < n
        invariant
            j <= n,
            cs@ == s,
            n == s.len(),
            forall|k: int| 0 <= k < j ==> s[k] != '\n',
        decreases n - j,
    {
        if cs[j] == '\n' {
            assert(s.contains('\n'));
            return None;
        }
        j = j + 1;
    }
    assert(!s.contains('\n'));
    // the closing parenthesis of the href is the last `)` of the line
    let mut m: usize = n;
    while m > 0 && cs[m - 1] != ')'
        invariant
            m <= n,
            cs@ == s,
            n == s.len(),
            forall|k: int| m <= k < n ==> s[k] != ')',
        decreases m,
    {
        m = m - 1;
    }
    if m == 0 {
        proof {
            lemma_last_index_of(s, ')');
        }
        return None;
    }
    let p = m - 1;
    proof {
        lemma_last_index_of_unique(s, ')', p as int);
    }
    // everything after it must be `#tag` groups; collect the words
    let mut tags: Vec<String> = Vec::new();
    let mut q: usize = p + 1;
    while q < n
        invariant
            p + 1 <= q <= n,
            p < n,
            cs@ == s,
            n == s.len(),
            valid_tags_from(s, p + 1 as int) == valid_tags_from(s, q as int),
            valid_tags_from(s, q as int) ==> tags_from(s, p + 1 as int) == tags.deep_view()
                + tags_from(s, q as int),
        decreases n - q,
    {
        if cs[q] != '#' {
            assert(!valid_tags_from(s, q as int));
            return None;
        }
        if q + 1 == n || !tag_char(cs[q + 1]) {
            assert(!valid_tags_from(s, q as int));
            return None;
        }
        let mut e: usize = q + 1;
        while e < n && tag_char(cs[e])
            invariant
                q + 1 <= e <= n,
                cs@ == s,
                n == s.len(),
                forall|k: int| q + 1 <= k < e ==> is_tag_char(s[k]),
            decreases n - e,
        {
            e = e + 1;
        }
        proof {
            lemma_scan_while_stops(s, q + 1 as int, e as int, |c: char| is_tag_char(c));
        }
        let ghost dv_before = tags.deep_view();
        let ghost word = s.subrange(q + 1 as int, e as int);
        let w = link.substring_char(q + 1, e).to_owned();
        tags.push(w);
        proof {
            assert(tags.deep_view() =~= dv_before.push(word));
            assert(valid_tags_from(s, q as int) == valid_tags_from(s, e as int));
            assert(tags_from(s, q as int) =~= seq![word] + tags_from(s, e as int));
            assert(dv_before + (seq![word] + tags_from(s, e as int)) =~= dv_before.push(word)
                + tags_from(s, e as int));
        }
        q = e;
    }
    assert(valid_tags_from(s, p + 1 as int));
    assert(tags_from(s, p + 1 as int) =~= tags.deep_view()) by {
        assert(tags_from(s, n as int) =~= Seq::<Seq<char>>::empty());
        assert(tags.deep_view() + Seq::<Seq<char>>::empty() =~= tags.deep_view());
    }
    // the `](` separator is the last one before the closing parenthesis that
    // leaves the href non-empty and the title non-empty
    if p < 3 {
        return None;
    }
    let mut t: usize = p - 2;
    while t > 2
        invariant
            1 <= t <= p - 2,
            p < n,
            cs@ == s,
            n == s.len(),
            forall|k: int| t <= k <= p - 3 ==> !sep_at(s, k),
        decreases t,
    {
        t = t - 1;
        if cs[t] == ']' && cs[t + 1] == '(' {
            proof {
                lemma_last_sep_unique(s, p - 3 as int, t as int);
            }
            let name = link.substring_char(1, t).to_owned();
            let href = link.substring_char(t + 2, p).to_owned();
            return Some(Link { name, href, tags });
        }
        assert(!sep_at(s, t as int));
    }
    proof {
        lemma_last_sep_props(s, p - 3 as int);
    }
    None
}


/// A well-formed tag word: non-empty, all tag characters.
pub open spec fn wf_tag(t: Seq<char>) -> bool {
    t.len() >= 1 && forall|i: int| 0 <= i < t.len() ==> is_tag_char(t[i])
}

/// Every tag of the sequence is well-formed.
pub open spec fn wf_tags(tags: Seq<Seq<char>>) -> bool {
    forall|k: int| 0 <= k < tags.len() ==> wf_tag(#[trigger] tags[k])
}

/// Every character of a tag suffix is a `#` or a tag character.
proof fn lemma_tags_suffix_chars(tags: Seq<Seq<char>>)
    requires
        wf_tags(tags),
    ensures
        forall|j: int| 0 <= j < spec_tags_suffix(tags).len() ==> #[trigger] spec_tags_suffix(
            tags,
        )[j] == '#' || is_tag_char(spec_tags_suffix(tags)[j]),
    decreases tags.len(),
{
    if tags.len() > 0 {
        assert(wf_tags(tags.drop_first())) by {
            assert(forall|k: int| 0 <= k < tags.drop_first().len() ==> tags.drop_first()[k]
                == tags[k + 1]);
        }
        lemma_tags_suffix_chars(tags.drop_first());
        let g = spec_tags_suffix(tags);
        let t0 = tags[0];
        let rest = spec_tags_suffix(tags.drop_first());
        assert(wf_tag(t0));
        assert forall|j: int| 0 <= j < g.len() implies #[trigger] g[j] == '#' || is_tag_char(
            g[j],
        ) by {
            if 1 <= j < 1 + t0.len() {
                assert(g[j] == t0[j - 1]);
            } else if j >= 1 + t0.len() {
                assert(g[j] == rest[j - 1 - t0.len()]);
            }
        }
    }
}

/// A stretch of a string that reads as a whole tag suffix parses back into
/// exactly the tags that built it.
proof fn lemma_tags_suffix_parses(s: Seq<char>, i: int, tags: Seq<Seq<char>>)
    requires
        0 <= i <= s.len(),
        wf_tags(tags),
        s.subrange(i, s.len() as int) == spec_tags_suffix(tags),
    ensures
        valid_tags_from(s, i),
        tags_from(s, i) == tags,
    decreases tags.len(),
{
    let g = spec_tags_suffix(tags);
    if tags.len() == 0 {
        assert(s.len() - i == g.len());
        assert(tags_from(s, i) =~= tags);
    } else {
        let t0 = tags[0];
        let rest = spec_tags_suffix(tags.drop_first());
        assert(wf_tag(t0));
        let e = i + 1 + t0.len() as int;
        assert(g.len() == 1 + t0.len() + rest.len());
        assert(e <= s.len());
        assert(s[i] == g[0]);
        assert(s[i] == '#');
        assert forall|j: int| i + 1 <= j < e implies is_tag_char(s[j]) by {
            assert(s[j] == g[j - i]);
            assert(g[j - i] == t0[j - i - 1]);
        }
        assert(e == s.len() || !is_tag_char(s[e])) by {
            if e < s.len() {
                assert(s[e] == g[e - i]);
                assert(g[e - i] == rest[0]);
                assert(tags.drop_first().len() > 0);
                assert(rest[0] == '#');
            }
        }
        lemma_scan_while_stops(s, i + 1, e, |c: char| is_tag_char(c));
        assert(wf_tags(tags.drop_first())) by {
            assert(forall|k: int| 0 <= k < tags.drop_first().len() ==> tags.drop_first()[k]
                == tags[k + 1]);
        }
        assert(s.subrange(e, s.len() as int) =~= rest) by {
            assert(forall|j: int| 0 <= j < s.len() - e ==> s.subrange(e, s.len() as int)[j] == s[e
                + j] && s[e + j] == g[e + j - i]);
        }
        lemma_tags_suffix_parses(s, e, tags.drop_first());
        assert(is_tag_char(s[i + 1]));
        assert(valid_tags_from(s, i));
        assert forall|j: int| 0 <= j < t0.len() implies s.subrange(i + 1, e)[j] == t0[j] by {
            assert(s.subrange(i, s.len() as int)[1 + j] == s[i + 1 + j]);
            assert(g[1 + j] == t0[j]);
        }
        assert(s.subrange(i + 1, e) =~= t0);
        assert(tags_from(s, i) == seq![s.subrange(i + 1, e)] + tags_from(s, e));
        assert(seq![t0] + tags.drop_first() =~= tags);
    }
}

/// Parsing the display line formatted from a link recovers the link exactly.
/// This holds of every link whose name and href are non-empty and free of
/// newlines, whose href does not contain the separator `](`, and whose tags
/// are non-empty words of tag characters; outside those bounds the grammar
/// cannot keep the parts apart, and parsing yields a different split or
/// nothing.
pub proof fn lemma_parse_format_roundtrip(name: Seq<char>, href: Seq<char>, tags: Seq<Seq<char>>)
    requires
        name.len() >= 1,
        !name.contains('\n'),
        href.len() >= 1,
        !href.contains('\n'),
        forall|k: int| 0 <= k < href.len() - 1 ==> !(#[trigger] href[k] == ']' && href[k + 1]
            == '('),
        wf_tags(tags),
    ensures
        spec_parse_link(spec_link_line(name, href, tags)) == Some((name, href, tags)),
{
    let s = spec_link_line(name, href, tags);
    let g = spec_tags_suffix(tags);
    let i0 = 1 + name.len() as int;
    let p0 = i0 + 2 + href.len() as int;
    assert(s.len() == 4 + name.len() + href.len() + g.len());
    assert(s[0] == '[');
    assert(s[i0] == ']');
    assert(s[i0 + 1] == '(');
    assert(s[p0] == ')');
    assert forall|j: int| 1 <= j < i0 implies s[j] == name[j - 1] by {}
    assert forall|j: int| i0 + 2 <= j < p0 implies s[j] == href[j - i0 - 2] by {}
    assert forall|j: int| p0 < j < s.len() implies s[j] == g[j - p0 - 1] by {}
    lemma_tags_suffix_chars(tags);
    // no newline stands anywhere in the line
    assert(!s.contains('\n')) by {
        if s.contains('\n') {
            let j = choose|j: int| 0 <= j < s.len() && s[j] == '\n';
            if 1 <= j < i0 {
                assert(name.contains('\n')) by {
                    assert(name[j - 1] == '\n');
                }
            } else if i0 + 2 <= j < p0 {
                assert(href.contains('\n')) by {
                    assert(href[j - i0 - 2] == '\n');
                }
            } else if p0 < j {
                assert(g[j - p0 - 1] == '#' || is_tag_char(g[j - p0 - 1]));
            }
        }
    }
    // the closing parenthesis is the last one of the line
    assert forall|j: int| p0 < j < s.len() implies s[j] != ')' by {
        assert(g[j - p0 - 1] == '#' || is_tag_char(g[j - p0 - 1]));
    }
    lemma_last_index_of_unique(s, ')', p0);
    // the suffix after it parses back into the tags
    assert(s.subrange(p0 + 1, s.len() as int) =~= g);
    lemma_tags_suffix_parses(s, p0 + 1, tags);
    // the separator before it is the last one in reach
    assert(sep_at(s, i0));
    assert forall|j: int| i0 < j <= p0 - 3 implies !sep_at(s, j) by {
        if j == i0 + 1 {
            assert(s[j] == '(');
        } else {
            assert(s[j] == href[j - i0 - 2]);
            assert(s[j + 1] == href[j + 1 - i0 - 2]);
        }
    }
    assert(i0 <= p0 - 3);
    lemma_last_sep_unique(s, p0 - 3, i0);
    assert(s.subrange(1, i0) =~= name);
    assert(s.subrange(i0 + 2, p0) =~= href);
    assert(spec_parse_link(s) == Some((name, href, tags)));
}

} // verus!

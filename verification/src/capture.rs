//! Turning a fetched web page into a link record: the display name from the
//! page title (or the URL with its scheme stripped), and tags from the
//! page's keywords, comma-split, trimmed, with inner spaces turned into
//! underscores. The caller fetches the page; everything here works on the
//! page text.
use vstd::prelude::*;

use crate::link::{Link, spec_link_line, format_link_line};
use crate::text::{chars_vec, scan_while, lemma_scan_while, lemma_scan_while_stops};
use vstd::string::StrSliceExecFns;
use vstd::string::StringExecFns;

verus! {

/// Whitespace that trimming removes from both ends of a keyword or title.
pub open spec fn is_trim_space(c: char) -> bool {
    c == ' ' || c == '\t' || c == '\r' || c == '\n'
}

fn trim_space(c: char) -> (r: bool)
    ensures
        r == is_trim_space(c),
{
    c == ' ' || c == '\t' || c == '\r' || c == '\n'
}

/// `s` without its trailing whitespace.
pub open spec fn trim_end_spec(s: Seq<char>) -> Seq<char>
    decreases s.len(),
{
    if s.len() > 0 && is_trim_space(s.last()) {
        trim_end_spec(s.drop_last())
    } else {
        s
    }
}

/// `s` without its leading whitespace.
pub open spec fn trim_start_spec(s: Seq<char>) -> Seq<char>
    decreases s.len(),
{
    if s.len() > 0 && is_trim_space(s[0]) {
        trim_start_spec(s.drop_first())
    } else {
        s
    }
}

/// `s` without leading and trailing whitespace.
pub open spec fn trim_spec(s: Seq<char>) -> Seq<char> {
    trim_start_spec(trim_end_spec(s))
}

/// Trimming from the end stops exactly where the trailing whitespace stops.
proof fn lemma_trim_end_at(s: Seq<char>, r: int)
    requires
        0 <= r <= s.len(),
        forall|j: int| r <= j < s.len() ==> is_trim_space(s[j]),
        r == 0 || !is_trim_space(s[r - 1]),
    ensures
        trim_end_spec(s) == s.subrange(0, r),
    decreases s.len(),
{
    if s.len() > 0 && is_trim_space(s.last()) {
        assert(r < s.len());
        assert(forall|j: int| 0 <= j < s.len() - 1 ==> s.drop_last()[j] == s[j]);
        lemma_trim_end_at(s.drop_last(), r);
        assert(s.drop_last().subrange(0, r) =~= s.subrange(0, r));
    } else {
        assert(r == s.len());
        assert(s.subrange(0, r) =~= s);
    }
}

/// Trimming from the start stops exactly where the leading whitespace stops.
proof fn lemma_trim_start_at(s: Seq<char>, l: int)
    requires
        0 <= l <= s.len(),
        forall|j: int| 0 <= j < l ==> is_trim_space(s[j]),
        l == s.len() || !is_trim_space(s[l]),
    ensures
        trim_start_spec(s) == s.subrange(l, s.len() as int),
    decreases s.len(),
{
    if s.len() > 0 && is_trim_space(s[0]) {
        assert(l > 0);
        assert(forall|j: int| 0 <= j < s.len() - 1 ==> s.drop_first()[j] == s[j + 1]);
        lemma_trim_start_at(s.drop_first(), l - 1);
        assert(s.drop_first().subrange(l - 1, s.drop_first().len() as int) =~= s.subrange(
            l,
            s.len() as int,
        ));
    } else {
        assert(s.subrange(l, s.len() as int) =~= s);
    }
}

/// `s` with leading and trailing whitespace removed.
pub fn trimmed(s: &str) -> (r: String)
    ensures
        r@ == trim_spec(s@),
{
    let ghost sv = s@;
    let cs = chars_vec(s);
    let n = cs.len();
    let mut rgt: usize = n;
    while rgt > 0 && trim_space(cs[rgt - 1])
        invariant
            rgt <= n,
            cs@ == sv,
            n == sv.len(),
            n == cs.len(),
            forall|j: int| rgt <= j < n ==> is_trim_space(sv[j]),
        decreases rgt,
    {
        rgt = rgt - 1;
    }
    proof {
        lemma_trim_end_at(sv, rgt as int);
    }
    let ghost mid = sv.subrange(0, rgt as int);
    let mut l: usize = 0;
    while l < rgt && trim_space(cs[l])
        invariant
            l <= rgt <= n,
            cs@ == sv,
            n == sv.len(),
            n == cs.len(),
            forall|j: int| 0 <= j < l ==> is_trim_space(sv[j]),
        decreases rgt - l,
    {
        l = l + 1;
    }
    proof {
        assert forall|j: int| 0 <= j < l implies is_trim_space(mid[j]) by {
            assert(mid[j] == sv[j]);
        }
        assert(l == mid.len() || !is_trim_space(mid[l as int])) by {
            if l < rgt {
                assert(mid[l as int] == sv[l as int]);
            }
        }
        lemma_trim_start_at(mid, l as int);
        assert(mid.subrange(l as int, mid.len() as int) =~= sv.subrange(l as int, rgt as int));
    }
    s.substring_char(l, rgt).to_owned()
}

/// One keyword as a tag token: inner spaces become underscores.
pub open spec fn underscore_spec(s: Seq<char>) -> Seq<char> {
    s.map_values(
        |c: char|
            if c == ' ' {
                '_'
            } else {
                c
            },
    )
}

/// Replaces every space with an underscore.
fn underscored(s: &str) -> (r: String)
    ensures
        r@ == underscore_spec(s@),
{
    proof {
        reveal_strlit("_");
    }
    let ghost sv = s@;
    let cs = chars_vec(s);
    let n = cs.len();
    let mut r = String::new();
    let mut i: usize = 0;
    while i < n
        invariant
            i <= n,
            sv == s@,
            cs@ == sv,
            n == sv.len(),
            "_"@ == seq!['_'],
            r@ == sv.subrange(0, i as int).map_values(
                |c: char|
                    if c == ' ' {
                        '_'
                    } else {
                        c
                    },
            ),
        decreases n - i,
    {
        if cs[i] == ' ' {
            r.append("_");
        } else {
            r.append(s.substring_char(i, i + 1));
            assert(s@.subrange(i as int, i + 1) =~= seq![sv[i as int]]);
        }
        assert(r@ =~= sv.subrange(0, i + 1).map_values(
            |c: char|
                if c == ' ' {
                    '_'
                } else {
                    c
                },
        ));
        i = i + 1;
    }
    assert(sv.subrange(0, n as int) =~= sv);
    r
}

/// The comma-separated pieces of a keywords attribute from `i` on, split at
/// every comma, empty pieces kept.
pub open spec fn split_commas_from(s: Seq<char>, i: int) -> Seq<Seq<char>>
    decreases s.len() - i,
    when 0 <= i <= s.len()
    via split_commas_from_dec
{
    let k = scan_while(s, i, |c: char| c != ',');
    if k == s.len() {
        seq![s.subrange(i, k)]
    } else {
        seq![s.subrange(i, k)] + split_commas_from(s, k + 1)
    }
}

#[via_fn]
proof fn split_commas_from_dec(s: Seq<char>, i: int) {
    lemma_scan_while(s, i, |c: char| c != ',');
}

/// The tag tokens of a keywords attribute: each comma-separated piece,
/// trimmed, with inner spaces turned into underscores.
pub open spec fn keyword_tags_spec(s: Seq<char>) -> Seq<Seq<char>> {
    split_commas_from(s, 0).map_values(|p: Seq<char>| underscore_spec(trim_spec(p)))
}

/// Splits a keywords attribute into tag tokens.
pub fn split_keywords(kw: &str) -> (r: Vec<String>)
    ensures
        r.deep_view() == keyword_tags_spec(kw@),
{
    let ghost s = kw@;
    let cs = chars_vec(kw);
    let n = cs.len();
    let mut tags: Vec<String> = Vec::new();
    let mut start: usize = 0;
    loop
        invariant_except_break
            tags.deep_view() + split_commas_from(s, start as int).map_values(
                |p: Seq<char>| underscore_spec(trim_spec(p)),
            ) == keyword_tags_spec(s),
        invariant
            s == kw@,
            cs@ == s,
            n == s.len(),
            n == cs.len(),
            start <= n,
        ensures
            tags.deep_view() == keyword_tags_spec(s),
        decreases n - start,
    {
        let mut k: usize = start;
        while k < n && cs[k] != ','
            invariant
                start <= k <= n,
                cs@ == s,
                n == s.len(),
                n == cs.len(),
                forall|j: int| start <= j < k ==> s[j] != ',',
            decreases n - k,
        {
            k = k + 1;
        }
        proof {
            lemma_scan_while_stops(s, start as int, k as int, |c: char| c != ',');
        }
        let ghost piece = s.subrange(start as int, k as int);
        let t = trimmed(kw.substring_char(start, k));
        let u = underscored(t.as_str());
        let ghost before = tags.deep_view();
        tags.push(u);
        proof {
            assert(tags.deep_view() =~= before.push(underscore_spec(trim_spec(piece))));
            assert(before.push(underscore_spec(trim_spec(piece))) =~= before + seq![
                underscore_spec(trim_spec(piece)),
            ]);
            let f = |p: Seq<char>| underscore_spec(trim_spec(p));
            if k == n {
                assert(split_commas_from(s, start as int) =~= seq![piece]);
                assert(split_commas_from(s, start as int).map_values(f) =~= seq![f(piece)]);
            } else {
                assert(split_commas_from(s, start as int) =~= seq![piece] + split_commas_from(
                    s,
                    k + 1 as int,
                ));
                assert(split_commas_from(s, start as int).map_values(f) =~= seq![f(piece)]
                    + split_commas_from(s, k + 1 as int).map_values(f));
                assert(before + (seq![f(piece)] + split_commas_from(s, k + 1 as int).map_values(
                    f,
                )) =~= (before + seq![f(piece)]) + split_commas_from(s, k + 1 as int).map_values(
                    f,
                ));
            }
        }
        if k == n {
            break ;
        }
        start = k + 1;
    }
    tags
}

/// Whether `p` is a prefix of `s`.
pub open spec fn has_prefix(s: Seq<char>, p: Seq<char>) -> bool {
    p.len() <= s.len() && s.subrange(0, p.len() as int) == p
}

/// Whether the line is an HTTP or HTTPS URL: only such lines are fetched.
pub open spec fn is_http_url_spec(s: Seq<char>) -> bool {
    has_prefix(s, "http://"@) || has_prefix(s, "https://"@)
}

/// Whether the candidate line starts with an HTTP or HTTPS scheme.
pub fn is_http_url(url: &str) -> (r: bool)
    ensures
        r == is_http_url_spec(url@),
{
    proof {
        reveal_strlit("http://");
        reveal_strlit("https://");
    }
    let ghost s = url@;
    let cs = chars_vec(url);
    let n = cs.len();
    if n >= 7 && cs[0] == 'h' && cs[1] == 't' && cs[2] == 't' && cs[3] == 'p' {
        if cs[4] == ':' && cs[5] == '/' && cs[6] == '/' {
            assert(s.subrange(0, 7) =~= "http://"@);
            return true;
        }
        if n >= 8 && cs[4] == 's' && cs[5] == ':' && cs[6] == '/' && cs[7] == '/' {
            assert(s.subrange(0, 8) =~= "https://"@);
            return true;
        }
    }
    proof {
        if has_prefix(s, "http://"@) {
            assert forall|j: int| 0 <= j < 7 implies s[j] == "http://"@[j] by {
                assert(s.subrange(0, 7)[j] == s[j]);
            }
        }
        if has_prefix(s, "https://"@) {
            assert forall|j: int| 0 <= j < 8 implies s[j] == "https://"@[j] by {
                assert(s.subrange(0, 8)[j] == s[j]);
            }
        }
    }
    false
}

/// The URL without its `http://` or `https://` prefix: the fallback display
/// name when a page has no title.
pub open spec fn strip_scheme_spec(s: Seq<char>) -> Seq<char> {
    if has_prefix(s, "https://"@) {
        s.subrange(8, s.len() as int)
    } else if has_prefix(s, "http://"@) {
        s.subrange(7, s.len() as int)
    } else {
        s
    }
}

/// Removes a leading HTTP or HTTPS scheme from a URL.
pub fn strip_scheme(url: &str) -> (r: String)
    ensures
        r@ == strip_scheme_spec(url@),
{
    proof {
        reveal_strlit("http://");
        reveal_strlit("https://");
    }
    let ghost s = url@;
    let cs = chars_vec(url);
    let n = cs.len();
    if n >= 8 && cs[0] == 'h' && cs[1] == 't' && cs[2] == 't' && cs[3] == 'p' && cs[4] == 's'
        && cs[5] == ':' && cs[6] == '/' && cs[7] == '/' {
        assert(s.subrange(0, 8) =~= "https://"@);
        return url.substring_char(8, n).to_owned();
    }
    if n >= 7 && cs[0] == 'h' && cs[1] == 't' && cs[2] == 't' && cs[3] == 'p' && cs[4] == ':'
        && cs[5] == '/' && cs[6] == '/' {
        assert(s.subrange(0, 7) =~= "http://"@);
        proof {
            if has_prefix(s, "https://"@) {
                assert(s.subrange(0, 8)[4] == s[4]);
            }
        }
        return url.substring_char(7, n).to_owned();
    }
    proof {
        if has_prefix(s, "https://"@) {
            assert forall|j: int| 0 <= j < 8 implies s[j] == "https://"@[j] by {
                assert(s.subrange(0, 8)[j] == s[j]);
            }
        }
        if has_prefix(s, "http://"@) {
            assert forall|j: int| 0 <= j < 7 implies s[j] == "http://"@[j] by {
                assert(s.subrange(0, 7)[j] == s[j]);
            }
        }
    }
    url.to_owned()
}

/// What the first `title` element of an HTML document holds: scraper's
/// parse is a pure function of the document text.
pub uninterp spec fn html_title_of(s: Seq<char>) -> Option<Seq<char>>;

/// What the `content` attribute of the first `meta[name="keywords"]`
/// element of an HTML document holds, likewise a pure function of the text.
pub uninterp spec fn html_keywords_of(s: Seq<char>) -> Option<Seq<char>>;

/// Relies on scraper's Html::parse_document, Selector::parse and select:
/// the inner HTML of the document's first `title` element, if any. Parsing
/// and selection depend on the document text alone.
#[verifier::external_body]
fn html_title(html: &str) -> (r: Option<String>)
    ensures
        r.deep_view() == html_title_of(html@),
{
    let doc = scraper::Html::parse_document(html);
    let sel = scraper::Selector::parse("title").unwrap();
    doc.select(&sel).next().map(|t| t.inner_html())
}

/// Relies on scraper's Html::parse_document, Selector::parse, select and
/// ElementRef::attr: the `content` attribute of the document's first
/// `meta[name="keywords"]` element, if both exist. A function of the
/// document text alone.
#[verifier::external_body]
fn html_keywords(html: &str) -> (r: Option<String>)
    ensures
        r.deep_view() == html_keywords_of(html@),
{
    let doc = scraper::Html::parse_document(html);
    let sel = scraper::Selector::parse("meta[name=\"keywords\"]").unwrap();
    doc.select(&sel).next().and_then(|m| m.attr("content")).map(|c| c.to_owned())
}

/// The display name a page gets: its trimmed title, or the URL without its
/// scheme when the page has none.
pub open spec fn page_name_spec(url: Seq<char>, title: Option<Seq<char>>) -> Seq<char> {
    match title {
        Some(t) => trim_spec(t),
        None => strip_scheme_spec(url),
    }
}

/// The tags a page gets: its keywords as tag tokens, or none.
pub open spec fn page_tags_spec(keywords: Option<Seq<char>>) -> Seq<Seq<char>> {
    match keywords {
        Some(k) => keyword_tags_spec(k),
        None => Seq::empty(),
    }
}

/// Builds the link record for a page from its URL and extracted metadata:
/// the name from the title with the URL as fallback, the URL itself, and
/// the keywords as tags.
pub fn page_link(url: &str, title: Option<String>, keywords: Option<String>) -> (r: Link)
    ensures
        r.href@ == url@,
        r.name@ == page_name_spec(url@, title.deep_view()),
        r.tags.deep_view() == page_tags_spec(keywords.deep_view()),
{
    let name = match title {
        Some(t) => trimmed(t.as_str()),
        None => strip_scheme(url),
    };
    let tags = match keywords {
        Some(k) => split_keywords(k.as_str()),
        None => Vec::new(),
    };
    proof {
        if keywords is None {
            assert(tags.deep_view() =~= Seq::<Seq<char>>::empty());
        }
    }
    Link { name, href: url.to_owned(), tags }
}

/// Builds the link record for a fetched page: the name from the page's
/// `title` element (trimmed; the URL without its scheme when there is
/// none), the URL as href, and the page's keywords as tags.
pub fn page_to_link(url: &str, html: &str) -> (r: Link)
    ensures
        r.href@ == url@,
        r.name@ == page_name_spec(url@, html_title_of(html@)),
        r.tags.deep_view() == page_tags_spec(html_keywords_of(html@)),
{
    let title = html_title(html);
    let keywords = html_keywords(html);
    page_link(url, title, keywords)
}

/// The markdown link line for a fetched page: the display form of its link
/// record.
pub fn markdown_link_for_page(url: &str, html: &str) -> (r: String)
    ensures
        r@ == spec_link_line(
            page_name_spec(url@, html_title_of(html@)),
            url@,
            page_tags_spec(html_keywords_of(html@)),
        ),
{
    let link = page_to_link(url, html);
    format_link_line(&link)
}

} // verus!

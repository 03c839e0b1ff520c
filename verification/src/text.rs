//! Character classes and small text utilities shared by the tag grammar, the
//! link-line grammar and the filename sanitizer.
use vstd::prelude::*;

verus! {

/// ASCII word characters: letters, digits and underscore. Tags inside notes
/// are maximal runs of these.
pub open spec fn is_word_char(c: char) -> bool {
    ||| 48 <= c as u32 && c as u32 <= 57
    ||| 65 <= c as u32 && c as u32 <= 90
    ||| 97 <= c as u32 && c as u32 <= 122
    ||| c == '_'
}

/// Characters allowed in the tag suffix of a link line: word characters and
/// hyphen.
pub open spec fn is_tag_char(c: char) -> bool {
    is_word_char(c) || c == '-'
}

/// Line-local whitespace that may separate hashtag tokens in a run.
pub open spec fn is_run_space(c: char) -> bool {
    c == ' ' || c == '\t'
}

pub fn word_char(c: char) -> (r: bool)
    ensures
        r == is_word_char(c),
{
    let u = c as u32;
    (48 <= u && u <= 57) || (65 <= u && u <= 90) || (97 <= u && u <= 122) || c == '_'
}

pub fn tag_char(c: char) -> (r: bool)
    ensures
        r == is_tag_char(c),
{
    word_char(c) || c == '-'
}

pub fn run_space(c: char) -> (r: bool)
    ensures
        r == is_run_space(c),
{
    c == ' ' || c == '\t'
}

/// The position of the first character at or after `i` that does not satisfy
/// `pred`, or the end of `s` if every one from `i` on does.
pub open spec fn scan_while(s: Seq<char>, i: int, pred: spec_fn(char) -> bool) -> int
    decreases s.len() - i,
    when 0 <= i <= s.len()
{
    if i < s.len() && pred(s[i]) {
        scan_while(s, i + 1, pred)
    } else {
        i
    }
}

pub proof fn lemma_scan_while(s: Seq<char>, i: int, pred: spec_fn(char) -> bool)
    requires
        0 <= i <= s.len(),
    ensures
        i <= scan_while(s, i, pred) <= s.len(),
        forall|j: int| i <= j < scan_while(s, i, pred) ==> pred(s[j]),
        scan_while(s, i, pred) == s.len() || !pred(s[scan_while(s, i, pred)]),
    decreases s.len() - i,
{
    if i < s.len() && pred(s[i]) {
        lemma_scan_while(s, i + 1, pred);
    }
}

/// A stopping point determines the scan: if everything from `i` up to `e`
/// satisfies `pred` and `e` is the end or fails it, the scan ends at `e`.
pub proof fn lemma_scan_while_stops(s: Seq<char>, i: int, e: int, pred: spec_fn(char) -> bool)
    requires
        0 <= i <= e <= s.len(),
        forall|j: int| i <= j < e ==> pred(s[j]),
        e == s.len() || !pred(s[e]),
    ensures
        scan_while(s, i, pred) == e,
    decreases e - i,
{
    if i < e {
        lemma_scan_while_stops(s, i + 1, e, pred);
    }
}

/// The characters of `s`, as a vector.
pub fn chars_vec(s: &str) -> (r: Vec<char>)
    ensures
        r@ == s@,
{
    let n = s.unicode_len();
    let mut r: Vec<char> = Vec::new();
    let mut i: usize = 0;
    while i < n
        invariant
            i <= n,
            n == s@.len(),
            r@ == s@.subrange(0, i as int),
        decreases n - i,
    {
        r.push(s.get_char(i));
        i = i + 1;
        assert(r@ =~= s@.subrange(0, i as int));
    }
    assert(r@ =~= s@);
    r
}

/// Whether some element of `v` has the same characters as `s`.
pub fn contains_string(v: &Vec<String>, s: &String) -> (r: bool)
    ensures
        r == v.deep_view().contains(s@),
{
    let mut i: usize = 0;
    while i < v.len()
        invariant
            i <= v.len(),
            forall|j: int| 0 <= j < i ==> v.deep_view()[j] != s@,
        decreases v.len() - i,
    {
        if v[i] == *s {
            assert(v.deep_view()[i as int] == s@);
            return true;
        }
        assert(v.deep_view()[i as int] == v@[i as int]@);
        i = i + 1;
    }
    false
}


/// Lexicographic order on the characters of two strings from position `i`
/// on: by code point, a proper prefix first.
pub open spec fn lex_le_from(a: Seq<char>, b: Seq<char>, i: int) -> bool
    decreases a.len() - i,
    when 0 <= i
{
    if i >= a.len() {
        true
    } else if i >= b.len() {
        false
    } else if (a[i] as u32) < (b[i] as u32) {
        true
    } else if (a[i] as u32) > (b[i] as u32) {
        false
    } else {
        lex_le_from(a, b, i + 1)
    }
}

/// Lexicographic order on strings, by code point, a proper prefix first.
pub open spec fn lex_le(a: Seq<char>, b: Seq<char>) -> bool {
    lex_le_from(a, b, 0)
}

/// The order is total: of any two strings, one comes no later than the
/// other.
pub proof fn lemma_lex_total(a: Seq<char>, b: Seq<char>, i: int)
    requires
        0 <= i,
    ensures
        lex_le_from(a, b, i) || lex_le_from(b, a, i),
    decreases a.len() - i,
{
    if i < a.len() && i < b.len() && a[i] as u32 == b[i] as u32 {
        lemma_lex_total(a, b, i + 1);
    }
}

/// The order is transitive.
pub proof fn lemma_lex_trans(a: Seq<char>, b: Seq<char>, c: Seq<char>, i: int)
    requires
        0 <= i,
        lex_le_from(a, b, i),
        lex_le_from(b, c, i),
    ensures
        lex_le_from(a, c, i),
    decreases a.len() - i,
{
    if i < a.len() && i < b.len() && i < c.len() && a[i] as u32 == b[i] as u32 && b[i] as u32
        == c[i] as u32 {
        lemma_lex_trans(a, b, c, i + 1);
    }
}

/// Whether `a` comes no later than `b` in lexicographic order.
pub fn str_le(a: &String, b: &String) -> (r: bool)
    ensures
        r == lex_le(a@, b@),
{
    let an = a.as_str().unicode_len();
    let bn = b.as_str().unicode_len();
    let mut i: usize = 0;
    loop
        invariant_except_break
            i <= an,
            i <= bn,
            lex_le(a@, b@) == lex_le_from(a@, b@, i as int),
        invariant
            an == a@.len(),
            bn == b@.len(),
        ensures
            i <= an,
            i <= bn,
            lex_le(a@, b@) == lex_le_from(a@, b@, i as int),
            i >= an || i >= bn || a@[i as int] as u32 != b@[i as int] as u32,
        decreases an - i,
    {
        if i == an || i == bn {
            break ;
        }
        let ca = a.as_str().get_char(i);
        let cb = b.as_str().get_char(i);
        if ca as u32 != cb as u32 {
            break ;
        }
        i = i + 1;
    }
    if i == an {
        true
    } else if i == bn {
        false
    } else {
        (a.as_str().get_char(i) as u32) < (b.as_str().get_char(i) as u32)
    }
}

} // verus!

//! Turning a link line into a note file: the filesystem-safe file name
//! derived from the title, the note content, and the notes root path.
use vstd::prelude::*;

use crate::ExomemError;
use crate::link::{Link, link_line_to_struct, format_link_file_content, spec_parse_link,
    spec_link_file_content};
use crate::text::{is_word_char, word_char, chars_vec};
use vstd::string::StrSliceExecFns;
use vstd::string::StringExecFns;

verus! {

/// Characters that the file name replaces with a hyphen: em-dash, pipe and
/// slash.
pub open spec fn is_dashed_char(c: char) -> bool {
    c as u32 == 0x2014 || c == '|' || c == '/'
}

/// What becomes of one title character in a file name: em-dash, pipe and
/// slash turn into a hyphen; word characters, hyphens and spaces stay; every
/// other character turns into an underscore.
pub open spec fn sanitized_char(c: char) -> char {
    if is_dashed_char(c) {
        '-'
    } else if is_word_char(c) || c == '-' || c == ' ' {
        c
    } else {
        '_'
    }
}

/// The filesystem-safe form of a title.
pub open spec fn sanitize_spec(s: Seq<char>) -> Seq<char> {
    s.map_values(|c: char| sanitized_char(c))
}

/// Derives a filesystem-safe file name from a link title, character by
/// character.
pub fn sanitize_file_name(name: &str) -> (r: String)
    ensures
        r@ == sanitize_spec(name@),
{
    proof {
        reveal_strlit("-");
        reveal_strlit("_");
    }
    let ghost s = name@;
    let cs = chars_vec(name);
    let n = cs.len();
    let mut r = String::new();
    let mut i: usize = 0;
    while i < n
        invariant
            i <= n,
            s == name@,
            cs@ == s,
            n == s.len(),
            "-"@ == seq!['-'],
            "_"@ == seq!['_'],
            r@ == s.subrange(0, i as int).map_values(|c: char| sanitized_char(c)),
        decreases n - i,
    {
        let c = cs[i];
        let u = c as u32;
        if u == 0x2014 || c == '|' || c == '/' {
            r.append("-");
        } else if word_char(c) || c == '-' || c == ' ' {
            r.append(name.substring_char(i, i + 1));
            assert(name@.subrange(i as int, i + 1) =~= seq![s[i as int]]);
        } else {
            r.append("_");
        }
        assert(r@ =~= s.subrange(0, i + 1).map_values(|c: char| sanitized_char(c)));
        i = i + 1;
    }
    assert(s.subrange(0, n as int) =~= s);
    r
}

/// Sanitizing is idempotent: a second pass over a sanitized title changes
/// nothing, since every character it leaves behind is one it keeps.
pub proof fn lemma_sanitize_idempotent(s: Seq<char>)
    ensures
        sanitize_spec(sanitize_spec(s)) == sanitize_spec(s),
{
    assert forall|j: int| 0 <= j < s.len() implies sanitized_char(sanitized_char(s[j]))
        == sanitized_char(s[j]) by {}
    assert(sanitize_spec(sanitize_spec(s)) =~= sanitize_spec(s));
}

/// The file name and file content of the note that persists a link line:
/// the parsed title, sanitized, with the `.md` ending, and the serialized
/// note-file form. A line that does not parse as a link is reported as
/// `LinkTitleParse`.
pub fn prepare_link_note(line: &str) -> (r: Result<(String, String), ExomemError>)
    ensures
        r is Ok <==> spec_parse_link(line@) is Some,
        match r {
            Ok(fc) => match spec_parse_link(line@) {
                Some(parts) => fc.0@ == sanitize_spec(parts.0) + ".md"@ && fc.1@
                    == spec_link_file_content(parts.0, parts.1, parts.2),
                None => false,
            },
            Err(e) => e == ExomemError::LinkTitleParse,
        },
{
    match link_line_to_struct(line) {
        Some(link) => {
            let mut file_name = sanitize_file_name(link.name.as_str());
            file_name.append(".md");
            let content = format_link_file_content(link);
            Ok((file_name, content))
        },
        None => Err(ExomemError::LinkTitleParse),
    }
}

/// The notes root under a home directory: the home path made absolute, then
/// `exomem.d` inside it.
pub open spec fn exomem_dir_spec(home: Seq<char>) -> Seq<char> {
    let base = if home.len() > 0 && home[0] == '/' {
        home
    } else {
        seq!['/'] + home
    };
    if base.len() > 0 && base[base.len() - 1] == '/' {
        base + "exomem.d"@
    } else {
        base + "/exomem.d"@
    }
}

/// The path of the notes directory under the given home directory.
pub fn exomem_dir_path(home: &str) -> (r: String)
    ensures
        r@ == exomem_dir_spec(home@),
{
    proof {
        reveal_strlit("/");
        reveal_strlit("exomem.d");
        reveal_strlit("/exomem.d");
    }
    let n = home.unicode_len();
    let mut r = String::new();
    if n == 0 || home.get_char(0) != '/' {
        r.append("/");
    }
    r.append(home);
    assert(r@ =~= (if home@.len() > 0 && home@[0] == '/' {
        home@
    } else {
        seq!['/'] + home@
    }));
    if r.unicode_len() > 0 && r.as_str().get_char(r.unicode_len() - 1) == '/' {
        r.append("exomem.d");
    } else {
        r.append("/exomem.d");
    }
    r
}

/// The glob pattern that finds every markdown note under the given root, at
/// any depth.
pub fn md_glob_pattern(dir: &str) -> (r: String)
    ensures
        r@ == dir@ + "/**/*.md"@,
{
    let mut r = String::new();
    r.append(dir);
    r.append("/**/*.md");
    r
}

} // verus!

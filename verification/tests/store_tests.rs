use exomem::{exomem_dir_path, md_glob_pattern, prepare_link_note, sanitize_file_name, ExomemError};

#[test]
fn sanitize_replaces_dashed_and_strips_other_characters() {
    assert_eq!("Foo-Bar-Baz", sanitize_file_name("Foo\u{2014}Bar|Baz"));
    assert_eq!("a-b", sanitize_file_name("a/b"));
    assert_eq!("a_b_c", sanitize_file_name("a*b?c"));
    assert_eq!("keep me-now_1", sanitize_file_name("keep me-now_1"));
}

#[test]
fn sanitize_is_idempotent_on_samples() {
    for title in ["Weird\u{2014}Name|Here/Slash", "a*b?c", "  spaced  ", "x.y:z"] {
        let once = sanitize_file_name(title);
        let twice = sanitize_file_name(&once);
        assert_eq!(once, twice);
    }
}

#[test]
fn prepare_link_note_builds_name_and_content() {
    let (file_name, content) = prepare_link_note("[My Page](https://x.tld)#a#b").unwrap();
    assert_eq!("My Page.md", file_name);
    assert_eq!("#a #b\n\n[My Page](https://x.tld)\n", content);
}

#[test]
fn prepare_link_note_rejects_a_non_link() {
    match prepare_link_note("https://x.tld plain") {
        Err(ExomemError::LinkTitleParse) => {}
        _ => panic!(),
    }
}

#[test]
fn exomem_dir_path_is_under_home() {
    assert_eq!("/home/foo/exomem.d", exomem_dir_path("/home/foo"));
    assert_eq!("/home/foo/exomem.d", exomem_dir_path("/home/foo/"));
    assert_eq!("/home/foo/exomem.d", exomem_dir_path("home/foo"));
}

#[test]
fn glob_pattern_covers_all_markdown_files() {
    assert_eq!("/notes/**/*.md", md_glob_pattern("/notes"));
}

use exomem::{format_link_file_content, format_link_line, link_line_to_struct, Link};

#[test]
fn link_to_struct_accepts_valid_link() {
    let expected = Link {
        name: "foo-title".to_string(),
        href: "https://foo.tld".to_string(),
        tags: vec!["foo-tag".to_string(), "bar_tag".to_string()],
    };
    let s = "[foo-title](https://foo.tld)#foo-tag#bar_tag";
    if let Some(link_file) = link_line_to_struct(s) {
        assert_eq!(expected, link_file);
    } else {
        panic!();
    }
}

#[test]
fn format_link_file_content_returns_markdown_str() {
    let link = Link {
        name: "foo-title".to_string(),
        href: "https://foo.tld".to_string(),
        tags: vec!["foo-tag".to_string(), "bar_tag".to_string()],
    };
    let expected = format!("#foo-tag #bar_tag\n\n[foo-title](https://foo.tld)\n");
    let content = format_link_file_content(link);
    assert_eq!(expected, content);
}

#[test]
fn parse_link_line_with_tags() {
    let parsed = link_line_to_struct("[Foo Bar](https://x.tld)#one#two").unwrap();
    let expected = Link {
        name: "Foo Bar".to_string(),
        href: "https://x.tld".to_string(),
        tags: vec!["one".to_string(), "two".to_string()],
    };
    assert_eq!(expected, parsed);
}

#[test]
fn format_file_content_scenario() {
    let link = Link {
        name: "Foo".to_string(),
        href: "http://x".to_string(),
        tags: vec!["a".to_string(), "b".to_string()],
    };
    assert_eq!("#a #b\n\n[Foo](http://x)\n", format_link_file_content(link));
}

#[test]
fn format_file_content_without_tags_has_no_header() {
    let link = Link {
        name: "Foo".to_string(),
        href: "http://x".to_string(),
        tags: vec![],
    };
    assert_eq!("[Foo](http://x)\n", format_link_file_content(link));
}

#[test]
fn display_line_round_trips() {
    let link = Link {
        name: "A (nice) title".to_string(),
        href: "https://x.tld/p?q=1".to_string(),
        tags: vec!["one".to_string(), "t-w-o".to_string()],
    };
    let line = format_link_line(&link);
    assert_eq!("[A (nice) title](https://x.tld/p?q=1)#one#t-w-o", line);
    let back = link_line_to_struct(&line).unwrap();
    assert_eq!(link, back);
}

#[test]
fn display_line_round_trips_without_tags() {
    let link = Link {
        name: "t".to_string(),
        href: "u".to_string(),
        tags: vec![],
    };
    let back = link_line_to_struct(&format_link_line(&link)).unwrap();
    assert_eq!(link, back);
}

#[test]
fn parse_rejects_non_links() {
    assert!(link_line_to_struct("not a link").is_none());
    assert!(link_line_to_struct("").is_none());
    assert!(link_line_to_struct("[](x)").is_none());
    assert!(link_line_to_struct("[x]()").is_none());
    assert!(link_line_to_struct("[t](u)#").is_none());
    assert!(link_line_to_struct("[t](u)#a b").is_none());
}

#[test]
fn parse_takes_the_last_separator() {
    let parsed = link_line_to_struct("[a](b)](c)").unwrap();
    assert_eq!("a](b)", parsed.name);
    assert_eq!("c", parsed.href);
    assert!(parsed.tags.is_empty());
}

use exomem::{is_http_url, markdown_link_for_page, page_to_link};

#[test]
fn recognizes_http_and_https_urls() {
    assert!(is_http_url("http://x.tld"));
    assert!(is_http_url("https://x.tld/path?q=1"));
    assert!(!is_http_url("ftp://x.tld"));
    assert!(!is_http_url("[a](b)"));
    assert!(!is_http_url("http:/x"));
}

#[test]
fn page_metadata_becomes_a_link() {
    let html = "<html><head><title> My Page </title>\
                <meta name=\"keywords\" content=\"rust lang, verus\"></head>\
                <body>hi</body></html>";
    let link = page_to_link("https://x.tld", html);
    assert_eq!("My Page", link.name);
    assert_eq!("https://x.tld", link.href);
    assert_eq!(vec!["rust_lang".to_string(), "verus".to_string()], link.tags);
}

#[test]
fn missing_title_falls_back_to_the_stripped_url() {
    let link = page_to_link("https://x.tld/page", "<html><body>no head</body></html>");
    assert_eq!("x.tld/page", link.name);
    assert!(link.tags.is_empty());
}

#[test]
fn missing_keywords_yield_no_tags() {
    let html = "<html><head><title>T</title></head></html>";
    let link = page_to_link("http://x", html);
    assert_eq!("T", link.name);
    assert!(link.tags.is_empty());
}

#[test]
fn keywords_without_content_yield_no_tags() {
    let html = "<html><head><title>T</title><meta name=\"keywords\"></head></html>";
    let link = page_to_link("http://x", html);
    assert!(link.tags.is_empty());
}

#[test]
fn formats_the_markdown_line_for_a_page() {
    let html = "<html><head><title>My Page</title>\
                <meta name=\"keywords\" content=\"one, two words \"></head></html>";
    assert_eq!(
        "[My Page](https://x.tld)#one#two_words",
        markdown_link_for_page("https://x.tld", html)
    );
}

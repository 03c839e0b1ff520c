use exomem::find_tags;

fn lines(ls: &[&str]) -> Vec<String> {
    ls.iter().map(|l| l.to_string()).collect()
}

#[test]
fn extracts_tags_from_a_hashtag_line() {
    let tags = find_tags(&lines(&["#work #urgent"])).unwrap();
    assert_eq!(vec!["work".to_string(), "urgent".to_string()], tags);
}

#[test]
fn no_tags_in_plain_text() {
    assert!(find_tags(&lines(&["just notes", "no tags here"])).is_none());
    assert!(find_tags(&lines(&[])).is_none());
}

#[test]
fn tags_of_several_lines_are_united_without_duplicates() {
    let tags = find_tags(&lines(&["intro", "#a #b", "body", "#b #c"])).unwrap();
    assert_eq!(vec!["a".to_string(), "b".to_string(), "c".to_string()], tags);
}

#[test]
fn run_may_start_anywhere_in_the_line() {
    let tags = find_tags(&lines(&["see #alpha #beta_2 for more"])).unwrap();
    assert_eq!(vec!["alpha".to_string(), "beta_2".to_string()], tags);
}

#[test]
fn only_the_leftmost_run_of_a_line_counts() {
    let tags = find_tags(&lines(&["#one text #two"])).unwrap();
    assert_eq!(vec!["one".to_string()], tags);
}

#[test]
fn a_token_without_separation_ends_the_run() {
    let tags = find_tags(&lines(&["#a#b"])).unwrap();
    assert_eq!(vec!["a".to_string()], tags);
}

#[test]
fn bare_hash_does_not_start_a_run() {
    assert!(find_tags(&lines(&["# not a tag", "#", "# #"])).is_none());
}

use exomem::{process_files, ExomemError, NoteFile, TagIndex};

fn note(path: &str, ls: &[&str]) -> NoteFile {
    NoteFile {
        path: path.to_string(),
        lines: ls.iter().map(|l| l.to_string()).collect(),
    }
}

fn sample_index() -> TagIndex {
    process_files(vec![
        note("a.md", &["#work #urgent"]),
        note("b.md", &["#work"]),
        note("c.md", &["no tags at all"]),
    ])
}

#[test]
fn intersection_query_returns_common_notes() {
    let index = sample_index();
    assert_eq!(Ok(vec!["a.md".to_string()]), index.query("work+urgent"));
}

#[test]
fn single_term_query_lists_the_tagged_notes() {
    let index = sample_index();
    assert_eq!(
        Ok(vec!["a.md".to_string(), "b.md".to_string()]),
        index.query("work")
    );
    assert_eq!(Ok(vec!["a.md".to_string()]), index.query("urgent"));
}

#[test]
fn unknown_tag_is_reported_not_empty() {
    let index = sample_index();
    assert_eq!(Err(ExomemError::UnknownTag), index.query("missing"));
    assert_eq!(Err(ExomemError::UnknownTag), index.query("work+missing"));
    assert_eq!(Err(ExomemError::UnknownTag), index.query(""));
}

#[test]
fn query_on_empty_index_reports_unknown_tag() {
    let index = process_files(vec![]);
    assert_eq!(Err(ExomemError::UnknownTag), index.query("work"));
}

#[test]
fn index_is_bidirectional() {
    let index = sample_index();
    let a_tags = index.tags_of_note(&"a.md".to_string()).unwrap().clone();
    assert_eq!(vec!["work".to_string(), "urgent".to_string()], a_tags);
    for tag in &a_tags {
        let notes = index.notes_of_tag(tag).unwrap();
        assert!(notes.contains(&"a.md".to_string()));
    }
    let work_notes = index.notes_of_tag(&"work".to_string()).unwrap().clone();
    assert_eq!(vec!["a.md".to_string(), "b.md".to_string()], work_notes);
    for path in &work_notes {
        let tags = index.tags_of_note(path).unwrap();
        assert!(tags.contains(&"work".to_string()));
    }
}

#[test]
fn untagged_note_is_absent_from_the_index() {
    let index = sample_index();
    assert!(index.tags_of_note(&"c.md".to_string()).is_none());
    assert!(index.tags_of_note(&"d.md".to_string()).is_none());
}

#[test]
fn tag_list_names_each_tag_once_in_order() {
    let index = sample_index();
    assert_eq!(
        vec!["urgent".to_string(), "work".to_string()],
        index.tag_list()
    );
}

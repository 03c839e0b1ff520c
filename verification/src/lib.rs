//! A personal corpus of markdown notes, each annotated with inline hashtag
//! tags. The crate builds a bidirectional tag index over such notes, answers
//! `+`-joined tag-intersection queries against it, and parses and formats
//! markdown link lines for capturing web resources as new notes.
//!
//! All file, network and terminal work is left to the surrounding program:
//! the functions here take file contents, fetched page text and query lines
//! as plain values and return plain values.
use vstd::prelude::*;

pub mod capture;
pub mod index;
pub mod link;
pub mod store;
pub mod tags;
pub mod text;

pub use capture::is_http_url;
pub use capture::markdown_link_for_page;
pub use capture::page_link;
pub use capture::page_to_link;
pub use index::process_files;
pub use index::NoteFile;
pub use index::TagIndex;
pub use link::format_link_file_content;
pub use link::format_link_line;
pub use link::link_line_to_struct;
pub use link::Link;
pub use store::exomem_dir_path;
pub use store::md_glob_pattern;
pub use store::prepare_link_note;
pub use store::sanitize_file_name;
pub use tags::find_tags;

verus! {

/// The failures this crate and its callers report. Index construction never
/// fails (a note without tags is simply absent from the index); these cover
/// the query and capture paths.
#[derive(Debug, Clone, Copy, PartialEq, Eq, Structural)]
pub enum ExomemError {
    /// The HOME environment variable could not be resolved by the caller.
    HomeEnvVarLookup,
    /// A line handed to the capture pipeline is not a well-formed link line.
    LinkTitleParse,
    /// A query names a tag that the index does not know.
    UnknownTag,
    /// Fetching a URL failed in the caller's transport.
    FetchError,
    /// The note file could not be created by the caller.
    FileCreate,
    /// The note file could not be written by the caller.
    FileWrite,
}

} // verus!

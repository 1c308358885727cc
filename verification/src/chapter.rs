//! The data handed to the editor when a chapter is read.

use vstd::prelude::*;

use crate::html_parser::SplitHtml;
use crate::project::{file_name_spec, file_name_x, unknown_name};

verus! {

/// Data returned when reading a chapter.
#[derive(Debug, Clone)]
pub struct ChapterData {
    pub filename: String,
    pub body_html: String,
    pub css: String,
    pub original_head: String,
    /// True if the file is a body-only fragment (no `<html>`/`<body>` wrapper).
    pub is_fragment: bool,
}

/// The name shown for a chapter: the file name of its path, or a
/// stand-in when the path holds none.
pub open spec fn display_name(p: Seq<char>) -> Seq<char> {
    if file_name_spec(p).len() == 0 {
        unknown_name()
    } else {
        file_name_spec(p)
    }
}

/// The name shown for the chapter at `path`.
pub fn chapter_filename(path: &str) -> (r: String)
    ensures
        r@ == display_name(path@),
{
    let name = file_name_x(path);
    if name.as_str().unicode_len() == 0 {
        proof {
            reveal_strlit("unknown");
            assert("unknown"@ =~= unknown_name());
        }
        String::from_str("unknown")
    } else {
        name
    }
}

/// Assemble what a read of the chapter at `path` hands the editor: the
/// parts of its split, the shared stylesheet, and its display name.
pub fn make_chapter_data(path: &str, split: SplitHtml, css: String) -> (r: ChapterData)
    ensures
        r.filename@ == display_name(path@),
        r.body_html == split.body_content,
        r.original_head == split.head_content,
        r.css == css,
        r.is_fragment == split.is_fragment,
{
    ChapterData {
        filename: chapter_filename(path),
        body_html: split.body_content,
        css,
        original_head: split.head_content,
        is_fragment: split.is_fragment,
    }
}

} // verus!

//! Text files as the logic sees them: a path to show, and what reading gave.

use crate::text;
use vstd::prelude::*;

verus! {

/// A text file: its path as shown to the user, and its text or why it could
/// not be read.
#[derive(Debug)]
pub struct TextFile {
    pub path: String,
    pub content: Result<String, String>,
}

/// What a text file holds.
pub struct FileView {
    pub path: Seq<char>,
    pub content: Result<Seq<char>, Seq<char>>,
}

impl View for TextFile {
    type V = FileView;

    open spec fn view(&self) -> FileView {
        FileView { path: self.path@, content: text::text_result(self.content) }
    }
}

/// What an optional text file holds.
pub open spec fn opt_view(file: Option<TextFile>) -> Option<FileView> {
    match file {
        Some(f) => Some(f@),
        None => None,
    }
}

/// What a list of text files holds.
pub open spec fn views(files: Seq<TextFile>) -> Seq<FileView> {
    Seq::new(files.len(), |i: int| files[i]@)
}

/// The failure about a file that cannot be read.
pub open spec fn unreadable(path: Seq<char>, detail: Seq<char>) -> Seq<char> {
    "cannot read "@ + path + ": "@ + detail
}

impl TextFile {
    /// The text of the file, or the failure to show.
    pub fn text(&self) -> (r: Result<&str, String>)
        ensures
            match r {
                Ok(t) => self@.content == Ok::<_, Seq<char>>(t@),
                Err(e) => self@.content matches Err(d) && e@ == unreadable(self.path@, d),
            },
    {
        match &self.content {
            Ok(t) => Ok(t.as_str()),
            Err(e) => Err(text::concat4("cannot read ", self.path.as_str(), ": ", e.as_str())),
        }
    }
}

} // verus!

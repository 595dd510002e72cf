//! The `write` tool: a file's contents replaced, previewed before.

use vstd::prelude::*;

use crate::highlight::{preview_lines, preview_notice, token_of, Preview, MAX_LINE_WIDTH};
use crate::text::{push_str, string_of};

verus! {

/// A call of the `write` tool: the path of the file, its new contents,
/// and their preview.
#[derive(Debug, Clone)]
pub struct Write {
    pub path: String,
    pub content: String,
    pub preview: Preview,
}

impl Write {
    /// A write of `content` to `path`, previewed in the language of the
    /// path's extension.
    pub fn new(path: String, content: String) -> (w: Write)
        ensures
            w.path@ == path@,
            w.content@ == content@,
            w.preview.language@ == token_of(path@),
            crate::highlight::preview_view(w.preview.lines@) == preview_lines(
                content@,
                MAX_LINE_WIDTH as nat,
            ),
            crate::git::text_view(w.preview.notice) == preview_notice(content@),
    {
        let preview = Preview::file(path.as_str(), content.as_str());
        Write { path, content, preview }
    }

    /// The title the call is shown under: its path.
    pub fn title(&self) -> (t: Option<String>)
        ensures
            t matches Some(s) && s@ == self.path@,
    {
        Some(self.path.clone())
    }
}

/// The notice of a write to the file shown as `path`.
pub fn notice(path: &str) -> (n: String)
    ensures
        n@ == "Wrote to "@ + path@,
{
    let mut v: Vec<char> = Vec::new();
    push_str(&mut v, "Wrote to ");
    push_str(&mut v, path);
    string_of(&v)
}

} // verus!

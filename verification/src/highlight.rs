//! The bounded preview of some content: at most a few lines, each cut to
//! a width, with a notice of the full size where lines were left out.
//! The syntax highlighting of the lines is left to the caller.

use vstd::prelude::*;

use crate::output::{fit_count, fit_prefix, str_bytes};
use crate::text::{byte_len, chars_of, decimal, lines, push_decimal, push_str, split_lines, string_of, views};

verus! {

/// How many lines a preview shows; bounds the height of the view, not
/// the content of the call.
pub const MAX_LINES: usize = 10;

/// The default number of bytes a line of a preview may hold before it
/// is cut; bounds the layout work of pathological content, like
/// minified files.
pub const MAX_LINE_WIDTH: usize = 200;

/// One line of a preview, and whether it was cut.
#[derive(Debug, Clone)]
pub struct PreviewLine {
    pub text: String,
    pub cut: bool,
}

/// A bounded, line-based preview of some content, in the language named
/// `language`.
#[derive(Debug, Clone)]
pub struct Preview {
    pub language: String,
    pub lines: Vec<PreviewLine>,
    /// A notice of the full size of the content, present only when lines
    /// were left out.
    pub notice: Option<String>,
}

/// A line cut to `width` bytes, at the last character that fits, and
/// whether it was cut.
pub open spec fn cut_line(l: Seq<char>, width: nat) -> (Seq<char>, bool) {
    if byte_len(l) > width {
        (l.take(fit_count(l, width) as int), true)
    } else {
        (l, false)
    }
}

/// The lines a preview of `content` shows: the first `MAX_LINES`, each
/// cut to `width` bytes.
pub open spec fn preview_lines(content: Seq<char>, width: nat) -> Seq<(Seq<char>, bool)> {
    let ls = lines(content);
    let shown = if ls.len() < MAX_LINES {
        ls
    } else {
        ls.take(MAX_LINES as int)
    };
    shown.map_values(|l: Seq<char>| cut_line(l, width))
}

/// The notice of a preview of `content`: its size, where lines were left
/// out.
pub open spec fn preview_notice(content: Seq<char>) -> Option<Seq<char>> {
    let total = lines(content).len();
    if total > MAX_LINES {
        Some(
            "… ("@ + decimal(total) + " lines, "@ + decimal(byte_len(content))
                + " bytes total)"@,
        )
    } else {
        None
    }
}

/// The views of the lines of a preview.
pub open spec fn preview_view(ls: Seq<PreviewLine>) -> Seq<(Seq<char>, bool)> {
    ls.map_values(|l: PreviewLine| (l.text@, l.cut))
}

impl Preview {
    /// A preview of `content`, in the language `language`, with each line
    /// cut to `line_width` bytes.
    pub fn new(language: &str, content: &str, line_width: usize) -> (p: Preview)
        ensures
            p.language@ == language@,
            preview_view(p.lines@) == preview_lines(content@, line_width as nat),
            crate::git::text_view(p.notice) == preview_notice(content@),
    {
        let ls = split_lines(&chars_of(content));
        let total = ls.len();
        let shown = if total < MAX_LINES {
            total
        } else {
            MAX_LINES
        };
        let ghost wanted = if views(ls@).len() < MAX_LINES {
            views(ls@)
        } else {
            views(ls@).take(MAX_LINES as int)
        };
        assert(wanted =~= views(ls@).take(shown as int));
        let mut out: Vec<PreviewLine> = Vec::new();
        let mut i: usize = 0;
        while i < shown
            invariant
                i <= shown <= ls.len(),
                preview_view(out@) == views(ls@).take(i as int).map_values(
                    |l: Seq<char>| cut_line(l, line_width as nat),
                ),
            decreases shown - i,
        {
            let line = &ls[i];
            let (fit, _) = fit_prefix(line, line_width);
            let bytes = crate::output::str_bytes(string_of(line).as_str());
            let ghost before = out@;
            let entry = if bytes > line_width {
                PreviewLine { text: string_of(&crate::text::slice_of(line, 0, fit)), cut: true }
            } else {
                PreviewLine { text: string_of(line), cut: false }
            };
            proof {
                assert(line@.subrange(0, fit as int) =~= line@.take(fit as int));
            }
            out.push(entry);
            proof {
                assert(views(ls@)[i as int] == line@);
                assert(preview_view(out@) =~= preview_view(before).push(
                    cut_line(line@, line_width as nat),
                ));
                assert(views(ls@).take(i + 1).map_values(
                    |l: Seq<char>| cut_line(l, line_width as nat),
                ) =~= views(ls@).take(i as int).map_values(
                    |l: Seq<char>| cut_line(l, line_width as nat),
                ).push(cut_line(line@, line_width as nat)));
            }
            i = i + 1;
        }
        let notice = if total > MAX_LINES {
            let mut n: Vec<char> = Vec::new();
            push_str(&mut n, "… (");
            push_decimal(&mut n, total as u64);
            push_str(&mut n, " lines, ");
            push_decimal(&mut n, str_bytes(content) as u64);
            push_str(&mut n, " bytes total)");
            Some(string_of(&n))
        } else {
            None
        };
        Preview { language: language.to_owned(), lines: out, notice }
    }

    /// A preview of the file at `path`, in the language of its extension,
    /// each line cut to `MAX_LINE_WIDTH` bytes.
    pub fn file(path: &str, content: &str) -> (p: Preview)
        ensures
            p.language@ == token_of(path@),
            preview_view(p.lines@) == preview_lines(content@, MAX_LINE_WIDTH as nat),
            crate::git::text_view(p.notice) == preview_notice(content@),
    {
        let language = token(path);
        Preview::new(language.as_str(), content, MAX_LINE_WIDTH)
    }
}

/// The highlight token of `path`: the extension of the file, which picks
/// the grammar of the syntax highlighter, or nothing.
pub open spec fn token_of(path: Seq<char>) -> Seq<char> {
    match crate::path::extension(path) {
        Some(e) => e,
        None => seq![],
    }
}

/// The highlight token of `path`.
pub fn token(path: &str) -> (t: String)
    ensures
        t@ == token_of(path@),
{
    match crate::path::extension_of(path) {
        Some(e) => e,
        None => String::new(),
    }
}

impl PreviewLine {
    /// The line as shown: its text, and an ellipsis where it was cut.
    pub fn shown(&self) -> (s: String)
        ensures
            s@ == if self.cut {
                self.text@.push('…')
            } else {
                self.text@
            },
    {
        let mut v = chars_of(self.text.as_str());
        if self.cut {
            v.push('…');
        }
        string_of(&v)
    }
}

} // verus!

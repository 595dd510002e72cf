//! The `bash` tool: a command run by bash, its output captured.

use vstd::prelude::*;

use crate::highlight::{preview_lines, preview_notice, preview_view, Preview};
use crate::output::{fit_count, fit_prefix};
use crate::text::{chars_of, is_space, is_whitespace, push_str, slice_of, string_of, trim, trimmed};

verus! {

/// How many bytes a line of the command preview may hold before it is
/// cut; long, single-line commands are everyday, and a command's length
/// carries meaning in a way a file's does not, so the budget is roomier
/// than the write preview's default.
pub const PREVIEW_LINE_WIDTH: usize = 500;

/// How many bytes a command's title may hold before it is cut; it sits
/// in the header next to the tool's label, where an overlong one would
/// crowd the message.
pub const TITLE_WIDTH: usize = 60;

/// What the first line of a command's preview is shown behind.
pub const PROMPT: &'static str = "$ ";

/// A call of the `bash` tool: the command, the title it is shown under,
/// if it has one, and the preview of the command, in the bash grammar.
#[derive(Debug)]
pub struct Bash {
    command: String,
    title: Option<String>,
    preview: Preview,
}

/// The index of the last white space in `s` below `k`.
pub open spec fn last_space_before(s: Seq<char>, k: int) -> Option<int>
    decreases k,
{
    if k <= 0 {
        None
    } else if is_space(s[k - 1]) {
        Some(k - 1)
    } else {
        last_space_before(s, k - 1)
    }
}

/// A title fit for the header: surrounding white space trimmed, an empty
/// one dropped, and an overlong one cut at the last word boundary within
/// `TITLE_WIDTH` bytes, with an ellipsis for what fell off, or at the
/// last char that fits when no word boundary is at hand.
pub open spec fn sanitized_title(title: Seq<char>) -> Option<Seq<char>> {
    let t = trim(title);
    if t.len() == 0 {
        None
    } else {
        let end = fit_count(t, TITLE_WIDTH as nat);
        if end < t.len() {
            let cut = match last_space_before(t, end as int) {
                Some(c) => c,
                None => end as int,
            };
            Some(t.take(cut).push('…'))
        } else {
            Some(t)
        }
    }
}

/// The script bash runs for `command`: its errors go where its output
/// goes.
pub open spec fn script_of(command: Seq<char>) -> Seq<char> {
    "exec 2>&1; "@ + command
}

/// A title fit for the header.
pub fn sanitize_title(title: &str) -> (r: Option<String>)
    ensures
        match r {
            Some(t) => sanitized_title(title@) == Some(t@),
            None => sanitized_title(title@) is None,
        },
{
    let t = trimmed(&chars_of(title));
    if t.len() == 0 {
        return None;
    }
    let (end, _) = fit_prefix(&t, TITLE_WIDTH);
    if end < t.len() {
        let mut k = end;
        while k > 0 && !is_whitespace(t[k - 1])
            invariant
                k <= end <= t.len(),
                last_space_before(t@, end as int) == last_space_before(t@, k as int),
            decreases k,
        {
            k = k - 1;
        }
        let cut = if k > 0 {
            k - 1
        } else {
            end
        };
        let mut r = slice_of(&t, 0, cut);
        r.push('…');
        assert(r@ =~= t@.take(cut as int).push('…'));
        Some(string_of(&r))
    } else {
        Some(string_of(&t))
    }
}

impl Bash {
    /// The preview always shows the command, in the bash grammar, each
    /// line cut to `PREVIEW_LINE_WIDTH` bytes.
    #[verifier::type_invariant]
    closed spec fn previews_the_command(&self) -> bool {
        &&& self.preview.language@ == "bash"@
        &&& preview_view(self.preview.lines@) == preview_lines(
            self.command@,
            PREVIEW_LINE_WIDTH as nat,
        )
        &&& crate::git::text_view(self.preview.notice) == preview_notice(self.command@)
    }

    /// A call of `command`, shown under `description` where one is given
    /// and fit for the header.
    pub fn new(command: String, description: Option<String>) -> (b: Bash)
        ensures
            b.command()@ == command@,
            b.title_view() == match description {
                Some(d) => sanitized_title(d@),
                None => None,
            },
    {
        let title = match &description {
            Some(d) => sanitize_title(d.as_str()),
            None => None,
        };
        let preview = Preview::new("bash", command.as_str(), PREVIEW_LINE_WIDTH);
        proof {
            reveal_strlit("bash");
        }
        Bash { command, title, preview }
    }

    /// The preview of the command, shown behind `PROMPT`.
    pub fn preview(&self) -> (p: &Preview)
        ensures
            p.language@ == "bash"@,
            preview_view(p.lines@) == preview_lines(self.command()@, PREVIEW_LINE_WIDTH as nat),
            crate::git::text_view(p.notice) == preview_notice(self.command()@),
    {
        proof {
            use_type_invariant(self);
        }
        &self.preview
    }

    /// The title, by its view.
    pub closed spec fn title_view(&self) -> Option<Seq<char>> {
        match self.title {
            Some(t) => Some(t@),
            None => None,
        }
    }

    /// The command.
    pub closed spec fn command(&self) -> String {
        self.command
    }

    /// The title the call is shown under.
    pub fn title(&self) -> (t: Option<String>)
        ensures
            match t {
                Some(s) => self.title_view() == Some(s@),
                None => self.title_view() is None,
            },
    {
        self.title.clone()
    }

    /// The script bash is to run.
    pub fn script(&self) -> (s: String)
        ensures
            s@ == script_of(self.command()@),
    {
        let mut s: Vec<char> = Vec::new();
        push_str(&mut s, "exec 2>&1; ");
        push_str(&mut s, self.command.as_str());
        string_of(&s)
    }
}

/// The notice of a command that failed with the exit status `status`.
pub fn failure_notice(status: &str) -> (n: String)
    ensures
        n@ == "Command failed ("@ + status@ + ")"@,
{
    let mut s: Vec<char> = Vec::new();
    push_str(&mut s, "Command failed (");
    push_str(&mut s, status);
    push_str(&mut s, ")");
    string_of(&s)
}

} // verus!

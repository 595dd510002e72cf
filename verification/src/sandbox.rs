//! The sandbox policy: the bubblewrap arguments that re-execute the
//! process with the project and the user's projects directory as the
//! only writable places, the home hidden, the environment cleared down
//! to the basics; and why a process runs without one.
//!
//! What the host holds (which directories and files exist, what the
//! environment says) is gathered by the caller into a [`Host`]; the
//! arguments follow from it.

use vstd::prelude::*;

use crate::path::{join, joined, parent, parent_of, path_starts_with, starts_with_path};
use crate::text::{
    chars_of, decode_lossy, extend, has_prefix, lines, lossy_utf8, push_str, same_chars,
    split_lines, starts_with, string_of, strip_cr, trim, trimmed, views, without_prefix,
    first_of, find_char, lemma_first_of_bounds, slice_of, is_space, is_whitespace, trim_start,
};

verus! {

/// The environment marker identifying an already-sandboxed process, so
/// the re-executed process does not sandbox itself again.
pub const MARKER: &'static str = "PICK_SANDBOXED";

/// The sandbox hostname, in the unshared uts namespace.
pub const HOSTNAME: &'static str = "pick";

/// The bubblewrap binary, looked up on the `PATH`.
pub const BINARY: &'static str = "bwrap";

/// Why a process runs without a sandbox.
#[derive(Debug, Clone, PartialEq, Eq)]
pub enum Reason {
    /// Bubblewrap only exists on Linux.
    Unsupported,
    /// No `bwrap` binary was found on the `PATH`.
    Missing,
    /// The probe failed; the detail says why, typically user namespaces
    /// being disabled.
    Probe(String),
    /// The project directory could not be resolved.
    Project,
    /// The re-execution failed for some other reason.
    Exec(String),
}

/// Why a process runs without a sandbox, the project's data directory
/// and the scratchpad among the reasons.
#[derive(Debug, Clone, PartialEq, Eq)]
pub enum Error {
    Unsupported,
    Missing,
    Probe(String),
    Project,
    /// The project's data directory could not be created.
    DataDir(String),
    /// The scratchpad under the host's temp directory could not be
    /// prepared.
    Scratch(String),
    Exec(String),
}

/// What a failed probe reads, with its detail.
pub open spec fn probe_message(detail: Seq<char>) -> Seq<char> {
    if trim(detail).len() == 0 {
        "the sandbox probe failed (user namespaces may be disabled)"@
    } else {
        "the sandbox probe failed: "@ + detail
    }
}

/// What a reason reads.
pub open spec fn reason_message(r: Reason) -> Seq<char> {
    match r {
        Reason::Unsupported => "bubblewrap is only available on Linux"@,
        Reason::Missing => "no `bwrap` binary on the PATH; install bubblewrap"@,
        Reason::Probe(detail) => probe_message(detail@),
        Reason::Project => "the project directory could not be resolved"@,
        Reason::Exec(detail) => "the sandbox re-execution failed: "@ + detail@,
    }
}

/// What an error reads.
pub open spec fn error_message(e: Error) -> Seq<char> {
    match e {
        Error::Unsupported => "bubblewrap is only available on Linux"@,
        Error::Missing => "no `bwrap` binary on the PATH; install bubblewrap"@,
        Error::Probe(detail) => probe_message(detail@),
        Error::Project => "the project directory could not be resolved"@,
        Error::DataDir(detail) => "the project's data directory could not be created: "@
            + detail@,
        Error::Scratch(detail) => "the scratchpad could not be prepared: "@ + detail@,
        Error::Exec(detail) => "the sandbox re-execution failed: "@ + detail@,
    }
}

fn probe_text(detail: &String) -> (s: Vec<char>)
    ensures
        s@ == probe_message(detail@),
{
    let mut s: Vec<char> = Vec::new();
    let chars = chars_of(detail.as_str());
    if trimmed(&chars).len() == 0 {
        push_str(&mut s, "the sandbox probe failed (user namespaces may be disabled)");
    } else {
        push_str(&mut s, "the sandbox probe failed: ");
        extend(&mut s, &chars);
    }
    s
}

impl Reason {
    /// What the reason reads, as a notice.
    pub fn to_string(&self) -> (s: String)
        ensures
            s@ == reason_message(*self),
    {
        let mut s: Vec<char> = Vec::new();
        match self {
            Reason::Unsupported => push_str(&mut s, "bubblewrap is only available on Linux"),
            Reason::Missing => push_str(&mut s, "no `bwrap` binary on the PATH; install bubblewrap"),
            Reason::Probe(detail) => {
                s = probe_text(detail);
            },
            Reason::Project => push_str(&mut s, "the project directory could not be resolved"),
            Reason::Exec(detail) => {
                push_str(&mut s, "the sandbox re-execution failed: ");
                push_str(&mut s, detail.as_str());
            },
        }
        string_of(&s)
    }
}

impl Error {
    /// What the error reads.
    pub fn to_string(&self) -> (s: String)
        ensures
            s@ == error_message(*self),
    {
        let mut s: Vec<char> = Vec::new();
        match self {
            Error::Unsupported => push_str(&mut s, "bubblewrap is only available on Linux"),
            Error::Missing => push_str(&mut s, "no `bwrap` binary on the PATH; install bubblewrap"),
            Error::Probe(detail) => {
                s = probe_text(detail);
            },
            Error::Project => push_str(&mut s, "the project directory could not be resolved"),
            Error::DataDir(detail) => {
                push_str(&mut s, "the project's data directory could not be created: ");
                push_str(&mut s, detail.as_str());
            },
            Error::Scratch(detail) => {
                push_str(&mut s, "the scratchpad could not be prepared: ");
                push_str(&mut s, detail.as_str());
            },
            Error::Exec(detail) => {
                push_str(&mut s, "the sandbox re-execution failed: ");
                push_str(&mut s, detail.as_str());
            },
        }
        string_of(&s)
    }
}

/// What a failed probe says of itself: what it printed on its error
/// stream, trimmed.
pub fn probe_detail(stderr: &[u8]) -> (d: String)
    ensures
        d@ == trim(lossy_utf8(stderr@)),
{
    let text = decode_lossy(stderr);
    string_of(&trimmed(&chars_of(text.as_str())))
}

/// Whether a file of mode `mode` is a socket.
pub fn is_socket(mode: u32) -> (b: bool)
    ensures
        b == (mode & 0o17_0000 == 0o14_0000),
{
    mode & 0o17_0000 == 0o14_0000
}

/// Whether the variable `name` is one of the locale's: `LANG` or a
/// `LC_*`.
pub open spec fn is_locale_name(name: Seq<char>) -> bool {
    name == "LANG"@ || starts_with(name, "LC_"@)
}

/// The locale variables of `vars`, set to something, in order.
pub open spec fn picked_locale(vars: Seq<(Seq<char>, Seq<char>)>) -> Seq<(Seq<char>, Seq<char>)>
    decreases vars.len(),
{
    if vars.len() == 0 {
        seq![]
    } else {
        let rest = picked_locale(vars.drop_last());
        let (name, value) = vars.last();
        if is_locale_name(name) && value.len() > 0 {
            rest.push((name, value))
        } else {
            rest
        }
    }
}

/// The locale variables to forward into the sandbox, chosen from an
/// environment: `LC_ALL`, any `LC_*`, and `LANG`, when set to a
/// non-empty value. When the environment has none of them, a single
/// `LC_ALL=C.UTF-8`, so output stays UTF-8 instead of falling into the
/// bare C locale.
pub open spec fn locale_of(vars: Seq<(Seq<char>, Seq<char>)>) -> Seq<(Seq<char>, Seq<char>)> {
    let picked = picked_locale(vars);
    if picked.len() == 0 {
        seq![("LC_ALL"@, "C.UTF-8"@)]
    } else {
        picked
    }
}

/// The views of pairs of strings.
pub open spec fn pairs_view(v: Seq<(String, String)>) -> Seq<(Seq<char>, Seq<char>)> {
    v.map_values(|p: (String, String)| (p.0@, p.1@))
}

/// The locale variables to forward into the sandbox.
pub fn locale_vars(vars: &Vec<(String, String)>) -> (r: Vec<(String, String)>)
    ensures
        pairs_view(r@) == locale_of(pairs_view(vars@)),
{
    let lang = chars_of("LANG");
    let lc = chars_of("LC_");
    let mut picked: Vec<(String, String)> = Vec::new();
    let mut i: usize = 0;
    while i < vars.len()
        invariant
            i <= vars.len(),
            lang@ == "LANG"@,
            lc@ == "LC_"@,
            pairs_view(picked@) == picked_locale(pairs_view(vars@).take(i as int)),
        decreases vars.len() - i,
    {
        let (name, value) = &vars[i];
        let ghost before = picked@;
        proof {
            let t = pairs_view(vars@).take(i + 1);
            assert(t.drop_last() =~= pairs_view(vars@).take(i as int));
            assert(t.last() == (name@, value@));
        }
        let n = chars_of(name.as_str());
        if (same_chars(&n, &lang) || has_prefix(&n, &lc)) && !value.as_str().is_empty() {
            picked.push((name.clone(), value.clone()));
            assert(pairs_view(picked@) =~= pairs_view(before).push((name@, value@)));
        }
        i = i + 1;
    }
    assert(pairs_view(vars@).take(i as int) =~= pairs_view(vars@));
    if picked.len() == 0 {
        let mut r: Vec<(String, String)> = Vec::new();
        r.push(("LC_ALL".to_owned(), "C.UTF-8".to_owned()));
        assert(pairs_view(r@) =~= seq![("LC_ALL"@, "C.UTF-8"@)]);
        r
    } else {
        picked
    }
}

/// `s` with its ASCII capitals lowered, as `str::to_ascii_lowercase`.
pub open spec fn ascii_lower(s: Seq<char>) -> Seq<char> {
    s.map_values(|c: char| if 'A' <= c <= 'Z' {
        ((c as u8) + 32) as char
    } else {
        c
    })
}

/// `s` without the `"` at its start.
pub open spec fn without_leading_quotes(s: Seq<char>) -> Seq<char>
    decreases s.len(),
{
    if s.len() > 0 && s[0] == '"' {
        without_leading_quotes(s.drop_first())
    } else {
        s
    }
}

/// `s` without the `"` at its end.
pub open spec fn without_trailing_quotes(s: Seq<char>) -> Seq<char>
    decreases s.len(),
{
    if s.len() > 0 && s.last() == '"' {
        without_trailing_quotes(s.drop_last())
    } else {
        s
    }
}

/// `s` without the `"` around it, as `str::trim_matches('"')`.
pub open spec fn trim_quotes(s: Seq<char>) -> Seq<char> {
    without_trailing_quotes(without_leading_quotes(s))
}

/// What a `[...]` line holds inside its brackets.
pub open spec fn header_of(l: Seq<char>) -> Option<Seq<char>> {
    if l.len() >= 2 && l[0] == '[' && l.last() == ']' {
        Some(l.subrange(1, l.len() - 1))
    } else {
        None
    }
}

/// The index of the first white space in `s`, if any.
pub open spec fn first_space(s: Seq<char>) -> Option<int>
    decreases s.len(),
{
    if s.len() == 0 {
        None
    } else if is_space(s[0]) {
        Some(0)
    } else {
        match first_space(s.drop_first()) {
            Some(i) => Some(i + 1),
            None => None,
        }
    }
}

/// A header split once at white space: the section, and the rest.
pub open spec fn split_header(h: Seq<char>) -> (Seq<char>, Seq<char>) {
    let t = trim(h);
    match first_space(t) {
        Some(k) => (t.take(k), t.skip(k + 1)),
        None => (t, seq![]),
    }
}

/// A value without one pair of `"` around it.
pub open spec fn unquoted(v: Seq<char>) -> Seq<char> {
    if v.len() >= 2 && v[0] == '"' && v.last() == '"' {
        v.subrange(1, v.len() - 1)
    } else {
        v
    }
}

/// The reader of a git configuration between two lines: the section and
/// subsection it is in, and the values found.
pub struct ConfigReading {
    pub section: Seq<char>,
    pub subsection: Seq<char>,
    pub signingkey: Option<Seq<char>>,
    pub signers: Option<Seq<char>>,
}

/// The reader after one more line of the configuration: a header opens a
/// section, a `key = value` line sets a value, the rest is passed over.
pub open spec fn config_step(r: ConfigReading, line: Seq<char>) -> ConfigReading {
    let l = trim(line);
    if l.len() == 0 || l[0] == '#' || l[0] == ';' {
        r
    } else {
        match header_of(l) {
            Some(h) => {
                let (section, subsection) = split_header(h);
                ConfigReading {
                    section: ascii_lower(section),
                    subsection: ascii_lower(trim_quotes(subsection)),
                    ..r
                }
            },
            None => match first_of(l, '=') {
                None => r,
                Some(i) => {
                    let key = ascii_lower(trim(l.take(i)));
                    let value = unquoted(trim(l.skip(i + 1)));
                    let full = if r.subsection.len() == 0 {
                        r.section + "."@ + key
                    } else {
                        r.section + "."@ + r.subsection + "."@ + key
                    };
                    if full == "user.signingkey"@ {
                        ConfigReading { signingkey: Some(value), ..r }
                    } else if full == "gpg.ssh.allowedsignersfile"@ {
                        ConfigReading { signers: Some(value), ..r }
                    } else {
                        r
                    }
                },
            },
        }
    }
}

/// The reader after the lines `ls`.
pub open spec fn config_read(ls: Seq<Seq<char>>) -> ConfigReading
    decreases ls.len(),
{
    if ls.len() == 0 {
        ConfigReading { section: seq![], subsection: seq![], signingkey: None, signers: None }
    } else {
        config_step(config_read(ls.drop_last()), ls.last())
    }
}

/// The ssh-signing values of the git configuration `text`:
/// `user.signingkey` and `gpg.ssh.allowedSignersFile`.
pub open spec fn config_values(text: Seq<char>) -> (Option<Seq<char>>, Option<Seq<char>>) {
    let r = config_read(lines(text));
    (r.signingkey, r.signers)
}

/// `s` with its ASCII capitals lowered.
fn lowered(s: &Vec<char>) -> (r: Vec<char>)
    ensures
        r@ == ascii_lower(s@),
{
    let mut r: Vec<char> = Vec::new();
    let mut i: usize = 0;
    while i < s.len()
        invariant
            i <= s.len(),
            r@ == ascii_lower(s@.take(i as int)),
        decreases s.len() - i,
    {
        let c = s[i];
        let d = if 'A' <= c && c <= 'Z' {
            ((c as u8) + 32) as char
        } else {
            c
        };
        r.push(d);
        i = i + 1;
        assert(r@ =~= ascii_lower(s@.take(i as int)));
    }
    assert(s@.take(i as int) =~= s@);
    r
}

proof fn lemma_leading_quotes(s: Seq<char>, i: int)
    requires
        0 <= i <= s.len(),
        forall|k: int| 0 <= k < i ==> s[k] == '"',
    ensures
        without_leading_quotes(s) == without_leading_quotes(s.skip(i)),
    decreases i,
{
    if i > 0 {
        assert(s.skip(1) =~= s.drop_first());
        lemma_leading_quotes(s.drop_first(), i - 1);
        assert(s.drop_first().skip(i - 1) =~= s.skip(i));
    } else {
        assert(s.skip(0) =~= s);
    }
}

proof fn lemma_trailing_quotes(s: Seq<char>, j: int)
    requires
        0 <= j <= s.len(),
        forall|k: int| j <= k < s.len() ==> s[k] == '"',
    ensures
        without_trailing_quotes(s) == without_trailing_quotes(s.take(j)),
    decreases s.len() - j,
{
    if j < s.len() {
        assert(s.drop_last().take(j) =~= s.take(j));
        lemma_trailing_quotes(s.drop_last(), j);
    } else {
        assert(s.take(j) =~= s);
    }
}

/// `s` without the `"` around it.
fn quotes_trimmed(s: &Vec<char>) -> (r: Vec<char>)
    ensures
        r@ == trim_quotes(s@),
{
    let mut start: usize = 0;
    while start < s.len() && s[start] == '"'
        invariant
            start <= s.len(),
            forall|k: int| 0 <= k < start ==> s@[k] == '"',
        decreases s.len() - start,
    {
        start = start + 1;
    }
    proof {
        lemma_leading_quotes(s@, start as int);
    }
    let mut end: usize = s.len();
    while end > start && s[end - 1] == '"'
        invariant
            start <= end <= s.len(),
            forall|k: int| end <= k < s.len() ==> s@[k] == '"',
        decreases end,
    {
        end = end - 1;
    }
    let r = slice_of(s, start, end);
    proof {
        let t = s@.skip(start as int);
        if start < s.len() {
            assert(t[0] == s@[start as int]);
        }
        assert(without_leading_quotes(t) == t);
        assert forall|k: int| end - start <= k < t.len() implies t[k] == '"' by {
            assert(t[k] == s@[k + start]);
        }
        lemma_trailing_quotes(t, end - start);
        let u = t.take(end - start);
        assert(u =~= r@);
        if u.len() > 0 {
            assert(u.last() == s@[end - 1]);
        }
    }
    r
}

/// The index of the first white space in `s`.
fn find_space(s: &Vec<char>) -> (r: Option<usize>)
    ensures
        match r {
            Some(i) => first_space(s@) == Some(i as int) && i < s.len(),
            None => first_space(s@) is None,
        },
{
    let mut i: usize = 0;
    assert(s@.skip(0) =~= s@);
    while i < s.len()
        invariant
            i <= s.len(),
            first_space(s@) == match first_space(s@.skip(i as int)) {
                Some(k) => Some(k + i),
                None => None::<int>,
            },
        decreases s.len() - i,
    {
        proof {
            let t = s@.skip(i as int);
            assert(t[0] == s@[i as int]);
            assert(t.drop_first() =~= s@.skip(i + 1));
        }
        if is_whitespace(s[i]) {
            return Some(i);
        }
        i = i + 1;
    }
    proof {
        assert(s@.skip(i as int) =~= seq![]);
    }
    None
}

/// The ssh-signing values of a git configuration: `user.signingkey` and
/// `gpg.ssh.allowedSignersFile`. The signers value may be spelled either
/// as a dotted key under `[gpg]` or as a bare key under `[gpg "ssh"]`.
/// A value that does not name a file is left to the caller.
pub fn git_config_values(text: &str) -> (r: (Option<String>, Option<String>))
    ensures
        (crate::git::text_view(r.0), crate::git::text_view(r.1)) == config_values(text@),
{
    let ls = split_lines(&chars_of(text));
    let dot = chars_of(".");
    let user_key = chars_of("user.signingkey");
    let signers_key = chars_of("gpg.ssh.allowedsignersfile");
    let mut section: Vec<char> = Vec::new();
    let mut subsection: Vec<char> = Vec::new();
    let mut signingkey: Option<String> = None;
    let mut signers: Option<String> = None;
    let mut i: usize = 0;
    while i < ls.len()
        invariant
            i <= ls.len(),
            views(ls@) == lines(text@),
            dot@ == "."@,
            user_key@ == "user.signingkey"@,
            signers_key@ == "gpg.ssh.allowedsignersfile"@,
            config_read(views(ls@).take(i as int)) == (ConfigReading {
                section: section@,
                subsection: subsection@,
                signingkey: crate::git::text_view(signingkey),
                signers: crate::git::text_view(signers),
            }),
        decreases ls.len() - i,
    {
        proof {
            let t = views(ls@).take(i + 1);
            assert(t.drop_last() =~= views(ls@).take(i as int));
            assert(t.last() == ls@[i as int]@);
        }
        let l = trimmed(&ls[i]);
        if l.len() == 0 || l[0] == '#' || l[0] == ';' {
        } else if l.len() >= 2 && l[0] == '[' && l[l.len() - 1] == ']' {
            let h = slice_of(&l, 1, l.len() - 1);
            let t = trimmed(&h);
            let (first, rest) = match find_space(&t) {
                Some(k) => {
                    let a = slice_of(&t, 0, k);
                    let b = slice_of(&t, k + 1, t.len());
                    assert(a@ =~= t@.take(k as int));
                    assert(b@ =~= t@.skip(k + 1));
                    (a, b)
                },
                None => {
                    let a = slice_of(&t, 0, t.len());
                    assert(a@ =~= t@);
                    let b: Vec<char> = Vec::new();
                    assert(b@ =~= seq![]);
                    (a, b)
                },
            };
            section = lowered(&first);
            subsection = lowered(&quotes_trimmed(&rest));
        } else {
            match find_char(&l, '=') {
                None => {},
                Some(k) => {
                    proof {
                        lemma_first_of_bounds(l@, '=');
                    }
                    let key = lowered(&trimmed(&slice_of(&l, 0, k)));
                    let raw = trimmed(&slice_of(&l, k + 1, l.len()));
                    assert(l@.subrange(0, k as int) =~= l@.take(k as int));
                    assert(l@.subrange(k + 1, l@.len() as int) =~= l@.skip(k + 1));
                    let value = if raw.len() >= 2 && raw[0] == '"' && raw[raw.len() - 1] == '"' {
                        slice_of(&raw, 1, raw.len() - 1)
                    } else {
                        let v = slice_of(&raw, 0, raw.len());
                        assert(v@ =~= raw@);
                        v
                    };
                    let mut full: Vec<char> = Vec::new();
                    extend(&mut full, &section);
                    extend(&mut full, &dot);
                    if subsection.len() > 0 {
                        extend(&mut full, &subsection);
                        extend(&mut full, &dot);
                    }
                    extend(&mut full, &key);
                    if same_chars(&full, &user_key) {
                        signingkey = Some(string_of(&value));
                    } else if same_chars(&full, &signers_key) {
                        signers = Some(string_of(&value));
                    }
                },
            }
        }
        i = i + 1;
    }
    assert(views(ls@).take(i as int) =~= views(ls@));
    (signingkey, signers)
}

/// What the host holds that the sandbox depends on, gathered before the
/// re-execution: which of the places the sandbox brings back exist, and
/// the environment.
#[derive(Debug, Clone)]
pub struct Host {
    /// Whether `~/.cargo` is a directory.
    pub cargo_home: bool,
    /// Whether `~/.rustup` is a directory.
    pub rustup_home: bool,
    /// Whether `~/projects` is a directory.
    pub projects_home: bool,
    /// Whether `/tmp/.X11-unix` is a directory.
    pub x11_unix: bool,
    /// Whether the X authorization file that [`xauthority`] names is a
    /// file.
    pub xauthority_file: bool,
    /// Whether `~/.ssh/known_hosts` is a file.
    pub known_hosts: bool,
    /// Whether `~/.gitconfig` is a file.
    pub gitconfig: bool,
    /// The files that the ssh-signing values of `~/.gitconfig` name and
    /// that exist, in the order of [`git_config_values`].
    pub signing_files: Vec<String>,
    /// The `SSH_AUTH_SOCK` variable, where it names a socket.
    pub agent_socket: Option<String>,
    /// Whether `/dev/dri` is a directory.
    pub dri: bool,
    /// The names of the entries of `/dev`, in the order they were listed.
    pub dev_entries: Vec<String>,
    pub path: Option<String>,
    pub user: Option<String>,
    pub ssh_auth_sock: Option<String>,
    pub wayland_display: Option<String>,
    pub display: Option<String>,
    pub xauthority: Option<String>,
    pub xdg_runtime_dir: Option<String>,
    /// The whole environment, for its locale variables.
    pub env: Vec<(String, String)>,
}

/// The views of a sequence of strings.
pub open spec fn texts(v: Seq<String>) -> Seq<Seq<char>> {
    v.map_values(|s: String| s@)
}

/// The optional text `o`, by its view.
pub open spec fn opt(o: Option<String>) -> Option<Seq<char>> {
    crate::git::text_view(o)
}

/// A flag and a path given twice: a bind of the path onto itself.
pub open spec fn bind(flag: Seq<char>, p: Seq<char>) -> Seq<Seq<char>> {
    seq![flag, p, p]
}

/// The X authorization file the X client libraries look up: the
/// `XAUTHORITY` variable, or `$HOME/.Xauthority` where it is unset.
pub open spec fn xauthority_path(var: Option<Seq<char>>, home: Option<Seq<char>>) -> Option<
    Seq<char>,
> {
    match var {
        Some(v) => Some(v),
        None => match home {
            Some(h) => Some(joined(h, ".Xauthority"@)),
            None => None,
        },
    }
}

/// The isolation from the host and the read-only root.
pub open spec fn isolation() -> Seq<Seq<char>> {
    seq![
        "--unshare-user"@,
        "--unshare-pid"@,
        "--unshare-ipc"@,
        "--unshare-uts"@,
        "--ro-bind"@,
        "/"@,
        "/"@,
        "--tmpfs"@,
        "/tmp"@,
        "--tmpfs"@,
        "/var/tmp"@,
    ]
}

/// The hidden home, and what of it comes back: the toolchain, the
/// projects directory, and the directory of an executable under it but
/// outside the project.
pub open spec fn home_binds(project: Seq<char>, home: Seq<char>, exe: Seq<char>, h: Host) -> Seq<
    Seq<char>,
> {
    seq!["--tmpfs"@, home] + (if h.cargo_home {
        bind("--bind"@, joined(home, ".cargo"@))
    } else {
        seq![]
    }) + (if h.rustup_home {
        bind("--ro-bind"@, joined(home, ".rustup"@))
    } else {
        seq![]
    }) + (if h.projects_home {
        bind("--bind"@, joined(home, "projects"@))
    } else {
        seq![]
    }) + match parent(exe) {
        Some(dir) => if path_starts_with(dir, home) && !path_starts_with(dir, project) {
            bind("--ro-bind"@, dir)
        } else {
            seq![]
        },
        None => seq![],
    }
}

/// The binds a flag and a list of paths make.
pub open spec fn binds_of(flag: Seq<char>, paths: Seq<Seq<char>>) -> Seq<Seq<char>>
    decreases paths.len(),
{
    if paths.len() == 0 {
        seq![]
    } else {
        binds_of(flag, paths.drop_last()) + bind(flag, paths.last())
    }
}

/// The `/dev` entries of the NVIDIA driver, as paths.
pub open spec fn nvidia_nodes(entries: Seq<Seq<char>>) -> Seq<Seq<char>>
    decreases entries.len(),
{
    if entries.len() == 0 {
        seq![]
    } else if starts_with(entries.last(), "nvidia"@) {
        nvidia_nodes(entries.drop_last()).push(joined("/dev"@, entries.last()))
    } else {
        nvidia_nodes(entries.drop_last())
    }
}

/// The binds that keep the GPU visible: the DRM nodes, and the NVIDIA
/// driver's own nodes.
pub open spec fn gpu_plan(dri: bool, entries: Seq<Seq<char>>) -> Seq<Seq<char>> {
    (if dri {
        bind("--dev-bind"@, "/dev/dri"@)
    } else {
        seq![]
    }) + binds_of("--dev-bind"@, nvidia_nodes(entries))
}

/// A variable set in the sandbox, where it has a value.
pub open spec fn setenv(name: Seq<char>, value: Option<Seq<char>>) -> Seq<Seq<char>> {
    match value {
        Some(v) => seq!["--setenv"@, name, v],
        None => seq![],
    }
}

/// The variables set in the sandbox, one by one.
pub open spec fn setenvs(vars: Seq<(Seq<char>, Seq<char>)>) -> Seq<Seq<char>>
    decreases vars.len(),
{
    if vars.len() == 0 {
        seq![]
    } else {
        setenvs(vars.drop_last()) + seq!["--setenv"@, vars.last().0, vars.last().1]
    }
}

/// The ssh binds: the directory of the agent socket blanked, then the
/// socket itself.
pub open spec fn agent_binds(socket: Option<Seq<char>>) -> Seq<Seq<char>> {
    match socket {
        Some(s) => (match parent(s) {
            Some(dir) => if dir != "/"@ {
                seq!["--tmpfs"@, dir]
            } else {
                seq![]
            },
            None => seq![],
        }) + bind("--bind"@, s),
        None => seq![],
    }
}

/// The files of the home that come back read-only: the known host keys,
/// the git configuration, and the ssh-signing files it names.
pub open spec fn home_files(home: Option<Seq<char>>, h: Host) -> Seq<Seq<char>> {
    match home {
        Some(hm) => (if h.known_hosts {
            bind("--ro-bind"@, joined(joined(hm, ".ssh"@), "known_hosts"@))
        } else {
            seq![]
        }) + (if h.gitconfig {
            bind("--ro-bind"@, joined(hm, ".gitconfig"@))
        } else {
            seq![]
        }) + binds_of("--ro-bind"@, texts(h.signing_files@)),
        None => seq![],
    }
}

/// The mounts of the root and the home: the read-only root and private
/// temporary directories, the hidden home and what of it comes back,
/// and the X11 socket directory and authorization file.
pub open spec fn root_mounts(
    project: Seq<char>,
    home: Option<Seq<char>>,
    exe: Seq<char>,
    h: Host,
) -> Seq<Seq<char>> {
    isolation() + match home {
        Some(hm) => home_binds(project, hm, exe, h),
        None => seq![],
    } + (if h.x11_unix {
        bind("--ro-bind"@, "/tmp/.X11-unix"@)
    } else {
        seq![]
    }) + match xauthority_path(opt(h.xauthority), home) {
        Some(a) => if h.xauthority_file {
            bind("--ro-bind"@, a)
        } else {
            seq![]
        },
        None => seq![],
    }
}

/// The ssh mounts: the files of the home that come back, the system
/// ssh drop-ins hidden, and the agent socket.
pub open spec fn ssh_mounts(home: Option<Seq<char>>, h: Host) -> Seq<Seq<char>> {
    home_files(home, h) + seq!["--tmpfs"@, "/etc/ssh/ssh_config.d"@] + agent_binds(
        opt(h.agent_socket),
    )
}

/// The project, the minimal `/dev` and `/proc` with the GPU on top, and
/// the process settings.
pub open spec fn project_mounts(project: Seq<char>, h: Host) -> Seq<Seq<char>> {
    bind("--bind"@, project) + seq!["--dev"@, "/dev"@, "--proc"@, "/proc"@] + gpu_plan(
        h.dri,
        texts(h.dev_entries@),
    ) + seq![
        "--hostname"@,
        "pick"@,
        "--chdir"@,
        project,
        "--die-with-parent"@,
        "--new-session"@,
    ]
}

/// The variables of the host that come back into the bare environment,
/// where they are set.
pub open spec fn host_vars(home: Option<Seq<char>>, h: Host) -> Seq<Seq<char>> {
    setenv("PATH"@, opt(h.path)) + setenv("HOME"@, home) + setenv("USER"@, opt(h.user))
        + setenv("SSH_AUTH_SOCK"@, opt(h.ssh_auth_sock))
}

/// The display variables the GUI needs to reach the compositor, where
/// they are set.
pub open spec fn display_vars(h: Host) -> Seq<Seq<char>> {
    setenv("WAYLAND_DISPLAY"@, opt(h.wayland_display)) + setenv("DISPLAY"@, opt(h.display))
        + setenv("XAUTHORITY"@, opt(h.xauthority)) + setenv(
        "XDG_RUNTIME_DIR"@,
        opt(h.xdg_runtime_dir),
    )
}

/// The bare environment and what comes back into it, then the command.
pub open spec fn environment(home: Option<Seq<char>>, exe: Seq<char>, h: Host) -> Seq<Seq<char>> {
    seq!["--clearenv"@, "--setenv"@, "PICK_SANDBOXED"@, "1"@] + host_vars(home, h)
        + display_vars(h) + setenvs(locale_of(pairs_view(h.env@))) + seq!["--"@, exe]
}

/// The bubblewrap arguments that sandbox a re-execution of `exe` with
/// `project` and the user's projects directory as the only writable
/// directories, on a host that holds `h`. Bubblewrap applies the mounts
/// in the order given, so the read-only root comes first and the
/// exceptions follow.
pub open spec fn sandbox_plan(
    project: Seq<char>,
    home: Option<Seq<char>>,
    exe: Seq<char>,
    h: Host,
) -> Seq<Seq<char>> {
    root_mounts(project, home, exe, h) + ssh_mounts(home, h) + project_mounts(project, h)
        + environment(home, exe, h)
}

/// Appends `s` to `args`.
fn push_arg(args: &mut Vec<String>, s: &str)
    ensures
        texts(final(args)@) == texts(old(args)@).push(s@),
{
    let ghost before = args@;
    args.push(s.to_owned());
    assert(texts(args@) =~= texts(before).push(s@));
}

/// Appends a bind of `p` onto itself.
fn push_bind(args: &mut Vec<String>, flag: &str, p: &str)
    ensures
        texts(final(args)@) == texts(old(args)@) + bind(flag@, p@),
{
    let ghost before = texts(args@);
    push_arg(args, flag);
    push_arg(args, p);
    push_arg(args, p);
    assert(texts(args@) =~= before + bind(flag@, p@));
}

/// Appends a variable to set, where it has a value.
fn push_setenv(args: &mut Vec<String>, name: &str, value: &Option<String>)
    ensures
        texts(final(args)@) == texts(old(args)@) + setenv(name@, opt(*value)),
{
    let ghost before = texts(args@);
    match value {
        Some(v) => {
            push_arg(args, "--setenv");
            push_arg(args, name);
            push_arg(args, v.as_str());
            assert(texts(args@) =~= before + setenv(name@, opt(*value)));
        },
        None => {
            assert(texts(args@) =~= before + setenv(name@, opt(*value)));
        },
    }
}

/// Appends binds of each of `paths`.
fn push_binds(args: &mut Vec<String>, flag: &str, paths: &Vec<String>)
    ensures
        texts(final(args)@) == texts(old(args)@) + binds_of(flag@, texts(paths@)),
{
    let ghost before = texts(args@);
    let mut i: usize = 0;
    assert(texts(paths@).take(0) =~= seq![]);
    assert(texts(args@) =~= before + binds_of(flag@, texts(paths@).take(0)));
    while i < paths.len()
        invariant
            i <= paths.len(),
            texts(args@) == before + binds_of(flag@, texts(paths@).take(i as int)),
        decreases paths.len() - i,
    {
        proof {
            let t = texts(paths@).take(i + 1);
            assert(t.drop_last() =~= texts(paths@).take(i as int));
            assert(t.last() == paths@[i as int]@);
        }
        push_bind(args, flag, paths[i].as_str());
        i = i + 1;
    }
    assert(texts(paths@).take(i as int) =~= texts(paths@));
}

/// The X authorization file the X client libraries look up.
pub fn xauthority(var: &Option<String>, home: &Option<String>) -> (r: Option<String>)
    ensures
        opt(r) == xauthority_path(opt(*var), opt(*home)),
{
    match var {
        Some(v) => Some(v.clone()),
        None => match home {
            Some(h) => Some(join(h.as_str(), ".Xauthority")),
            None => None,
        },
    }
}

/// The binds that keep the GPU visible in the sandbox, where the minimal
/// `/dev` would otherwise hide it: `/dev/dri`, where it is a directory,
/// and the nodes among `entries` whose names start with `nvidia`.
pub fn gpu_binds(dri: bool, entries: &Vec<String>) -> (r: Vec<String>)
    ensures
        texts(r@) == gpu_plan(dri, texts(entries@)),
{
    let mut args: Vec<String> = Vec::new();
    assert(texts(args@) =~= seq![]);
    if dri {
        push_bind(&mut args, "--dev-bind", "/dev/dri");
    }
    let ghost head = texts(args@);
    let nvidia = chars_of("nvidia");
    let mut nodes: Vec<String> = Vec::new();
    let mut i: usize = 0;
    while i < entries.len()
        invariant
            i <= entries.len(),
            nvidia@ == "nvidia"@,
            texts(nodes@) == nvidia_nodes(texts(entries@).take(i as int)),
        decreases entries.len() - i,
    {
        proof {
            let t = texts(entries@).take(i + 1);
            assert(t.drop_last() =~= texts(entries@).take(i as int));
            assert(t.last() == entries@[i as int]@);
        }
        if has_prefix(&chars_of(entries[i].as_str()), &nvidia) {
            let ghost before = nodes@;
            nodes.push(join("/dev", entries[i].as_str()));
            assert(texts(nodes@) =~= texts(before).push(joined("/dev"@, entries@[i as int]@)));
        }
        i = i + 1;
    }
    assert(texts(entries@).take(i as int) =~= texts(entries@));
    push_binds(&mut args, "--dev-bind", &nodes);
    proof {
        if dri {
            assert(head == bind("--dev-bind"@, "/dev/dri"@));
        } else {
            assert(head =~= seq![]);
        }
    }
    args
}

/// The locale variables set in the sandbox.
fn push_setenvs(args: &mut Vec<String>, vars: &Vec<(String, String)>)
    ensures
        texts(final(args)@) == texts(old(args)@) + setenvs(pairs_view(vars@)),
{
    let ghost before = texts(args@);
    let mut i: usize = 0;
    assert(pairs_view(vars@).take(0) =~= seq![]);
    assert(texts(args@) =~= before + setenvs(pairs_view(vars@).take(0)));
    while i < vars.len()
        invariant
            i <= vars.len(),
            texts(args@) == before + setenvs(pairs_view(vars@).take(i as int)),
        decreases vars.len() - i,
    {
        let ghost mid = texts(args@);
        proof {
            let t = pairs_view(vars@).take(i + 1);
            assert(t.drop_last() =~= pairs_view(vars@).take(i as int));
            assert(t.last() == (vars@[i as int].0@, vars@[i as int].1@));
        }
        push_arg(args, "--setenv");
        push_arg(args, vars[i].0.as_str());
        push_arg(args, vars[i].1.as_str());
        assert(texts(args@) =~= mid + seq!["--setenv"@, vars@[i as int].0@, vars@[i as int].1@]);
        i = i + 1;
    }
    assert(pairs_view(vars@).take(i as int) =~= pairs_view(vars@));
}

/// Appends the hidden home and what of it comes back.
fn push_home(args: &mut Vec<String>, project: &str, home: &str, exe: &str, host: &Host)
    ensures
        texts(final(args)@) == texts(old(args)@) + home_binds(project@, home@, exe@, *host),
{
    let ghost before = texts(args@);
    push_arg(args, "--tmpfs");
    push_arg(args, home);
    let ghost a = texts(args@);
    if host.cargo_home {
        push_bind(args, "--bind", join(home, ".cargo").as_str());
    }
    let ghost b = texts(args@);
    if host.rustup_home {
        push_bind(args, "--ro-bind", join(home, ".rustup").as_str());
    }
    let ghost c = texts(args@);
    if host.projects_home {
        push_bind(args, "--bind", join(home, "projects").as_str());
    }
    let ghost d = texts(args@);
    match parent_of(exe) {
        Some(dir) => {
            if starts_with_path(dir.as_str(), home) && !starts_with_path(dir.as_str(), project) {
                push_bind(args, "--ro-bind", dir.as_str());
            }
        },
        None => {},
    }
    proof {
        let e = texts(args@);
        assert(a =~= before + seq!["--tmpfs"@, home@]);
        assert(e =~= before + home_binds(project@, home@, exe@, *host));
    }
}

/// Appends the mounts of the root and the home.
fn push_root_mounts(
    args: &mut Vec<String>,
    project: &str,
    home: &Option<String>,
    exe: &str,
    host: &Host,
)
    ensures
        texts(final(args)@) == texts(old(args)@) + root_mounts(project@, opt(*home), exe@, *host),
{
    let ghost p = texts(args@);
    push_arg(args, "--unshare-user");
    push_arg(args, "--unshare-pid");
    push_arg(args, "--unshare-ipc");
    push_arg(args, "--unshare-uts");
    push_arg(args, "--ro-bind");
    push_arg(args, "/");
    push_arg(args, "/");
    push_arg(args, "--tmpfs");
    push_arg(args, "/tmp");
    push_arg(args, "--tmpfs");
    push_arg(args, "/var/tmp");
    let ghost p0 = texts(args@);
    assert(p0 =~= p + isolation());
    match home {
        Some(h) => push_home(args, project, h.as_str(), exe, host),
        None => {},
    }
    let ghost p1 = texts(args@);
    if host.x11_unix {
        push_bind(args, "--ro-bind", "/tmp/.X11-unix");
    }
    let ghost p2 = texts(args@);
    match xauthority(&host.xauthority, home) {
        Some(a) => {
            if host.xauthority_file {
                push_bind(args, "--ro-bind", a.as_str());
            }
        },
        None => {},
    }
    proof {
        let p3 = texts(args@);
        assert(p1 =~= p + isolation() + match opt(*home) {
            Some(hm) => home_binds(project@, hm, exe@, *host),
            None => seq![],
        });
        assert(p3 =~= p + root_mounts(project@, opt(*home), exe@, *host));
    }
}

/// Appends the ssh mounts.
fn push_ssh_mounts(args: &mut Vec<String>, home: &Option<String>, host: &Host)
    ensures
        texts(final(args)@) == texts(old(args)@) + ssh_mounts(opt(*home), *host),
{
    let ghost p = texts(args@);
    match home {
        Some(h) => {
            if host.known_hosts {
                let ssh = join(h.as_str(), ".ssh");
                push_bind(args, "--ro-bind", join(ssh.as_str(), "known_hosts").as_str());
            }
            if host.gitconfig {
                push_bind(args, "--ro-bind", join(h.as_str(), ".gitconfig").as_str());
            }
            push_binds(args, "--ro-bind", &host.signing_files);
        },
        None => {},
    }
    let ghost p1 = texts(args@);
    assert(p1 =~= p + home_files(opt(*home), *host));
    push_arg(args, "--tmpfs");
    push_arg(args, "/etc/ssh/ssh_config.d");
    let ghost p2 = texts(args@);
    match &host.agent_socket {
        Some(socket) => {
            match parent_of(socket.as_str()) {
                Some(dir) => {
                    let root = chars_of("/");
                    if !same_chars(&chars_of(dir.as_str()), &root) {
                        push_arg(args, "--tmpfs");
                        push_arg(args, dir.as_str());
                    }
                },
                None => {},
            }
            push_bind(args, "--bind", socket.as_str());
        },
        None => {},
    }
    proof {
        let p3 = texts(args@);
        assert(p3 =~= p2 + agent_binds(opt(host.agent_socket)));
        assert(p3 =~= p + ssh_mounts(opt(*home), *host));
    }
}

/// Appends the project, `/dev` and `/proc`, and the process settings.
#[verifier::rlimit(50)]
fn push_project_mounts(args: &mut Vec<String>, project: &str, host: &Host)
    ensures
        texts(final(args)@) == texts(old(args)@) + project_mounts(project@, *host),
{
    let ghost p = texts(args@);
    push_bind(args, "--bind", project);
    push_arg(args, "--dev");
    push_arg(args, "/dev");
    push_arg(args, "--proc");
    push_arg(args, "/proc");
    let gpu = gpu_binds(host.dri, &host.dev_entries);
    let ghost p6 = texts(args@);
    let mut i: usize = 0;
    while i < gpu.len()
        invariant
            i <= gpu.len(),
            texts(args@) == p6 + texts(gpu@).take(i as int),
        decreases gpu.len() - i,
    {
        push_arg(args, gpu[i].as_str());
        assert(texts(gpu@).take(i + 1) =~= texts(gpu@).take(i as int).push(gpu@[i as int]@));
        i = i + 1;
    }
    assert(texts(gpu@).take(i as int) =~= texts(gpu@));
    push_arg(args, "--hostname");
    push_arg(args, "pick");
    push_arg(args, "--chdir");
    push_arg(args, project);
    push_arg(args, "--die-with-parent");
    push_arg(args, "--new-session");
    assert(texts(args@) =~= p + project_mounts(project@, *host));
}

/// Appends the host's variables.
fn push_host_vars(args: &mut Vec<String>, home: &Option<String>, host: &Host)
    ensures
        texts(final(args)@) == texts(old(args)@) + host_vars(opt(*home), *host),
{
    let ghost p = texts(args@);
    push_setenv(args, "PATH", &host.path);
    push_setenv(args, "HOME", home);
    push_setenv(args, "USER", &host.user);
    push_setenv(args, "SSH_AUTH_SOCK", &host.ssh_auth_sock);
    assert(texts(args@) =~= p + host_vars(opt(*home), *host));
}

/// Appends the display variables.
fn push_display_vars(args: &mut Vec<String>, host: &Host)
    ensures
        texts(final(args)@) == texts(old(args)@) + display_vars(*host),
{
    let ghost p = texts(args@);
    push_setenv(args, "WAYLAND_DISPLAY", &host.wayland_display);
    push_setenv(args, "DISPLAY", &host.display);
    push_setenv(args, "XAUTHORITY", &host.xauthority);
    push_setenv(args, "XDG_RUNTIME_DIR", &host.xdg_runtime_dir);
    assert(texts(args@) =~= p + display_vars(*host));
}

/// Appends the environment and the command.
fn push_environment(args: &mut Vec<String>, home: &Option<String>, exe: &str, host: &Host)
    ensures
        texts(final(args)@) == texts(old(args)@) + environment(opt(*home), exe@, *host),
{
    let ghost p = texts(args@);
    push_arg(args, "--clearenv");
    push_arg(args, "--setenv");
    push_arg(args, "PICK_SANDBOXED");
    push_arg(args, "1");
    let ghost p1 = texts(args@);
    assert(p1 =~= p + seq!["--clearenv"@, "--setenv"@, "PICK_SANDBOXED"@, "1"@]);
    push_host_vars(args, home, host);
    push_display_vars(args, host);
    let locale = locale_vars(&host.env);
    push_setenvs(args, &locale);
    let ghost p2 = texts(args@);
    push_arg(args, "--");
    push_arg(args, exe);
    assert(texts(args@) =~= p2 + seq!["--"@, exe@]);
    assert(texts(args@) =~= p + environment(opt(*home), exe@, *host));
}

/// The bubblewrap arguments that sandbox a re-execution of `exe` with
/// `project` and the user's projects directory as the only writable
/// directories, on a host that holds `host`.
pub fn bwrap_args(project: &str, home: &Option<String>, exe: &str, host: &Host) -> (r: Vec<
    String,
>)
    ensures
        texts(r@) == sandbox_plan(project@, opt(*home), exe@, *host),
{
    let mut args: Vec<String> = Vec::new();
    assert(texts(args@) =~= seq![]);
    push_root_mounts(&mut args, project, home, exe, host);
    push_ssh_mounts(&mut args, home, host);
    push_project_mounts(&mut args, project, host);
    push_environment(&mut args, home, exe, host);
    assert(texts(args@) =~= sandbox_plan(project@, opt(*home), exe@, *host));
    args
}

/// Where `execvp` would look for `name` on the `PATH` value `pathvar`:
/// in each of its `:`-separated directories, in order.
pub open spec fn path_candidates(name: Seq<char>, pathvar: Seq<char>) -> Seq<Seq<char>> {
    crate::text::split_on(pathvar, ':').map_values(|dir: Seq<char>| joined(dir, name))
}

/// The paths at which `name` may be found on the `PATH` value `pathvar`,
/// in the order a lookup tries them; the first that is a file is the one.
pub fn candidates(name: &str, pathvar: &str) -> (r: Vec<String>)
    ensures
        texts(r@) == path_candidates(name@, pathvar@),
{
    let dirs = crate::text::split_on_char(&chars_of(pathvar), ':');
    let mut r: Vec<String> = Vec::new();
    let mut i: usize = 0;
    while i < dirs.len()
        invariant
            i <= dirs.len(),
            views(dirs@) == crate::text::split_on(pathvar@, ':'),
            texts(r@) == views(dirs@).take(i as int).map_values(|dir: Seq<char>| joined(dir, name@)),
        decreases dirs.len() - i,
    {
        let ghost before = r@;
        let dir = string_of(&dirs[i]);
        r.push(join(dir.as_str(), name));
        proof {
            assert(views(dirs@)[i as int] == dirs@[i as int]@);
            assert(texts(r@) =~= texts(before).push(joined(dirs@[i as int]@, name@)));
            assert(views(dirs@).take(i + 1).map_values(|dir: Seq<char>| joined(dir, name@))
                =~= views(dirs@).take(i as int).map_values(|dir: Seq<char>| joined(dir, name@)).push(
                joined(dirs@[i as int]@, name@),
            ));
        }
        i = i + 1;
    }
    assert(views(dirs@).take(i as int) =~= views(dirs@));
    r
}

/// The sandbox starts from the read-only root with private temporary
/// directories, and re-executes the executable: the arguments open with
/// the isolation from the host and end with `--` and `exe`.
pub proof fn law_root_first_executable_last(
    project: Seq<char>,
    home: Option<Seq<char>>,
    exe: Seq<char>,
    h: Host,
)
    ensures
        sandbox_plan(project, home, exe, h).take(11) == isolation(),
        sandbox_plan(project, home, exe, h).len() >= 13,
        sandbox_plan(project, home, exe, h).last() == exe,
        sandbox_plan(project, home, exe, h)[sandbox_plan(project, home, exe, h).len() - 2]
            == "--"@,
{
    let plan = sandbox_plan(project, home, exe, h);
    let head = root_mounts(project, home, exe, h);
    let tail = seq!["--"@, exe];
    let env = environment(home, exe, h);
    assert(head.take(11) =~= isolation());
    assert(plan =~= head + (ssh_mounts(home, h) + project_mounts(project, h) + env));
    assert(plan.take(11) =~= isolation());
    assert(env =~= (seq!["--clearenv"@, "--setenv"@, "PICK_SANDBOXED"@, "1"@] + host_vars(home, h)
        + display_vars(h) + setenvs(locale_of(pairs_view(h.env@)))) + tail);
    assert(plan =~= (head + ssh_mounts(home, h) + project_mounts(project, h) + (seq![
        "--clearenv"@,
        "--setenv"@,
        "PICK_SANDBOXED"@,
        "1"@,
    ] + host_vars(home, h) + display_vars(h) + setenvs(locale_of(pairs_view(h.env@))))) + tail);
}

/// The home, where there is one, is hidden behind a tmpfs right after
/// the root is bound.
pub proof fn law_home_hidden(project: Seq<char>, home: Seq<char>, exe: Seq<char>, h: Host)
    ensures
        sandbox_plan(project, Some(home), exe, h)[11] == "--tmpfs"@,
        sandbox_plan(project, Some(home), exe, h)[12] == home,
{
    let plan = sandbox_plan(project, Some(home), exe, h);
    assert(plan =~= isolation() + home_binds(project, home, exe, h) + ((if h.x11_unix {
        bind("--ro-bind"@, "/tmp/.X11-unix"@)
    } else {
        seq![]
    }) + match xauthority_path(opt(h.xauthority), Some(home)) {
        Some(a) => if h.xauthority_file {
            bind("--ro-bind"@, a)
        } else {
            seq![]
        },
        None => seq![],
    } + ssh_mounts(Some(home), h) + project_mounts(project, h) + environment(
        Some(home),
        exe,
        h,
    )));
}

/// Where the host sets no locale, the sandbox still gets one: the
/// locale forwarded is never empty, and what is picked from the host is
/// its locale variables alone, set to something.
pub proof fn law_locale_never_empty(vars: Seq<(Seq<char>, Seq<char>)>)
    ensures
        locale_of(vars).len() >= 1,
        picked_locale(vars).len() == 0 ==> locale_of(vars) == seq![("LC_ALL"@, "C.UTF-8"@)],
        forall|i: int|
            0 <= i < picked_locale(vars).len() ==> is_locale_name(
                #[trigger] picked_locale(vars)[i].0,
            ) && picked_locale(vars)[i].1.len() > 0,
    decreases vars.len(),
{
    if vars.len() > 0 {
        law_locale_never_empty(vars.drop_last());
    }
}

} // verus!

//! The `edit` tool: the replacement of an exact string in a file, which
//! must match once unless every match is to be replaced.

use vstd::prelude::*;

use crate::text::{
    chars_of, decimal, extend, find_from, first_match, first_match_from, holds_at, push_decimal,
    push_str, same_chars, slice_of, string_of,
};

verus! {

/// A call of the `edit` tool.
#[derive(Debug, Clone)]
pub struct Edit {
    pub path: String,
    pub old_string: String,
    pub new_string: String,
    pub replace_all: bool,
}

/// Why an edit was refused.
#[derive(Debug, Clone, Copy, PartialEq, Eq, Structural)]
pub enum EditError {
    /// There is nothing to look for.
    EmptyOldString,
    /// The replacement is what it replaces.
    Unchanged,
    /// The text to replace is not in the file.
    NotFound,
    /// The text to replace is in the file more than once, and not every
    /// match is to be replaced.
    Ambiguous { occurrences: usize },
}

/// An edit done: the new contents, and how many matches it replaced.
#[derive(Debug, Clone)]
pub struct Edited {
    pub contents: String,
    pub occurrences: usize,
}

/// A match found at or after `k` starts at or after `k` and fits.
pub proof fn lemma_first_match_from(s: Seq<char>, p: Seq<char>, k: int)
    ensures
        first_match_from(s, p, k) matches Some(i) ==> k <= i && holds_at(s, i, p),
    decreases s.len() + 1 - k,
{
    if 0 <= k <= s.len() && !holds_at(s, k, p) {
        lemma_first_match_from(s, p, k + 1);
    }
}

/// How many times `p` occurs in `s` from `k` on, matches not
/// overlapping and taken from the left: what `str::matches` counts.
pub open spec fn matches_from(s: Seq<char>, p: Seq<char>, k: int) -> nat
    decreases s.len() + 1 - k,
{
    if p.len() == 0 {
        0
    } else {
        match first_match_from(s, p, k) {
            Some(i) => if k <= i && i + p.len() <= s.len() {
                1 + matches_from(s, p, i + p.len())
            } else {
                0
            },
            None => 0,
        }
    }
}

/// `s` from `k` on with every match of `p`, taken as `matches_from`
/// takes them, replaced by `q`: what `str::replace` gives.
pub open spec fn replaced_from(s: Seq<char>, p: Seq<char>, q: Seq<char>, k: int) -> Seq<char>
    decreases s.len() + 1 - k,
{
    if p.len() == 0 {
        s.skip(k)
    } else {
        match first_match_from(s, p, k) {
            Some(i) => if k <= i && i + p.len() <= s.len() {
                s.subrange(k, i) + q + replaced_from(s, p, q, i + p.len())
            } else {
                s.skip(k)
            },
            None => s.skip(k),
        }
    }
}

/// `s` with its first match of `p` replaced by `q`: what
/// `str::replacen(p, q, 1)` gives.
pub open spec fn replaced_first(s: Seq<char>, p: Seq<char>, q: Seq<char>) -> Seq<char> {
    match first_match(s, p) {
        Some(i) => s.take(i) + q + s.skip(i + p.len()),
        None => s,
    }
}

/// What an edit of `contents` gives: the new contents and the count of
/// matches, or why it is refused.
pub open spec fn edit_result(
    contents: Seq<char>,
    old: Seq<char>,
    new: Seq<char>,
    replace_all: bool,
) -> Result<(Seq<char>, nat), EditError> {
    let occurrences = matches_from(contents, old, 0);
    if old.len() == 0 {
        Err(EditError::EmptyOldString)
    } else if old == new {
        Err(EditError::Unchanged)
    } else if occurrences == 0 {
        Err(EditError::NotFound)
    } else if occurrences > 1 && !replace_all {
        Err(EditError::Ambiguous { occurrences: occurrences as usize })
    } else if replace_all {
        Ok((replaced_from(contents, old, new, 0), occurrences))
    } else {
        Ok((replaced_first(contents, old, new), occurrences))
    }
}

/// How many times `p` occurs in `s`, matches not overlapping.
pub fn count_matches(s: &Vec<char>, p: &Vec<char>) -> (n: usize)
    requires
        p.len() > 0,
    ensures
        n == matches_from(s@, p@, 0),
{
    let mut n: usize = 0;
    let mut k: usize = 0;
    loop
        invariant
            k <= s.len(),
            p.len() > 0,
            n <= k,
            matches_from(s@, p@, 0) == n + matches_from(s@, p@, k as int),
        decreases s.len() + 1 - k,
    {
        match find_from(s, p, k) {
            Some(i) => {
                proof {
                    lemma_first_match_from(s@, p@, k as int);
                }
                n = n + 1;
                k = i + p.len();
            },
            None => {
                return n;
            },
        }
    }
}

/// `s` with every match of `p` replaced by `q`.
pub fn replace_all(s: &Vec<char>, p: &Vec<char>, q: &Vec<char>) -> (r: Vec<char>)
    requires
        p.len() > 0,
    ensures
        r@ == replaced_from(s@, p@, q@, 0),
{
    let mut r: Vec<char> = Vec::new();
    let mut k: usize = 0;
    loop
        invariant
            k <= s.len(),
            p.len() > 0,
            replaced_from(s@, p@, q@, 0) == r@ + replaced_from(s@, p@, q@, k as int),
        decreases s.len() + 1 - k,
    {
        match find_from(s, p, k) {
            Some(i) => {
                proof {
                    lemma_first_match_from(s@, p@, k as int);
                }
                let before = slice_of(s, k, i);
                let ghost r0 = r@;
                extend(&mut r, &before);
                extend(&mut r, q);
                assert(r@ =~= r0 + s@.subrange(k as int, i as int) + q@);
                k = i + p.len();
            },
            None => {
                let rest = slice_of(s, k, s.len());
                let ghost r0 = r@;
                extend(&mut r, &rest);
                assert(rest@ =~= s@.skip(k as int));
                return r;
            },
        }
    }
}

/// `s` with its first match of `p`, if any, replaced by `q`.
pub fn replace_first(s: &Vec<char>, p: &Vec<char>, q: &Vec<char>) -> (r: Vec<char>)
    ensures
        r@ == replaced_first(s@, p@, q@),
{
    match find_from(s, p, 0) {
        Some(i) => {
            proof {
                lemma_first_match_from(s@, p@, 0);
            }
            let mut r = slice_of(s, 0, i);
            extend(&mut r, q);
            let rest = slice_of(s, i + p.len(), s.len());
            extend(&mut r, &rest);
            assert(r@ =~= s@.take(i as int) + q@ + s@.skip(i + p.len()));
            r
        },
        None => {
            let r = slice_of(s, 0, s.len());
            assert(r@ =~= s@);
            r
        },
    }
}

impl Edit {
    /// The edit of `contents` this call asks for.
    pub fn apply(&self, contents: &str) -> (r: Result<Edited, EditError>)
        ensures
            match r {
                Ok(edited) => edit_result(
                    contents@,
                    self.old_string@,
                    self.new_string@,
                    self.replace_all,
                ) == Ok::<(Seq<char>, nat), EditError>(
                    (edited.contents@, edited.occurrences as nat),
                ),
                Err(e) => edit_result(
                    contents@,
                    self.old_string@,
                    self.new_string@,
                    self.replace_all,
                ) == Err::<(Seq<char>, nat), EditError>(e),
            },
    {
        let text = chars_of(contents);
        let old = chars_of(self.old_string.as_str());
        let new = chars_of(self.new_string.as_str());
        if old.len() == 0 {
            return Err(EditError::EmptyOldString);
        }
        if same_chars(&old, &new) {
            return Err(EditError::Unchanged);
        }
        let occurrences = count_matches(&text, &old);
        if occurrences == 0 {
            return Err(EditError::NotFound);
        }
        if occurrences > 1 && !self.replace_all {
            return Err(EditError::Ambiguous { occurrences });
        }
        let updated = if self.replace_all {
            replace_all(&text, &old, &new)
        } else {
            replace_first(&text, &old, &new)
        };
        Ok(Edited { contents: string_of(&updated), occurrences })
    }
}

/// What a refused edit of the file shown as `path` reads.
pub open spec fn edit_error_message(e: EditError, path: Seq<char>) -> Seq<char> {
    match e {
        EditError::EmptyOldString => "old_string must not be empty"@,
        EditError::Unchanged => "old_string and new_string must be different"@,
        EditError::NotFound => "old_string not found in "@ + path,
        EditError::Ambiguous { occurrences } => "old_string matches "@ + decimal(
            occurrences as nat,
        ) + " locations in "@ + path
            + "; include more context to make it unique, or set replace_all to true"@,
    }
}

impl EditError {
    /// What the refusal reads, for the file shown as `path`.
    pub fn message(&self, path: &str) -> (m: String)
        ensures
            m@ == edit_error_message(*self, path@),
    {
        let mut m: Vec<char> = Vec::new();
        match self {
            EditError::EmptyOldString => push_str(&mut m, "old_string must not be empty"),
            EditError::Unchanged => push_str(&mut m, "old_string and new_string must be different"),
            EditError::NotFound => {
                push_str(&mut m, "old_string not found in ");
                push_str(&mut m, path);
            },
            EditError::Ambiguous { occurrences } => {
                push_str(&mut m, "old_string matches ");
                push_decimal(&mut m, *occurrences as u64);
                push_str(&mut m, " locations in ");
                push_str(&mut m, path);
                push_str(
                    &mut m,
                    "; include more context to make it unique, or set replace_all to true",
                );
            },
        }
        string_of(&m)
    }
}

impl Edited {
    /// The notice of the edit of the file shown as `path`.
    pub fn notice(&self, path: &str, replace_all: bool) -> (m: String)
        ensures
            m@ == if replace_all {
                "Edited "@ + path@ + " ("@ + decimal(self.occurrences as nat) + " replacements)"@
            } else {
                "Edited "@ + path@ + " (1 replacement)"@
            },
    {
        let mut m: Vec<char> = Vec::new();
        push_str(&mut m, "Edited ");
        push_str(&mut m, path);
        if replace_all {
            push_str(&mut m, " (");
            push_decimal(&mut m, self.occurrences as u64);
            push_str(&mut m, " replacements)");
        } else {
            push_str(&mut m, " (1 replacement)");
        }
        string_of(&m)
    }
}

/// Where `p` occurs in `s` at `i` or later, the first match from `k` on
/// is found, no later than `i`.
proof fn lemma_first_match_found(s: Seq<char>, p: Seq<char>, k: int, i: int)
    requires
        0 <= k <= i,
        i + p.len() <= s.len(),
        s.subrange(i, i + p.len()) == p,
    ensures
        first_match_from(s, p, k) matches Some(j) && k <= j <= i && j + p.len() <= s.len(),
    decreases i - k,
{
    if !holds_at(s, k, p) {
        lemma_first_match_found(s, p, k + 1, i);
    }
}

/// Where `p` occurs nowhere in `s` from `k` on, no match is found.
proof fn lemma_first_match_none(s: Seq<char>, p: Seq<char>, k: int)
    requires
        0 <= k,
        forall|i: int| k <= i && i + p.len() <= s.len() ==> #[trigger] s.subrange(i, i + p.len()) != p,
    ensures
        first_match_from(s, p, k) is None,
    decreases s.len() + 1 - k,
{
    if k <= s.len() {
        lemma_first_match_none(s, p, k + 1);
    }
}

/// An occurrence of `p` in `s` at `i` or later counts for one match from
/// `k` on.
proof fn lemma_matches_some(s: Seq<char>, p: Seq<char>, k: int, i: int)
    requires
        p.len() > 0,
        0 <= k <= i,
        i + p.len() <= s.len(),
        s.subrange(i, i + p.len()) == p,
    ensures
        matches_from(s, p, k) >= 1,
        first_match_from(s, p, k) matches Some(j) && matches_from(s, p, k) == 1 + matches_from(
            s,
            p,
            j + p.len(),
        ) && j <= i,
{
    lemma_first_match_found(s, p, k, i);
}

/// Every occurrence of a non-empty text counts, the one that ends at the
/// very end of the text too: where `p` occurs in `s` at `i`, the number
/// of matches of `p` in `s` is at least one.
pub proof fn law_an_occurrence_is_a_match(s: Seq<char>, p: Seq<char>, i: int)
    requires
        p.len() > 0,
        0 <= i,
        i + p.len() <= s.len(),
        s.subrange(i, i + p.len()) == p,
    ensures
        matches_from(s, p, 0) >= 1,
{
    lemma_matches_some(s, p, 0, i);
}

/// Matches that do not overlap count apart: where `p` occurs in `s` at `i`
/// and again at `j`, past the end of the first, there are two matches
/// of `p` in `s` at least.
pub proof fn law_two_occurrences_are_two_matches(s: Seq<char>, p: Seq<char>, i: int, j: int)
    requires
        p.len() > 0,
        0 <= i,
        i + p.len() <= j,
        j + p.len() <= s.len(),
        s.subrange(i, i + p.len()) == p,
        s.subrange(j, j + p.len()) == p,
    ensures
        matches_from(s, p, 0) >= 2,
{
    lemma_matches_some(s, p, 0, i);
    let first = first_match_from(s, p, 0)->0;
    lemma_matches_some(s, p, first + p.len(), j);
}

/// Where `p` occurs nowhere in `s`, it has no match there.
pub proof fn law_no_occurrence_is_no_match(s: Seq<char>, p: Seq<char>)
    requires
        forall|i: int| 0 <= i && i + p.len() <= s.len() ==> #[trigger] s.subrange(i, i + p.len()) != p,
    ensures
        matches_from(s, p, 0) == 0,
{
    lemma_first_match_none(s, p, 0);
}

proof fn lemma_matches_bound(s: Seq<char>, p: Seq<char>, k: int)
    requires
        p.len() > 0,
        0 <= k <= s.len(),
    ensures
        matches_from(s, p, k) * p.len() <= s.len() - k,
    decreases s.len() + 1 - k,
{
    lemma_first_match_from(s, p, k);
    match first_match_from(s, p, k) {
        Some(i) => {
            if k <= i && i + p.len() <= s.len() {
                lemma_matches_bound(s, p, i + p.len());
                let m = matches_from(s, p, i + p.len());
                assert(matches_from(s, p, k) == 1 + m);
                assert((1 + m) * p.len() == p.len() + m * p.len()) by (nonlinear_arith);
            } else {
                assert(matches_from(s, p, k) == 0);
            }
        },
        None => {
            assert(matches_from(s, p, k) == 0);
        },
    }
}

/// Matches do not overlap: as many matches of a non-empty `p` as there
/// are, each as long as `p`, fit in `s` side by side.
pub proof fn law_matches_do_not_overlap(s: Seq<char>, p: Seq<char>)
    requires
        p.len() > 0,
    ensures
        matches_from(s, p, 0) * p.len() <= s.len(),
{
    lemma_matches_bound(s, p, 0);
}

} // verus!

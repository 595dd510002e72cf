//! The command line: whether to run without the sandbox, which session to
//! resume, and the prompt to start with.

use vstd::prelude::*;

use crate::text::{chars_of, same_chars};

verus! {

/// The flag that runs the app without the sandbox.
pub const LIVE: &'static str = "--we-doin-it-live";

/// The flag that resumes a session instead of starting a fresh one: the
/// newest, or the one at the path that follows it.
pub const RESUME: &'static str = "--resume";

/// What the command line asks for.
#[derive(Debug, Clone, PartialEq, Eq)]
pub struct Arguments {
    /// Run without the sandbox.
    pub live: bool,
    /// Resume a session.
    pub resume: bool,
    /// The session to resume, where one follows the flag.
    pub resume_path: Option<String>,
    /// The prompt to send once the app is up.
    pub prompt: Option<String>,
}

/// The index of the first of `args` that is `a`.
pub open spec fn first_index(args: Seq<Seq<char>>, a: Seq<char>) -> Option<int>
    decreases args.len(),
{
    if args.len() == 0 {
        None
    } else {
        match first_index(args.drop_last(), a) {
            Some(i) => Some(i),
            None => if args.last() == a {
                Some(args.len() - 1)
            } else {
                None
            },
        }
    }
}

/// Whether `arg` looks like a flag.
pub open spec fn is_flag(arg: Seq<char>) -> bool {
    arg.len() > 0 && arg[0] == '-'
}

/// The session path of `args`: the word after the first `--resume`,
/// unless it is a flag.
pub open spec fn resume_path_of(args: Seq<Seq<char>>) -> Option<Seq<char>> {
    match first_index(args, RESUME@) {
        Some(i) => if i + 1 < args.len() && !is_flag(args[i + 1]) {
            Some(args[i + 1])
        } else {
            None
        },
        None => None,
    }
}

/// Whether `arg` is the prompt: neither flag of the app, nor the session
/// path `path`.
pub open spec fn is_prompt(arg: Seq<char>, path: Option<Seq<char>>) -> bool {
    arg != LIVE@ && arg != RESUME@ && path != Some(arg)
}

/// The first of `args` below `n`, past the program's name, that is the
/// prompt.
pub open spec fn prompt_below(args: Seq<Seq<char>>, path: Option<Seq<char>>, n: int) -> Option<
    Seq<char>,
>
    decreases n,
{
    if n <= 1 {
        None
    } else {
        match prompt_below(args, path, n - 1) {
            Some(p) => Some(p),
            None => if is_prompt(args[n - 1], path) {
                Some(args[n - 1])
            } else {
                None
            },
        }
    }
}

/// The prompt of `args`: the first word past the program's name that is
/// neither a flag of the app nor the session path.
pub open spec fn prompt_of(args: Seq<Seq<char>>) -> Option<Seq<char>> {
    prompt_below(args, resume_path_of(args), args.len() as int)
}

/// The index of the first of `args` that is `a`.
fn position(args: &Vec<String>, a: &str) -> (r: Option<usize>)
    ensures
        match r {
            Some(i) => first_index(args@.map_values(|s: String| s@), a@) == Some(i as int),
            None => first_index(args@.map_values(|s: String| s@), a@) is None,
        },
{
    let ghost all = args@.map_values(|s: String| s@);
    let target = chars_of(a);
    let mut i: usize = 0;
    while i < args.len()
        invariant
            i <= args.len(),
            all == args@.map_values(|s: String| s@),
            target@ == a@,
            first_index(all.take(i as int), a@) is None,
        decreases args.len() - i,
    {
        proof {
            let t = all.take(i + 1);
            assert(t.drop_last() =~= all.take(i as int));
            assert(t.last() == args@[i as int]@);
        }
        if same_chars(&chars_of(args[i].as_str()), &target) {
            proof {
                lemma_first_index_prefix(all, a@, i as int + 1);
            }
            return Some(i);
        }
        i = i + 1;
    }
    assert(all.take(i as int) =~= all);
    None
}

proof fn lemma_first_index_prefix(args: Seq<Seq<char>>, a: Seq<char>, n: int)
    requires
        0 <= n <= args.len(),
        first_index(args.take(n), a) is Some,
    ensures
        first_index(args, a) == first_index(args.take(n), a),
    decreases args.len() - n,
{
    if n < args.len() {
        assert(args.take(n + 1).drop_last() =~= args.take(n));
        lemma_first_index_prefix(args, a, n + 1);
    } else {
        assert(args.take(n) =~= args);
    }
}

/// Whether `s` holds exactly `a`.
fn equals(s: &String, a: &str) -> (b: bool)
    ensures
        b == (s@ == a@),
{
    same_chars(&chars_of(s.as_str()), &chars_of(a))
}

impl Arguments {
    /// What the command line `args`, the program's name first, asks for.
    pub fn parse(args: &Vec<String>) -> (r: Arguments)
        ensures
            r.live == args@.map_values(|s: String| s@).contains(LIVE@),
            r.resume == args@.map_values(|s: String| s@).contains(RESUME@),
            crate::git::text_view(r.resume_path) == resume_path_of(
                args@.map_values(|s: String| s@),
            ),
            crate::git::text_view(r.prompt) == prompt_of(args@.map_values(|s: String| s@)),
    {
        let ghost all = args@.map_values(|s: String| s@);
        let live = position(args, LIVE).is_some();
        let at = position(args, RESUME);
        proof {
            lemma_first_index_contains(all, LIVE@);
            lemma_first_index_contains(all, RESUME@);
        }
        let resume = at.is_some();
        let resume_path = match at {
            Some(i) => {
                if args.len() > 0 && i < args.len() - 1 {
                    let next = &args[i + 1];
                    let chars = chars_of(next.as_str());
                    if chars.len() > 0 && chars[0] == '-' {
                        None
                    } else {
                        Some(next.clone())
                    }
                } else {
                    None
                }
            },
            None => None,
        };
        assert(crate::git::text_view(resume_path) == resume_path_of(all));
        let mut prompt: Option<String> = None;
        let mut i: usize = 1;
        while i < args.len()
            invariant_except_break
                prompt is None,
            invariant
                1 <= i,
                i <= args.len() || args.len() == 0,
                all == args@.map_values(|s: String| s@),
                crate::git::text_view(resume_path) == resume_path_of(all),
                prompt_below(all, resume_path_of(all), i as int) is None,
            ensures
                prompt is None ==> i >= args.len(),
                prompt matches Some(p) ==> i < args.len() && p@ == all[i as int] && is_prompt(
                    all[i as int],
                    resume_path_of(all),
                ) && prompt_below(all, resume_path_of(all), i as int) is None,
            decreases args.len() - i,
        {
            let arg = &args[i];
            let candidate = !equals(arg, LIVE) && !equals(arg, RESUME) && match &resume_path {
                Some(p) => !equals(arg, p.as_str()),
                None => true,
            };
            assert(candidate == is_prompt(all[i as int], resume_path_of(all)));
            if candidate {
                prompt = Some(arg.clone());
                break;
            }
            i = i + 1;
        }
        proof {
            if prompt.is_some() {
                lemma_prompt_below_grows(all, resume_path_of(all), i as int + 1);
            }
        }
        Arguments { live, resume, resume_path, prompt }
    }
}

proof fn lemma_first_index_contains(args: Seq<Seq<char>>, a: Seq<char>)
    ensures
        first_index(args, a) is Some <==> args.contains(a),
        first_index(args, a) matches Some(i) ==> 0 <= i < args.len() && args[i] == a,
    decreases args.len(),
{
    if args.len() > 0 {
        lemma_first_index_contains(args.drop_last(), a);
        if args.drop_last().contains(a) {
            let k = choose|k: int| 0 <= k < args.drop_last().len() && args.drop_last()[k] == a;
            assert(args[k] == a);
        }
        if args.contains(a) && !args.drop_last().contains(a) {
            let k = choose|k: int| 0 <= k < args.len() && args[k] == a;
            if k < args.len() - 1 {
                assert(args.drop_last()[k] == a);
            }
        }
    }
}

proof fn lemma_prompt_below_grows(args: Seq<Seq<char>>, path: Option<Seq<char>>, n: int)
    requires
        1 <= n <= args.len(),
        prompt_below(args, path, n) is Some,
    ensures
        prompt_below(args, path, args.len() as int) == prompt_below(args, path, n),
    decreases args.len() - n,
{
    if n < args.len() {
        lemma_prompt_below_grows(args, path, n + 1);
    }
}

} // verus!

//! The logic of `pick`, a coding assistant: the bounded capture of a
//! tool's output, the parsers of git's reports, the lines of a diff as
//! they are drawn, the session model, the decisions of a running
//! conversation and the state machine that runs it, the HTML export, the
//! sandbox policy, the command line and the tools' decisions.

pub mod chat;
pub mod cli;
pub mod conversation;
pub mod diff;
pub mod drafts;
pub mod file;
pub mod git;
pub mod highlight;
pub mod html;
pub mod output;
pub mod path;
pub mod project;
pub mod raw_html;
pub mod review;
pub mod sandbox;
pub mod session;
pub mod tool;
pub mod text;

use vstd::prelude::*;

verus! {

} // verus!

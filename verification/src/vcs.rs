//! What the planner reads from git's output: the commit a claim starts from,
//! and the files a task touched since then.
use vstd::prelude::*;

use crate::plan::{string_views, strings_of, trimmed_nonempty, trimmed_nonempty_exec};
use crate::text::{chars_of, lines, lines_exec, string_of, trim, trim_exec};

verus! {

/// The commit that `git rev-parse HEAD` printed: its output trimmed, none when empty.
pub fn head_commit(output: &str) -> (r: Option<String>)
    ensures
        match r {
            Some(c) => c@ == trim(output@) && c@.len() > 0,
            None => trim(output@).len() == 0,
        },
{
    let t = trim_exec(&chars_of(output));
    if t.len() == 0 {
        None
    } else {
        Some(string_of(&t))
    }
}

/// The files that `git diff --name-only` printed: its lines trimmed, empty ones dropped.
pub fn touched_files(output: &str) -> (r: Vec<String>)
    ensures
        string_views(r@) == trimmed_nonempty(lines(output@)),
{
    let ls = lines_exec(&chars_of(output));
    strings_of(&trimmed_nonempty_exec(&ls))
}

} // verus!

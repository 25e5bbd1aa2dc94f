//! Where the planner's files live under the `driver/` directory, and the Stop
//! hook check of `doctor`.
use vstd::prelude::*;

use crate::text::{chars_of, contains, contains_exec, push_all, string_of};

verus! {

/// `base` joined with `comp`, as `Path::join` does on Unix: an absolute `comp`
/// replaces `base`; otherwise a `/` goes between them unless `base` is empty or
/// already ends with one.
pub open spec fn join_path(base: Seq<char>, comp: Seq<char>) -> Seq<char> {
    if comp.len() > 0 && comp[0] == '/' {
        comp
    } else if base.len() == 0 || base.last() == '/' {
        base + comp
    } else {
        base.push('/') + comp
    }
}

fn join_path_exec(base: &[char], comp: &[char]) -> (r: Vec<char>)
    ensures
        r@ == join_path(base@, comp@),
{
    let mut r: Vec<char> = Vec::new();
    if !(comp.len() > 0 && comp[0] == '/') {
        push_all(&mut r, base);
        if !(base.len() == 0 || base[base.len() - 1] == '/') {
            r.push('/');
        }
    }
    push_all(&mut r, comp);
    r
}

/// `<root>/.active`, the claim file.
pub fn active_path(root: &str) -> (r: String)
    ensures
        r@ == join_path(root@, ".active"@),
{
    string_of(&join_path_exec(&chars_of(root), &chars_of(".active")))
}

/// `<root>/.history.jsonl`, the record of finished claims.
pub fn history_path(root: &str) -> (r: String)
    ensures
        r@ == join_path(root@, ".history.jsonl"@),
{
    string_of(&join_path_exec(&chars_of(root), &chars_of(".history.jsonl")))
}

/// `<root>/principles.md`, the project's rules.
pub fn principles_path(root: &str) -> (r: String)
    ensures
        r@ == join_path(root@, "principles.md"@),
{
    string_of(&join_path_exec(&chars_of(root), &chars_of("principles.md")))
}

/// `<root>/tracks/<track>/<slug>_questions.md`, a task's open questions.
pub fn questions_path(root: &str, track: &str, slug: &str) -> (r: String)
    ensures
        r@ == join_path(
            join_path(join_path(root@, "tracks"@), track@),
            slug@ + "_questions.md"@,
        ),
{
    let a = join_path_exec(&chars_of(root), &chars_of("tracks"));
    let b = join_path_exec(&a, &chars_of(track));
    let mut name = chars_of(slug);
    push_all(&mut name, &chars_of("_questions.md"));
    string_of(&join_path_exec(&b, &name))
}

/// What `doctor` finds in the settings file that holds the hooks.
#[derive(Debug, Clone, Copy, PartialEq, Eq, Structural)]
pub enum HookStatus {
    /// A Stop hook that runs `<bin> gate` or `driver gate`.
    Installed,
    /// A Stop hook, but no `driver gate` command.
    StopWithoutGate,
    /// No Stop hook.
    NoStopHook,
}

/// Which of the three cases the settings text is in: it mentions
/// `"Stop"` and either `<bin> gate` or `driver gate`.
pub open spec fn hook_status_of(text: Seq<char>, bin: Seq<char>) -> HookStatus {
    let mentions_bin = contains(text, bin + " gate"@) || contains(text, "driver gate"@);
    let mentions_stop = contains(text, "\"Stop\""@);
    if mentions_bin && mentions_stop {
        HookStatus::Installed
    } else if mentions_stop {
        HookStatus::StopWithoutGate
    } else {
        HookStatus::NoStopHook
    }
}

pub fn hook_status(text: &str, bin: &str) -> (r: HookStatus)
    ensures
        r == hook_status_of(text@, bin@),
{
    let t = chars_of(text);
    let mut needle = chars_of(bin);
    push_all(&mut needle, &chars_of(" gate"));
    let mentions_bin = contains_exec(&t, &needle) || contains_exec(&t, &chars_of("driver gate"));
    let mentions_stop = contains_exec(&t, &chars_of("\"Stop\""));
    if mentions_bin && mentions_stop {
        HookStatus::Installed
    } else if mentions_stop {
        HookStatus::StopWithoutGate
    } else {
        HookStatus::NoStopHook
    }
}

} // verus!

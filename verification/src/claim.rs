//! The active claim (`driver/.active`): its file format and the Stop-hook gate
//! that decides whether the session may end.
use vstd::prelude::*;

use crate::edits::{find_task, first_task};
use crate::plan::{task_views, Task};
use crate::text::{
    char_is, chars_of, decimal, decimal_exec, find_char, find_char_exec, first_at, has_char, is_ws,
    lemma_find_char, lemma_first_at_unique, lemma_lines_cons, lemma_parse_decimal, lemma_trim_end,
    lemma_trim_id, lines, lines_exec, parse_u32, parse_u32_exec, push_all, seq_eq, strip_cr,
    string_of, sub_vec, trim, trim_exec, trim_start, views,
};

verus! {

/// A claim on one task: `track`, `slug`, the turn budget, the turns used so far,
/// when it started, and the git commit it started from (empty outside git).
#[derive(Debug)]
pub struct ActiveClaim {
    pub track: String,
    pub slug: String,
    pub max_turns: u32,
    pub turn: u32,
    pub started_at: String,
    pub start_commit: String,
}

pub struct ClaimModel {
    pub track: Seq<char>,
    pub slug: Seq<char>,
    pub max_turns: u32,
    pub turn: u32,
    pub started_at: Seq<char>,
    pub start_commit: Seq<char>,
}

impl View for ActiveClaim {
    type V = ClaimModel;

    open spec fn view(&self) -> ClaimModel {
        ClaimModel {
            track: self.track@,
            slug: self.slug@,
            max_turns: self.max_turns,
            turn: self.turn,
            started_at: self.started_at@,
            start_commit: self.start_commit@,
        }
    }
}

pub open spec fn key_track() -> Seq<char> {
    seq!['t', 'r', 'a', 'c', 'k']
}

pub open spec fn key_slug() -> Seq<char> {
    seq!['s', 'l', 'u', 'g']
}

pub open spec fn key_max_turns() -> Seq<char> {
    seq!['m', 'a', 'x', '_', 't', 'u', 'r', 'n', 's']
}

pub open spec fn key_turn() -> Seq<char> {
    seq!['t', 'u', 'r', 'n']
}

pub open spec fn key_started_at() -> Seq<char> {
    seq!['s', 't', 'a', 'r', 't', 'e', 'd', '_', 'a', 't']
}

pub open spec fn key_start_commit() -> Seq<char> {
    seq!['s', 't', 'a', 'r', 't', '_', 'c', 'o', 'm', 'm', 'i', 't']
}

/// What the claim file holds before any line is read.
pub open spec fn blank_claim() -> ClaimModel {
    ClaimModel {
        track: seq![],
        slug: seq![],
        max_turns: 50,
        turn: 0,
        started_at: seq![],
        start_commit: seq![],
    }
}

/// The claim after one `key=value` line; a later line for a key wins, an
/// unknown key or a line without `=` changes nothing, and a number that does not
/// parse stands for the default (50 turns of budget, turn 0).
pub open spec fn apply_claim_line(c: ClaimModel, line: Seq<char>) -> ClaimModel {
    match find_char(line, '=') {
        None => c,
        Some(i) => set_field(c, trim(line.take(i)), trim(line.skip(i + 1))),
    }
}

/// The claim with the field named `k` set from the text `v`.
pub open spec fn set_field(c: ClaimModel, k: Seq<char>, v: Seq<char>) -> ClaimModel {
    if k == key_track() {
        ClaimModel { track: v, ..c }
    } else if k == key_slug() {
        ClaimModel { slug: v, ..c }
    } else if k == key_max_turns() {
        ClaimModel {
            max_turns: match parse_u32(v) {
                Some(n) => n,
                None => 50,
            },
            ..c
        }
    } else if k == key_turn() {
        ClaimModel {
            turn: match parse_u32(v) {
                Some(n) => n,
                None => 0,
            },
            ..c
        }
    } else if k == key_started_at() {
        ClaimModel { started_at: v, ..c }
    } else if k == key_start_commit() {
        ClaimModel { start_commit: v, ..c }
    } else {
        c
    }
}

pub open spec fn claim_lines(ls: Seq<Seq<char>>) -> ClaimModel
    decreases ls.len(),
{
    if ls.len() == 0 {
        blank_claim()
    } else {
        apply_claim_line(claim_lines(ls.drop_last()), ls.last())
    }
}

/// The claim that a claim file's text records: none without a track and a slug.
pub open spec fn claim_of(text: Seq<char>) -> Option<ClaimModel> {
    let c = claim_lines(lines(text));
    if c.track.len() == 0 || c.slug.len() == 0 {
        None
    } else {
        Some(c)
    }
}

pub open spec fn kv_line(key: Seq<char>, v: Seq<char>) -> Seq<char> {
    key + seq!['='] + v
}

/// The claim file's text: one `key=value` line per field, each ending in a newline.
pub open spec fn claim_text(c: ClaimModel) -> Seq<char> {
    kv_line(key_track(), c.track) + seq!['\n'] + kv_line(key_slug(), c.slug) + seq!['\n']
        + kv_line(key_max_turns(), decimal(c.max_turns as nat)) + seq!['\n'] + kv_line(
        key_turn(),
        decimal(c.turn as nat),
    ) + seq!['\n'] + kv_line(key_started_at(), c.started_at) + seq!['\n'] + kv_line(
        key_start_commit(),
        c.start_commit,
    ) + seq!['\n']
}

fn key_track_exec() -> (r: Vec<char>)
    ensures
        r@ == key_track(),
{
    let r = vec!['t', 'r', 'a', 'c', 'k'];
    assert(r@ =~= key_track());
    r
}

fn key_slug_exec() -> (r: Vec<char>)
    ensures
        r@ == key_slug(),
{
    let r = vec!['s', 'l', 'u', 'g'];
    assert(r@ =~= key_slug());
    r
}

fn key_max_turns_exec() -> (r: Vec<char>)
    ensures
        r@ == key_max_turns(),
{
    let r = vec!['m', 'a', 'x', '_', 't', 'u', 'r', 'n', 's'];
    assert(r@ =~= key_max_turns());
    r
}

fn key_turn_exec() -> (r: Vec<char>)
    ensures
        r@ == key_turn(),
{
    let r = vec!['t', 'u', 'r', 'n'];
    assert(r@ =~= key_turn());
    r
}

fn key_started_at_exec() -> (r: Vec<char>)
    ensures
        r@ == key_started_at(),
{
    let r = vec!['s', 't', 'a', 'r', 't', 'e', 'd', '_', 'a', 't'];
    assert(r@ =~= key_started_at());
    r
}

fn key_start_commit_exec() -> (r: Vec<char>)
    ensures
        r@ == key_start_commit(),
{
    let r = vec!['s', 't', 'a', 'r', 't', '_', 'c', 'o', 'm', 'm', 'i', 't'];
    assert(r@ =~= key_start_commit());
    r
}

/// The claim as character vectors while it is being read.
struct ClaimDraft {
    track: Vec<char>,
    slug: Vec<char>,
    max_turns: u32,
    turn: u32,
    started_at: Vec<char>,
    start_commit: Vec<char>,
}

impl ClaimDraft {
    spec fn model(&self) -> ClaimModel {
        ClaimModel {
            track: self.track@,
            slug: self.slug@,
            max_turns: self.max_turns,
            turn: self.turn,
            started_at: self.started_at@,
            start_commit: self.start_commit@,
        }
    }
}

fn apply_claim_line_exec(c: &mut ClaimDraft, line: &[char])
    ensures
        final(c).model() == apply_claim_line(old(c).model(), line@),
{
    let i = match find_char_exec(line, '=') {
        None => return,
        Some(i) => i,
    };
    proof {
        lemma_find_char(line@, '=');
    }
    let k = trim_exec(&sub_vec(line, 0, i));
    let n = line.len();
    let rest = sub_vec(line, i + 1, n);
    assert(rest@ =~= line@.skip(i + 1));
    assert(line@.subrange(0, i as int) =~= line@.take(i as int));
    let v = trim_exec(&rest);
    if seq_eq(&k, &key_track_exec()) {
        c.track = v;
    } else if seq_eq(&k, &key_slug_exec()) {
        c.slug = v;
    } else if seq_eq(&k, &key_max_turns_exec()) {
        c.max_turns = match parse_u32_exec(&v) {
            Some(n) => n,
            None => 50,
        };
    } else if seq_eq(&k, &key_turn_exec()) {
        c.turn = match parse_u32_exec(&v) {
            Some(n) => n,
            None => 0,
        };
    } else if seq_eq(&k, &key_started_at_exec()) {
        c.started_at = v;
    } else if seq_eq(&k, &key_start_commit_exec()) {
        c.start_commit = v;
    }
}

/// Reads the claim file's text: `key=value` lines; none without a track and a slug.
pub fn parse_active(text: &str) -> (r: Option<ActiveClaim>)
    ensures
        match r {
            Some(c) => claim_of(text@) == Some(c@),
            None => claim_of(text@) is None,
        },
{
    let v = chars_of(text);
    let ls = lines_exec(&v);
    let ghost lv = views(ls@);
    let mut c = ClaimDraft {
        track: Vec::new(),
        slug: Vec::new(),
        max_turns: 50,
        turn: 0,
        started_at: Vec::new(),
        start_commit: Vec::new(),
    };
    assert(c.model() =~= blank_claim());
    let mut i: usize = 0;
    assert(lv.take(0) =~= Seq::<Seq<char>>::empty());
    while i < ls.len()
        invariant
            i <= ls@.len(),
            lv == views(ls@),
            c.model() == claim_lines(lv.take(i as int)),
        decreases ls.len() - i,
    {
        assert(lv.take(i + 1).drop_last() =~= lv.take(i as int));
        assert(lv.take(i + 1).last() == ls@[i as int]@);
        apply_claim_line_exec(&mut c, &ls[i]);
        i = i + 1;
    }
    assert(lv.take(ls@.len() as int) =~= lv);
    if c.track.len() == 0 || c.slug.len() == 0 {
        return None;
    }
    Some(
        ActiveClaim {
            track: string_of(&c.track),
            slug: string_of(&c.slug),
            max_turns: c.max_turns,
            turn: c.turn,
            started_at: string_of(&c.started_at),
            start_commit: string_of(&c.start_commit),
        },
    )
}

fn push_kv(v: &mut Vec<char>, key: &[char], value: &[char])
    ensures
        final(v)@ == old(v)@ + kv_line(key@, value@) + seq!['\n'],
{
    push_all(v, key);
    v.push('=');
    push_all(v, value);
    v.push('\n');
    assert(v@ =~= old(v)@ + kv_line(key@, value@) + seq!['\n']);
}

/// The claim file's text for `claim`.
pub fn active_body(claim: &ActiveClaim) -> (r: String)
    ensures
        r@ == claim_text(claim@),
{
    let mut v: Vec<char> = Vec::new();
    push_kv(&mut v, &key_track_exec(), &chars_of(claim.track.as_str()));
    push_kv(&mut v, &key_slug_exec(), &chars_of(claim.slug.as_str()));
    push_kv(&mut v, &key_max_turns_exec(), &decimal_exec(claim.max_turns as u64));
    push_kv(&mut v, &key_turn_exec(), &decimal_exec(claim.turn as u64));
    push_kv(&mut v, &key_started_at_exec(), &chars_of(claim.started_at.as_str()));
    push_kv(&mut v, &key_start_commit_exec(), &chars_of(claim.start_commit.as_str()));
    assert(v@ =~= claim_text(claim@));
    string_of(&v)
}

/// Whether `claim` is on the task `track`/`slug`.
pub fn claim_matches(claim: &Option<ActiveClaim>, track: &str, slug: &str) -> (r: bool)
    ensures
        r == (claim matches Some(c) && c.track@ == track@ && c.slug@ == slug@),
{
    match claim {
        Some(c) => seq_eq(&chars_of(c.track.as_str()), &chars_of(track)) && seq_eq(
            &chars_of(c.slug.as_str()),
            &chars_of(slug),
        ),
        None => false,
    }
}

/// Why a claim cannot start.
#[derive(Debug, Clone, Copy, PartialEq, Eq, Structural)]
pub enum ClaimRefusal {
    /// The plan has no task with that slug.
    NoSuchTask,
    /// The task is ticked already.
    AlreadyDone,
    /// Another claim is active; it has to be released first.
    AlreadyClaimed,
}

/// Whether a claim on `slug` may start: the first task with that slug must be
/// open, and no claim may be active.
pub fn check_claim(tasks: &[Task], slug: &str, existing: &Option<ActiveClaim>) -> (r: Result<
    usize,
    ClaimRefusal,
>)
    ensures
        match r {
            Ok(k) => first_task(task_views(tasks@), slug@) == Some(k as int) && !tasks@[k as int].done
                && existing is None,
            Err(ClaimRefusal::NoSuchTask) => first_task(task_views(tasks@), slug@) is None,
            Err(ClaimRefusal::AlreadyDone) => first_task(task_views(tasks@), slug@) matches Some(k)
                && tasks@[k].done,
            Err(ClaimRefusal::AlreadyClaimed) => first_task(task_views(tasks@), slug@) matches Some(k)
                && !tasks@[k].done && existing is Some,
        },
{
    let k = match find_task(tasks, slug) {
        Some(k) => k,
        None => return Err(ClaimRefusal::NoSuchTask),
    };
    assert(k < tasks@.len());
    if tasks[k].done {
        return Err(ClaimRefusal::AlreadyDone);
    }
    if existing.is_some() {
        return Err(ClaimRefusal::AlreadyClaimed);
    }
    Ok(k)
}

// ---------------------------------------------------------------------------
// Reading back what was written
// ---------------------------------------------------------------------------

/// A field value that the claim file keeps as it is: no line break in it and
/// no whitespace at either end.
pub open spec fn clean_value(v: Seq<char>) -> bool {
    !has_char(v, '\n') && trim(v) == v
}

/// A key of the claim file: not empty, and no `'='`, line break or whitespace in it.
pub open spec fn plain_key(k: Seq<char>) -> bool {
    k.len() > 0 && forall|j: int| 0 <= j < k.len() ==> #[trigger] k[j] != '=' && !is_ws(k[j])
}

proof fn lemma_keys_plain()
    ensures
        plain_key(key_track()),
        plain_key(key_slug()),
        plain_key(key_max_turns()),
        plain_key(key_turn()),
        plain_key(key_started_at()),
        plain_key(key_start_commit()),
        key_slug() != key_track(),
        key_max_turns() != key_track(),
        key_max_turns() != key_slug(),
        key_turn() != key_track(),
        key_turn() != key_slug(),
        key_turn() != key_max_turns(),
        key_started_at() != key_track(),
        key_started_at() != key_slug(),
        key_started_at() != key_max_turns(),
        key_started_at() != key_turn(),
        key_start_commit() != key_track(),
        key_start_commit() != key_slug(),
        key_start_commit() != key_max_turns(),
        key_start_commit() != key_turn(),
        key_start_commit() != key_started_at(),
{
    assert(key_turn()[0] != key_slug()[0]);
}

proof fn lemma_clean_end(v: Seq<char>)
    requires
        trim(v) == v,
        v.len() > 0,
    ensures
        !is_ws(v.last()),
{
    lemma_trim_end(trim_start(v));
}

/// One `key=value` line: no line break in it, nothing for `lines` to strip, and
/// reading it sets the field `key` from `value`.
proof fn lemma_kv_line(c0: ClaimModel, k: Seq<char>, v: Seq<char>)
    requires
        plain_key(k),
        clean_value(v),
    ensures
        !has_char(kv_line(k, v), '\n'),
        strip_cr(kv_line(k, v)) == kv_line(k, v),
        apply_claim_line(c0, kv_line(k, v)) == set_field(c0, k, v),
{
    let s = kv_line(k, v);
    let n = k.len() as int;
    assert forall|i: int| 0 <= i < s.len() implies s[i] != '\n' by {
        if i < n {
            assert(s[i] == k[i]);
            assert(!is_ws(k[i]));
        } else if i > n {
            assert(s[i] == v[i - n - 1]);
        }
    }
    if v.len() > 0 {
        lemma_clean_end(v);
        assert(s.last() == v.last());
    } else {
        assert(s.last() == '=');
    }
    assert forall|i: int| 0 <= i < n implies !#[trigger] char_is(s, '=')(i) by {
        assert(s[i] == k[i]);
    }
    lemma_first_at_unique(0, s.len() as int, char_is(s, '='), n);
    assert(s.take(n) =~= k);
    assert(s.skip(n + 1) =~= v);
    lemma_trim_id(k);
}

/// The claim file's text splits into its six `key=value` lines.
proof fn lemma_claim_text_lines(c: ClaimModel)
    requires
        clean_value(c.track),
        clean_value(c.slug),
        clean_value(c.started_at),
        clean_value(c.start_commit),
    ensures
        lines(claim_text(c)) == seq![
            kv_line(key_track(), c.track),
            kv_line(key_slug(), c.slug),
            kv_line(key_max_turns(), decimal(c.max_turns as nat)),
            kv_line(key_turn(), decimal(c.turn as nat)),
            kv_line(key_started_at(), c.started_at),
            kv_line(key_start_commit(), c.start_commit),
        ],
{
    lemma_keys_plain();
    let c0 = blank_claim();
    let m = decimal(c.max_turns as nat);
    let t = decimal(c.turn as nat);
    lemma_parse_decimal(c.max_turns);
    lemma_parse_decimal(c.turn);
    let l1 = kv_line(key_track(), c.track);
    let l2 = kv_line(key_slug(), c.slug);
    let l3 = kv_line(key_max_turns(), m);
    let l4 = kv_line(key_turn(), t);
    let l5 = kv_line(key_started_at(), c.started_at);
    let l6 = kv_line(key_start_commit(), c.start_commit);
    lemma_kv_line(c0, key_track(), c.track);
    lemma_kv_line(c0, key_slug(), c.slug);
    lemma_kv_line(c0, key_max_turns(), m);
    lemma_kv_line(c0, key_turn(), t);
    lemma_kv_line(c0, key_started_at(), c.started_at);
    lemma_kv_line(c0, key_start_commit(), c.start_commit);
    let nl = seq!['\n'];
    let r6 = l6 + nl + Seq::<char>::empty();
    let r5 = l5 + nl + r6;
    let r4 = l4 + nl + r5;
    let r3 = l3 + nl + r4;
    let r2 = l2 + nl + r3;
    let r1 = l1 + nl + r2;
    assert(claim_text(c) =~= r1);
    lemma_lines_cons(l6, Seq::<char>::empty());
    lemma_lines_cons(l5, r6);
    lemma_lines_cons(l4, r5);
    lemma_lines_cons(l3, r4);
    lemma_lines_cons(l2, r3);
    lemma_lines_cons(l1, r2);
    assert(lines(Seq::<char>::empty()) == Seq::<Seq<char>>::empty());
    assert(lines(claim_text(c)) =~= seq![l1, l2, l3, l4, l5, l6]);
}

proof fn lemma_claim_lines_six(ls: Seq<Seq<char>>)
    requires
        ls.len() == 6,
    ensures
        claim_lines(ls) == apply_claim_line(
            apply_claim_line(
                apply_claim_line(
                    apply_claim_line(
                        apply_claim_line(apply_claim_line(blank_claim(), ls[0]), ls[1]),
                        ls[2],
                    ),
                    ls[3],
                ),
                ls[4],
            ),
            ls[5],
        ),
{
    let a1 = apply_claim_line(blank_claim(), ls[0]);
    let a2 = apply_claim_line(a1, ls[1]);
    let a3 = apply_claim_line(a2, ls[2]);
    let a4 = apply_claim_line(a3, ls[3]);
    let a5 = apply_claim_line(a4, ls[4]);
    assert(ls.take(0) =~= Seq::<Seq<char>>::empty());
    assert(claim_lines(ls.take(0)) == blank_claim());
    assert(ls.take(1).drop_last() =~= ls.take(0));
    assert(claim_lines(ls.take(1)) == a1);
    assert(ls.take(2).drop_last() =~= ls.take(1));
    assert(claim_lines(ls.take(2)) == a2);
    assert(ls.take(3).drop_last() =~= ls.take(2));
    assert(claim_lines(ls.take(3)) == a3);
    assert(ls.take(4).drop_last() =~= ls.take(3));
    assert(claim_lines(ls.take(4)) == a4);
    assert(ls.take(5).drop_last() =~= ls.take(4));
    assert(claim_lines(ls.take(5)) == a5);
    assert(ls.drop_last() =~= ls.take(5));
}

/// Reading back the file that `claim_text` writes gives the claim again,
/// when its track and slug are not empty and none of its text fields holds a
/// line break or starts or ends with whitespace.
pub proof fn law_claim_read_back(c: ClaimModel)
    requires
        c.track.len() > 0,
        c.slug.len() > 0,
        clean_value(c.track),
        clean_value(c.slug),
        clean_value(c.started_at),
        clean_value(c.start_commit),
    ensures
        claim_of(claim_text(c)) == Some(c),
{
    lemma_keys_plain();
    lemma_claim_text_lines(c);
    let ls = lines(claim_text(c));
    lemma_claim_lines_six(ls);
    let m = decimal(c.max_turns as nat);
    let t = decimal(c.turn as nat);
    lemma_parse_decimal(c.max_turns);
    lemma_parse_decimal(c.turn);
    let c1 = set_field(blank_claim(), key_track(), c.track);
    let c2 = set_field(c1, key_slug(), c.slug);
    let c3 = set_field(c2, key_max_turns(), m);
    let c4 = set_field(c3, key_turn(), t);
    let c5 = set_field(c4, key_started_at(), c.started_at);
    let c6 = set_field(c5, key_start_commit(), c.start_commit);
    lemma_kv_line(blank_claim(), key_track(), c.track);
    lemma_kv_line(c1, key_slug(), c.slug);
    lemma_kv_line(c2, key_max_turns(), m);
    lemma_kv_line(c3, key_turn(), t);
    lemma_kv_line(c4, key_started_at(), c.started_at);
    lemma_kv_line(c5, key_start_commit(), c.start_commit);
    assert(c6 == c);
}

// ---------------------------------------------------------------------------
// The Stop-hook gate
// ---------------------------------------------------------------------------

/// What reading the claimed task's plan showed.
#[derive(Debug, Clone, Copy, PartialEq, Eq, Structural)]
pub enum PlanCheck {
    /// The plan could not be read or parsed.
    Unreadable,
    /// The plan has no task with the claimed slug (renamed or removed).
    Missing,
    /// The claimed task is ticked.
    Done,
    /// The claimed task is still open.
    Open,
}

/// How close the claim is to its turn budget.
#[derive(Debug, Clone, Copy, PartialEq, Eq, Structural)]
pub enum Warn {
    Calm,
    /// At least three quarters of the budget used.
    Over75,
    /// At least nine tenths of the budget used.
    NearBudget,
}

/// What the Stop hook does once the turn is counted.
#[derive(Debug)]
pub enum GateAction {
    /// No claim: the session may end.
    Allow,
    /// The claim is over (task done, gone, or blocked): delete it; the session may end.
    Release,
    /// The budget is used up: delete the claim and say so; the session may end.
    OverBudget(ActiveClaim),
    /// Keep the session going: store the claim with its turn counted.
    Continue(ActiveClaim, Warn),
}

pub open spec fn warn_for(turn: int, max: int) -> Warn {
    if 10 * turn >= 9 * max {
        Warn::NearBudget
    } else if 4 * turn >= 3 * max {
        Warn::Over75
    } else {
        Warn::Calm
    }
}

/// The Stop-hook decision. With a claim, its turn is counted first; then the
/// claim ends when its task is done or gone from a readable plan, or when the
/// task is blocked, or when the turns exceed the budget; otherwise the session
/// keeps working, warned at 75% and at 90% of the budget (`turn / max_turns`
/// compared with 0.75 and 0.90, which for 32-bit counts is exactly the
/// integer comparison below).
pub open spec fn gate_spec(claim: Option<ClaimModel>, plan: PlanCheck, blocked: bool) -> GateOutcome {
    match claim {
        None => GateOutcome::Allow,
        Some(c) => {
            let bumped = ClaimModel { turn: (c.turn + 1) as u32, ..c };
            if plan is Done || plan is Missing {
                GateOutcome::Release
            } else if blocked {
                GateOutcome::Release
            } else if bumped.turn > bumped.max_turns {
                GateOutcome::OverBudget(bumped)
            } else {
                GateOutcome::Continue(bumped, warn_for(bumped.turn as int, bumped.max_turns as int))
            }
        },
    }
}

pub enum GateOutcome {
    Allow,
    Release,
    OverBudget(ClaimModel),
    Continue(ClaimModel, Warn),
}

impl View for GateAction {
    type V = GateOutcome;

    open spec fn view(&self) -> GateOutcome {
        match self {
            GateAction::Allow => GateOutcome::Allow,
            GateAction::Release => GateOutcome::Release,
            GateAction::OverBudget(c) => GateOutcome::OverBudget(c@),
            GateAction::Continue(c, w) => GateOutcome::Continue(c@, *w),
        }
    }
}

/// Decides what the Stop hook does. `plan` and `blocked` describe the claimed
/// task; they matter only when there is a claim.
pub fn gate_decision(claim: Option<ActiveClaim>, plan: PlanCheck, blocked: bool) -> (r: GateAction)
    requires
        claim matches Some(c) ==> c.turn < u32::MAX,
    ensures
        r@ == gate_spec(
            match claim {
                Some(c) => Some(c@),
                None => None,
            },
            plan,
            blocked,
        ),
{
    let mut c = match claim {
        None => return GateAction::Allow,
        Some(c) => c,
    };
    c.turn = c.turn + 1;
    match plan {
        PlanCheck::Done | PlanCheck::Missing => return GateAction::Release,
        _ => {},
    }
    if blocked {
        return GateAction::Release;
    }
    if c.turn > c.max_turns {
        return GateAction::OverBudget(c);
    }
    let t = c.turn as u64;
    let m = c.max_turns as u64;
    let w = if 10 * t >= 9 * m {
        Warn::NearBudget
    } else if 4 * t >= 3 * m {
        Warn::Over75
    } else {
        Warn::Calm
    };
    GateAction::Continue(c, w)
}


/// The claim that is stored after one gate call: the counted claim when the
/// session keeps going, none otherwise (no claim, or the claim deleted).
pub open spec fn gate_next(claim: Option<ClaimModel>, plan: PlanCheck, blocked: bool) -> Option<ClaimModel> {
    match gate_spec(claim, plan, blocked) {
        GateOutcome::Continue(c, _) => Some(c),
        _ => None,
    }
}

/// The claim that is stored after `n` consecutive gate calls, each seeing the
/// same plan and blocked state.
pub open spec fn gate_run(claim: Option<ClaimModel>, plan: PlanCheck, blocked: bool, n: nat) -> Option<ClaimModel>
    decreases n,
{
    if n == 0 {
        claim
    } else {
        gate_run(gate_next(claim, plan, blocked), plan, blocked, (n - 1) as nat)
    }
}

proof fn lemma_gate_run_none(plan: PlanCheck, blocked: bool, n: nat)
    ensures
        gate_run(None, plan, blocked, n) is None,
    decreases n,
{
    if n > 0 {
        lemma_gate_run_none(plan, blocked, (n - 1) as nat);
    }
}

/// A claim holds the session for at most `max_turns - turn` more turns. After
/// `n` gate calls in a row that all kept the session going, the stored claim
/// is the same claim with `n` more turns counted, and `turn + n` is within the
/// budget; a run longer than that has ended with the claim deleted. While the
/// task stays open and unblocked it keeps going exactly that long. Once no
/// claim is stored, every later call allows the session to end.
pub proof fn law_gate_run(c: ClaimModel, plan: PlanCheck, blocked: bool, n: nat)
    requires
        c.turn < u32::MAX,
        c.max_turns < u32::MAX,
    ensures
        gate_run(Some(c), plan, blocked, n) matches Some(c2) ==> {
            &&& c2 == ClaimModel { turn: (c.turn + n) as u32, ..c }
            &&& n > 0 ==> c.turn + n <= c.max_turns
        },
        n > 0 && c.turn + n > c.max_turns ==> gate_run(Some(c), plan, blocked, n) is None,
        (plan is Open || plan is Unreadable) && !blocked ==> (gate_run(Some(c), plan, blocked, n)
            is Some <==> n == 0 || c.turn + n <= c.max_turns),
        gate_run(None, plan, blocked, n) is None,
        gate_spec(None, plan, blocked) == GateOutcome::Allow,
    decreases n,
{
    lemma_gate_run_none(plan, blocked, n);
    if n > 0 {
        lemma_gate_run_none(plan, blocked, (n - 1) as nat);
        match gate_next(Some(c), plan, blocked) {
            Some(c1) => {
                assert(c1 == ClaimModel { turn: (c.turn + 1) as u32, ..c });
                law_gate_run(c1, plan, blocked, (n - 1) as nat);
            },
            None => {},
        }
    }
}

} // verus!

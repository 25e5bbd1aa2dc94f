//! `principles.md` rules, the per-task questions files, and the checks that
//! `tick` makes before a task may be marked done.
use vstd::prelude::*;

use crate::plan::string_views;
use crate::text::{
    lemma_lines_append, lemma_lines_close, lemma_lines_cons, lemma_parse_decimal, lemma_decimal,
    lemma_trim_drop_ws, lemma_trim_id, lemma_trim_skip_ws, lemma_trim_trim, strip_cr, all_digits,
    is_digit, char_is, bare_line, lemma_lines_of_joined, lemma_lines_of_joined_open, lemma_lines_shape, lemma_trim_end,
    lemma_trim_start, chars_of, decimal, decimal_exec, ends_with, ends_with_exec, find_char, find_char_exec,
    first_at, has_char, is_ws, is_whitespace, join, join_exec, lemma_find_char,
    lemma_first_at_unique, lines, lines_exec, parse_u32, parse_u32_exec, push_all, seq_eq,
    starts_with, starts_with_exec, string_of, sub_vec, trim, trim_exec, trim_start,
    trim_start_exec, views,
};

verus! {

// ---------------------------------------------------------------------------
// Markers
// ---------------------------------------------------------------------------

pub open spec fn name_tag() -> Seq<char> {
    seq!['-', ' ', 'n', 'a', 'm', 'e', ':']
}

pub open spec fn glob_tag() -> Seq<char> {
    seq!['g', 'l', 'o', 'b', ':']
}

pub open spec fn description_tag() -> Seq<char> {
    seq!['d', 'e', 's', 'c', 'r', 'i', 'p', 't', 'i', 'o', 'n', ':']
}

pub open spec fn q_header() -> Seq<char> {
    seq!['#', '#', ' ', 'Q']
}

pub open spec fn rule_tag() -> Seq<char> {
    seq!['*', '*', 'r', 'u', 'l', 'e', ':', '*', '*']
}

pub open spec fn answer_tag() -> Seq<char> {
    seq!['*', '*', 'a', 'n', 's', 'w', 'e', 'r', ':', '*', '*']
}

pub open spec fn context_tag() -> Seq<char> {
    seq!['*', '*', 'c', 'o', 'n', 't', 'e', 'x', 't', ':', '*', '*']
}

pub open spec fn h1() -> Seq<char> {
    seq!['#', ' ']
}

pub open spec fn h2() -> Seq<char> {
    seq!['#', '#', ' ']
}

pub open spec fn self_classified() -> Seq<char> {
    "(self-classified)"@
}

pub open spec fn pending() -> Seq<char> {
    "_pending_"@
}

fn lit(s: &str) -> (r: Vec<char>)
    ensures
        r@ == s@,
{
    chars_of(s)
}

fn name_tag_exec() -> (r: Vec<char>)
    ensures
        r@ == name_tag(),
{
    let r = vec!['-', ' ', 'n', 'a', 'm', 'e', ':'];
    assert(r@ =~= name_tag());
    r
}

fn glob_tag_exec() -> (r: Vec<char>)
    ensures
        r@ == glob_tag(),
{
    let r = vec!['g', 'l', 'o', 'b', ':'];
    assert(r@ =~= glob_tag());
    r
}

fn description_tag_exec() -> (r: Vec<char>)
    ensures
        r@ == description_tag(),
{
    let r = vec!['d', 'e', 's', 'c', 'r', 'i', 'p', 't', 'i', 'o', 'n', ':'];
    assert(r@ =~= description_tag());
    r
}

fn h1_exec() -> (r: Vec<char>)
    ensures
        r@ == h1(),
{
    let r = vec!['#', ' '];
    assert(r@ =~= h1());
    r
}

fn h2_exec() -> (r: Vec<char>)
    ensures
        r@ == h2(),
{
    let r = vec!['#', '#', ' '];
    assert(r@ =~= h2());
    r
}

fn q_header_exec() -> (r: Vec<char>)
    ensures
        r@ == q_header(),
{
    let r = vec!['#', '#', ' ', 'Q'];
    assert(r@ =~= q_header());
    r
}

fn rule_tag_exec() -> (r: Vec<char>)
    ensures
        r@ == rule_tag(),
{
    let r = vec!['*', '*', 'r', 'u', 'l', 'e', ':', '*', '*'];
    assert(r@ =~= rule_tag());
    r
}

fn answer_tag_exec() -> (r: Vec<char>)
    ensures
        r@ == answer_tag(),
{
    let r = vec!['*', '*', 'a', 'n', 's', 'w', 'e', 'r', ':', '*', '*'];
    assert(r@ =~= answer_tag());
    r
}

fn context_tag_exec() -> (r: Vec<char>)
    ensures
        r@ == context_tag(),
{
    let r = vec!['*', '*', 'c', 'o', 'n', 't', 'e', 'x', 't', ':', '*', '*'];
    assert(r@ =~= context_tag());
    r
}

/// `s` after the prefix `p`, if it starts with it.
fn after(s: &[char], n: usize) -> (r: Vec<char>)
    requires
        n <= s@.len(),
    ensures
        r@ == s@.skip(n as int),
{
    let r = sub_vec(s, n, s.len());
    assert(r@ =~= s@.skip(n as int));
    r
}

// ---------------------------------------------------------------------------
// principles.md
// ---------------------------------------------------------------------------

/// A rule of `principles.md`: touching a file that matches `glob` needs a
/// question tagged with `name`.
#[derive(Debug)]
pub struct PrincipleRule {
    pub name: String,
    pub glob: String,
    pub description: String,
}

pub struct RuleModel {
    pub name: Seq<char>,
    pub glob: Seq<char>,
    pub description: Seq<char>,
}

impl View for PrincipleRule {
    type V = RuleModel;

    open spec fn view(&self) -> RuleModel {
        RuleModel { name: self.name@, glob: self.glob@, description: self.description@ }
    }
}

pub open spec fn rule_views(v: Seq<PrincipleRule>) -> Seq<RuleModel> {
    Seq::new(v.len(), |i: int| v[i]@)
}

#[verifier::ext_equal]
pub struct RulesState {
    pub rules: Seq<RuleModel>,
    pub name: Option<Seq<char>>,
    pub glob: Option<Seq<char>>,
    pub desc: Option<Seq<char>>,
}

/// The rules with the one being read added, when it has a name and a glob.
pub open spec fn flush_rule(st: RulesState) -> Seq<RuleModel> {
    match (st.name, st.glob) {
        (Some(n), Some(g)) => st.rules.push(
            RuleModel {
                name: n,
                glob: g,
                description: match st.desc {
                    Some(d) => d,
                    None => seq![],
                },
            },
        ),
        _ => st.rules,
    }
}

/// One line of `principles.md`: `- name:` starts a rule, `glob:` and
/// `description:` fill it in, anything else is ignored.
pub open spec fn rules_step(st: RulesState, raw: Seq<char>) -> RulesState {
    let line = trim_start(raw);
    if starts_with(line, name_tag()) {
        RulesState {
            rules: flush_rule(st),
            name: Some(trim(line.skip(7))),
            glob: None,
            desc: None,
        }
    } else if starts_with(line, glob_tag()) {
        RulesState { glob: Some(trim(line.skip(5))), ..st }
    } else if starts_with(line, description_tag()) {
        RulesState { desc: Some(trim(line.skip(12))), ..st }
    } else {
        st
    }
}

pub open spec fn rules_fold(ls: Seq<Seq<char>>) -> RulesState
    decreases ls.len(),
{
    if ls.len() == 0 {
        RulesState { rules: seq![], name: None, glob: None, desc: None }
    } else {
        rules_step(rules_fold(ls.drop_last()), ls.last())
    }
}

/// The rules that a `principles.md` text lists.
pub open spec fn principles_of(text: Seq<char>) -> Seq<RuleModel> {
    flush_rule(rules_fold(lines(text)))
}

struct RulesDraft {
    rules: Vec<PrincipleRule>,
    name: Option<Vec<char>>,
    glob: Option<Vec<char>>,
    desc: Option<Vec<char>>,
}

pub open spec fn opt_view(o: Option<Vec<char>>) -> Option<Seq<char>> {
    match o {
        Some(v) => Some(v@),
        None => None,
    }
}

impl RulesDraft {
    spec fn model(&self) -> RulesState {
        RulesState {
            rules: rule_views(self.rules@),
            name: opt_view(self.name),
            glob: opt_view(self.glob),
            desc: opt_view(self.desc),
        }
    }
}

fn flush_rule_exec(st: &mut RulesDraft)
    ensures
        final(st).rules@.len() >= 0,
        rule_views(final(st).rules@) == flush_rule(old(st).model()),
{
    let n = st.name.take();
    let g = st.glob.take();
    if let (Some(n), Some(g)) = (n, g) {
        let d = match st.desc.take() {
            Some(d) => d,
            None => Vec::new(),
        };
        let ghost before = st.rules@;
        let r = PrincipleRule { name: string_of(&n), glob: string_of(&g), description: string_of(&d) };
        st.rules.push(r);
        assert(rule_views(st.rules@) =~= rule_views(before).push(r@));
    }
}

/// Reads the rules of `principles.md`: blocks of `- name:`, `glob:` and
/// `description:` lines; a rule without a glob is dropped.
pub fn parse_principles(text: &str) -> (r: Vec<PrincipleRule>)
    ensures
        rule_views(r@) == principles_of(text@),
{
    let v = chars_of(text);
    let ls = lines_exec(&v);
    let ghost lv = views(ls@);
    let mut st = RulesDraft { rules: Vec::new(), name: None, glob: None, desc: None };
    assert(lv.take(0) =~= Seq::<Seq<char>>::empty());
    assert(st.model() =~= rules_fold(lv.take(0)));
    let mut i: usize = 0;
    while i < ls.len()
        invariant
            i <= ls@.len(),
            lv == views(ls@),
            st.model() == rules_fold(lv.take(i as int)),
        decreases ls.len() - i,
    {
        assert(lv.take(i + 1).drop_last() =~= lv.take(i as int));
        assert(lv.take(i + 1).last() == ls@[i as int]@);
        let line = trim_start_exec(&ls[i]);
        if starts_with_exec(&line, &name_tag_exec()) {
            let ghost m0 = st.model();
            flush_rule_exec(&mut st);
            st.name = Some(trim_exec(&after(&line, 7)));
            st.glob = None;
            st.desc = None;
            assert(st.model() =~= rules_step(m0, lv[i as int]));
        } else if starts_with_exec(&line, &glob_tag_exec()) {
            st.glob = Some(trim_exec(&after(&line, 5)));
        } else if starts_with_exec(&line, &description_tag_exec()) {
            st.desc = Some(trim_exec(&after(&line, 12)));
        }
        i = i + 1;
    }
    assert(lv.take(ls@.len() as int) =~= lv);
    flush_rule_exec(&mut st);
    st.rules
}

/// Whether a rule named `name` exists.
pub fn rule_known(rules: &[PrincipleRule], name: &str) -> (r: bool)
    ensures
        r == exists|k: int| 0 <= k < rules@.len() && rules@[k].name@ == name@,
{
    let nv = chars_of(name);
    let mut k: usize = 0;
    while k < rules.len()
        invariant
            k <= rules@.len(),
            nv@ == name@,
            forall|m: int| 0 <= m < k ==> rules@[m].name@ != name@,
        decreases rules.len() - k,
    {
        if seq_eq(&chars_of(rules[k].name.as_str()), &nv) {
            return true;
        }
        k = k + 1;
    }
    false
}

// ---------------------------------------------------------------------------
// Globs
// ---------------------------------------------------------------------------

/// A glob with at most one `*`, which stands for any run of characters without
/// `/`; a glob without `*` matches only itself. (Comparing lengths in bytes or
/// in characters is the same here, as prefix and suffix are both matched.)
pub open spec fn glob_matches(path: Seq<char>, glob: Seq<char>) -> bool {
    match find_char(glob, '*') {
        Some(i) => {
            let prefix = glob.take(i);
            let suffix = glob.skip(i + 1);
            &&& starts_with(path, prefix)
            &&& ends_with(path, suffix)
            &&& path.len() >= prefix.len() + suffix.len()
            &&& !has_char(path.subrange(prefix.len() as int, path.len() - suffix.len()), '/')
        },
        None => path == glob,
    }
}

/// Whether `path` matches `glob` (at most one `*`, which matches no `/`).
pub fn matches_glob(path: &str, glob: &str) -> (r: bool)
    ensures
        r == glob_matches(path@, glob@),
{
    let p = chars_of(path);
    let g = chars_of(glob);
    matches_glob_chars(&p, &g)
}

pub fn matches_glob_chars(p: &[char], g: &[char]) -> (r: bool)
    ensures
        r == glob_matches(p@, g@),
{
    match find_char_exec(g, '*') {
        Some(i) => {
            proof {
                lemma_find_char(g@, '*');
            }
            let prefix = sub_vec(g, 0, i);
            assert(prefix@ =~= g@.take(i as int));
            let n = g.len();
            let suffix = after(g, i + 1);
            assert(prefix@.len() + suffix@.len() == n - 1);
            if !starts_with_exec(p, &prefix) {
                return false;
            }
            if !ends_with_exec(p, &suffix) {
                return false;
            }
            if p.len() < prefix.len() + suffix.len() {
                return false;
            }
            let middle = sub_vec(p, prefix.len(), p.len() - suffix.len());
            proof {
                lemma_find_char(middle@, '/');
            }
            find_char_exec(&middle, '/').is_none()
        },
        None => seq_eq(p, g),
    }
}

// ---------------------------------------------------------------------------
// Questions files
// ---------------------------------------------------------------------------

/// One question of `<slug>_questions.md`.
#[derive(Debug)]
pub struct Question {
    /// Its number, as its `## Q<n>` header gives it.
    pub index: u32,
    pub summary: String,
    /// The `principles.md` rule it is tagged with, if any.
    pub rule: Option<String>,
    pub context: String,
    pub answered: bool,
}

pub struct QuestionModel {
    pub index: u32,
    pub summary: Seq<char>,
    pub rule: Option<Seq<char>>,
    pub context: Seq<char>,
    pub answered: bool,
}

pub open spec fn ostr_view(o: Option<String>) -> Option<Seq<char>> {
    match o {
        Some(s) => Some(s@),
        None => None,
    }
}

impl View for Question {
    type V = QuestionModel;

    open spec fn view(&self) -> QuestionModel {
        QuestionModel {
            index: self.index,
            summary: self.summary@,
            rule: ostr_view(self.rule),
            context: self.context@,
            answered: self.answered,
        }
    }
}

pub open spec fn question_views(v: Seq<Question>) -> Seq<QuestionModel> {
    Seq::new(v.len(), |i: int| v[i]@)
}

#[verifier::ext_equal]
pub struct QState {
    pub out: Seq<QuestionModel>,
    pub summary: Option<Seq<char>>,
    pub rule: Option<Seq<char>>,
    pub context: Seq<char>,
    pub answered: bool,
    pub idx: u32,
}

pub open spec fn blank_qstate() -> QState {
    QState { out: seq![], summary: None, rule: None, context: seq![], answered: false, idx: 0 }
}

/// The questions with the one being read added, if a header has started one.
pub open spec fn flush_question(st: QState) -> Seq<QuestionModel> {
    match st.summary {
        Some(s) => st.out.push(
            QuestionModel {
                index: st.idx,
                summary: s,
                rule: st.rule,
                context: trim(st.context),
                answered: st.answered,
            },
        ),
        None => st.out,
    }
}

/// The number and summary of a header's text after `## Q`: `<n>: <summary>` or `<n>`.
pub open spec fn header_parts(rest: Seq<char>) -> (Seq<char>, Seq<char>) {
    match find_char(rest, ':') {
        Some(i) => (trim(rest.take(i)), trim(rest.skip(i + 1))),
        None => (rest, seq![]),
    }
}

/// One line of a questions file; `None` where the next number would not fit
/// in 32 bits.
pub open spec fn questions_step(st: QState, raw: Seq<char>) -> Option<QState> {
    if starts_with(raw, q_header()) {
        if st.idx == u32::MAX {
            None
        } else {
            let parts = header_parts(trim_start(raw.skip(4)));
            Some(
                QState {
                    out: flush_question(st),
                    summary: Some(parts.1),
                    rule: None,
                    context: seq![],
                    answered: false,
                    idx: match parse_u32(parts.0) {
                        Some(n) => n,
                        None => (st.idx + 1) as u32,
                    },
                },
            )
        }
    } else if starts_with(raw, rule_tag()) {
        let v = trim(raw.skip(9));
        if v.len() > 0 && v != self_classified() {
            Some(QState { rule: Some(v), ..st })
        } else {
            Some(st)
        }
    } else if starts_with(raw, answer_tag()) {
        let v = trim(raw.skip(11));
        Some(QState { answered: !(v.len() == 0 || v == pending()), ..st })
    } else if starts_with(raw, context_tag()) {
        Some(QState { context: (st.context + trim(raw.skip(12))).push('\n'), ..st })
    } else if st.summary is Some && !starts_with(raw, h1()) && !starts_with(raw, h2()) && trim(
        raw,
    ).len() > 0 {
        Some(
            QState {
                context: if st.context.len() > 0 {
                    st.context.push(' ') + trim(raw)
                } else {
                    trim(raw)
                },
                ..st
            },
        )
    } else {
        Some(st)
    }
}

pub open spec fn questions_fold(ls: Seq<Seq<char>>) -> Option<QState>
    decreases ls.len(),
{
    if ls.len() == 0 {
        Some(blank_qstate())
    } else {
        match questions_fold(ls.drop_last()) {
            Some(st) => questions_step(st, ls.last()),
            None => None,
        }
    }
}

/// The questions of a questions file, in order; `None` where a header comes
/// after question number 4294967295, past what a `u32` index can count.
pub open spec fn questions_of(text: Seq<char>) -> Option<Seq<QuestionModel>> {
    match questions_fold(lines(text)) {
        Some(st) => Some(flush_question(st)),
        None => None,
    }
}

struct QDraft {
    out: Vec<Question>,
    summary: Option<Vec<char>>,
    rule: Option<Vec<char>>,
    context: Vec<char>,
    answered: bool,
    idx: u32,
}

impl QDraft {
    spec fn model(&self) -> QState {
        QState {
            out: question_views(self.out@),
            summary: opt_view(self.summary),
            rule: opt_view(self.rule),
            context: self.context@,
            answered: self.answered,
            idx: self.idx,
        }
    }
}

fn flush_question_exec(st: &mut QDraft)
    ensures
        question_views(final(st).out@) == flush_question(old(st).model()),
        final(st).summary is None,
        final(st).rule == old(st).rule || final(st).rule is None,
        final(st).idx == old(st).idx,
{
    if let Some(s) = st.summary.take() {
        let rule = match st.rule.take() {
            Some(r) => Some(string_of(&r)),
            None => None,
        };
        let q = Question {
            index: st.idx,
            summary: string_of(&s),
            rule,
            context: string_of(&trim_exec(&st.context)),
            answered: st.answered,
        };
        let ghost before = st.out@;
        st.out.push(q);
        assert(question_views(st.out@) =~= question_views(before).push(q@));
    }
}

fn header_parts_exec(rest: &[char]) -> (r: (Vec<char>, Vec<char>))
    ensures
        (r.0@, r.1@) == header_parts(rest@),
{
    match find_char_exec(rest, ':') {
        Some(i) => {
            proof {
                lemma_find_char(rest@, ':');
            }
            let a = sub_vec(rest, 0, i);
            assert(a@ =~= rest@.take(i as int));
            let n = rest.len();
            (trim_exec(&a), trim_exec(&after(rest, i + 1)))
        },
        None => (sub_vec(rest, 0, rest.len()), Vec::new()),
    }
}

/// Reads the questions of a `<slug>_questions.md` text: `## Q<n>: <summary>`
/// headers, `**rule:**`, `**answer:**` and `**context:**` lines, and context
/// continuation lines. `None` where a header follows question number
/// 4294967295: an index past 4294967295 does not fit the `u32` it is kept in.
pub fn parse_questions(text: &str) -> (r: Option<Vec<Question>>)
    ensures
        match r {
            Some(qs) => questions_of(text@) == Some(question_views(qs@)),
            None => questions_of(text@) is None,
        },
{
    let v = chars_of(text);
    let ls = lines_exec(&v);
    let ghost lv = views(ls@);
    let mut st = QDraft {
        out: Vec::new(),
        summary: None,
        rule: None,
        context: Vec::new(),
        answered: false,
        idx: 0,
    };
    assert(st.model() =~= blank_qstate());
    assert(lv.take(0) =~= Seq::<Seq<char>>::empty());
    let mut i: usize = 0;
    while i < ls.len()
        invariant
            i <= ls@.len(),
            lv == views(ls@),
            questions_fold(lv.take(i as int)) == Some(st.model()),
            lv == lines(text@),
        decreases ls.len() - i,
    {
        assert(lv.take(i + 1).drop_last() =~= lv.take(i as int));
        assert(lv.take(i + 1).last() == ls@[i as int]@);
        let raw = &ls[i];
        let ghost m0 = st.model();
        if starts_with_exec(raw, &q_header_exec()) {
            if st.idx == 0xffff_ffff {
                assert(questions_fold(lv.take(i + 1)) is None);
                proof {
                    lemma_fold_none_sticks(lv, i + 1, lv.len() as int);
                }
                assert(lv.take(ls@.len() as int) =~= lv);
                assert(questions_fold(lv) is None);
                assert(lv == lines(text@));
                assert(questions_of(text@) is None);
                return None;
            }
            flush_question_exec(&mut st);
            st.rule = None;
            st.context = Vec::new();
            st.answered = false;
            let rest = trim_start_exec(&after(raw, 4));
            let (num, summary) = header_parts_exec(&rest);
            st.idx = match parse_u32_exec(&num) {
                Some(n) => n,
                None => st.idx + 1,
            };
            st.summary = Some(summary);
            assert(st.model() =~= questions_step(m0, lv[i as int])->0);
        } else if starts_with_exec(raw, &rule_tag_exec()) {
            let v = trim_exec(&after(raw, 9));
            if v.len() > 0 && !seq_eq(&v, &lit("(self-classified)")) {
                st.rule = Some(v);
            }
        } else if starts_with_exec(raw, &answer_tag_exec()) {
            let v = trim_exec(&after(raw, 11));
            st.answered = !(v.len() == 0 || seq_eq(&v, &lit("_pending_")));
        } else if starts_with_exec(raw, &context_tag_exec()) {
            let v = trim_exec(&after(raw, 12));
            push_all(&mut st.context, &v);
            st.context.push('\n');
        } else if st.summary.is_some() && !starts_with_exec(raw, &h1_exec())
            && !starts_with_exec(raw, &h2_exec()) && trim_exec(raw).len() > 0 {
            if st.context.len() > 0 {
                st.context.push(' ');
            }
            push_all(&mut st.context, &trim_exec(raw));
        }
        i = i + 1;
    }
    assert(lv.take(ls@.len() as int) =~= lv);
    flush_question_exec(&mut st);
    Some(st.out)
}

proof fn lemma_fold_none_sticks(ls: Seq<Seq<char>>, n: int, m: int)
    requires
        0 <= n <= m <= ls.len(),
        questions_fold(ls.take(n)) is None,
    ensures
        questions_fold(ls.take(m)) is None,
    decreases m - n,
{
    if n < m {
        lemma_fold_none_sticks(ls, n, m - 1);
        assert(ls.take(m).drop_last() =~= ls.take(m - 1));
    }
}

// ---------------------------------------------------------------------------
// Answering and asking
// ---------------------------------------------------------------------------

/// `## Q<index>`.
pub open spec fn header_prefix(index: u32) -> Seq<char> {
    q_header() + decimal(index as nat)
}

/// A `## Q` header line opens the section of question `index`: it is
/// `## Q<index>` followed by nothing, `:` or whitespace.
pub open spec fn opens_section(line: Seq<char>, index: u32) -> bool {
    let hp = header_prefix(index);
    starts_with(line, hp) && (line.len() == hp.len() || line[hp.len() as int] == ':' || is_ws(
        line[hp.len() as int],
    ))
}

#[verifier::ext_equal]
pub struct AnswerState {
    pub out: Seq<Seq<char>>,
    pub in_section: bool,
    pub replaced: bool,
}

/// `**answer:** <answer>`.
pub open spec fn answer_line(answer: Seq<char>) -> Seq<char> {
    answer_tag() + seq![' '] + trim(answer)
}

pub open spec fn answer_step(st: AnswerState, line: Seq<char>, index: u32, answer: Seq<char>) -> AnswerState {
    let in_section = if starts_with(line, q_header()) {
        opens_section(line, index)
    } else {
        st.in_section
    };
    if in_section && !st.replaced && starts_with(line, answer_tag()) {
        AnswerState { out: st.out.push(answer_line(answer)), in_section, replaced: true }
    } else {
        AnswerState { out: st.out.push(line), in_section, replaced: st.replaced }
    }
}

pub open spec fn answer_fold(ls: Seq<Seq<char>>, index: u32, answer: Seq<char>) -> AnswerState
    decreases ls.len(),
{
    if ls.len() == 0 {
        AnswerState { out: seq![], in_section: false, replaced: false }
    } else {
        answer_step(answer_fold(ls.drop_last(), index, answer), ls.last(), index, answer)
    }
}

/// The questions file with the first `**answer:**` line in question `index`'s
/// section replaced by `answer`; `None` when there is no such line.
pub open spec fn answered_text(text: Seq<char>, index: u32, answer: Seq<char>) -> Option<Seq<char>> {
    let st = answer_fold(lines(text), index, answer);
    if !st.replaced {
        None
    } else {
        let body = join(st.out, seq!['\n']);
        Some(
            if ends_with(text, seq!['\n']) {
                body.push('\n')
            } else {
                body
            },
        )
    }
}

fn opens_section_exec(line: &[char], hp: &[char], index: u32) -> (r: bool)
    requires
        hp@ == header_prefix(index),
    ensures
        r == opens_section(line@, index),
{
    if !starts_with_exec(line, hp) {
        return false;
    }
    if line.len() == hp.len() {
        return true;
    }
    let c = line[hp.len()];
    c == ':' || is_whitespace(c)
}

/// Records `answer` for question `index`: the first `**answer:**` line of that
/// question's section becomes `**answer:** <answer>`. `None` when the question
/// or its answer line is missing. Running it again replaces the earlier answer.
pub fn answer_question(text: &str, index: u32, answer: &str) -> (r: Option<String>)
    ensures
        match r {
            Some(t) => answered_text(text@, index, answer@) == Some(t@),
            None => answered_text(text@, index, answer@) is None,
        },
{
    let v = chars_of(text);
    let ls = lines_exec(&v);
    let ghost lv = views(ls@);
    let mut hp = q_header_exec();
    push_all(&mut hp, &decimal_exec(index as u64));
    let at = answer_tag_exec();
    let mut new_line = answer_tag_exec();
    new_line.push(' ');
    push_all(&mut new_line, &trim_exec(&chars_of(answer)));
    assert(new_line@ =~= answer_line(answer@));
    let mut out: Vec<Vec<char>> = Vec::new();
    let mut in_section = false;
    let mut replaced = false;
    assert(lv.take(0) =~= Seq::<Seq<char>>::empty());
    assert(views(out@) =~= Seq::<Seq<char>>::empty());
    let mut i: usize = 0;
    while i < ls.len()
        invariant
            i <= ls@.len(),
            lv == views(ls@),
            hp@ == header_prefix(index),
            at@ == answer_tag(),
            new_line@ == answer_line(answer@),
            answer_fold(lv.take(i as int), index, answer@) == (AnswerState {
                out: views(out@),
                in_section,
                replaced,
            }),
        decreases ls.len() - i,
    {
        assert(lv.take(i + 1).drop_last() =~= lv.take(i as int));
        assert(lv.take(i + 1).last() == ls@[i as int]@);
        let line = &ls[i];
        if starts_with_exec(line, &q_header_exec()) {
            in_section = opens_section_exec(line, &hp, index);
        }
        let ghost before = out@;
        if in_section && !replaced && starts_with_exec(line, &at) {
            let c = sub_vec(&new_line, 0, new_line.len());
            assert(c@ =~= new_line@);
            out.push(c);
            replaced = true;
        } else {
            let c = sub_vec(line, 0, line.len());
            assert(c@ =~= line@);
            out.push(c);
        }
        assert(views(out@) =~= views(before).push(out@[out@.len() - 1]@));
        i = i + 1;
    }
    assert(lv.take(ls@.len() as int) =~= lv);
    if !replaced {
        return None;
    }
    let nl = vec!['\n'];
    assert(nl@ =~= seq!['\n']);
    let mut body = join_exec(&out, &nl);
    if ends_with_exec(&v, &nl) {
        body.push('\n');
    }
    Some(string_of(&body))
}

// ---------------------------------------------------------------------------
// Answering twice
// ---------------------------------------------------------------------------

proof fn lemma_answer_fold_len(ls: Seq<Seq<char>>, index: u32, a: Seq<char>)
    ensures
        answer_fold(ls, index, a).out.len() == ls.len(),
    decreases ls.len(),
{
    if ls.len() > 0 {
        lemma_answer_fold_len(ls.drop_last(), index, a);
    }
}

/// The output of the answer pass on a prefix is the prefix of its output.
proof fn lemma_answer_fold_take(ls: Seq<Seq<char>>, index: u32, a: Seq<char>, k: int)
    requires
        0 <= k <= ls.len(),
    ensures
        answer_fold(ls, index, a).out.take(k) == answer_fold(ls.take(k), index, a).out,
    decreases ls.len(),
{
    lemma_answer_fold_len(ls, index, a);
    if k == ls.len() {
        assert(ls.take(k) =~= ls);
        assert(answer_fold(ls, index, a).out.take(k) =~= answer_fold(ls, index, a).out);
    } else {
        let t = ls.drop_last();
        lemma_answer_fold_take(t, index, a, k);
        lemma_answer_fold_len(t, index, a);
        assert(t.take(k) =~= ls.take(k));
        assert(answer_fold(ls, index, a).out.take(k) =~= answer_fold(t, index, a).out.take(k));
    }
}

/// Where the answer pass is in a section and whether it replaced a line do not
/// depend on the answer.
proof fn lemma_answer_flags(ls: Seq<Seq<char>>, index: u32, a: Seq<char>, b: Seq<char>)
    ensures
        answer_fold(ls, index, a).in_section == answer_fold(ls, index, b).in_section,
        answer_fold(ls, index, a).replaced == answer_fold(ls, index, b).replaced,
    decreases ls.len(),
{
    if ls.len() > 0 {
        lemma_answer_flags(ls.drop_last(), index, a, b);
    }
}

proof fn lemma_answer_line_shape(a: Seq<char>)
    requires
        !has_char(a, '\n'),
    ensures
        bare_line(answer_line(a)),
        answer_line(a).len() > 0,
        starts_with(answer_line(a), answer_tag()),
        !starts_with(answer_line(a), q_header()),
{
    let l = answer_line(a);
    let t = trim(a);
    lemma_trim_start(a);
    lemma_trim_end(trim_start(a));
    assert(!has_char(t, '\n')) by {
        if has_char(t, '\n') {
            let x = choose|x: int| 0 <= x < t.len() && t[x] == '\n';
            assert(t[x] == trim_start(a)[x]);
            assert(trim_start(a)[x] == a[a.len() - trim_start(a).len() + x]);
        }
    }
    assert(!has_char(l, '\n')) by {
        if has_char(l, '\n') {
            let x = choose|x: int| 0 <= x < l.len() && l[x] == '\n';
            if x >= 12 {
                assert(l[x] == t[x - 12]);
            }
        }
    }
    if t.len() > 0 {
        assert(l.last() == t.last());
    } else {
        assert(l.last() == ' ');
    }
    assert(l.take(11) =~= answer_tag());
    assert(l.take(4)[0] != q_header()[0]);
}

/// The answer pass with `b` over the lines that the pass with `a` wrote is the
/// pass with `b` over the lines it started from.
proof fn lemma_answer_over_answered(ls: Seq<Seq<char>>, index: u32, a: Seq<char>, b: Seq<char>, k: int)
    requires
        0 <= k <= ls.len(),
        !has_char(a, '\n'),
    ensures
        answer_fold(answer_fold(ls, index, a).out.take(k), index, b) == answer_fold(ls.take(k), index, b),
    decreases k,
{
    let la = answer_fold(ls, index, a).out;
    lemma_answer_fold_len(ls, index, a);
    if k == 0 {
        assert(la.take(0) =~= Seq::<Seq<char>>::empty());
        assert(ls.take(0) =~= Seq::<Seq<char>>::empty());
    } else {
        lemma_answer_over_answered(ls, index, a, b, k - 1);
        lemma_answer_fold_take(ls, index, a, k);
        lemma_answer_fold_take(ls, index, a, k - 1);
        lemma_answer_flags(ls.take(k - 1), index, a, b);
        lemma_answer_line_shape(a);
        assert(la.take(k).drop_last() =~= la.take(k - 1));
        assert(ls.take(k).drop_last() =~= ls.take(k - 1));
        assert(la.take(k).last() == la[k - 1]);
        assert(ls.take(k).last() == ls[k - 1]);
        let pa = answer_fold(ls.take(k - 1), index, a);
        assert(ls.take(k).drop_last() == ls.take(k - 1));
        assert(answer_fold(ls.take(k), index, a) == answer_step(pa, ls[k - 1], index, a));
        assert(la[k - 1] == answer_fold(ls.take(k), index, a).out[k - 1]);
        let line = ls[k - 1];
        if la[k - 1] != line {
            assert(la[k - 1] == answer_line(a));
            assert(starts_with(line, answer_tag()));
            assert(!starts_with(line, q_header())) by {
                assert(line.take(4)[0] == line[0]);
                assert(line.take(11)[0] == line[0]);
            }
        }
    }
}

/// A text without carriage returns at the ends of its lines (but perhaps at
/// the end of an unterminated last line).
pub open spec fn no_cr_line_ends(t: Seq<char>) -> bool {
    let ls = lines(t);
    forall|j: int|
        0 <= j < ls.len() && (j < ls.len() - 1 || ends_with(t, seq!['\n'])) ==> !(
        #[trigger] ls[j].len() > 0 && ls[j].last() == '\r')
}

proof fn lemma_join_last(ss: Seq<Seq<char>>, sep: Seq<char>)
    requires
        ss.len() > 0,
        ss.last().len() > 0,
    ensures
        join(ss, sep).len() > 0,
        join(ss, sep).last() == ss.last().last(),
{
}

/// Answering a question a second time gives what answering it once with the
/// second answer gives: the earlier answer is replaced. This holds for answers
/// without a line break, in files whose lines do not end with a carriage return.
pub proof fn law_answer_again(t: Seq<char>, index: u32, a: Seq<char>, b: Seq<char>)
    requires
        answered_text(t, index, a) is Some,
        !has_char(a, '\n'),
        no_cr_line_ends(t),
    ensures
        answered_text(answered_text(t, index, a)->0, index, b) == answered_text(t, index, b),
{
    let ls = lines(t);
    let st = answer_fold(ls, index, a);
    let la = st.out;
    let nl = seq!['\n'];
    let t1 = answered_text(t, index, a)->0;
    lemma_answer_fold_len(ls, index, a);
    lemma_lines_shape(t);
    lemma_answer_line_shape(a);
    assert(ls.len() > 0) by {
        if ls.len() == 0 {
            assert(answer_fold(ls, index, a).replaced == false);
        }
    }
    assert(t.len() > 0) by {
        if t.len() == 0 {
            assert(lines(t) == Seq::<Seq<char>>::empty());
        }
    }
    // Each written line is an input line or the new answer line.
    assert forall|j: int| 0 <= j < la.len() implies #[trigger] la[j] == ls[j] || la[j]
        == answer_line(a) by {
        lemma_answer_fold_take(ls, index, a, j + 1);
        lemma_answer_fold_take(ls, index, a, j);
        lemma_answer_fold_len(ls.take(j), index, a);
        assert(ls.take(j + 1).drop_last() =~= ls.take(j));
        assert(la.take(j + 1)[j] == la[j]);
    }
    let ends = ends_with(t, nl);
    if ends {
        assert forall|j: int| 0 <= j < la.len() implies bare_line(#[trigger] la[j]) by {
            if la[j] == ls[j] {
                assert(!has_char(ls[j], '\n'));
            }
        }
        lemma_lines_of_joined(la);
        assert(t1 == join(la, nl).push('\n'));
        assert(join(la, nl).push('\n') =~= join(la, nl) + nl);
        assert(t1.last() == '\n');
        assert(ends_with(t1, nl)) by {
            assert(t1.skip(t1.len() - 1) =~= nl);
        }
    } else {
        assert(t.last() != '\n') by {
            assert(t.skip(t.len() - 1) =~= seq![t.last()]);
        }
        assert forall|j: int| 0 <= j < la.len() - 1 implies bare_line(#[trigger] la[j]) by {
            if la[j] == ls[j] {
                assert(!has_char(ls[j], '\n'));
            }
        }
        assert(la.last() == la[la.len() - 1]);
        assert(ls.last() == ls[ls.len() - 1]);
        assert(!has_char(la.last(), '\n')) by {
            if la.last() == ls.last() {
                assert(!has_char(ls[ls.len() - 1], '\n'));
            }
        }
        assert(la.last().len() > 0);
        lemma_lines_of_joined_open(la);
        assert(t1 == join(la, nl));
        lemma_join_last(la, nl);
        assert(!ends_with(t1, nl)) by {
            if ends_with(t1, nl) {
                assert(t1.skip(t1.len() - 1)[0] == t1.last());
            }
        }
    }
    assert(lines(t1) == la);
    lemma_answer_over_answered(ls, index, a, b, ls.len() as int);
    assert(la.take(la.len() as int) =~= la);
    assert(ls.take(ls.len() as int) =~= ls);
}

// ---------------------------------------------------------------------------
// Reading back an asked question
// ---------------------------------------------------------------------------

/// The reading state after more lines, from a given state.
pub open spec fn questions_from(st: Option<QState>, ls: Seq<Seq<char>>) -> Option<QState>
    decreases ls.len(),
{
    if ls.len() == 0 {
        st
    } else {
        match questions_from(st, ls.drop_last()) {
            Some(s) => questions_step(s, ls.last()),
            None => None,
        }
    }
}

proof fn lemma_questions_concat(a: Seq<Seq<char>>, b: Seq<Seq<char>>)
    ensures
        questions_fold(a + b) == questions_from(questions_fold(a), b),
    decreases b.len(),
{
    if b.len() == 0 {
        assert(a + b =~= a);
    } else {
        lemma_questions_concat(a, b.drop_last());
        assert((a + b).drop_last() =~= a + b.drop_last());
        assert((a + b).last() == b.last());
    }
}

/// Before any header the counter is 0; after one, the question being read
/// carries the counter.
proof fn lemma_questions_state(ls: Seq<Seq<char>>)
    ensures
        questions_fold(ls) matches Some(st) ==> (st.summary is None ==> st.idx == 0),
    decreases ls.len(),
{
    if ls.len() > 0 {
        lemma_questions_state(ls.drop_last());
    }
}

/// The question that `ask` adds, as it is read back.
pub open spec fn asked_question(n: u32, question: Seq<char>, rule: Option<Seq<char>>, context: Option<Seq<char>>) -> QuestionModel {
    QuestionModel {
        index: n,
        summary: trim(question),
        rule: match rule {
            Some(r) => if trim(r).len() > 0 && trim(r) != self_classified() {
                Some(trim(r))
            } else {
                None
            },
            None => None,
        },
        context: match context {
            Some(c) => trim(c),
            None => seq![],
        },
        answered: false,
    }
}

proof fn lemma_tag_line(tag: Seq<char>, v: Seq<char>)
    requires
        tag.len() > 0,
        is_ws(tag.last()),
    ensures
        trim((tag + v).skip(tag.len() - 1)) == trim(v),
{
    let s = (tag + v).skip(tag.len() - 1);
    assert(s[0] == tag.last());
    lemma_trim_skip_ws(s);
    assert(s.skip(1) =~= v);
}

proof fn lemma_self_classified()
    ensures
        trim(self_classified()) == self_classified(),
        self_classified().len() > 0,
{
    reveal_strlit("(self-classified)");
    lemma_trim_id(self_classified());
}

/// The header line that `ask` writes starts question `n` with summary `tq`.
proof fn lemma_read_header(st: QState, n: u32, tq: Seq<char>)
    requires
        st.idx != u32::MAX,
        trim(tq) == tq,
    ensures
        questions_step(st, seq!['#', '#', ' ', 'Q'] + decimal(n as nat) + seq![':', ' '] + tq)
            == Some(
            QState {
                out: flush_question(st),
                summary: Some(tq),
                rule: None,
                context: seq![],
                answered: false,
                idx: n,
            },
        ),
{
    let d = decimal(n as nat);
    let hl = seq!['#', '#', ' ', 'Q'] + d + seq![':', ' '] + tq;
    lemma_decimal(n as nat);
    lemma_parse_decimal(n);
    assert(hl.take(4) =~= q_header());
    let rest0 = hl.skip(4);
    assert(rest0 =~= d + seq![':', ' '] + tq);
    assert(is_digit(d[0]));
    assert(rest0[0] == d[0]);
    lemma_trim_id(seq![rest0[0]]);
    assert(trim_start(rest0) == rest0) by {
        assert(crate::text::not_ws_at(rest0)(0));
        lemma_first_at_unique(0, rest0.len() as int, crate::text::not_ws_at(rest0), 0);
        assert(rest0.skip(0) =~= rest0);
    }
    let dl = d.len() as int;
    assert forall|x: int| 0 <= x < dl implies !#[trigger] char_is(rest0, ':')(x) by {
        assert(rest0[x] == d[x]);
        assert(is_digit(d[x]));
    }
    assert(char_is(rest0, ':')(dl));
    lemma_first_at_unique(0, rest0.len() as int, char_is(rest0, ':'), dl);
    assert(rest0.take(dl) =~= d);
    let after = rest0.skip(dl + 1);
    assert(after =~= seq![' '] + tq);
    lemma_trim_skip_ws(after);
    assert(after.skip(1) =~= tq);
}

proof fn lemma_trim_keeps_out(q: Seq<char>, c: char)
    requires
        !has_char(q, c),
    ensures
        !has_char(trim(q), c),
{
    let t = trim(q);
    lemma_trim_start(q);
    lemma_trim_end(trim_start(q));
    if has_char(t, c) {
        let x = choose|x: int| 0 <= x < t.len() && t[x] == c;
        assert(t[x] == trim_start(q)[x]);
        assert(trim_start(q)[x] == q[q.len() - trim_start(q).len() + x]);
    }
}

pub open spec fn rule_prefix() -> Seq<char> {
    seq!['*', '*', 'r', 'u', 'l', 'e', ':', '*', '*', ' ']
}

pub open spec fn context_prefix() -> Seq<char> {
    seq!['*', '*', 'c', 'o', 'n', 't', 'e', 'x', 't', ':', '*', '*', ' ']
}

pub open spec fn pending_line() -> Seq<char> {
    answer_tag() + seq![' '] + pending()
}

proof fn lemma_read_rule(st: QState, rv: Seq<char>)
    ensures
        questions_step(st, strip_cr(rule_prefix() + rv)) == Some(
            QState {
                rule: if trim(rv).len() > 0 && trim(rv) != self_classified() {
                    Some(trim(rv))
                } else {
                    st.rule
                },
                ..st
            },
        ),
{
    let rl = rule_prefix() + rv;
    let line = strip_cr(rl);
    let rv2 = if rv.len() > 0 && rv.last() == '\r' {
        rv.drop_last()
    } else {
        rv
    };
    assert(line =~= rule_prefix() + rv2);
    assert(line[0] == '*');
    assert(!starts_with(line, q_header())) by {
        assert(line.take(4)[0] == line[0]);
    }
    assert(line.take(9) =~= rule_tag());
    lemma_tag_line(rule_prefix(), rv2);
    if rv.len() > 0 && rv.last() == '\r' {
        lemma_trim_drop_ws(rv);
    }
    assert(trim(line.skip(9)) == trim(rv));
}

proof fn lemma_read_context(st: QState, tc: Seq<char>)
    requires
        trim(tc) == tc,
        st.context.len() == 0,
    ensures
        questions_step(st, context_prefix() + tc) == Some(QState { context: tc.push('\n'), ..st }),
{
    let line = context_prefix() + tc;
    assert(!starts_with(line, q_header())) by {
        assert(line.take(4)[0] == line[0]);
    }
    assert(!starts_with(line, rule_tag())) by {
        assert(line.take(9)[2] == line[2]);
    }
    assert(!starts_with(line, answer_tag())) by {
        assert(line.take(11)[2] == line[2]);
    }
    assert(line.take(12) =~= context_tag());
    lemma_tag_line(context_prefix(), tc);
    assert(st.context + tc =~= tc);
}

proof fn lemma_read_pending(st: QState)
    ensures
        questions_step(st, pending_line()) == Some(QState { answered: false, ..st }),
{
    reveal_strlit("_pending_");
    let line = pending_line();
    assert(!starts_with(line, q_header())) by {
        assert(line.take(4)[0] == line[0]);
    }
    assert(!starts_with(line, rule_tag())) by {
        assert(line.take(9)[2] == line[2]);
    }
    assert(line.take(11) =~= answer_tag());
    lemma_tag_line(answer_tag() + seq![' '], pending());
    assert(line.skip(11) =~= (answer_tag() + seq![' '] + pending()).skip(11));
    lemma_trim_id(pending());
}

proof fn lemma_questions_from_lines(st: Option<QState>, ls: Seq<Seq<char>>)
    requires
        1 <= ls.len() <= 4,
    ensures
        questions_from(st, ls) == (match questions_from(st, ls.drop_last()) {
            Some(s) => questions_step(s, ls.last()),
            None => None,
        }),
        questions_from(st, Seq::<Seq<char>>::empty()) == st,
{
}

/// The header line, the rule line, the context line if any, and the pending answer line.
pub open spec fn block_lines(n: u32, question: Seq<char>, rule: Option<Seq<char>>, context: Option<Seq<char>>) -> Seq<Seq<char>> {
    let hl = seq!['#', '#', ' ', 'Q'] + decimal(n as nat) + seq![':', ' '] + trim(question);
    let rv = match rule {
        Some(r) => r,
        None => self_classified(),
    };
    let ctx_lines = match context {
        Some(c) => seq![context_prefix() + trim(c)],
        None => Seq::<Seq<char>>::empty(),
    };
    seq![hl, strip_cr(rule_prefix() + rv)] + ctx_lines + seq![pending_line()]
}

proof fn lemma_block_lines(n: u32, question: Seq<char>, rule: Option<Seq<char>>, context: Option<Seq<char>>)
    requires
        !has_char(question, '\n'),
        rule matches Some(r) ==> !has_char(r, '\n'),
        context matches Some(c) ==> !has_char(c, '\n'),
    ensures
        lines(question_block(n, question, rule, context)) == block_lines(n, question, rule, context),
{
    reveal_strlit("## Q");
    reveal_strlit(": ");
    reveal_strlit("\n**rule:** ");
    reveal_strlit("\n");
    reveal_strlit("**context:** ");
    reveal_strlit("**answer:** _pending_\n");
    reveal_strlit("_pending_");
    reveal_strlit("(self-classified)");
    let nl = seq!['\n'];
    let tq = trim(question);
    lemma_trim_keeps_out(question, '\n');
    let rv = match rule {
        Some(r) => r,
        None => self_classified(),
    };
    let d = decimal(n as nat);
    lemma_decimal(n as nat);
    let hl = seq!['#', '#', ' ', 'Q'] + d + seq![':', ' '] + tq;
    let rl = rule_prefix() + rv;
    let al = pending_line();
    let block = question_block(n, question, rule, context);
    assert(!has_char(hl, '\n')) by {
        if has_char(hl, '\n') {
            let x = choose|x: int| 0 <= x < hl.len() && hl[x] == '\n';
            if 4 <= x < 4 + d.len() {
                assert(hl[x] == d[x - 4]);
                assert(is_digit(d[x - 4]));
            } else if x >= 6 + d.len() {
                assert(hl[x] == tq[x - 6 - d.len()]);
            }
        }
    }
    assert(strip_cr(hl) == hl) by {
        lemma_trim_end(trim_start(question));
        if tq.len() > 0 {
            assert(hl.last() == tq.last());
        }
    }
    assert(!has_char(rv, '\n')) by {
        if rule is None && has_char(rv, '\n') {
            let x = choose|x: int| 0 <= x < rv.len() && rv[x] == '\n';
        }
    }
    assert(!has_char(rl, '\n')) by {
        if has_char(rl, '\n') {
            let x = choose|x: int| 0 <= x < rl.len() && rl[x] == '\n';
            if x >= 10 {
                assert(rl[x] == rv[x - 10]);
            }
        }
    }
    assert(!has_char(al, '\n'));
    assert(strip_cr(al) == al);
    let ctx_lines = match context {
        Some(c) => seq![context_prefix() + trim(c)],
        None => Seq::<Seq<char>>::empty(),
    };
    lemma_lines_cons(al, Seq::<char>::empty());
    assert(al + nl + Seq::<char>::empty() =~= al + nl);
    assert(lines(Seq::<char>::empty()) == Seq::<Seq<char>>::empty());
    let tail = match context {
        Some(c) => {
            let cl = context_prefix() + trim(c);
            lemma_trim_keeps_out(c, '\n');
            assert(!has_char(cl, '\n')) by {
                if has_char(cl, '\n') {
                    let x = choose|x: int| 0 <= x < cl.len() && cl[x] == '\n';
                    if x >= 13 {
                        assert(cl[x] == trim(c)[x - 13]);
                    }
                }
            }
            assert(strip_cr(cl) == cl) by {
                lemma_trim_end(trim_start(c));
                if trim(c).len() > 0 {
                    assert(cl.last() == trim(c).last());
                }
            }
            lemma_lines_cons(cl, al + nl);
            cl + nl + (al + nl)
        },
        None => al + nl,
    };
    assert(lines(tail) == ctx_lines + seq![al]) by {
        if context is None {
            assert(seq![strip_cr(al)] + Seq::<Seq<char>>::empty() =~= ctx_lines + seq![al]);
        } else {
            assert(seq![ctx_lines[0]] + seq![al] =~= ctx_lines + seq![al]);
        }
    }
    lemma_lines_cons(rl, tail);
    lemma_lines_cons(hl, rl + nl + tail);
    assert(block =~= hl + nl + (rl + nl + tail));
    assert(seq![hl] + (seq![strip_cr(rl)] + (ctx_lines + seq![al])) =~= block_lines(
        n,
        question,
        rule,
        context,
    ));
}

/// The file before the new block: the old text, a line break where it lacks a
/// final one, and a blank line. Reading it ends as reading the old text does.
proof fn lemma_asked_prefix(existing: Option<Seq<char>>, slug: Seq<char>, n: u32, question: Seq<char>, rule: Option<Seq<char>>, context: Option<Seq<char>>)
    requires
        !(match existing {
            Some(t) => t.len() > 0 && t.last() == '\r',
            None => false,
        }),
    ensures
        ({
            let base = match existing {
                Some(t) => t,
                None => questions_header(slug),
            };
            exists|pre: Seq<Seq<char>>|
                lines(asked_text(existing, slug, n, question, rule, context)) == pre + lines(
                    question_block(n, question, rule, context),
                ) && questions_fold(pre) == questions_fold(lines(base))
        }),
{
    reveal_strlit(
        "\n\nAnswer each by replacing `_pending_` with your decision; re-run `/driver:go` or `/driver:do` to resume.\n",
    );
    let nl = seq!['\n'];
    let base = match existing {
        Some(t) => t,
        None => questions_header(slug),
    };
    let body = if ends_with(base, nl) {
        base
    } else {
        base.push('\n')
    };
    let block = question_block(n, question, rule, context);
    let x = body.push('\n');
    assert(x.last() == '\n');
    assert(asked_text(existing, slug, n, question, rule, context) == x + block);
    lemma_lines_append(x, block);
    assert(body.len() > 0 && body.last() == '\n') by {
        if ends_with(base, nl) {
            assert(base.skip(base.len() - 1)[0] == base.last());
        }
    }
    lemma_lines_append(body, nl);
    assert(body + nl =~= x);
    lemma_lines_cons(Seq::<char>::empty(), Seq::<char>::empty());
    assert(Seq::<char>::empty() + nl + Seq::<char>::empty() =~= nl);
    let e = Seq::<char>::empty();
    assert(lines(nl) == seq![e]) by {
        assert(strip_cr(e) =~= e);
        assert(seq![e] + Seq::<Seq<char>>::empty() =~= seq![e]);
    }
    let lb = lines(body);
    let pre = lb + seq![e];
    assert(lines(asked_text(existing, slug, n, question, rule, context)) == pre + lines(block));
    lemma_questions_concat(lb, seq![e]);
    lemma_questions_from_lines(questions_fold(lb), seq![e]);
    assert(seq![e].drop_last() =~= Seq::<Seq<char>>::empty());
    assert(questions_fold(lb) == questions_fold(lines(base))) by {
        if ends_with(base, nl) {
        } else if base.len() > 0 {
            assert(base.last() != '\n') by {
                assert(base.skip(base.len() - 1) =~= seq![base.last()]);
            }
            assert(base.last() != '\r') by {
                if existing is None {
                    let h = questions_header(slug);
                    assert(h.skip(h.len() - 1) =~= nl);
                }
            }
            lemma_lines_close(base);
        } else {
            assert(base.push('\n') =~= nl);
            assert(lines(base) == Seq::<Seq<char>>::empty());
            assert(lb.drop_last() =~= Seq::<Seq<char>>::empty());
        }
    }
    match questions_fold(lb) {
        Some(st) => {
            assert(questions_step(st, e) == Some(st));
        },
        None => {},
    }
    assert(questions_fold(pre) == questions_fold(lines(base)));
}

/// Reading the new block after a state whose counter can still count on.
proof fn lemma_read_block(st: QState, n: u32, question: Seq<char>, rule: Option<Seq<char>>, context: Option<Seq<char>>)
    requires
        st.idx != u32::MAX,
    ensures
        questions_from(Some(st), block_lines(n, question, rule, context)) matches Some(f) && flush_question(f)
            == flush_question(st).push(asked_question(n, question, rule, context)),
{
    let bls = block_lines(n, question, rule, context);
    let tq = trim(question);
    lemma_trim_trim(question);
    let rv = match rule {
        Some(r) => r,
        None => self_classified(),
    };
    lemma_read_header(st, n, tq);
    let s1 = QState {
        out: flush_question(st),
        summary: Some(tq),
        rule: None,
        context: seq![],
        answered: false,
        idx: n,
    };
    lemma_read_rule(s1, rv);
    let r2 = if trim(rv).len() > 0 && trim(rv) != self_classified() {
        Some(trim(rv))
    } else {
        None
    };
    let s2 = QState { rule: r2, ..s1 };
    lemma_self_classified();
    lemma_read_pending(s2);
    let p1 = bls.take(1);
    let p2 = bls.take(2);
    assert(p1.drop_last() =~= Seq::<Seq<char>>::empty());
    assert(p2.drop_last() =~= p1);
    lemma_questions_from_lines(Some(st), p1);
    lemma_questions_from_lines(Some(st), p2);
    assert(questions_from(Some(st), p2) == Some(s2));
    match context {
        Some(c) => {
            let tc = trim(c);
            lemma_trim_trim(c);
            lemma_read_context(s2, tc);
            let s3 = QState { context: tc.push('\n'), ..s2 };
            lemma_read_pending(s3);
            let p3 = bls.take(3);
            assert(p3.drop_last() =~= p2);
            lemma_questions_from_lines(Some(st), p3);
            assert(bls.drop_last() =~= p3);
            lemma_questions_from_lines(Some(st), bls);
            lemma_trim_drop_ws(tc.push('\n'));
            assert(tc.push('\n').drop_last() =~= tc);
            assert(flush_question(QState { answered: false, ..s3 }) =~= flush_question(st).push(
                asked_question(n, question, rule, context),
            ));
        },
        None => {
            assert(bls.drop_last() =~= p2);
            lemma_questions_from_lines(Some(st), bls);
            lemma_trim_id(Seq::<char>::empty());
            assert(flush_question(QState { answered: false, ..s2 }) =~= flush_question(st).push(
                asked_question(n, question, rule, context),
            ));
        },
    }
}

/// Asking appends one unanswered question: reading the file afterwards gives
/// the questions read before and then the new one, with its number and its
/// trimmed text, rule and context. This holds when the question, rule and
/// context hold no line break, the file does not end with a carriage return,
/// and its last question's number is not the largest 32-bit one.
pub proof fn law_ask_then_read(
    existing: Option<Seq<char>>,
    slug: Seq<char>,
    n: u32,
    question: Seq<char>,
    rule: Option<Seq<char>>,
    context: Option<Seq<char>>,
    qs: Seq<QuestionModel>,
)
    requires
        questions_of(
            match existing {
                Some(t) => t,
                None => questions_header(slug),
            },
        ) == Some(qs),
        qs.len() == 0 || qs.last().index < u32::MAX,
        !(match existing {
            Some(t) => t.len() > 0 && t.last() == '\r',
            None => false,
        }),
        !has_char(question, '\n'),
        rule matches Some(r) ==> !has_char(r, '\n'),
        context matches Some(c) ==> !has_char(c, '\n'),
    ensures
        questions_of(asked_text(existing, slug, n, question, rule, context)) == Some(
            qs.push(asked_question(n, question, rule, context)),
        ),
{
    let base = match existing {
        Some(t) => t,
        None => questions_header(slug),
    };
    lemma_asked_prefix(existing, slug, n, question, rule, context);
    let pre = choose|pre: Seq<Seq<char>>|
        lines(asked_text(existing, slug, n, question, rule, context)) == pre + lines(
            question_block(n, question, rule, context),
        ) && questions_fold(pre) == questions_fold(lines(base));
    lemma_block_lines(n, question, rule, context);
    let bls = block_lines(n, question, rule, context);
    let st = questions_fold(lines(base))->0;
    assert(flush_question(st) == qs);
    lemma_questions_state(lines(base));
    assert(st.idx != u32::MAX) by {
        if st.summary is Some {
            assert(qs.last().index == st.idx);
        }
    }
    lemma_questions_concat(pre, bls);
    lemma_read_block(st, n, question, rule, context);
}

/// The number the next question gets: one more than the largest so far, 1 for
/// the first; `None` where that overflows.
pub open spec fn max_index(qs: Seq<QuestionModel>) -> nat
    decreases qs.len(),
{
    if qs.len() == 0 {
        0
    } else {
        let m = max_index(qs.drop_last());
        if qs.last().index > m {
            qs.last().index as nat
        } else {
            m
        }
    }
}

/// The number after the largest: it is above every question's number, and
/// it is one more than some question's number (1 when there are none), so a
/// new question never repeats an existing number.
pub proof fn law_next_index_is_past_the_largest(qs: Seq<QuestionModel>)
    ensures
        forall|k: int| 0 <= k < qs.len() ==> (#[trigger] qs[k]).index < max_index(qs) + 1,
        qs.len() == 0 ==> max_index(qs) + 1 == 1,
        qs.len() > 0 ==> exists|k: int| 0 <= k < qs.len() && (#[trigger] qs[k]).index + 1 == max_index(qs) + 1,
    decreases qs.len(),
{
    if qs.len() > 0 {
        let d = qs.drop_last();
        law_next_index_is_past_the_largest(d);
        assert forall|k: int| 0 <= k < qs.len() implies (#[trigger] qs[k]).index < max_index(qs) + 1 by {
            if k < d.len() {
                assert(qs[k] == d[k]);
            }
        }
        if qs.last().index <= max_index(d) && d.len() > 0 {
            let k = choose|k: int| 0 <= k < d.len() && (#[trigger] d[k]).index + 1 == max_index(d) + 1;
            assert(qs[k] == d[k]);
        } else {
            assert(qs[qs.len() - 1] == qs.last());
        }
    }
}

pub fn next_question_index(qs: &[Question]) -> (r: Option<u32>)
    ensures
        match r {
            Some(n) => n == max_index(question_views(qs@)) + 1,
            None => max_index(question_views(qs@)) + 1 > u32::MAX,
        },
        r matches Some(n) ==> forall|k: int| 0 <= k < qs@.len() ==> (#[trigger] qs@[k]).index < n,
        r matches Some(n) ==> (qs@.len() == 0 ==> n == 1),
        r matches Some(n) ==> (qs@.len() > 0 ==> exists|k: int|
            0 <= k < qs@.len() && (#[trigger] qs@[k]).index + 1 == n),
        r is None ==> exists|k: int| 0 <= k < qs@.len() && (#[trigger] qs@[k]).index == u32::MAX,
{
    let ghost qv = question_views(qs@);
    proof {
        law_next_index_is_past_the_largest(qv);
        assert forall|k: int| 0 <= k < qs@.len() implies qv[k] == (#[trigger] qs@[k])@ by {}
    }
    let mut m: u32 = 0;
    let mut i: usize = 0;
    assert(qv.take(0) =~= Seq::<QuestionModel>::empty());
    while i < qs.len()
        invariant
            i <= qs@.len(),
            qv == question_views(qs@),
            m == max_index(qv.take(i as int)),
        decreases qs.len() - i,
    {
        assert(qv.take(i + 1).drop_last() =~= qv.take(i as int));
        assert(qv.take(i + 1).last() == qs@[i as int]@);
        if qs[i].index > m {
            m = qs[i].index;
        }
        i = i + 1;
    }
    assert(qv.take(qs@.len() as int) =~= qv);
    if m == 0xffff_ffff {
        None
    } else {
        Some(m + 1)
    }
}

/// The head of a new questions file for `slug`.
pub open spec fn questions_header(slug: Seq<char>) -> Seq<char> {
    "# Open questions \u{2014} "@ + slug
        + "\n\nAnswer each by replacing `_pending_` with your decision; re-run `/driver:go` or `/driver:do` to resume.\n"@
}

/// The block that `ask` appends for question `n`.
pub open spec fn question_block(n: u32, question: Seq<char>, rule: Option<Seq<char>>, context: Option<Seq<char>>) -> Seq<char> {
    "## Q"@ + decimal(n as nat) + ": "@ + trim(question) + "\n**rule:** "@ + (match rule {
        Some(r) => r,
        None => self_classified(),
    }) + "\n"@ + (match context {
        Some(c) => "**context:** "@ + trim(c) + "\n"@,
        None => seq![],
    }) + "**answer:** _pending_\n"@
}

/// The questions file after `ask`: the file (or a fresh header), a newline if it
/// lacks a final one, a blank line, and the new question's block.
pub open spec fn asked_text(existing: Option<Seq<char>>, slug: Seq<char>, n: u32, question: Seq<char>, rule: Option<Seq<char>>, context: Option<Seq<char>>) -> Seq<char> {
    let body = match existing {
        Some(t) => t,
        None => questions_header(slug),
    };
    let body = if ends_with(body, seq!['\n']) {
        body
    } else {
        body.push('\n')
    };
    body.push('\n') + question_block(n, question, rule, context)
}

fn question_block_exec(n: u32, question: &str, rule: Option<&str>, context: Option<&str>) -> (r: Vec<char>)
    ensures
        r@ == question_block(
            n,
            question@,
            match rule {
                Some(t) => Some(t@),
                None => None,
            },
            match context {
                Some(t) => Some(t@),
                None => None,
            },
        ),
{
    let mut b = lit("## Q");
    push_all(&mut b, &decimal_exec(n as u64));
    push_all(&mut b, &lit(": "));
    push_all(&mut b, &trim_exec(&chars_of(question)));
    push_all(&mut b, &lit("\n**rule:** "));
    let ghost b1 = b@;
    let r = match rule {
        Some(r) => chars_of(r),
        None => lit("(self-classified)"),
    };
    push_all(&mut b, &r);
    push_all(&mut b, &lit("\n"));
    let ghost b2 = b@;
    let mut c: Vec<char> = Vec::new();
    match context {
        Some(t) => {
            push_all(&mut c, &lit("**context:** "));
            push_all(&mut c, &trim_exec(&chars_of(t)));
            push_all(&mut c, &lit("\n"));
        },
        None => {},
    }
    assert(c@ == (match context {
        Some(t) => "**context:** "@ + trim(t@) + "\n"@,
        None => Seq::<char>::empty(),
    }));
    push_all(&mut b, &c);
    push_all(&mut b, &lit("**answer:** _pending_\n"));
    b
}

/// The questions file text after appending question `n`. `existing` is the
/// file's text when the file exists.
pub fn ask_text(
    existing: Option<&str>,
    slug: &str,
    n: u32,
    question: &str,
    rule: Option<&str>,
    context: Option<&str>,
) -> (r: String)
    ensures
        r@ == asked_text(
            match existing {
                Some(t) => Some(t@),
                None => None,
            },
            slug@,
            n,
            question@,
            match rule {
                Some(t) => Some(t@),
                None => None,
            },
            match context {
                Some(t) => Some(t@),
                None => None,
            },
        ),
{
    let mut body = match existing {
        Some(t) => chars_of(t),
        None => {
            let mut b = lit("# Open questions \u{2014} ");
            push_all(&mut b, &chars_of(slug));
            push_all(
                &mut b,
                &lit(
                    "\n\nAnswer each by replacing `_pending_` with your decision; re-run `/driver:go` or `/driver:do` to resume.\n",
                ),
            );
            b
        },
    };
    let nl = vec!['\n'];
    assert(nl@ =~= seq!['\n']);
    if !ends_with_exec(&body, &nl) {
        body.push('\n');
    }
    body.push('\n');
    let block = question_block_exec(n, question, rule, context);
    push_all(&mut body, &block);
    string_of(&body)
}

// ---------------------------------------------------------------------------
// The checks before a tick
// ---------------------------------------------------------------------------

/// Why `tick` refuses to mark a task done.
#[derive(Debug)]
pub enum TickRefusal {
    /// A touched file matches the rule's glob and no question carries the
    /// rule's tag; `touched` holds up to three of the matching files.
    RuleTripped { rule: String, touched: Vec<String> },
    /// Questions are still unanswered: their number, and up to three of them
    /// (number and summary).
    Unanswered { count: usize, preview: Vec<(u32, String)> },
}

pub enum RefusalModel {
    RuleTripped(Seq<char>, Seq<Seq<char>>),
    Unanswered(nat, Seq<(u32, Seq<char>)>),
}

pub open spec fn preview_views(v: Seq<(u32, String)>) -> Seq<(u32, Seq<char>)> {
    Seq::new(v.len(), |i: int| (v[i].0, v[i].1@))
}

impl View for TickRefusal {
    type V = RefusalModel;

    open spec fn view(&self) -> RefusalModel {
        match self {
            TickRefusal::RuleTripped { rule, touched } => RefusalModel::RuleTripped(
                rule@,
                string_views(touched@),
            ),
            TickRefusal::Unanswered { count, preview } => RefusalModel::Unanswered(
                *count as nat,
                preview_views(preview@),
            ),
        }
    }
}

/// The files that match `glob`, in order.
pub open spec fn tripped(files: Seq<Seq<char>>, glob: Seq<char>) -> Seq<Seq<char>>
    decreases files.len(),
{
    if files.len() == 0 {
        seq![]
    } else if glob_matches(files.last(), glob) {
        tripped(files.drop_last(), glob).push(files.last())
    } else {
        tripped(files.drop_last(), glob)
    }
}

pub open spec fn has_rule_question(qs: Seq<QuestionModel>, name: Seq<char>) -> bool {
    exists|k: int| 0 <= k < qs.len() && (#[trigger] qs[k]).rule == Some(name)
}

pub open spec fn rule_fails_at(rules: Seq<RuleModel>, qs: Seq<QuestionModel>, files: Seq<Seq<char>>) -> spec_fn(int) -> bool {
    |k: int| tripped(files, rules[k].glob).len() > 0 && !has_rule_question(qs, rules[k].name)
}

/// The unanswered questions, in order.
pub open spec fn unanswered(qs: Seq<QuestionModel>) -> Seq<QuestionModel>
    decreases qs.len(),
{
    if qs.len() == 0 {
        seq![]
    } else if qs.last().answered {
        unanswered(qs.drop_last())
    } else {
        unanswered(qs.drop_last()).push(qs.last())
    }
}

/// The first three items, or all when there are fewer.
pub open spec fn first3<A>(s: Seq<A>) -> Seq<A> {
    if s.len() < 3 {
        s
    } else {
        s.take(3)
    }
}

/// The rule floor applies when there are rules and the claim recorded a commit.
pub open spec fn floor_applies(rules: Seq<RuleModel>, commit: Option<Seq<char>>) -> bool {
    rules.len() > 0 && (commit matches Some(c) && c.len() > 0)
}

/// What `tick` decides: the first rule (in file order) that a touched file
/// trips without a question tagged with it; else the unanswered questions;
/// else the tick may go ahead.
pub open spec fn tick_check(
    rules: Seq<RuleModel>,
    qs: Seq<QuestionModel>,
    commit: Option<Seq<char>>,
    files: Seq<Seq<char>>,
) -> Result<(), RefusalModel> {
    let k = first_at(0, rules.len() as int, rule_fails_at(rules, qs, files));
    if floor_applies(rules, commit) && k < rules.len() {
        Err(RefusalModel::RuleTripped(rules[k].name, first3(tripped(files, rules[k].glob))))
    } else {
        let u = unanswered(qs);
        if u.len() > 0 {
            Err(
                RefusalModel::Unanswered(
                    u.len(),
                    Seq::new(
                        if u.len() < 3 {
                            u.len()
                        } else {
                            3
                        },
                        |i: int| (u[i].index, u[i].summary),
                    ),
                ),
            )
        } else {
            Ok(())
        }
    }
}

/// Whether the touched files are needed: there are rules and a start commit.
pub fn needs_touched_files(rules: &[PrincipleRule], start_commit: Option<&str>) -> (r: bool)
    ensures
        r == floor_applies(
            rule_views(rules@),
            match start_commit {
                Some(c) => Some(c@),
                None => None,
            },
        ),
{
    match start_commit {
        Some(c) => rules.len() > 0 && chars_of(c).len() > 0,
        None => false,
    }
}

fn tripped_exec(files: &[String], glob: &[char]) -> (r: Vec<String>)
    ensures
        string_views(r@) == tripped(string_views(files@), glob@),
{
    let ghost fv = string_views(files@);
    let mut out: Vec<String> = Vec::new();
    let mut i: usize = 0;
    assert(fv.take(0) =~= Seq::<Seq<char>>::empty());
    assert(string_views(out@) =~= Seq::<Seq<char>>::empty());
    while i < files.len()
        invariant
            i <= files@.len(),
            fv == string_views(files@),
            string_views(out@) == tripped(fv.take(i as int), glob@),
        decreases files.len() - i,
    {
        assert(fv.take(i + 1).drop_last() =~= fv.take(i as int));
        assert(fv.take(i + 1).last() == files@[i as int]@);
        if matches_glob_chars(&chars_of(files[i].as_str()), glob) {
            let ghost before = out@;
            out.push(files[i].clone());
            assert(string_views(out@) =~= string_views(before).push(files@[i as int]@));
        }
        i = i + 1;
    }
    assert(fv.take(files@.len() as int) =~= fv);
    out
}

fn has_rule_question_exec(qs: &[Question], name: &[char]) -> (r: bool)
    ensures
        r == has_rule_question(question_views(qs@), name@),
{
    let mut k: usize = 0;
    while k < qs.len()
        invariant
            k <= qs@.len(),
            forall|m: int| 0 <= m < k ==> question_views(qs@)[m].rule != Some(name@),
        decreases qs.len() - k,
    {
        assert(question_views(qs@)[k as int] == qs@[k as int]@);
        if let Some(r) = &qs[k].rule {
            if seq_eq(&chars_of(r.as_str()), name) {
                return true;
            }
        }
        k = k + 1;
    }
    false
}

/// Checks the rule floor and the answered status before a task is ticked.
/// `touched` (the files changed since `start_commit`) is read only when there
/// are rules and a non-empty start commit.
proof fn lemma_unanswered_found(qs: Seq<QuestionModel>, i: int)
    requires
        0 <= i < qs.len(),
        !qs[i].answered,
    ensures
        unanswered(qs).len() > 0,
    decreases qs.len(),
{
    if i < qs.len() - 1 {
        lemma_unanswered_found(qs.drop_last(), i);
    }
}

/// No task is ticked while one of its questions is pending: whatever the
/// rules, the start commit and the touched files, a pending question refuses
/// the tick, so a tick that goes ahead has every question answered.
pub proof fn law_pending_question_refuses_tick(
    rules: Seq<RuleModel>,
    qs: Seq<QuestionModel>,
    commit: Option<Seq<char>>,
    files: Seq<Seq<char>>,
)
    ensures
        (exists|i: int| 0 <= i < qs.len() && !(#[trigger] qs[i]).answered) ==> tick_check(
            rules,
            qs,
            commit,
            files,
        ) is Err,
        tick_check(rules, qs, commit, files) is Ok ==> forall|i: int|
            0 <= i < qs.len() ==> (#[trigger] qs[i]).answered,
{
    if exists|i: int| 0 <= i < qs.len() && !(#[trigger] qs[i]).answered {
        let i = choose|i: int| 0 <= i < qs.len() && !(#[trigger] qs[i]).answered;
        lemma_unanswered_found(qs, i);
    }
}

pub fn enforce_tick_gates(
    rules: &[PrincipleRule],
    questions: &[Question],
    start_commit: Option<&str>,
    touched: &[String],
) -> (r: Result<(), TickRefusal>)
    ensures
        match r {
            Ok(()) => tick_check(
                rule_views(rules@),
                question_views(questions@),
                match start_commit {
                    Some(c) => Some(c@),
                    None => None,
                },
                string_views(touched@),
            ) is Ok,
            Err(e) => tick_check(
                rule_views(rules@),
                question_views(questions@),
                match start_commit {
                    Some(c) => Some(c@),
                    None => None,
                },
                string_views(touched@),
            ) == Err::<(), RefusalModel>(e@),
        },
        r is Ok ==> forall|i: int| 0 <= i < questions@.len() ==> (#[trigger] questions@[i]).answered,
{
    proof {
        law_pending_question_refuses_tick(
            rule_views(rules@),
            question_views(questions@),
            match start_commit {
                Some(c) => Some(c@),
                None => None,
            },
            string_views(touched@),
        );
        assert forall|i: int| 0 <= i < questions@.len() implies question_views(questions@)[i]
            == (#[trigger] questions@[i])@ by {}
    }
    let ghost rv = rule_views(rules@);
    let ghost qv = question_views(questions@);
    let ghost fv = string_views(touched@);
    if needs_touched_files(rules, start_commit) {
        let mut k: usize = 0;
        while k < rules.len()
            invariant
                k <= rules@.len(),
                rv == rule_views(rules@),
                qv == question_views(questions@),
                fv == string_views(touched@),
                floor_applies(
                    rv,
                    match start_commit {
                        Some(c) => Some(c@),
                        None => None,
                    },
                ),
                forall|m: int| 0 <= m < k ==> !(#[trigger] rule_fails_at(rv, qv, fv)(m)),
            decreases rules.len() - k,
        {
            assert(rv[k as int] == rules@[k as int]@);
            let g = chars_of(rules[k].glob.as_str());
            let t = tripped_exec(touched, &g);
            if t.len() > 0 && !has_rule_question_exec(questions, &chars_of(rules[k].name.as_str())) {
                proof {
                    lemma_first_at_unique(0, rv.len() as int, rule_fails_at(rv, qv, fv), k as int);
                }
                let mut shown: Vec<String> = Vec::new();
                let mut j: usize = 0;
                while j < t.len() && j < 3
                    invariant
                        j <= t@.len(),
                        j <= 3,
                        shown@.len() == j,
                        forall|m: int| 0 <= m < j ==> (#[trigger] shown@[m])@ == t@[m]@,
                    decreases t.len() - j,
                {
                    shown.push(t[j].clone());
                    j = j + 1;
                }
                assert(string_views(shown@) =~= first3(string_views(t@)));
                return Err(TickRefusal::RuleTripped { rule: rules[k].name.clone(), touched: shown });
            }
            assert(!rule_fails_at(rv, qv, fv)(k as int));
            k = k + 1;
        }
        proof {
            lemma_first_at_unique(0, rv.len() as int, rule_fails_at(rv, qv, fv), rv.len() as int);
        }
    }
    let mut count: usize = 0;
    let mut preview: Vec<(u32, String)> = Vec::new();
    let mut i: usize = 0;
    assert(qv.take(0) =~= Seq::<QuestionModel>::empty());
    while i < questions.len()
        invariant
            i <= questions@.len(),
            qv == question_views(questions@),
            count == unanswered(qv.take(i as int)).len(),
            count <= i,
            preview@.len() == (if count < 3 {
                count
            } else {
                3
            }),
            forall|m: int|
                0 <= m < preview@.len() ==> (#[trigger] preview_views(preview@)[m]) == (
                unanswered(qv.take(i as int))[m].index,
                unanswered(qv.take(i as int))[m].summary,
            ),
        decreases questions.len() - i,
    {
        assert(qv.take(i + 1).drop_last() =~= qv.take(i as int));
        assert(qv.take(i + 1).last() == questions@[i as int]@);
        let ghost u0 = unanswered(qv.take(i as int));
        let ghost p0 = preview@;
        assert(qv[i as int] == questions@[i as int]@);
        if !questions[i].answered {
            if count < 3 {
                preview.push((questions[i].index, questions[i].summary.clone()));
            }
            count = count + 1;
            proof {
                let u1 = unanswered(qv.take(i + 1));
                assert(u1 == u0.push(qv[i as int]));
                assert forall|m: int| 0 <= m < preview@.len() implies (#[trigger] preview_views(
                    preview@,
                )[m]) == (u1[m].index, u1[m].summary) by {
                    if m < p0.len() {
                        assert(preview@[m] == p0[m]);
                        assert(preview_views(p0)[m] == (u0[m].index, u0[m].summary));
                        assert(u1[m] == u0[m]);
                    } else {
                        assert(m == u0.len());
                    }
                }
            }
        }
        i = i + 1;
    }
    assert(qv.take(questions@.len() as int) =~= qv);
    if count > 0 {
        proof {
            let u = unanswered(qv);
            assert(preview_views(preview@) =~= Seq::new(
                if u.len() < 3 {
                    u.len()
                } else {
                    3
                },
                |i: int| (u[i].index, u[i].summary),
            ));
        }
        return Err(TickRefusal::Unanswered { count, preview });
    }
    Ok(())
}

} // verus!

//! What `questions` prints for one task: a `[track/slug]` header, then each
//! question with its mark, number, rule and summary, its context wrapped below.
use vstd::prelude::*;

use crate::plan::string_views;
use crate::questions::{question_views, Question, QuestionModel};
use crate::text::{chars_of, decimal, decimal_exec, push_all, string_of};
use crate::wrap::{textwrap_simple, wrapped};

verus! {

/// `✓` for an answered question, `·` for an open one.
pub open spec fn answer_mark(answered: bool) -> char {
    if answered {
        '\u{2713}'
    } else {
        '\u{b7}'
    }
}

/// `  <mark> Q<n> (<rule>): <summary>`, the rule part only when there is one.
pub open spec fn summary_line(q: QuestionModel) -> Seq<char> {
    seq![' ', ' ', answer_mark(q.answered), ' ', 'Q'] + decimal(q.index as nat) + match q.rule {
        Some(r) => seq![' ', '('] + r + seq![')'],
        None => seq![],
    } + seq![':', ' '] + q.summary
}

pub open spec fn indent6() -> Seq<char> {
    seq![' ', ' ', ' ', ' ', ' ', ' ']
}

/// The context wrapped at 72 columns, each line indented by six spaces;
/// nothing for an empty context.
pub open spec fn context_lines(ctx: Seq<char>) -> Seq<Seq<char>> {
    if ctx.len() == 0 {
        seq![]
    } else {
        let ws = wrapped(ctx, 72);
        Seq::new(ws.len(), |i: int| indent6() + ws[i])
    }
}

pub open spec fn question_entry(q: QuestionModel) -> Seq<Seq<char>> {
    seq![summary_line(q)] + context_lines(q.context)
}

pub open spec fn entries(qs: Seq<QuestionModel>) -> Seq<Seq<char>>
    decreases qs.len(),
{
    if qs.len() == 0 {
        seq![]
    } else {
        entries(qs.drop_last()) + question_entry(qs.last())
    }
}

/// The lines listed for a task's questions: nothing when it has none, else
/// `[track/slug]` and the entry of each question in order.
pub open spec fn task_listing(track: Seq<char>, slug: Seq<char>, qs: Seq<QuestionModel>) -> Seq<
    Seq<char>,
> {
    if qs.len() == 0 {
        seq![]
    } else {
        seq![seq!['['] + track + seq!['/'] + slug + seq![']']] + entries(qs)
    }
}

/// How many of `qs` are unanswered.
pub open spec fn unanswered_count(qs: Seq<QuestionModel>) -> nat
    decreases qs.len(),
{
    if qs.len() == 0 {
        0
    } else {
        unanswered_count(qs.drop_last()) + if qs.last().answered {
            0nat
        } else {
            1nat
        }
    }
}

proof fn lemma_unanswered_le(qs: Seq<QuestionModel>)
    ensures
        unanswered_count(qs) <= qs.len(),
    decreases qs.len(),
{
    if qs.len() > 0 {
        lemma_unanswered_le(qs.drop_last());
    }
}

fn summary_line_exec(q: &Question) -> (r: String)
    ensures
        r@ == summary_line(q@),
{
    let mut v: Vec<char> = Vec::new();
    v.push(' ');
    v.push(' ');
    v.push(if q.answered {
        '\u{2713}'
    } else {
        '\u{b7}'
    });
    v.push(' ');
    v.push('Q');
    let digits = decimal_exec(q.index as u64);
    push_all(&mut v, &digits);
    let ghost before_rule = v@;
    match &q.rule {
        Some(r) => {
            v.push(' ');
            v.push('(');
            push_all(&mut v, &chars_of(r.as_str()));
            v.push(')');
            assert(v@ =~= before_rule + (seq![' ', '('] + r@ + seq![')']));
        },
        None => {
            assert(v@ =~= before_rule + Seq::<char>::empty());
        },
    }
    v.push(':');
    v.push(' ');
    push_all(&mut v, &chars_of(q.summary.as_str()));
    assert(v@ =~= summary_line(q@));
    string_of(&v)
}

/// Adds the entry of one question to `out`.
fn push_entry(out: &mut Vec<String>, q: &Question)
    ensures
        string_views(final(out)@) == string_views(old(out)@) + question_entry(q@),
{
    let ghost start = string_views(out@);
    out.push(summary_line_exec(q));
    assert(string_views(out@) =~= start + seq![summary_line(q@)]);
    let ctx = chars_of(q.context.as_str());
    if ctx.len() == 0 {
        assert(string_views(out@) =~= start + question_entry(q@));
        return;
    }
    let ws = textwrap_simple(q.context.as_str(), 72);
    let ghost wv = wrapped(q@.context, 72);
    assert(q@.context.len() > 0);
    let ghost mid = string_views(out@);
    let mut j: usize = 0;
    while j < ws.len()
        invariant
            j <= ws@.len(),
            string_views(ws@) == wv,
            string_views(out@) == mid + Seq::new(j as nat, |i: int| indent6() + wv[i]),
        decreases ws.len() - j,
    {
        let mut v: Vec<char> = vec![' ', ' ', ' ', ' ', ' ', ' '];
        assert(v@ =~= indent6());
        push_all(&mut v, &chars_of(ws[j].as_str()));
        assert(ws@[j as int]@ == wv[j as int]);
        let ghost before = string_views(out@);
        out.push(string_of(&v));
        assert(string_views(out@) =~= before.push(indent6() + wv[j as int]));
        assert(string_views(out@) =~= mid + Seq::new((j + 1) as nat, |i: int| indent6() + wv[i]));
        j = j + 1;
    }
    assert(string_views(out@) =~= start + question_entry(q@));
}

/// The lines that `questions` prints for the task `slug` of `track`, and how
/// many of its questions are unanswered.
pub fn questions_listing(track: &str, slug: &str, qs: &[Question]) -> (r: (Vec<String>, usize))
    ensures
        string_views(r.0@) == task_listing(track@, slug@, question_views(qs@)),
        r.1 == unanswered_count(question_views(qs@)),
{
    let ghost qv = question_views(qs@);
    let mut out: Vec<String> = Vec::new();
    if qs.len() == 0 {
        assert(string_views(out@) =~= Seq::<Seq<char>>::empty());
        return (out, 0);
    }
    let mut h: Vec<char> = Vec::new();
    h.push('[');
    push_all(&mut h, &chars_of(track));
    h.push('/');
    push_all(&mut h, &chars_of(slug));
    h.push(']');
    assert(h@ =~= seq!['['] + track@ + seq!['/'] + slug@ + seq![']']);
    out.push(string_of(&h));
    let ghost head = seq![seq!['['] + track@ + seq!['/'] + slug@ + seq![']']];
    assert(string_views(out@) =~= head);
    let mut open: usize = 0;
    let mut i: usize = 0;
    while i < qs.len()
        invariant
            i <= qs@.len(),
            qv == question_views(qs@),
            string_views(out@) == head + entries(qv.take(i as int)),
            open == unanswered_count(qv.take(i as int)),
        decreases qs.len() - i,
    {
        assert(qv.take(i + 1).drop_last() =~= qv.take(i as int));
        assert(qv.take(i + 1).last() == qs@[i as int]@);
        proof {
            lemma_unanswered_le(qv.take(i as int));
        }
        push_entry(&mut out, &qs[i]);
        assert(string_views(out@) =~= head + entries(qv.take(i + 1)));
        if !qs[i].answered {
            open = open + 1;
        }
        i = i + 1;
    }
    assert(qv.take(qs@.len() as int) =~= qv);
    (out, open)
}

/// The line that closes the listing: `No open questions.` when there were
/// none, else a blank line and the totals.
pub open spec fn footer_text(total: nat, open: nat) -> Seq<char> {
    if total == 0 {
        "No open questions."@
    } else {
        seq!['\n'] + decimal(total) + " question(s) total, "@ + decimal(open) + " unanswered."@
    }
}

pub fn questions_footer(total: u64, open: u64) -> (r: String)
    ensures
        r@ == footer_text(total as nat, open as nat),
{
    if total == 0 {
        return string_of(&chars_of("No open questions."));
    }
    let mut v: Vec<char> = Vec::new();
    v.push('\n');
    push_all(&mut v, &decimal_exec(total));
    push_all(&mut v, &chars_of(" question(s) total, "));
    push_all(&mut v, &decimal_exec(open));
    push_all(&mut v, &chars_of(" unanswered."));
    assert(v@ =~= footer_text(total as nat, open as nat));
    string_of(&v)
}

} // verus!

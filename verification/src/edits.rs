//! The edits that `tick`, `untick` and `rename` make to a plan's lines.
use vstd::prelude::*;

use crate::plan::{
    depends_tag, depends_tag_spaced, done_box, done_box_exec, open_box, open_box_exec,
    string_views, task_views, Task, TaskModel,
};
use crate::plan::{bold_slug, checkbox, depends_of, stars, trimmed_nonempty};
use crate::plan::{
    estimate_of, first_unknown, has_unknown_at, is_slug_of, parse_plan, scan_line, scan_lines,
    two_spaces, unknown_at, unknown_dependency, with_more_description, PlanFault,
};
use crate::text::{
    char_is, has_char, lemma_join_avoids, lemma_split_avoids, lemma_join_first, lemma_split_joined, lemma_split_pieces, lemma_split_prefix,
    lemma_trim_end, lemma_trim_skip_ws, lemma_trim_start, lemma_trim_trim, not_ws_at,
    chars_of, find_char, find_char_exec, find_sub, find_sub_exec, first_at, is_ws, join,
    join_exec, lemma_find_char, lemma_find_sub, lemma_first_at_unique, push_all, replace_all,
    replace_all_exec, seq_eq, split_char, split_char_exec, starts_with, starts_with_exec,
    string_of, strip_all_prefix, strip_all_prefix_exec, sub_vec, trim, trim_exec, trim_start,
    trim_start_exec, views,
};
use crate::text::{bare_line, lemma_first_at, lemma_lines_of_joined, lines};

verus! {

// ---------------------------------------------------------------------------
// Ticking
// ---------------------------------------------------------------------------

/// The line with its first `from` box replaced by `to`; `None` when it has no
/// such box.
pub open spec fn swap_box(line: Seq<char>, from: Seq<char>, to: Seq<char>) -> Option<Seq<char>> {
    match find_sub(line, from) {
        Some(i) => Some(line.take(i) + to + line.skip(i + from.len())),
        None => None,
    }
}

/// `tick` turns the first `- [ ]` into `- [x]`; `untick` does the reverse.
pub open spec fn ticked_line(line: Seq<char>, done: bool) -> Option<Seq<char>> {
    if done {
        swap_box(line, open_box(), done_box())
    } else {
        swap_box(line, done_box(), open_box())
    }
}

/// The task line after ticking (`done`) or unticking it; `None` when it is
/// already in that state (no box to flip).
pub fn tick_line(line: &str, done: bool) -> (r: Option<String>)
    ensures
        match r {
            Some(t) => ticked_line(line@, done) == Some(t@),
            None => ticked_line(line@, done) is None,
        },
{
    let v = chars_of(line);
    let (from, to) = if done {
        (open_box_exec(), done_box_exec())
    } else {
        (done_box_exec(), open_box_exec())
    };
    proof {
        lemma_find_sub(v@, from@);
    }
    match find_sub_exec(&v, &from) {
        Some(i) => {
            let n = v.len();
            assert(i + 5 <= n);
            let mut r = sub_vec(&v, 0, i);
            push_all(&mut r, &to);
            let rest = sub_vec(&v, i + 5, n);
            assert(rest@ =~= v@.skip(i + 5));
            push_all(&mut r, &rest);
            Some(string_of(&r))
        },
        None => None,
    }
}

/// The text of `plan.md` for its lines: joined by newlines, with a final one.
pub open spec fn plan_text(ls: Seq<Seq<char>>) -> Seq<char> {
    join(ls, seq!['\n']).push('\n')
}

pub fn render_plan(lines: &[String]) -> (r: String)
    ensures
        r@ == plan_text(string_views(lines@)),
{
    let mut cs: Vec<Vec<char>> = Vec::new();
    let mut i: usize = 0;
    while i < lines.len()
        invariant
            i <= lines@.len(),
            cs@.len() == i,
            forall|k: int| 0 <= k < i ==> (#[trigger] cs@[k])@ == lines@[k]@,
        decreases lines.len() - i,
    {
        cs.push(chars_of(lines[i].as_str()));
        i = i + 1;
    }
    assert(views(cs@) =~= string_views(lines@));
    let nl = vec!['\n'];
    assert(nl@ =~= seq!['\n']);
    let mut body = join_exec(&cs, &nl);
    body.push('\n');
    string_of(&body)
}

pub open spec fn slug_is(ts: Seq<TaskModel>, slug: Seq<char>) -> spec_fn(int) -> bool {
    |k: int| ts[k].slug == slug
}

/// The first task with the slug `slug`.
pub open spec fn first_task(ts: Seq<TaskModel>, slug: Seq<char>) -> Option<int> {
    let k = first_at(0, ts.len() as int, slug_is(ts, slug));
    if k < ts.len() {
        Some(k)
    } else {
        None
    }
}

/// The first task with the slug `slug`.
pub fn find_task(tasks: &[Task], slug: &str) -> (r: Option<usize>)
    ensures
        match r {
            Some(k) => first_task(task_views(tasks@), slug@) == Some(k as int),
            None => first_task(task_views(tasks@), slug@) is None,
        },
{
    let ghost ts = task_views(tasks@);
    let sv = chars_of(slug);
    let mut k: usize = 0;
    while k < tasks.len()
        invariant
            k <= tasks@.len(),
            ts == task_views(tasks@),
            sv@ == slug@,
            forall|m: int| 0 <= m < k ==> !(#[trigger] slug_is(ts, slug@)(m)),
        decreases tasks.len() - k,
    {
        assert(ts[k as int] == tasks@[k as int]@);
        if seq_eq(&chars_of(tasks[k].slug.as_str()), &sv) {
            proof {
                lemma_first_at_unique(0, ts.len() as int, slug_is(ts, slug@), k as int);
            }
            return Some(k);
        }
        k = k + 1;
    }
    proof {
        lemma_first_at_unique(0, ts.len() as int, slug_is(ts, slug@), ts.len() as int);
    }
    None
}

// ---------------------------------------------------------------------------
// Renaming
// ---------------------------------------------------------------------------

/// One comma-separated token of a `[depends: ...]` list after renaming `old`
/// to `new`; the first token keeps its `[depends: ` head.
pub open spec fn dep_token(tok: Seq<char>, old: Seq<char>, new: Seq<char>) -> Seq<char> {
    let trimmed = trim(strip_all_prefix(tok, depends_tag()));
    let prefix = if starts_with(trim_start(tok), depends_tag()) {
        depends_tag_spaced()
    } else {
        seq![]
    };
    prefix + if trimmed == old {
        new
    } else {
        trimmed
    }
}

pub open spec fn comma_space() -> Seq<char> {
    seq![',', ' ']
}

/// The line with `old` renamed to `new` inside its first `[depends: ... ]`.
pub open spec fn rewritten_depends(line: Seq<char>, old: Seq<char>, new: Seq<char>) -> Seq<char> {
    match find_sub(line, depends_tag()) {
        None => line,
        Some(i) => {
            let after = line.skip(i);
            match find_char(after, ']') {
                None => line,
                Some(j) => {
                    let toks = split_char(after.take(j), ',');
                    let updated = join(
                        Seq::new(toks.len(), |k: int| dep_token(toks[k], old, new)),
                        comma_space(),
                    );
                    line.take(i) + updated + line.skip(i + j)
                },
            }
        },
    }
}

fn dep_token_exec(tok: &[char], old: &[char], new: &[char]) -> (r: Vec<char>)
    ensures
        r@ == dep_token(tok@, old@, new@),
{
    let tag = crate::plan::depends_tag_exec();
    let trimmed = trim_exec(&strip_all_prefix_exec(tok, &tag));
    let mut r: Vec<char> = Vec::new();
    if starts_with_exec(&trim_start_exec(tok), &tag) {
        push_all(&mut r, &tag);
        r.push(' ');
    }
    if seq_eq(&trimmed, old) {
        push_all(&mut r, new);
    } else {
        push_all(&mut r, &trimmed);
    }
    assert(r@ =~= dep_token(tok@, old@, new@));
    r
}

pub fn rewrite_depends_chars(line: &[char], old: &[char], new: &[char]) -> (r: Vec<char>)
    ensures
        r@ == rewritten_depends(line@, old@, new@),
{
    let tag = crate::plan::depends_tag_exec();
    let i = match find_sub_exec(line, &tag) {
        None => return sub_vec(line, 0, line.len()),
        Some(i) => i,
    };
    proof {
        lemma_find_sub(line@, depends_tag());
    }
    let after = sub_vec(line, i, line.len());
    assert(after@ =~= line@.skip(i as int));
    let j = match find_char_exec(&after, ']') {
        None => {
            let r = sub_vec(line, 0, line.len());
            assert(r@ =~= line@);
            return r;
        },
        Some(j) => j,
    };
    proof {
        lemma_find_char(after@, ']');
    }
    let inner = sub_vec(&after, 0, j);
    assert(inner@ =~= after@.take(j as int));
    let toks = split_char_exec(&inner, ',');
    let mut mapped: Vec<Vec<char>> = Vec::new();
    let mut k: usize = 0;
    while k < toks.len()
        invariant
            k <= toks@.len(),
            mapped@.len() == k,
            forall|m: int| 0 <= m < k ==> (#[trigger] mapped@[m])@ == dep_token(toks@[m]@, old@, new@),
        decreases toks.len() - k,
    {
        mapped.push(dep_token_exec(&toks[k], old, new));
        k = k + 1;
    }
    let ghost tv = views(toks@);
    assert(views(mapped@) =~= Seq::new(tv.len(), |m: int| dep_token(tv[m], old@, new@)));
    let cs = vec![',', ' '];
    assert(cs@ =~= comma_space());
    let updated = join_exec(&mapped, &cs);
    let mut r = sub_vec(line, 0, i);
    push_all(&mut r, &updated);
    let n = line.len();
    let rest = sub_vec(line, i + j, n);
    assert(rest@ =~= line@.skip(i + j));
    push_all(&mut r, &rest);
    r
}

/// Renames `old` to `new` in the `[depends: ...]` list of a line.
pub fn rewrite_depends(line: &str, old: &str, new: &str) -> (r: String)
    ensures
        r@ == rewritten_depends(line@, old@, new@),
{
    let r = rewrite_depends_chars(&chars_of(line), &chars_of(old), &chars_of(new));
    string_of(&r)
}

pub open spec fn bold(s: Seq<char>) -> Seq<char> {
    seq!['*', '*'] + s + seq!['*', '*']
}

/// A plan line after renaming the task `old` to `new`: every `**old**` becomes
/// `**new**`, then `old` is renamed in the line's dependency list.
pub open spec fn renamed_line(line: Seq<char>, old: Seq<char>, new: Seq<char>) -> Seq<char> {
    rewritten_depends(replace_all(line, bold(old), bold(new)), old, new)
}

fn bold_exec(s: &[char]) -> (r: Vec<char>)
    ensures
        r@ == bold(s@),
{
    let mut r: Vec<char> = Vec::new();
    r.push('*');
    r.push('*');
    push_all(&mut r, s);
    r.push('*');
    r.push('*');
    assert(r@ =~= bold(s@));
    r
}

/// The plan line after renaming the task `old` to `new`.
pub fn rename_line(line: &str, old: &str, new: &str) -> (r: String)
    ensures
        r@ == renamed_line(line@, old@, new@),
{
    let o = chars_of(old);
    let n = chars_of(new);
    let replaced = replace_all_exec(&chars_of(line), &bold_exec(&o), &bold_exec(&n));
    string_of(&rewrite_depends_chars(&replaced, &o, &n))
}

/// The names with `old` renamed to `new`.
pub open spec fn renamed_deps(ds: Seq<Seq<char>>, old: Seq<char>, new: Seq<char>) -> Seq<Seq<char>> {
    Seq::new(ds.len(), |k: int| if ds[k] == old { new } else { ds[k] })
}

/// A dependency list in which no name starts with `[depends:` again.
pub open spec fn plain_depends(line: Seq<char>) -> bool {
    match find_sub(line, depends_tag()) {
        None => true,
        Some(i) => {
            let rest = line.skip(i + 9);
            match find_char(rest, ']') {
                None => true,
                Some(j) => {
                    let ps = split_char(rest.take(j), ',');
                    &&& !starts_with(ps[0], depends_tag())
                    &&& forall|k: int|
                        1 <= k < ps.len() ==> !starts_with(
                            trim_start(#[trigger] ps[k]),
                            depends_tag(),
                        )
                },
            }
        },
    }
}

proof fn lemma_trimmed_renamed(a: Seq<Seq<char>>, b: Seq<Seq<char>>, old: Seq<char>, new: Seq<char>)
    requires
        a.len() == b.len(),
        old.len() > 0,
        new.len() > 0,
        forall|k: int|
            0 <= k < a.len() ==> trim(#[trigger] b[k]) == (if trim(a[k]) == old {
                new
            } else {
                trim(a[k])
            }),
    ensures
        trimmed_nonempty(b) == renamed_deps(trimmed_nonempty(a), old, new),
    decreases a.len(),
{
    if a.len() > 0 {
        let a2 = a.drop_last();
        let b2 = b.drop_last();
        assert forall|k: int| 0 <= k < a2.len() implies trim(#[trigger] b2[k]) == (if trim(a2[k])
            == old {
            new
        } else {
            trim(a2[k])
        }) by {
            assert(a2[k] == a[k] && b2[k] == b[k]);
        }
        lemma_trimmed_renamed(a2, b2, old, new);
        assert(trim(b.last()) == trim(b[b.len() - 1]));
        assert(trim(a.last()) == trim(a[a.len() - 1]));
        let ra = trimmed_nonempty(a2);
        if trim(a.last()).len() > 0 {
            assert(renamed_deps(ra.push(trim(a.last())), old, new) =~= renamed_deps(ra, old, new).push(
                trim(b.last()),
            ));
        }
    }
}

proof fn lemma_not_tagged(p: Seq<char>)
    requires
        !starts_with(trim_start(p), depends_tag()),
    ensures
        !starts_with(p, depends_tag()),
{
    if starts_with(p, depends_tag()) {
        assert(p[0] == p.take(9)[0]);
        assert(!is_ws(p[0]));
        assert(not_ws_at(p)(0));
        lemma_first_at_unique(0, p.len() as int, not_ws_at(p), 0);
        assert(p.skip(0) =~= p);
    }
}

proof fn lemma_trim_within(q: Seq<char>, c: char)
    requires
        !has_char(q, c),
    ensures
        !has_char(trim(q), c),
{
    let t = trim(q);
    lemma_trim_start(q);
    lemma_trim_end(trim_start(q));
    if has_char(t, c) {
        let x = choose|x: int| 0 <= x < t.len() && t[x] == c;
        assert(t[x] == trim_start(q)[x]);
        assert(trim_start(q)[x] == q[q.len() - trim_start(q).len() + x]);
    }
}

/// Each piece trimmed, `old` renamed to `new`.
pub open spec fn renamed_names(ps: Seq<Seq<char>>, old: Seq<char>, new: Seq<char>) -> Seq<Seq<char>> {
    Seq::new(ps.len(), |k: int| if trim(ps[k]) == old { new } else { trim(ps[k]) })
}

/// The rewritten tokens: the first keeps its `[depends: ` head.
proof fn lemma_dep_tokens(ps: Seq<Seq<char>>, old: Seq<char>, new: Seq<char>)
    requires
        ps.len() > 0,
        !starts_with(ps[0], depends_tag()),
        forall|k: int| 1 <= k < ps.len() ==> !starts_with(trim_start(#[trigger] ps[k]), depends_tag()),
    ensures
        ({
            let toks = seq![depends_tag() + ps[0]] + ps.skip(1);
            let xs = renamed_names(ps, old, new);
            Seq::new(toks.len(), |k: int| dep_token(toks[k], old, new)) == xs.update(
                0,
                (depends_tag() + seq![' ']) + xs[0],
            )
        }),
{
    let tag = depends_tag();
    let toks = seq![tag + ps[0]] + ps.skip(1);
    let xs = renamed_names(ps, old, new);
    let ds = Seq::new(toks.len(), |k: int| dep_token(toks[k], old, new));
    let t0 = toks[0];
    assert(t0 == tag + ps[0]);
    assert(t0.take(9) =~= tag);
    assert(!is_ws(t0[0]));
    assert(not_ws_at(t0)(0));
    lemma_first_at_unique(0, t0.len() as int, not_ws_at(t0), 0);
    assert(trim_start(t0) =~= t0);
    assert(t0.skip(9) =~= ps[0]);
    assert(strip_all_prefix(t0, tag) == strip_all_prefix(ps[0], tag));
    assert(tag.push(' ') =~= tag + seq![' ']);
    assert(ds[0] == (tag + seq![' ']) + xs[0]);
    assert forall|k: int| 1 <= k < ds.len() implies #[trigger] ds[k] == xs[k] by {
        assert(toks[k] == ps[k]);
        lemma_not_tagged(ps[k]);
        assert(strip_all_prefix(ps[k], tag) == ps[k]);
    }
    assert(ds =~= xs.update(0, (tag + seq![' ']) + xs[0]));
}

/// A line that agrees with `line` up to the end of `line`'s first tag at `i`
/// has its first tag there too.
proof fn lemma_tag_kept(line: Seq<char>, nl: Seq<char>, i: int)
    requires
        find_sub(line, depends_tag()) == Some(i),
        i + 9 <= nl.len(),
        nl.take(i + 9) == line.take(i + 9),
    ensures
        find_sub(nl, depends_tag()) == Some(i),
{
    let tag = depends_tag();
    lemma_find_sub(line, tag);
    assert forall|k: int| 0 <= k < i implies !#[trigger] crate::text::sub_at(nl, tag)(k) by {
        assert(nl.subrange(k, k + 9) =~= line.subrange(k, k + 9)) by {
            assert forall|x: int| 0 <= x < 9 implies #[trigger] nl.subrange(k, k + 9)[x] == line.subrange(k, k + 9)[x] by {
                assert(nl.subrange(k, k + 9)[x] == nl[k + x]);
                assert(line.subrange(k, k + 9)[x] == line[k + x]);
                assert(nl.take(i + 9)[k + x] == nl[k + x]);
                assert(line.take(i + 9)[k + x] == line[k + x]);
            }
        }
    }
    assert(crate::text::sub_at(nl, tag)(i)) by {
        assert(nl.subrange(i, i + 9) =~= line.subrange(i, i + 9)) by {
            assert forall|x: int| 0 <= x < 9 implies #[trigger] nl.subrange(i, i + 9)[x] == line.subrange(i, i + 9)[x] by {
                assert(nl.subrange(i, i + 9)[x] == nl[i + x]);
                assert(line.subrange(i, i + 9)[x] == line[i + x]);
                assert(nl.take(i + 9)[i + x] == nl[i + x]);
                assert(line.take(i + 9)[i + x] == line[i + x]);
            }
        }
    }
    lemma_first_at_unique(0, nl.len() - tag.len() + 1, crate::text::sub_at(nl, tag), i);
}

/// The names after `[depends:` in the rewritten line.
proof fn lemma_new_names(ps: Seq<Seq<char>>, r0: Seq<char>, old: Seq<char>, new: Seq<char>, tail: Seq<char>)
    requires
        ps == split_char(r0, ','),
        !has_char(r0, ']'),
        old.len() > 0,
        new.len() > 0,
        trim(new) == new,
        !has_char(new, ','),
        !has_char(new, ']'),
        tail.len() > 0,
        tail[0] == ']',
    ensures
        ({
            let xs = renamed_names(ps, old, new);
            let rest2 = seq![' '] + join(xs, comma_space()) + tail;
            match find_char(rest2, ']') {
                Some(j2) => trimmed_nonempty(split_char(rest2.take(j2), ',')) == renamed_deps(
                    trimmed_nonempty(ps),
                    old,
                    new,
                ),
                None => false,
            }
        }),
{
    let xs = renamed_names(ps, old, new);
    let sp = seq![' '];
    let sep = comma_space();
    let jn = sp + join(xs, sep);
    let rest2 = jn + tail;
    lemma_split_pieces(r0, ',');
    lemma_split_avoids(r0, ',', ']');
    assert forall|k: int| 0 <= k < xs.len() implies !has_char(#[trigger] xs[k], ',') && !has_char(
        xs[k],
        ']',
    ) && trim(xs[k]) == xs[k] by {
        lemma_trim_within(ps[k], ',');
        lemma_trim_within(ps[k], ']');
        lemma_trim_trim(ps[k]);
    }
    assert(!has_char(jn, ']')) by {
        lemma_join_avoids(xs, sep, ']');
        if has_char(jn, ']') {
            let y = choose|y: int| 0 <= y < jn.len() && jn[y] == ']';
            assert(jn[y] == join(xs, sep)[y - 1]);
        }
    }
    assert forall|k: int| 0 <= k < jn.len() implies !#[trigger] char_is(rest2, ']')(k) by {
        assert(rest2[k] == jn[k]);
    }
    assert(char_is(rest2, ']')(jn.len() as int));
    lemma_first_at_unique(0, rest2.len() as int, char_is(rest2, ']'), jn.len() as int);
    assert(rest2.take(jn.len() as int) =~= jn);
    assert(!has_char(sp, ','));
    assert(sep == seq![',', ' ']);
    lemma_split_joined(sp, xs);
    let pieces = split_char(jn, ',');
    assert(pieces.len() == ps.len());
    assert forall|k: int| 0 <= k < ps.len() implies trim(#[trigger] pieces[k]) == (if trim(ps[k])
        == old {
        new
    } else {
        trim(ps[k])
    }) by {
        assert(pieces[k] == sp + xs[k]);
        lemma_trim_skip_ws(sp + xs[k]);
        assert((sp + xs[k]).skip(1) =~= xs[k]);
    }
    lemma_trimmed_renamed(ps, pieces, old, new);
}

/// Renaming in a line's dependency list renames exactly the dependency `old`:
/// the list read from the rewritten line is the old list with `old` replaced
/// by `new`. This holds for non-empty names where `new` is trimmed and holds
/// no `,` or `]`, and in lists where no name starts with `[depends:` again.
pub proof fn law_rename_dependency(line: Seq<char>, old: Seq<char>, new: Seq<char>)
    requires
        old.len() > 0,
        new.len() > 0,
        trim(new) == new,
        !has_char(new, ','),
        !has_char(new, ']'),
        plain_depends(line),
    ensures
        depends_of(rewritten_depends(line, old, new)) == renamed_deps(depends_of(line), old, new),
{
    let tag = depends_tag();
    lemma_find_sub(line, tag);
    match find_sub(line, tag) {
        None => {},
        Some(i) => {
            let after = line.skip(i);
            let rest = line.skip(i + 9);
            assert(after.take(9) =~= tag) by {
                assert(line.subrange(i, i + 9) == tag);
            }
            assert(rest =~= after.skip(9));
            lemma_find_char(after, ']');
            lemma_find_char(rest, ']');
            match find_char(after, ']') {
                None => {
                    if find_char(rest, ']') is Some {
                        let jr = find_char(rest, ']')->0;
                        assert(after[jr + 9] == rest[jr]);
                    }
                },
                Some(j) => {
                    assert(j >= 9) by {
                        if j < 9 {
                            assert(after[j] == after.take(9)[j]);
                        }
                    }
                    assert forall|k: int| 0 <= k < j - 9 implies !#[trigger] char_is(rest, ']')(k) by {
                        assert(rest[k] == after[k + 9]);
                    }
                    assert(char_is(rest, ']')(j - 9));
                    lemma_first_at_unique(0, rest.len() as int, char_is(rest, ']'), j - 9);
                    let r0 = rest.take(j - 9);
                    let ps = split_char(r0, ',');
                    lemma_split_pieces(r0, ',');
                    let inner = after.take(j);
                    assert(inner =~= tag + r0);
                    lemma_split_prefix(tag, r0, ',');
                    let toks = split_char(inner, ',');
                    assert(toks == seq![tag + ps[0]] + ps.skip(1));
                    lemma_dep_tokens(ps, old, new);
                    let xs = renamed_names(ps, old, new);
                    let sp = seq![' '];
                    let sep = comma_space();
                    lemma_join_first(xs, tag + sp, sep);
                    let u = join(Seq::new(toks.len(), |k: int| dep_token(toks[k], old, new)), sep);
                    assert(u == (tag + sp) + join(xs, sep));
                    let nl = rewritten_depends(line, old, new);
                    assert(nl == line.take(i) + u + line.skip(i + j));
                    let tail = line.skip(i + j);
                    let jn = sp + join(xs, sep);
                    assert(nl =~= line.take(i + 9) + (jn + tail)) by {
                        assert(line.take(i + 9) =~= line.take(i) + tag);
                    }
                    assert(nl.take(i + 9) =~= line.take(i + 9));
                    lemma_tag_kept(line, nl, i);
                    assert(nl.skip(i + 9) =~= jn + tail);
                    assert(tail[0] == after[j]);
                    assert(!has_char(r0, ']')) by {
                        if has_char(r0, ']') {
                            let y = choose|y: int| 0 <= y < r0.len() && r0[y] == ']';
                            assert(!char_is(rest, ']')(y));
                        }
                    }
                    lemma_new_names(ps, r0, old, new, tail);
                    assert(jn + tail =~= sp + join(xs, sep) + tail);
                },
            }
        },
    }
}

/// The slug that a task line carries, if it is a task line with one.
pub open spec fn line_slug(line: Seq<char>) -> Option<Seq<char>> {
    let t = trim_start(line);
    match checkbox(t) {
        None => None,
        Some(_) => match bold_slug(trim_start(t.skip(5))) {
            Some(p) => Some(p.0),
            None => None,
        },
    }
}

/// A slug that reads back from `**slug**`: no `**` in it, no `*` at its end,
/// and no `[`.
pub open spec fn plain_slug(s: Seq<char>) -> bool {
    &&& forall|q: int| 0 <= q < s.len() - 1 ==> !(#[trigger] s[q] == '*' && s[q + 1] == '*')
    &&& !(s.len() > 0 && s.last() == '*')
    &&& !has_char(s, '[')
}

/// Where a task line's `**slug**` starts: after the indentation, the box and
/// the spaces that follow it.
proof fn lemma_slug_position(line: Seq<char>)
    requires
        line_slug(line) is Some,
    ensures
        exists|w: int, p: int|
            0 <= w && w + 5 <= p < line.len() && trim_start(line) == line.skip(w) && (forall|q: int|
                0 <= q < w ==> is_ws(#[trigger] line[q])) && !is_ws(line[w]) && checkbox(
                line.skip(w),
            ) is Some && (forall|q: int| w + 5 <= q < p ==> is_ws(#[trigger] line[q])) && trim_start(
                line.skip(w).skip(5),
            ) == line.skip(p) && !is_ws(line[p]),
{
    let t = trim_start(line);
    lemma_trim_start(line);
    let w = line.len() - t.len();
    assert(t =~= line.skip(w));
    assert(starts_with(t, done_box()) || starts_with(t, open_box()));
    assert(t.len() >= 5);
    assert(t[0] == t.take(5)[0]);
    let u = t.skip(5);
    lemma_trim_start(u);
    let tu = trim_start(u);
    let p = w + 5 + (u.len() - tu.len());
    assert(tu =~= line.skip(p));
    assert(bold_slug(tu) is Some);
    assert(tu.len() >= 2) by {
        assert(starts_with(tu, stars()));
    }
    assert(tu[0] == '*') by {
        assert(tu.take(2)[0] == tu[0]);
    }
    assert forall|q: int| w + 5 <= q < p implies is_ws(#[trigger] line[q]) by {
        assert(line[q] == u[q - w - 5]);
    }
    assert(!is_ws(line[w])) by {
        assert(line[w] == t[0]);
    }
}

proof fn lemma_first_bold(line: Seq<char>, p: int, old: Seq<char>, new: Seq<char>)
    requires
        0 <= p,
        p + bold(old).len() <= line.len(),
        line.subrange(p, p + bold(old).len()) == bold(old),
        forall|q: int| 0 <= q < p ==> #[trigger] line[q] != '*',
    ensures
        replace_all(line, bold(old), bold(new)) == line.take(p) + bold(new) + replace_all(
            line.skip(p + bold(old).len()),
            bold(old),
            bold(new),
        ),
{
    let bo = bold(old);
    lemma_find_sub(line, bo);
    assert forall|q: int| 0 <= q < p implies !#[trigger] crate::text::sub_at(line, bo)(q) by {
        if crate::text::sub_at(line, bo)(q) {
            assert(line.subrange(q, q + bo.len())[0] == line[q]);
        }
    }
    lemma_first_at_unique(0, line.len() - bo.len() + 1, crate::text::sub_at(line, bo), p);
}

proof fn lemma_depends_later(l1: Seq<char>, m: int, old: Seq<char>, new: Seq<char>)
    requires
        0 <= m <= l1.len(),
        forall|i: int| 0 <= i < m && i + 9 <= l1.len() ==> !#[trigger] crate::text::sub_at(l1, depends_tag())(i),
    ensures
        rewritten_depends(l1, old, new).len() >= m,
        rewritten_depends(l1, old, new).take(m) == l1.take(m),
{
    let tag = depends_tag();
    lemma_find_sub(l1, tag);
    match find_sub(l1, tag) {
        None => {},
        Some(i) => {
            assert(i >= m) by {
                if i < m {
                    assert(crate::text::sub_at(l1, tag)(i));
                }
            }
            match find_char(l1.skip(i), ']') {
                None => {},
                Some(j) => {
                    assert(rewritten_depends(l1, old, new).take(m) =~= l1.take(m));
                },
            }
        },
    }
}

proof fn lemma_read_renamed(line: Seq<char>, l2: Seq<char>, w: int, p: int, new: Seq<char>)
    requires
        0 <= w,
        w + 5 <= p,
        p + bold(new).len() <= l2.len(),
        p <= line.len(),
        forall|q: int| 0 <= q < p ==> #[trigger] l2[q] == line[q],
        forall|x: int| 0 <= x < bold(new).len() ==> l2[p + x] == #[trigger] bold(new)[x],
        forall|q: int| 0 <= q < w ==> is_ws(#[trigger] line[q]),
        !is_ws(line[w]),
        forall|q: int| w + 5 <= q < p ==> is_ws(#[trigger] line[q]),
        plain_slug(new),
        checkbox(line.skip(w)) is Some,
    ensures
        line_slug(l2) == Some(new),
        checkbox(trim_start(l2)) == checkbox(line.skip(w)),
{
    let bn = bold(new);
    let t = line.skip(w);
    assert forall|q: int| 0 <= q < w implies !#[trigger] crate::text::not_ws_at(l2)(q) by {
        assert(l2[q] == line[q]);
    }
    assert(l2[w] == line[w]);
    assert(crate::text::not_ws_at(l2)(w));
    lemma_first_at_unique(0, l2.len() as int, crate::text::not_ws_at(l2), w);
    let t2 = l2.skip(w);
    assert(trim_start(l2) =~= t2);
    assert(t2.take(5) =~= t.take(5)) by {
        assert forall|x: int| 0 <= x < 5 implies t2.take(5)[x] == t.take(5)[x] by {
            assert(t2[x] == l2[w + x]);
            assert(t[x] == line[w + x]);
        }
    }
    assert(checkbox(t2) == checkbox(t));
    let u2 = t2.skip(5);
    let k2 = p - w - 5;
    assert forall|q: int| 0 <= q < k2 implies !#[trigger] crate::text::not_ws_at(u2)(q) by {
        assert(u2[q] == l2[w + 5 + q]);
        assert(l2[w + 5 + q] == line[w + 5 + q]);
    }
    assert(u2[k2] == l2[p]);
    assert(l2[p] == bn[0]);
    assert(crate::text::not_ws_at(u2)(k2));
    lemma_first_at_unique(0, u2.len() as int, crate::text::not_ws_at(u2), k2);
    let b2 = l2.skip(p);
    assert(trim_start(u2) =~= b2);
    assert(b2.take(2) =~= stars()) by {
        assert(b2[0] == l2[p]);
        assert(b2[1] == l2[p + 1]);
        assert(l2[p + 1] == bn[1]);
    }
    let rest2 = b2.skip(2);
    let nl = new.len() as int;
    assert forall|q: int| 0 <= q < nl implies !#[trigger] crate::text::sub_at(rest2, stars())(q) by {
        if crate::text::sub_at(rest2, stars())(q) {
            assert(rest2.subrange(q, q + 2)[0] == rest2[q]);
            assert(rest2.subrange(q, q + 2)[1] == rest2[q + 1]);
            assert(rest2[q] == l2[p + 2 + q]);
            assert(rest2[q + 1] == l2[p + 3 + q]);
            assert(l2[p + 2 + q] == bn[2 + q]);
            assert(l2[p + 3 + q] == bn[3 + q]);
            assert(bn[2 + q] == new[q]);
            if q + 1 < nl {
                assert(bn[3 + q] == new[q + 1]);
                assert(new[q] == '*' && new[q + 1] == '*');
            } else {
                assert(new.last() == new[q]);
            }
        }
    }
    assert(crate::text::sub_at(rest2, stars())(nl)) by {
        assert(rest2.subrange(nl, nl + 2) =~= stars()) by {
            assert(rest2[nl] == l2[p + 2 + nl]);
            assert(rest2[nl + 1] == l2[p + 3 + nl]);
            assert(l2[p + 2 + nl] == bn[2 + nl]);
            assert(l2[p + 3 + nl] == bn[3 + nl]);
        }
    }
    lemma_first_at_unique(0, rest2.len() - 2 + 1, crate::text::sub_at(rest2, stars()), nl);
    assert(rest2.take(nl) =~= new) by {
        assert forall|x: int| 0 <= x < nl implies rest2.take(nl)[x] == new[x] by {
            assert(rest2[x] == l2[p + 2 + x]);
            assert(l2[p + 2 + x] == bn[2 + x]);
        }
    }
    assert(starts_with(b2, stars()));
    assert(find_sub(rest2, stars()) == Some(nl));
    assert(bold_slug(b2) == Some((rest2.take(nl), rest2.skip(nl + 2))));
}

proof fn lemma_slug_shape(line: Seq<char>, w: int, p: int, old: Seq<char>)
    requires
        0 <= w,
        w + 5 <= p < line.len(),
        checkbox(line.skip(w)) is Some,
        forall|q: int| 0 <= q < w ==> is_ws(#[trigger] line[q]),
        forall|q: int| w + 5 <= q < p ==> is_ws(#[trigger] line[q]),
        bold_slug(line.skip(p)) matches Some(q) && q.0 == old,
    ensures
        p + bold(old).len() <= line.len(),
        line.subrange(p, p + bold(old).len()) == bold(old),
        forall|q: int| 0 <= q < p ==> #[trigger] line[q] != '*' && (line[q] != '[' || q == w + 2),
        line[w + 3] == ' ' || line[w + 3] == 'x',
{
    let t = line.skip(w);
    let body = line.skip(p);
    let bo = bold(old);
    let rest = body.skip(2);
    lemma_find_sub(rest, stars());
    let e = find_sub(rest, stars())->0;
    assert(e == old.len());
    assert(line.subrange(p, p + bo.len()) =~= bo) by {
        assert forall|x: int| 0 <= x < bo.len() implies line.subrange(p, p + bo.len())[x] == bo[x] by {
            assert(line.subrange(p, p + bo.len())[x] == line[p + x]);
            assert(body[x] == line[p + x]);
            if x < 2 {
                assert(body.take(2)[x] == body[x]);
            } else if x < 2 + e {
                assert(rest.take(e)[x - 2] == rest[x - 2]);
            } else {
                assert(rest.subrange(e, e + 2)[x - 2 - e] == rest[x - 2]);
            }
        }
    }
    assert(t.take(5) == done_box() || t.take(5) == open_box());
    assert forall|q: int| 0 <= q < p implies #[trigger] line[q] != '*' && (line[q] != '[' || q == w + 2) by {
        if w <= q < w + 5 {
            assert(line[q] == t.take(5)[q - w]);
        }
    }
    assert(line[w + 3] == t.take(5)[3]);
}

proof fn lemma_no_tag_before(line: Seq<char>, l1: Seq<char>, w: int, p: int, new: Seq<char>)
    requires
        0 <= w,
        w + 5 <= p,
        l1.take(p + bold(new).len()) == line.take(p) + bold(new),
        p <= line.len(),
        p + bold(new).len() <= l1.len(),
        forall|q: int| 0 <= q < p ==> #[trigger] line[q] != '*' && (line[q] != '[' || q == w + 2),
        line[w + 3] == ' ' || line[w + 3] == 'x',
        !has_char(new, '['),
    ensures
        forall|i: int|
            0 <= i < p + bold(new).len() && i + 9 <= l1.len() ==> !#[trigger] crate::text::sub_at(
                l1,
                depends_tag(),
            )(i),
{
    let tag = depends_tag();
    let bn = bold(new);
    let m = p + bn.len();
    assert forall|i: int| 0 <= i < m && i + 9 <= l1.len() implies !#[trigger] crate::text::sub_at(l1, tag)(i) by {
        if crate::text::sub_at(l1, tag)(i) {
            assert(l1.subrange(i, i + 9)[0] == l1[i]);
            assert(l1.subrange(i, i + 9)[1] == l1[i + 1]);
            assert(l1.take(m)[i] == l1[i]);
            if i < p {
                assert((line.take(p) + bn)[i] == line[i]);
                if i == w + 2 {
                    assert(l1.take(m)[i + 1] == l1[i + 1]);
                    assert((line.take(p) + bn)[i + 1] == line[w + 3]);
                }
            } else {
                assert((line.take(p) + bn)[i] == bn[i - p]);
                if 2 <= i - p < 2 + new.len() {
                    assert(bn[i - p] == new[i - p - 2]);
                }
            }
        }
    }
}

/// The task line of `old`, renamed to a plain slug `new`, is the task line of
/// `new`, with the same box.
pub proof fn law_rename_slug(line: Seq<char>, old: Seq<char>, new: Seq<char>)
    requires
        line_slug(line) == Some(old),
        plain_slug(new),
    ensures
        line_slug(renamed_line(line, old, new)) == Some(new),
        checkbox(trim_start(renamed_line(line, old, new))) == checkbox(trim_start(line)),
{
    lemma_slug_position(line);
    let (w, p) = choose|w: int, p: int|
        0 <= w && w + 5 <= p < line.len() && trim_start(line) == line.skip(w) && (forall|q: int|
            0 <= q < w ==> is_ws(#[trigger] line[q])) && !is_ws(line[w]) && checkbox(line.skip(w))
            is Some && (forall|q: int| w + 5 <= q < p ==> is_ws(#[trigger] line[q])) && trim_start(
            line.skip(w).skip(5),
        ) == line.skip(p) && !is_ws(line[p]);
    let bo = bold(old);
    let bn = bold(new);
    lemma_slug_shape(line, w, p, old);
    lemma_first_bold(line, p, old, new);
    let l1 = replace_all(line, bo, bn);
    let m = p + bn.len();
    assert(l1.take(m) =~= line.take(p) + bn);
    lemma_no_tag_before(line, l1, w, p, new);
    lemma_depends_later(l1, m, old, new);
    let l2 = renamed_line(line, old, new);
    assert forall|q: int| 0 <= q < p implies #[trigger] l2[q] == line[q] by {
        assert(l2.take(m)[q] == l2[q]);
        assert(l1.take(m)[q] == l1[q]);
        assert((line.take(p) + bn)[q] == line[q]);
    }
    assert forall|x: int| 0 <= x < bn.len() implies l2[p + x] == #[trigger] bn[x] by {
        assert(l2.take(m)[p + x] == l2[p + x]);
        assert(l1.take(m)[p + x] == l1[p + x]);
        assert((line.take(p) + bn)[p + x] == bn[x]);
    }
    lemma_read_renamed(line, l2, w, p, new);
}

/// Why a rename is refused.
#[derive(Debug, Clone, Copy, PartialEq, Eq, Structural)]
pub enum RenameError {
    Identical,
    NoSuchTask,
    AlreadyExists,
}

/// A rename needs two different slugs, an existing `old`, and no task `new` yet.
pub fn check_rename(tasks: &[Task], old: &str, new: &str) -> (r: Result<(), RenameError>)
    ensures
        match r {
            Ok(()) => old@ != new@ && first_task(task_views(tasks@), old@) is Some && first_task(
                task_views(tasks@),
                new@,
            ) is None,
            Err(RenameError::Identical) => old@ == new@,
            Err(RenameError::NoSuchTask) => old@ != new@ && first_task(task_views(tasks@), old@) is None,
            Err(RenameError::AlreadyExists) => old@ != new@ && first_task(task_views(tasks@), old@) is Some
                && first_task(task_views(tasks@), new@) is Some,
        },
{
    if seq_eq(&chars_of(old), &chars_of(new)) {
        return Err(RenameError::Identical);
    }
    if find_task(tasks, old).is_none() {
        return Err(RenameError::NoSuchTask);
    }
    if find_task(tasks, new).is_some() {
        return Err(RenameError::AlreadyExists);
    }
    Ok(())
}

// ---------------------------------------------------------------------------
// The files that follow a renamed task
// ---------------------------------------------------------------------------

/// `f` is named `<slug>_...`.
pub open spec fn named_for(f: Seq<char>, slug: Seq<char>) -> bool {
    starts_with(f, slug.push('_'))
}

/// `f` is one of the files of the task `old`: its name starts with `old_`, and
/// not with `s_` for a longer slug `s` of the plan (whose files those are).
pub open spec fn is_file_of(f: Seq<char>, old: Seq<char>, slugs: Seq<Seq<char>>) -> bool {
    named_for(f, old) && !exists|i: int|
        0 <= i < slugs.len() && (#[trigger] slugs[i]).len() > old.len() && named_for(f, slugs[i])
}

/// The renames, in the order of `files`, that move each file of `old` to the
/// same name with `new` in place of `old`.
pub open spec fn renames_of(files: Seq<Seq<char>>, slugs: Seq<Seq<char>>, old: Seq<char>, new: Seq<char>) -> Seq<
    (Seq<char>, Seq<char>),
>
    decreases files.len(),
{
    if files.len() == 0 {
        seq![]
    } else {
        let rest = renames_of(files.drop_last(), slugs, old, new);
        let f = files.last();
        if is_file_of(f, old, slugs) {
            rest.push((f, new + f.skip(old.len() as int)))
        } else {
            rest
        }
    }
}

pub open spec fn pair_views(v: Seq<(String, String)>) -> Seq<(Seq<char>, Seq<char>)> {
    Seq::new(v.len(), |i: int| (v[i].0@, v[i].1@))
}

fn named_for_exec(f: &[char], slug: &[char]) -> (r: bool)
    ensures
        r == named_for(f@, slug@),
{
    let mut p: Vec<char> = Vec::new();
    push_all(&mut p, slug);
    p.push('_');
    assert(p@ =~= slug@.push('_'));
    starts_with_exec(f, &p)
}

fn is_file_of_exec(f: &[char], old: &[char], slugs: &[String]) -> (r: bool)
    ensures
        r == is_file_of(f@, old@, string_views(slugs@)),
{
    if !named_for_exec(f, old) {
        return false;
    }
    let ghost sv = string_views(slugs@);
    let mut i: usize = 0;
    while i < slugs.len()
        invariant
            i <= slugs@.len(),
            sv == string_views(slugs@),
            forall|k: int| 0 <= k < i ==> !((#[trigger] sv[k]).len() > old@.len() && named_for(f@, sv[k])),
        decreases slugs.len() - i,
    {
        let s = chars_of(slugs[i].as_str());
        assert(s@ == sv[i as int]);
        if s.len() > old.len() && named_for_exec(f, &s) {
            assert(sv[i as int].len() > old@.len() && named_for(f@, sv[i as int]));
            return false;
        }
        i = i + 1;
    }
    true
}

/// The renames that `rename` makes among `files`, the names of the track
/// directory's entries: each file of the task `old` (see `is_file_of`; `slugs`
/// are the plan's slugs) goes to the same name with `new` in place of `old`.
pub fn slug_file_renames(files: &[String], slugs: &[String], old: &str, new: &str) -> (r: Vec<(String, String)>)
    ensures
        pair_views(r@) == renames_of(string_views(files@), string_views(slugs@), old@, new@),
{
    let ghost fv = string_views(files@);
    let ghost sv = string_views(slugs@);
    let o = chars_of(old);
    let nw = chars_of(new);
    let mut out: Vec<(String, String)> = Vec::new();
    let mut i: usize = 0;
    while i < files.len()
        invariant
            i <= files@.len(),
            fv == string_views(files@),
            sv == string_views(slugs@),
            o@ == old@,
            nw@ == new@,
            pair_views(out@) == renames_of(fv.take(i as int), sv, old@, new@),
        decreases files.len() - i,
    {
        assert(fv.take(i + 1).drop_last() =~= fv.take(i as int));
        assert(fv.take(i + 1).last() == files@[i as int]@);
        let f = chars_of(files[i].as_str());
        if is_file_of_exec(&f, &o, slugs) {
            let mut t: Vec<char> = Vec::new();
            push_all(&mut t, &nw);
            let tail = sub_vec(&f, o.len(), f.len());
            push_all(&mut t, &tail);
            assert(t@ =~= new@ + f@.skip(old@.len() as int));
            let ghost before = out@;
            out.push((string_of(&f), string_of(&t)));
            assert(pair_views(out@) =~= pair_views(before).push((f@, t@)));
        }
        i = i + 1;
    }
    assert(fv.take(files@.len() as int) =~= fv);
    out
}

// ---------------------------------------------------------------------------
// Laws
// ---------------------------------------------------------------------------

/// A line that opens with whitespace and then `box` finds `box` first there.
proof fn lemma_box_after_indent(line: Seq<char>, b: Seq<char>, n: int)
    requires
        0 <= n,
        n + b.len() <= line.len(),
        b.len() > 0,
        b[0] == '-',
        forall|k: int| 0 <= k < n ==> is_ws(line[k]),
        line.subrange(n, n + b.len()) == b,
    ensures
        find_sub(line, b) == Some(n),
{
    let hi = line.len() - b.len() + 1;
    assert forall|k: int| 0 <= k < n implies !(#[trigger] crate::text::sub_at(line, b)(k)) by {
        if line.subrange(k, k + b.len()) == b {
            assert(line.subrange(k, k + b.len())[0] == line[k]);
        }
    }
    lemma_first_at_unique(0, hi, crate::text::sub_at(line, b), n);
}

/// Unticking a task line that `tick` just ticked gives the line back, for a
/// line that opens (after its indentation) with `- [ ]`.
proof fn lemma_flip_box(line: Seq<char>, from: Seq<char>, to: Seq<char>)
    requires
        from.len() == 5,
        to.len() == 5,
        from[0] == '-',
        to[0] == '-',
        starts_with(trim_start(line), from),
    ensures
        swap_box(line, from, to) matches Some(t) && trim_start(t) == to + trim_start(line).skip(5),
{
    crate::text::lemma_trim_start(line);
    let n = line.len() - trim_start(line).len();
    assert(line.subrange(n, n + 5) =~= trim_start(line).take(5));
    lemma_box_after_indent(line, from, n);
    let t = line.take(n) + to + line.skip(n + 5);
    assert forall|k: int| 0 <= k < n implies !#[trigger] crate::text::not_ws_at(t)(k) by {
        assert(t[k] == line[k]);
    }
    assert(t[n] == '-');
    assert(crate::text::not_ws_at(t)(n));
    lemma_first_at_unique(0, t.len() as int, crate::text::not_ws_at(t), n);
    assert(trim_start(line) =~= line.skip(n));
    assert(trim_start(t) =~= to + trim_start(line).skip(5));
}

/// Ticking marks an open task line done and leaves the rest of the line as
/// it was, so the task reads the same but for being done; unticking does the
/// reverse.
pub proof fn law_tick_marks_done(line: Seq<char>, done: bool)
    requires
        crate::plan::checkbox(trim_start(line)) == Some(!done),
    ensures
        ticked_line(line, done) matches Some(t) && crate::plan::checkbox(trim_start(t)) == Some(done)
            && trim_start(t).skip(5) == trim_start(line).skip(5),
{
    let (from, to) = if done {
        (open_box(), done_box())
    } else {
        (done_box(), open_box())
    };
    assert(starts_with(trim_start(line), from)) by {
        if done {
            assert(!starts_with(trim_start(line), done_box()));
        }
    }
    lemma_flip_box(line, from, to);
    let t = swap_box(line, from, to)->0;
    let tt = trim_start(t);
    assert(tt.take(5) =~= to);
    assert(tt.skip(5) =~= trim_start(line).skip(5));
    if !done {
        assert(!starts_with(tt, done_box())) by {
            assert(tt.take(5)[3] != done_box()[3]);
        }
    }
}

pub proof fn law_untick_undoes_tick(line: Seq<char>)
    requires
        starts_with(trim_start(line), open_box()),
    ensures
        ticked_line(line, true) matches Some(t) && ticked_line(t, false) == Some(line),
{
    crate::text::lemma_trim_start(line);
    let n = line.len() - trim_start(line).len();
    assert(line.subrange(n, n + 5) =~= trim_start(line).take(5));
    lemma_box_after_indent(line, open_box(), n);
    let t = line.take(n) + done_box() + line.skip(n + 5);
    assert(t.subrange(n, n + 5) =~= done_box());
    assert forall|k: int| 0 <= k < n implies is_ws(t[k]) by {
        assert(t[k] == line[k]);
    }
    lemma_box_after_indent(t, done_box(), n);
    assert(t.take(n) + open_box() + t.skip(n + 5) =~= line);
}

/// Ticking a line that `untick` just unticked gives the line back, for a line
/// that opens (after its indentation) with `- [x]`.
pub proof fn law_tick_undoes_untick(line: Seq<char>)
    requires
        starts_with(trim_start(line), done_box()),
    ensures
        ticked_line(line, false) matches Some(t) && ticked_line(t, true) == Some(line),
{
    crate::text::lemma_trim_start(line);
    let n = line.len() - trim_start(line).len();
    assert(line.subrange(n, n + 5) =~= trim_start(line).take(5));
    lemma_box_after_indent(line, done_box(), n);
    let t = line.take(n) + open_box() + line.skip(n + 5);
    assert(t.subrange(n, n + 5) =~= open_box());
    assert forall|k: int| 0 <= k < n implies is_ws(t[k]) by {
        assert(t[k] == line[k]);
    }
    lemma_box_after_indent(t, open_box(), n);
    assert(t.take(n) + done_box() + t.skip(n + 5) =~= line);
}


// ---------------------------------------------------------------------------
// Ticking in a whole plan
// ---------------------------------------------------------------------------

/// The tasks with the one on line `k` marked done.
pub open spec fn done_at_line(ts: Seq<TaskModel>, k: int) -> Seq<TaskModel> {
    Seq::new(
        ts.len(),
        |i: int|
            if ts[i].line == k {
                TaskModel { done: true, ..ts[i] }
            } else {
                ts[i]
            },
    )
}

pub open spec fn done_at_line_result(r: Result<Seq<TaskModel>, PlanFault>, k: int) -> Result<
    Seq<TaskModel>,
    PlanFault,
> {
    match r {
        Ok(ts) => Ok(done_at_line(ts, k)),
        Err(e) => Err(e),
    }
}

/// What the scan of the first `n` lines keeps: each task's line is one of
/// them and shows the task's box, and the tasks come in line order.
pub open spec fn scan_inv(ls: Seq<Seq<char>>, ts: Seq<TaskModel>, n: int) -> bool {
    &&& forall|i: int|
        0 <= i < ts.len() ==> 0 <= #[trigger] ts[i].line < n && checkbox(
            trim_start(ls[ts[i].line]),
        ) == Some(ts[i].done)
    &&& forall|a: int, b: int| 0 <= a < b < ts.len() ==> #[trigger] ts[a].line < #[trigger] ts[b].line
}

proof fn lemma_scan_inv(ls: Seq<Seq<char>>, n: int)
    requires
        0 <= n <= ls.len(),
    ensures
        scan_lines(ls, n) matches Ok(ts) ==> scan_inv(ls, ts, n),
    decreases n,
{
    if n > 0 {
        lemma_scan_inv(ls, n - 1);
        match scan_lines(ls, n - 1) {
            Ok(ts) => {
                let line = ls[n - 1];
                let t = trim_start(line);
                match checkbox(t) {
                    None => {
                        if ts.len() > 0 && starts_with(line, two_spaces()) {
                            let ts2 = ts.update(ts.len() - 1, with_more_description(ts.last(), trim(line)));
                            assert forall|i: int| 0 <= i < ts2.len() implies ts2[i].line == ts[i].line
                                && ts2[i].done == ts[i].done by {}
                        }
                    },
                    Some(done) => {},
                }
            },
            Err(_) => {},
        }
    }
}

proof fn lemma_done_at_line_scan(ts: Seq<TaskModel>, line: Seq<char>, i: int, k: int)
    requires
        i != k,
    ensures
        scan_line(done_at_line(ts, k), line, i) == done_at_line_result(scan_line(ts, line, i), k),
{
    let f = done_at_line(ts, k);
    let t = trim_start(line);
    match checkbox(t) {
        None => {
            if ts.len() > 0 && starts_with(line, two_spaces()) {
                let a = ts.update(ts.len() - 1, with_more_description(ts.last(), trim(line)));
                let b = f.update(f.len() - 1, with_more_description(f.last(), trim(line)));
                assert(b =~= done_at_line(a, k));
            }
        },
        Some(done) => match bold_slug(trim_start(t.skip(5))) {
            None => {},
            Some(p) => {
                let x = TaskModel {
                    done,
                    slug: p.0,
                    estimate: estimate_of(p.1),
                    depends: depends_of(p.1),
                    line: i,
                    description: seq![],
                };
                assert(f.push(x) =~= done_at_line(ts.push(x), k));
            },
        },
    }
}

/// Scanning the plan with line `k` ticked reads what the scan of the plan
/// reads, with the task on line `k` done.
proof fn lemma_scan_ticked(ls: Seq<Seq<char>>, ls1: Seq<Seq<char>>, k: int, n: int)
    requires
        0 <= k < ls.len(),
        ls1.len() == ls.len(),
        forall|i: int| 0 <= i < ls.len() && i != k ==> ls1[i] == ls[i],
        checkbox(trim_start(ls[k])) == Some(false),
        checkbox(trim_start(ls1[k])) == Some(true),
        trim_start(ls1[k]).skip(5) == trim_start(ls[k]).skip(5),
        0 <= n <= ls.len(),
    ensures
        n <= k ==> scan_lines(ls1, n) == scan_lines(ls, n),
        n > k ==> scan_lines(ls1, n) == done_at_line_result(scan_lines(ls, n), k),
    decreases n,
{
    if n > 0 {
        lemma_scan_ticked(ls, ls1, k, n - 1);
        if n - 1 == k {
            lemma_scan_inv(ls, k);
            match scan_lines(ls, k) {
                Ok(ts) => {
                    let t0 = trim_start(ls[k]);
                    let t1 = trim_start(ls1[k]);
                    assert(t1.skip(5) == t0.skip(5));
                    match bold_slug(trim_start(t0.skip(5))) {
                        None => {},
                        Some(p) => {
                            let x = TaskModel {
                                done: false,
                                slug: p.0,
                                estimate: estimate_of(p.1),
                                depends: depends_of(p.1),
                                line: k,
                                description: seq![],
                            };
                            assert(ts.push(TaskModel { done: true, ..x }) =~= done_at_line(
                                ts.push(x),
                                k,
                            ));
                        },
                    }
                },
                Err(_) => {},
            }
        } else if n - 1 > k {
            match scan_lines(ls, n - 1) {
                Ok(ts) => {
                    lemma_done_at_line_scan(ts, ls[n - 1], n - 1, k);
                },
                Err(_) => {},
            }
        }
    }
}

/// Two task lists that agree on every slug and every dependency list find
/// the same first unknown dependency.
proof fn lemma_unknown_dependency_same(a: Seq<TaskModel>, b: Seq<TaskModel>)
    requires
        a.len() == b.len(),
        forall|i: int| 0 <= i < a.len() ==> (#[trigger] a[i]).slug == b[i].slug && a[i].depends == b[i].depends,
    ensures
        unknown_dependency(a) == unknown_dependency(b),
        forall|s: Seq<char>| #[trigger] first_task(a, s) == first_task(b, s),
{
    assert forall|d: Seq<char>| #[trigger] is_slug_of(a, d) == is_slug_of(b, d) by {
        if is_slug_of(a, d) {
            let w = choose|w: int| 0 <= w < a.len() && (#[trigger] a[w]).slug == d;
            assert(b[w].slug == d);
        }
        if is_slug_of(b, d) {
            let w = choose|w: int| 0 <= w < b.len() && (#[trigger] b[w]).slug == d;
            assert(a[w].slug == d);
        }
    }
    assert forall|deps: Seq<Seq<char>>| #[trigger] first_unknown(a, deps) == first_unknown(b, deps) by {
        assert(unknown_at(a, deps) =~= unknown_at(b, deps));
    }
    let n = a.len() as int;
    let r = first_at(0, n, has_unknown_at(a));
    lemma_first_at(0, n, has_unknown_at(a));
    assert forall|i: int| 0 <= i < n implies #[trigger] has_unknown_at(a)(i) == has_unknown_at(b)(i) by {
        assert(first_unknown(a, a[i].depends) == first_unknown(b, a[i].depends));
    }
    assert forall|i: int| 0 <= i < r implies !#[trigger] has_unknown_at(b)(i) by {
        assert(!has_unknown_at(a)(i));
        assert(first_unknown(a, a[i].depends) == first_unknown(b, a[i].depends));
    }
    if r < n {
        assert(has_unknown_at(a)(r));
        assert(first_unknown(a, a[r].depends) == first_unknown(b, a[r].depends));
        assert(has_unknown_at(b)(r));
    }
    lemma_first_at_unique(0, n, has_unknown_at(b), r);
    if r < n {
        assert(first_unknown(a, a[r].depends) == first_unknown(b, a[r].depends));
    }
    assert forall|s: Seq<char>| #[trigger] first_task(a, s) == first_task(b, s) by {
        let q = first_at(0, n, slug_is(a, s));
        lemma_first_at(0, n, slug_is(a, s));
        assert forall|i: int| 0 <= i < q implies !#[trigger] slug_is(b, s)(i) by {
            assert(!slug_is(a, s)(i));
        }
        lemma_first_at_unique(0, n, slug_is(b, s), q);
    }
}

/// Ticking an open task line keeps it a bare line.
proof fn lemma_ticked_bare(line: Seq<char>)
    requires
        bare_line(line),
        starts_with(trim_start(line), open_box()),
    ensures
        ticked_line(line, true) matches Some(t) && bare_line(t),
{
    lemma_trim_start(line);
    let n = line.len() - trim_start(line).len();
    assert(line.subrange(n, n + 5) =~= trim_start(line).take(5));
    lemma_box_after_indent(line, open_box(), n);
    let t = line.take(n) + done_box() + line.skip(n + 5);
    assert(ticked_line(line, true) == Some(t));
    if has_char(t, '\n') {
        let w = choose|w: int| 0 <= w < t.len() && t[w] == '\n';
        if w < n {
            assert(line[w] == '\n');
        } else if w >= n + 5 {
            assert(line[w] == '\n');
        }
    }
    if line.len() > n + 5 {
        assert(t.last() == line.last());
    } else {
        assert(t.last() == ']');
    }
}

/// Unticking a task right after ticking it gives back the plan's text. With
/// `slug` naming an open task of a plan whose lines are `ls` (the plan's text
/// being those lines, each ended by a line break), ticking rewrites the task's
/// line; the new text reads back as the same lines but that one, and as the
/// same tasks but that one marked done, so `slug` still finds it; unticking it
/// there gives the line back, and the plan's text is what it was.
pub proof fn law_untick_undoes_tick_in_plan(ls: Seq<Seq<char>>, slug: Seq<char>)
    requires
        forall|i: int| 0 <= i < ls.len() ==> bare_line(#[trigger] ls[i]),
        parse_plan(ls) matches Ok(ts) && first_task(ts, slug) matches Some(j) && !ts[j].done,
    ensures
        parse_plan(ls) matches Ok(ts) && first_task(ts, slug) matches Some(j) && {
            let k = ts[j].line;
            &&& 0 <= k < ls.len()
            &&& lines(plan_text(ls)) == ls
            &&& ticked_line(ls[k], true) matches Some(t) && {
                let ls1 = ls.update(k, t);
                let ts1 = ts.update(j, TaskModel { done: true, ..ts[j] });
                &&& lines(plan_text(ls1)) == ls1
                &&& parse_plan(ls1) == Ok::<Seq<TaskModel>, PlanFault>(ts1)
                &&& first_task(ts1, slug) == Some(j)
                &&& ticked_line(ls1[k], false) == Some(ls[k])
                &&& plan_text(ls1.update(k, ls[k])) == plan_text(ls)
            }
        },
{
    let n = ls.len() as int;
    let ts = parse_plan(ls)->Ok_0;
    assert(scan_lines(ls, n) == Ok::<Seq<TaskModel>, PlanFault>(ts));
    let j = first_task(ts, slug)->0;
    lemma_first_at(0, ts.len() as int, slug_is(ts, slug));
    lemma_scan_inv(ls, n);
    let k = ts[j].line;
    assert(0 <= k < n);
    let l0 = ls[k];
    assert(checkbox(trim_start(l0)) == Some(false));
    assert(starts_with(trim_start(l0), open_box())) by {
        assert(!starts_with(trim_start(l0), done_box()));
    }
    law_tick_marks_done(l0, true);
    law_untick_undoes_tick(l0);
    lemma_ticked_bare(l0);
    let t = ticked_line(l0, true)->0;
    let ls1 = ls.update(k, t);
    assert forall|i: int| 0 <= i < ls1.len() implies bare_line(#[trigger] ls1[i]) by {
        if i != k {
            assert(ls1[i] == ls[i]);
        }
    }
    lemma_lines_of_joined(ls);
    lemma_lines_of_joined(ls1);
    assert(plan_text(ls) =~= join(ls, seq!['\n']) + seq!['\n']);
    assert(plan_text(ls1) =~= join(ls1, seq!['\n']) + seq!['\n']);
    lemma_scan_ticked(ls, ls1, k, n);
    let ts1 = ts.update(j, TaskModel { done: true, ..ts[j] });
    assert(done_at_line(ts, k) =~= ts1) by {
        assert forall|i: int| 0 <= i < ts.len() && i != j implies ts[i].line != k by {
            if i < j {
                assert(ts[i].line < ts[j].line);
            } else {
                assert(ts[j].line < ts[i].line);
            }
        }
    }
    assert(scan_lines(ls1, n) == Ok::<Seq<TaskModel>, PlanFault>(ts1));
    lemma_unknown_dependency_same(ts1, ts);
    assert(first_task(ts1, slug) == first_task(ts, slug));
    assert(ls1.update(k, l0) =~= ls);
}

} // verus!

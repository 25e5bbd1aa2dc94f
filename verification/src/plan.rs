//! `plan.md`: the task lines, their slugs, estimates and dependencies, and the
//! edits that `tick` and `rename` make to them.
use vstd::prelude::*;

use crate::text::{
    push_all, trim_start_exec, trim_start,     char_isnt,     first_at, lemma_first_at, lemma_first_at_unique, find_char, find_sub, starts_with, trim, words, parse_u32, split_char, chars_of, string_of, sub_vec, starts_with_exec, find_sub_exec, lemma_find_sub, find_char_exec, lemma_find_char, find_char_from, trim_exec, words_exec, views, parse_u32_exec, split_char_exec,
};

verus! {

// ---------------------------------------------------------------------------
// Markers
// ---------------------------------------------------------------------------

pub open spec fn done_box() -> Seq<char> {
    seq!['-', ' ', '[', 'x', ']']
}

pub open spec fn open_box() -> Seq<char> {
    seq!['-', ' ', '[', ' ', ']']
}

pub open spec fn stars() -> Seq<char> {
    seq!['*', '*']
}

pub open spec fn depends_tag() -> Seq<char> {
    seq!['[', 'd', 'e', 'p', 'e', 'n', 'd', 's', ':']
}

pub open spec fn depends_tag_spaced() -> Seq<char> {
    depends_tag().push(' ')
}

pub fn done_box_exec() -> (r: Vec<char>)
    ensures
        r@ == done_box(),
{
    let r = vec!['-', ' ', '[', 'x', ']'];
    assert(r@ =~= done_box());
    r
}

pub fn open_box_exec() -> (r: Vec<char>)
    ensures
        r@ == open_box(),
{
    let r = vec!['-', ' ', '[', ' ', ']'];
    assert(r@ =~= open_box());
    r
}

fn stars_exec() -> (r: Vec<char>)
    ensures
        r@ == stars(),
{
    let r = vec!['*', '*'];
    assert(r@ =~= stars());
    r
}

pub fn depends_tag_exec() -> (r: Vec<char>)
    ensures
        r@ == depends_tag(),
{
    let r = vec!['[', 'd', 'e', 'p', 'e', 'n', 'd', 's', ':'];
    assert(r@ =~= depends_tag());
    r
}

/// Whether a trimmed line opens with a checkbox, and whether it is ticked.
pub open spec fn checkbox(t: Seq<char>) -> Option<bool> {
    if starts_with(t, done_box()) {
        Some(true)
    } else if starts_with(t, open_box()) {
        Some(false)
    } else {
        None
    }
}

pub fn checkbox_exec(t: &[char]) -> (r: Option<bool>)
    ensures
        r == checkbox(t@),
{
    if starts_with_exec(t, &done_box_exec()) {
        Some(true)
    } else if starts_with_exec(t, &open_box_exec()) {
        Some(false)
    } else {
        None
    }
}

// ---------------------------------------------------------------------------
// The pieces of a task line
// ---------------------------------------------------------------------------

/// `**slug** rest` split into the slug and what follows its closing `**`.
pub open spec fn bold_slug(s: Seq<char>) -> Option<(Seq<char>, Seq<char>)> {
    if starts_with(s, stars()) {
        let rest = s.skip(2);
        match find_sub(rest, stars()) {
            Some(e) => Some((rest.take(e), rest.skip(e + 2))),
            None => None,
        }
    } else {
        None
    }
}

/// `s` without its leading copies of `c`.
pub open spec fn strip_leading(s: Seq<char>, c: char) -> Seq<char> {
    s.skip(first_at(0, s.len() as int, char_isnt(s, c)))
}

/// The number in the first `( ... )` group, after any `~`: its first word parsed.
pub open spec fn estimate_of(s: Seq<char>) -> Option<u32> {
    match find_char(s, '(') {
        None => None,
        Some(i) => match find_char(s.skip(i), ')') {
            None => None,
            Some(j) => {
                let inner = trim(strip_leading(s.subrange(i + 1, i + j), '~'));
                let ws = words(inner);
                if ws.len() == 0 {
                    None
                } else {
                    parse_u32(ws[0])
                }
            },
        },
    }
}

/// The trimmed pieces that are not empty, in order.
pub open spec fn trimmed_nonempty(ps: Seq<Seq<char>>) -> Seq<Seq<char>>
    decreases ps.len(),
{
    if ps.len() == 0 {
        seq![]
    } else {
        let rest = trimmed_nonempty(ps.drop_last());
        let t = trim(ps.last());
        if t.len() > 0 {
            rest.push(t)
        } else {
            rest
        }
    }
}

/// The comma-separated names inside the first `[depends: ... ]`.
pub open spec fn depends_of(s: Seq<char>) -> Seq<Seq<char>> {
    match find_sub(s, depends_tag()) {
        None => seq![],
        Some(i) => {
            let rest = s.skip(i + 9);
            match find_char(rest, ']') {
                None => seq![],
                Some(j) => trimmed_nonempty(split_char(rest.take(j), ',')),
            }
        },
    }
}

/// Splits `**slug** rest` into the slug and the text after it.
pub fn parse_bold_slug(s: &str) -> (r: Option<(String, String)>)
    ensures
        r matches Some((a, b)) ==> bold_slug(s@) == Some((a@, b@)),
        r is None ==> bold_slug(s@) is None,
{
    let v = chars_of(s);
    match bold_slug_chars(&v) {
        Some((a, b)) => Some((string_of(&a), string_of(&b))),
        None => None,
    }
}

pub fn bold_slug_chars(s: &[char]) -> (r: Option<(Vec<char>, Vec<char>)>)
    ensures
        r matches Some((a, b)) ==> bold_slug(s@) == Some((a@, b@)),
        r is None ==> bold_slug(s@) is None,
{
    let st = stars_exec();
    if !starts_with_exec(s, &st) {
        return None;
    }
    let rest = sub_vec(s, 2, s.len());
    assert(rest@ =~= s@.skip(2));
    proof {
        lemma_find_sub(rest@, stars());
    }
    match find_sub_exec(&rest, &st) {
        Some(e) => {
            let a = sub_vec(&rest, 0, e);
            let b = sub_vec(&rest, e + 2, rest.len());
            assert(a@ =~= rest@.take(e as int));
            assert(b@ =~= rest@.skip(e + 2));
            Some((a, b))
        },
        None => None,
    }
}

/// `s` without its leading copies of `c`.
pub fn strip_leading_exec(s: &[char], c: char) -> (r: Vec<char>)
    ensures
        r@ == strip_leading(s@, c),
{
    let mut i: usize = 0;
    while i < s.len() && s[i] == c
        invariant
            i <= s@.len(),
            forall|k: int| 0 <= k < i ==> s@[k] == c,
        decreases s.len() - i,
    {
        i = i + 1;
    }
    proof {
        lemma_first_at_unique(0, s@.len() as int, char_isnt(s@, c), i as int);
    }
    sub_vec(s, i, s.len())
}

/// The estimate in the first parenthesised group: `(~K turns)` gives `K`.
pub fn parse_estimate(s: &str) -> (r: Option<u32>)
    ensures
        r == estimate_of(s@),
{
    let v = chars_of(s);
    estimate_chars(&v)
}

pub fn estimate_chars(s: &[char]) -> (r: Option<u32>)
    ensures
        r == estimate_of(s@),
{
    let i = match find_char_exec(s, '(') {
        Some(i) => i,
        None => return None,
    };
    proof {
        lemma_find_char(s@, '(');
    }
    let j = match find_char_from(s, i, ')') {
        Some(j) => j,
        None => return None,
    };
    proof {
        lemma_find_char(s@.skip(i as int), ')');
        assert(s@.skip(i as int)[0] == '(');
    }
    // `j` is absolute here; the group is `s[i + 1 .. j]`.
    let inner0 = sub_vec(s, i + 1, j);
    let inner = trim_exec(&strip_leading_exec(&inner0, '~'));
    let ws = words_exec(&inner);
    if ws.len() == 0 {
        None
    } else {
        assert(views(ws@)[0] == ws@[0]@);
        parse_u32_exec(&ws[0])
    }
}

/// The trimmed non-empty pieces, in order.
pub fn trimmed_nonempty_exec(ps: &Vec<Vec<char>>) -> (r: Vec<Vec<char>>)
    ensures
        views(r@) == trimmed_nonempty(views(ps@)),
{
    let mut out: Vec<Vec<char>> = Vec::new();
    let mut i: usize = 0;
    while i < ps.len()
        invariant
            i <= ps@.len(),
            views(out@) == trimmed_nonempty(views(ps@).take(i as int)),
        decreases ps.len() - i,
    {
        let ghost vs = views(ps@);
        assert(vs.take(i + 1).drop_last() =~= vs.take(i as int));
        assert(vs.take(i + 1).last() == ps@[i as int]@);
        let t = trim_exec(&ps[i]);
        if t.len() > 0 {
            let ghost before = out@;
            out.push(t);
            assert(views(out@) =~= views(before).push(t@));
        }
        i = i + 1;
    }
    assert(views(ps@).take(ps@.len() as int) =~= views(ps@));
    out
}

pub fn depends_chars(s: &[char]) -> (r: Vec<Vec<char>>)
    ensures
        views(r@) == depends_of(s@),
{
    let tag = depends_tag_exec();
    let i = match find_sub_exec(s, &tag) {
        Some(i) => i,
        None => {
            assert(views(Seq::<Vec<char>>::empty()) =~= Seq::<Seq<char>>::empty());
            return Vec::new();
        },
    };
    proof {
        lemma_find_sub(s@, depends_tag());
        assert(depends_tag().len() == 9);
    }
    let n = s.len();
    assert(i + 9 <= n);
    let rest = sub_vec(s, i + 9, n);
    assert(rest@ =~= s@.skip(i + 9));
    let j = match find_char_exec(&rest, ']') {
        Some(j) => j,
        None => {
            assert(views(Seq::<Vec<char>>::empty()) =~= Seq::<Seq<char>>::empty());
            return Vec::new();
        },
    };
    proof {
        lemma_find_char(rest@, ']');
    }
    let inner = sub_vec(&rest, 0, j);
    assert(inner@ =~= rest@.take(j as int));
    let pieces = split_char_exec(&inner, ',');
    trimmed_nonempty_exec(&pieces)
}

/// The names listed in `[depends: a, b, c]`, trimmed, empty ones dropped.
pub fn parse_depends(s: &str) -> (r: Vec<String>)
    ensures
        string_views(r@) == depends_of(s@),
{
    let v = chars_of(s);
    let d = depends_chars(&v);
    strings_of(&d)
}

/// The views of a sequence of strings.
pub open spec fn string_views(v: Seq<String>) -> Seq<Seq<char>> {
    Seq::new(v.len(), |i: int| v[i]@)
}

/// Strings holding the given character vectors.
pub fn strings_of(v: &Vec<Vec<char>>) -> (r: Vec<String>)
    ensures
        string_views(r@) == views(v@),
{
    let mut out: Vec<String> = Vec::new();
    let mut i: usize = 0;
    while i < v.len()
        invariant
            i <= v@.len(),
            string_views(out@) == views(v@).take(i as int),
            out@.len() == i,
        decreases v.len() - i,
    {
        let s = string_of(&v[i]);
        assert(s@ == v@[i as int]@);
        let ghost before = out@;
        out.push(s);
        assert forall|k: int| 0 <= k < i + 1 implies #[trigger] string_views(out@)[k] == views(
            v@,
        ).take(i + 1)[k] by {
            if k < i {
                assert(string_views(before)[k] == views(v@).take(i as int)[k]);
            }
        }
        assert(string_views(out@) =~= views(v@).take(i + 1));
        i = i + 1;
    }
    assert(views(v@).take(v@.len() as int) =~= views(v@));
    out
}

// ---------------------------------------------------------------------------
// Tasks
// ---------------------------------------------------------------------------

/// One task of a plan: `- [x] **slug** (~K turns) [depends: a, b]` and the
/// indented description lines after it.
#[derive(Debug)]
pub struct Task {
    pub done: bool,
    pub slug: String,
    pub estimate: Option<u32>,
    pub depends: Vec<String>,
    /// Index of the task's line in the plan.
    pub line: usize,
    pub description: String,
}

pub struct TaskModel {
    pub done: bool,
    pub slug: Seq<char>,
    pub estimate: Option<u32>,
    pub depends: Seq<Seq<char>>,
    pub line: int,
    pub description: Seq<char>,
}

impl View for Task {
    type V = TaskModel;

    open spec fn view(&self) -> TaskModel {
        TaskModel {
            done: self.done,
            slug: self.slug@,
            estimate: self.estimate,
            depends: string_views(self.depends@),
            line: self.line as int,
            description: self.description@,
        }
    }
}

pub open spec fn task_views(v: Seq<Task>) -> Seq<TaskModel> {
    Seq::new(v.len(), |i: int| v[i]@)
}

/// Why a plan does not parse.
#[derive(Debug)]
pub enum PlanError {
    /// A checkbox line (1-based) without a `**slug**` after the box.
    MissingSlug { line: usize },
    /// A task that depends on a slug that no task has.
    UnknownDependency { task: String, dep: String },
}

pub enum PlanFault {
    MissingSlug(int),
    UnknownDependency(Seq<char>, Seq<char>),
}

impl View for PlanError {
    type V = PlanFault;

    open spec fn view(&self) -> PlanFault {
        match self {
            PlanError::MissingSlug { line } => PlanFault::MissingSlug(*line as int),
            PlanError::UnknownDependency { task, dep } => PlanFault::UnknownDependency(
                task@,
                dep@,
            ),
        }
    }
}

pub open spec fn two_spaces() -> Seq<char> {
    seq![' ', ' ']
}

/// The task with one more piece of description, joined by a space.
pub open spec fn with_more_description(t: TaskModel, piece: Seq<char>) -> TaskModel {
    TaskModel {
        description: if t.description.len() == 0 {
            piece
        } else {
            t.description.push(' ') + piece
        },
        ..t
    }
}

/// The tasks after line `i` (0-based) is read.
pub open spec fn scan_line(ts: Seq<TaskModel>, line: Seq<char>, i: int) -> Result<
    Seq<TaskModel>,
    PlanFault,
> {
    let t = trim_start(line);
    match checkbox(t) {
        None => Ok(
            if ts.len() > 0 && starts_with(line, two_spaces()) {
                ts.update(ts.len() - 1, with_more_description(ts.last(), trim(line)))
            } else {
                ts
            },
        ),
        Some(done) => match bold_slug(trim_start(t.skip(5))) {
            None => Err(PlanFault::MissingSlug(i + 1)),
            Some(p) => Ok(
                ts.push(
                    TaskModel {
                        done,
                        slug: p.0,
                        estimate: estimate_of(p.1),
                        depends: depends_of(p.1),
                        line: i,
                        description: seq![],
                    },
                ),
            ),
        },
    }
}

/// The tasks of the first `n` lines, or the first line that has no slug.
pub open spec fn scan_lines(lines: Seq<Seq<char>>, n: int) -> Result<Seq<TaskModel>, PlanFault>
    decreases n,
{
    if n <= 0 {
        Ok(seq![])
    } else {
        match scan_lines(lines, n - 1) {
            Err(e) => Err(e),
            Ok(ts) => scan_line(ts, lines[n - 1], n - 1),
        }
    }
}

pub open spec fn is_slug_of(ts: Seq<TaskModel>, d: Seq<char>) -> bool {
    exists|k: int| 0 <= k < ts.len() && (#[trigger] ts[k]).slug == d
}

pub open spec fn unknown_at(all: Seq<TaskModel>, deps: Seq<Seq<char>>) -> spec_fn(int) -> bool {
    |k: int| !is_slug_of(all, deps[k])
}

/// The first dependency in `deps` that names no task of `all`.
pub open spec fn first_unknown(all: Seq<TaskModel>, deps: Seq<Seq<char>>) -> Option<Seq<char>> {
    let k = first_at(0, deps.len() as int, unknown_at(all, deps));
    if k < deps.len() {
        Some(deps[k])
    } else {
        None
    }
}

pub open spec fn has_unknown_at(all: Seq<TaskModel>) -> spec_fn(int) -> bool {
    |k: int| first_unknown(all, all[k].depends) is Some
}

/// The first task, in plan order, with a dependency on no task, and that dependency.
pub open spec fn unknown_dependency(all: Seq<TaskModel>) -> Option<(Seq<char>, Seq<char>)> {
    let k = first_at(0, all.len() as int, has_unknown_at(all));
    if k < all.len() {
        Some((all[k].slug, first_unknown(all, all[k].depends)->0))
    } else {
        None
    }
}

/// What the plan's lines mean: its tasks, or why they are refused.
pub open spec fn parse_plan(lines: Seq<Seq<char>>) -> Result<Seq<TaskModel>, PlanFault> {
    match scan_lines(lines, lines.len() as int) {
        Err(e) => Err(e),
        Ok(ts) => match unknown_dependency(ts) {
            Some(p) => Err(PlanFault::UnknownDependency(p.0, p.1)),
            None => Ok(ts),
        },
    }
}

proof fn lemma_scan_error_sticks(lines: Seq<Seq<char>>, n: int, m: int)
    requires
        0 <= n <= m,
        scan_lines(lines, n) is Err,
    ensures
        scan_lines(lines, m) == scan_lines(lines, n),
    decreases m - n,
{
    if n < m {
        lemma_scan_error_sticks(lines, n, m - 1);
    }
}

fn two_spaces_exec() -> (r: Vec<char>)
    ensures
        r@ == two_spaces(),
{
    let r = vec![' ', ' '];
    assert(r@ =~= two_spaces());
    r
}

/// Whether some task has the slug `d`.
pub fn slug_known(tasks: &Vec<Task>, d: &String) -> (r: bool)
    ensures
        r == is_slug_of(task_views(tasks@), d@),
{
    let mut k: usize = 0;
    while k < tasks.len()
        invariant
            k <= tasks@.len(),
            forall|m: int| 0 <= m < k ==> tasks@[m].slug@ != d@,
        decreases tasks.len() - k,
    {
        if tasks[k].slug == *d {
            assert(task_views(tasks@)[k as int].slug == d@);
            return true;
        }
        k = k + 1;
    }
    assert forall|m: int| 0 <= m < task_views(tasks@).len() implies (#[trigger] task_views(
        tasks@,
    )[m]).slug != d@ by {
        assert(tasks@[m].slug@ != d@);
    }
    false
}

/// The first dependency of `deps` that names no task.
fn first_unknown_exec(tasks: &Vec<Task>, deps: &Vec<String>) -> (r: Option<usize>)
    ensures
        match r {
            Some(k) => k < deps@.len() && first_unknown(task_views(tasks@), string_views(deps@))
                == Some(deps@[k as int]@),
            None => first_unknown(task_views(tasks@), string_views(deps@)) is None,
        },
{
    let ghost all = task_views(tasks@);
    let ghost ds = string_views(deps@);
    let mut k: usize = 0;
    while k < deps.len()
        invariant
            k <= deps@.len(),
            all == task_views(tasks@),
            ds == string_views(deps@),
            forall|m: int| 0 <= m < k ==> !(#[trigger] unknown_at(all, ds)(m)),
        decreases deps.len() - k,
    {
        if !slug_known(tasks, &deps[k]) {
            proof {
                lemma_first_at_unique(0, ds.len() as int, unknown_at(all, ds), k as int);
            }
            return Some(k);
        }
        assert(!unknown_at(all, ds)(k as int));
        k = k + 1;
    }
    proof {
        lemma_first_at_unique(0, ds.len() as int, unknown_at(all, ds), ds.len() as int);
    }
    None
}

/// Reads the tasks of a plan's lines. Refuses a checkbox line without a slug,
/// and a dependency on a slug that no task has.
/// A plan is accepted only when every dependency of every task names a task
/// of the plan.
pub proof fn law_accepted_dependencies_exist(lines: Seq<Seq<char>>)
    ensures
        parse_plan(lines) matches Ok(ts) ==> forall|i: int, k: int|
            0 <= i < ts.len() && 0 <= k < ts[i].depends.len() ==> exists|j: int|
                0 <= j < ts.len() && (#[trigger] ts[j]).slug == #[trigger] ts[i].depends[k],
{
    if parse_plan(lines) is Ok {
        let ts = parse_plan(lines)->Ok_0;
        let n = ts.len() as int;
        assert(unknown_dependency(ts) is None);
        lemma_first_at(0, n, has_unknown_at(ts));
        assert forall|i: int, k: int|
            0 <= i < ts.len() && 0 <= k < ts[i].depends.len() implies exists|j: int|
                0 <= j < ts.len() && (#[trigger] ts[j]).slug == #[trigger] ts[i].depends[k] by {
            assert(!has_unknown_at(ts)(i));
            let deps = ts[i].depends;
            assert(first_unknown(ts, deps) is None);
            lemma_first_at(0, deps.len() as int, unknown_at(ts, deps));
            assert(!unknown_at(ts, deps)(k));
            assert(is_slug_of(ts, deps[k]));
        }
    }
}

pub fn parse_tasks(lines: &[String]) -> (r: Result<Vec<Task>, PlanError>)
    ensures
        match r {
            Ok(ts) => parse_plan(string_views(lines@)) == Ok::<Seq<TaskModel>, PlanFault>(
                task_views(ts@),
            ),
            Err(e) => parse_plan(string_views(lines@)) == Err::<Seq<TaskModel>, PlanFault>(e@),
        },
        r matches Ok(ts) ==> forall|i: int, k: int|
            0 <= i < ts@.len() && 0 <= k < task_views(ts@)[i].depends.len() ==> exists|j: int|
                0 <= j < ts@.len() && (#[trigger] task_views(ts@)[j]).slug
                    == #[trigger] task_views(ts@)[i].depends[k],
{
    proof {
        law_accepted_dependencies_exist(string_views(lines@));
    }
    let ghost lv = string_views(lines@);
    let mut tasks: Vec<Task> = Vec::new();
    let mut i: usize = 0;
    assert(task_views(tasks@) =~= Seq::<TaskModel>::empty());
    while i < lines.len()
        invariant
            i <= lines@.len(),
            lv == string_views(lines@),
            scan_lines(lv, i as int) == Ok::<Seq<TaskModel>, PlanFault>(task_views(tasks@)),
        decreases lines.len() - i,
    {
        let line = chars_of(lines[i].as_str());
        assert(line@ == lv[i as int]);
        let t = trim_start_exec(&line);
        let ghost before = task_views(tasks@);
        match checkbox_exec(&t) {
            None => {
                if tasks.len() > 0 && starts_with_exec(&line, &two_spaces_exec()) {
                    let piece = trim_exec(&line);
                    let mut last = tasks.pop().unwrap();
                    let mut d = chars_of(last.description.as_str());
                    if d.len() > 0 {
                        d.push(' ');
                    }
                    push_all(&mut d, &piece);
                    last.description = string_of(&d);
                    let ghost lm = last@;
                    tasks.push(last);
                    assert(task_views(tasks@) =~= before.update(
                        before.len() - 1,
                        with_more_description(before.last(), piece@),
                    ));
                }
            },
            Some(done) => {
                let after_box = sub_vec(&t, 5, t.len());
                assert(after_box@ =~= t@.skip(5));
                let body = trim_start_exec(&after_box);
                match bold_slug_chars(&body) {
                    None => {
                        proof {
                            lemma_scan_error_sticks(lv, i + 1, lv.len() as int);
                        }
                        return Err(PlanError::MissingSlug { line: i + 1 });
                    },
                    Some((slug, after)) => {
                        let task = Task {
                            done,
                            slug: string_of(&slug),
                            estimate: estimate_chars(&after),
                            depends: strings_of(&depends_chars(&after)),
                            line: i,
                            description: String::new(),
                        };
                        tasks.push(task);
                        assert(task_views(tasks@) =~= before.push(task@));
                    },
                }
            },
        }
        i = i + 1;
    }
    assert(lv.len() == lines@.len());
    let ghost all = task_views(tasks@);
    let mut k: usize = 0;
    while k < tasks.len()
        invariant
            k <= tasks@.len(),
            all == task_views(tasks@),
            lv == string_views(lines@),
            scan_lines(lv, lv.len() as int) == Ok::<Seq<TaskModel>, PlanFault>(all),
            forall|m: int| 0 <= m < k ==> !(#[trigger] has_unknown_at(all)(m)),
        decreases tasks.len() - k,
    {
        match first_unknown_exec(&tasks, &tasks[k].depends) {
            Some(j) => {
                proof {
                    assert(all[k as int].depends == string_views(tasks@[k as int].depends@));
                    lemma_first_at_unique(0, all.len() as int, has_unknown_at(all), k as int);
                }
                let task = tasks[k].slug.clone();
                let dep = tasks[k].depends[j].clone();
                assert(string_views(tasks@[k as int].depends@)[j as int] == dep@);
                assert(unknown_dependency(all) == Some((task@, dep@)));
                assert(scan_lines(lv, lv.len() as int) == Ok::<Seq<TaskModel>, PlanFault>(all));
                return Err(PlanError::UnknownDependency { task, dep });
            },
            None => {
                assert(all[k as int].depends == string_views(tasks@[k as int].depends@));
                assert(!has_unknown_at(all)(k as int));
            },
        }
        k = k + 1;
    }
    proof {
        lemma_first_at_unique(0, all.len() as int, has_unknown_at(all), all.len() as int);
    }
    Ok(tasks)
}

} // verus!

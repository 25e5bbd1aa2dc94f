//! The dependency graph of a plan: which tasks are blocked, directly or
//! through what they depend on, and which are runnable.
use vstd::prelude::*;

use crate::plan::{string_views, task_views, Task, TaskModel};
use crate::text::{chars_of, concat, first_at, lemma_first_at, lemma_first_at_unique, string_of};
use crate::text::{push_all, trim, trim_end, trim_end_exec, trim_exec};

verus! {

broadcast use vstd::seq_lib::group_seq_properties;

/// The index of the last task with slug `s` among the first `n` (a map from
/// slug to task keeps the last one).
pub open spec fn last_index(ts: Seq<TaskModel>, s: Seq<char>, n: int) -> Option<int>
    decreases n,
{
    if n <= 0 {
        None
    } else if ts[n - 1].slug == s {
        Some(n - 1)
    } else {
        last_index(ts, s, n - 1)
    }
}

/// The task that the slug `s` stands for.
pub open spec fn task_for(ts: Seq<TaskModel>, s: Seq<char>) -> Option<int> {
    last_index(ts, s, ts.len() as int)
}

/// The slugs that `s` depends on (none when no task has that slug).
pub open spec fn successors(ts: Seq<TaskModel>, s: Seq<char>) -> Seq<Seq<char>> {
    match task_for(ts, s) {
        Some(k) => ts[k].depends,
        None => seq![],
    }
}

/// `p` follows dependency edges from its first slug to its last.
pub open spec fn is_path(ts: Seq<TaskModel>, p: Seq<Seq<char>>) -> bool {
    p.len() > 0 && forall|i: int| 0 <= i < p.len() - 1 ==> successors(ts, #[trigger] p[i]).contains(p[i + 1])
}

/// `b` is `a` or something that `a` depends on, directly or through others.
pub open spec fn reaches(ts: Seq<TaskModel>, a: Seq<char>, b: Seq<char>) -> bool {
    exists|p: Seq<Seq<char>>| is_path(ts, p) && p[0] == a && p.last() == b
}

pub open spec fn blocked_suffix() -> Seq<char> {
    "_blocked.md"@
}

/// The name of the file that marks `slug` as blocked.
pub open spec fn blocked_name(slug: Seq<char>) -> Seq<char> {
    slug + blocked_suffix()
}

/// `<slug>_blocked.md` is among `files`, the paths, relative to the track's
/// directory, that exist there.
pub open spec fn is_blocked(files: Seq<Seq<char>>, slug: Seq<char>) -> bool {
    files.contains(blocked_name(slug))
}

/// `s` blocks the task with slug `start`: it is reachable from it and blocked.
pub open spec fn blocks(ts: Seq<TaskModel>, files: Seq<Seq<char>>, start: Seq<char>, s: Seq<char>) -> bool {
    reaches(ts, start, s) && is_blocked(files, s)
}

/// Whether `<slug>_blocked.md` is among `files`, the paths, relative to the
/// track's directory, that exist there.
pub fn directly_blocked(files: &[String], slug: &str) -> (r: bool)
    ensures
        r == is_blocked(string_views(files@), slug@),
{
    let name = string_of(&concat(&chars_of(slug), &chars_of("_blocked.md")));
    let mut i: usize = 0;
    while i < files.len()
        invariant
            i <= files@.len(),
            name@ == blocked_name(slug@),
            forall|k: int| 0 <= k < i ==> files@[k]@ != name@,
        decreases files.len() - i,
    {
        if files[i] == name {
            assert(string_views(files@)[i as int] == name@);
            return true;
        }
        i = i + 1;
    }
    assert forall|k: int| 0 <= k < string_views(files@).len() implies string_views(files@)[k]
        != name@ by {
        assert(files@[k]@ != name@);
    }
    false
}

/// What `block` writes to `<slug>_blocked.md`: the question without its
/// trailing whitespace, and a line break.
pub open spec fn blocked_text(question: Seq<char>) -> Seq<char> {
    trim_end(question).push('\n')
}

pub fn blocked_file_text(question: &str) -> (r: String)
    ensures
        r@ == blocked_text(question@),
{
    let mut v = trim_end_exec(&chars_of(question));
    v.push('\n');
    string_of(&v)
}

/// The line that `blocked` prints for a blocked task: `[slug] ` and the
/// trimmed text of its blocked file.
pub open spec fn blocked_entry_text(slug: Seq<char>, text: Seq<char>) -> Seq<char> {
    seq!['['] + slug + seq![']', ' '] + trim(text)
}

pub fn blocked_entry(slug: &str, text: &str) -> (r: String)
    ensures
        r@ == blocked_entry_text(slug@, text@),
{
    let mut v: Vec<char> = Vec::new();
    v.push('[');
    push_all(&mut v, &chars_of(slug));
    v.push(']');
    v.push(' ');
    push_all(&mut v, &trim_exec(&chars_of(text)));
    assert(v@ =~= blocked_entry_text(slug@, text@));
    string_of(&v)
}

/// Every slug that occurs as a dependency, after `start`.
pub open spec fn all_depends(ts: Seq<TaskModel>) -> Seq<Seq<char>>
    decreases ts.len(),
{
    if ts.len() == 0 {
        seq![]
    } else {
        all_depends(ts.drop_last()) + ts.last().depends
    }
}

pub open spec fn universe(ts: Seq<TaskModel>, start: Seq<char>) -> Seq<Seq<char>> {
    seq![start] + all_depends(ts)
}

proof fn lemma_all_depends_contains(ts: Seq<TaskModel>, k: int, j: int)
    requires
        0 <= k < ts.len(),
        0 <= j < ts[k].depends.len(),
    ensures
        all_depends(ts).contains(ts[k].depends[j]),
    decreases ts.len(),
{
    let prev = all_depends(ts.drop_last());
    if k == ts.len() - 1 {
        assert((prev + ts.last().depends)[prev.len() + j] == ts[k].depends[j]);
    } else {
        lemma_all_depends_contains(ts.drop_last(), k, j);
        let i = choose|i: int| 0 <= i < prev.len() && prev[i] == ts[k].depends[j];
        assert((prev + ts.last().depends)[i] == ts[k].depends[j]);
    }
}

proof fn lemma_successor_in_universe(ts: Seq<TaskModel>, start: Seq<char>, s: Seq<char>, d: Seq<char>)
    requires
        successors(ts, s).contains(d),
    ensures
        universe(ts, start).contains(d),
{
    lemma_last_index(ts, s, ts.len() as int);
    let k = task_for(ts, s)->0;
    let j = choose|j: int| 0 <= j < ts[k].depends.len() && ts[k].depends[j] == d;
    lemma_all_depends_contains(ts, k, j);
    let ad = all_depends(ts);
    let i = choose|i: int| 0 <= i < ad.len() && ad[i] == d;
    assert(universe(ts, start)[i + 1] == d);
}

pub proof fn lemma_last_index(ts: Seq<TaskModel>, s: Seq<char>, n: int)
    requires
        0 <= n <= ts.len(),
    ensures
        last_index(ts, s, n) matches Some(k) ==> 0 <= k < n && ts[k].slug == s && forall|m: int|
            k < m < n ==> ts[m].slug != s,
        last_index(ts, s, n) is None ==> forall|m: int| 0 <= m < n ==> ts[m].slug != s,
    decreases n,
{
    if n > 0 {
        lemma_last_index(ts, s, n - 1);
    }
}

proof fn lemma_distinct_within(a: Seq<Seq<char>>, u: Seq<Seq<char>>)
    requires
        a.no_duplicates(),
        forall|i: int| 0 <= i < a.len() ==> u.contains(#[trigger] a[i]),
    ensures
        a.len() <= u.len(),
{
    broadcast use vstd::seq_lib::seq_to_set_is_finite;

    a.unique_seq_to_set();
    u.lemma_cardinality_of_set();
    assert forall|x: Seq<char>| a.to_set().contains(x) implies u.to_set().contains(x) by {
        let i = choose|i: int| 0 <= i < a.len() && a[i] == x;
    }
    vstd::set_lib::lemma_len_subset(a.to_set(), u.to_set());
}

/// A set that holds `p[0]` and is closed under dependency edges holds all of `p`.
proof fn lemma_closed_holds_path(ts: Seq<TaskModel>, seen: Seq<Seq<char>>, p: Seq<Seq<char>>)
    requires
        is_path(ts, p),
        seen.contains(p[0]),
        forall|x: Seq<char>, d: Seq<char>|
            seen.contains(x) && #[trigger] successors(ts, x).contains(d) ==> seen.contains(d),
    ensures
        seen.contains(p.last()),
    decreases p.len(),
{
    if p.len() > 1 {
        let q = p.drop_last();
        assert(is_path(ts, q)) by {
            assert forall|i: int| 0 <= i < q.len() - 1 implies successors(ts, #[trigger] q[i]).contains(q[i + 1]) by {
                assert(successors(ts, p[i]).contains(p[i + 1]));
            }
        }
        lemma_closed_holds_path(ts, seen, q);
        assert(successors(ts, p[p.len() - 2]).contains(p[p.len() - 1]));
    }
}

/// The last task with slug `s`.
pub fn task_index(tasks: &[Task], s: &String) -> (r: Option<usize>)
    ensures
        opt_index(r) == task_for(task_views(tasks@), s@),
{
    let ghost ts = task_views(tasks@);
    let mut n = tasks.len();
    while n > 0
        invariant
            n <= tasks@.len(),
            ts == task_views(tasks@),
            last_index(ts, s@, n as int) == task_for(ts, s@),
        decreases n,
    {
        if tasks[n - 1].slug == *s {
            assert(ts[n - 1].slug == s@);
            return Some(n - 1);
        }
        assert(ts[n - 1].slug != s@);
        n = n - 1;
    }
    None
}

pub open spec fn opt_index(r: Option<usize>) -> Option<int> {
    match r {
        Some(i) => Some(i as int),
        None => None,
    }
}

pub proof fn lemma_path_extend(ts: Seq<TaskModel>, p: Seq<Seq<char>>, d: Seq<char>)
    requires
        is_path(ts, p),
        successors(ts, p.last()).contains(d),
    ensures
        is_path(ts, p.push(d)),
        p.push(d)[0] == p[0],
        p.push(d).last() == d,
{
    let q = p.push(d);
    assert forall|i: int| 0 <= i < q.len() - 1 implies successors(ts, #[trigger] q[i]).contains(q[i + 1]) by {
        if i < p.len() - 1 {
            assert(successors(ts, p[i]).contains(p[i + 1]));
        }
    }
}

pub proof fn lemma_reaches_self(ts: Seq<TaskModel>, a: Seq<char>)
    ensures
        reaches(ts, a, a),
{
    let p = seq![a];
    assert(is_path(ts, p) && p[0] == a && p.last() == a);
}

pub proof fn lemma_reaches_step(ts: Seq<TaskModel>, a: Seq<char>, b: Seq<char>, d: Seq<char>)
    requires
        reaches(ts, a, b),
        successors(ts, b).contains(d),
    ensures
        reaches(ts, a, d),
{
    let p = choose|p: Seq<Seq<char>>| is_path(ts, p) && p[0] == a && p.last() == b;
    lemma_path_extend(ts, p, d);
}

pub open spec fn tail(qv: Seq<Seq<char>>, head: int) -> Seq<Seq<char>> {
    qv.subrange(head, qv.len() as int)
}

/// What holds between the rounds of the breadth-first walk from `start`: `sv`
/// visited (each once), `qv[head..]` still to visit, `fv` the blocked slugs
/// visited other than `start`.
#[verifier::opaque]
pub open spec fn walk_inv(
    ts: Seq<TaskModel>,
    fs: Seq<Seq<char>>,
    start: Seq<char>,
    sv: Seq<Seq<char>>,
    qv: Seq<Seq<char>>,
    head: int,
    fv: Seq<Seq<char>>,
) -> bool {
    &&& 0 <= head <= qv.len()
    &&& forall|i: int|
        0 <= i < qv.len() ==> universe(ts, start).contains(#[trigger] qv[i]) && reaches(
            ts,
            start,
            qv[i],
        )
    &&& forall|i: int|
        0 <= i < sv.len() ==> universe(ts, start).contains(#[trigger] sv[i]) && reaches(
            ts,
            start,
            sv[i],
        )
    &&& sv.no_duplicates()
    &&& forall|x: Seq<char>, d: Seq<char>|
        sv.contains(x) && #[trigger] successors(ts, x).contains(d) ==> sv.contains(d) || tail(
            qv,
            head,
        ).contains(d)
    &&& sv.contains(start) || tail(qv, head).contains(start)
    &&& forall|x: Seq<char>|
        #[trigger] fv.contains(x) <==> (sv.contains(x) && x != start && is_blocked(fs, x))
    &&& fv.no_duplicates()
}

proof fn lemma_walk_start(ts: Seq<TaskModel>, fs: Seq<Seq<char>>, start: Seq<char>)
    ensures
        walk_inv(ts, fs, start, seq![], seq![start], 0, seq![]),
{
    reveal(walk_inv);
    lemma_reaches_self(ts, start);
    assert(universe(ts, start)[0] == start);
    assert(tail(seq![start], 0)[0] == start);
}

proof fn lemma_walk_bound(
    ts: Seq<TaskModel>,
    fs: Seq<Seq<char>>,
    start: Seq<char>,
    sv: Seq<Seq<char>>,
    qv: Seq<Seq<char>>,
    head: int,
    fv: Seq<Seq<char>>,
)
    requires
        walk_inv(ts, fs, start, sv, qv, head, fv),
    ensures
        sv.len() <= universe(ts, start).len(),
        0 <= head <= qv.len(),
{
    reveal(walk_inv);
    lemma_distinct_within(sv, universe(ts, start));
}

proof fn lemma_walk_skip(
    ts: Seq<TaskModel>,
    fs: Seq<Seq<char>>,
    start: Seq<char>,
    sv: Seq<Seq<char>>,
    qv: Seq<Seq<char>>,
    head: int,
    fv: Seq<Seq<char>>,
)
    requires
        walk_inv(ts, fs, start, sv, qv, head, fv),
        head < qv.len(),
        sv.contains(qv[head]),
    ensures
        walk_inv(ts, fs, start, sv, qv, head + 1, fv),
{
    reveal(walk_inv);
    let t0 = tail(qv, head);
    let t1 = tail(qv, head + 1);
    assert forall|d: Seq<char>| t0.contains(d) && d != qv[head] implies t1.contains(d) by {
        let j = choose|j: int| 0 <= j < t0.len() && t0[j] == d;
        assert(t1[j - 1] == d);
    }
}

proof fn lemma_visit_queue(ts: Seq<TaskModel>, start: Seq<char>, qv: Seq<Seq<char>>, head: int)
    requires
        0 <= head < qv.len(),
        forall|i: int|
            0 <= i < qv.len() ==> universe(ts, start).contains(#[trigger] qv[i]) && reaches(
                ts,
                start,
                qv[i],
            ),
    ensures
        forall|i: int|
            0 <= i < (qv + successors(ts, qv[head])).len() ==> universe(ts, start).contains(
                #[trigger] (qv + successors(ts, qv[head]))[i],
            ) && reaches(ts, start, (qv + successors(ts, qv[head]))[i]),
        forall|m: int|
            1 <= m < tail(qv, head).len() ==> tail(qv + successors(ts, qv[head]), head + 1).contains(
                #[trigger] tail(qv, head)[m],
            ),
        forall|d: Seq<char>|
            #[trigger] successors(ts, qv[head]).contains(d) ==> tail(
                qv + successors(ts, qv[head]),
                head + 1,
            ).contains(d),
{
    let s = qv[head];
    let ds = successors(ts, s);
    let qv1 = qv + ds;
    let t0 = tail(qv, head);
    let t1 = tail(qv1, head + 1);
    assert forall|m: int| 1 <= m < t0.len() implies t1.contains(#[trigger] t0[m]) by {
        assert(t1[m - 1] == t0[m]);
    }
    assert forall|d: Seq<char>| #[trigger] ds.contains(d) implies t1.contains(d) by {
        let jd = choose|jd: int| 0 <= jd < ds.len() && ds[jd] == d;
        assert(t1[qv.len() - head - 1 + jd] == d);
    }
    assert forall|i: int| 0 <= i < qv1.len() implies universe(ts, start).contains(
        #[trigger] qv1[i],
    ) && reaches(ts, start, qv1[i]) by {
        if i >= qv.len() {
            assert(ds[i - qv.len()] == qv1[i]);
            assert(ds.contains(qv1[i]));
            lemma_successor_in_universe(ts, start, s, qv1[i]);
            lemma_reaches_step(ts, start, s, qv1[i]);
        }
    }
}

proof fn lemma_visit_seen(
    ts: Seq<TaskModel>,
    start: Seq<char>,
    sv: Seq<Seq<char>>,
    s: Seq<char>,
)
    requires
        !sv.contains(s),
        sv.no_duplicates(),
        universe(ts, start).contains(s) && reaches(ts, start, s),
        forall|i: int|
            0 <= i < sv.len() ==> universe(ts, start).contains(#[trigger] sv[i]) && reaches(
                ts,
                start,
                sv[i],
            ),
    ensures
        sv.push(s).no_duplicates(),
        forall|i: int|
            0 <= i < sv.push(s).len() ==> universe(ts, start).contains(#[trigger] sv.push(s)[i])
                && reaches(ts, start, sv.push(s)[i]),
{
    let sv1 = sv.push(s);
    assert forall|i: int| 0 <= i < sv1.len() implies universe(ts, start).contains(
        #[trigger] sv1[i],
    ) && reaches(ts, start, sv1[i]) by {
        if i < sv.len() {
            assert(sv1[i] == sv[i]);
        }
    }
    assert forall|i: int, j: int| 0 <= i < sv1.len() && 0 <= j < sv1.len() && i != j implies sv1[i]
        != sv1[j] by {
        if i == sv.len() as int {
            assert(sv1[j] == sv[j]);
        } else if j == sv.len() as int {
            assert(sv1[i] == sv[i]);
        } else {
            assert(sv1[i] == sv[i] && sv1[j] == sv[j]);
        }
    }
}

proof fn lemma_visit_found(
    fs: Seq<Seq<char>>,
    start: Seq<char>,
    sv: Seq<Seq<char>>,
    s: Seq<char>,
    fv: Seq<Seq<char>>,
    fv2: Seq<Seq<char>>,
)
    requires
        !sv.contains(s),
        forall|x: Seq<char>|
            #[trigger] fv.contains(x) <==> (sv.contains(x) && x != start && is_blocked(fs, x)),
        fv.no_duplicates(),
        fv2 == (if s != start && is_blocked(fs, s) {
            fv.push(s)
        } else {
            fv
        }),
    ensures
        forall|x: Seq<char>|
            #[trigger] fv2.contains(x) <==> (sv.push(s).contains(x) && x != start && is_blocked(
                fs,
                x,
            )),
        fv2.no_duplicates(),
{
    let sv1 = sv.push(s);
    assert forall|x: Seq<char>| #[trigger] fv2.contains(x) <==> (sv1.contains(x) && x != start
        && is_blocked(fs, x)) by {
        if x != s {
            if sv1.contains(x) {
                let i = choose|i: int| 0 <= i < sv1.len() && sv1[i] == x;
                assert(sv[i] == x);
            }
            if fv2.contains(x) && fv2 != fv {
                let i = choose|i: int| 0 <= i < fv2.len() && fv2[i] == x;
                assert(fv[i] == x);
            }
            if fv.contains(x) {
                let i = choose|i: int| 0 <= i < fv.len() && fv[i] == x;
                assert(fv2[i] == x);
            }
        } else {
            assert(sv1[sv.len() as int] == s);
            if fv2 != fv {
                assert(fv2[fv.len() as int] == s);
            } else {
                assert(!fv.contains(s));
            }
        }
    }
    assert forall|i: int, j: int| 0 <= i < fv2.len() && 0 <= j < fv2.len() && i != j implies fv2[i]
        != fv2[j] by {
        if fv2 != fv {
            if i == fv.len() as int {
                assert(fv2[j] == fv[j]);
                assert(fv.contains(fv[j]));
            } else if j == fv.len() as int {
                assert(fv2[i] == fv[i]);
                assert(fv.contains(fv[i]));
            } else {
                assert(fv2[i] == fv[i] && fv2[j] == fv[j]);
            }
        }
    }
}

proof fn lemma_walk_visit(
    ts: Seq<TaskModel>,
    fs: Seq<Seq<char>>,
    start: Seq<char>,
    sv: Seq<Seq<char>>,
    qv: Seq<Seq<char>>,
    head: int,
    fv: Seq<Seq<char>>,
    fv2: Seq<Seq<char>>,
)
    requires
        walk_inv(ts, fs, start, sv, qv, head, fv),
        head < qv.len(),
        !sv.contains(qv[head]),
        fv2 == (if qv[head] != start && is_blocked(fs, qv[head]) {
            fv.push(qv[head])
        } else {
            fv
        }),
    ensures
        walk_inv(
            ts,
            fs,
            start,
            sv.push(qv[head]),
            qv + successors(ts, qv[head]),
            head + 1,
            fv2,
        ),
{
    reveal(walk_inv);
    let s = qv[head];
    let sv1 = sv.push(s);
    let qv1 = qv + successors(ts, s);
    let t0 = tail(qv, head);
    let t1 = tail(qv1, head + 1);
    lemma_visit_queue(ts, start, qv, head);
    lemma_visit_seen(ts, start, sv, s);
    lemma_visit_found(fs, start, sv, s, fv, fv2);
    assert(sv1[sv.len() as int] == s);
    assert forall|x: Seq<char>, d: Seq<char>|
        sv1.contains(x) && #[trigger] successors(ts, x).contains(d) implies sv1.contains(d)
        || t1.contains(d) by {
        if x != s {
            let i = choose|i: int| 0 <= i < sv1.len() && sv1[i] == x;
            assert(sv[i] == x);
            if !sv.contains(d) {
                let m = choose|m: int| 0 <= m < t0.len() && t0[m] == d;
                if m == 0 {
                    assert(sv1[sv.len() as int] == d);
                }
            } else {
                let k = choose|k: int| 0 <= k < sv.len() && sv[k] == d;
                assert(sv1[k] == d);
            }
        }
    }
    if !sv.contains(start) {
        let m = choose|m: int| 0 <= m < t0.len() && t0[m] == start;
        if m == 0 {
            assert(sv1[sv.len() as int] == start);
        }
    } else {
        let k = choose|k: int| 0 <= k < sv.len() && sv[k] == start;
        assert(sv1[k] == start);
    }
}

proof fn lemma_walk_done(
    ts: Seq<TaskModel>,
    fs: Seq<Seq<char>>,
    start: Seq<char>,
    sv: Seq<Seq<char>>,
    qv: Seq<Seq<char>>,
    fv: Seq<Seq<char>>,
)
    requires
        walk_inv(ts, fs, start, sv, qv, qv.len() as int, fv),
    ensures
        forall|s: Seq<char>| #[trigger] fv.contains(s) <==> (blocks(ts, fs, start, s) && s != start),
        fv.no_duplicates(),
{
    reveal(walk_inv);
    assert(tail(qv, qv.len() as int) =~= Seq::<Seq<char>>::empty());
    assert forall|x: Seq<char>, d: Seq<char>|
        sv.contains(x) && #[trigger] successors(ts, x).contains(d) implies sv.contains(d) by {
        assert(!tail(qv, qv.len() as int).contains(d));
    }
    assert forall|s: Seq<char>| #[trigger] fv.contains(s) <==> (blocks(ts, fs, start, s) && s
        != start) by {
        if blocks(ts, fs, start, s) {
            let p = choose|p: Seq<Seq<char>>| is_path(ts, p) && p[0] == start && p.last() == s;
            lemma_closed_holds_path(ts, sv, p);
        }
        if fv.contains(s) {
            let i = choose|i: int| 0 <= i < sv.len() && sv[i] == s;
            assert(reaches(ts, start, sv[i]));
        }
    }
}

/// Whether `s` is one of `v`.
pub fn contains_string(v: &Vec<String>, s: &String) -> (r: bool)
    ensures
        r == string_views(v@).contains(s@),
{
    let mut k: usize = 0;
    while k < v.len()
        invariant
            k <= v@.len(),
            forall|m: int| 0 <= m < k ==> v@[m]@ != s@,
        decreases v.len() - k,
    {
        if v[k] == *s {
            assert(string_views(v@)[k as int] == s@);
            return true;
        }
        k = k + 1;
    }
    assert forall|m: int| 0 <= m < string_views(v@).len() implies string_views(v@)[m] != s@ by {
        assert(v@[m]@ != s@);
    }
    false
}

/// Appends copies of `extra` to `v`.
pub fn push_strings(v: &mut Vec<String>, extra: &Vec<String>)
    ensures
        string_views(final(v)@) == string_views(old(v)@) + string_views(extra@),
{
    let ghost v0 = string_views(v@);
    let mut j: usize = 0;
    while j < extra.len()
        invariant
            j <= extra@.len(),
            string_views(v@) == v0 + string_views(extra@).take(j as int),
        decreases extra.len() - j,
    {
        let ghost prev = v@;
        v.push(extra[j].clone());
        assert(string_views(v@) =~= string_views(prev).push(extra@[j as int]@));
        assert(string_views(extra@).take(j + 1) =~= string_views(extra@).take(j as int).push(
            extra@[j as int]@,
        ));
        j = j + 1;
    }
    assert(string_views(extra@).take(extra@.len() as int) =~= string_views(extra@));
}

/// The slugs that block `start`, each once: `start` itself first when it is
/// blocked, then the blocked slugs it depends on, directly or transitively.
fn blockers_from(files: &[String], tasks: &[Task], start: &String) -> (r: Vec<String>)
    ensures
        forall|s: Seq<char>|
            #[trigger] string_views(r@).contains(s) <==> blocks(
                task_views(tasks@),
                string_views(files@),
                start@,
                s,
            ),
        string_views(r@).no_duplicates(),
        is_blocked(string_views(files@), start@) ==> r@.len() > 0 && r@[0]@ == start@,
{
    let ghost ts = task_views(tasks@);
    let ghost fs = string_views(files@);
    let mut queue: Vec<String> = Vec::new();
    queue.push(start.clone());
    let mut head: usize = 0;
    let mut seen: Vec<String> = Vec::new();
    let mut found: Vec<String> = Vec::new();
    proof {
        lemma_walk_start(ts, fs, start@);
        assert(string_views(queue@) =~= seq![start@]);
        assert(string_views(seen@) =~= Seq::<Seq<char>>::empty());
        assert(string_views(found@) =~= Seq::<Seq<char>>::empty());
    }
    while head < queue.len()
        invariant
            ts == task_views(tasks@),
            fs == string_views(files@),
            head <= queue@.len(),
            walk_inv(
                ts,
                fs,
                start@,
                string_views(seen@),
                string_views(queue@),
                head as int,
                string_views(found@),
            ),
        decreases universe(ts, start@).len() - seen@.len(), queue@.len() - head,
    {
        let ghost sv0 = string_views(seen@);
        let ghost qv0 = string_views(queue@);
        let ghost fv0 = string_views(found@);
        let ghost head0 = head as int;
        proof {
            lemma_walk_bound(ts, fs, start@, sv0, qv0, head0, fv0);
        }
        let s = queue[head].clone();
        assert(s@ == qv0[head0]);
        head = head + 1;
        if contains_string(&seen, &s) {
            proof {
                lemma_walk_skip(ts, fs, start@, sv0, qv0, head0, fv0);
            }
            continue;
        }
        seen.push(s.clone());
        assert(string_views(seen@) =~= sv0.push(s@));
        if !(s == *start) && directly_blocked(files, s.as_str()) {
            found.push(s.clone());
            assert(string_views(found@) =~= fv0.push(s@));
        }
        let ti = task_index(tasks, &s);
        proof {
            lemma_last_index(ts, s@, ts.len() as int);
        }
        match ti {
            Some(t) => {
                push_strings(&mut queue, &tasks[t].depends);
            },
            None => {
                assert(successors(ts, s@) =~= Seq::<Seq<char>>::empty());
                assert(qv0 + successors(ts, s@) =~= qv0);
            },
        }
        proof {
            lemma_walk_visit(ts, fs, start@, sv0, qv0, head0, fv0, string_views(found@));
            lemma_walk_bound(ts, fs, start@, sv0.push(s@), string_views(queue@), head as int, string_views(found@));
        }
    }
    proof {
        lemma_walk_done(ts, fs, start@, string_views(seen@), string_views(queue@), string_views(found@));
    }
    if directly_blocked(files, start.as_str()) {
        let ghost fv0 = string_views(found@);
        found.insert(0, start.clone());
        proof {
            let fv1 = string_views(found@);
            assert(fv1 =~= seq![start@] + fv0);
            lemma_reaches_self(ts, start@);
            assert(!fv0.contains(start@));
            assert forall|i: int, j: int| 0 <= i < fv1.len() && 0 <= j < fv1.len() && i != j
                implies fv1[i] != fv1[j] by {
                if i > 0 && j > 0 {
                    assert(fv0[i - 1] != fv0[j - 1]);
                } else if i == 0 {
                    assert(fv1[j] == fv0[j - 1]);
                } else {
                    assert(fv1[i] == fv0[i - 1]);
                }
            }
            assert forall|s: Seq<char>| #[trigger] fv1.contains(s) <==> blocks(ts, fs, start@, s) by {
                if fv1.contains(s) && s != start@ {
                    let i = choose|i: int| 0 <= i < fv1.len() && fv1[i] == s;
                    assert(fv0[i - 1] == s);
                }
                if fv0.contains(s) {
                    let i = choose|i: int| 0 <= i < fv0.len() && fv0[i] == s;
                    assert(fv1[i + 1] == s);
                }
                if s == start@ {
                    assert(fv1[0] == s);
                }
            }
        }
    } else {
        assert(!blocks(ts, fs, start@, start@));
    }
    found
}

/// For each task, in plan order, the slugs that block it: itself first when it
/// is blocked, then each blocked slug it depends on directly or transitively,
/// each once. `files` are the paths, relative to the track's directory, that
/// exist there.
pub fn transitive_blockers(files: &[String], tasks: &[Task]) -> (r: Vec<Vec<String>>)
    ensures
        r@.len() == tasks@.len(),
        forall|i: int, s: Seq<char>|
            0 <= i < tasks@.len() ==> (#[trigger] string_views(r@[i]@).contains(s) <==> blocks(
                task_views(tasks@),
                string_views(files@),
                tasks@[i].slug@,
                s,
            )),
        forall|i: int| 0 <= i < tasks@.len() ==> string_views(#[trigger] r@[i]@).no_duplicates(),
        forall|i: int|
            0 <= i < tasks@.len() && is_blocked(string_views(files@), tasks@[i].slug@)
                ==> (#[trigger] r@[i]@).len() > 0 && r@[i]@[0]@ == tasks@[i].slug@,
{
    let mut out: Vec<Vec<String>> = Vec::new();
    let mut i: usize = 0;
    while i < tasks.len()
        invariant
            i <= tasks@.len(),
            out@.len() == i,
            forall|k: int, s: Seq<char>|
                0 <= k < i ==> (#[trigger] string_views(out@[k]@).contains(s) <==> blocks(
                    task_views(tasks@),
                    string_views(files@),
                    tasks@[k].slug@,
                    s,
                )),
            forall|k: int| 0 <= k < i ==> string_views(#[trigger] out@[k]@).no_duplicates(),
            forall|k: int|
                0 <= k < i && is_blocked(string_views(files@), tasks@[k].slug@)
                    ==> (#[trigger] out@[k]@).len() > 0 && out@[k]@[0]@ == tasks@[k].slug@,
        decreases tasks.len() - i,
    {
        let b = blockers_from(files, tasks, &tasks[i].slug);
        out.push(b);
        i = i + 1;
    }
    out
}

// ---------------------------------------------------------------------------
// Runnable tasks
// ---------------------------------------------------------------------------

pub open spec fn blocker_views(bs: Seq<Vec<String>>) -> Seq<Seq<Seq<char>>> {
    Seq::new(bs.len(), |i: int| string_views(bs[i]@))
}

/// The blockers recorded for the slug `s` (none when no task has it).
pub open spec fn blockers_for(ts: Seq<TaskModel>, bs: Seq<Seq<Seq<char>>>, s: Seq<char>) -> Seq<
    Seq<char>,
> {
    match task_for(ts, s) {
        Some(k) => bs[k],
        None => seq![],
    }
}

/// The dependency `d` is satisfied: its task is done, or no task has that slug.
pub open spec fn dep_done(ts: Seq<TaskModel>, d: Seq<char>) -> bool {
    match task_for(ts, d) {
        Some(j) => ts[j].done,
        None => true,
    }
}

/// `t` can be worked on now: open, not blocked, and every dependency done.
pub open spec fn runnable(t: TaskModel, ts: Seq<TaskModel>, bs: Seq<Seq<Seq<char>>>) -> bool {
    &&& !t.done
    &&& blockers_for(ts, bs, t.slug).len() == 0
    &&& forall|k: int| 0 <= k < t.depends.len() ==> dep_done(ts, #[trigger] t.depends[k])
}

/// `j` is the last task with slug `d`, the one that `d` names.
pub open spec fn names_task(ts: Seq<TaskModel>, d: Seq<char>, j: int) -> bool {
    0 <= j < ts.len() && ts[j].slug == d && forall|m: int| j < m < ts.len() ==> ts[m].slug != d
}

/// A runnable task is open, and every task that one of its dependencies
/// names is done: a task with an open dependency is never runnable.
pub proof fn law_runnable_needs_done_dependencies(t: TaskModel, ts: Seq<TaskModel>, bs: Seq<Seq<Seq<char>>>)
    ensures
        runnable(t, ts, bs) ==> !t.done,
        runnable(t, ts, bs) ==> forall|k: int, j: int|
            0 <= k < t.depends.len() && #[trigger] names_task(ts, t.depends[k], j) ==> ts[j].done,
{
    if runnable(t, ts, bs) {
        assert forall|k: int, j: int|
            0 <= k < t.depends.len() && #[trigger] names_task(ts, t.depends[k], j) implies ts[j].done by {
            let d = t.depends[k];
            assert(dep_done(ts, d));
            lemma_last_index(ts, d, ts.len() as int);
            let j2 = task_for(ts, d)->0;
            if j2 < j {
                assert(ts[j].slug == d);
            } else if j < j2 {
                assert(ts[j2].slug == d);
            }
        }
    }
}

/// `bs` holds, for each task, exactly the slugs that block it.
pub open spec fn blockers_exact(ts: Seq<TaskModel>, fs: Seq<Seq<char>>, bs: Seq<Seq<Seq<char>>>) -> bool {
    &&& bs.len() == ts.len()
    &&& forall|i: int, s: Seq<char>|
        0 <= i < ts.len() ==> (#[trigger] bs[i].contains(s) <==> blocks(ts, fs, ts[i].slug, s))
}

/// Whether `t` can be worked on now: it is open, nothing blocks it, and every
/// task it depends on is done. `blockers` holds one entry per task of `tasks`.
pub fn is_runnable(t: &Task, tasks: &[Task], blockers: &[Vec<String>]) -> (r: bool)
    requires
        blockers@.len() == tasks@.len(),
    ensures
        r == runnable(t@, task_views(tasks@), blocker_views(blockers@)),
        r ==> forall|k: int, j: int|
            0 <= k < t@.depends.len() && #[trigger] names_task(task_views(tasks@), t@.depends[k], j)
                ==> tasks@[j].done,
{
    proof {
        law_runnable_needs_done_dependencies(t@, task_views(tasks@), blocker_views(blockers@));
    }
    let ghost ts = task_views(tasks@);
    let ghost bs = blocker_views(blockers@);
    if t.done {
        return false;
    }
    let ti = task_index(tasks, &t.slug);
    proof {
        lemma_last_index(ts, t.slug@, ts.len() as int);
    }
    if let Some(k) = ti {
        assert(bs[k as int] == string_views(blockers@[k as int]@));
        if blockers[k].len() > 0 {
            return false;
        }
    }
    let mut j: usize = 0;
    while j < t.depends.len()
        invariant
            j <= t.depends@.len(),
            ts == task_views(tasks@),
            forall|m: int| 0 <= m < j ==> dep_done(ts, #[trigger] t@.depends[m]),
        decreases t.depends.len() - j,
    {
        assert(t@.depends[j as int] == t.depends@[j as int]@);
        let di = task_index(tasks, &t.depends[j]);
        proof {
            lemma_last_index(ts, t@.depends[j as int], ts.len() as int);
        }
        if let Some(k) = di {
            if !tasks[k].done {
                return false;
            }
        }
        j = j + 1;
    }
    true
}

/// The first runnable task, in plan order.
pub fn next_runnable(tasks: &[Task], blockers: &[Vec<String>]) -> (r: Option<usize>)
    requires
        blockers@.len() == tasks@.len(),
    ensures
        match r {
            Some(i) => i < tasks@.len() && runnable(
                task_views(tasks@)[i as int],
                task_views(tasks@),
                blocker_views(blockers@),
            ) && forall|k: int|
                0 <= k < i ==> !runnable(
                    #[trigger] task_views(tasks@)[k],
                    task_views(tasks@),
                    blocker_views(blockers@),
                ),
            None => forall|k: int|
                0 <= k < tasks@.len() ==> !runnable(
                    #[trigger] task_views(tasks@)[k],
                    task_views(tasks@),
                    blocker_views(blockers@),
                ),
        },
{
    let mut i: usize = 0;
    while i < tasks.len()
        invariant
            i <= tasks@.len(),
            blockers@.len() == tasks@.len(),
            forall|k: int|
                0 <= k < i ==> !runnable(
                    #[trigger] task_views(tasks@)[k],
                    task_views(tasks@),
                    blocker_views(blockers@),
                ),
        decreases tasks.len() - i,
    {
        assert(task_views(tasks@)[i as int] == tasks@[i as int]@);
        if is_runnable(&tasks[i], tasks, blockers) {
            return Some(i);
        }
        i = i + 1;
    }
    None
}

/// The indices of the runnable tasks, in plan order.
pub fn runnable_indices(tasks: &[Task], blockers: &[Vec<String>]) -> (r: Vec<usize>)
    requires
        blockers@.len() == tasks@.len(),
    ensures
        forall|j: int| 0 <= j < r@.len() ==> r@[j] < tasks@.len(),
        forall|j: int, k: int| 0 <= j < k < r@.len() ==> r@[j] < r@[k],
        forall|i: int|
            0 <= i < tasks@.len() ==> (r@.contains(i as usize) <==> runnable(
                #[trigger] task_views(tasks@)[i],
                task_views(tasks@),
                blocker_views(blockers@),
            )),
{
    let mut out: Vec<usize> = Vec::new();
    let mut i: usize = 0;
    while i < tasks.len()
        invariant
            i <= tasks@.len(),
            blockers@.len() == tasks@.len(),
            forall|j: int| 0 <= j < out@.len() ==> out@[j] < i,
            forall|j: int, k: int| 0 <= j < k < out@.len() ==> out@[j] < out@[k],
            forall|m: int|
                0 <= m < i ==> (out@.contains(m as usize) <==> runnable(
                    #[trigger] task_views(tasks@)[m],
                    task_views(tasks@),
                    blocker_views(blockers@),
                )),
        decreases tasks.len() - i,
    {
        assert(task_views(tasks@)[i as int] == tasks@[i as int]@);
        let ghost before = out@;
        if is_runnable(&tasks[i], tasks, blockers) {
            out.push(i);
            assert(out@[out@.len() - 1] == i);
        }
        assert forall|m: int| 0 <= m < i + 1 implies (out@.contains(m as usize) <==> runnable(
            #[trigger] task_views(tasks@)[m],
            task_views(tasks@),
            blocker_views(blockers@),
        )) by {
            if m < i {
                if out@.contains(m as usize) && out@ != before {
                    let j = choose|j: int| 0 <= j < out@.len() && out@[j] == m as usize;
                    assert(j < before.len());
                    assert(before[j] == m as usize);
                }
                if before.contains(m as usize) {
                    let j = choose|j: int| 0 <= j < before.len() && before[j] == m as usize;
                    assert(out@[j] == m as usize);
                }
            } else {
                if out@.contains(m as usize) && out@ == before {
                    let j = choose|j: int| 0 <= j < out@.len() && out@[j] == m as usize;
                }
            }
        }
        i = i + 1;
    }
    out
}

/// A runnable task has nothing blocking it: no task it reaches through its
/// dependencies, itself included, is blocked.
pub proof fn law_runnable_is_unblocked(
    ts: Seq<TaskModel>,
    fs: Seq<Seq<char>>,
    bs: Seq<Seq<Seq<char>>>,
    i: int,
    s: Seq<char>,
)
    requires
        blockers_exact(ts, fs, bs),
        0 <= i < ts.len(),
        runnable(ts[i], ts, bs),
        reaches(ts, ts[i].slug, s),
    ensures
        !is_blocked(fs, s),
{
    lemma_last_index(ts, ts[i].slug, ts.len() as int);
    let k = task_for(ts, ts[i].slug)->0;
    if is_blocked(fs, s) {
        assert(blocks(ts, fs, ts[k].slug, s));
        assert(bs[k].contains(s));
    }
}

/// Blocking is local to the dependency subtree: two sets of blocked files that
/// agree on every slug a task reaches give that task the same blockers.
pub proof fn law_blocking_is_local(
    ts: Seq<TaskModel>,
    fs1: Seq<Seq<char>>,
    fs2: Seq<Seq<char>>,
    start: Seq<char>,
)
    requires
        forall|s: Seq<char>| reaches(ts, start, s) ==> (is_blocked(fs1, s) <==> is_blocked(fs2, s)),
    ensures
        forall|s: Seq<char>| blocks(ts, fs1, start, s) <==> blocks(ts, fs2, start, s),
{
}

// ---------------------------------------------------------------------------
// Status of tasks and tracks
// ---------------------------------------------------------------------------

/// How `driver tasks` shows a task.
#[derive(Debug, Clone, Copy, PartialEq, Eq, Structural)]
pub enum TaskStatus {
    Done,
    Blocked,
    Runnable,
    Waiting,
}

pub open spec fn status_of(t: TaskModel, ts: Seq<TaskModel>, bs: Seq<Seq<Seq<char>>>) -> TaskStatus {
    if t.done {
        TaskStatus::Done
    } else if blockers_for(ts, bs, t.slug).len() > 0 {
        TaskStatus::Blocked
    } else if runnable(t, ts, bs) {
        TaskStatus::Runnable
    } else {
        TaskStatus::Waiting
    }
}

/// Whether something blocks `t`.
pub fn has_blockers(t: &Task, tasks: &[Task], blockers: &[Vec<String>]) -> (r: bool)
    requires
        blockers@.len() == tasks@.len(),
    ensures
        r == (blockers_for(task_views(tasks@), blocker_views(blockers@), t@.slug).len() > 0),
{
    let ti = task_index(tasks, &t.slug);
    proof {
        lemma_last_index(task_views(tasks@), t.slug@, tasks@.len() as int);
    }
    match ti {
        Some(k) => {
            assert(blocker_views(blockers@)[k as int] == string_views(blockers@[k as int]@));
            blockers[k].len() > 0
        },
        None => false,
    }
}

/// Done, blocked, runnable, or waiting on an open dependency.
pub fn task_status(t: &Task, tasks: &[Task], blockers: &[Vec<String>]) -> (r: TaskStatus)
    requires
        blockers@.len() == tasks@.len(),
    ensures
        r == status_of(t@, task_views(tasks@), blocker_views(blockers@)),
{
    if t.done {
        TaskStatus::Done
    } else if has_blockers(t, tasks, blockers) {
        TaskStatus::Blocked
    } else if is_runnable(t, tasks, blockers) {
        TaskStatus::Runnable
    } else {
        TaskStatus::Waiting
    }
}

/// How many of the first `n` tasks are done.
pub open spec fn count_done(ts: Seq<TaskModel>, n: int) -> nat
    decreases n,
{
    if n <= 0 {
        0
    } else {
        count_done(ts, n - 1) + if ts[n - 1].done {
            1nat
        } else {
            0nat
        }
    }
}

/// How many of the first `n` tasks are open and blocked.
pub open spec fn count_blocked(ts: Seq<TaskModel>, bs: Seq<Seq<Seq<char>>>, n: int) -> nat
    decreases n,
{
    if n <= 0 {
        0
    } else {
        count_blocked(ts, bs, n - 1) + if !ts[n - 1].done && blockers_for(
            ts,
            bs,
            ts[n - 1].slug,
        ).len() > 0 {
            1nat
        } else {
            0nat
        }
    }
}

/// The one-line summary of a track that `driver status` prints.
#[derive(Debug)]
pub struct TrackSummary {
    pub total: usize,
    pub complete: usize,
    pub blocked: usize,
    /// The first runnable task.
    pub next: Option<usize>,
}

/// The word `driver status` leads a track's line with.
#[derive(Debug, Clone, Copy, PartialEq, Eq, Structural)]
pub enum Marker {
    /// Some task is runnable.
    Open,
    /// Nothing runnable, and some open task is blocked.
    Block,
    /// Nothing runnable and nothing blocked.
    AllDone,
}

proof fn lemma_counts_bounded(ts: Seq<TaskModel>, bs: Seq<Seq<Seq<char>>>, n: int)
    requires
        0 <= n,
    ensures
        count_done(ts, n) <= n,
        count_blocked(ts, bs, n) <= n,
    decreases n,
{
    if n > 0 {
        lemma_counts_bounded(ts, bs, n - 1);
    }
}

/// Counts the done and the blocked tasks and finds the next runnable one.
pub fn track_summary(tasks: &[Task], blockers: &[Vec<String>]) -> (r: TrackSummary)
    requires
        blockers@.len() == tasks@.len(),
    ensures
        r.total == tasks@.len(),
        r.complete == count_done(task_views(tasks@), tasks@.len() as int),
        r.blocked == count_blocked(task_views(tasks@), blocker_views(blockers@), tasks@.len() as int),
        r.next == next_runnable_spec(task_views(tasks@), blocker_views(blockers@)),
{
    let ghost ts = task_views(tasks@);
    let ghost bs = blocker_views(blockers@);
    let mut complete: usize = 0;
    let mut blocked: usize = 0;
    let mut i: usize = 0;
    while i < tasks.len()
        invariant
            i <= tasks@.len(),
            ts == task_views(tasks@),
            bs == blocker_views(blockers@),
            blockers@.len() == tasks@.len(),
            complete == count_done(ts, i as int),
            blocked == count_blocked(ts, bs, i as int),
        decreases tasks.len() - i,
    {
        proof {
            lemma_counts_bounded(ts, bs, i as int);
        }
        assert(ts[i as int] == tasks@[i as int]@);
        if tasks[i].done {
            complete = complete + 1;
        } else if has_blockers(&tasks[i], tasks, blockers) {
            blocked = blocked + 1;
        }
        i = i + 1;
    }
    let next = next_runnable(tasks, blockers);
    proof {
        lemma_next_runnable_spec(ts, bs);
        match next {
            Some(k) => {
                lemma_first_at_unique(0, ts.len() as int, runnable_at(ts, bs), k as int);
            },
            None => {
                lemma_first_at_unique(0, ts.len() as int, runnable_at(ts, bs), ts.len() as int);
            },
        }
    }
    TrackSummary { total: tasks.len(), complete, blocked, next }
}

pub open spec fn runnable_at(ts: Seq<TaskModel>, bs: Seq<Seq<Seq<char>>>) -> spec_fn(int) -> bool {
    |k: int| runnable(ts[k], ts, bs)
}

/// The first runnable task, in plan order.
pub open spec fn next_runnable_spec(ts: Seq<TaskModel>, bs: Seq<Seq<Seq<char>>>) -> Option<usize> {
    let k = first_at(0, ts.len() as int, runnable_at(ts, bs));
    if k < ts.len() {
        Some(k as usize)
    } else {
        None
    }
}

proof fn lemma_next_runnable_spec(ts: Seq<TaskModel>, bs: Seq<Seq<Seq<char>>>)
    ensures
        0 <= first_at(0, ts.len() as int, runnable_at(ts, bs)) <= ts.len(),
{
    lemma_first_at(0, ts.len() as int, runnable_at(ts, bs));
}

/// `open` when a task is runnable, else `BLOCK` when one is blocked, else `done?`.
pub fn marker(s: &TrackSummary) -> (r: Marker)
    ensures
        r == (if s.next is Some {
            Marker::Open
        } else if s.blocked > 0 {
            Marker::Block
        } else {
            Marker::AllDone
        }),
{
    if s.next.is_some() {
        Marker::Open
    } else if s.blocked > 0 {
        Marker::Block
    } else {
        Marker::AllDone
    }
}

} // verus!

//! `tracks.md`: the registry of tracks, choosing a track, and closing one.
use vstd::prelude::*;

use crate::plan::{checkbox, checkbox_exec, done_box, done_box_exec, open_box, open_box_exec, string_views, task_views, Task, TaskModel};
use crate::text::{
    chars_of, concat, contains, contains_exec, ends_with, find_char, find_char_exec, find_sub,
    find_sub_exec, first_at, join, join_exec, lemma_find_char, lemma_find_sub,
    lemma_first_at_unique, lines, lines_exec, push_all, starts_with, starts_with_exec, string_of,
    sub_vec, trim, trim_exec, trim_start, trim_start_exec, views,
};

verus! {

/// One line of `tracks.md`: `- [ ] [<id>](...) — <summary>`.
#[derive(Debug)]
pub struct TrackEntry {
    pub done: bool,
    pub id: String,
    pub summary: String,
}

pub struct TrackModel {
    pub done: bool,
    pub id: Seq<char>,
    pub summary: Seq<char>,
}

impl View for TrackEntry {
    type V = TrackModel;

    open spec fn view(&self) -> TrackModel {
        TrackModel { done: self.done, id: self.id@, summary: self.summary@ }
    }
}

pub open spec fn track_views(v: Seq<TrackEntry>) -> Seq<TrackModel> {
    Seq::new(v.len(), |i: int| v[i]@)
}

pub open spec fn em_dash() -> char {
    '\u{2014}'
}

/// The text after the first em dash, trimmed; empty when there is none.
pub open spec fn summary_of(s: Seq<char>) -> Seq<char> {
    match find_char(s, em_dash()) {
        Some(k) => trim(s.skip(k + 1)),
        None => seq![],
    }
}

/// The track that a registry line lists, if it lists one.
pub open spec fn track_entry(line: Seq<char>) -> Option<TrackModel> {
    let t = trim_start(line);
    match checkbox(t) {
        None => None,
        Some(done) => {
            let rest = trim_start(t.skip(5));
            match (find_char(rest, '['), find_char(rest, ']')) {
                (Some(s), Some(e)) => if e <= s + 1 {
                    None
                } else {
                    Some(
                        TrackModel {
                            done,
                            id: rest.subrange(s + 1, e),
                            summary: summary_of(rest.skip(e)),
                        },
                    )
                },
                _ => None,
            }
        },
    }
}

/// The tracks listed by the given lines, in order.
pub open spec fn track_entries(ls: Seq<Seq<char>>) -> Seq<TrackModel>
    decreases ls.len(),
{
    if ls.len() == 0 {
        seq![]
    } else {
        let prev = track_entries(ls.drop_last());
        match track_entry(ls.last()) {
            Some(e) => prev.push(e),
            None => prev,
        }
    }
}

fn track_entry_exec(line: &[char]) -> (r: Option<TrackEntry>)
    ensures
        match r {
            Some(e) => track_entry(line@) == Some(e@),
            None => track_entry(line@) is None,
        },
{
    let t = trim_start_exec(line);
    let done = match checkbox_exec(&t) {
        None => return None,
        Some(d) => d,
    };
    let after = sub_vec(&t, 5, t.len());
    assert(after@ =~= t@.skip(5));
    let rest = trim_start_exec(&after);
    let s = match find_char_exec(&rest, '[') {
        Some(s) => s,
        None => return None,
    };
    let e = match find_char_exec(&rest, ']') {
        Some(e) => e,
        None => return None,
    };
    proof {
        lemma_find_char(rest@, '[');
        lemma_find_char(rest@, ']');
    }
    if e <= s + 1 {
        return None;
    }
    let id = sub_vec(&rest, s + 1, e);
    let tailv = sub_vec(&rest, e, rest.len());
    assert(tailv@ =~= rest@.skip(e as int));
    let summary = match find_char_exec(&tailv, '\u{2014}') {
        Some(k) => {
            proof {
                lemma_find_char(tailv@, em_dash());
            }
            let after_dash = sub_vec(&tailv, k + 1, tailv.len());
            assert(after_dash@ =~= tailv@.skip(k + 1));
            trim_exec(&after_dash)
        },
        None => Vec::new(),
    };
    assert(summary@ == summary_of(rest@.skip(e as int)));
    Some(TrackEntry { done, id: string_of(&id), summary: string_of(&summary) })
}

/// The tracks that `tracks.md` lists: each line `- [ ]` or `- [x]`, then
/// `[<id>]`, and an optional `— summary`.
pub fn parse_tracks(text: &str) -> (r: Vec<TrackEntry>)
    ensures
        track_views(r@) == track_entries(lines(text@)),
{
    let v = chars_of(text);
    let ls = lines_exec(&v);
    let ghost lv = views(ls@);
    let mut out: Vec<TrackEntry> = Vec::new();
    let mut i: usize = 0;
    assert(track_views(out@) =~= track_entries(lv.take(0)));
    while i < ls.len()
        invariant
            i <= ls@.len(),
            lv == views(ls@),
            track_views(out@) == track_entries(lv.take(i as int)),
        decreases ls.len() - i,
    {
        assert(lv.take(i + 1).drop_last() =~= lv.take(i as int));
        assert(lv.take(i + 1).last() == ls@[i as int]@);
        let ghost before = out@;
        match track_entry_exec(&ls[i]) {
            Some(e) => {
                out.push(e);
                assert(track_views(out@) =~= track_views(before).push(e@));
            },
            None => {},
        }
        i = i + 1;
    }
    assert(lv.take(ls@.len() as int) =~= lv);
    out
}

// ---------------------------------------------------------------------------
// Closing a track
// ---------------------------------------------------------------------------

/// `[<track>]`.
pub open spec fn bracketed(track: Seq<char>) -> Seq<char> {
    seq!['['] + track + seq![']']
}

/// A registry line after closing `track`: its first `- [ ]` becomes `- [x]` when
/// it is an open line that names `[track]`.
pub open spec fn close_line(line: Seq<char>, track: Seq<char>) -> Seq<char> {
    if starts_with(trim_start(line), open_box()) && contains(line, bracketed(track)) {
        match find_sub(line, open_box()) {
            Some(i) => line.take(i) + done_box() + line.skip(i + 5),
            None => line,
        }
    } else {
        line
    }
}

pub open spec fn close_lines(ls: Seq<Seq<char>>, track: Seq<char>) -> Seq<Seq<char>> {
    Seq::new(ls.len(), |i: int| close_line(ls[i], track))
}

/// `tracks.md` after closing `track`: every line through `close_line`, joined
/// by newlines, with a final newline when the text had one.
pub open spec fn close_text(text: Seq<char>, track: Seq<char>) -> Seq<char> {
    let body = join(close_lines(lines(text), track), seq!['\n']);
    if ends_with(text, seq!['\n']) {
        body.push('\n')
    } else {
        body
    }
}

fn close_line_exec(line: &[char], track: &[char]) -> (r: Vec<char>)
    ensures
        r@ == close_line(line@, track@),
{
    let ob = open_box_exec();
    let mut br: Vec<char> = Vec::new();
    br.push('[');
    push_all(&mut br, track);
    br.push(']');
    assert(br@ =~= bracketed(track@));
    let t = trim_start_exec(line);
    if starts_with_exec(&t, &ob) && contains_exec(line, &br) {
        proof {
            lemma_find_sub(line@, open_box());
        }
        match find_sub_exec(line, &ob) {
            Some(i) => {
                let n = line.len();
                assert(open_box().len() == 5);
                assert(i + 5 <= n);
                let mut r = sub_vec(line, 0, i);
                push_all(&mut r, &done_box_exec());
                let rest = sub_vec(line, i + 5, n);
                push_all(&mut r, &rest);
                assert(rest@ =~= line@.skip(i + 5));
                r
            },
            None => sub_vec(line, 0, line.len()),
        }
    } else {
        sub_vec(line, 0, line.len())
    }
}

/// Flips the registry line of `track` from `- [ ]` to `- [x]`, keeping every
/// other line as it was.
pub fn close_tracks_text(text: &str, track: &str) -> (r: String)
    ensures
        r@ == close_text(text@, track@),
{
    let v = chars_of(text);
    let tr = chars_of(track);
    let ls = lines_exec(&v);
    let ghost lv = views(ls@);
    let mut out: Vec<Vec<char>> = Vec::new();
    let mut i: usize = 0;
    while i < ls.len()
        invariant
            i <= ls@.len(),
            lv == views(ls@),
            out@.len() == i,
            forall|k: int| 0 <= k < i ==> (#[trigger] out@[k])@ == close_line(lv[k], tr@),
        decreases ls.len() - i,
    {
        let c = close_line_exec(&ls[i], &tr);
        out.push(c);
        i = i + 1;
    }
    assert(views(out@) =~= close_lines(lv, tr@));
    let nl = vec!['\n'];
    assert(nl@ =~= seq!['\n']);
    let mut body = join_exec(&out, &nl);
    if v.len() > 0 && v[v.len() - 1] == '\n' {
        body.push('\n');
        assert(v@.skip(v@.len() - 1) =~= seq!['\n']);
    } else {
        proof {
            if v@.len() > 0 {
                assert(v@.skip(v@.len() - 1)[0] == v@[v@.len() - 1]);
            }
        }
    }
    string_of(&body)
}

/// What `close` may do with a track whose plan has the given tasks.
#[derive(Debug)]
pub enum CloseDecision {
    /// These tasks are still open.
    OpenTasks(Vec<String>),
    /// `tracks.md` does not list the track.
    NotListed,
    AlreadyClosed,
    Close,
}

/// The slugs of the open tasks, in order.
pub open spec fn open_slugs(ts: Seq<TaskModel>) -> Seq<Seq<char>>
    decreases ts.len(),
{
    if ts.len() == 0 {
        seq![]
    } else if ts.last().done {
        open_slugs(ts.drop_last())
    } else {
        open_slugs(ts.drop_last()).push(ts.last().slug)
    }
}

pub open spec fn id_is(tracks: Seq<TrackModel>, id: Seq<char>) -> spec_fn(int) -> bool {
    |k: int| tracks[k].id == id
}

/// The first listed track with the id `id`.
pub open spec fn find_track(tracks: Seq<TrackModel>, id: Seq<char>) -> Option<int> {
    let k = first_at(0, tracks.len() as int, id_is(tracks, id));
    if k < tracks.len() {
        Some(k)
    } else {
        None
    }
}

/// The first listed track with the id `id`.
pub fn find_track_exec(tracks: &[TrackEntry], id: &str) -> (r: Option<usize>)
    ensures
        match r {
            Some(k) => find_track(track_views(tracks@), id@) == Some(k as int),
            None => find_track(track_views(tracks@), id@) is None,
        },
{
    let ghost tv = track_views(tracks@);
    let idv = chars_of(id);
    let mut k: usize = 0;
    while k < tracks.len()
        invariant
            k <= tracks@.len(),
            tv == track_views(tracks@),
            idv@ == id@,
            forall|m: int| 0 <= m < k ==> !(#[trigger] id_is(tv, id@)(m)),
        decreases tracks.len() - k,
    {
        let kid = chars_of(tracks[k].id.as_str());
        if crate::text::seq_eq(&kid, &idv) {
            proof {
                lemma_first_at_unique(0, tv.len() as int, id_is(tv, id@), k as int);
            }
            return Some(k);
        }
        assert(!id_is(tv, id@)(k as int));
        k = k + 1;
    }
    proof {
        lemma_first_at_unique(0, tv.len() as int, id_is(tv, id@), tv.len() as int);
    }
    None
}

/// The ids of the open tracks, in order.
pub open spec fn open_ids(tracks: Seq<TrackModel>) -> Seq<Seq<char>>
    decreases tracks.len(),
{
    if tracks.len() == 0 {
        seq![]
    } else if tracks.last().done {
        open_ids(tracks.drop_last())
    } else {
        open_ids(tracks.drop_last()).push(tracks.last().id)
    }
}

/// The tracks whose questions `questions` lists: the named one, which must be
/// listed (`None` when it is not), or else every open track.
pub fn question_tracks(tracks: &[TrackEntry], filter: Option<&str>) -> (r: Option<Vec<String>>)
    ensures
        filter matches Some(t) ==> match r {
            Some(v) => string_views(v@) == seq![t@] && find_track(track_views(tracks@), t@) is Some,
            None => find_track(track_views(tracks@), t@) is None,
        },
        filter is None ==> (r matches Some(v) && string_views(v@) == open_ids(track_views(tracks@))),
{
    match filter {
        Some(t) => {
            if find_track_exec(tracks, t).is_none() {
                return None;
            }
            let mut v: Vec<String> = Vec::new();
            v.push(string_of(&chars_of(t)));
            assert(string_views(v@) =~= seq![t@]);
            Some(v)
        },
        None => {
            let ghost tv = track_views(tracks@);
            let mut v: Vec<String> = Vec::new();
            let mut i: usize = 0;
            assert(tv.take(0) =~= Seq::<TrackModel>::empty());
            assert(string_views(v@) =~= Seq::<Seq<char>>::empty());
            while i < tracks.len()
                invariant
                    i <= tracks@.len(),
                    tv == track_views(tracks@),
                    string_views(v@) == open_ids(tv.take(i as int)),
                decreases tracks.len() - i,
            {
                assert(tv.take(i + 1).drop_last() =~= tv.take(i as int));
                assert(tv.take(i + 1).last() == tracks@[i as int]@);
                if !tracks[i].done {
                    let id = string_of(&chars_of(tracks[i].id.as_str()));
                    let ghost before = v@;
                    v.push(id);
                    assert(string_views(v@) =~= string_views(before).push(id@));
                }
                i = i + 1;
            }
            assert(tv.take(tracks@.len() as int) =~= tv);
            Some(v)
        },
    }
}

/// Refuses while a task is open; then closes a listed track that is still open.
pub fn close_decision(tasks: &[Task], tracks: &[TrackEntry], track: &str) -> (r: CloseDecision)
    ensures
        match r {
            CloseDecision::OpenTasks(v) => string_views(v@) == open_slugs(task_views(tasks@))
                && string_views(v@).len() > 0,
            CloseDecision::NotListed => open_slugs(task_views(tasks@)).len() == 0 && find_track(
                track_views(tracks@),
                track@,
            ) is None,
            CloseDecision::AlreadyClosed => open_slugs(task_views(tasks@)).len() == 0
                && (find_track(track_views(tracks@), track@) matches Some(k) && track_views(
                tracks@,
            )[k].done),
            CloseDecision::Close => open_slugs(task_views(tasks@)).len() == 0 && (find_track(
                track_views(tracks@),
                track@,
            ) matches Some(k) && !track_views(tracks@)[k].done),
        },
{
    let ghost ts = task_views(tasks@);
    let mut open: Vec<String> = Vec::new();
    let mut i: usize = 0;
    while i < tasks.len()
        invariant
            i <= tasks@.len(),
            ts == task_views(tasks@),
            string_views(open@) == open_slugs(ts.take(i as int)),
        decreases tasks.len() - i,
    {
        assert(ts.take(i + 1).drop_last() =~= ts.take(i as int));
        assert(ts.take(i + 1).last() == tasks@[i as int]@);
        if !tasks[i].done {
            let ghost before = open@;
            open.push(tasks[i].slug.clone());
            assert(string_views(open@) =~= string_views(before).push(tasks@[i as int].slug@));
        }
        i = i + 1;
    }
    assert(ts.take(tasks@.len() as int) =~= ts);
    if open.len() > 0 {
        return CloseDecision::OpenTasks(open);
    }
    match find_track_exec(tracks, track) {
        None => CloseDecision::NotListed,
        Some(k) => {
            assert(track_views(tracks@)[k as int] == tracks@[k as int]@);
            if tracks[k].done {
                CloseDecision::AlreadyClosed
            } else {
                CloseDecision::Close
            }
        },
    }
}

// ---------------------------------------------------------------------------
// Choosing a track
// ---------------------------------------------------------------------------

/// Why no track could be chosen.
#[derive(Debug, Clone, Copy, PartialEq, Eq, Structural)]
pub enum ResolveError {
    NoSuchTrack,
    NoOpenTracks,
    CouldNotStat,
}

/// `k` is an open track with a known time that no other open track with a known
/// time beats; among equal times the last one wins.
pub open spec fn latest_open(tracks: Seq<TrackModel>, mtimes: Seq<Option<i128>>, k: int) -> bool {
    &&& 0 <= k < tracks.len()
    &&& !tracks[k].done
    &&& mtimes[k] is Some
    &&& forall|j: int|
        0 <= j < tracks.len() && !tracks[j].done && #[trigger] mtimes[j] is Some ==> mtimes[j]->0
            <= mtimes[k]->0 && (j > k ==> mtimes[j]->0 < mtimes[k]->0)
}

pub open spec fn count_open(tracks: Seq<TrackModel>, n: int) -> nat
    decreases n,
{
    if n <= 0 {
        0
    } else {
        count_open(tracks, n - 1) + if tracks[n - 1].done {
            0nat
        } else {
            1nat
        }
    }
}

proof fn lemma_count_open_bound(tracks: Seq<TrackModel>, n: int)
    requires
        0 <= n,
    ensures
        count_open(tracks, n) <= n,
    decreases n,
{
    if n > 0 {
        lemma_count_open_bound(tracks, n - 1);
    }
}

proof fn lemma_count_open_one(tracks: Seq<TrackModel>, n: int, k: int)
    requires
        0 <= k < n <= tracks.len(),
        count_open(tracks, n) == 1,
        !tracks[k].done,
    ensures
        forall|j: int| 0 <= j < n && j != k ==> tracks[j].done,
    decreases n,
{
    if n - 1 == k {
        lemma_count_open_zero(tracks, n - 1);
    } else {
        lemma_count_open_pos(tracks, n - 1, k);
        lemma_count_open_one(tracks, n - 1, k);
    }
}

proof fn lemma_count_open_zero(tracks: Seq<TrackModel>, n: int)
    requires
        0 <= n <= tracks.len(),
        count_open(tracks, n) == 0,
    ensures
        forall|j: int| 0 <= j < n ==> tracks[j].done,
    decreases n,
{
    if n > 0 {
        lemma_count_open_zero(tracks, n - 1);
    }
}

proof fn lemma_count_open_pos(tracks: Seq<TrackModel>, n: int, k: int)
    requires
        0 <= k < n <= tracks.len(),
        !tracks[k].done,
    ensures
        count_open(tracks, n) >= 1,
    decreases n,
{
    if n - 1 != k {
        lemma_count_open_pos(tracks, n - 1, k);
    }
}

/// Which track a command works on. A named track must be listed. Without a
/// name: the only open track, or else the open track whose `plan.md` was
/// modified last (`mtimes` holds, per track, that time when it could be read;
/// on equal times the later listed track wins).
pub fn resolve_track(tracks: &[TrackEntry], arg: Option<&str>, mtimes: &[Option<i128>]) -> (r:
    Result<String, ResolveError>)
    requires
        mtimes@.len() == tracks@.len(),
    ensures
        arg matches Some(id) ==> match r {
            Ok(s) => s@ == id@ && find_track(track_views(tracks@), id@) is Some,
            Err(e) => e is NoSuchTrack && find_track(track_views(tracks@), id@) is None,
        },
        arg is None ==> match r {
            Ok(s) => exists|k: int|
                #![trigger tracks@[k]]
                0 <= k < tracks@.len() && s@ == tracks@[k].id@ && ((count_open(
                    track_views(tracks@),
                    tracks@.len() as int,
                ) == 1 && !tracks@[k].done) || (count_open(
                    track_views(tracks@),
                    tracks@.len() as int,
                ) > 1 && latest_open(track_views(tracks@), mtimes@, k))),
            Err(ResolveError::NoOpenTracks) => count_open(
                track_views(tracks@),
                tracks@.len() as int,
            ) == 0,
            Err(ResolveError::CouldNotStat) => count_open(
                track_views(tracks@),
                tracks@.len() as int,
            ) > 1 && forall|j: int|
                0 <= j < tracks@.len() && !tracks@[j].done ==> mtimes@[j] is None,
            Err(ResolveError::NoSuchTrack) => false,
        },
{
    let ghost tv = track_views(tracks@);
    if let Some(id) = arg {
        return match find_track_exec(tracks, id) {
            Some(_) => Ok(string_of(&chars_of(id))),
            None => Err(ResolveError::NoSuchTrack),
        };
    }
    let mut n_open: usize = 0;
    let mut first_open: usize = 0;
    let mut i: usize = 0;
    while i < tracks.len()
        invariant
            i <= tracks@.len(),
            tv == track_views(tracks@),
            n_open == count_open(tv, i as int),
            n_open > 0 ==> first_open < i && !tv[first_open as int].done,
        decreases tracks.len() - i,
    {
        proof {
            lemma_count_open_bound(tv, i as int);
        }
        assert(tv[i as int] == tracks@[i as int]@);
        if !tracks[i].done {
            if n_open == 0 {
                first_open = i;
            }
            n_open = n_open + 1;
        }
        i = i + 1;
    }
    if n_open == 0 {
        return Err(ResolveError::NoOpenTracks);
    }
    if n_open == 1 {
        let r = tracks[first_open].id.clone();
        assert(tv[first_open as int] == tracks@[first_open as int]@);
        assert(0 <= first_open < tracks@.len() && r@ == tracks@[first_open as int].id@ && ((
        count_open(track_views(tracks@), tracks@.len() as int) == 1
            && !tracks@[first_open as int].done) || (count_open(
            track_views(tracks@),
            tracks@.len() as int,
        ) > 1 && latest_open(track_views(tracks@), mtimes@, first_open as int))));
        return Ok(r);
    }
    let mut best: Option<usize> = None;
    let mut j: usize = 0;
    while j < tracks.len()
        invariant
            j <= tracks@.len(),
            tv == track_views(tracks@),
            mtimes@.len() == tracks@.len(),
            match best {
                Some(b) => b < j && !tv[b as int].done && mtimes@[b as int] is Some && forall|
                    m: int,
                |
                    0 <= m < j && !tv[m].done && #[trigger] mtimes@[m] is Some ==> mtimes@[m]->0
                        <= mtimes@[b as int]->0 && (m > b ==> mtimes@[m]->0 < mtimes@[b as int]->0),
                None => forall|m: int| 0 <= m < j && !tv[m].done ==> mtimes@[m] is None,
            },
        decreases tracks.len() - j,
    {
        assert(tv[j as int] == tracks@[j as int]@);
        if !tracks[j].done {
            if let Some(t) = mtimes[j] {
                match best {
                    None => {
                        best = Some(j);
                    },
                    Some(b) => {
                        let bt = mtimes[b].unwrap();
                        if t >= bt {
                            best = Some(j);
                        }
                    },
                }
            }
        }
        j = j + 1;
    }
    match best {
        Some(b) => {
            let r = tracks[b].id.clone();
            assert(latest_open(tv, mtimes@, b as int));
            assert(0 <= b < tracks@.len() && r@ == tracks@[b as int].id@ && ((count_open(
                track_views(tracks@),
                tracks@.len() as int,
            ) == 1 && !tracks@[b as int].done) || (count_open(
                track_views(tracks@),
                tracks@.len() as int,
            ) > 1 && latest_open(track_views(tracks@), mtimes@, b as int))));
            Ok(r)
        },
        None => {
            assert forall|m: int| 0 <= m < tracks@.len() && !tracks@[m].done implies mtimes@[m] is None by {
                assert(tv[m] == tracks@[m]@);
            }
            Err(ResolveError::CouldNotStat)
        },
    }
}

} // verus!

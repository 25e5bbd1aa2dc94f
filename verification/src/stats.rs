//! The integer side of `stats`: which history records count, in what order they
//! are read, their total and the middle of their turn counts.
use vstd::prelude::*;

use crate::json::{record_views, HistoryRecord, HistoryStatus, RecordModel};
use crate::text::{chars_of, first_at, lemma_first_at, lemma_first_at_unique, seq_eq};

verus! {

// ---------------------------------------------------------------------------
// The order of strings
// ---------------------------------------------------------------------------

pub open spec fn differs_at(a: Seq<char>, b: Seq<char>) -> spec_fn(int) -> bool {
    |i: int| a[i] != b[i]
}

/// `a <= b` as `String`s compare: by the first character where they differ
/// (UTF-8 keeps the order of code points, so this is the byte order too), and a
/// prefix before any longer text.
pub open spec fn lex_le(a: Seq<char>, b: Seq<char>) -> bool {
    let n = if a.len() <= b.len() {
        a.len() as int
    } else {
        b.len() as int
    };
    let k = first_at(0, n, differs_at(a, b));
    if k == a.len() {
        true
    } else if k == b.len() {
        false
    } else {
        (a[k] as u32) < (b[k] as u32)
    }
}

/// `a <= b` for strings.
pub fn lex_le_exec(a: &[char], b: &[char]) -> (r: bool)
    ensures
        r == lex_le(a@, b@),
{
    let n = if a.len() <= b.len() {
        a.len()
    } else {
        b.len()
    };
    let mut k: usize = 0;
    while k < n && a[k] == b[k]
        invariant
            k <= n,
            n <= a@.len(),
            n <= b@.len(),
            n == a@.len() || n == b@.len(),
            forall|i: int| 0 <= i < k ==> !(#[trigger] differs_at(a@, b@)(i)),
        decreases n - k,
    {
        k = k + 1;
    }
    proof {
        lemma_first_at_unique(0, n as int, differs_at(a@, b@), k as int);
    }
    if k == a.len() {
        true
    } else if k == b.len() {
        false
    } else {
        (a[k] as u32) < (b[k] as u32)
    }
}

// ---------------------------------------------------------------------------
// The records that count, in time order
// ---------------------------------------------------------------------------

/// A record counts when its task was done, and it is on `track` when one is given.
pub open spec fn counted(r: RecordModel, track: Option<Seq<char>>) -> bool {
    &&& r.status == HistoryStatus::Done
    &&& match track {
        Some(t) => r.track == t,
        None => true,
    }
}

/// The records that count, in their order.
pub open spec fn completed(rs: Seq<RecordModel>, track: Option<Seq<char>>) -> Seq<RecordModel>
    decreases rs.len(),
{
    if rs.len() == 0 {
        seq![]
    } else if counted(rs.last(), track) {
        completed(rs.drop_last(), track).push(rs.last())
    } else {
        completed(rs.drop_last(), track)
    }
}

/// `x` placed after the last record of `s` whose time is not later than its own.
pub open spec fn insert_by_ts(s: Seq<RecordModel>, x: RecordModel) -> Seq<RecordModel>
    decreases s.len(),
{
    if s.len() == 0 {
        seq![x]
    } else if lex_le(s.last().ts, x.ts) {
        s.push(x)
    } else {
        insert_by_ts(s.drop_last(), x).push(s.last())
    }
}

/// The records sorted by time, records with equal times kept in their order
/// (`sort_by_key` on the time, a stable sort).
pub open spec fn sort_by_ts(s: Seq<RecordModel>) -> Seq<RecordModel>
    decreases s.len(),
{
    if s.len() == 0 {
        seq![]
    } else {
        insert_by_ts(sort_by_ts(s.drop_last()), s.last())
    }
}

proof fn lemma_insert_at(s: Seq<RecordModel>, x: RecordModel, j: int)
    requires
        0 <= j <= s.len(),
        forall|i: int| j <= i < s.len() ==> !lex_le(#[trigger] s[i].ts, x.ts),
        j > 0 ==> lex_le(s[j - 1].ts, x.ts),
    ensures
        insert_by_ts(s, x) == s.take(j).push(x) + s.skip(j),
    decreases s.len(),
{
    if s.len() == j {
        assert(s.take(j) =~= s);
        assert(s.skip(j) =~= Seq::<RecordModel>::empty());
        if j > 0 {
            assert(s.last() == s[j - 1]);
        }
        assert(s.push(x) + Seq::<RecordModel>::empty() =~= s.push(x));
    } else {
        let t = s.drop_last();
        assert(!lex_le(s.last().ts, x.ts)) by {
            assert(s.last() == s[s.len() - 1]);
        }
        assert forall|i: int| j <= i < t.len() implies !lex_le(#[trigger] t[i].ts, x.ts) by {
            assert(t[i] == s[i]);
        }
        if j > 0 {
            assert(t[j - 1] == s[j - 1]);
        }
        lemma_insert_at(t, x, j);
        assert(t.take(j) =~= s.take(j));
        assert(t.skip(j).push(s.last()) =~= s.skip(j));
        assert(insert_by_ts(s, x) == insert_by_ts(t, x).push(s.last()));
        assert((t.take(j).push(x) + t.skip(j)).push(s.last()) =~= t.take(j).push(x) + s.skip(j));
    }
}

fn same_text(a: &String, b: &[char]) -> (r: bool)
    ensures
        r == (a@ == b@),
{
    seq_eq(&chars_of(a.as_str()), b)
}

/// The records that `stats` reads: those of done tasks, on `track` when one is
/// given, sorted by time (records with equal times keep their order).
pub fn completed_records(records: Vec<HistoryRecord>, track: Option<&str>) -> (r: Vec<
    HistoryRecord,
>)
    ensures
        record_views(r@) == sort_by_ts(
            completed(
                record_views(records@),
                match track {
                    Some(t) => Some(t@),
                    None => None,
                },
            ),
        ),
{
    let ghost tr = match track {
        Some(t) => Some(t@),
        None => None::<Seq<char>>,
    };
    let ghost all = record_views(records@);
    let tc: Option<Vec<char>> = match track {
        Some(t) => Some(chars_of(t)),
        None => None,
    };
    let count = records.len();
    assert(all.len() == count);
    let mut rest = records;
    let mut out: Vec<HistoryRecord> = Vec::new();
    let mut k: usize = 0;
    assert(all.take(0) =~= Seq::<RecordModel>::empty());
    assert(record_views(out@) =~= Seq::<RecordModel>::empty());
    while rest.len() > 0
        invariant
            k <= all.len(),
            all.len() <= usize::MAX,
            record_views(rest@) == all.skip(k as int),
            record_views(out@) == sort_by_ts(completed(all.take(k as int), tr)),
            tr == (match tc {
                Some(v) => Some(v@),
                None => None::<Seq<char>>,
            }),
        decreases rest.len(),
    {
        let ghost old_rest = rest@;
        assert(record_views(old_rest).len() == old_rest.len());
        assert(k < all.len());
        assert(record_views(old_rest)[0] == old_rest[0]@);
        let x = rest.remove(0);
        assert(all[k as int] == x@) by {
            assert(all.skip(k as int)[0] == all[k as int]);
        }
        assert(record_views(rest@) =~= all.skip(k + 1)) by {
            assert forall|i: int| 0 <= i < record_views(rest@).len() implies record_views(
                rest@,
            )[i] == all.skip(k + 1)[i] by {
                assert(rest@[i] == old_rest[i + 1]);
                assert(record_views(old_rest)[i + 1] == old_rest[i + 1]@);
                assert(all.skip(k as int)[i + 1] == all.skip(k + 1)[i]);
            }
        }
        assert(all.take(k + 1).drop_last() =~= all.take(k as int));
        assert(all.take(k + 1).last() == x@);
        let keep = match x.status {
            HistoryStatus::Done => match &tc {
                Some(t) => same_text(&x.track, t),
                None => true,
            },
            HistoryStatus::Blocked => false,
        };
        assert(keep == counted(x@, tr));
        let ghost prev = completed(all.take(k as int), tr);
        assert(completed(all.take(k + 1), tr) == if keep {
            prev.push(x@)
        } else {
            prev
        });
        if keep {
            assert(sort_by_ts(prev.push(x@)) == insert_by_ts(sort_by_ts(prev), x@)) by {
                assert(prev.push(x@).drop_last() =~= prev);
            }
            let ghost s = record_views(out@);
            let xt = chars_of(x.ts.as_str());
            let mut j = out.len();
            while j > 0 && !lex_le_exec(&chars_of(out[j - 1].ts.as_str()), &xt)
                invariant
                    j <= out@.len(),
                    s == record_views(out@),
                    xt@ == x@.ts,
                    forall|i: int| j <= i < s.len() ==> !lex_le(#[trigger] s[i].ts, x@.ts),
                decreases j,
            {
                assert(s[j - 1] == out@[j - 1]@);
                j = j - 1;
            }
            proof {
                if j > 0 {
                    assert(s[j - 1] == out@[j - 1]@);
                }
                lemma_insert_at(s, x@, j as int);
            }
            let ghost before = out@;
            out.insert(j, x);
            assert(record_views(out@) =~= s.take(j as int).push(x@) + s.skip(j as int)) by {
                assert(out@ == before.insert(j as int, x));
            }
        }
        k = k + 1;
    }
    assert(all.take(k as int) =~= all);
    out
}

// ---------------------------------------------------------------------------
// Turn counts
// ---------------------------------------------------------------------------

/// The turns of the records, in their order.
pub open spec fn turns_of(rs: Seq<RecordModel>) -> Seq<u32> {
    Seq::new(rs.len(), |i: int| rs[i].actual_turns)
}

pub open spec fn sum_of(s: Seq<u32>) -> nat
    decreases s.len(),
{
    if s.len() == 0 {
        0
    } else {
        sum_of(s.drop_last()) + s.last() as nat
    }
}

/// The total of the records' turns; `None` where it does not fit in 32 bits.
pub fn total_turns(records: &[HistoryRecord]) -> (r: Option<u32>)
    ensures
        match r {
            Some(t) => t == sum_of(turns_of(record_views(records@))),
            None => sum_of(turns_of(record_views(records@))) > u32::MAX,
        },
{
    let ghost ts = turns_of(record_views(records@));
    let mut acc: u32 = 0;
    let mut i: usize = 0;
    assert(ts.take(0) =~= Seq::<u32>::empty());
    while i < records.len()
        invariant
            i <= records@.len(),
            ts == turns_of(record_views(records@)),
            acc == sum_of(ts.take(i as int)),
        decreases records.len() - i,
    {
        assert(ts.take(i + 1).drop_last() =~= ts.take(i as int));
        assert(ts[i as int] == records@[i as int].actual_turns);
        let n = records[i].actual_turns;
        if acc > u32::MAX - n {
            proof {
                lemma_sum_prefix(ts, i + 1);
            }
            return None;
        }
        acc = acc + n;
        i = i + 1;
    }
    assert(ts.take(i as int) =~= ts);
    Some(acc)
}

proof fn lemma_sum_prefix(s: Seq<u32>, k: int)
    requires
        0 <= k <= s.len(),
    ensures
        sum_of(s.take(k)) <= sum_of(s),
    decreases s.len(),
{
    if k < s.len() {
        assert(s.drop_last().take(k) =~= s.take(k));
        lemma_sum_prefix(s.drop_last(), k);
    } else {
        assert(s.take(k) =~= s);
    }
}

/// `x` placed after the last value of `s` not greater than it.
pub open spec fn insert_turns(s: Seq<u32>, x: u32) -> Seq<u32>
    decreases s.len(),
{
    if s.len() == 0 {
        seq![x]
    } else if s.last() <= x {
        s.push(x)
    } else {
        insert_turns(s.drop_last(), x).push(s.last())
    }
}

/// The values in ascending order.
pub open spec fn sorted_turns(s: Seq<u32>) -> Seq<u32>
    decreases s.len(),
{
    if s.len() == 0 {
        seq![]
    } else {
        insert_turns(sorted_turns(s.drop_last()), s.last())
    }
}

proof fn lemma_insert_turns_at(s: Seq<u32>, x: u32, j: int)
    requires
        0 <= j <= s.len(),
        forall|i: int| j <= i < s.len() ==> #[trigger] s[i] > x,
        j > 0 ==> s[j - 1] <= x,
    ensures
        insert_turns(s, x) == s.take(j).push(x) + s.skip(j),
    decreases s.len(),
{
    if s.len() == j {
        assert(s.take(j) =~= s);
        assert(s.push(x) + s.skip(j) =~= s.push(x));
    } else {
        let t = s.drop_last();
        assert(s.last() > x);
        lemma_insert_turns_at(t, x, j);
        assert(t.take(j) =~= s.take(j));
        assert((t.take(j).push(x) + t.skip(j)).push(s.last()) =~= t.take(j).push(x) + s.skip(j));
    }
}

/// `s` is in ascending order.
pub open spec fn ascending(s: Seq<u32>) -> bool {
    forall|i: int, j: int| 0 <= i <= j < s.len() ==> s[i] <= s[j]
}

proof fn lemma_insert_turns(s: Seq<u32>, x: u32)
    ensures
        insert_turns(s, x).len() == s.len() + 1,
        insert_turns(s, x).to_multiset() == s.to_multiset().insert(x),
        forall|v: u32| insert_turns(s, x).contains(v) ==> v == x || s.contains(v),
        ascending(s) ==> ascending(insert_turns(s, x)),
    decreases s.len(),
{
    broadcast use vstd::seq_lib::to_multiset_build;
    broadcast use vstd::multiset::group_multiset_axioms;

    if s.len() == 0 {
        assert(seq![x] =~= s.push(x));
    } else if s.last() <= x {
        assert forall|v: u32| s.push(x).contains(v) implies v == x || s.contains(v) by {
            let i = choose|i: int| 0 <= i < s.push(x).len() && s.push(x)[i] == v;
            if i < s.len() {
                assert(s[i] == v);
            }
        }
    } else {
        let d = s.drop_last();
        let l = s.last();
        lemma_insert_turns(d, x);
        let t = insert_turns(d, x);
        assert(d.push(l) =~= s);
        assert(t.push(l).to_multiset() =~= s.to_multiset().insert(x));
        assert forall|v: u32| t.push(l).contains(v) implies v == x || s.contains(v) by {
            let i = choose|i: int| 0 <= i < t.push(l).len() && t.push(l)[i] == v;
            if i < t.len() {
                assert(t[i] == v);
                assert(t.contains(v));
                if v != x {
                    assert(d.contains(v));
                    let j = choose|j: int| 0 <= j < d.len() && d[j] == v;
                    assert(d[j] == s[j]);
                    assert(s[j] == v);
                }
            } else {
                assert(s[s.len() - 1] == v);
            }
        }
        if ascending(s) {
            assert(ascending(d));
            assert forall|i: int| 0 <= i < t.len() implies #[trigger] t[i] <= l by {
                let v = t[i];
                assert(t.contains(v));
                if v != x {
                    assert(d.contains(v));
                    let j = choose|j: int| 0 <= j < d.len() && d[j] == v;
                    assert(d[j] == s[j]);
                    assert(s[j] <= s[s.len() - 1]);
                }
            }
        }
    }
}

/// Sorting the turn counts keeps every count, repeated ones included, and
/// puts them in ascending order: the result is a permutation of its input,
/// its length and the number of times each count occurs unchanged, and each
/// count is at most the next.
pub proof fn law_sorted_turns_permute(s: Seq<u32>)
    ensures
        sorted_turns(s).len() == s.len(),
        sorted_turns(s).to_multiset() == s.to_multiset(),
        forall|v: u32| sorted_turns(s).to_multiset().count(v) == s.to_multiset().count(v),
        ascending(sorted_turns(s)),
    decreases s.len(),
{
    broadcast use vstd::seq_lib::to_multiset_build;

    if s.len() == 0 {
        assert(sorted_turns(s) =~= s);
    } else {
        let d = s.drop_last();
        law_sorted_turns_permute(d);
        lemma_insert_turns(sorted_turns(d), s.last());
        assert(d.push(s.last()) =~= s);
        assert(d.push(s.last()).to_multiset() =~= d.to_multiset().insert(s.last()));
        assert(sorted_turns(s).to_multiset() =~= s.to_multiset());
    }
}

/// The records' turns in ascending order.
pub fn sorted_turn_counts(records: &[HistoryRecord]) -> (r: Vec<u32>)
    ensures
        r@ == sorted_turns(turns_of(record_views(records@))),
        r@.len() == records@.len(),
        r@.to_multiset() == turns_of(record_views(records@)).to_multiset(),
        ascending(r@),
{
    let ghost ts = turns_of(record_views(records@));
    let mut out: Vec<u32> = Vec::new();
    let mut i: usize = 0;
    assert(ts.take(0) =~= Seq::<u32>::empty());
    while i < records.len()
        invariant
            i <= records@.len(),
            ts == turns_of(record_views(records@)),
            out@ == sorted_turns(ts.take(i as int)),
        decreases records.len() - i,
    {
        assert(ts.take(i + 1).drop_last() =~= ts.take(i as int));
        assert(ts[i as int] == records@[i as int].actual_turns);
        let x = records[i].actual_turns;
        let ghost s = out@;
        let mut j = out.len();
        while j > 0 && out[j - 1] > x
            invariant
                j <= out@.len(),
                s == out@,
                forall|m: int| j <= m < s.len() ==> #[trigger] s[m] > x,
            decreases j,
        {
            j = j - 1;
        }
        proof {
            lemma_insert_turns_at(s, x, j as int);
        }
        out.insert(j, x);
        i = i + 1;
    }
    assert(ts.take(i as int) =~= ts);
    proof {
        law_sorted_turns_permute(ts);
    }
    out
}

pub open spec fn mid(n: nat) -> int {
    (n / 2) as int
}

/// The two middle values of a sorted, non-empty list: the same one twice when
/// it has an odd length.
pub fn middle_pair(sorted: &[u32]) -> (r: (u32, u32))
    requires
        sorted@.len() > 0,
    ensures
        sorted@.len() % 2 == 1 ==> r == (sorted@[mid(sorted@.len())], sorted@[mid(sorted@.len())]),
        sorted@.len() % 2 == 0 ==> r == (sorted@[mid(sorted@.len()) - 1], sorted@[mid(
            sorted@.len(),
        )]),
{
    let n = sorted.len();
    if n % 2 == 1 {
        (sorted[n / 2], sorted[n / 2])
    } else {
        (sorted[n / 2 - 1], sorted[n / 2])
    }
}

} // verus!

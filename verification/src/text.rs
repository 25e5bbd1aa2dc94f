//! Character-sequence primitives: the meaning of the `str` operations the
//! planner relies on (trimming, searching, splitting, integer parsing and
//! printing), stated over `Seq<char>` and implemented on `Vec<char>`.
use vstd::prelude::*;

verus! {

// ---------------------------------------------------------------------------
// Searching
// ---------------------------------------------------------------------------

/// The least position in `[lo, hi)` where `pred` holds, or `hi` when there is none.
pub open spec fn first_at(lo: int, hi: int, pred: spec_fn(int) -> bool) -> int
    decreases hi - lo,
{
    if lo >= hi {
        hi
    } else if pred(lo) {
        lo
    } else {
        first_at(lo + 1, hi, pred)
    }
}

pub proof fn lemma_first_at(lo: int, hi: int, pred: spec_fn(int) -> bool)
    ensures
        lo >= hi ==> first_at(lo, hi, pred) == hi,
        lo <= hi ==> lo <= first_at(lo, hi, pred) <= hi,
        forall|k: int| lo <= k < first_at(lo, hi, pred) ==> !#[trigger] pred(k),
        first_at(lo, hi, pred) < hi ==> pred(first_at(lo, hi, pred)),
    decreases hi - lo,
{
    if lo < hi && !pred(lo) {
        lemma_first_at(lo + 1, hi, pred);
    }
}

pub proof fn lemma_first_at_unique(lo: int, hi: int, pred: spec_fn(int) -> bool, r: int)
    requires
        lo <= r <= hi,
        forall|k: int| lo <= k < r ==> !#[trigger] pred(k),
        r < hi ==> pred(r),
    ensures
        first_at(lo, hi, pred) == r,
    decreases hi - lo,
{
    if lo < r {
        lemma_first_at_unique(lo + 1, hi, pred, r);
    }
}

pub open spec fn char_is(s: Seq<char>, c: char) -> spec_fn(int) -> bool {
    |i: int| s[i] == c
}

pub open spec fn char_isnt(s: Seq<char>, c: char) -> spec_fn(int) -> bool {
    |i: int| s[i] != c
}

pub open spec fn sub_at(s: Seq<char>, p: Seq<char>) -> spec_fn(int) -> bool {
    |i: int| s.subrange(i, i + p.len()) == p
}

/// Position of the first `c` in `s`, as `str::find` with a `char` pattern.
pub open spec fn find_char(s: Seq<char>, c: char) -> Option<int> {
    let r = first_at(0, s.len() as int, char_is(s, c));
    if r < s.len() {
        Some(r)
    } else {
        None
    }
}

/// Position of the first occurrence of `p` in `s`, as `str::find` with a string pattern.
pub open spec fn find_sub(s: Seq<char>, p: Seq<char>) -> Option<int> {
    let hi = s.len() - p.len() + 1;
    let r = first_at(0, hi, sub_at(s, p));
    if r < hi {
        Some(r)
    } else {
        None
    }
}

pub open spec fn contains(s: Seq<char>, p: Seq<char>) -> bool {
    find_sub(s, p) is Some
}

pub open spec fn has_char(s: Seq<char>, c: char) -> bool {
    exists|i: int| 0 <= i < s.len() && s[i] == c
}

pub open spec fn starts_with(s: Seq<char>, p: Seq<char>) -> bool {
    p.len() <= s.len() && s.take(p.len() as int) == p
}

pub open spec fn ends_with(s: Seq<char>, p: Seq<char>) -> bool {
    p.len() <= s.len() && s.skip(s.len() - p.len()) == p
}

pub open spec fn opt_int(r: Option<usize>) -> Option<int> {
    match r {
        Some(i) => Some(i as int),
        None => None,
    }
}

pub proof fn lemma_find_char(s: Seq<char>, c: char)
    ensures
        find_char(s, c) matches Some(i) ==> 0 <= i < s.len() && s[i] == c && forall|k: int|
            0 <= k < i ==> s[k] != c,
        find_char(s, c) is None ==> forall|k: int| 0 <= k < s.len() ==> s[k] != c,
        find_char(s, c) is Some <==> has_char(s, c),
{
    let n = s.len() as int;
    lemma_first_at(0, n, char_is(s, c));
    let r = first_at(0, n, char_is(s, c));
    assert forall|k: int| 0 <= k < r implies s[k] != c by {
        assert(!char_is(s, c)(k));
    }
    if r < n {
        assert(char_is(s, c)(r));
    }
}

pub proof fn lemma_find_sub(s: Seq<char>, p: Seq<char>)
    ensures
        find_sub(s, p) matches Some(i) ==> 0 <= i && i + p.len() <= s.len() && s.subrange(
            i,
            i + p.len(),
        ) == p && forall|k: int| 0 <= k < i ==> #[trigger] s.subrange(k, k + p.len()) != p,
        find_sub(s, p) is None ==> forall|k: int|
            0 <= k && k + p.len() <= s.len() ==> #[trigger] s.subrange(k, k + p.len()) != p,
{
    let hi = s.len() - p.len() + 1;
    lemma_first_at(0, hi, sub_at(s, p));
    let r = first_at(0, hi, sub_at(s, p));
    assert forall|k: int| 0 <= k < r implies #[trigger] s.subrange(k, k + p.len()) != p by {
        assert(!sub_at(s, p)(k));
    }
    if r < hi {
        assert(sub_at(s, p)(r));
    }
}

// ---------------------------------------------------------------------------
// Whitespace and trimming
// ---------------------------------------------------------------------------

/// Unicode `White_Space`, the property that `char::is_whitespace` tests.
pub open spec fn is_ws(c: char) -> bool {
    let u = c as u32;
    (9 <= u <= 13) || u == 32 || u == 0x85 || u == 0xA0 || u == 0x1680 || (0x2000 <= u
        <= 0x200A) || u == 0x2028 || u == 0x2029 || u == 0x202F || u == 0x205F || u == 0x3000
}

pub open spec fn not_ws_at(s: Seq<char>) -> spec_fn(int) -> bool {
    |i: int| !is_ws(s[i])
}

pub open spec fn ws_at(s: Seq<char>) -> spec_fn(int) -> bool {
    |i: int| is_ws(s[i])
}

/// `str::trim_start`.
pub open spec fn trim_start(s: Seq<char>) -> Seq<char> {
    s.skip(first_at(0, s.len() as int, not_ws_at(s)))
}

/// End of `s[..j]` once the whitespace at its end is dropped.
pub open spec fn trimmed_end(s: Seq<char>, j: int) -> int
    decreases j,
{
    if j <= 0 {
        0
    } else if !is_ws(s[j - 1]) {
        j
    } else {
        trimmed_end(s, j - 1)
    }
}

/// `str::trim_end`.
pub open spec fn trim_end(s: Seq<char>) -> Seq<char> {
    s.take(trimmed_end(s, s.len() as int))
}

/// `str::trim`.
pub open spec fn trim(s: Seq<char>) -> Seq<char> {
    trim_end(trim_start(s))
}

pub proof fn lemma_trimmed_end(s: Seq<char>, j: int)
    requires
        0 <= j <= s.len(),
    ensures
        0 <= trimmed_end(s, j) <= j,
        forall|k: int| trimmed_end(s, j) <= k < j ==> is_ws(s[k]),
        trimmed_end(s, j) > 0 ==> !is_ws(s[trimmed_end(s, j) - 1]),
    decreases j,
{
    if j > 0 && is_ws(s[j - 1]) {
        lemma_trimmed_end(s, j - 1);
    }
}

pub proof fn lemma_trimmed_end_unique(s: Seq<char>, j: int, r: int)
    requires
        0 <= r <= j <= s.len(),
        forall|k: int| r <= k < j ==> is_ws(s[k]),
        r > 0 ==> !is_ws(s[r - 1]),
    ensures
        trimmed_end(s, j) == r,
    decreases j,
{
    if j > r {
        lemma_trimmed_end_unique(s, j - 1, r);
    }
}

pub proof fn lemma_trim_start(s: Seq<char>)
    ensures
        trim_start(s).len() <= s.len(),
        trim_start(s).len() > 0 ==> !is_ws(trim_start(s)[0]),
        trim_start(s) == s.skip(s.len() - trim_start(s).len()),
        forall|k: int| 0 <= k < s.len() - trim_start(s).len() ==> is_ws(s[k]),
{
    let r = first_at(0, s.len() as int, not_ws_at(s));
    lemma_first_at(0, s.len() as int, not_ws_at(s));
    assert forall|k: int| 0 <= k < r implies is_ws(s[k]) by {
        assert(!not_ws_at(s)(k));
    }
    if r < s.len() {
        assert(not_ws_at(s)(r));
    }
}

pub proof fn lemma_trim_end(s: Seq<char>)
    ensures
        trim_end(s).len() <= s.len(),
        trim_end(s).len() > 0 ==> !is_ws(trim_end(s).last()),
        trim_end(s) == s.take(trim_end(s).len() as int),
        forall|k: int| trim_end(s).len() <= k < s.len() ==> is_ws(s[k]),
{
    lemma_trimmed_end(s, s.len() as int);
}

/// `char::is_whitespace`.
pub fn is_whitespace(c: char) -> (r: bool)
    ensures
        r == is_ws(c),
{
    let u = c as u32;
    (9 <= u && u <= 13) || u == 32 || u == 0x85 || u == 0xA0 || u == 0x1680 || (0x2000 <= u && u
        <= 0x200A) || u == 0x2028 || u == 0x2029 || u == 0x202F || u == 0x205F || u == 0x3000
}

/// A copy of `s[lo..hi]`.
pub fn sub_vec(s: &[char], lo: usize, hi: usize) -> (r: Vec<char>)
    requires
        lo <= hi <= s@.len(),
    ensures
        r@ == s@.subrange(lo as int, hi as int),
{
    let mut r: Vec<char> = Vec::new();
    let mut i = lo;
    while i < hi
        invariant
            lo <= i <= hi <= s@.len(),
            r@ == s@.subrange(lo as int, i as int),
        decreases hi - i,
    {
        r.push(s[i]);
        i = i + 1;
    }
    r
}

/// Appends `t` to `v`.
pub fn push_all(v: &mut Vec<char>, t: &[char])
    ensures
        final(v)@ == old(v)@ + t@,
{
    let mut i: usize = 0;
    while i < t.len()
        invariant
            i <= t@.len(),
            v@ == old(v)@ + t@.take(i as int),
        decreases t.len() - i,
    {
        v.push(t[i]);
        assert(t@.take(i + 1) == t@.take(i as int).push(t@[i as int]));
        i = i + 1;
    }
    assert(t@.take(t@.len() as int) == t@);
}

/// `a + b`.
pub fn concat(a: &[char], b: &[char]) -> (r: Vec<char>)
    ensures
        r@ == a@ + b@,
{
    let mut r: Vec<char> = Vec::new();
    push_all(&mut r, a);
    push_all(&mut r, b);
    r
}

/// Whether two character sequences are equal.
pub fn seq_eq(a: &[char], b: &[char]) -> (r: bool)
    ensures
        r == (a@ == b@),
{
    if a.len() != b.len() {
        return false;
    }
    let mut i: usize = 0;
    while i < a.len()
        invariant
            a@.len() == b@.len(),
            i <= a@.len(),
            forall|k: int| 0 <= k < i ==> a@[k] == b@[k],
        decreases a.len() - i,
    {
        if a[i] != b[i] {
            return false;
        }
        i = i + 1;
    }
    assert(a@ =~= b@);
    true
}

/// Whether `p` occurs in `s` at position `i`.
pub fn matches_at(s: &[char], i: usize, p: &[char]) -> (r: bool)
    ensures
        r == (i + p@.len() <= s@.len() && s@.subrange(i as int, i + p@.len()) == p@),
{
    if i > s.len() || p.len() > s.len() - i {
        return false;
    }
    let mut k: usize = 0;
    while k < p.len()
        invariant
            i + p@.len() <= s@.len(),
            i + p.len() <= s.len(),
            k <= p@.len(),
            forall|m: int| 0 <= m < k ==> s@[i + m] == p@[m],
        decreases p.len() - k,
    {
        if s[i + k] != p[k] {
            assert(s@.subrange(i as int, i + p@.len())[k as int] != p@[k as int]);
            return false;
        }
        k = k + 1;
    }
    assert(s@.subrange(i as int, i + p@.len()) =~= p@);
    true
}

/// `s.starts_with(p)`.
pub fn starts_with_exec(s: &[char], p: &[char]) -> (r: bool)
    ensures
        r == starts_with(s@, p@),
{
    let r = matches_at(s, 0, p);
    proof {
        if p@.len() <= s@.len() {
            assert(s@.subrange(0, p@.len() as int) == s@.take(p@.len() as int));
        }
    }
    r
}

/// `s.ends_with(p)`.
pub fn ends_with_exec(s: &[char], p: &[char]) -> (r: bool)
    ensures
        r == ends_with(s@, p@),
{
    if p.len() > s.len() {
        return false;
    }
    let r = matches_at(s, s.len() - p.len(), p);
    proof {
        assert(s@.subrange(s@.len() - p@.len(), s@.len() as int) == s@.skip(
            s@.len() - p@.len(),
        ));
    }
    r
}

/// First position at or after `from` where `c` occurs.
pub fn find_char_from(s: &[char], from: usize, c: char) -> (r: Option<usize>)
    requires
        from <= s@.len(),
    ensures
        opt_int(r) == (match find_char(s@.skip(from as int), c) {
            Some(i) => Some(i + from),
            None => None,
        }),
{
    let ghost t = s@.skip(from as int);
    let mut i = from;
    while i < s.len()
        invariant
            from <= i <= s@.len(),
            t == s@.skip(from as int),
            forall|k: int| from <= k < i ==> s@[k] != c,
        decreases s.len() - i,
    {
        if s[i] == c {
            proof {
                lemma_first_at_unique(0, t.len() as int, char_is(t, c), i - from);
            }
            return Some(i);
        }
        i = i + 1;
    }
    proof {
        lemma_first_at_unique(0, t.len() as int, char_is(t, c), t.len() as int);
    }
    None
}

/// `s.find(c)`.
pub fn find_char_exec(s: &[char], c: char) -> (r: Option<usize>)
    ensures
        opt_int(r) == find_char(s@, c),
{
    let r = find_char_from(s, 0, c);
    assert(s@.skip(0) == s@);
    r
}

/// First position at or after `from` where `p` occurs.
pub fn find_sub_from(s: &[char], from: usize, p: &[char]) -> (r: Option<usize>)
    requires
        from <= s@.len(),
    ensures
        opt_int(r) == (match find_sub(s@.skip(from as int), p@) {
            Some(i) => Some(i + from),
            None => None,
        }),
{
    let ghost t = s@.skip(from as int);
    let ghost hi = t.len() - p@.len() + 1;
    let mut i = from;
    while p.len() <= s.len() - i
        invariant
            from <= i <= s@.len(),
            t == s@.skip(from as int),
            hi == t.len() - p@.len() + 1,
            forall|k: int| 0 <= k < i - from ==> !(#[trigger] sub_at(t, p@)(k)),
        decreases s.len() - i,
    {
        proof {
            assert(t.subrange(i - from, i - from + p@.len()) =~= s@.subrange(
                i as int,
                i + p@.len(),
            ));
        }
        if matches_at(s, i, p) {
            proof {
                lemma_first_at_unique(0, hi, sub_at(t, p@), i - from);
            }
            return Some(i);
        }
        assert(!sub_at(t, p@)(i - from));
        if p.len() == 0 {
            assert(s@.subrange(i as int, i as int) =~= p@);
        }
        i = i + 1;
    }
    proof {
        if hi > 0 {
            lemma_first_at_unique(0, hi, sub_at(t, p@), hi);
        } else {
            lemma_first_at(0, hi, sub_at(t, p@));
        }
    }
    None
}

/// `s.find(p)`.
pub fn find_sub_exec(s: &[char], p: &[char]) -> (r: Option<usize>)
    ensures
        opt_int(r) == find_sub(s@, p@),
{
    let r = find_sub_from(s, 0, p);
    assert(s@.skip(0) == s@);
    r
}

/// `s.contains(p)`.
pub fn contains_exec(s: &[char], p: &[char]) -> (r: bool)
    ensures
        r == contains(s@, p@),
{
    find_sub_exec(s, p).is_some()
}

/// `s.trim_start()`.
pub fn trim_start_exec(s: &[char]) -> (r: Vec<char>)
    ensures
        r@ == trim_start(s@),
{
    let mut i: usize = 0;
    while i < s.len() && is_whitespace(s[i])
        invariant
            i <= s@.len(),
            forall|k: int| 0 <= k < i ==> is_ws(s@[k]),
        decreases s.len() - i,
    {
        i = i + 1;
    }
    proof {
        lemma_first_at_unique(0, s@.len() as int, not_ws_at(s@), i as int);
    }
    sub_vec(s, i, s.len())
}

/// `s.trim_end()`.
pub fn trim_end_exec(s: &[char]) -> (r: Vec<char>)
    ensures
        r@ == trim_end(s@),
{
    let mut j: usize = s.len();
    while j > 0 && is_whitespace(s[j - 1])
        invariant
            j <= s@.len(),
            forall|k: int| j <= k < s@.len() ==> is_ws(s@[k]),
        decreases j,
    {
        j = j - 1;
    }
    proof {
        lemma_trimmed_end_unique(s@, s@.len() as int, j as int);
    }
    sub_vec(s, 0, j)
}

/// `s.trim()`.
pub fn trim_exec(s: &[char]) -> (r: Vec<char>)
    ensures
        r@ == trim(s@),
{
    let t = trim_start_exec(s);
    trim_end_exec(&t)
}

/// The characters of a string slice, in order.
pub fn chars_of(s: &str) -> (r: Vec<char>)
    ensures
        r@ == s@,
{
    let mut r: Vec<char> = Vec::new();
    for c in it: s.chars()
        invariant
            r@ == it.seq().take(it.index() as int),
            it.seq() == s@,
    {
        r.push(c);
    }
    r
}

/// `String::push`: the string with `c` added at its end.
#[verifier::external_body]
fn push_char(s: &mut String, c: char)
    ensures
        final(s)@ == old(s)@.push(c),
{
    s.push(c);
}

/// A string holding exactly the given characters.
pub fn string_of(v: &[char]) -> (r: String)
    ensures
        r@ == v@,
{
    let mut r = String::new();
    let mut i: usize = 0;
    while i < v.len()
        invariant
            i <= v@.len(),
            r@ == v@.take(i as int),
        decreases v.len() - i,
    {
        push_char(&mut r, v[i]);
        assert(v@.take(i as int).push(v@[i as int]) == v@.take(i + 1));
        i = i + 1;
    }
    assert(v@.take(v@.len() as int) == v@);
    r
}

// ---------------------------------------------------------------------------
// Splitting
// ---------------------------------------------------------------------------

/// Drops one `'\r'` at the end, if there is one.
pub open spec fn strip_cr(s: Seq<char>) -> Seq<char> {
    if s.len() > 0 && s.last() == '\r' {
        s.drop_last()
    } else {
        s
    }
}

/// `str::lines`: pieces between `'\n'`s, a `'\r'` before a `'\n'` dropped, and no
/// empty piece after a final `'\n'`.
pub open spec fn lines(s: Seq<char>) -> Seq<Seq<char>>
    decreases s.len(),
{
    if s.len() == 0 {
        seq![]
    } else {
        match find_char(s, '\n') {
            Some(i) => {
                proof {
                    lemma_find_char(s, '\n');
                }
                seq![strip_cr(s.take(i))] + lines(s.skip(i + 1))
            },
            None => seq![s],
        }
    }
}

/// `str::split` with a `char` pattern: always at least one piece.
pub open spec fn split_char(s: Seq<char>, c: char) -> Seq<Seq<char>>
    decreases s.len(),
{
    match find_char(s, c) {
        Some(i) => {
            proof {
                lemma_find_char(s, c);
            }
            seq![s.take(i)] + split_char(s.skip(i + 1), c)
        },
        None => seq![s],
    }
}

/// `str::split_whitespace`: the maximal runs of non-whitespace characters.
pub open spec fn words(s: Seq<char>) -> Seq<Seq<char>>
    decreases s.len(),
{
    let t = trim_start(s);
    if t.len() == 0 {
        seq![]
    } else {
        let j = first_at(0, t.len() as int, ws_at(t));
        proof {
            lemma_trim_start(s);
            lemma_first_at(0, t.len() as int, ws_at(t));
            if j == 0 {
                assert(ws_at(t)(0));
            }
        }
        seq![t.take(j)] + words(t.skip(j))
    }
}

/// The views of a sequence of character vectors.
pub open spec fn views(v: Seq<Vec<char>>) -> Seq<Seq<char>> {
    Seq::new(v.len(), |i: int| v[i]@)
}

pub proof fn lemma_words_nonempty(s: Seq<char>, i: int)
    requires
        0 <= i < words(s).len(),
    ensures
        words(s)[i].len() > 0,
    decreases s.len(),
{
    let t = trim_start(s);
    lemma_trim_start(s);
    if t.len() > 0 {
        let j = first_at(0, t.len() as int, ws_at(t));
        lemma_first_at(0, t.len() as int, ws_at(t));
        if j == 0 {
            assert(ws_at(t)(0));
        }
        if i > 0 {
            lemma_words_nonempty(t.skip(j), i - 1);
        }
    }
}

/// A copy of `s` without a final `'\r'`.
pub fn strip_cr_exec(s: Vec<char>) -> (r: Vec<char>)
    ensures
        r@ == strip_cr(s@),
{
    let mut s = s;
    if s.len() > 0 && s[s.len() - 1] == '\r' {
        s.pop();
    }
    s
}

/// `s.lines()`.
pub fn lines_exec(s: &[char]) -> (r: Vec<Vec<char>>)
    ensures
        views(r@) == lines(s@),
{
    let mut out: Vec<Vec<char>> = Vec::new();
    let mut start: usize = 0;
    assert(s@.skip(0) =~= s@);
    assert(views(out@) + lines(s@) =~= lines(s@));
    while start < s.len()
        invariant
            start <= s@.len(),
            views(out@) + lines(s@.skip(start as int)) == lines(s@),
        decreases s.len() - start,
    {
        let ghost r = s@.skip(start as int);
        match find_char_from(s, start, '\n') {
            Some(j) => {
                proof {
                    lemma_find_char(r, '\n');
                }
                let piece = strip_cr_exec(sub_vec(s, start, j));
                proof {
                    assert(r.take(j - start) =~= s@.subrange(start as int, j as int));
                    assert(r.skip(j - start + 1) =~= s@.skip(j + 1));
                }
                let ghost before = out@;
                out.push(piece);
                assert(views(out@) =~= views(before).push(piece@));
                start = j + 1;
            },
            None => {
                let piece = sub_vec(s, start, s.len());
                assert(piece@ =~= r);
                let ghost before = out@;
                out.push(piece);
                assert(views(out@) =~= views(before).push(piece@));
                assert(s@.skip(s@.len() as int) =~= Seq::<char>::empty());
                start = s.len();
            },
        }
    }
    assert(s@.skip(start as int) =~= Seq::<char>::empty());
    assert(views(out@) + seq![] =~= views(out@));
    out
}

/// `s.split(c)`.
pub fn split_char_exec(s: &[char], c: char) -> (r: Vec<Vec<char>>)
    ensures
        views(r@) == split_char(s@, c),
{
    let mut out: Vec<Vec<char>> = Vec::new();
    let mut start: usize = 0;
    assert(s@.skip(0) =~= s@);
    assert(views(out@) + split_char(s@, c) =~= split_char(s@, c));
    loop
        invariant
            start <= s@.len(),
            views(out@) + split_char(s@.skip(start as int), c) == split_char(s@, c),
        decreases s.len() - start,
    {
        let ghost r = s@.skip(start as int);
        match find_char_from(s, start, c) {
            Some(j) => {
                proof {
                    lemma_find_char(r, c);
                }
                let piece = sub_vec(s, start, j);
                proof {
                    assert(r.take(j - start) =~= s@.subrange(start as int, j as int));
                    assert(r.skip(j - start + 1) =~= s@.skip(j + 1));
                }
                let ghost before = out@;
                out.push(piece);
                assert(views(out@) =~= views(before).push(piece@));
                start = j + 1;
            },
            None => {
                let piece = sub_vec(s, start, s.len());
                assert(piece@ =~= r);
                let ghost before = out@;
                out.push(piece);
                assert(views(out@) =~= views(before).push(piece@));
                return out;
            },
        }
    }
}

/// `s.split_whitespace()`.
pub fn words_exec(s: &[char]) -> (r: Vec<Vec<char>>)
    ensures
        views(r@) == words(s@),
{
    let mut out: Vec<Vec<char>> = Vec::new();
    let mut i: usize = 0;
    assert(s@.skip(0) =~= s@);
    assert(views(out@) + words(s@) =~= words(s@));
    loop
        invariant
            i <= s@.len(),
            views(out@) + words(s@.skip(i as int)) == words(s@),
        decreases s.len() - i,
    {
        let ghost r = s@.skip(i as int);
        let mut a = i;
        while a < s.len() && is_whitespace(s[a])
            invariant
                i <= a <= s@.len(),
                forall|k: int| i <= k < a ==> is_ws(s@[k]),
            decreases s.len() - a,
        {
            a = a + 1;
        }
        proof {
            lemma_first_at_unique(0, r.len() as int, not_ws_at(r), a - i);
            assert(trim_start(r) =~= s@.skip(a as int));
        }
        if a == s.len() {
            assert(views(out@) + seq![] =~= views(out@));
            return out;
        }
        let mut b = a;
        while b < s.len() && !is_whitespace(s[b])
            invariant
                a <= b <= s@.len(),
                forall|k: int| a <= k < b ==> !is_ws(s@[k]),
            decreases s.len() - b,
        {
            b = b + 1;
        }
        let ghost t = s@.skip(a as int);
        proof {
            lemma_first_at_unique(0, t.len() as int, ws_at(t), b - a);
            assert(t.take(b - a) =~= s@.subrange(a as int, b as int));
            assert(t.skip(b - a) =~= s@.skip(b as int));
        }
        let piece = sub_vec(s, a, b);
        let ghost before = out@;
        out.push(piece);
        assert(views(out@) =~= views(before).push(piece@));
        i = b;
    }
}

// ---------------------------------------------------------------------------
// Decimal numbers
// ---------------------------------------------------------------------------

pub open spec fn is_digit(c: char) -> bool {
    48 <= (c as u32) <= 57
}

pub open spec fn digit_val(c: char) -> nat {
    ((c as u32) - 48) as nat
}

pub open spec fn digit_char(n: nat) -> char {
    ((n + 48) as u32) as char
}

pub open spec fn all_digits(d: Seq<char>) -> bool {
    forall|i: int| 0 <= i < d.len() ==> is_digit(#[trigger] d[i])
}

/// The number that a string of decimal digits denotes.
pub open spec fn digits_value(d: Seq<char>) -> nat
    decreases d.len(),
{
    if d.len() == 0 {
        0
    } else {
        digits_value(d.drop_last()) * 10 + digit_val(d.last())
    }
}

/// `s` without one leading `'+'`.
pub open spec fn unsigned_digits(s: Seq<char>) -> Seq<char> {
    if s.len() > 0 && s[0] == '+' {
        s.skip(1)
    } else {
        s
    }
}

/// `str::parse::<u32>`: an optional `'+'`, then at least one decimal digit, and a
/// value that fits.
pub open spec fn parse_u32(s: Seq<char>) -> Option<u32> {
    let d = unsigned_digits(s);
    if d.len() > 0 && all_digits(d) && digits_value(d) <= u32::MAX {
        Some(digits_value(d) as u32)
    } else {
        None
    }
}

/// The decimal digits of `n`, without leading zeros.
pub open spec fn decimal(n: nat) -> Seq<char>
    decreases n,
{
    if n < 10 {
        seq![digit_char(n)]
    } else {
        decimal(n / 10).push(digit_char(n % 10))
    }
}

/// `s` left-padded with `'0'` to at least `w` characters (`{:0w}` of a non-negative number).
pub open spec fn pad_zeros(s: Seq<char>, w: nat) -> Seq<char> {
    if s.len() >= w {
        s
    } else {
        Seq::new((w - s.len()) as nat, |i: int| '0') + s
    }
}

proof fn lemma_digits_value_prefix(d: Seq<char>, k: int)
    requires
        0 <= k <= d.len(),
    ensures
        digits_value(d.take(k)) <= digits_value(d),
    decreases d.len(),
{
    if k < d.len() {
        assert(d.drop_last().take(k) =~= d.take(k));
        lemma_digits_value_prefix(d.drop_last(), k);
    } else {
        assert(d.take(k) =~= d);
    }
}

/// `s.parse::<u32>().ok()`.
pub fn parse_u32_exec(s: &[char]) -> (r: Option<u32>)
    ensures
        r == parse_u32(s@),
{
    let start: usize = if s.len() > 0 && s[0] == '+' {
        1
    } else {
        0
    };
    let ghost d = s@.skip(start as int);
    assert(d == unsigned_digits(s@)) by {
        if start == 0 {
            assert(s@.skip(0) =~= s@);
        }
    }
    if start == s.len() {
        return None;
    }
    let mut acc: u64 = 0;
    let mut i = start;
    while i < s.len()
        invariant
            start <= i <= s@.len(),
            d == s@.skip(start as int),
            d == unsigned_digits(s@),
            acc == digits_value(d.take(i - start)),
            acc <= u32::MAX,
            all_digits(d.take(i - start)),
        decreases s.len() - i,
    {
        let c = s[i];
        let u = c as u32;
        assert(d[i - start] == s@[i as int]);
        if u < 48 || u > 57 {
            assert(!is_digit(d[i - start]));
            assert(!all_digits(d));
            assert(parse_u32(s@) is None);
            return None;
        }
        proof {
            assert(d.take(i - start + 1).drop_last() =~= d.take(i - start));
            assert(d.take(i - start + 1).last() == c);
        }
        acc = acc * 10 + (u - 48) as u64;
        assert(acc == digits_value(d.take(i - start + 1)));
        assert(all_digits(d.take(i - start + 1)));
        if acc > 0xffff_ffff {
            proof {
                lemma_digits_value_prefix(d, i - start + 1);
                assert(digits_value(d) > u32::MAX);
                assert(parse_u32(s@) is None);
            }
            return None;
        }
        i = i + 1;
    }
    assert(d.take(i - start) =~= d);
    Some(acc as u32)
}

/// `n.to_string()` for a `u64`.
pub fn decimal_exec(n: u64) -> (r: Vec<char>)
    ensures
        r@ == decimal(n as nat),
    decreases n,
{
    let d = ((n % 10) as u32 + 48) as u8 as char;
    if n < 10 {
        let mut v: Vec<char> = Vec::new();
        v.push(d);
        assert(v@ =~= seq![digit_char(n as nat)]);
        v
    } else {
        let mut v = decimal_exec(n / 10);
        v.push(d);
        v
    }
}

/// `s` left-padded with `'0'` to `w` characters.
pub fn pad_zeros_exec(s: &[char], w: usize) -> (r: Vec<char>)
    ensures
        r@ == pad_zeros(s@, w as nat),
{
    if s.len() >= w {
        return sub_vec(s, 0, s.len());
    }
    let mut v: Vec<char> = Vec::new();
    let mut i: usize = 0;
    while i < w - s.len()
        invariant
            s@.len() < w,
            i <= w - s@.len(),
            v@ == Seq::new(i as nat, |k: int| '0'),
        decreases w - s.len() - i,
    {
        v.push('0');
        assert(v@ =~= Seq::new((i + 1) as nat, |k: int| '0'));
        i = i + 1;
    }
    push_all(&mut v, s);
    v
}

// ---------------------------------------------------------------------------
// Prefix stripping, joining, replacing
// ---------------------------------------------------------------------------

/// `str::trim_start_matches` with a string pattern: every leading copy of `p` removed.
pub open spec fn strip_all_prefix(s: Seq<char>, p: Seq<char>) -> Seq<char>
    decreases s.len(),
{
    if p.len() > 0 && starts_with(s, p) {
        strip_all_prefix(s.skip(p.len() as int), p)
    } else {
        s
    }
}

/// The pieces joined with `sep` between them (`[String]::join`).
pub open spec fn join(ss: Seq<Seq<char>>, sep: Seq<char>) -> Seq<char>
    decreases ss.len(),
{
    if ss.len() == 0 {
        seq![]
    } else if ss.len() == 1 {
        ss[0]
    } else {
        join(ss.drop_last(), sep) + sep + ss.last()
    }
}

/// `str::replace`: every non-overlapping occurrence of `p`, from the left, becomes `q`.
pub open spec fn replace_all(s: Seq<char>, p: Seq<char>, q: Seq<char>) -> Seq<char>
    decreases s.len(),
{
    if p.len() == 0 {
        s
    } else {
        match find_sub(s, p) {
            Some(i) => {
                proof {
                    lemma_find_sub(s, p);
                }
                s.take(i) + q + replace_all(s.skip(i + p.len()), p, q)
            },
            None => s,
        }
    }
}

/// A text without whitespace at either end is its own trim.
pub proof fn lemma_trim_id(s: Seq<char>)
    requires
        s.len() > 0 ==> !is_ws(s[0]) && !is_ws(s.last()),
    ensures
        trim(s) == s,
{
    let n = s.len() as int;
    lemma_first_at_unique(0, n, not_ws_at(s), 0);
    assert(trim_start(s) =~= s);
    lemma_trimmed_end_unique(s, n, n);
    assert(s.take(n) =~= s);
}

/// A line that holds no `'\n'`, followed by `'\n'`, is the first of the lines.
pub proof fn lemma_lines_cons(a: Seq<char>, rest: Seq<char>)
    requires
        !has_char(a, '\n'),
    ensures
        lines(a + seq!['\n'] + rest) == seq![strip_cr(a)] + lines(rest),
{
    let s = a + seq!['\n'] + rest;
    let n = a.len() as int;
    assert forall|k: int| 0 <= k < n implies !#[trigger] char_is(s, '\n')(k) by {
        assert(s[k] == a[k]);
    }
    assert(char_is(s, '\n')(n));
    lemma_first_at_unique(0, s.len() as int, char_is(s, '\n'), n);
    assert(s.take(n) =~= a);
    assert(s.skip(n + 1) =~= rest);
}

proof fn lemma_digit_char(k: nat)
    requires
        k < 10,
    ensures
        digit_val(digit_char(k)) == k,
        is_digit(digit_char(k)),
{
    let u = (k + 48) as u32;
    assert(48 <= u <= 57);
    assert((u as char) as u32 == u);
}

/// The digits of `n` read back as `n`.
pub proof fn lemma_decimal(n: nat)
    ensures
        decimal(n).len() > 0,
        all_digits(decimal(n)),
        digits_value(decimal(n)) == n,
    decreases n,
{
    lemma_digit_char(n % 10);
    if n < 10 {
        assert(decimal(n).drop_last() =~= Seq::<char>::empty());
        assert(digits_value(decimal(n)) == digits_value(decimal(n).drop_last()) * 10 + digit_val(
            decimal(n).last(),
        ));
    } else {
        lemma_decimal(n / 10);
        let d = decimal(n / 10);
        assert(decimal(n).drop_last() =~= d);
        assert(decimal(n).last() == digit_char(n % 10));
        assert(digits_value(decimal(n)) == digits_value(d) * 10 + digit_val(digit_char(n % 10)));
        assert(n / 10 * 10 + n % 10 == n);
        assert forall|i: int| 0 <= i < decimal(n).len() implies is_digit(
            #[trigger] decimal(n)[i],
        ) by {
            if i < d.len() {
                assert(decimal(n)[i] == d[i]);
            }
        }
    }
}

/// `str::parse::<u32>` reads back what `decimal` wrote.
pub proof fn lemma_parse_decimal(n: u32)
    ensures
        parse_u32(decimal(n as nat)) == Some(n),
        trim(decimal(n as nat)) == decimal(n as nat),
        !has_char(decimal(n as nat), '\n'),
{
    let d = decimal(n as nat);
    lemma_decimal(n as nat);
    assert(is_digit(d[0]));
    assert(is_digit(d[d.len() - 1]));
    assert(unsigned_digits(d) == d);
    lemma_trim_id(d);
    if has_char(d, '\n') {
        let i = choose|i: int| 0 <= i < d.len() && d[i] == '\n';
        assert(is_digit(d[i]));
    }
}

/// `join` seen from the front.
pub proof fn lemma_join_front(ss: Seq<Seq<char>>, sep: Seq<char>)
    requires
        ss.len() >= 2,
    ensures
        join(ss, sep) == ss[0] + sep + join(ss.skip(1), sep),
    decreases ss.len(),
{
    if ss.len() == 2 {
        assert(ss.drop_last().len() == 1);
        assert(ss.skip(1).len() == 1);
        assert(join(ss.skip(1), sep) == ss.skip(1)[0]);
        assert(join(ss.drop_last(), sep) == ss.drop_last()[0]);
    } else {
        let t = ss.drop_last();
        lemma_join_front(t, sep);
        assert(t.skip(1) =~= ss.skip(1).drop_last());
        assert(ss.skip(1).last() == ss.last());
        assert(join(ss.skip(1), sep) == join(ss.skip(1).drop_last(), sep) + sep + ss.skip(1).last());
    }
}

/// A line that neither holds a line break nor ends with a carriage return.
pub open spec fn bare_line(l: Seq<char>) -> bool {
    !has_char(l, '\n') && !(l.len() > 0 && l.last() == '\r')
}

/// Lines joined with line breaks, each line ended by one, split back into the same lines.
pub proof fn lemma_lines_of_joined(ls: Seq<Seq<char>>)
    requires
        ls.len() > 0,
        forall|j: int| 0 <= j < ls.len() ==> bare_line(#[trigger] ls[j]),
    ensures
        lines(join(ls, seq!['\n']) + seq!['\n']) == ls,
    decreases ls.len(),
{
    let nl = seq!['\n'];
    assert(bare_line(ls[0]));
    if ls.len() == 1 {
        lemma_lines_cons(ls[0], Seq::<char>::empty());
        assert(ls[0] + nl + Seq::<char>::empty() =~= join(ls, nl) + nl);
        assert(lines(Seq::<char>::empty()) == Seq::<Seq<char>>::empty());
        assert(seq![strip_cr(ls[0])] + Seq::<Seq<char>>::empty() =~= ls);
    } else {
        let rest = ls.skip(1);
        assert forall|j: int| 0 <= j < rest.len() implies bare_line(#[trigger] rest[j]) by {
            assert(rest[j] == ls[j + 1]);
        }
        lemma_lines_of_joined(rest);
        lemma_join_front(ls, nl);
        lemma_lines_cons(ls[0], join(rest, nl) + nl);
        assert(join(ls, nl) + nl =~= ls[0] + nl + (join(rest, nl) + nl));
        assert(seq![strip_cr(ls[0])] + rest =~= ls);
    }
}

/// Lines joined with line breaks, without a final one, split back into the
/// same lines when the last is not empty.
pub proof fn lemma_lines_of_joined_open(ls: Seq<Seq<char>>)
    requires
        ls.len() > 0,
        forall|j: int| 0 <= j < ls.len() - 1 ==> bare_line(#[trigger] ls[j]),
        !has_char(ls.last(), '\n'),
        ls.last().len() > 0,
    ensures
        lines(join(ls, seq!['\n'])) == ls,
    decreases ls.len(),
{
    let nl = seq!['\n'];
    if ls.len() == 1 {
        let l = ls[0];
        lemma_find_char(l, '\n');
        assert(ls.last() == l);
        assert(lines(l) == seq![l]);
        assert(seq![l] =~= ls);
    } else {
        let rest = ls.skip(1);
        assert(bare_line(ls[0]));
        assert forall|j: int| 0 <= j < rest.len() - 1 implies bare_line(#[trigger] rest[j]) by {
            assert(rest[j] == ls[j + 1]);
        }
        assert(rest.last() == ls.last());
        lemma_lines_of_joined_open(rest);
        lemma_join_front(ls, nl);
        lemma_lines_cons(ls[0], join(rest, nl));
        assert(seq![strip_cr(ls[0])] + rest =~= ls);
    }
}

/// No line that `lines` gives holds a line break; the last is not empty when
/// the text does not end with one.
pub proof fn lemma_lines_shape(s: Seq<char>)
    ensures
        forall|j: int| 0 <= j < lines(s).len() ==> !has_char(#[trigger] lines(s)[j], '\n'),
        s.len() > 0 ==> lines(s).len() > 0,
        s.len() > 0 && s.last() != '\n' ==> lines(s).last().len() > 0,
    decreases s.len(),
{
    if s.len() > 0 {
        lemma_find_char(s, '\n');
        match find_char(s, '\n') {
            Some(i) => {
                let head = strip_cr(s.take(i));
                let tail = s.skip(i + 1);
                lemma_lines_shape(tail);
                assert(!has_char(head, '\n')) by {
                    if has_char(head, '\n') {
                        let x = choose|x: int| 0 <= x < head.len() && head[x] == '\n';
                        assert(s.take(i)[x] == s[x]);
                    }
                }
                let ls = lines(s);
                assert(ls == seq![head] + lines(tail));
                assert forall|j: int| 0 <= j < ls.len() implies !has_char(#[trigger] ls[j], '\n') by {
                    if j > 0 {
                        assert(ls[j] == lines(tail)[j - 1]);
                    }
                }
                if s.last() != '\n' {
                    assert(i < s.len() - 1);
                    assert(tail.last() == s.last());
                    assert(ls.last() == lines(tail).last());
                }
            },
            None => {
                assert(lines(s) == seq![s]);
            },
        }
    }
}

/// Whitespace at the start does not change the trim.
pub proof fn lemma_trim_skip_ws(s: Seq<char>)
    requires
        s.len() > 0,
        is_ws(s[0]),
    ensures
        trim(s.skip(1)) == trim(s),
{
    let t = s.skip(1);
    let n = s.len() as int;
    lemma_first_at(0, n, not_ws_at(s));
    lemma_first_at(0, n - 1, not_ws_at(t));
    let k = first_at(0, n - 1, not_ws_at(t));
    assert forall|x: int| 0 <= x < k + 1 implies !#[trigger] not_ws_at(s)(x) by {
        if x > 0 {
            assert(!not_ws_at(t)(x - 1));
        }
    }
    if k + 1 < n {
        assert(not_ws_at(t)(k));
    }
    lemma_first_at_unique(0, n, not_ws_at(s), k + 1);
    assert(t.skip(k) =~= s.skip(k + 1));
}

/// Whitespace at the end does not change the trim.
pub proof fn lemma_trim_drop_ws(s: Seq<char>)
    requires
        s.len() > 0,
        is_ws(s.last()),
    ensures
        trim(s.drop_last()) == trim(s),
{
    let t = s.drop_last();
    let n = s.len() as int;
    lemma_first_at(0, n, not_ws_at(s));
    lemma_first_at(0, n - 1, not_ws_at(t));
    let k = first_at(0, n - 1, not_ws_at(t));
    let ks = first_at(0, n, not_ws_at(s));
    if k < n - 1 {
        assert(not_ws_at(t)(k));
        assert forall|x: int| 0 <= x < k implies !#[trigger] not_ws_at(s)(x) by {
            assert(!not_ws_at(t)(x));
        }
        lemma_first_at_unique(0, n, not_ws_at(s), k);
        let a = t.skip(k);
        let b = s.skip(k);
        assert(a =~= b.drop_last());
        lemma_trimmed_end(b, b.len() as int);
        lemma_trimmed_end(a, a.len() as int);
        let e = trimmed_end(a, a.len() as int);
        assert(a[0] == s[k]);
        assert(e > 0) by {
            if e == 0 {
                assert(is_ws(a[0]));
            }
        }
        assert forall|x: int| e <= x < b.len() implies is_ws(b[x]) by {
            if x < a.len() {
                assert(b[x] == a[x]);
            }
        }
        assert(!is_ws(b[e - 1])) by {
            assert(b[e - 1] == a[e - 1]);
        }
        lemma_trimmed_end_unique(b, b.len() as int, e);
        assert(a.take(e) =~= b.take(e));
    } else {
        assert forall|x: int| 0 <= x < n implies !#[trigger] not_ws_at(s)(x) by {
            if x < n - 1 {
                assert(!not_ws_at(t)(x));
            }
        }
        lemma_first_at_unique(0, n, not_ws_at(s), n);
        assert(s.skip(n).len() == 0);
        assert(t.skip(n - 1).len() == 0);
        assert(trim(s).len() == 0);
        assert(trim(t).len() == 0);
    }
}

/// Trimming twice trims once.
pub proof fn lemma_trim_trim(s: Seq<char>)
    ensures
        trim(trim(s)) == trim(s),
{
    let t = trim(s);
    lemma_trim_start(s);
    lemma_trim_end(trim_start(s));
    if t.len() > 0 {
        assert(t[0] == trim_start(s)[0]);
    }
    lemma_trim_id(t);
}

/// The lines of a text that ends with a line break, followed by more text.
pub proof fn lemma_lines_append(x: Seq<char>, y: Seq<char>)
    requires
        x.len() > 0,
        x.last() == '\n',
    ensures
        lines(x + y) == lines(x) + lines(y),
    decreases x.len(),
{
    let s = x + y;
    lemma_find_char(x, '\n');
    let i = find_char(x, '\n')->0;
    assert forall|k: int| 0 <= k < i implies !#[trigger] char_is(s, '\n')(k) by {
        assert(s[k] == x[k]);
    }
    assert(char_is(s, '\n')(i));
    lemma_first_at_unique(0, s.len() as int, char_is(s, '\n'), i);
    assert(s.take(i) =~= x.take(i));
    let xr = x.skip(i + 1);
    assert(s.skip(i + 1) =~= xr + y);
    if xr.len() == 0 {
        assert(xr + y =~= y);
        assert(lines(xr) == Seq::<Seq<char>>::empty());
        assert(lines(x) =~= seq![strip_cr(x.take(i))]);
    } else {
        assert(xr.last() == x.last());
        lemma_lines_append(xr, y);
    }
    assert(lines(x + y) =~= lines(x) + lines(y));
}

/// A final line break after a last line that has none changes no line, unless
/// that line ends with a carriage return.
pub proof fn lemma_lines_close(x: Seq<char>)
    requires
        x.len() > 0,
        x.last() != '\n',
        x.last() != '\r',
    ensures
        lines(x.push('\n')) == lines(x),
    decreases x.len(),
{
    let s = x.push('\n');
    lemma_find_char(x, '\n');
    match find_char(x, '\n') {
        Some(i) => {
            assert forall|k: int| 0 <= k < i implies !#[trigger] char_is(s, '\n')(k) by {
                assert(s[k] == x[k]);
            }
            assert(char_is(s, '\n')(i));
            lemma_first_at_unique(0, s.len() as int, char_is(s, '\n'), i);
            assert(s.take(i) =~= x.take(i));
            let xr = x.skip(i + 1);
            assert(xr.len() > 0);
            assert(xr.last() == x.last());
            assert(s.skip(i + 1) =~= xr.push('\n'));
            lemma_lines_close(xr);
        },
        None => {
            let n = x.len() as int;
            assert forall|k: int| 0 <= k < n implies !#[trigger] char_is(s, '\n')(k) by {
                assert(s[k] == x[k]);
            }
            assert(char_is(s, '\n')(n));
            lemma_first_at_unique(0, s.len() as int, char_is(s, '\n'), n);
            assert(s.take(n) =~= x);
            assert(s.skip(n + 1).len() == 0);
            assert(lines(s.skip(n + 1)) == Seq::<Seq<char>>::empty());
            assert(strip_cr(x) == x);
            assert(lines(s) =~= seq![x]);
        },
    }
}

/// Text without the separator, put in front, joins the first piece.
pub proof fn lemma_split_prefix(pre: Seq<char>, y: Seq<char>, c: char)
    requires
        !has_char(pre, c),
    ensures
        split_char(pre + y, c) == seq![pre + split_char(y, c)[0]] + split_char(y, c).skip(1),
        split_char(y, c).len() > 0,
    decreases y.len(),
{
    let s = pre + y;
    let n = pre.len() as int;
    lemma_find_char(y, c);
    lemma_find_char(s, c);
    assert forall|k: int| 0 <= k < n implies !#[trigger] char_is(s, c)(k) by {
        assert(s[k] == pre[k]);
    }
    match find_char(y, c) {
        Some(i) => {
            assert forall|k: int| n <= k < n + i implies !#[trigger] char_is(s, c)(k) by {
                assert(s[k] == y[k - n]);
            }
            assert(char_is(s, c)(n + i));
            lemma_first_at_unique(0, s.len() as int, char_is(s, c), n + i);
            assert(s.take(n + i) =~= pre + y.take(i));
            assert(s.skip(n + i + 1) =~= y.skip(i + 1));
            assert(split_char(y, c)[0] == y.take(i));
            assert(split_char(y, c).skip(1) =~= split_char(y.skip(i + 1), c));
        },
        None => {
            assert forall|k: int| n <= k < s.len() implies !#[trigger] char_is(s, c)(k) by {
                assert(s[k] == y[k - n]);
            }
            lemma_first_at_unique(0, s.len() as int, char_is(s, c), s.len() as int);
            assert(split_char(y, c) == seq![y]);
            assert(split_char(y, c).skip(1) =~= Seq::<Seq<char>>::empty());
            assert(seq![pre + y] + Seq::<Seq<char>>::empty() =~= seq![pre + y]);
        },
    }
}

/// Pieces without commas, joined with `, ` and split at the commas: the first
/// piece, then the others each after a space.
pub proof fn lemma_split_joined(pre: Seq<char>, ps: Seq<Seq<char>>)
    requires
        ps.len() > 0,
        !has_char(pre, ','),
        forall|k: int| 0 <= k < ps.len() ==> !has_char(#[trigger] ps[k], ','),
    ensures
        split_char(pre + join(ps, seq![',', ' ']), ',') == Seq::new(
            ps.len(),
            |k: int| if k == 0 {
                pre + ps[0]
            } else {
                seq![' '] + ps[k]
            },
        ),
    decreases ps.len(),
{
    let sep = seq![',', ' '];
    let want = Seq::new(ps.len(), |k: int| if k == 0 { pre + ps[0] } else { seq![' '] + ps[k] });
    if ps.len() == 1 {
        assert(join(ps, sep) == ps[0]);
        assert(!has_char(pre + ps[0], ',')) by {
            if has_char(pre + ps[0], ',') {
                let x = choose|x: int| 0 <= x < (pre + ps[0]).len() && (pre + ps[0])[x] == ',';
                if x < pre.len() {
                    assert((pre + ps[0])[x] == pre[x]);
                } else {
                    assert((pre + ps[0])[x] == ps[0][x - pre.len()]);
                }
            }
        }
        lemma_find_char(pre + ps[0], ',');
        assert(split_char(pre + ps[0], ',') == seq![pre + ps[0]]);
        assert(want =~= seq![pre + ps[0]]);
    } else {
        let rest = ps.skip(1);
        lemma_join_front(ps, sep);
        assert forall|k: int| 0 <= k < rest.len() implies !has_char(#[trigger] rest[k], ',') by {
            assert(rest[k] == ps[k + 1]);
        }
        let sp = seq![' '];
        assert(!has_char(sp, ','));
        lemma_split_joined(sp, rest);
        let head = pre + ps[0];
        assert(!has_char(head, ',')) by {
            if has_char(head, ',') {
                let x = choose|x: int| 0 <= x < head.len() && head[x] == ',';
                if x < pre.len() {
                    assert(head[x] == pre[x]);
                } else {
                    assert(head[x] == ps[0][x - pre.len()]);
                }
            }
        }
        let y = sp + join(rest, sep);
        assert(pre + join(ps, sep) =~= head + seq![','] + y);
        lemma_split_prefix(head, seq![','] + y, ',');
        let t = seq![','] + y;
        assert(split_char(t, ',') == seq![Seq::<char>::empty()] + split_char(y, ',')) by {
            assert(char_is(t, ',')(0));
            lemma_first_at_unique(0, t.len() as int, char_is(t, ','), 0);
            assert(t.take(0) =~= Seq::<char>::empty());
            assert(t.skip(1) =~= y);
        }
        assert(head + Seq::<char>::empty() =~= head);
        let sy = split_char(y, ',');
        let st = split_char(t, ',');
        assert(st[0] == Seq::<char>::empty());
        assert(st.skip(1) =~= sy);
        let r = split_char(pre + join(ps, sep), ',');
        assert(pre + join(ps, sep) =~= head + t);
        assert(seq![head + st[0]] =~= seq![head]);
        assert(r == seq![head] + sy);
        assert(sy.len() == rest.len());
        assert forall|k: int| 0 <= k < want.len() implies r[k] == want[k] by {
            if k > 0 {
                assert(r[k] == sy[k - 1]);
                assert(rest[k - 1] == ps[k]);
            }
        }
        assert(r =~= want);
    }
}

/// The pieces of a split hold no separator.
pub proof fn lemma_split_pieces(s: Seq<char>, c: char)
    ensures
        split_char(s, c).len() > 0,
        forall|k: int| 0 <= k < split_char(s, c).len() ==> !has_char(#[trigger] split_char(s, c)[k], c),
    decreases s.len(),
{
    lemma_find_char(s, c);
    match find_char(s, c) {
        Some(i) => {
            lemma_split_pieces(s.skip(i + 1), c);
            let ps = split_char(s, c);
            assert forall|k: int| 0 <= k < ps.len() implies !has_char(#[trigger] ps[k], c) by {
                if k == 0 {
                    if has_char(s.take(i), c) {
                        let x = choose|x: int| 0 <= x < s.take(i).len() && s.take(i)[x] == c;
                        assert(s[x] == c);
                    }
                } else {
                    assert(ps[k] == split_char(s.skip(i + 1), c)[k - 1]);
                }
            }
        },
        None => {
            assert(split_char(s, c) == seq![s]);
        },
    }
}

/// Joining with a prefix put on the first piece puts the prefix in front.
pub proof fn lemma_join_first(ps: Seq<Seq<char>>, p: Seq<char>, sep: Seq<char>)
    requires
        ps.len() > 0,
    ensures
        join(ps.update(0, p + ps[0]), sep) == p + join(ps, sep),
    decreases ps.len(),
{
    let q = ps.update(0, p + ps[0]);
    if ps.len() == 1 {
        assert(join(q, sep) == q[0]);
    } else {
        lemma_join_first(ps.drop_last(), p, sep);
        assert(q.drop_last() =~= ps.drop_last().update(0, p + ps.drop_last()[0]));
        assert(q.last() == ps.last());
        assert(join(q, sep) =~= p + join(ps, sep));
    }
}

/// The pieces of a split hold no character that the text does not hold.
pub proof fn lemma_split_avoids(s: Seq<char>, c: char, d: char)
    requires
        !has_char(s, d),
    ensures
        forall|k: int| 0 <= k < split_char(s, c).len() ==> !has_char(#[trigger] split_char(s, c)[k], d),
    decreases s.len(),
{
    lemma_find_char(s, c);
    match find_char(s, c) {
        Some(i) => {
            let t = s.skip(i + 1);
            assert(!has_char(t, d)) by {
                if has_char(t, d) {
                    let x = choose|x: int| 0 <= x < t.len() && t[x] == d;
                    assert(s[x + i + 1] == d);
                }
            }
            lemma_split_avoids(t, c, d);
            let ps = split_char(s, c);
            assert forall|k: int| 0 <= k < ps.len() implies !has_char(#[trigger] ps[k], d) by {
                if k == 0 {
                    if has_char(s.take(i), d) {
                        let x = choose|x: int| 0 <= x < s.take(i).len() && s.take(i)[x] == d;
                        assert(s[x] == d);
                    }
                } else {
                    assert(ps[k] == split_char(t, c)[k - 1]);
                }
            }
        },
        None => {
            assert(split_char(s, c) == seq![s]);
        },
    }
}

/// Pieces and a separator without a character join without it.
pub proof fn lemma_join_avoids(ps: Seq<Seq<char>>, sep: Seq<char>, d: char)
    requires
        !has_char(sep, d),
        forall|k: int| 0 <= k < ps.len() ==> !has_char(#[trigger] ps[k], d),
    ensures
        !has_char(join(ps, sep), d),
    decreases ps.len(),
{
    if ps.len() == 1 {
        assert(!has_char(ps[0], d));
    } else if ps.len() > 1 {
        let t = ps.drop_last();
        assert forall|k: int| 0 <= k < t.len() implies !has_char(#[trigger] t[k], d) by {
            assert(t[k] == ps[k]);
        }
        lemma_join_avoids(t, sep, d);
        let j = join(ps, sep);
        assert(!has_char(ps[ps.len() - 1], d));
        if has_char(j, d) {
            let x = choose|x: int| 0 <= x < j.len() && j[x] == d;
            let a = join(t, sep);
            if x < a.len() {
                assert(j[x] == a[x]);
            } else if x < a.len() + sep.len() {
                assert(j[x] == sep[x - a.len()]);
            } else {
                assert(j[x] == ps.last()[x - a.len() - sep.len()]);
            }
        }
    }
}

/// `s.trim_start_matches(p)`.
pub fn strip_all_prefix_exec(s: &[char], p: &[char]) -> (r: Vec<char>)
    ensures
        r@ == strip_all_prefix(s@, p@),
{
    if p.len() == 0 {
        return sub_vec(s, 0, s.len());
    }
    let mut i: usize = 0;
    assert(s@.skip(0) =~= s@);
    while matches_at(s, i, p)
        invariant
            i <= s@.len(),
            p@.len() > 0,
            strip_all_prefix(s@.skip(i as int), p@) == strip_all_prefix(s@, p@),
        decreases s.len() - i,
    {
        assert(s@.skip(i as int).take(p@.len() as int) =~= s@.subrange(i as int, i + p@.len()));
        assert(s@.skip(i as int).skip(p@.len() as int) =~= s@.skip(i + p@.len()));
        i = i + p.len();
    }
    proof {
        if i + p@.len() <= s@.len() {
            assert(s@.skip(i as int).take(p@.len() as int) =~= s@.subrange(
                i as int,
                i + p@.len(),
            ));
        }
    }
    sub_vec(s, i, s.len())
}

/// `pieces.join(sep)`.
pub fn join_exec(pieces: &Vec<Vec<char>>, sep: &[char]) -> (r: Vec<char>)
    ensures
        r@ == join(views(pieces@), sep@),
{
    let mut r: Vec<char> = Vec::new();
    let mut i: usize = 0;
    while i < pieces.len()
        invariant
            i <= pieces@.len(),
            r@ == join(views(pieces@).take(i as int), sep@),
        decreases pieces.len() - i,
    {
        let ghost vs = views(pieces@);
        assert(vs.take(i + 1).drop_last() =~= vs.take(i as int));
        if i > 0 {
            push_all(&mut r, sep);
        } else {
            assert(r@ =~= Seq::<char>::empty());
        }
        push_all(&mut r, &pieces[i]);
        i = i + 1;
    }
    assert(views(pieces@).take(pieces@.len() as int) =~= views(pieces@));
    r
}

/// `s.replace(p, q)` for a non-empty `p`.
pub fn replace_all_exec(s: &[char], p: &[char], q: &[char]) -> (r: Vec<char>)
    ensures
        r@ == replace_all(s@, p@, q@),
{
    if p.len() == 0 {
        return sub_vec(s, 0, s.len());
    }
    let mut r: Vec<char> = Vec::new();
    let mut start: usize = 0;
    assert(s@.skip(0) =~= s@);
    loop
        invariant
            start <= s@.len(),
            p@.len() > 0,
            r@ + replace_all(s@.skip(start as int), p@, q@) == replace_all(s@, p@, q@),
        decreases s.len() - start,
    {
        let ghost t = s@.skip(start as int);
        proof {
            lemma_find_sub(t, p@);
        }
        match find_sub_from(s, start, p) {
            Some(i) => {
                let piece = sub_vec(s, start, i);
                proof {
                    assert(t.take(i - start) =~= piece@);
                    assert(t.skip(i - start + p@.len()) =~= s@.skip(i + p@.len()));
                }
                let ghost before = r@;
                push_all(&mut r, &piece);
                push_all(&mut r, q);
                assert(r@ + replace_all(s@.skip(i + p@.len()), p@, q@) =~= before + (piece@ + q@
                    + replace_all(s@.skip(i + p@.len()), p@, q@)));
                start = i + p.len();
            },
            None => {
                let piece = sub_vec(s, start, s.len());
                assert(piece@ =~= t);
                push_all(&mut r, &piece);
                return r;
            },
        }
    }
}

} // verus!

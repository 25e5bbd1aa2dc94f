//! Greedy word wrapping of descriptions and question contexts.
use vstd::prelude::*;

use crate::plan::string_views;
use crate::text::{chars_of, join, push_all, string_of, views, words, words_exec};

verus! {

/// The length of `c` in UTF-8.
pub open spec fn utf8_len(c: char) -> nat {
    let u = c as u32;
    if u < 0x80 {
        1
    } else if u < 0x800 {
        2
    } else if u < 0x10000 {
        3
    } else {
        4
    }
}

/// The length of `s` in UTF-8 bytes (what `str::len` counts).
pub open spec fn byte_len(s: Seq<char>) -> nat
    decreases s.len(),
{
    if s.len() == 0 {
        0
    } else {
        byte_len(s.drop_last()) + utf8_len(s.last())
    }
}

pub proof fn lemma_byte_len_concat(a: Seq<char>, b: Seq<char>)
    ensures
        byte_len(a + b) == byte_len(a) + byte_len(b),
    decreases b.len(),
{
    if b.len() == 0 {
        assert(a + b =~= a);
    } else {
        assert((a + b).drop_last() =~= a + b.drop_last());
        lemma_byte_len_concat(a, b.drop_last());
    }
}

pub proof fn lemma_byte_len_bound(a: Seq<char>)
    ensures
        a.len() <= byte_len(a) <= 4 * a.len(),
    decreases a.len(),
{
    if a.len() > 0 {
        lemma_byte_len_bound(a.drop_last());
    }
}

/// The greedy grouping of words into lines: a word joins the current line while
/// the line stays within `w` bytes; a word longer than `w` gets a line of its own.
pub struct WrapState {
    pub done: Seq<Seq<Seq<char>>>,
    pub cur: Seq<Seq<char>>,
}

pub open spec fn space() -> Seq<char> {
    seq![' ']
}

pub open spec fn wrap_step(st: WrapState, word: Seq<char>, w: nat) -> WrapState {
    if st.cur.len() == 0 {
        WrapState { done: st.done, cur: seq![word] }
    } else if byte_len(join(st.cur, space())) + 1 + byte_len(word) <= w {
        WrapState { done: st.done, cur: st.cur.push(word) }
    } else {
        WrapState { done: st.done.push(st.cur), cur: seq![word] }
    }
}

pub open spec fn wrap_fold(ws: Seq<Seq<char>>, w: nat) -> WrapState
    decreases ws.len(),
{
    if ws.len() == 0 {
        WrapState { done: seq![], cur: seq![] }
    } else {
        wrap_step(wrap_fold(ws.drop_last(), w), ws.last(), w)
    }
}

/// The words of `s`, grouped into lines.
pub open spec fn wrap_groups(s: Seq<char>, w: nat) -> Seq<Seq<Seq<char>>> {
    let st = wrap_fold(words(s), w);
    if st.cur.len() > 0 {
        st.done.push(st.cur)
    } else {
        st.done
    }
}

/// The lines of `s` wrapped at `w` bytes: each group of words joined by spaces.
pub open spec fn wrapped(s: Seq<char>, w: nat) -> Seq<Seq<char>> {
    let gs = wrap_groups(s, w);
    Seq::new(gs.len(), |i: int| join(gs[i], space()))
}

fn utf8_len_exec(c: char) -> (r: u128)
    ensures
        r == utf8_len(c),
{
    let u = c as u32;
    if u < 0x80 {
        1
    } else if u < 0x800 {
        2
    } else if u < 0x10000 {
        3
    } else {
        4
    }
}

fn byte_len_exec(s: &[char]) -> (r: u128)
    ensures
        r == byte_len(s@),
{
    let mut n: u128 = 0;
    let mut i: usize = 0;
    while i < s.len()
        invariant
            i <= s@.len(),
            n == byte_len(s@.take(i as int)),
            n <= 4 * i,
        decreases s.len() - i,
    {
        assert(s@.take(i + 1).drop_last() =~= s@.take(i as int));
        n = n + utf8_len_exec(s[i]);
        i = i + 1;
    }
    assert(s@.take(s@.len() as int) =~= s@);
    n
}

proof fn lemma_join_push(cur: Seq<Seq<char>>, word: Seq<char>)
    requires
        cur.len() > 0,
    ensures
        join(cur.push(word), space()) == join(cur, space()) + space() + word,
        byte_len(join(cur.push(word), space())) == byte_len(join(cur, space())) + 1 + byte_len(word),
{
    assert(cur.push(word).drop_last() =~= cur);
    assert(space().drop_last() =~= Seq::<char>::empty());
    assert(byte_len(Seq::<char>::empty()) == 0);
    assert(utf8_len(' ') == 1);
    assert(byte_len(space()) == 1);
    lemma_byte_len_concat(join(cur, space()), space());
    lemma_byte_len_concat(join(cur, space()) + space(), word);
}

/// Splits `s` into words and packs them greedily into lines of at most `w`
/// bytes (a longer word stands alone on its line).
pub fn textwrap_simple(s: &str, w: usize) -> (r: Vec<String>)
    ensures
        string_views(r@) == wrapped(s@, w as nat),
{
    let v = chars_of(s);
    let ws = words_exec(&v);
    let ghost wv = views(ws@);
    let mut out: Vec<String> = Vec::new();
    let mut current: Vec<char> = Vec::new();
    let mut cur_bytes: u128 = 0;
    let ghost mut st = WrapState { done: seq![], cur: seq![] };
    let mut i: usize = 0;
    assert(wv.take(0) =~= Seq::<Seq<char>>::empty());
    while i < ws.len()
        invariant
            i <= ws@.len(),
            wv == views(ws@),
            wv == words(s@),
            st == wrap_fold(wv.take(i as int), w as nat),
            out@.len() == st.done.len(),
            forall|k: int| 0 <= k < out@.len() ==> (#[trigger] out@[k])@ == join(st.done[k], space()),
            current@ == join(st.cur, space()),
            cur_bytes == byte_len(current@),
            cur_bytes <= 4 * current@.len(),
            st.cur.len() == 0 <==> current@.len() == 0,
            forall|k: int| 0 <= k < st.cur.len() ==> (#[trigger] st.cur[k]).len() > 0,
        decreases ws.len() - i,
    {
        assert(wv.take(i + 1).drop_last() =~= wv.take(i as int));
        assert(wv.take(i + 1).last() == ws@[i as int]@);
        proof {
            crate::text::lemma_words_nonempty(s@, i as int);
        }
        let word = &ws[i];
        let wb = byte_len_exec(word);
        let wl = word.len();
        let cl = current.len();
        proof {
            lemma_byte_len_bound(word@);
        }
        let ghost st0 = st;
        if current.len() == 0 {
            push_all(&mut current, word);
            cur_bytes = wb;
            proof {
                st = wrap_step(st0, wv[i as int], w as nat);
                assert(current@ =~= join(st.cur, space()));
            }
        } else if cur_bytes + 1 + wb <= w as u128 {
            current.push(' ');
            push_all(&mut current, word);
            proof {
                lemma_join_push(st0.cur, wv[i as int]);
                assert(current@ =~= join(st0.cur, space()) + space() + wv[i as int]);
                st = wrap_step(st0, wv[i as int], w as nat);
            }
            cur_bytes = cur_bytes + 1 + wb;
        } else {
            let line = string_of(&current);
            out.push(line);
            current = Vec::new();
            push_all(&mut current, word);
            cur_bytes = wb;
            proof {
                st = wrap_step(st0, wv[i as int], w as nat);
                assert(current@ =~= join(st.cur, space()));
            }
        }
        proof {
            lemma_byte_len_bound(current@);
        }
        i = i + 1;
    }
    assert(wv.take(ws@.len() as int) =~= wv);
    if current.len() > 0 {
        out.push(string_of(&current));
    }
    assert(string_views(out@) =~= wrapped(s@, w as nat));
    out
}

// ---------------------------------------------------------------------------
// Laws
// ---------------------------------------------------------------------------

pub open spec fn flatten_groups(gs: Seq<Seq<Seq<char>>>) -> Seq<Seq<char>>
    decreases gs.len(),
{
    if gs.len() == 0 {
        seq![]
    } else {
        flatten_groups(gs.drop_last()) + gs.last()
    }
}

proof fn lemma_fold_keeps_words(ws: Seq<Seq<char>>, w: nat)
    ensures
        flatten_groups(wrap_fold(ws, w).done) + wrap_fold(ws, w).cur == ws,
        forall|k: int| 0 <= k < wrap_fold(ws, w).done.len() ==> (#[trigger] wrap_fold(ws, w).done[k]).len() > 0,
    decreases ws.len(),
{
    if ws.len() > 0 {
        let prev = wrap_fold(ws.drop_last(), w);
        lemma_fold_keeps_words(ws.drop_last(), w);
        let st = wrap_fold(ws, w);
        assert(ws.drop_last().push(ws.last()) =~= ws);
        if prev.cur.len() == 0 {
            assert(flatten_groups(prev.done) + prev.cur =~= flatten_groups(prev.done));
            assert(ws.drop_last().push(ws.last()) =~= ws);
            assert(flatten_groups(st.done) + st.cur =~= ws);
        } else if byte_len(join(prev.cur, space())) + 1 + byte_len(ws.last()) <= w {
            assert(flatten_groups(prev.done) + prev.cur.push(ws.last()) =~= (flatten_groups(prev.done) + prev.cur).push(ws.last()));
            assert(flatten_groups(st.done) + st.cur =~= ws);
        } else {
            assert(st.done.drop_last() =~= prev.done);
            assert(flatten_groups(st.done) == flatten_groups(prev.done) + prev.cur);
            assert(ws.drop_last().push(ws.last()) =~= ws);
            assert(flatten_groups(st.done) + st.cur =~= ws);
        }
    }
}

/// Wrapping keeps every word, in order: the lines' words, read line after line,
/// are the words of the text.
pub proof fn law_wrap_keeps_words(s: Seq<char>, w: nat)
    ensures
        flatten_groups(wrap_groups(s, w)) == words(s),
{
    lemma_fold_keeps_words(words(s), w);
    let st = wrap_fold(words(s), w);
    if st.cur.len() > 0 {
        assert(wrap_groups(s, w).drop_last() =~= st.done);
    } else {
        assert(flatten_groups(st.done) + st.cur =~= flatten_groups(st.done));
    }
}

proof fn lemma_fold_fits(ws: Seq<Seq<char>>, w: nat)
    ensures
        wrap_fold(ws, w).cur.len() > 1 ==> byte_len(join(wrap_fold(ws, w).cur, space())) <= w,
        forall|k: int|
            0 <= k < wrap_fold(ws, w).done.len() && (#[trigger] wrap_fold(ws, w).done[k]).len() > 1
                ==> byte_len(join(wrap_fold(ws, w).done[k], space())) <= w,
    decreases ws.len(),
{
    if ws.len() > 0 {
        let prev = wrap_fold(ws.drop_last(), w);
        lemma_fold_fits(ws.drop_last(), w);
        let st = wrap_fold(ws, w);
        if prev.cur.len() > 0 && byte_len(join(prev.cur, space())) + 1 + byte_len(ws.last()) <= w {
            lemma_join_push(prev.cur, ws.last());
        }
        assert forall|k: int|
            0 <= k < st.done.len() && (#[trigger] st.done[k]).len() > 1 implies byte_len(
            join(st.done[k], space()),
        ) <= w by {
            if k < prev.done.len() {
                assert(st.done[k] == prev.done[k]);
            }
        }
    }
}

/// Every line of more than one word fits in `w` bytes.
pub proof fn law_wrap_lines_fit(s: Seq<char>, w: nat, i: int)
    requires
        0 <= i < wrap_groups(s, w).len(),
        wrap_groups(s, w)[i].len() > 1,
    ensures
        byte_len(wrapped(s, w)[i]) <= w,
{
    lemma_fold_fits(words(s), w);
    let st = wrap_fold(words(s), w);
    if i < st.done.len() {
        assert(wrap_groups(s, w)[i] == st.done[i]);
    }
}

} // verus!

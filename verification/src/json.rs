//! The JSON that `next --json` and `runnable --json` print, and the
//! `.history.jsonl` records that `tick` appends and `stats` reads.
use vstd::prelude::*;

use crate::plan::{string_views, task_views, Task, TaskModel};
use crate::text::{
    all_digits, char_is, chars_of, has_char, is_digit, is_ws, lemma_decimal, lemma_lines_cons,
    lemma_parse_decimal, lemma_trim_id, strip_cr, unsigned_digits, decimal, decimal_exec, digit_char, find_char, find_char_exec, find_sub,
    find_sub_exec, first_at, join, join_exec, lemma_find_char, lemma_find_sub,
    lemma_first_at_unique, lines, lines_exec, parse_u32, parse_u32_exec, push_all, seq_eq,
    not_ws_at, string_of, sub_at, sub_vec, trim, trim_exec, trim_start, trim_start_exec, views,
};

verus! {

// ---------------------------------------------------------------------------
// Strings
// ---------------------------------------------------------------------------

pub open spec fn hex_digit(n: nat) -> char {
    if n < 10 {
        digit_char(n)
    } else {
        ((n - 10 + 97) as u32) as char
    }
}

/// How one character is written inside a JSON string.
pub open spec fn escape_char(c: char) -> Seq<char> {
    let u = c as u32;
    if c == '"' {
        seq!['\\', '"']
    } else if c == '\\' {
        seq!['\\', '\\']
    } else if c == '\n' {
        seq!['\\', 'n']
    } else if c == '\r' {
        seq!['\\', 'r']
    } else if c == '\t' {
        seq!['\\', 't']
    } else if u < 0x20 {
        seq!['\\', 'u', '0', '0', hex_digit((u / 16) as nat), hex_digit((u % 16) as nat)]
    } else {
        seq![c]
    }
}

pub open spec fn escaped(s: Seq<char>) -> Seq<char>
    decreases s.len(),
{
    if s.len() == 0 {
        seq![]
    } else {
        escaped(s.drop_last()) + escape_char(s.last())
    }
}

/// `s` as a JSON string literal.
pub open spec fn json_string(s: Seq<char>) -> Seq<char> {
    seq!['"'] + escaped(s) + seq!['"']
}

fn hex_digit_exec(n: u32) -> (r: char)
    requires
        n < 16,
    ensures
        r == hex_digit(n as nat),
{
    if n < 10 {
        ((n + 48) as u8) as char
    } else {
        ((n - 10 + 97) as u8) as char
    }
}

fn escape_char_exec(out: &mut Vec<char>, c: char)
    ensures
        final(out)@ == old(out)@ + escape_char(c),
{
    let u = c as u32;
    let ghost o = out@;
    if c == '"' {
        out.push('\\');
        out.push('"');
    } else if c == '\\' {
        out.push('\\');
        out.push('\\');
    } else if c == '\n' {
        out.push('\\');
        out.push('n');
    } else if c == '\r' {
        out.push('\\');
        out.push('r');
    } else if c == '\t' {
        out.push('\\');
        out.push('t');
    } else if u < 0x20 {
        out.push('\\');
        out.push('u');
        out.push('0');
        out.push('0');
        out.push(hex_digit_exec(u / 16));
        out.push(hex_digit_exec(u % 16));
    } else {
        out.push(c);
    }
    assert(out@ =~= o + escape_char(c));
}

fn push_json_string(out: &mut Vec<char>, s: &[char])
    ensures
        final(out)@ == old(out)@ + json_string(s@),
{
    let ghost o = out@;
    out.push('"');
    let mut i: usize = 0;
    while i < s.len()
        invariant
            i <= s@.len(),
            out@ == o + seq!['"'] + escaped(s@.take(i as int)),
        decreases s.len() - i,
    {
        assert(s@.take(i + 1).drop_last() =~= s@.take(i as int));
        escape_char_exec(out, s[i]);
        i = i + 1;
    }
    assert(s@.take(s@.len() as int) =~= s@);
    out.push('"');
    assert(out@ =~= o + json_string(s@));
}

/// `s` as a JSON string: quoted, with `"`, `\`, newline, carriage return and
/// tab escaped, and other control characters as `\u00XX`.
pub fn json_str(s: &str) -> (r: String)
    ensures
        r@ == json_string(s@),
{
    let mut out: Vec<char> = Vec::new();
    push_json_string(&mut out, &chars_of(s));
    string_of(&out)
}

// ---------------------------------------------------------------------------
// Tasks
// ---------------------------------------------------------------------------

// ---------------------------------------------------------------------------
// Reading a JSON string back
// ---------------------------------------------------------------------------

/// The value of a hexadecimal digit, either case.
pub open spec fn hex_value(c: char) -> Option<nat> {
    let u = c as u32;
    if 48 <= u <= 57 {
        Some((u - 48) as nat)
    } else if 97 <= u <= 102 {
        Some((u - 87) as nat)
    } else if 65 <= u <= 70 {
        Some((u - 55) as nat)
    } else {
        None
    }
}

/// The number that the four hexadecimal digits at `t[i..i + 4]` write.
pub open spec fn hex4(t: Seq<char>, i: int) -> Option<nat> {
    if i < 0 || t.len() < i + 4 {
        None
    } else {
        match (hex_value(t[i]), hex_value(t[i + 1]), hex_value(t[i + 2]), hex_value(t[i + 3])) {
            (Some(a), Some(b), Some(c), Some(d)) => Some(a * 4096 + b * 256 + c * 16 + d),
            _ => None,
        }
    }
}

/// The character that a two-character escape `\e` stands for.
pub open spec fn short_escape(e: char) -> Option<char> {
    if e == '"' {
        Some('"')
    } else if e == '\\' {
        Some('\\')
    } else if e == '/' {
        Some('/')
    } else if e == 'b' {
        Some('\x08')
    } else if e == 'f' {
        Some('\x0c')
    } else if e == 'n' {
        Some('\n')
    } else if e == 'r' {
        Some('\r')
    } else if e == 't' {
        Some('\t')
    } else {
        None
    }
}

pub open spec fn is_high_surrogate(n: nat) -> bool {
    0xD800 <= n <= 0xDBFF
}

pub open spec fn is_low_surrogate(n: nat) -> bool {
    0xDC00 <= n <= 0xDFFF
}

pub open spec fn prepend(c: char, rest: Option<Seq<char>>) -> Option<Seq<char>> {
    match rest {
        Some(r) => Some(seq![c] + r),
        None => None,
    }
}

/// The characters that the body of a JSON string literal (RFC 8259) stands
/// for, or `None` where the body is not well formed: a raw `"` or control
/// character, or an escape other than `\"`, `\\`, `\/`, `\b`, `\f`,
/// `\n`, `\r`, `\t`, `\uXXXX` of a character that is no surrogate, or a
/// high then a low surrogate `\uXXXX\uXXXX`.
pub open spec fn json_unescape(t: Seq<char>) -> Option<Seq<char>>
    decreases t.len(),
{
    if t.len() == 0 {
        Some(seq![])
    } else if t[0] == '"' || (t[0] as u32) < 0x20 {
        None
    } else if t[0] != '\\' {
        prepend(t[0], json_unescape(t.skip(1)))
    } else if t.len() < 2 {
        None
    } else if short_escape(t[1]) is Some {
        prepend(short_escape(t[1])->0, json_unescape(t.skip(2)))
    } else if t[1] != 'u' {
        None
    } else {
        match hex4(t, 2) {
            None => None,
            Some(n) => if is_low_surrogate(n) {
                None
            } else if !is_high_surrogate(n) {
                prepend((n as u32) as char, json_unescape(t.skip(6)))
            } else if t.len() >= 12 && t[6] == '\\' && t[7] == 'u' && hex4(t, 8) is Some
                && is_low_surrogate(hex4(t, 8)->0) {
                let m = hex4(t, 8)->0;
                prepend(
                    ((0x10000 + (n - 0xD800) * 1024 + (m - 0xDC00)) as u32) as char,
                    json_unescape(t.skip(12)),
                )
            } else {
                None
            },
        }
    }
}

/// What a JSON string literal `t` stands for: `None` unless `t` is `"`, a well
/// formed body, and `"`.
pub open spec fn json_string_value(t: Seq<char>) -> Option<Seq<char>> {
    if t.len() < 2 || t[0] != '"' || t.last() != '"' {
        None
    } else {
        json_unescape(t.subrange(1, t.len() - 1))
    }
}

proof fn lemma_escaped_concat(a: Seq<char>, b: Seq<char>)
    ensures
        escaped(a + b) == escaped(a) + escaped(b),
    decreases b.len(),
{
    if b.len() == 0 {
        assert(a + b =~= a);
        assert(escaped(a) + escaped(b) =~= escaped(a));
    } else {
        lemma_escaped_concat(a, b.drop_last());
        assert((a + b).drop_last() =~= a + b.drop_last());
        assert((a + b).last() == b.last());
        assert(escaped(a) + escaped(b) =~= escaped(a) + escaped(b.drop_last()) + escape_char(
            b.last(),
        ));
    }
}

proof fn lemma_escaped_front(s: Seq<char>)
    requires
        s.len() > 0,
    ensures
        escaped(s) == escape_char(s[0]) + escaped(s.skip(1)),
{
    assert(s =~= seq![s[0]] + s.skip(1));
    lemma_escaped_concat(seq![s[0]], s.skip(1));
    let one = seq![s[0]];
    assert(one.drop_last() =~= Seq::<char>::empty());
    assert(escaped(one.drop_last()) =~= Seq::<char>::empty());
    assert(escaped(one) =~= escape_char(s[0]));
}

proof fn lemma_hex_digit_value(n: nat)
    requires
        n < 16,
    ensures
        hex_value(hex_digit(n)) == Some(n),
{
}

proof fn lemma_unescape_char(c: char, rest: Seq<char>)
    ensures
        json_unescape(escape_char(c) + rest) == prepend(c, json_unescape(rest)),
{
    let t = escape_char(c) + rest;
    let u = c as u32;
    if c == '"' || c == '\\' || c == '\n' || c == '\r' || c == '\t' {
        assert(t.skip(2) =~= rest);
    } else if u < 0x20 {
        let hi = (u / 16) as nat;
        let lo = (u % 16) as nat;
        lemma_hex_digit_value(hi);
        lemma_hex_digit_value(lo);
        assert(t[2] == '0' && t[3] == '0' && t[4] == hex_digit(hi) && t[5] == hex_digit(lo));
        assert(hex4(t, 2) == Some(hi * 16 + lo));
        assert(hi * 16 + lo == u);
        assert(t.skip(6) =~= rest);
    } else {
        assert(t.skip(1) =~= rest);
    }
}

proof fn lemma_unescape_escaped(s: Seq<char>)
    ensures
        json_unescape(escaped(s)) == Some(s),
    decreases s.len(),
{
    if s.len() == 0 {
        assert(escaped(s) =~= Seq::<char>::empty());
    } else {
        lemma_escaped_front(s);
        lemma_unescape_escaped(s.skip(1));
        lemma_unescape_char(s[0], escaped(s.skip(1)));
        assert(seq![s[0]] + s.skip(1) =~= s);
    }
}

/// What `json_str` writes reads back, as a JSON string literal, as exactly
/// its input: the literal is a quote, a well formed body and a quote, and
/// the body stands for the characters of `s`.
pub proof fn law_json_string_reads_back(s: Seq<char>)
    ensures
        json_string(s)[0] == '"',
        json_string(s).last() == '"',
        json_string_value(json_string(s)) == Some(s),
{
    let t = json_string(s);
    assert(t.subrange(1, t.len() - 1) =~= escaped(s));
    lemma_unescape_escaped(s);
}

pub open spec fn json_strings(ds: Seq<Seq<char>>) -> Seq<Seq<char>> {
    Seq::new(ds.len(), |i: int| json_string(ds[i]))
}

pub open spec fn comma_sp() -> Seq<char> {
    seq![',', ' ']
}

/// The JSON object that `next --json` prints for a task of `track`.
pub open spec fn task_json_text(track: Seq<char>, t: TaskModel) -> Seq<char> {
    "{\n"@ + "  \"track_id\": "@ + json_string(track) + ",\n"@ + "  \"slug\": "@ + json_string(
        t.slug,
    ) + ",\n"@ + (match t.estimate {
        Some(e) => "  \"estimate\": "@ + decimal(e as nat) + ",\n"@,
        None => seq![],
    }) + "  \"depends\": ["@ + join(json_strings(t.depends), comma_sp()) + "],\n"@
        + "  \"description\": "@ + json_string(t.description) + "\n"@ + "}\n"@
}

/// The compact JSON object for a task in `runnable --json`.
pub open spec fn task_json_compact_text(t: TaskModel) -> Seq<char> {
    "{\"slug\": "@ + json_string(t.slug) + ", \"estimate\": "@ + (match t.estimate {
        Some(e) => decimal(e as nat),
        None => "null"@,
    }) + ", \"depends\": ["@ + join(json_strings(t.depends), comma_sp()) + "], \"description\": "@
        + json_string(t.description) + "}"@
}

fn lit(s: &str) -> (r: Vec<char>)
    ensures
        r@ == s@,
{
    chars_of(s)
}

fn depends_json(depends: &Vec<String>) -> (r: Vec<char>)
    ensures
        r@ == join(json_strings(string_views(depends@)), comma_sp()),
{
    let mut items: Vec<Vec<char>> = Vec::new();
    let mut i: usize = 0;
    while i < depends.len()
        invariant
            i <= depends@.len(),
            items@.len() == i,
            forall|k: int| 0 <= k < i ==> (#[trigger] items@[k])@ == json_string(depends@[k]@),
        decreases depends.len() - i,
    {
        let mut item: Vec<char> = Vec::new();
        push_json_string(&mut item, &chars_of(depends[i].as_str()));
        assert(item@ =~= json_string(depends@[i as int]@));
        items.push(item);
        i = i + 1;
    }
    assert(views(items@) =~= json_strings(string_views(depends@)));
    let sep = vec![',', ' '];
    assert(sep@ =~= comma_sp());
    join_exec(&items, &sep)
}

/// The JSON object for a task of `track` (what `next --json` prints).
pub fn task_json(track: &str, t: &Task, verbose: bool) -> (r: String)
    ensures
        r@ == task_json_text(track@, t@),
{
    let mut s = lit("{\n");
    push_all(&mut s, &lit("  \"track_id\": "));
    push_json_string(&mut s, &chars_of(track));
    push_all(&mut s, &lit(",\n"));
    push_all(&mut s, &lit("  \"slug\": "));
    push_json_string(&mut s, &chars_of(t.slug.as_str()));
    push_all(&mut s, &lit(",\n"));
    let ghost s1 = s@;
    let mut est: Vec<char> = Vec::new();
    if let Some(e) = t.estimate {
        push_all(&mut est, &lit("  \"estimate\": "));
        push_all(&mut est, &decimal_exec(e as u64));
        push_all(&mut est, &lit(",\n"));
    }
    push_all(&mut s, &est);
    push_all(&mut s, &lit("  \"depends\": ["));
    push_all(&mut s, &depends_json(&t.depends));
    push_all(&mut s, &lit("],\n"));
    push_all(&mut s, &lit("  \"description\": "));
    push_json_string(&mut s, &chars_of(t.description.as_str()));
    push_all(&mut s, &lit("\n"));
    push_all(&mut s, &lit("}\n"));
    assert(s@ =~= task_json_text(track@, t@));
    string_of(&s)
}

fn task_json_compact_chars(t: &Task) -> (r: Vec<char>)
    ensures
        r@ == task_json_compact_text(t@),
{
    let mut s = lit("{\"slug\": ");
    push_json_string(&mut s, &chars_of(t.slug.as_str()));
    push_all(&mut s, &lit(", \"estimate\": "));
    match t.estimate {
        Some(e) => push_all(&mut s, &decimal_exec(e as u64)),
        None => push_all(&mut s, &lit("null")),
    }
    push_all(&mut s, &lit(", \"depends\": ["));
    push_all(&mut s, &depends_json(&t.depends));
    push_all(&mut s, &lit("], \"description\": "));
    push_json_string(&mut s, &chars_of(t.description.as_str()));
    push_all(&mut s, &lit("}"));
    assert(s@ =~= task_json_compact_text(t@));
    s
}

/// The compact JSON object for a task (one element of `runnable --json`).
pub fn task_json_compact(t: &Task) -> (r: String)
    ensures
        r@ == task_json_compact_text(t@),
{
    string_of(&task_json_compact_chars(t))
}

/// What `runnable --json` prints for the tasks at `picks`.
pub open spec fn runnable_json_text(track: Seq<char>, ts: Seq<TaskModel>, picks: Seq<usize>) -> Seq<char> {
    "{\"track_id\": "@ + json_string(track) + ", \"runnable\": [\n"@ + join(
        Seq::new(picks.len(), |i: int| "  "@ + task_json_compact_text(ts[picks[i] as int])),
        ",\n"@,
    ) + (if picks.len() > 0 {
        "\n"@
    } else {
        seq![]
    }) + "]}\n"@
}

/// The JSON that `runnable --json` prints: the track and the tasks at `picks`.
pub fn runnable_json(track: &str, tasks: &[Task], picks: &[usize]) -> (r: String)
    requires
        forall|i: int| 0 <= i < picks@.len() ==> picks@[i] < tasks@.len(),
    ensures
        r@ == runnable_json_text(track@, task_views(tasks@), picks@),
{
    let ghost ts = task_views(tasks@);
    let mut items: Vec<Vec<char>> = Vec::new();
    let mut i: usize = 0;
    while i < picks.len()
        invariant
            i <= picks@.len(),
            ts == task_views(tasks@),
            forall|k: int| 0 <= k < picks@.len() ==> picks@[k] < tasks@.len(),
            items@.len() == i,
            forall|k: int| 0 <= k < i ==> (#[trigger] items@[k])@ == "  "@ + task_json_compact_text(ts[picks@[k] as int]),
        decreases picks.len() - i,
    {
        let mut item = lit("  ");
        assert(ts[picks@[i as int] as int] == tasks@[picks@[i as int] as int]@);
        push_all(&mut item, &task_json_compact_chars(&tasks[picks[i]]));
        items.push(item);
        i = i + 1;
    }
    assert(views(items@) =~= Seq::new(picks@.len(), |i: int| "  "@ + task_json_compact_text(ts[picks@[i] as int])));
    let mut s = lit("{\"track_id\": ");
    push_json_string(&mut s, &chars_of(track));
    push_all(&mut s, &lit(", \"runnable\": [\n"));
    push_all(&mut s, &join_exec(&items, &lit(",\n")));
    let ghost s1 = s@;
    if picks.len() > 0 {
        push_all(&mut s, &lit("\n"));
    }
    push_all(&mut s, &lit("]}\n"));
    assert(s@ =~= runnable_json_text(track@, ts, picks@));
    string_of(&s)
}

// ---------------------------------------------------------------------------
// History records
// ---------------------------------------------------------------------------

/// How a claimed task ended.
#[derive(Debug, Clone, Copy, PartialEq, Eq, Structural)]
pub enum HistoryStatus {
    Done,
    Blocked,
}

/// One line of `.history.jsonl`: the estimate and the turns a claimed task took.
#[derive(Debug)]
pub struct HistoryRecord {
    pub ts: String,
    pub track: String,
    pub slug: String,
    pub estimate: Option<u32>,
    pub actual_turns: u32,
    pub status: HistoryStatus,
}

pub struct RecordModel {
    pub ts: Seq<char>,
    pub track: Seq<char>,
    pub slug: Seq<char>,
    pub estimate: Option<u32>,
    pub actual_turns: u32,
    pub status: HistoryStatus,
}

impl View for HistoryRecord {
    type V = RecordModel;

    open spec fn view(&self) -> RecordModel {
        RecordModel {
            ts: self.ts@,
            track: self.track@,
            slug: self.slug@,
            estimate: self.estimate,
            actual_turns: self.actual_turns,
            status: self.status,
        }
    }
}

pub open spec fn record_views(v: Seq<HistoryRecord>) -> Seq<RecordModel> {
    Seq::new(v.len(), |i: int| v[i]@)
}

pub open spec fn status_word(s: HistoryStatus) -> Seq<char> {
    match s {
        HistoryStatus::Done => "done"@,
        HistoryStatus::Blocked => "blocked"@,
    }
}

/// The `.history.jsonl` line for a record, newline included.
pub open spec fn history_text(r: RecordModel) -> Seq<char> {
    "{\"ts\": "@ + json_string(r.ts) + ", \"track\": "@ + json_string(r.track) + ", \"slug\": "@
        + json_string(r.slug) + ", \"estimate\": "@ + (match r.estimate {
        Some(e) => decimal(e as nat),
        None => "null"@,
    }) + ", \"actual_turns\": "@ + decimal(r.actual_turns as nat) + ", \"status\": "@
        + json_string(status_word(r.status)) + "}\n"@
}

/// The `.history.jsonl` line for `rec`, newline included.
pub fn history_line(rec: &HistoryRecord) -> (r: String)
    ensures
        r@ == history_text(rec@),
{
    let mut s = lit("{\"ts\": ");
    push_json_string(&mut s, &chars_of(rec.ts.as_str()));
    push_all(&mut s, &lit(", \"track\": "));
    push_json_string(&mut s, &chars_of(rec.track.as_str()));
    push_all(&mut s, &lit(", \"slug\": "));
    push_json_string(&mut s, &chars_of(rec.slug.as_str()));
    push_all(&mut s, &lit(", \"estimate\": "));
    match rec.estimate {
        Some(e) => push_all(&mut s, &decimal_exec(e as u64)),
        None => push_all(&mut s, &lit("null")),
    }
    push_all(&mut s, &lit(", \"actual_turns\": "));
    push_all(&mut s, &decimal_exec(rec.actual_turns as u64));
    push_all(&mut s, &lit(", \"status\": "));
    let word = match rec.status {
        HistoryStatus::Done => lit("done"),
        HistoryStatus::Blocked => lit("blocked"),
    };
    push_json_string(&mut s, &word);
    push_all(&mut s, &lit("}\n"));
    assert(s@ =~= history_text(rec@));
    string_of(&s)
}

/// `"key":`.
pub open spec fn key_needle(key: Seq<char>) -> Seq<char> {
    seq!['"'] + key + seq!['"', ':']
}

/// The string after the first `"key":` of a line, up to the next `"` (no
/// unescaping: the records this reads are the ones `history_line` writes).
pub open spec fn field_of(line: Seq<char>, key: Seq<char>) -> Option<Seq<char>> {
    let needle = key_needle(key);
    match find_sub(line, needle) {
        None => None,
        Some(i) => {
            let rest = trim_start(line.skip(i + needle.len()));
            if rest.len() > 0 && rest[0] == '"' {
                let r2 = rest.skip(1);
                match find_char(r2, '"') {
                    Some(e) => Some(r2.take(e)),
                    None => None,
                }
            } else {
                None
            }
        },
    }
}

pub open spec fn ends_number_at(s: Seq<char>) -> spec_fn(int) -> bool {
    |k: int| s[k] == ',' || s[k] == '}'
}

/// The number after the first `"key":` of a line, up to the next `,` or `}`.
pub open spec fn number_of(line: Seq<char>, key: Seq<char>) -> Option<u32> {
    let needle = key_needle(key);
    match find_sub(line, needle) {
        None => None,
        Some(i) => {
            let rest = trim_start(line.skip(i + needle.len()));
            let end = first_at(0, rest.len() as int, ends_number_at(rest));
            parse_u32(trim(rest.take(end)))
        },
    }
}

fn key_needle_exec(key: &[char]) -> (r: Vec<char>)
    ensures
        r@ == key_needle(key@),
{
    let mut r: Vec<char> = Vec::new();
    r.push('"');
    push_all(&mut r, key);
    r.push('"');
    r.push(':');
    assert(r@ =~= key_needle(key@));
    r
}

fn rest_after_key(line: &[char], key: &[char]) -> (r: Option<Vec<char>>)
    ensures
        match r {
            Some(rest) => find_sub(line@, key_needle(key@)) matches Some(i) && rest@ == trim_start(
                line@.skip(i + key_needle(key@).len()),
            ),
            None => find_sub(line@, key_needle(key@)) is None,
        },
{
    let needle = key_needle_exec(key);
    proof {
        lemma_find_sub(line@, needle@);
    }
    match find_sub_exec(line, &needle) {
        None => None,
        Some(i) => {
            let n = line.len();
            assert(i + needle@.len() <= n);
            let after = sub_vec(line, i + needle.len(), n);
            assert(after@ =~= line@.skip(i + needle@.len()));
            Some(trim_start_exec(&after))
        },
    }
}

pub fn json_field_chars(line: &[char], key: &[char]) -> (r: Option<Vec<char>>)
    ensures
        opt_chars(r) == field_of(line@, key@),
{
    let rest = match rest_after_key(line, key) {
        None => return None,
        Some(rest) => rest,
    };
    if rest.len() == 0 || rest[0] != '"' {
        return None;
    }
    let r2 = sub_vec(&rest, 1, rest.len());
    assert(r2@ =~= rest@.skip(1));
    proof {
        lemma_find_char(r2@, '"');
    }
    match find_char_exec(&r2, '"') {
        Some(e) => {
            let v = sub_vec(&r2, 0, e);
            assert(v@ =~= r2@.take(e as int));
            Some(v)
        },
        None => None,
    }
}

pub open spec fn opt_chars(o: Option<Vec<char>>) -> Option<Seq<char>> {
    match o {
        Some(v) => Some(v@),
        None => None,
    }
}

/// The string value of `"key": "..."` in a line (up to the next quote).
pub fn json_field(line: &str, key: &str) -> (r: Option<String>)
    ensures
        match r {
            Some(s) => field_of(line@, key@) == Some(s@),
            None => field_of(line@, key@) is None,
        },
{
    match json_field_chars(&chars_of(line), &chars_of(key)) {
        Some(v) => Some(string_of(&v)),
        None => None,
    }
}

pub fn json_number_chars(line: &[char], key: &[char]) -> (r: Option<u32>)
    ensures
        r == number_of(line@, key@),
{
    let rest = match rest_after_key(line, key) {
        None => return None,
        Some(rest) => rest,
    };
    let mut end: usize = 0;
    while end < rest.len() && rest[end] != ',' && rest[end] != '}'
        invariant
            end <= rest@.len(),
            forall|k: int| 0 <= k < end ==> !(#[trigger] ends_number_at(rest@)(k)),
        decreases rest.len() - end,
    {
        end = end + 1;
    }
    proof {
        lemma_first_at_unique(0, rest@.len() as int, ends_number_at(rest@), end as int);
    }
    let head = sub_vec(&rest, 0, end);
    assert(head@ =~= rest@.take(end as int));
    parse_u32_exec(&trim_exec(&head))
}

/// The number value of `"key": N` in a line (up to the next `,` or `}`).
pub fn json_number(line: &str, key: &str) -> (r: Option<u32>)
    ensures
        r == number_of(line@, key@),
{
    json_number_chars(&chars_of(line), &chars_of(key))
}

/// The record that a `.history.jsonl` line holds: missing strings are empty, a
/// missing number of turns is 0, and any status but `blocked` is `done`.
pub open spec fn record_of(line: Seq<char>) -> RecordModel {
    RecordModel {
        ts: match field_of(line, "ts"@) {
            Some(s) => s,
            None => seq![],
        },
        track: match field_of(line, "track"@) {
            Some(s) => s,
            None => seq![],
        },
        slug: match field_of(line, "slug"@) {
            Some(s) => s,
            None => seq![],
        },
        estimate: number_of(line, "estimate"@),
        actual_turns: match number_of(line, "actual_turns"@) {
            Some(n) => n,
            None => 0,
        },
        status: match field_of(line, "status"@) {
            Some(s) => if s == "blocked"@ {
                HistoryStatus::Blocked
            } else {
                HistoryStatus::Done
            },
            None => HistoryStatus::Done,
        },
    }
}

/// The records of a `.history.jsonl` text, blank lines skipped.
pub open spec fn records_of(ls: Seq<Seq<char>>) -> Seq<RecordModel>
    decreases ls.len(),
{
    if ls.len() == 0 {
        seq![]
    } else if trim(ls.last()).len() == 0 {
        records_of(ls.drop_last())
    } else {
        records_of(ls.drop_last()).push(record_of(ls.last()))
    }
}

fn field_or_empty(line: &[char], key: &str) -> (r: String)
    ensures
        r@ == (match field_of(line@, key@) {
            Some(s) => s,
            None => seq![],
        }),
{
    match json_field_chars(line, &chars_of(key)) {
        Some(v) => string_of(&v),
        None => String::new(),
    }
}

fn record_of_exec(line: &[char]) -> (r: HistoryRecord)
    ensures
        r@ == record_of(line@),
{
    let status = match json_field_chars(line, &lit("status")) {
        Some(s) => if seq_eq(&s, &lit("blocked")) {
            HistoryStatus::Blocked
        } else {
            HistoryStatus::Done
        },
        None => HistoryStatus::Done,
    };
    HistoryRecord {
        ts: field_or_empty(line, "ts"),
        track: field_or_empty(line, "track"),
        slug: field_or_empty(line, "slug"),
        estimate: json_number_chars(line, &lit("estimate")),
        actual_turns: match json_number_chars(line, &lit("actual_turns")) {
            Some(n) => n,
            None => 0,
        },
        status,
    }
}

/// Reads the records of `.history.jsonl`, one per non-blank line.
pub fn parse_history(text: &str) -> (r: Vec<HistoryRecord>)
    ensures
        record_views(r@) == records_of(lines(text@)),
{
    let v = chars_of(text);
    let ls = lines_exec(&v);
    let ghost lv = views(ls@);
    let mut out: Vec<HistoryRecord> = Vec::new();
    let mut i: usize = 0;
    assert(lv.take(0) =~= Seq::<Seq<char>>::empty());
    assert(record_views(out@) =~= Seq::<RecordModel>::empty());
    while i < ls.len()
        invariant
            i <= ls@.len(),
            lv == views(ls@),
            record_views(out@) == records_of(lv.take(i as int)),
        decreases ls.len() - i,
    {
        assert(lv.take(i + 1).drop_last() =~= lv.take(i as int));
        assert(lv.take(i + 1).last() == ls@[i as int]@);
        if trim_exec(&ls[i]).len() > 0 {
            let rec = record_of_exec(&ls[i]);
            let ghost before = out@;
            out.push(rec);
            assert(record_views(out@) =~= record_views(before).push(rec@));
        }
        i = i + 1;
    }
    assert(lv.take(ls@.len() as int) =~= lv);
    out
}


// ---------------------------------------------------------------------------
// Reading back a written record
// ---------------------------------------------------------------------------

/// A text that a history record carries as it is: no quote, backslash or
/// control character, so JSON escaping leaves it alone.
pub open spec fn plain_text(s: Seq<char>) -> bool {
    forall|i: int|
        0 <= i < s.len() ==> #[trigger] s[i] != '"' && s[i] != '\\' && (s[i] as u32) >= 0x20
}

pub open spec fn quote_free(s: Seq<char>) -> bool {
    forall|i: int| 0 <= i < s.len() ==> #[trigger] s[i] != '"'
}

proof fn lemma_escaped_plain(s: Seq<char>)
    requires
        plain_text(s),
    ensures
        escaped(s) == s,
    decreases s.len(),
{
    if s.len() > 0 {
        let t = s.drop_last();
        assert forall|i: int| 0 <= i < t.len() implies #[trigger] t[i] != '"' && t[i] != '\\' && (
        t[i] as u32) >= 0x20 by {
            assert(t[i] == s[i]);
        }
        lemma_escaped_plain(t);
        assert(s.last() == s[s.len() - 1]);
        assert(escape_char(s.last()) == seq![s.last()]);
        assert(t.push(s.last()) =~= s);
    }
}

/// At a quote that opens a quote-free word `w` closed by a quote, a needle
/// `"key":` can only start when `key` is `w` and a `:` follows the closing quote.
proof fn lemma_quoted_match(s: Seq<char>, k: int, w: Seq<char>, key: Seq<char>)
    requires
        0 <= k,
        k + 1 + w.len() < s.len(),
        s[k] == '"',
        s.subrange(k + 1, k + 1 + w.len()) == w,
        quote_free(w),
        s[k + 1 + w.len()] == '"',
        quote_free(key),
        k + key_needle(key).len() <= s.len(),
        sub_at(s, key_needle(key))(k),
    ensures
        key == w,
        s[k + 2 + w.len()] == ':',
{
    let n = key_needle(key);
    let m = s.subrange(k, k + n.len());
    let wl = w.len() as int;
    let kl = key.len() as int;
    assert(m == n);
    if kl < wl {
        assert(m[1 + kl] == n[1 + kl]);
        assert(s.subrange(k + 1, k + 1 + wl)[kl] == s[k + 1 + kl]);
    } else if kl > wl {
        assert(m[1 + wl] == n[1 + wl]);
        assert(n[1 + wl] == key[wl]);
    } else {
        assert forall|j: int| 0 <= j < wl implies key[j] == w[j] by {
            assert(m[1 + j] == n[1 + j]);
            assert(s.subrange(k + 1, k + 1 + wl)[j] == s[k + 1 + j]);
        }
        assert(key =~= w);
        assert(m[2 + wl] == n[2 + wl]);
    }
}

/// A needle `"key":` cannot start at a quote followed by a character that
/// does not begin `key`.
proof fn lemma_quote_then(s: Seq<char>, k: int, key: Seq<char>)
    requires
        0 <= k,
        k + key_needle(key).len() <= s.len(),
        key.len() > 0,
        s[k + 1] != key[0],
    ensures
        !sub_at(s, key_needle(key))(k),
{
    let n = key_needle(key);
    if sub_at(s, n)(k) {
        assert(s.subrange(k, k + n.len())[1] == n[1]);
    }
}

proof fn lemma_not_quote(s: Seq<char>, k: int, key: Seq<char>)
    requires
        0 <= k,
        k + key_needle(key).len() <= s.len(),
        s[k] != '"',
    ensures
        !sub_at(s, key_needle(key))(k),
{
    let n = key_needle(key);
    if sub_at(s, n)(k) {
        assert(s.subrange(k, k + n.len())[0] == n[0]);
    }
}


/// The pieces joined end to end.
pub open spec fn cat(ss: Seq<Seq<char>>) -> Seq<char>
    decreases ss.len(),
{
    if ss.len() == 0 {
        seq![]
    } else {
        cat(ss.drop_last()) + ss.last()
    }
}

/// Where piece `i` starts in `cat(ss)`.
pub open spec fn cat_off(ss: Seq<Seq<char>>, i: int) -> int {
    cat(ss.take(i)).len() as int
}

proof fn lemma_cat_off_step(ss: Seq<Seq<char>>, i: int)
    requires
        0 <= i < ss.len(),
    ensures
        cat_off(ss, i + 1) == cat_off(ss, i) + ss[i].len(),
{
    assert(ss.take(i + 1).drop_last() =~= ss.take(i));
}

proof fn lemma_cat_off_le(ss: Seq<Seq<char>>, i: int)
    requires
        0 <= i <= ss.len(),
    ensures
        0 <= cat_off(ss, i) <= cat(ss).len(),
    decreases ss.len() - i,
{
    if i < ss.len() {
        lemma_cat_off_step(ss, i);
        lemma_cat_off_le(ss, i + 1);
    } else {
        assert(ss.take(i) =~= ss);
    }
}

/// Piece `i` sits in `cat(ss)` at its offset.
proof fn lemma_cat_piece(ss: Seq<Seq<char>>, i: int)
    requires
        0 <= i < ss.len(),
    ensures
        cat(ss).subrange(cat_off(ss, i), cat_off(ss, i) + ss[i].len()) == ss[i],
        cat_off(ss, i) + ss[i].len() <= cat(ss).len(),
    decreases ss.len(),
{
    let t = ss.drop_last();
    if i == ss.len() - 1 {
        assert(ss.take(i) =~= t);
        assert(cat(ss).subrange(cat(t).len() as int, cat(ss).len() as int) =~= ss.last());
    } else {
        lemma_cat_piece(t, i);
        assert(t.take(i) =~= ss.take(i));
        assert(t[i] == ss[i]);
        assert(cat(ss).subrange(cat_off(ss, i), cat_off(ss, i) + ss[i].len()) =~= cat(t).subrange(
            cat_off(t, i),
            cat_off(t, i) + t[i].len(),
        ));
    }
}

pub open spec fn lit_ts() -> Seq<char> {
    seq!['{', '"', 't', 's', '"', ':', ' ', '"']
}

pub open spec fn lit_track() -> Seq<char> {
    seq!['"', ',', ' ', '"', 't', 'r', 'a', 'c', 'k', '"', ':', ' ', '"']
}

pub open spec fn lit_slug() -> Seq<char> {
    seq!['"', ',', ' ', '"', 's', 'l', 'u', 'g', '"', ':', ' ', '"']
}

pub open spec fn lit_estimate() -> Seq<char> {
    seq!['"', ',', ' ', '"', 'e', 's', 't', 'i', 'm', 'a', 't', 'e', '"', ':', ' ']
}

pub open spec fn lit_actual() -> Seq<char> {
    seq![',', ' ', '"', 'a', 'c', 't', 'u', 'a', 'l', '_', 't', 'u', 'r', 'n', 's', '"', ':', ' ']
}

pub open spec fn lit_status() -> Seq<char> {
    seq![',', ' ', '"', 's', 't', 'a', 't', 'u', 's', '"', ':', ' ', '"']
}

pub open spec fn lit_end() -> Seq<char> {
    seq!['"', '}']
}

/// The pieces of a history line: the fixed text between the fields, and the
/// fields, none of them holding a quote.
pub open spec fn record_segs_ok(segs: Seq<Seq<char>>) -> bool {
    &&& segs.len() == 13
    &&& segs[0] == lit_ts()
    &&& segs[2] == lit_track()
    &&& segs[4] == lit_slug()
    &&& segs[6] == lit_estimate()
    &&& segs[8] == lit_actual()
    &&& segs[10] == lit_status()
    &&& segs[12] == lit_end()
    &&& quote_free(segs[1])
    &&& quote_free(segs[3])
    &&& quote_free(segs[5])
    &&& quote_free(segs[7])
    &&& quote_free(segs[9])
    &&& quote_free(segs[11])
}

/// A key that the history reader looks up: no quote in it, and not starting
/// with a character that follows a quote in a history line.
pub open spec fn lookup_key(key: Seq<char>) -> bool {
    &&& quote_free(key)
    &&& key.len() > 0
    &&& key[0] != ':'
    &&& key[0] != ','
    &&& key[0] != '}'
}

/// The positions where a key's needle starts in a history line.
pub open spec fn key_start(segs: Seq<Seq<char>>, key: Seq<char>, k: int) -> bool {
    (k == cat_off(segs, 0) + 1 && key == seq!['t', 's'])
        || (k == cat_off(segs, 2) + 3 && key == seq!['t', 'r', 'a', 'c', 'k'])
        || (k == cat_off(segs, 4) + 3 && key == seq!['s', 'l', 'u', 'g'])
        || (k == cat_off(segs, 6) + 3 && key == seq!['e', 's', 't', 'i', 'm', 'a', 't', 'e'])
        || (k == cat_off(segs, 8) + 2 && key == seq!['a', 'c', 't', 'u', 'a', 'l', '_', 't', 'u', 'r', 'n', 's'])
        || (k == cat_off(segs, 10) + 2 && key == seq!['s', 't', 'a', 't', 'u', 's'])
}

proof fn lemma_matches_in_lit_ts(segs: Seq<Seq<char>>, key: Seq<char>, k: int)
    requires
        record_segs_ok(segs),
        lookup_key(key),
        cat_off(segs, 0) <= k < cat_off(segs, 0) + 8,
        k + key_needle(key).len() <= cat(segs).len(),
        sub_at(cat(segs), key_needle(key))(k),
    ensures
        key_start(segs, key, k),
{
    let w = cat(segs);
    let o = cat_off(segs, 0);
    let l = lit_ts();
    lemma_cat_piece(segs, 0);
    assert(l.len() == 8);
    assert forall|x: int| 0 <= x < 8 implies w[o + x] == #[trigger] l[x] by {
        assert(w.subrange(o, o + 8)[x] == w[o + x]);
    }
    let j = k - o;
    if j == 1 {
        let kw = seq!['t', 's'];
        assert(w.subrange(k + 1, k + 1 + 2) =~= kw) by {
            assert forall|x: int| 0 <= x < 2 implies w.subrange(k + 1, k + 1 + 2)[x] == kw[x] by {
                assert(l[j + 1 + x] == kw[x]);
            }
        }
        assert(quote_free(kw));
        lemma_quoted_match(w, k, kw, key);
    } else if j == 4 {
        assert(w[k + 1] == l[j + 1]);
        lemma_quote_then(w, k, key);
    } else if j == 7 {
        let v = segs[1];
        lemma_cat_off_step(segs, 0);
        lemma_cat_off_step(segs, 1);
        lemma_cat_piece(segs, 1);
        lemma_cat_piece(segs, 2);
        let o2 = cat_off(segs, 2);
        assert(w.subrange(o2, o2 + 13)[0] == w[o2]);
        assert(w.subrange(o2, o2 + 13)[1] == w[o2 + 1]);
        assert(w.subrange(k + 1, k + 1 + v.len()) =~= v) by {
            assert forall|x: int| 0 <= x < v.len() implies w.subrange(k + 1, k + 1 + v.len())[x] == v[x] by {
                assert(w.subrange(k + 1, k + 1 + v.len())[x] == w.subrange(o + 8, o + 8 + v.len())[x]);
            }
        }
        if sub_at(w, key_needle(key))(k) {
            lemma_quoted_match(w, k, v, key);
        }
    } else {
        assert(w[k] == l[j]);
        lemma_not_quote(w, k, key);
    }
}

proof fn lemma_matches_in_lit_track(segs: Seq<Seq<char>>, key: Seq<char>, k: int)
    requires
        record_segs_ok(segs),
        lookup_key(key),
        cat_off(segs, 2) <= k < cat_off(segs, 2) + 13,
        k + key_needle(key).len() <= cat(segs).len(),
        sub_at(cat(segs), key_needle(key))(k),
    ensures
        key_start(segs, key, k),
{
    let w = cat(segs);
    let o = cat_off(segs, 2);
    let l = lit_track();
    lemma_cat_piece(segs, 2);
    assert(l.len() == 13);
    assert forall|x: int| 0 <= x < 13 implies w[o + x] == #[trigger] l[x] by {
        assert(w.subrange(o, o + 13)[x] == w[o + x]);
    }
    let j = k - o;
    if j == 0 {
        assert(w[k + 1] == l[j + 1]);
        lemma_quote_then(w, k, key);
    } else if j == 3 {
        let kw = seq!['t', 'r', 'a', 'c', 'k'];
        assert(w.subrange(k + 1, k + 1 + 5) =~= kw) by {
            assert forall|x: int| 0 <= x < 5 implies w.subrange(k + 1, k + 1 + 5)[x] == kw[x] by {
                assert(l[j + 1 + x] == kw[x]);
            }
        }
        assert(quote_free(kw));
        lemma_quoted_match(w, k, kw, key);
    } else if j == 9 {
        assert(w[k + 1] == l[j + 1]);
        lemma_quote_then(w, k, key);
    } else if j == 12 {
        let v = segs[3];
        lemma_cat_off_step(segs, 2);
        lemma_cat_off_step(segs, 3);
        lemma_cat_piece(segs, 3);
        lemma_cat_piece(segs, 4);
        let o2 = cat_off(segs, 4);
        assert(w.subrange(o2, o2 + 12)[0] == w[o2]);
        assert(w.subrange(o2, o2 + 12)[1] == w[o2 + 1]);
        assert(w.subrange(k + 1, k + 1 + v.len()) =~= v) by {
            assert forall|x: int| 0 <= x < v.len() implies w.subrange(k + 1, k + 1 + v.len())[x] == v[x] by {
                assert(w.subrange(k + 1, k + 1 + v.len())[x] == w.subrange(o + 13, o + 13 + v.len())[x]);
            }
        }
        if sub_at(w, key_needle(key))(k) {
            lemma_quoted_match(w, k, v, key);
        }
    } else {
        assert(w[k] == l[j]);
        lemma_not_quote(w, k, key);
    }
}

proof fn lemma_matches_in_lit_slug(segs: Seq<Seq<char>>, key: Seq<char>, k: int)
    requires
        record_segs_ok(segs),
        lookup_key(key),
        cat_off(segs, 4) <= k < cat_off(segs, 4) + 12,
        k + key_needle(key).len() <= cat(segs).len(),
        sub_at(cat(segs), key_needle(key))(k),
    ensures
        key_start(segs, key, k),
{
    let w = cat(segs);
    let o = cat_off(segs, 4);
    let l = lit_slug();
    lemma_cat_piece(segs, 4);
    assert(l.len() == 12);
    assert forall|x: int| 0 <= x < 12 implies w[o + x] == #[trigger] l[x] by {
        assert(w.subrange(o, o + 12)[x] == w[o + x]);
    }
    let j = k - o;
    if j == 0 {
        assert(w[k + 1] == l[j + 1]);
        lemma_quote_then(w, k, key);
    } else if j == 3 {
        let kw = seq!['s', 'l', 'u', 'g'];
        assert(w.subrange(k + 1, k + 1 + 4) =~= kw) by {
            assert forall|x: int| 0 <= x < 4 implies w.subrange(k + 1, k + 1 + 4)[x] == kw[x] by {
                assert(l[j + 1 + x] == kw[x]);
            }
        }
        assert(quote_free(kw));
        lemma_quoted_match(w, k, kw, key);
    } else if j == 8 {
        assert(w[k + 1] == l[j + 1]);
        lemma_quote_then(w, k, key);
    } else if j == 11 {
        let v = segs[5];
        lemma_cat_off_step(segs, 4);
        lemma_cat_off_step(segs, 5);
        lemma_cat_piece(segs, 5);
        lemma_cat_piece(segs, 6);
        let o2 = cat_off(segs, 6);
        assert(w.subrange(o2, o2 + 15)[0] == w[o2]);
        assert(w.subrange(o2, o2 + 15)[1] == w[o2 + 1]);
        assert(w.subrange(k + 1, k + 1 + v.len()) =~= v) by {
            assert forall|x: int| 0 <= x < v.len() implies w.subrange(k + 1, k + 1 + v.len())[x] == v[x] by {
                assert(w.subrange(k + 1, k + 1 + v.len())[x] == w.subrange(o + 12, o + 12 + v.len())[x]);
            }
        }
        if sub_at(w, key_needle(key))(k) {
            lemma_quoted_match(w, k, v, key);
        }
    } else {
        assert(w[k] == l[j]);
        lemma_not_quote(w, k, key);
    }
}

proof fn lemma_matches_in_lit_estimate(segs: Seq<Seq<char>>, key: Seq<char>, k: int)
    requires
        record_segs_ok(segs),
        lookup_key(key),
        cat_off(segs, 6) <= k < cat_off(segs, 6) + 15,
        k + key_needle(key).len() <= cat(segs).len(),
        sub_at(cat(segs), key_needle(key))(k),
    ensures
        key_start(segs, key, k),
{
    let w = cat(segs);
    let o = cat_off(segs, 6);
    let l = lit_estimate();
    lemma_cat_piece(segs, 6);
    assert(l.len() == 15);
    assert forall|x: int| 0 <= x < 15 implies w[o + x] == #[trigger] l[x] by {
        assert(w.subrange(o, o + 15)[x] == w[o + x]);
    }
    let j = k - o;
    if j == 0 {
        assert(w[k + 1] == l[j + 1]);
        lemma_quote_then(w, k, key);
    } else if j == 3 {
        let kw = seq!['e', 's', 't', 'i', 'm', 'a', 't', 'e'];
        assert(w.subrange(k + 1, k + 1 + 8) =~= kw) by {
            assert forall|x: int| 0 <= x < 8 implies w.subrange(k + 1, k + 1 + 8)[x] == kw[x] by {
                assert(l[j + 1 + x] == kw[x]);
            }
        }
        assert(quote_free(kw));
        lemma_quoted_match(w, k, kw, key);
    } else if j == 12 {
        assert(w[k + 1] == l[j + 1]);
        lemma_quote_then(w, k, key);
    } else {
        assert(w[k] == l[j]);
        lemma_not_quote(w, k, key);
    }
}

proof fn lemma_matches_in_lit_actual(segs: Seq<Seq<char>>, key: Seq<char>, k: int)
    requires
        record_segs_ok(segs),
        lookup_key(key),
        cat_off(segs, 8) <= k < cat_off(segs, 8) + 18,
        k + key_needle(key).len() <= cat(segs).len(),
        sub_at(cat(segs), key_needle(key))(k),
    ensures
        key_start(segs, key, k),
{
    let w = cat(segs);
    let o = cat_off(segs, 8);
    let l = lit_actual();
    lemma_cat_piece(segs, 8);
    assert(l.len() == 18);
    assert forall|x: int| 0 <= x < 18 implies w[o + x] == #[trigger] l[x] by {
        assert(w.subrange(o, o + 18)[x] == w[o + x]);
    }
    let j = k - o;
    if j == 2 {
        let kw = seq!['a', 'c', 't', 'u', 'a', 'l', '_', 't', 'u', 'r', 'n', 's'];
        assert(w.subrange(k + 1, k + 1 + 12) =~= kw) by {
            assert forall|x: int| 0 <= x < 12 implies w.subrange(k + 1, k + 1 + 12)[x] == kw[x] by {
                assert(l[j + 1 + x] == kw[x]);
            }
        }
        assert(quote_free(kw));
        lemma_quoted_match(w, k, kw, key);
    } else if j == 15 {
        assert(w[k + 1] == l[j + 1]);
        lemma_quote_then(w, k, key);
    } else {
        assert(w[k] == l[j]);
        lemma_not_quote(w, k, key);
    }
}

proof fn lemma_matches_in_lit_status(segs: Seq<Seq<char>>, key: Seq<char>, k: int)
    requires
        record_segs_ok(segs),
        lookup_key(key),
        cat_off(segs, 10) <= k < cat_off(segs, 10) + 13,
        k + key_needle(key).len() <= cat(segs).len(),
        sub_at(cat(segs), key_needle(key))(k),
    ensures
        key_start(segs, key, k),
{
    let w = cat(segs);
    let o = cat_off(segs, 10);
    let l = lit_status();
    lemma_cat_piece(segs, 10);
    assert(l.len() == 13);
    assert forall|x: int| 0 <= x < 13 implies w[o + x] == #[trigger] l[x] by {
        assert(w.subrange(o, o + 13)[x] == w[o + x]);
    }
    let j = k - o;
    if j == 2 {
        let kw = seq!['s', 't', 'a', 't', 'u', 's'];
        assert(w.subrange(k + 1, k + 1 + 6) =~= kw) by {
            assert forall|x: int| 0 <= x < 6 implies w.subrange(k + 1, k + 1 + 6)[x] == kw[x] by {
                assert(l[j + 1 + x] == kw[x]);
            }
        }
        assert(quote_free(kw));
        lemma_quoted_match(w, k, kw, key);
    } else if j == 9 {
        assert(w[k + 1] == l[j + 1]);
        lemma_quote_then(w, k, key);
    } else if j == 12 {
        let v = segs[11];
        lemma_cat_off_step(segs, 10);
        lemma_cat_off_step(segs, 11);
        lemma_cat_piece(segs, 11);
        lemma_cat_piece(segs, 12);
        let o2 = cat_off(segs, 12);
        assert(w.subrange(o2, o2 + 2)[0] == w[o2]);
        assert(w.subrange(o2, o2 + 2)[1] == w[o2 + 1]);
        assert(w.subrange(k + 1, k + 1 + v.len()) =~= v) by {
            assert forall|x: int| 0 <= x < v.len() implies w.subrange(k + 1, k + 1 + v.len())[x] == v[x] by {
                assert(w.subrange(k + 1, k + 1 + v.len())[x] == w.subrange(o + 13, o + 13 + v.len())[x]);
            }
        }
        if sub_at(w, key_needle(key))(k) {
            lemma_quoted_match(w, k, v, key);
        }
    } else {
        assert(w[k] == l[j]);
        lemma_not_quote(w, k, key);
    }
}

proof fn lemma_matches_in_lit_end(segs: Seq<Seq<char>>, key: Seq<char>, k: int)
    requires
        record_segs_ok(segs),
        lookup_key(key),
        cat_off(segs, 12) <= k < cat_off(segs, 12) + 2,
        k + key_needle(key).len() <= cat(segs).len(),
        sub_at(cat(segs), key_needle(key))(k),
    ensures
        key_start(segs, key, k),
{
    let w = cat(segs);
    let o = cat_off(segs, 12);
    let l = lit_end();
    lemma_cat_piece(segs, 12);
    assert(l.len() == 2);
    assert forall|x: int| 0 <= x < 2 implies w[o + x] == #[trigger] l[x] by {
        assert(w.subrange(o, o + 2)[x] == w[o + x]);
    }
    let j = k - o;
    if j == 0 {
        assert(w[k + 1] == l[j + 1]);
        lemma_quote_then(w, k, key);
    } else {
        assert(w[k] == l[j]);
        lemma_not_quote(w, k, key);
    }
}

proof fn lemma_matches_in_value(segs: Seq<Seq<char>>, key: Seq<char>, k: int, i: int)
    requires
        record_segs_ok(segs),
        i == 1 || i == 3 || i == 5 || i == 7 || i == 9 || i == 11,
        cat_off(segs, i) <= k < cat_off(segs, i) + segs[i].len(),
        k + key_needle(key).len() <= cat(segs).len(),
    ensures
        !sub_at(cat(segs), key_needle(key))(k),
{
    let w = cat(segs);
    let o = cat_off(segs, i);
    lemma_cat_piece(segs, i);
    assert(w.subrange(o, o + segs[i].len())[k - o] == w[k]);
    assert(segs[i][k - o] != '"');
    lemma_not_quote(w, k, key);
}

proof fn lemma_record_offsets(segs: Seq<Seq<char>>)
    requires
        record_segs_ok(segs),
    ensures
        cat_off(segs, 0) == 0,
        cat_off(segs, 1) == cat_off(segs, 0) + segs[0].len(),
        cat_off(segs, 2) == cat_off(segs, 1) + segs[1].len(),
        cat_off(segs, 3) == cat_off(segs, 2) + segs[2].len(),
        cat_off(segs, 4) == cat_off(segs, 3) + segs[3].len(),
        cat_off(segs, 5) == cat_off(segs, 4) + segs[4].len(),
        cat_off(segs, 6) == cat_off(segs, 5) + segs[5].len(),
        cat_off(segs, 7) == cat_off(segs, 6) + segs[6].len(),
        cat_off(segs, 8) == cat_off(segs, 7) + segs[7].len(),
        cat_off(segs, 9) == cat_off(segs, 8) + segs[8].len(),
        cat_off(segs, 10) == cat_off(segs, 9) + segs[9].len(),
        cat_off(segs, 11) == cat_off(segs, 10) + segs[10].len(),
        cat_off(segs, 12) == cat_off(segs, 11) + segs[11].len(),
        cat_off(segs, 13) == cat_off(segs, 12) + segs[12].len(),
        cat_off(segs, 13) == cat(segs).len(),
{
    assert(segs.take(0) =~= Seq::<Seq<char>>::empty());
    lemma_cat_off_step(segs, 0);
    lemma_cat_off_step(segs, 1);
    lemma_cat_off_step(segs, 2);
    lemma_cat_off_step(segs, 3);
    lemma_cat_off_step(segs, 4);
    lemma_cat_off_step(segs, 5);
    lemma_cat_off_step(segs, 6);
    lemma_cat_off_step(segs, 7);
    lemma_cat_off_step(segs, 8);
    lemma_cat_off_step(segs, 9);
    lemma_cat_off_step(segs, 10);
    lemma_cat_off_step(segs, 11);
    lemma_cat_off_step(segs, 12);
    assert(segs.take(13) =~= segs);
}

/// In a history line, a needle `"key":` starts only where that key is written.
proof fn lemma_matches_are_keys(segs: Seq<Seq<char>>, key: Seq<char>, k: int)
    requires
        record_segs_ok(segs),
        lookup_key(key),
        0 <= k,
        k + key_needle(key).len() <= cat(segs).len(),
        sub_at(cat(segs), key_needle(key))(k),
    ensures
        key_start(segs, key, k),
{
    lemma_record_offsets(segs);

    if k < cat_off(segs, 1) {
        lemma_matches_in_lit_ts(segs, key, k);
    } else if k < cat_off(segs, 2) {
        lemma_matches_in_value(segs, key, k, 1);
    } else if k < cat_off(segs, 3) {
        lemma_matches_in_lit_track(segs, key, k);
    } else if k < cat_off(segs, 4) {
        lemma_matches_in_value(segs, key, k, 3);
    } else if k < cat_off(segs, 5) {
        lemma_matches_in_lit_slug(segs, key, k);
    } else if k < cat_off(segs, 6) {
        lemma_matches_in_value(segs, key, k, 5);
    } else if k < cat_off(segs, 7) {
        lemma_matches_in_lit_estimate(segs, key, k);
    } else if k < cat_off(segs, 8) {
        lemma_matches_in_value(segs, key, k, 7);
    } else if k < cat_off(segs, 9) {
        lemma_matches_in_lit_actual(segs, key, k);
    } else if k < cat_off(segs, 10) {
        lemma_matches_in_value(segs, key, k, 9);
    } else if k < cat_off(segs, 11) {
        lemma_matches_in_lit_status(segs, key, k);
    } else if k < cat_off(segs, 12) {
        lemma_matches_in_value(segs, key, k, 11);
    } else {
        lemma_matches_in_lit_end(segs, key, k);
    }
}

proof fn lemma_find_key(segs: Seq<Seq<char>>, key: Seq<char>, p: int)
    requires
        record_segs_ok(segs),
        lookup_key(key),
        key_start(segs, key, p),
        0 <= p,
        p + key_needle(key).len() <= cat(segs).len(),
        sub_at(cat(segs), key_needle(key))(p),
    ensures
        find_sub(cat(segs), key_needle(key)) == Some(p),
{
    let w = cat(segs);
    let n = key_needle(key);
    let hi = w.len() - n.len() + 1;
    assert forall|k: int| 0 <= k < p implies !#[trigger] sub_at(w, n)(k) by {
        if sub_at(w, n)(k) {
            lemma_matches_are_keys(segs, key, k);
        }
    }
    lemma_first_at_unique(0, hi, sub_at(w, n), p);
}

proof fn lemma_key_ts(segs: Seq<Seq<char>>)
    requires
        record_segs_ok(segs),
    ensures
        find_sub(cat(segs), key_needle(seq!['t', 's'])) == Some(cat_off(segs, 0) + 1),
{
    let w = cat(segs);
    let key = seq!['t', 's'];
    let n = key_needle(key);
    let o = cat_off(segs, 0);
    let l = lit_ts();
    lemma_cat_piece(segs, 0);
    assert(l.len() == 8);
    assert(n.len() == 5);
    assert forall|x: int| 0 <= x < 8 implies w[o + x] == #[trigger] l[x] by {
        assert(w.subrange(o, o + 8)[x] == w[o + x]);
    }
    assert(w.subrange(o + 1, o + 1 + 5) =~= n) by {
        assert forall|x: int| 0 <= x < 5 implies w.subrange(o + 1, o + 1 + 5)[x] == n[x] by {
            assert(l[1 + x] == n[x]);
        }
    }
    assert(lookup_key(key));
    lemma_find_key(segs, key, o + 1);
}

proof fn lemma_key_track(segs: Seq<Seq<char>>)
    requires
        record_segs_ok(segs),
    ensures
        find_sub(cat(segs), key_needle(seq!['t', 'r', 'a', 'c', 'k'])) == Some(cat_off(segs, 2) + 3),
{
    let w = cat(segs);
    let key = seq!['t', 'r', 'a', 'c', 'k'];
    let n = key_needle(key);
    let o = cat_off(segs, 2);
    let l = lit_track();
    lemma_cat_piece(segs, 2);
    assert(l.len() == 13);
    assert(n.len() == 8);
    assert forall|x: int| 0 <= x < 13 implies w[o + x] == #[trigger] l[x] by {
        assert(w.subrange(o, o + 13)[x] == w[o + x]);
    }
    assert(w.subrange(o + 3, o + 3 + 8) =~= n) by {
        assert forall|x: int| 0 <= x < 8 implies w.subrange(o + 3, o + 3 + 8)[x] == n[x] by {
            assert(l[3 + x] == n[x]);
        }
    }
    assert(lookup_key(key));
    lemma_find_key(segs, key, o + 3);
}

proof fn lemma_key_slug(segs: Seq<Seq<char>>)
    requires
        record_segs_ok(segs),
    ensures
        find_sub(cat(segs), key_needle(seq!['s', 'l', 'u', 'g'])) == Some(cat_off(segs, 4) + 3),
{
    let w = cat(segs);
    let key = seq!['s', 'l', 'u', 'g'];
    let n = key_needle(key);
    let o = cat_off(segs, 4);
    let l = lit_slug();
    lemma_cat_piece(segs, 4);
    assert(l.len() == 12);
    assert(n.len() == 7);
    assert forall|x: int| 0 <= x < 12 implies w[o + x] == #[trigger] l[x] by {
        assert(w.subrange(o, o + 12)[x] == w[o + x]);
    }
    assert(w.subrange(o + 3, o + 3 + 7) =~= n) by {
        assert forall|x: int| 0 <= x < 7 implies w.subrange(o + 3, o + 3 + 7)[x] == n[x] by {
            assert(l[3 + x] == n[x]);
        }
    }
    assert(lookup_key(key));
    lemma_find_key(segs, key, o + 3);
}

proof fn lemma_key_estimate(segs: Seq<Seq<char>>)
    requires
        record_segs_ok(segs),
    ensures
        find_sub(cat(segs), key_needle(seq!['e', 's', 't', 'i', 'm', 'a', 't', 'e'])) == Some(cat_off(segs, 6) + 3),
{
    let w = cat(segs);
    let key = seq!['e', 's', 't', 'i', 'm', 'a', 't', 'e'];
    let n = key_needle(key);
    let o = cat_off(segs, 6);
    let l = lit_estimate();
    lemma_cat_piece(segs, 6);
    assert(l.len() == 15);
    assert(n.len() == 11);
    assert forall|x: int| 0 <= x < 15 implies w[o + x] == #[trigger] l[x] by {
        assert(w.subrange(o, o + 15)[x] == w[o + x]);
    }
    assert(w.subrange(o + 3, o + 3 + 11) =~= n) by {
        assert forall|x: int| 0 <= x < 11 implies w.subrange(o + 3, o + 3 + 11)[x] == n[x] by {
            assert(l[3 + x] == n[x]);
        }
    }
    assert(lookup_key(key));
    lemma_find_key(segs, key, o + 3);
}

proof fn lemma_key_actual_turns(segs: Seq<Seq<char>>)
    requires
        record_segs_ok(segs),
    ensures
        find_sub(cat(segs), key_needle(seq!['a', 'c', 't', 'u', 'a', 'l', '_', 't', 'u', 'r', 'n', 's'])) == Some(cat_off(segs, 8) + 2),
{
    let w = cat(segs);
    let key = seq!['a', 'c', 't', 'u', 'a', 'l', '_', 't', 'u', 'r', 'n', 's'];
    let n = key_needle(key);
    let o = cat_off(segs, 8);
    let l = lit_actual();
    lemma_cat_piece(segs, 8);
    assert(l.len() == 18);
    assert(n.len() == 15);
    assert forall|x: int| 0 <= x < 18 implies w[o + x] == #[trigger] l[x] by {
        assert(w.subrange(o, o + 18)[x] == w[o + x]);
    }
    assert(w.subrange(o + 2, o + 2 + 15) =~= n) by {
        assert forall|x: int| 0 <= x < 15 implies w.subrange(o + 2, o + 2 + 15)[x] == n[x] by {
            assert(l[2 + x] == n[x]);
        }
    }
    assert(lookup_key(key));
    lemma_find_key(segs, key, o + 2);
}

proof fn lemma_key_status(segs: Seq<Seq<char>>)
    requires
        record_segs_ok(segs),
    ensures
        find_sub(cat(segs), key_needle(seq!['s', 't', 'a', 't', 'u', 's'])) == Some(cat_off(segs, 10) + 2),
{
    let w = cat(segs);
    let key = seq!['s', 't', 'a', 't', 'u', 's'];
    let n = key_needle(key);
    let o = cat_off(segs, 10);
    let l = lit_status();
    lemma_cat_piece(segs, 10);
    assert(l.len() == 13);
    assert(n.len() == 9);
    assert forall|x: int| 0 <= x < 13 implies w[o + x] == #[trigger] l[x] by {
        assert(w.subrange(o, o + 13)[x] == w[o + x]);
    }
    assert(w.subrange(o + 2, o + 2 + 9) =~= n) by {
        assert forall|x: int| 0 <= x < 9 implies w.subrange(o + 2, o + 2 + 9)[x] == n[x] by {
            assert(l[2 + x] == n[x]);
        }
    }
    assert(lookup_key(key));
    lemma_find_key(segs, key, o + 2);
}


/// After a space, a quoted quote-free `v`: the string that `json_field` reads there.
proof fn lemma_quoted_after(w: Seq<char>, a: int, v: Seq<char>)
    requires
        0 <= a,
        a + 2 + v.len() < w.len(),
        w[a] == ' ',
        w[a + 1] == '"',
        w.subrange(a + 2, a + 2 + v.len()) == v,
        quote_free(v),
        w[a + 2 + v.len()] == '"',
    ensures
        trim_start(w.skip(a)).len() > 0,
        trim_start(w.skip(a))[0] == '"',
        find_char(trim_start(w.skip(a)).skip(1), '"') == Some(v.len() as int),
        trim_start(w.skip(a)).skip(1).take(v.len() as int) == v,
{
    let s = w.skip(a);
    let vl = v.len() as int;
    assert(s[0] == ' ');
    assert(s[1] == '"');
    assert(!not_ws_at(s)(0));
    assert(not_ws_at(s)(1));
    lemma_first_at_unique(0, s.len() as int, not_ws_at(s), 1);
    let rest = trim_start(s);
    assert(rest =~= w.skip(a + 1));
    let r2 = rest.skip(1);
    assert(r2 =~= w.skip(a + 2));
    assert forall|x: int| 0 <= x < vl implies !#[trigger] char_is(r2, '"')(x) by {
        assert(w.subrange(a + 2, a + 2 + vl)[x] == w[a + 2 + x]);
        assert(v[x] != '"');
    }
    assert(char_is(r2, '"')(vl));
    lemma_first_at_unique(0, r2.len() as int, char_is(r2, '"'), vl);
    assert(r2.take(vl) =~= v) by {
        assert forall|x: int| 0 <= x < vl implies r2.take(vl)[x] == v[x] by {
            assert(w.subrange(a + 2, a + 2 + vl)[x] == w[a + 2 + x]);
        }
    }
}

/// After a space, a number `v` ended by `,` or `}`: the text that `json_number` parses.
proof fn lemma_number_after(w: Seq<char>, a: int, v: Seq<char>)
    requires
        0 <= a,
        a + 1 + v.len() < w.len(),
        w[a] == ' ',
        w.subrange(a + 1, a + 1 + v.len()) == v,
        v.len() > 0,
        !is_ws(v[0]),
        forall|x: int| 0 <= x < v.len() ==> #[trigger] v[x] != ',' && v[x] != '}',
        w[a + 1 + v.len()] == ',' || w[a + 1 + v.len()] == '}',
    ensures
        first_at(0, trim_start(w.skip(a)).len() as int, ends_number_at(trim_start(w.skip(a))))
            == v.len(),
        trim_start(w.skip(a)).take(v.len() as int) == v,
{
    let s = w.skip(a);
    let vl = v.len() as int;
    assert(s[0] == ' ');
    assert(s[1] == w[a + 1]);
    assert(w.subrange(a + 1, a + 1 + vl)[0] == w[a + 1]);
    assert(!not_ws_at(s)(0));
    assert(not_ws_at(s)(1));
    lemma_first_at_unique(0, s.len() as int, not_ws_at(s), 1);
    let rest = trim_start(s);
    assert(rest =~= w.skip(a + 1));
    assert forall|x: int| 0 <= x < vl implies !#[trigger] ends_number_at(rest)(x) by {
        assert(w.subrange(a + 1, a + 1 + vl)[x] == w[a + 1 + x]);
    }
    assert(ends_number_at(rest)(vl));
    lemma_first_at_unique(0, rest.len() as int, ends_number_at(rest), vl);
    assert(rest.take(vl) =~= v) by {
        assert forall|x: int| 0 <= x < vl implies rest.take(vl)[x] == v[x] by {
            assert(w.subrange(a + 1, a + 1 + vl)[x] == w[a + 1 + x]);
        }
    }
}


proof fn lemma_quoted_field(segs: Seq<Seq<char>>, key: Seq<char>, p: int, i: int)
    requires
        record_segs_ok(segs),
        i == 1 || i == 3 || i == 5 || i == 11,
        find_sub(cat(segs), key_needle(key)) == Some(p),
        p + key_needle(key).len() == cat_off(segs, i) - 2,
    ensures
        field_of(cat(segs), key) == Some(segs[i]),
{
    let w = cat(segs);
    lemma_record_offsets(segs);
    lemma_cat_piece(segs, i - 1);
    lemma_cat_piece(segs, i);
    lemma_cat_piece(segs, i + 1);
    let o = cat_off(segs, i);
    let prev = segs[i - 1];
    let next = segs[i + 1];
    assert(prev[prev.len() - 2] == ' ' && prev[prev.len() - 1] == '"');
    assert(next[0] == '"');
    assert(w.subrange(o - prev.len(), o)[prev.len() - 2] == w[o - 2]);
    assert(w.subrange(o - prev.len(), o)[prev.len() - 1] == w[o - 1]);
    let o2 = cat_off(segs, i + 1);
    assert(w.subrange(o2, o2 + next.len())[0] == w[o2]);
    lemma_quoted_after(w, o - 2, segs[i]);
}

proof fn lemma_number_field(segs: Seq<Seq<char>>, key: Seq<char>, p: int, i: int)
    requires
        record_segs_ok(segs),
        i == 7 || i == 9,
        find_sub(cat(segs), key_needle(key)) == Some(p),
        p + key_needle(key).len() == cat_off(segs, i) - 1,
        segs[i].len() > 0,
        !is_ws(segs[i][0]),
        forall|x: int| 0 <= x < segs[i].len() ==> #[trigger] segs[i][x] != ',' && segs[i][x] != '}',
    ensures
        number_of(cat(segs), key) == parse_u32(trim(segs[i])),
{
    let w = cat(segs);
    lemma_record_offsets(segs);
    lemma_cat_piece(segs, i - 1);
    lemma_cat_piece(segs, i);
    lemma_cat_piece(segs, i + 1);
    let o = cat_off(segs, i);
    let prev = segs[i - 1];
    let next = segs[i + 1];
    assert(prev[prev.len() - 1] == ' ');
    assert(next[0] == ',');
    assert(w.subrange(o - prev.len(), o)[prev.len() - 1] == w[o - 1]);
    let o2 = cat_off(segs, i + 1);
    assert(w.subrange(o2, o2 + next.len())[0] == w[o2]);
    lemma_number_after(w, o - 1, segs[i]);
}

/// The estimate as `history_line` writes it.
pub open spec fn estimate_text(e: Option<u32>) -> Seq<char> {
    match e {
        Some(n) => decimal(n as nat),
        None => seq!['n', 'u', 'l', 'l'],
    }
}

/// A history line cut at its fields.
pub open spec fn record_segs(r: RecordModel) -> Seq<Seq<char>> {
    seq![
        lit_ts(),
        r.ts,
        lit_track(),
        r.track,
        lit_slug(),
        r.slug,
        lit_estimate(),
        estimate_text(r.estimate),
        lit_actual(),
        decimal(r.actual_turns as nat),
        lit_status(),
        status_word(r.status),
        lit_end(),
    ]
}


proof fn lemma_number_text(v: Seq<char>)
    requires
        all_digits(v),
        v.len() > 0,
    ensures
        !is_ws(v[0]),
        forall|x: int| 0 <= x < v.len() ==> #[trigger] v[x] != ',' && v[x] != '}' && v[x] != '"',
{
    assert(is_digit(v[0]));
    assert forall|x: int| 0 <= x < v.len() implies #[trigger] v[x] != ',' && v[x] != '}' && v[x]
        != '"' by {
        assert(is_digit(v[x]));
    }
}

proof fn lemma_segs_of_record(r: RecordModel)
    requires
        plain_text(r.ts),
        plain_text(r.track),
        plain_text(r.slug),
    ensures
        record_segs_ok(record_segs(r)),
        estimate_text(r.estimate).len() > 0,
        !is_ws(estimate_text(r.estimate)[0]),
        forall|x: int|
            0 <= x < estimate_text(r.estimate).len() ==> #[trigger] estimate_text(r.estimate)[x]
                != ',' && estimate_text(r.estimate)[x] != '}',
        parse_u32(trim(estimate_text(r.estimate))) == r.estimate,
        decimal(r.actual_turns as nat).len() > 0,
        !is_ws(decimal(r.actual_turns as nat)[0]),
        forall|x: int|
            0 <= x < decimal(r.actual_turns as nat).len() ==> #[trigger] decimal(
                r.actual_turns as nat,
            )[x] != ',' && decimal(r.actual_turns as nat)[x] != '}',
        parse_u32(trim(decimal(r.actual_turns as nat))) == Some(r.actual_turns),
{
    reveal_strlit("done");
    reveal_strlit("blocked");
    let segs = record_segs(r);
    let d = decimal(r.actual_turns as nat);
    lemma_decimal(r.actual_turns as nat);
    lemma_number_text(d);
    lemma_parse_decimal(r.actual_turns);
    let e = estimate_text(r.estimate);
    match r.estimate {
        Some(n) => {
            lemma_decimal(n as nat);
            lemma_number_text(e);
            lemma_parse_decimal(n);
        },
        None => {
            lemma_trim_id(e);
            assert(!is_digit(e[0]));
            assert(unsigned_digits(e) == e);
            assert(!all_digits(e));
        },
    }
    assert(quote_free(segs[1]));
    assert(quote_free(segs[3]));
    assert(quote_free(segs[5]));
    assert(quote_free(segs[7]));
    assert(quote_free(segs[9]));
    assert(quote_free(segs[11]));
}


#[verifier::spinoff_prover]
proof fn lemma_history_text_segs(r: RecordModel)
    requires
        plain_text(r.ts),
        plain_text(r.track),
        plain_text(r.slug),
    ensures
        history_text(r) == cat(record_segs(r)) + seq!['\n'],
{
    reveal_strlit("{\"ts\": ");
    reveal_strlit(", \"track\": ");
    reveal_strlit(", \"slug\": ");
    reveal_strlit(", \"estimate\": ");
    reveal_strlit("null");
    reveal_strlit(", \"actual_turns\": ");
    reveal_strlit(", \"status\": ");
    reveal_strlit("}\n");
    reveal_strlit("done");
    reveal_strlit("blocked");
    lemma_escaped_plain(r.ts);
    lemma_escaped_plain(r.track);
    lemma_escaped_plain(r.slug);
    let sw = status_word(r.status);
    assert(plain_text(sw));
    lemma_escaped_plain(sw);
    let segs = record_segs(r);
    let q = seq!['"'];
    assert(segs.take(0) =~= Seq::<Seq<char>>::empty());
    assert(segs.take(1).drop_last() =~= segs.take(0));
    assert(cat(segs.take(1)) == cat(segs.take(0)) + segs[0]);
    assert(segs.take(2).drop_last() =~= segs.take(1));
    assert(cat(segs.take(2)) == cat(segs.take(1)) + segs[1]);
    assert(segs.take(3).drop_last() =~= segs.take(2));
    assert(cat(segs.take(3)) == cat(segs.take(2)) + segs[2]);
    assert(segs.take(4).drop_last() =~= segs.take(3));
    assert(cat(segs.take(4)) == cat(segs.take(3)) + segs[3]);
    assert(segs.take(5).drop_last() =~= segs.take(4));
    assert(cat(segs.take(5)) == cat(segs.take(4)) + segs[4]);
    assert(segs.take(6).drop_last() =~= segs.take(5));
    assert(cat(segs.take(6)) == cat(segs.take(5)) + segs[5]);
    assert(segs.take(7).drop_last() =~= segs.take(6));
    assert(cat(segs.take(7)) == cat(segs.take(6)) + segs[6]);
    assert(segs.take(8).drop_last() =~= segs.take(7));
    assert(cat(segs.take(8)) == cat(segs.take(7)) + segs[7]);
    assert(segs.take(9).drop_last() =~= segs.take(8));
    assert(cat(segs.take(9)) == cat(segs.take(8)) + segs[8]);
    assert(segs.take(10).drop_last() =~= segs.take(9));
    assert(cat(segs.take(10)) == cat(segs.take(9)) + segs[9]);
    assert(segs.take(11).drop_last() =~= segs.take(10));
    assert(cat(segs.take(11)) == cat(segs.take(10)) + segs[10]);
    assert(segs.take(12).drop_last() =~= segs.take(11));
    assert(cat(segs.take(12)) == cat(segs.take(11)) + segs[11]);
    assert(segs.take(13).drop_last() =~= segs.take(12));
    assert(cat(segs.take(13)) == cat(segs.take(12)) + segs[12]);
    assert(segs.take(13) =~= segs);
    let p2 = cat(segs.take(2));
    let p4 = cat(segs.take(4));
    let p6 = cat(segs.take(6));
    let p8 = cat(segs.take(8));
    let p10 = cat(segs.take(10));
    let p12 = cat(segs.take(12));
    assert(cat(segs.take(1)) == lit_ts());
    let h1 = "{\"ts\": "@ + json_string(r.ts);
    assert(h1 =~= p2 + q);
    let h3 = h1 + ", \"track\": "@ + json_string(r.track);
    assert(h3 =~= p4 + q);
    let h5 = h3 + ", \"slug\": "@ + json_string(r.slug);
    assert(h5 =~= p6 + q);
    let h7 = h5 + ", \"estimate\": "@ + (match r.estimate {
        Some(e) => decimal(e as nat),
        None => "null"@,
    });
    assert(h7 =~= p8);
    let h9 = h7 + ", \"actual_turns\": "@ + decimal(r.actual_turns as nat);
    assert(h9 =~= p10);
    let h11 = h9 + ", \"status\": "@ + json_string(sw);
    assert(h11 =~= p12 + q);
    let h12 = h11 + "}\n"@;
    assert(h12 =~= cat(segs) + seq!['\n']);
}


proof fn lemma_record_of_segs(r: RecordModel)
    requires
        plain_text(r.ts),
        plain_text(r.track),
        plain_text(r.slug),
    ensures
        record_of(cat(record_segs(r))) == r,
{
    reveal_strlit("ts");
    reveal_strlit("track");
    reveal_strlit("slug");
    reveal_strlit("estimate");
    reveal_strlit("actual_turns");
    reveal_strlit("status");
    reveal_strlit("done");
    reveal_strlit("blocked");
    let segs = record_segs(r);
    lemma_segs_of_record(r);
    lemma_record_offsets(segs);
    assert("ts"@ =~= seq!['t', 's']);
    assert("track"@ =~= seq!['t', 'r', 'a', 'c', 'k']);
    assert("slug"@ =~= seq!['s', 'l', 'u', 'g']);
    assert("estimate"@ =~= seq!['e', 's', 't', 'i', 'm', 'a', 't', 'e']);
    assert("actual_turns"@ =~= seq!['a', 'c', 't', 'u', 'a', 'l', '_', 't', 'u', 'r', 'n', 's']);
    assert("status"@ =~= seq!['s', 't', 'a', 't', 'u', 's']);
    lemma_key_ts(segs);
    lemma_key_track(segs);
    lemma_key_slug(segs);
    lemma_key_estimate(segs);
    lemma_key_actual_turns(segs);
    lemma_key_status(segs);
    lemma_quoted_field(segs, "ts"@, cat_off(segs, 0) + 1, 1);
    lemma_quoted_field(segs, "track"@, cat_off(segs, 2) + 3, 3);
    lemma_quoted_field(segs, "slug"@, cat_off(segs, 4) + 3, 5);
    lemma_quoted_field(segs, "status"@, cat_off(segs, 10) + 2, 11);
    lemma_number_field(segs, "estimate"@, cat_off(segs, 6) + 3, 7);
    lemma_number_field(segs, "actual_turns"@, cat_off(segs, 8) + 2, 9);
    assert("done"@ != "blocked"@);
}

proof fn lemma_cat_no_char(ss: Seq<Seq<char>>, c: char)
    requires
        forall|i: int| 0 <= i < ss.len() ==> !has_char(#[trigger] ss[i], c),
    ensures
        !has_char(cat(ss), c),
    decreases ss.len(),
{
    if ss.len() > 0 {
        let t = ss.drop_last();
        assert forall|i: int| 0 <= i < t.len() implies !has_char(#[trigger] t[i], c) by {
            assert(t[i] == ss[i]);
        }
        lemma_cat_no_char(t, c);
        assert(!has_char(ss[ss.len() - 1], c));
        if has_char(cat(ss), c) {
            let x = choose|x: int| 0 <= x < cat(ss).len() && cat(ss)[x] == c;
            if x < cat(t).len() {
                assert(cat(t)[x] == c);
            } else {
                assert(ss.last()[x - cat(t).len()] == c);
            }
        }
    }
}

/// Reading back the line that `history_line` writes gives the record again,
/// when its time, track and slug hold no quote, backslash or control character.
pub proof fn law_history_read_back(r: RecordModel)
    requires
        plain_text(r.ts),
        plain_text(r.track),
        plain_text(r.slug),
    ensures
        records_of(lines(history_text(r))) == seq![r],
{
    let segs = record_segs(r);
    let w = cat(segs);
    lemma_history_text_segs(r);
    lemma_record_of_segs(r);
    lemma_segs_of_record(r);
    lemma_record_offsets(segs);
    assert forall|i: int| 0 <= i < segs.len() implies !has_char(#[trigger] segs[i], '\n') by {
        if has_char(segs[i], '\n') {
            let x = choose|x: int| 0 <= x < segs[i].len() && segs[i][x] == '\n';
            if i == 7 {
                match r.estimate {
                    Some(n) => {
                        lemma_decimal(n as nat);
                        assert(is_digit(segs[i][x]));
                    },
                    None => {},
                }
            } else if i == 9 {
                lemma_decimal(r.actual_turns as nat);
                assert(is_digit(segs[i][x]));
            } else if i == 11 {
                reveal_strlit("done");
                reveal_strlit("blocked");
            }
        }
    }
    lemma_cat_no_char(segs, '\n');
    lemma_lines_cons(w, Seq::<char>::empty());
    assert(w + seq!['\n'] + Seq::<char>::empty() =~= w + seq!['\n']);
    assert(lines(Seq::<char>::empty()) == Seq::<Seq<char>>::empty());
    lemma_cat_piece(segs, 0);
    lemma_cat_piece(segs, 12);
    assert(w.subrange(0, 8)[0] == w[0]);
    assert(w[0] == '{');
    let o = cat_off(segs, 12);
    assert(w.subrange(o, o + 2)[1] == w[o + 1]);
    assert(w.last() == '}');
    assert(strip_cr(w) == w);
    lemma_trim_id(w);
    let ls = seq![w];
    assert(lines(history_text(r)) =~= ls);
    assert(ls.drop_last() =~= Seq::<Seq<char>>::empty());
    assert(records_of(ls.drop_last()) == Seq::<RecordModel>::empty());
    assert(records_of(ls) =~= seq![r]);
}

proof fn lemma_records_concat(a: Seq<Seq<char>>, b: Seq<Seq<char>>)
    ensures
        records_of(a + b) == records_of(a) + records_of(b),
    decreases b.len(),
{
    if b.len() == 0 {
        assert(a + b =~= a);
        assert(records_of(a) + records_of(b) =~= records_of(a));
    } else {
        lemma_records_concat(a, b.drop_last());
        assert((a + b).drop_last() =~= a + b.drop_last());
        assert((a + b).last() == b.last());
        if trim(b.last()).len() != 0 {
            assert(records_of(a) + records_of(b) =~= (records_of(a) + records_of(b.drop_last())).push(
                record_of(b.last()),
            ));
        }
    }
}

/// Appending the line that `history_line` writes to a history that is empty
/// or ends in a line break reads back as the history's records and then the
/// new one, when its time, track and slug hold no quote, backslash or control
/// character.
pub proof fn law_history_append(text: Seq<char>, r: RecordModel)
    requires
        text.len() == 0 || text.last() == '\n',
        plain_text(r.ts),
        plain_text(r.track),
        plain_text(r.slug),
    ensures
        records_of(lines(text + history_text(r))) == records_of(lines(text)).push(r),
{
    law_history_read_back(r);
    let h = history_text(r);
    if text.len() == 0 {
        assert(text + h =~= h);
        assert(lines(text) == Seq::<Seq<char>>::empty());
        assert(records_of(lines(text)).push(r) =~= seq![r]);
    } else {
        crate::text::lemma_lines_append(text, h);
        lemma_records_concat(lines(text), lines(h));
        assert(records_of(lines(text)) + seq![r] =~= records_of(lines(text)).push(r));
    }
}

} // verus!

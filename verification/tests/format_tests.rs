use driver::clock::{days_to_ymd, format_unix_seconds, iso_now};
use driver::json::{
    history_line, json_field, json_number, json_str, parse_history, runnable_json, task_json,
    task_json_compact, HistoryRecord, HistoryStatus,
};
use driver::paths::{active_path, history_path, hook_status, principles_path, questions_path, HookStatus};
use driver::plan::Task;
use driver::stats::{completed_records, middle_pair, sorted_turn_counts, total_turns};
use driver::wrap::textwrap_simple;

fn strings(v: &[&str]) -> Vec<String> {
    v.iter().map(|s| s.to_string()).collect()
}

fn sample_task() -> Task {
    Task {
        done: false,
        slug: "a".to_string(),
        estimate: Some(2),
        depends: strings(&["x", "y"]),
        line: 3,
        description: "Do \"it\".".to_string(),
    }
}

fn record(ts: &str, track: &str, turns: u32, status: HistoryStatus) -> HistoryRecord {
    HistoryRecord {
        ts: ts.to_string(),
        track: track.to_string(),
        slug: format!("{track}-{ts}"),
        estimate: None,
        actual_turns: turns,
        status,
    }
}

#[test]
fn wrap_greedy_by_bytes() {
    assert_eq!(textwrap_simple("aaa bbb ccc", 7), strings(&["aaa bbb", "ccc"]));
    assert_eq!(textwrap_simple("ab cd", 5), strings(&["ab cd"]));
    assert_eq!(textwrap_simple("abcdefghij x", 5), strings(&["abcdefghij", "x"]));
    assert_eq!(textwrap_simple("  \t ", 5), Vec::<String>::new());
    assert_eq!(textwrap_simple("\u{e9}\u{e9}\u{e9} a", 5), strings(&["\u{e9}\u{e9}\u{e9}", "a"]));
    assert_eq!(textwrap_simple("one  two\nthree", 76), strings(&["one two three"]));
}

#[test]
fn json_string_escapes() {
    assert_eq!(json_str("plain"), "\"plain\"");
    assert_eq!(json_str("a\"b\\c\n\r\t"), "\"a\\\"b\\\\c\\n\\r\\t\"");
    assert_eq!(json_str("\u{1}\u{1f}"), "\"\\u0001\\u001f\"");
    assert_eq!(json_str(""), "\"\"");
    assert_eq!(json_str("\u{2014}"), "\"\u{2014}\"");
}

#[test]
fn task_json_layout() {
    let t = sample_task();
    assert_eq!(
        task_json("t1", &t, false),
        "{\n  \"track_id\": \"t1\",\n  \"slug\": \"a\",\n  \"estimate\": 2,\n  \"depends\": [\"x\", \"y\"],\n  \"description\": \"Do \\\"it\\\".\"\n}\n"
    );
    let mut u = sample_task();
    u.estimate = None;
    u.depends = Vec::new();
    assert_eq!(
        task_json("t1", &u, true),
        "{\n  \"track_id\": \"t1\",\n  \"slug\": \"a\",\n  \"depends\": [],\n  \"description\": \"Do \\\"it\\\".\"\n}\n"
    );
}

#[test]
fn task_json_compact_layout() {
    let t = sample_task();
    assert_eq!(
        task_json_compact(&t),
        "{\"slug\": \"a\", \"estimate\": 2, \"depends\": [\"x\", \"y\"], \"description\": \"Do \\\"it\\\".\"}"
    );
    let mut u = sample_task();
    u.estimate = None;
    u.depends = Vec::new();
    assert_eq!(
        task_json_compact(&u),
        "{\"slug\": \"a\", \"estimate\": null, \"depends\": [], \"description\": \"Do \\\"it\\\".\"}"
    );
}

#[test]
fn runnable_json_layout() {
    let tasks = vec![sample_task(), sample_task()];
    let one = task_json_compact(&tasks[0]);
    assert_eq!(
        runnable_json("t1", &tasks, &[0, 1]),
        format!("{{\"track_id\": \"t1\", \"runnable\": [\n  {one},\n  {one}\n]}}\n")
    );
    assert_eq!(runnable_json("t1", &tasks, &[]), "{\"track_id\": \"t1\", \"runnable\": [\n]}\n");
}

#[test]
fn unix_seconds_as_iso_dates() {
    assert_eq!(format_unix_seconds(0), "1970-01-01T00:00:00Z");
    assert_eq!(format_unix_seconds(86399), "1970-01-01T23:59:59Z");
    assert_eq!(format_unix_seconds(951782400), "2000-02-29T00:00:00Z");
    assert_eq!(format_unix_seconds(1725029869), "2024-08-30T14:57:49Z");
    assert_eq!(format_unix_seconds(4102444800), "2100-01-01T00:00:00Z");
    assert_eq!(format_unix_seconds(253402300799), "9999-12-31T23:59:59Z");
    assert_eq!(format_unix_seconds(u64::MAX), "584554051223-11-09T07:00:15Z");
}

#[test]
fn civil_dates_from_day_numbers() {
    assert_eq!(days_to_ymd(0), (0, 3, 1));
    assert_eq!(days_to_ymd(719468), (1970, 1, 1));
    assert_eq!(days_to_ymd(-1), (0, 2, 29));
    assert_eq!(days_to_ymd(-719468), (-1970, 4, 30));
}

#[test]
fn now_is_an_iso_timestamp() {
    let s = iso_now();
    let c: Vec<char> = s.chars().collect();
    assert_eq!(c.len(), 20);
    assert_eq!(c[4], '-');
    assert_eq!(c[7], '-');
    assert_eq!(c[10], 'T');
    assert_eq!(c[13], ':');
    assert_eq!(c[16], ':');
    assert_eq!(c[19], 'Z');
    assert!(s.as_str() > "2020");
}

#[test]
fn driver_paths() {
    assert_eq!(active_path("/p/driver"), "/p/driver/.active");
    assert_eq!(active_path("/p/driver/"), "/p/driver/.active");
    assert_eq!(history_path("/p/driver"), "/p/driver/.history.jsonl");
    assert_eq!(principles_path("driver"), "driver/principles.md");
    assert_eq!(questions_path("/p/driver", "t1", "a"), "/p/driver/tracks/t1/a_questions.md");
    assert_eq!(questions_path("/p/driver", "t1", "/x"), "/x_questions.md");
    assert_eq!(questions_path("/p/driver", "/abs", "a"), "/abs/a_questions.md");
}

#[test]
fn stop_hook_detection() {
    let good = "{\"hooks\": {\"Stop\": [{\"hooks\": [{\"command\": \"driver gate\"}]}]}}";
    assert_eq!(hook_status(good, "/usr/bin/driver"), HookStatus::Installed);
    let bin = "{\"Stop\": [{\"command\": \"/opt/d gate\"}]}";
    assert_eq!(hook_status(bin, "/opt/d"), HookStatus::Installed);
    assert_eq!(hook_status(bin, "/other"), HookStatus::StopWithoutGate);
    assert_eq!(hook_status("{}", "/opt/d"), HookStatus::NoStopHook);
    assert_eq!(hook_status("driver gate", "/opt/d"), HookStatus::NoStopHook);
}

#[test]
fn history_line_layout() {
    let rec = HistoryRecord {
        ts: "2024-01-01T00:00:00Z".to_string(),
        track: "t1".to_string(),
        slug: "a".to_string(),
        estimate: Some(3),
        actual_turns: 5,
        status: HistoryStatus::Done,
    };
    assert_eq!(
        history_line(&rec),
        "{\"ts\": \"2024-01-01T00:00:00Z\", \"track\": \"t1\", \"slug\": \"a\", \"estimate\": 3, \"actual_turns\": 5, \"status\": \"done\"}\n"
    );
    let blocked = HistoryRecord { estimate: None, status: HistoryStatus::Blocked, ..rec };
    assert_eq!(
        history_line(&blocked),
        "{\"ts\": \"2024-01-01T00:00:00Z\", \"track\": \"t1\", \"slug\": \"a\", \"estimate\": null, \"actual_turns\": 5, \"status\": \"blocked\"}\n"
    );
}

#[test]
fn history_reads_back_what_was_written() {
    let rec = HistoryRecord {
        ts: "2024-01-01T00:00:00Z".to_string(),
        track: "t1".to_string(),
        slug: "a".to_string(),
        estimate: Some(3),
        actual_turns: 5,
        status: HistoryStatus::Blocked,
    };
    let text = format!("{}\n   \n{}", history_line(&rec), history_line(&rec));
    let back = parse_history(&text);
    assert_eq!(back.len(), 2);
    for r in &back {
        assert_eq!(r.ts, rec.ts);
        assert_eq!(r.track, "t1");
        assert_eq!(r.slug, "a");
        assert_eq!(r.estimate, Some(3));
        assert_eq!(r.actual_turns, 5);
        assert_eq!(r.status, HistoryStatus::Blocked);
    }
}

#[test]
fn history_fields_default() {
    let back = parse_history("{\"status\": \"weird\"}\n");
    assert_eq!(back.len(), 1);
    assert_eq!(back[0].ts, "");
    assert_eq!(back[0].estimate, None);
    assert_eq!(back[0].actual_turns, 0);
    assert_eq!(back[0].status, HistoryStatus::Done);
    assert!(parse_history("").is_empty());
}

#[test]
fn json_fields_and_numbers() {
    let line = "{\"ts\": \"x\", \"n\": 5, \"e\": null, \"last\": 7}";
    assert_eq!(json_field(line, "ts"), Some("x".to_string()));
    assert_eq!(json_field(line, "n"), None);
    assert_eq!(json_field(line, "missing"), None);
    assert_eq!(json_number(line, "n"), Some(5));
    assert_eq!(json_number(line, "e"), None);
    assert_eq!(json_number(line, "last"), Some(7));
    assert_eq!(json_number(line, "ts"), None);
    assert_eq!(json_field("\"k\": \"open", "k"), None);
}

#[test]
fn stats_reads_done_records_in_time_order() {
    let records = vec![
        record("b", "t1", 4, HistoryStatus::Done),
        record("a", "t2", 2, HistoryStatus::Done),
        record("a", "t1", 9, HistoryStatus::Blocked),
        record("a", "t1", 6, HistoryStatus::Done),
    ];
    let all: Vec<HistoryRecord> = records
        .iter()
        .map(|r| HistoryRecord {
            ts: r.ts.clone(),
            track: r.track.clone(),
            slug: r.slug.clone(),
            estimate: r.estimate,
            actual_turns: r.actual_turns,
            status: r.status,
        })
        .collect();
    let sorted = completed_records(all, None);
    let order: Vec<(String, String, u32)> =
        sorted.iter().map(|r| (r.ts.clone(), r.track.clone(), r.actual_turns)).collect();
    assert_eq!(
        order,
        vec![
            ("a".to_string(), "t2".to_string(), 2),
            ("a".to_string(), "t1".to_string(), 6),
            ("b".to_string(), "t1".to_string(), 4),
        ]
    );
    let t1 = completed_records(records, Some("t1"));
    let turns: Vec<u32> = t1.iter().map(|r| r.actual_turns).collect();
    assert_eq!(turns, vec![6, 4]);
    assert_eq!(total_turns(&t1), Some(10));
    assert_eq!(sorted_turn_counts(&t1), vec![4, 6]);
}

#[test]
fn stats_totals_and_middles() {
    let recs = vec![
        record("a", "t", 5, HistoryStatus::Done),
        record("b", "t", 1, HistoryStatus::Done),
        record("c", "t", 3, HistoryStatus::Done),
    ];
    assert_eq!(total_turns(&recs), Some(9));
    let sorted = sorted_turn_counts(&recs);
    assert_eq!(sorted, vec![1, 3, 5]);
    assert_eq!(middle_pair(&sorted), (3, 3));
    assert_eq!(middle_pair(&[1, 3, 5, 7]), (3, 5));
    let big = vec![record("a", "t", u32::MAX, HistoryStatus::Done), record("b", "t", 1, HistoryStatus::Done)];
    assert_eq!(total_turns(&big), None);
    assert_eq!(total_turns(&[]), Some(0));
}

#[test]
fn lexicographic_time_order_puts_prefixes_first() {
    let records = vec![
        record("2024-01-10", "t", 1, HistoryStatus::Done),
        record("2024-01-1", "t", 2, HistoryStatus::Done),
        record("2024-01-02", "t", 3, HistoryStatus::Done),
    ];
    let sorted = completed_records(records, None);
    let ts: Vec<&str> = sorted.iter().map(|r| r.ts.as_str()).collect();
    assert_eq!(ts, vec!["2024-01-02", "2024-01-1", "2024-01-10"]);
}

fn read_json_string(t: &str) -> Option<String> {
    let cs: Vec<char> = t.chars().collect();
    if cs.len() < 2 || cs[0] != '"' || cs[cs.len() - 1] != '"' {
        return None;
    }
    let body = &cs[1..cs.len() - 1];
    let mut out = String::new();
    let mut i = 0;
    while i < body.len() {
        let c = body[i];
        if c == '"' || (c as u32) < 0x20 {
            return None;
        }
        if c != '\\' {
            out.push(c);
            i += 1;
            continue;
        }
        let e = *body.get(i + 1)?;
        match e {
            '"' => out.push('"'),
            '\\' => out.push('\\'),
            '/' => out.push('/'),
            'b' => out.push('\u{8}'),
            'f' => out.push('\u{c}'),
            'n' => out.push('\n'),
            'r' => out.push('\r'),
            't' => out.push('\t'),
            'u' => {
                let hex: String = body.get(i + 2..i + 6)?.iter().collect();
                let n = u32::from_str_radix(&hex, 16).ok()?;
                out.push(char::from_u32(n)?);
                i += 6;
                continue;
            }
            _ => return None,
        }
        i += 2;
    }
    Some(out)
}

#[test]
fn json_strings_read_back_as_their_input() {
    for s in ["plain", "a\"b\\c\n\r\t", "\u{1}\u{1f}\u{7f}", "", "\u{2014} / x"] {
        let t = json_str(s);
        assert_eq!(read_json_string(&t), Some(s.to_string()));
    }
}

#[test]
fn next_day_numbers_are_next_calendar_days() {
    assert_eq!(days_to_ymd(739249), (2024, 2, 28));
    assert_eq!(days_to_ymd(739250), (2024, 2, 29));
    assert_eq!(days_to_ymd(739251), (2024, 3, 1));
    assert_eq!(days_to_ymd(738884), (2023, 2, 28));
    assert_eq!(days_to_ymd(738885), (2023, 3, 1));
    assert_eq!(days_to_ymd(730424), (1999, 12, 31));
    assert_eq!(days_to_ymd(730425), (2000, 1, 1));
    assert_eq!(days_to_ymd(730484), (2000, 2, 29));
    assert_eq!(days_to_ymd(693959), (1900, 2, 28));
    assert_eq!(days_to_ymd(693960), (1900, 3, 1));
}

#[test]
fn appending_to_the_history_adds_one_record() {
    let r1 = record("2024-01-01T00:00:00Z", "t1", 4, HistoryStatus::Done);
    let mut r2 = record("2024-01-02T00:00:00Z", "t2", 7, HistoryStatus::Blocked);
    r2.estimate = Some(5);
    let mut text = String::new();
    assert!(parse_history(&text).is_empty());
    text.push_str(&history_line(&r1));
    let one = parse_history(&text);
    assert_eq!(one.len(), 1);
    text.push_str(&history_line(&r2));
    let two = parse_history(&text);
    assert_eq!(two.len(), 2);
    assert_eq!(two[0].ts, one[0].ts);
    assert_eq!(two[0].slug, r1.slug);
    assert_eq!(two[0].actual_turns, 4);
    assert_eq!(two[0].status, HistoryStatus::Done);
    assert_eq!(two[1].ts, r2.ts);
    assert_eq!(two[1].track, "t2");
    assert_eq!(two[1].slug, r2.slug);
    assert_eq!(two[1].estimate, Some(5));
    assert_eq!(two[1].actual_turns, 7);
    assert_eq!(two[1].status, HistoryStatus::Blocked);
}

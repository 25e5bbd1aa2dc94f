use driver::claim::{
    active_body, check_claim, claim_matches, gate_decision, parse_active, ActiveClaim,
    ClaimRefusal, GateAction, PlanCheck, Warn,
};
use driver::listing::{questions_footer, questions_listing};
use driver::plan::Task;
use driver::questions::{
    answer_question, ask_text, enforce_tick_gates, matches_glob, needs_touched_files,
    next_question_index, parse_principles, parse_questions, rule_known, PrincipleRule, Question,
    TickRefusal,
};
use driver::tracks::{
    close_decision, close_tracks_text, find_track_exec, parse_tracks, question_tracks,
    resolve_track, CloseDecision, ResolveError, TrackEntry,
};
use driver::vcs::{head_commit, touched_files};

fn strings(v: &[&str]) -> Vec<String> {
    v.iter().map(|s| s.to_string()).collect()
}

fn claim(turn: u32, max_turns: u32) -> ActiveClaim {
    ActiveClaim {
        track: "t1".to_string(),
        slug: "a".to_string(),
        max_turns,
        turn,
        started_at: "2024-01-01T00:00:00Z".to_string(),
        start_commit: "abc123".to_string(),
    }
}

fn task(slug: &str, done: bool) -> Task {
    Task {
        done,
        slug: slug.to_string(),
        estimate: None,
        depends: Vec::new(),
        line: 0,
        description: String::new(),
    }
}

fn entry(id: &str, done: bool) -> TrackEntry {
    TrackEntry { done, id: id.to_string(), summary: String::new() }
}

fn rule(name: &str, glob: &str) -> PrincipleRule {
    PrincipleRule { name: name.to_string(), glob: glob.to_string(), description: String::new() }
}

fn question(index: u32, rule: Option<&str>, answered: bool) -> Question {
    Question {
        index,
        summary: format!("question {index}"),
        rule: rule.map(String::from),
        context: String::new(),
        answered,
    }
}

const CLAIM_TEXT: &str = "track=t1\nslug=a\nmax_turns=10\nturn=3\nstarted_at=2024-01-01T00:00:00Z\nstart_commit=abc123\n";

#[test]
fn claim_file_layout() {
    assert_eq!(
        active_body(&claim(3, 10)),
        CLAIM_TEXT
    );
}

#[test]
fn claim_file_reads_back() {
    let c = parse_active(&active_body(&claim(3, 10))).unwrap();
    assert_eq!(c.track, "t1");
    assert_eq!(c.slug, "a");
    assert_eq!(c.max_turns, 10);
    assert_eq!(c.turn, 3);
    assert_eq!(c.started_at, "2024-01-01T00:00:00Z");
    assert_eq!(c.start_commit, "abc123");
}

#[test]
fn claim_file_defaults_and_refusals() {
    let c = parse_active("  track = t2 \nslug=b\nmax_turns=lots\nturn=-1\nnoise\nother=1\n").unwrap();
    assert_eq!(c.track, "t2");
    assert_eq!(c.slug, "b");
    assert_eq!(c.max_turns, 50);
    assert_eq!(c.turn, 0);
    assert_eq!(c.started_at, "");
    assert!(parse_active("track=t1\n").is_none());
    assert!(parse_active("track=t1\nslug=  \n").is_none());
    assert!(parse_active("").is_none());
    let later = parse_active("track=a\nslug=b\ntrack=c\nstart_commit=x=y\n").unwrap();
    assert_eq!(later.track, "c");
    assert_eq!(later.start_commit, "x=y");
}

#[test]
fn claim_matching() {
    assert!(claim_matches(&Some(claim(0, 5)), "t1", "a"));
    assert!(!claim_matches(&Some(claim(0, 5)), "t1", "b"));
    assert!(!claim_matches(&None, "t1", "a"));
}

#[test]
fn gate_without_claim_allows_stop() {
    assert!(matches!(gate_decision(None, PlanCheck::Open, false), GateAction::Allow));
}

#[test]
fn gate_releases_done_gone_or_blocked_tasks() {
    assert!(matches!(gate_decision(Some(claim(1, 5)), PlanCheck::Done, false), GateAction::Release));
    assert!(matches!(gate_decision(Some(claim(1, 5)), PlanCheck::Missing, false), GateAction::Release));
    assert!(matches!(gate_decision(Some(claim(1, 5)), PlanCheck::Open, true), GateAction::Release));
    assert!(matches!(
        gate_decision(Some(claim(1, 5)), PlanCheck::Unreadable, true),
        GateAction::Release
    ));
}

#[test]
fn gate_counts_turns_and_warns() {
    match gate_decision(Some(claim(0, 50)), PlanCheck::Open, false) {
        GateAction::Continue(c, w) => {
            assert_eq!(c.turn, 1);
            assert_eq!(w, Warn::Calm);
        }
        other => panic!("unexpected {:?}", other),
    }
    match gate_decision(Some(claim(37, 50)), PlanCheck::Unreadable, false) {
        GateAction::Continue(c, w) => {
            assert_eq!(c.turn, 38);
            assert_eq!(w, Warn::Over75);
        }
        other => panic!("unexpected {:?}", other),
    }
    match gate_decision(Some(claim(44, 50)), PlanCheck::Open, false) {
        GateAction::Continue(c, w) => {
            assert_eq!(c.turn, 45);
            assert_eq!(w, Warn::NearBudget);
        }
        other => panic!("unexpected {:?}", other),
    }
    match gate_decision(Some(claim(4, 5)), PlanCheck::Open, false) {
        GateAction::Continue(c, w) => {
            assert_eq!(c.turn, 5);
            assert_eq!(w, Warn::NearBudget);
        }
        other => panic!("unexpected {:?}", other),
    }
}

#[test]
fn gate_releases_over_budget() {
    match gate_decision(Some(claim(50, 50)), PlanCheck::Open, false) {
        GateAction::OverBudget(c) => {
            assert_eq!(c.turn, 51);
            assert_eq!(c.max_turns, 50);
        }
        other => panic!("unexpected {:?}", other),
    }
}

#[test]
fn principles_rules() {
    let text = "# Principles\n\nSome prose.\n\n- name: core-ir\n  glob: src/core_ir.rs\n  description: any change to CoreIr types\n- name: dropped\n- name: evals\n  glob: testdata/eval/*.json\n";
    let rules = parse_principles(text);
    assert_eq!(rules.len(), 2);
    assert_eq!(rules[0].name, "core-ir");
    assert_eq!(rules[0].glob, "src/core_ir.rs");
    assert_eq!(rules[0].description, "any change to CoreIr types");
    assert_eq!(rules[1].name, "evals");
    assert_eq!(rules[1].glob, "testdata/eval/*.json");
    assert_eq!(rules[1].description, "");
    assert!(rule_known(&rules, "evals"));
    assert!(!rule_known(&rules, "dropped"));
    assert!(parse_principles("").is_empty());
}

#[test]
fn globs_with_one_star() {
    assert!(matches_glob("src/core_ir.rs", "src/core_ir.rs"));
    assert!(!matches_glob("src/core_ir.rs.bak", "src/core_ir.rs"));
    assert!(matches_glob("testdata/eval/x.json", "testdata/eval/*.json"));
    assert!(!matches_glob("testdata/eval/sub/x.json", "testdata/eval/*.json"));
    assert!(matches_glob("ab", "a*b"));
    assert!(!matches_glob("a", "a*a"));
    assert!(matches_glob("axb*c", "a*b*c"));
    assert!(!matches_glob("axb.c", "a*b*c"));
}

const QUESTIONS: &str = "# Open questions \u{2014} a\n\nAnswer each by replacing `_pending_` with your decision; re-run `/driver:go` or `/driver:do` to resume.\n\n## Q1: Which schema?\n**rule:** core-ir\n**context:** We need to pick.\nmore context\n**answer:** _pending_\n\n## Q2: Naming?\n**rule:** (self-classified)\n**answer:** use foo\n";

#[test]
fn questions_file_parses() {
    let qs = parse_questions(QUESTIONS).unwrap();
    assert_eq!(qs.len(), 2);
    assert_eq!(qs[0].index, 1);
    assert_eq!(qs[0].summary, "Which schema?");
    assert_eq!(qs[0].rule, Some("core-ir".to_string()));
    assert_eq!(qs[0].context, "We need to pick.\n more context");
    assert!(!qs[0].answered);
    assert_eq!(qs[1].index, 2);
    assert_eq!(qs[1].summary, "Naming?");
    assert_eq!(qs[1].rule, None);
    assert_eq!(qs[1].context, "");
    assert!(qs[1].answered);
    assert_eq!(next_question_index(&qs), Some(3));
    assert_eq!(next_question_index(&[]), Some(1));
}

#[test]
fn question_headers_without_numbers_count_on() {
    let qs = parse_questions("## Q7\n**answer:**\n## Qx: later\n").unwrap();
    assert_eq!(qs.len(), 2);
    assert_eq!(qs[0].index, 7);
    assert_eq!(qs[0].summary, "");
    assert!(!qs[0].answered);
    assert_eq!(qs[1].index, 8);
    assert_eq!(qs[1].summary, "later");
}

#[test]
fn answering_replaces_the_pending_line() {
    let out = answer_question(QUESTIONS, 1, "  pick v2 ").unwrap();
    assert_eq!(out, QUESTIONS.replacen("**answer:** _pending_", "**answer:** pick v2", 1));
    let qs = parse_questions(&out).unwrap();
    assert!(qs[0].answered);
    let again = answer_question(&out, 1, "pick v3").unwrap();
    assert_eq!(again, QUESTIONS.replacen("**answer:** _pending_", "**answer:** pick v3", 1));
    assert!(answer_question(QUESTIONS, 3, "x").is_none());
    assert!(answer_question("## Q1: no answer line\n", 1, "x").is_none());
    let q10 = "## Q10: ten\n**answer:** _pending_\n## Q1: one\n**answer:** _pending_";
    assert_eq!(
        answer_question(q10, 1, "yes").unwrap(),
        "## Q10: ten\n**answer:** _pending_\n## Q1: one\n**answer:** yes"
    );
}

#[test]
fn asking_appends_a_question_block() {
    let fresh = ask_text(None, "a", 1, " Which? ", Some("core-ir"), Some(" ctx "));
    assert_eq!(
        fresh,
        "# Open questions \u{2014} a\n\nAnswer each by replacing `_pending_` with your decision; re-run `/driver:go` or `/driver:do` to resume.\n\n## Q1: Which?\n**rule:** core-ir\n**context:** ctx\n**answer:** _pending_\n"
    );
    let more = ask_text(Some("existing"), "a", 4, "Next?", None, None);
    assert_eq!(more, "existing\n\n## Q4: Next?\n**rule:** (self-classified)\n**answer:** _pending_\n");
    let qs = parse_questions(&fresh).unwrap();
    assert_eq!(qs.len(), 1);
    assert_eq!(qs[0].index, 1);
    assert_eq!(qs[0].rule, Some("core-ir".to_string()));
    assert_eq!(qs[0].context, "ctx");
    assert!(!qs[0].answered);
}

#[test]
fn tick_refused_when_a_rule_trips() {
    let rules = vec![rule("core-ir", "src/core_ir.rs"), rule("evals", "testdata/eval/*.json")];
    let touched = strings(&[
        "testdata/eval/a.json",
        "README.md",
        "testdata/eval/b.json",
        "testdata/eval/c.json",
        "testdata/eval/d.json",
    ]);
    assert!(needs_touched_files(&rules, Some("abc")));
    match enforce_tick_gates(&rules, &[], Some("abc"), &touched) {
        Err(TickRefusal::RuleTripped { rule, touched }) => {
            assert_eq!(rule, "evals");
            assert_eq!(
                touched,
                strings(&["testdata/eval/a.json", "testdata/eval/b.json", "testdata/eval/c.json"])
            );
        }
        other => panic!("unexpected {:?}", other),
    }
    let tagged = vec![question(1, Some("evals"), true)];
    assert!(enforce_tick_gates(&rules, &tagged, Some("abc"), &touched).is_ok());
}

#[test]
fn rule_floor_needs_rules_and_a_start_commit() {
    let rules = vec![rule("evals", "testdata/eval/*.json")];
    let touched = strings(&["testdata/eval/a.json"]);
    assert!(!needs_touched_files(&rules, Some("")));
    assert!(!needs_touched_files(&rules, None));
    assert!(!needs_touched_files(&[], Some("abc")));
    assert!(enforce_tick_gates(&rules, &[], None, &touched).is_ok());
    assert!(enforce_tick_gates(&rules, &[], Some(""), &touched).is_ok());
    assert!(enforce_tick_gates(&[], &[], Some("abc"), &touched).is_ok());
}

#[test]
fn tick_refused_while_questions_are_pending() {
    let qs = vec![
        question(1, None, false),
        question(2, None, true),
        question(3, None, false),
        question(4, None, false),
        question(5, None, false),
    ];
    match enforce_tick_gates(&[], &qs, None, &[]) {
        Err(TickRefusal::Unanswered { count, preview }) => {
            assert_eq!(count, 4);
            assert_eq!(
                preview,
                vec![
                    (1, "question 1".to_string()),
                    (3, "question 3".to_string()),
                    (4, "question 4".to_string()),
                ]
            );
        }
        other => panic!("unexpected {:?}", other),
    }
}

const TRACKS: &str = "# Tracks\n\n- [ ] [20240101-foo](tracks/20240101-foo/) \u{2014} Foo things\n  - [x] [20231201-bar](tracks/20231201-bar/) \u{2014} Bar\n- not a track\n- [ ] []\n- [ ] [baz]\n";

#[test]
fn registry_lists_tracks() {
    let tracks = parse_tracks(TRACKS);
    assert_eq!(tracks.len(), 3);
    assert_eq!(tracks[0].id, "20240101-foo");
    assert!(!tracks[0].done);
    assert_eq!(tracks[0].summary, "Foo things");
    assert_eq!(tracks[1].id, "20231201-bar");
    assert!(tracks[1].done);
    assert_eq!(tracks[1].summary, "Bar");
    assert_eq!(tracks[2].id, "baz");
    assert_eq!(tracks[2].summary, "");
    assert_eq!(find_track_exec(&tracks, "baz"), Some(2));
    assert_eq!(find_track_exec(&tracks, "nope"), None);
}

#[test]
fn closing_flips_only_that_track() {
    let out = close_tracks_text(TRACKS, "20240101-foo");
    assert_eq!(out, TRACKS.replacen("- [ ] [20240101-foo]", "- [x] [20240101-foo]", 1));
    let unchanged = close_tracks_text(TRACKS, "20231201-bar");
    assert_eq!(unchanged, TRACKS);
    assert_eq!(close_tracks_text("- [ ] [a]", "a"), "- [x] [a]");
}

#[test]
fn close_needs_every_task_done() {
    let tracks = vec![entry("t1", false), entry("t2", true)];
    match close_decision(&[task("a", true), task("b", false), task("c", false)], &tracks, "t1") {
        CloseDecision::OpenTasks(open) => assert_eq!(open, strings(&["b", "c"])),
        other => panic!("unexpected {:?}", other),
    }
    assert!(matches!(close_decision(&[task("a", true)], &tracks, "t1"), CloseDecision::Close));
    assert!(matches!(close_decision(&[task("a", true)], &tracks, "t2"), CloseDecision::AlreadyClosed));
    assert!(matches!(close_decision(&[], &tracks, "t9"), CloseDecision::NotListed));
}

#[test]
fn resolving_a_track() {
    let tracks = vec![entry("t1", false), entry("t2", true), entry("t3", false), entry("t4", false)];
    assert_eq!(resolve_track(&tracks, Some("t2"), &[None; 4]), Ok("t2".to_string()));
    assert_eq!(resolve_track(&tracks, Some("zz"), &[None; 4]), Err(ResolveError::NoSuchTrack));
    assert_eq!(
        resolve_track(&tracks, None, &[Some(5), Some(100), Some(9), Some(7)]),
        Ok("t3".to_string())
    );
    assert_eq!(
        resolve_track(&tracks, None, &[Some(9), None, Some(9), Some(2)]),
        Ok("t3".to_string())
    );
    assert_eq!(resolve_track(&tracks, None, &[None; 4]), Err(ResolveError::CouldNotStat));
    let one = vec![entry("t1", true), entry("t2", false)];
    assert_eq!(resolve_track(&one, None, &[None, None]), Ok("t2".to_string()));
    let none = vec![entry("t1", true)];
    assert_eq!(resolve_track(&none, None, &[Some(1)]), Err(ResolveError::NoOpenTracks));
    assert_eq!(resolve_track(&[], None, &[]), Err(ResolveError::NoOpenTracks));
}

#[test]
fn claims_need_an_open_task_and_no_other_claim() {
    let tasks = vec![task("a", true), task("b", false), task("b", true)];
    assert_eq!(check_claim(&tasks, "z", &None), Err(ClaimRefusal::NoSuchTask));
    assert_eq!(check_claim(&tasks, "a", &None), Err(ClaimRefusal::AlreadyDone));
    assert_eq!(check_claim(&tasks, "b", &None), Ok(1));
    assert_eq!(check_claim(&tasks, "b", &Some(claim(0, 5))), Err(ClaimRefusal::AlreadyClaimed));
    assert_eq!(check_claim(&tasks, "a", &Some(claim(0, 5))), Err(ClaimRefusal::AlreadyDone));
}

#[test]
fn question_listing_picks_tracks() {
    let tracks = vec![entry("t1", false), entry("t2", true), entry("t3", false)];
    assert_eq!(question_tracks(&tracks, None), Some(strings(&["t1", "t3"])));
    assert_eq!(question_tracks(&tracks, Some("t2")), Some(strings(&["t2"])));
    assert_eq!(question_tracks(&tracks, Some("t9")), None);
    assert_eq!(question_tracks(&[], None), Some(Vec::new()));
}

#[test]
fn git_output_is_read() {
    assert_eq!(head_commit("0123abcd\n"), Some("0123abcd".to_string()));
    assert_eq!(head_commit("  \n"), None);
    assert_eq!(
        touched_files("src/a.rs\n  src/b.rs \n\nREADME.md"),
        strings(&["src/a.rs", "src/b.rs", "README.md"])
    );
    assert!(touched_files("").is_empty());
}

#[test]
fn answering_twice_keeps_only_the_second_answer() {
    let once = answer_question(QUESTIONS, 1, "first").unwrap();
    let twice = answer_question(&once, 1, "second").unwrap();
    assert_eq!(twice, answer_question(QUESTIONS, 1, "second").unwrap());
}

#[test]
fn claim_with_spaces_at_the_ends_is_read_back_trimmed() {
    let mut c = claim(1, 2);
    c.track = " t1".to_string();
    let back = parse_active(&active_body(&c)).unwrap();
    assert_eq!(back.track, "t1");
}

#[test]
fn a_claim_holds_for_at_most_its_budget() {
    let mut stored = Some(claim(1, 4));
    let mut continues = 0;
    for _ in 0..6 {
        match gate_decision(stored.take(), PlanCheck::Open, false) {
            GateAction::Continue(c, _) => {
                continues += 1;
                assert_eq!(c.turn, 1 + continues);
                stored = Some(c);
            }
            GateAction::OverBudget(c) => {
                assert_eq!(c.turn, 5);
                stored = None;
            }
            GateAction::Allow => assert!(stored.is_none()),
            GateAction::Release => panic!("the task is open"),
        }
    }
    assert_eq!(continues, 3);
    assert!(stored.is_none());
}

#[test]
fn questions_are_listed_with_marks_rules_and_context() {
    let mut q1 = question(1, Some("api"), true);
    q1.context = "why this matters".to_string();
    let q2 = question(2, None, false);
    let (lines, open) = questions_listing("t1", "a", &[q1, q2]);
    assert_eq!(
        lines,
        strings(&[
            "[t1/a]",
            "  \u{2713} Q1 (api): question 1",
            "      why this matters",
            "  \u{b7} Q2: question 2",
        ])
    );
    assert_eq!(open, 1);
    let (none, zero) = questions_listing("t1", "b", &[]);
    assert!(none.is_empty());
    assert_eq!(zero, 0);
    assert_eq!(questions_footer(0, 0), "No open questions.");
    assert_eq!(questions_footer(2, 1), "\n2 question(s) total, 1 unanswered.");
}

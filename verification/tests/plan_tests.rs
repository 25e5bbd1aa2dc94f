use driver::dag::{
    blocked_entry, blocked_file_text, directly_blocked, has_blockers, is_runnable, marker, next_runnable, runnable_indices,
    task_status, track_summary, transitive_blockers, Marker, TaskStatus,
};
use driver::edits::{
    check_rename, find_task, rename_line, render_plan, rewrite_depends, slug_file_renames,
    tick_line, RenameError,
};
use driver::plan::{parse_bold_slug, parse_depends, parse_estimate, parse_tasks, PlanError, Task};

fn lines(text: &str) -> Vec<String> {
    text.lines().map(String::from).collect()
}

fn task(slug: &str, done: bool, depends: &[&str]) -> Task {
    Task {
        done,
        slug: slug.to_string(),
        estimate: None,
        depends: depends.iter().map(|d| d.to_string()).collect(),
        line: 0,
        description: String::new(),
    }
}

fn strings(v: &[&str]) -> Vec<String> {
    v.iter().map(|s| s.to_string()).collect()
}

#[test]
fn bold_slug_splits_off_the_rest() {
    let (slug, rest) = parse_bold_slug("**add-parser** (~3 turns)").unwrap();
    assert_eq!(slug, "add-parser");
    assert_eq!(rest, " (~3 turns)");
    assert!(parse_bold_slug("add-parser").is_none());
    assert!(parse_bold_slug("**unclosed").is_none());
    let (slug, rest) = parse_bold_slug("****").unwrap();
    assert_eq!(slug, "");
    assert_eq!(rest, "");
}

#[test]
fn estimate_reads_the_first_parenthesis() {
    assert_eq!(parse_estimate(" (~3 turns) [depends: a]"), Some(3));
    assert_eq!(parse_estimate(" (~12 t)"), Some(12));
    assert_eq!(parse_estimate(" (~ 5 turns)"), Some(5));
    assert_eq!(parse_estimate(" (about three)"), None);
    assert_eq!(parse_estimate(" no estimate"), None);
    assert_eq!(parse_estimate(" (~7"), None);
    assert_eq!(parse_estimate(" ()"), None);
    assert_eq!(parse_estimate(" (~99999999999 turns)"), None);
}

#[test]
fn depends_lists_trimmed_non_empty_slugs() {
    assert_eq!(parse_depends(" [depends: a, b , ,c]"), strings(&["a", "b", "c"]));
    assert_eq!(parse_depends(" (~2 turns)"), Vec::<String>::new());
    assert_eq!(parse_depends(" [depends: a, b"), Vec::<String>::new());
    assert_eq!(parse_depends("[depends:]"), Vec::<String>::new());
}

#[test]
fn plan_tasks_with_descriptions() {
    let text = "# Track\n\nIntro.\n\n- [ ] **a** (~2 turns)\n  First part\n  second part.\n\n- [x] **b** [depends: a]\n- [ ] **c** (~5 t) [depends: a, b]\nnot indented\n";
    let tasks = parse_tasks(&lines(text)).unwrap();
    assert_eq!(tasks.len(), 3);
    assert_eq!(tasks[0].slug, "a");
    assert!(!tasks[0].done);
    assert_eq!(tasks[0].estimate, Some(2));
    assert!(tasks[0].depends.is_empty());
    assert_eq!(tasks[0].line, 4);
    assert_eq!(tasks[0].description, "First part second part.");
    assert_eq!(tasks[1].slug, "b");
    assert!(tasks[1].done);
    assert_eq!(tasks[1].estimate, None);
    assert_eq!(tasks[1].depends, strings(&["a"]));
    assert_eq!(tasks[1].line, 8);
    assert_eq!(tasks[2].slug, "c");
    assert_eq!(tasks[2].estimate, Some(5));
    assert_eq!(tasks[2].depends, strings(&["a", "b"]));
    assert_eq!(tasks[2].line, 9);
    assert_eq!(tasks[2].description, "");
}

#[test]
fn indented_checkbox_is_a_task() {
    let tasks = parse_tasks(&lines("  - [ ] **x**\n    more")).unwrap();
    assert_eq!(tasks.len(), 1);
    assert_eq!(tasks[0].slug, "x");
    assert_eq!(tasks[0].description, "more");
}

#[test]
fn plan_without_slug_is_refused_with_its_line() {
    match parse_tasks(&lines("# T\n- [ ] no slug here")) {
        Err(PlanError::MissingSlug { line }) => assert_eq!(line, 2),
        other => panic!("unexpected {:?}", other),
    }
}

#[test]
fn plan_with_unknown_dependency_is_refused() {
    match parse_tasks(&lines("- [ ] **a** [depends: z]\n- [ ] **b**")) {
        Err(PlanError::UnknownDependency { task, dep }) => {
            assert_eq!(task, "a");
            assert_eq!(dep, "z");
        }
        other => panic!("unexpected {:?}", other),
    }
}

#[test]
fn empty_plan_has_no_tasks() {
    assert!(parse_tasks(&[]).unwrap().is_empty());
}

#[test]
fn blocked_file_marks_a_task() {
    let files = strings(&["plan.md", "a_blocked.md", "b_design.md"]);
    assert!(directly_blocked(&files, "a"));
    assert!(!directly_blocked(&files, "b"));
    assert!(!directly_blocked(&[], "a"));
}

#[test]
fn blockers_follow_dependencies_in_breadth_first_order() {
    let tasks = vec![task("a", false, &[]), task("b", false, &["a"]), task("c", false, &["b"])];
    let files = strings(&["a_blocked.md", "b_blocked.md"]);
    let b = transitive_blockers(&files, &tasks);
    assert_eq!(b.len(), 3);
    assert_eq!(b[0], strings(&["a"]));
    assert_eq!(b[1], strings(&["b", "a"]));
    assert_eq!(b[2], strings(&["b", "a"]));
}

#[test]
fn blockers_of_a_diamond_are_listed_once() {
    let tasks = vec![
        task("a", false, &[]),
        task("b", false, &["a"]),
        task("c", false, &["a"]),
        task("d", false, &["b", "c"]),
        task("e", false, &[]),
    ];
    let files = strings(&["a_blocked.md"]);
    let b = transitive_blockers(&files, &tasks);
    assert_eq!(b[3], strings(&["a"]));
    assert!(b[4].is_empty());
    assert!(is_runnable(&tasks[4], &tasks, &b));
    assert!(!is_runnable(&tasks[3], &tasks, &b));
}

#[test]
fn runnable_needs_open_unblocked_and_finished_dependencies() {
    let tasks = vec![
        task("a", true, &[]),
        task("b", false, &["a"]),
        task("c", false, &["b"]),
        task("d", false, &[]),
    ];
    let b = transitive_blockers(&[], &tasks);
    assert!(!is_runnable(&tasks[0], &tasks, &b));
    assert!(is_runnable(&tasks[1], &tasks, &b));
    assert!(!is_runnable(&tasks[2], &tasks, &b));
    assert_eq!(next_runnable(&tasks, &b), Some(1));
    assert_eq!(runnable_indices(&tasks, &b), vec![1, 3]);
    assert!(matches!(task_status(&tasks[0], &tasks, &b), TaskStatus::Done));
    assert!(matches!(task_status(&tasks[1], &tasks, &b), TaskStatus::Runnable));
    assert!(matches!(task_status(&tasks[2], &tasks, &b), TaskStatus::Waiting));
}

#[test]
fn a_blocked_task_does_not_stop_unrelated_work() {
    let tasks = vec![task("a", false, &[]), task("b", false, &["a"]), task("c", false, &[])];
    let files = strings(&["a_blocked.md"]);
    let b = transitive_blockers(&files, &tasks);
    assert!(has_blockers(&tasks[1], &tasks, &b));
    assert!(matches!(task_status(&tasks[0], &tasks, &b), TaskStatus::Blocked));
    assert!(matches!(task_status(&tasks[1], &tasks, &b), TaskStatus::Blocked));
    assert!(is_runnable(&tasks[2], &tasks, &b));
    assert_eq!(runnable_indices(&tasks, &b), vec![2]);
}

#[test]
fn status_summary_and_marker() {
    let tasks = vec![task("a", true, &[]), task("b", false, &[]), task("c", false, &["b"])];
    let files = strings(&["b_blocked.md"]);
    let b = transitive_blockers(&files, &tasks);
    let s = track_summary(&tasks, &b);
    assert_eq!(s.total, 3);
    assert_eq!(s.complete, 1);
    assert_eq!(s.blocked, 2);
    assert_eq!(s.next, None);
    assert_eq!(marker(&s), Marker::Block);

    let open = vec![task("a", false, &[])];
    let ob = transitive_blockers(&[], &open);
    let s = track_summary(&open, &ob);
    assert_eq!(s.next, Some(0));
    assert_eq!(marker(&s), Marker::Open);

    let done = vec![task("a", true, &[])];
    let db = transitive_blockers(&[], &done);
    let s = track_summary(&done, &db);
    assert_eq!(s.complete, 1);
    assert_eq!(marker(&s), Marker::AllDone);
}

#[test]
fn tick_flips_the_first_box() {
    assert_eq!(tick_line("- [ ] **a** (~2 turns)", true), Some("- [x] **a** (~2 turns)".to_string()));
    assert_eq!(tick_line("- [x] **a**", false), Some("- [ ] **a**".to_string()));
    assert_eq!(tick_line("- [x] **a**", true), None);
    assert_eq!(tick_line("- [ ] **a**", false), None);
    assert_eq!(tick_line("  - [ ] **a** - [ ]", true), Some("  - [x] **a** - [ ]".to_string()));
}

#[test]
fn tick_then_untick_gives_the_line_back() {
    let line = "- [ ] **a** (~2 turns)";
    let ticked = tick_line(line, true).unwrap();
    assert_eq!(tick_line(&ticked, false), Some(line.to_string()));
}

#[test]
fn plan_is_written_with_a_final_newline() {
    assert_eq!(render_plan(&strings(&["# T", "- [x] **a**"])), "# T\n- [x] **a**\n");
    assert_eq!(render_plan(&[]), "\n");
}

#[test]
fn find_task_by_slug() {
    let tasks = vec![task("a", false, &[]), task("b", false, &[])];
    assert_eq!(find_task(&tasks, "b"), Some(1));
    assert_eq!(find_task(&tasks, "z"), None);
}

#[test]
fn rewrite_depends_renames_one_dependency() {
    assert_eq!(
        rewrite_depends("- [ ] **c** (~1 t) [depends: a, b]", "a", "z"),
        "- [ ] **c** (~1 t) [depends: z, b]"
    );
    assert_eq!(rewrite_depends("[depends:a,b]", "x", "y"), "[depends: a, b]");
    assert_eq!(rewrite_depends("- [ ] **c**", "a", "z"), "- [ ] **c**");
    assert_eq!(rewrite_depends("[depends: a", "a", "z"), "[depends: a");
    assert_eq!(rewrite_depends("[depends: ab, a] tail", "a", "z"), "[depends: ab, z] tail");
}

#[test]
fn rename_line_updates_slug_and_dependencies() {
    assert_eq!(rename_line("- [ ] **a** (~1 t)", "a", "b"), "- [ ] **b** (~1 t)");
    assert_eq!(
        rename_line("- [ ] **c** [depends: a, ab]", "a", "b"),
        "- [ ] **c** [depends: b, ab]"
    );
    assert_eq!(rename_line("  Mentions **a** twice **a**", "a", "b"), "  Mentions **b** twice **b**");
}

#[test]
fn rename_is_checked() {
    let tasks = vec![task("a", false, &[]), task("b", false, &[])];
    assert!(matches!(check_rename(&tasks, "a", "a"), Err(RenameError::Identical)));
    assert!(matches!(check_rename(&tasks, "z", "y"), Err(RenameError::NoSuchTask)));
    assert!(matches!(check_rename(&tasks, "a", "b"), Err(RenameError::AlreadyExists)));
    assert!(check_rename(&tasks, "a", "c").is_ok());
}

#[test]
fn renaming_renames_the_dependency_and_the_slug() {
    let dependent = "- [ ] **c** (~1 t) [depends:b,old ,  d]";
    assert_eq!(parse_depends(&rename_line(dependent, "old", "fresh")), strings(&["b", "fresh", "d"]));
    let own = "  - [x] **old** (~2 turns) [depends: a]";
    let renamed = rename_line(own, "old", "fresh");
    assert_eq!(renamed, "  - [x] **fresh** (~2 turns) [depends: a]");
    let plan = vec!["- [ ] **a**".to_string(), renamed];
    let tasks = parse_tasks(&plan).unwrap_or_else(|_| panic!("renamed plan parses"));
    assert_eq!(tasks.len(), 2);
    assert!(tasks[1].done);
    assert_eq!(tasks[1].slug, "fresh");
    assert_eq!(tasks[1].estimate, Some(2));
    assert_eq!(tasks[1].depends, strings(&["a"]));
}

#[test]
fn ticking_then_unticking_in_a_plan_gives_the_text_back() {
    let text = "# Plan\n- [ ] **a** (~2 turns)\n  first part\n- [ ] **b** [depends: a]\n";
    let ls = lines(text);
    let tasks = parse_tasks(&ls).unwrap();
    let j = find_task(&tasks, "b").unwrap();
    let k = tasks[j].line;
    let mut ticked = ls.clone();
    ticked[k] = tick_line(&ls[k], true).unwrap();
    let ticked_text = render_plan(&ticked);
    assert_eq!(ticked_text, "# Plan\n- [ ] **a** (~2 turns)\n  first part\n- [x] **b** [depends: a]\n");
    let reread = lines(&ticked_text);
    let tasks2 = parse_tasks(&reread).unwrap();
    assert_eq!(tasks2.len(), tasks.len());
    assert!(tasks2[j].done);
    assert!(!tasks2[0].done);
    assert_eq!(tasks2[0].description, "first part");
    assert_eq!(find_task(&tasks2, "b"), Some(j));
    let mut back = reread.clone();
    back[k] = tick_line(&reread[k], false).unwrap();
    assert_eq!(render_plan(&back), text);
}

#[test]
fn blocked_file_of_a_nested_slug() {
    let files = strings(&["x/y_blocked.md"]);
    assert!(directly_blocked(&files, "x/y"));
    assert!(!directly_blocked(&files, "y"));
}

#[test]
fn renaming_moves_every_file_of_the_slug() {
    let files = strings(&[
        "plan.md",
        "a_design.md",
        "a_blocked.md",
        "a_questions.md",
        "a_b_design.md",
        "ab_design.md",
        "a.md",
    ]);
    let slugs = strings(&["a", "a_b", "ab"]);
    let r = slug_file_renames(&files, &slugs, "a", "z");
    let expected: Vec<(String, String)> = vec![
        ("a_design.md".to_string(), "z_design.md".to_string()),
        ("a_blocked.md".to_string(), "z_blocked.md".to_string()),
        ("a_questions.md".to_string(), "z_questions.md".to_string()),
    ];
    assert_eq!(r, expected);
    assert!(slug_file_renames(&files, &slugs, "q", "z").is_empty());
}

#[test]
fn blocked_file_text_and_listing() {
    assert_eq!(blocked_file_text("why is it stuck?  \n"), "why is it stuck?\n");
    assert_eq!(blocked_entry("a", "  waiting on API keys\n"), "[a] waiting on API keys");
}

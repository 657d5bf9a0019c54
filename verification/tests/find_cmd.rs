use rtk_filters::find_args::{FindArgs, FindError};
use rtk_filters::find_cmd::{
    auto_max_depth, cap_depth, collect_all, does_limit_fit, matches_entry, plan_search, print_search, rel_display, report_on, run_from_args,
    should_skip_dir, walk_entry, Collector, FindQuery, WalkEntry, WalkStep,
};
use rtk_filters::glob::{glob_match, glob_match_inner};
use rtk_filters::paths::split_path;

fn args(values: &[&str]) -> Vec<String> {
    values.iter().map(|s| s.to_string()).collect()
}

fn find_args(pattern: &str) -> FindArgs {
    FindArgs {
        pattern: pattern.to_string(),
        path: ".".to_string(),
        max_results: 50,
        max_depth: None,
        file_type: "f".to_string(),
        case_insensitive: false,
    }
}

fn entry(path: &str, is_dir: bool) -> WalkEntry {
    WalkEntry {
        path: format!("/root/{}", path),
        name: path.rsplit('/').next().map(|s| s.to_string()),
        rel: Some(path.to_string()),
        is_dir,
    }
}

/// Walks the tree below `path` and gives the report on what is found there.
fn run(
    pattern: &str,
    path: &str,
    max_results: usize,
    max_depth: Option<usize>,
    file_type: &str,
    case_insensitive: bool,
    verbose: u8,
) -> Result<String, FindError> {
    let query: FindQuery = plan_search(
        &FindArgs {
            pattern: pattern.to_string(),
            path: path.to_string(),
            max_results,
            max_depth,
            file_type: file_type.to_string(),
            case_insensitive,
        },
        verbose,
    );
    let mut collector = Collector::new(query.collect_limit);
    let mut builder = ignore::WalkBuilder::new(path);
    builder.hidden(!query.search_hidden).max_depth(max_depth);
    for met in builder.build() {
        let met = met
            .ok()
            .map(|e| walk_entry(e.path().to_string_lossy().to_string(), path, e.path().is_dir()));
        if collector.step(&query, met.as_ref()) == WalkStep::Quit {
            break;
        }
    }
    Ok(report_on(collector.files, &query.pattern, query.max_results).unwrap())
}

// --- glob_match ---

#[test]
fn glob_match_star_rs() {
    assert!(glob_match("*.rs", "main.rs"));
    assert!(glob_match("*.rs", "find_cmd.rs"));
    assert!(!glob_match("*.rs", "main.py"));
    assert!(!glob_match("*.rs", "rs"));
}

#[test]
fn glob_match_star_all() {
    assert!(glob_match("*", "anything.txt"));
    assert!(glob_match("*", "a"));
    assert!(glob_match("*", ".hidden"));
}

#[test]
fn glob_match_question_mark() {
    assert!(glob_match("?.rs", "a.rs"));
    assert!(!glob_match("?.rs", "ab.rs"));
}

#[test]
fn glob_match_exact() {
    assert!(glob_match("Cargo.toml", "Cargo.toml"));
    assert!(!glob_match("Cargo.toml", "cargo.toml"));
}

#[test]
fn glob_match_complex() {
    assert!(glob_match("test_*", "test_foo"));
    assert!(glob_match("test_*", "test_"));
    assert!(!glob_match("test_*", "test"));
}

#[test]
fn question_marks_stand_for_bytes() {
    assert!(glob_match("??", "ä"));
    assert!(!glob_match("?", "ä"));
    assert!(glob_match("a*b*c", "a-b-b-c"));
    assert!(!glob_match("a*b*c", "a-b-b-"));
    assert!(glob_match("", ""));
    assert!(!glob_match("", "a"));
    assert!(glob_match_inner(b"**", b""));
}

// --- dot pattern treated as star ---

#[test]
fn dot_becomes_star() {
    let effective = plan_search(&find_args("."), 0).pattern;
    assert_eq!(effective, "*");
}

// --- run_from_args ---

#[test]
fn run_from_args_native_find_syntax() {
    // Simulates: find . -name "*.rs" -type f
    let result = run_from_args(&args(&[".", "-name", "*.rs", "-type", "f"]), 0);
    assert!(result.is_ok());
}

#[test]
fn run_from_args_rtk_syntax() {
    // Simulates: rtk find *.rs src
    let result = run_from_args(&args(&["*.rs", "src"]), 0);
    assert!(result.is_ok());
}

#[test]
fn run_from_args_iname_case_insensitive() {
    // -iname should match case-insensitively
    let result = run_from_args(&args(&[".", "-iname", "cargo.toml"]), 0);
    assert!(result.is_ok());
}

#[test]
fn limits_that_overflow_are_told_apart() {
    let max = format!("{}", usize::MAX / 4);
    assert!(does_limit_fit(&args(&["*", "-m", &max])));
    assert_eq!(run_from_args(&args(&["*", "-m", &max]), 0).unwrap().collect_limit, usize::MAX / 4 * 4);
    let over = format!("{}", usize::MAX / 4 + 1);
    assert!(!does_limit_fit(&args(&["*", "-m", &over])));
    assert!(does_limit_fit(&args(&["*", "-m", "x"])));
}

#[test]
fn run_from_args_hands_errors_on() {
    let result = run_from_args(&args(&[".", "-delete"]), 0);
    assert_eq!(result.unwrap_err(), FindError::Unsupported);
    let result = run_from_args(&args(&["-maxdepth", "x"]), 0);
    assert_eq!(result.unwrap_err(), FindError::InvalidMaxDepth);
}

// --- dotfile pattern should not skip hidden files ---

#[test]
fn find_dotfile_pattern_includes_hidden() {
    let result = run(".gitignore", ".", 50, Some(1), "f", false, 0);
    assert!(result.is_ok(), "run with dotfile pattern should not error");
}

#[test]
fn find_regular_pattern_skips_hidden() {
    // Non-dot pattern should not error (hidden dirs remain skipped)
    let result = run("*.rs", "src", 5, None, "f", false, 0);
    assert!(result.is_ok());
}

// --- integration: run on a tree ---

#[test]
fn find_rs_files_in_src() {
    // Should find .rs files without error
    let result = run("*.rs", "src", 100, None, "f", false, 0);
    assert!(result.is_ok());
}

#[test]
fn find_dot_pattern_works() {
    let result = run(".", "src", 10, None, "f", false, 0);
    assert!(result.is_ok());
}

#[test]
fn find_no_matches() {
    let result = run("*.xyz_nonexistent", "src", 50, None, "f", false, 0);
    assert!(result.is_ok());
    assert_eq!(result.unwrap(), "0 for '*.xyz_nonexistent'\n");
}

#[test]
fn find_respects_max() {
    // With max=2, should not error
    let result = run("*.rs", "src", 2, None, "f", false, 0);
    assert!(result.is_ok());
}

#[test]
fn find_gitignored_excluded() {
    let result = run("*", ".", 1000, None, "f", false, 0);
    assert!(result.is_ok());
}

// --- plans ---

#[test]
fn plans_say_what_is_searched() {
    let mut given = find_args("Makefile");
    given.case_insensitive = true;
    given.max_results = 3;
    let query = plan_search(&given, 1);
    assert_eq!(query.pattern, "Makefile");
    assert_eq!(query.pattern_lower.unwrap(), "makefile");
    assert_eq!(query.collect_limit, 12);
    assert_eq!(query.announcement.unwrap(), "find: Makefile in .");
    assert!(!query.want_dirs);
    assert!(!query.search_hidden);

    let query = plan_search(&find_args(".gitignore"), 0);
    assert!(query.search_hidden);
    assert!(query.pattern_lower.is_none());
    assert!(query.announcement.is_none());
    assert!(!plan_search(&find_args("."), 0).search_hidden);
}

#[test]
fn broad_searches_stay_near_the_top() {
    assert_eq!(cap_depth(None, Some(1)), Some(8));
    assert_eq!(cap_depth(None, Some(3)), Some(8));
    assert_eq!(cap_depth(None, Some(4)), None);
    assert_eq!(cap_depth(None, None), None);
    assert_eq!(cap_depth(Some(2), Some(1)), Some(2));
}

#[test]
fn the_start_of_a_search_decides_its_depth() {
    let cwd = |s: &str| Some(s.to_string());
    assert_eq!(auto_max_depth("/", &None, None), Some(8));
    assert_eq!(auto_max_depth("/home//user/.", &cwd("/x/y/z"), None), Some(8));
    assert_eq!(auto_max_depth("/home/user/src", &None, None), None);
    assert_eq!(auto_max_depth("/", &None, Some(1)), Some(1));
    assert_eq!(auto_max_depth(".", &cwd("/home/user"), None), Some(8));
    assert_eq!(auto_max_depth("src", &cwd("/home/user"), None), None);
    assert_eq!(auto_max_depth("src", &cwd("/"), None), Some(8));
    assert_eq!(auto_max_depth("./..", &cwd("/home"), None), Some(8));
    assert_eq!(auto_max_depth("src", &None, None), None);
    assert_eq!(auto_max_depth("/", &cwd("/x"), None), Some(8));
    assert_eq!(auto_max_depth("/home/user", &cwd("/x"), None), Some(8));
    assert_eq!(auto_max_depth("/home/user/src", &cwd("/x"), None), None);
    assert_eq!(auto_max_depth("/", &cwd("/x"), Some(20)), Some(20));
    assert_eq!(auto_max_depth("/", &cwd("/x"), Some(0)), Some(0));
    assert_eq!(auto_max_depth("", &cwd("/a/b"), None), Some(8));
    assert_eq!(auto_max_depth("./b", &cwd("./a"), None), Some(8));
}

// --- the walk ---

#[test]
fn dependency_trees_are_skipped() {
    assert!(should_skip_dir(&entry("a/node_modules", true)));
    assert!(should_skip_dir(&entry("Applications", true)));
    assert!(should_skip_dir(&entry("web/dist", true)));
    assert!(should_skip_dir(&entry("vendor/bundle/x", true)));
    assert!(!should_skip_dir(&entry("a/vendor/bundle", true)));
    assert!(!should_skip_dir(&entry("src", true)));
    assert!(!should_skip_dir(&WalkEntry {
        path: "/".to_string(),
        name: None,
        rel: None,
        is_dir: true
    }));
}

#[test]
fn entries_are_matched_by_kind_and_name() {
    let file = entry("src/Main.rs", false);
    assert!(matches_entry(&file, false, "*.rs", &None));
    assert!(!matches_entry(&file, true, "*.rs", &None));
    assert!(!matches_entry(&file, false, "main.rs", &None));
    assert!(matches_entry(&file, false, "MAIN.RS", &Some("main.rs".to_string())));
    assert!(matches_entry(&entry("src", true), true, "s*", &None));
    let nameless = WalkEntry { path: "/".to_string(), name: None, rel: None, is_dir: true };
    assert!(!matches_entry(&nameless, true, "*", &None));
}

#[test]
fn paths_are_shown_from_the_root_of_the_search() {
    assert_eq!(rel_display(&entry("a/b", false)), "a/b");
    let outside = WalkEntry { path: "/x/y".to_string(), name: None, rel: None, is_dir: false };
    assert_eq!(rel_display(&outside), "/x/y");
}

#[test]
fn entries_are_seen_from_the_root() {
    let seen = |path: &str, root: &str| {
        let e = walk_entry(path.to_string(), root, false);
        (e.name, e.rel)
    };
    let some = |s: &str| Some(s.to_string());
    assert_eq!(seen("./src/main.rs", "."), (some("main.rs"), some("src/main.rs")));
    assert_eq!(seen("/a/b/c", "/a"), (some("c"), some("b/c")));
    assert_eq!(seen("/a", "/"), (some("a"), some("a")));
    assert_eq!(seen("src/x", "src"), (some("x"), some("x")));
    assert_eq!(seen("src", "src"), (some("src"), some("")));
    assert_eq!(seen("srcs/x", "src"), (some("x"), None));
    assert_eq!(seen("src/x", "."), (some("x"), None));
    assert_eq!(seen("./src", "src"), (some("src"), None));
    assert_eq!(seen("../lib/a.rs", "../lib"), (some("a.rs"), some("a.rs")));
    assert_eq!(seen("../a", ".."), (some("a"), some("a")));
    assert_eq!(seen("src/a", "src/"), (some("a"), some("a")));
    assert_eq!(seen("src//a/./b//", "src/."), (some("b"), some("a/./b")));
    assert_eq!(seen("./x", "././"), (some("x"), some("x")));
    assert_eq!(seen("log/12:30.log", "log"), (some("12:30.log"), some("12:30.log")));
    assert_eq!(seen(".", "."), (None, some("")));
    assert_eq!(seen("/", "/"), (None, some("")));
    assert_eq!(seen("a/..", "a"), (None, some("..")));
    assert_eq!(seen("1:x", ""), (some("1:x"), some("1:x")));
    assert_eq!(seen("a/b/./", ""), (some("b"), some("a/b")));
    assert_eq!(seen("/a//", ""), (some("a"), some("/a")));
    assert_eq!(seen("/", ""), (None, some("/")));
    assert_eq!(seen("/./", ""), (None, some("/")));
    assert_eq!(seen("./", ""), (None, some(".")));
    assert_eq!(seen("./.", ""), (None, some(".")));
    assert_eq!(seen("././a", ""), (some("a"), some("././a")));
    assert_eq!(seen("", ""), (None, some("")));
    assert_eq!(seen("", "a"), (None, None));
    assert_eq!(seen("srcx/b.rs", "src"), (some("b.rs"), None));
}

#[test]
fn walks_end_when_enough_is_collected() {
    let query = plan_search(&find_args("*.rs"), 0);
    let mut collector = Collector::new(2);
    assert_eq!(collector.step(&query, Some(&entry("a.rs", false))), WalkStep::Continue);
    assert_eq!(collector.step(&query, None), WalkStep::Continue);
    assert_eq!(collector.step(&query, Some(&entry("b.txt", false))), WalkStep::Continue);
    assert_eq!(collector.step(&query, Some(&entry(".git/objects", true))), WalkStep::Skip);
    assert_eq!(collector.step(&query, Some(&entry("c.rs", false))), WalkStep::Quit);
    assert_eq!(collector.step(&query, Some(&entry("d.rs", false))), WalkStep::Quit);
    assert_eq!(collector.files, args(&["a.rs", "c.rs"]));
}

#[test]
fn dot_and_star_print_the_same() {
    let entries = vec![
        Some(entry("a.rs", false)),
        Some(entry(".hidden", false)),
        None,
        Some(entry("src/b.md", false)),
        Some(entry("src", true)),
    ];
    let dot = print_search(&plan_search(&find_args("."), 0), &entries).unwrap();
    let star = print_search(&plan_search(&find_args("*"), 1), &entries).unwrap();
    assert_eq!(dot, star);
    assert_eq!(dot, "3F 2D:\n\n./ .hidden a.rs\nsrc/ b.md\n\next: .none(1) .rs(1) .md(1)\n");
}

#[test]
fn a_limit_of_zero_still_takes_the_first() {
    let query = plan_search(&find_args("*"), 0);
    let entries = vec![Some(entry("a", false)), None, Some(entry("b", false))];
    assert_eq!(collect_all(&query, &entries, 0).files, args(&["a"]));
    assert_eq!(collect_all(&query, &entries, 2).files, args(&["a", "b"]));
    assert_eq!(collect_all(&query, &entries, 9).files, args(&["a", "b"]));
}

#[test]
fn the_root_of_the_search_is_not_collected() {
    let mut given = find_args("*");
    given.file_type = "d".to_string();
    let query = plan_search(&given, 0);
    let root = WalkEntry {
        path: "src".to_string(),
        name: Some("src".to_string()),
        rel: Some(String::new()),
        is_dir: true,
    };
    let mut collector = Collector::new(5);
    assert_eq!(collector.step(&query, Some(&root)), WalkStep::Continue);
    assert!(collector.files.is_empty());
}

// --- the report ---

#[test]
fn files_are_reported_by_directory() {
    let found = args(&["src/main.rs", "README.md", "src/a/b.rs", "src/lib.rs"]);
    assert_eq!(
        report_on(found, "*", 50).unwrap(),
        "4F 3D:\n\n./ README.md\nsrc/ lib.rs main.rs\nsrc/a/ b.rs\n\next: .rs(3) .md(1)\n"
    );
}

#[test]
fn paths_are_taken_apart() {
    let split = |path: &str| {
        let f = split_path(path.to_string());
        (f.parent, f.file_name, f.extension)
    };
    let some = |s: &str| Some(s.to_string());
    assert_eq!(split("a/b.rs"), (some("a"), some("b.rs"), some("rs")));
    assert_eq!(split("12:30.log"), (some(""), some("12:30.log"), some("log")));
    assert_eq!(split("/a"), (some("/"), some("a"), None));
    assert_eq!(split("/./a"), (some("/"), some("a"), None));
    assert_eq!(split("./a."), (some("."), some("a."), some("")));
    assert_eq!(split("././a"), (some("."), some("a"), None));
    assert_eq!(split("a//./b/./"), (some("a"), some("b"), None));
    assert_eq!(split("x/a//b/c"), (some("x/a//b"), some("c"), None));
    assert_eq!(split("a/.."), (some("a"), None, None));
    assert_eq!(split("/.."), (some("/"), None, None));
    assert_eq!(split("."), (some(""), None, None));
    assert_eq!(split("./."), (some(""), None, None));
    assert_eq!(split("/"), (None, None, None));
    assert_eq!(split("/."), (None, None, None));
    assert_eq!(split(""), (None, None, None));
    assert_eq!(split("..a/.b"), (some("..a"), some(".b"), None));
}

#[test]
fn colons_in_names_do_no_harm() {
    let found = args(&["a/12:30.log", "12:30.log"]);
    assert_eq!(
        report_on(found, "*", 9).unwrap(),
        "2F 2D:\n\n./ 12:30.log\na/ 12:30.log\n"
    );
}

#[test]
fn names_are_counted_against_the_limit() {
    let found = args(&["a/1.rs", "a/2.rs", "b/3.rs", "b/4.rs", "c/5.rs"]);
    assert_eq!(
        report_on(found, "*.rs", 3).unwrap(),
        "5F 3D:\n\na/ 1.rs 2.rs\nb/ 3.rs\n+2 more\n"
    );
}

#[test]
fn five_extensions_are_shown() {
    let found = args(&["a.a", "b.b", "c.c", "d.d", "e.e", "f", "g.b", ".hidden"]);
    let shown = report_on(found, "*", 50).unwrap();
    assert!(shown.ends_with("\next: .none(2) .b(2) .a(1) .c(1) .d(1)\n"), "got: {}", shown);
}

#[test]
fn long_directories_are_cut_in_front() {
    let dir = "0123456789".repeat(6);
    let shown = report_on(vec![format!("{}/x.rs", dir)], "*", 5).unwrap();
    assert_eq!(shown, format!("1F 1D:\n\n...{}/ x.rs\n", &dir[13..]));
}

#[test]
fn directories_are_not_cut_inside_a_character() {
    let dir = "ä".repeat(30);
    assert!(report_on(vec![format!("{}/x.rs", dir)], "*", 5).is_none());
    let dir = "ä".repeat(25);
    assert!(report_on(vec![format!("{}/x.rs", dir)], "*", 5).is_some());
    // Directories that are not shown do no harm.
    let dir = "ä".repeat(30);
    assert!(report_on(vec![format!("{}/x.rs", dir)], "*", 0).is_some());
}

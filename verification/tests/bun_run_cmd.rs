use rtk_filters::bun_run_cmd::{
    filter_bun_output, needs_run_injection, plan_run, show_output, BUN_SUBCOMMANDS,
    PASSTHROUGH_SUBCOMMANDS,
};

fn args(values: &[&str]) -> Vec<String> {
    values.iter().map(|s| s.to_string()).collect()
}

#[test]
fn test_filter_bun_output_strips_boilerplate() {
    let output = r#"$ bun run build
> project@1.0.0 build
> next build

warn deprecated package inflight@1.0.6
WARN some other warning
⸩ loading...

   Creating an optimized production build...
   Build completed successfully
"#;
    let result = filter_bun_output(output);
    assert!(!result.contains("$ bun run"), "Should strip $ command echo");
    assert!(!result.contains("> project@"), "Should strip > pkg@version");
    assert!(!result.contains("warn deprecated"), "Should strip warn lines");
    assert!(!result.contains("WARN some"), "Should strip WARN lines");
    assert!(!result.contains('⸩'), "Should strip progress indicators");
    assert!(result.contains("Build completed"), "Should keep real output");
}

#[test]
fn test_filter_bun_output_empty_returns_ok() {
    let output = "\n\n\n";
    let result = filter_bun_output(output);
    assert_eq!(result, "ok");
}

#[test]
fn test_filter_bun_output_preserves_real_output() {
    let output = r#"$ bun run lint
Checking 42 files...
Found 0 errors. Linting completed.
"#;
    let result = filter_bun_output(output);
    assert!(!result.contains("$ bun run"), "Should strip command echo");
    assert!(result.contains("Checking 42 files"), "Should preserve real output");
    assert!(result.contains("Linting completed"), "Should preserve result line");
}

#[test]
fn test_bun_subcommand_routing() {
    // Known subcommands should NOT get "run" injected
    for subcmd in BUN_SUBCOMMANDS {
        assert!(
            !needs_run_injection(&args(&[subcmd])),
            "'bun {}' should NOT inject 'run'",
            subcmd
        );
    }

    // Script names SHOULD get "run" injected (not listed in BUN_SUBCOMMANDS)
    for script in &["lint", "typecheck", "deploy", "start", "compile"] {
        assert!(
            needs_run_injection(&args(&[script])),
            "'bun {}' SHOULD inject 'run'",
            script
        );
    }

    // Flags should NOT get "run" injected
    assert!(!needs_run_injection(&args(&["--help"])));
    assert!(!needs_run_injection(&args(&["-h"])));

    // Explicit "run" should NOT inject another "run"
    assert!(!needs_run_injection(&args(&["run", "build"])));
}

#[test]
fn kept_lines_are_joined_as_they_are() {
    let output = "$ bun run x\n  one\r\n\n> two\n> pkg@1\n  warning\nthree";
    assert_eq!(filter_bun_output(output), "  one\n> two\nthree");
}

#[test]
fn filtering_twice_is_filtering_once() {
    let once = filter_bun_output("a\n$ b\n  c  \n\nd\n");
    assert_eq!(once, "a\n  c  \nd");
    assert_eq!(filter_bun_output(&once), once);
    assert_eq!(filter_bun_output("ok"), "ok");
}

#[test]
fn a_carriage_return_is_lost_when_filtering_again() {
    let once = filter_bun_output("a\r\r\nb");
    assert_eq!(once, "a\r\nb");
    assert_eq!(filter_bun_output(&once), "a\nb");
}

#[test]
fn planned_calls_name_the_script_after_run() {
    let plan = plan_run(&args(&["lint", "--fix"]), 1);
    assert_eq!(plan.args, args(&["run", "lint", "--fix"]));
    assert_eq!(plan.announcement.unwrap(), "Running: bun lint --fix");

    let plan = plan_run(&args(&["run", "build"]), 0);
    assert_eq!(plan.args, args(&["run", "build"]));
    assert!(plan.announcement.is_none());

    assert_eq!(plan_run(&args(&["add", "express"]), 0).args, args(&["add", "express"]));
    assert_eq!(plan_run(&args(&[]), 0).args, args(&["run"]));
}

#[test]
fn run_is_not_added_twice() {
    let once = plan_run(&args(&["lint"]), 0).args;
    assert_eq!(once, args(&["run", "lint"]));
    assert_eq!(plan_run(&once, 0).args, once);
}

#[test]
fn lines_that_begin_with_bun_run_are_stripped() {
    assert_eq!(filter_bun_output("bun run build\nhello"), "hello");
    assert_eq!(filter_bun_output("bun runner\n bun run x\nbun ran"), " bun run x\nbun ran");
}

#[test]
fn package_management_is_shown_unchanged() {
    let output = "$ bun add\n\nwarn: x\n";
    for subcmd in ["install", "add", "remove", "link", "--version"] {
        let command = plan_run(&args(&[subcmd, "x"]), 0);
        assert!(command.passthrough, "{}", subcmd);
        assert_eq!(show_output(&command, output), output);
    }
    for subcmd in PASSTHROUGH_SUBCOMMANDS {
        assert!(!needs_run_injection(&args(&[subcmd])), "{}", subcmd);
    }
    for given in [args(&[]), args(&["run", "add"]), args(&["lint"]), args(&["test"])] {
        let command = plan_run(&given, 0);
        assert!(!command.passthrough);
        assert_eq!(show_output(&command, output), "ok");
    }
}

use rtk_filters::ansi::strip_ansi;
use rtk_filters::patterns::group;
use rtk_filters::test_report::TimeUnit;
use rtk_filters::test_text::{
    collect_failures, do_text_counts_fit, extract_failures_from_text, mark_line, parse_text_output,
    summarize_text, LineMark,
};

fn strings(values: &[&str]) -> Vec<String> {
    values.iter().map(|s| s.to_string()).collect()
}

fn groups(values: &[&str]) -> Option<Vec<Option<String>>> {
    Some(values.iter().map(|s| Some(s.to_string())).collect())
}

fn mark(name: Option<&str>, is_error: bool) -> LineMark {
    LineMark { failed_test: name.map(|s| s.to_string()), is_error }
}

#[test]
fn colour_sequences_are_stripped() {
    assert_eq!(strip_ansi("\u{1b}[1;31mred\u{1b}[0m and plain"), "red and plain");
    assert_eq!(strip_ansi("plain [0m"), "plain [0m");
    assert_eq!(strip_ansi("\u{1b}[12"), "\u{1b}[12");
    assert_eq!(strip_ansi("\u{1b}[1 m"), "\u{1b}[1 m");
    assert_eq!(strip_ansi("\u{1b}\u{1b}[0m[0m"), "\u{1b}[0m");
}

#[test]
fn lines_are_marked() {
    let marked = mark_line("(fail)  adds two  [0.11ms]");
    assert_eq!(marked.failed_test.unwrap(), "adds two");
    assert!(!marked.is_error);
    let marked = mark_line("error: no such thing");
    assert!(marked.failed_test.is_none());
    assert!(marked.is_error);
    let marked = mark_line(" error: indented");
    assert!(marked.failed_test.is_none());
    assert!(!marked.is_error);
    assert!(mark_line("(fail) without a time").failed_test.is_none());
}

#[test]
fn groups_that_took_no_part_are_empty() {
    let found = vec![Some("all".to_string()), None];
    assert_eq!(group(&found, 0), "all");
    assert_eq!(group(&found, 1), "");
    assert_eq!(group(&found, 2), "");
}

#[test]
fn messages_stop_at_errors_and_failures() {
    let lines = strings(&["head", "error: a", "  more ", "", "(a)", "between", "(b)"]);
    let marks = vec![
        mark(None, false),
        mark(None, true),
        mark(None, false),
        mark(None, false),
        mark(Some("a"), false),
        mark(None, false),
        mark(Some("b"), false),
    ];
    let failures = collect_failures(&lines, &marks);
    assert_eq!(failures.len(), 2);
    assert_eq!(failures[0].test_name, "a");
    assert_eq!(failures[0].error_message, "error: a\nmore");
    assert_eq!(failures[1].test_name, "b");
    assert_eq!(failures[1].error_message, "between");
}

#[test]
fn the_first_line_is_a_border_too() {
    let failures = extract_failures_from_text("(fail) a [1ms]\n(fail) b [1ms]");
    assert_eq!(failures.len(), 2);
    assert_eq!(failures[0].test_name, "a");
    assert_eq!(failures[0].error_message, "");
    assert_eq!(failures[1].test_name, "b");
    assert_eq!(failures[1].error_message, "");
    let failures = extract_failures_from_text("error: x\nmore\n(fail) a [1ms]\n");
    assert_eq!(failures[0].error_message, "error: x\nmore");
    let failures = extract_failures_from_text("x\n(fail) a [1ms]\n(fail) b [1ms]\n");
    assert_eq!(failures[0].error_message, "x");
    assert_eq!(failures[1].error_message, "");
}

#[test]
fn texts_are_summed_up_from_what_was_found() {
    let ran = groups(&["", "7", "1.5", "s"]);
    let result =
        summarize_text(&groups(&["", "4"]), &groups(&["", "2"]), &groups(&["", "1"]), &ran, true, vec![])
            .unwrap();
    assert_eq!((result.total, result.passed, result.failed, result.skipped), (7, 4, 2, 1));
    let duration = result.duration.unwrap();
    assert_eq!(duration.number, "1.5");
    assert_eq!(duration.unit, TimeUnit::Seconds);

    let result = summarize_text(&groups(&["", "4"]), &None, &None, &None, false, vec![]).unwrap();
    assert_eq!((result.total, result.passed, result.failed), (4, 4, 0));
    assert!(result.duration.is_none());

    let odd = groups(&["", "x", "2", "ms"]);
    let result = summarize_text(&None, &groups(&["", "3"]), &None, &odd, false, vec![]).unwrap();
    assert_eq!((result.total, result.passed, result.failed), (3, 0, 3));
    assert_eq!(result.duration.unwrap().unit, TimeUnit::Millis);

    assert!(summarize_text(&None, &None, &groups(&["", "2"]), &ran, false, vec![]).is_none());
    assert_eq!(summarize_text(&None, &None, &None, &None, true, vec![]).unwrap().total, 0);
}

#[test]
fn texts_are_read_through_their_colours() {
    let result = parse_text_output("\u{1b}[32m 12 pass\u{1b}[0m\n 0 fail\nRan 12 tests [3s]").unwrap();
    assert_eq!((result.total, result.passed, result.failed), (12, 12, 0));
    let duration = result.duration.unwrap();
    assert_eq!(duration.number, "3");
    assert_eq!(duration.unit, TimeUnit::Seconds);
}

#[test]
fn skipped_tests_are_counted() {
    let text = " 3 pass\n 1 skip\n 0 fail\nRan 4 tests across 1 files. [10.00ms]\n";
    let result = parse_text_output(text).unwrap();
    assert_eq!((result.total, result.passed, result.failed, result.skipped), (4, 3, 0, 1));
}

#[test]
fn texts_without_counts_are_not_read() {
    assert!(parse_text_output("nothing to see").is_none());
    assert!(parse_text_output("0 fail").is_none());
    let result = parse_text_output("all tests pass").unwrap();
    assert_eq!((result.total, result.passed, result.failed), (0, 0, 0));
    assert!(do_text_counts_fit("1 pass 2 fail"));
    assert!(!do_text_counts_fit(&format!("{} pass 2 fail", usize::MAX)));
}

use rtk_filters::bun_test_cmd::{
    choose_result, plan_test, present, truncate_passthrough, BunTestParser, Notice,
};
use rtk_filters::test_report::{Duration, ParseResult, TestFailure, TestResult, TimeUnit};

const MAX_CHARS: usize = 2000;

const JUNIT_PASS: &str = r#"<?xml version="1.0" encoding="UTF-8"?>
<testsuites name="bun test" tests="3" assertions="3" failures="0" skipped="0" time="0.008253">
  <testsuite name="math.test.ts" file="math.test.ts" tests="3" assertions="3" failures="0" skipped="0" time="0.0012" hostname="host">
    <testcase name="adds" classname="math" time="0.000114" file="math.test.ts" line="4" assertions="1" />
    <testcase name="subtracts" classname="math" time="0.000021" file="math.test.ts" line="8" assertions="1" />
    <testcase name="multiplies" classname="math" time="0.000018" file="math.test.ts" line="12" assertions="1" />
  </testsuite>
</testsuites>
"#;

const JUNIT_FAIL: &str = r#"<?xml version="1.0" encoding="UTF-8"?>
<testsuites name="bun test" tests="3" assertions="3" failures="2" skipped="0" time="0.011527">
  <testsuite name="fail.test.ts" file="fail.test.ts" tests="3" assertions="3" failures="2" skipped="0" time="0.0021" hostname="host">
    <testcase name="passes" classname="suite" time="0.000107" file="fail.test.ts" line="4" assertions="1" />
    <testcase name="fails - wrong value" classname="suite" time="0.000802" file="fail.test.ts" line="8" assertions="1">
      <failure type="AssertionError" />
    </testcase>
    <testcase name="fails - type error" classname="suite" time="0.000094" file="fail.test.ts" line="12" assertions="1">
      <failure type="AssertionError" />
    </testcase>
  </testsuite>
</testsuites>
"#;

const TEXT_PASS: &str = "bun test v1.2.2

math.test.ts:
(pass) math > adds [0.11ms]
(pass) math > subtracts [0.02ms]
(pass) math > multiplies [0.02ms]

 3 pass
 0 fail
 3 expect() calls
Ran 3 tests across 1 files. [10.00ms]
";

const TEXT_FAIL: &str = "bun test v1.2.2

sums.test.ts:
(pass) passes [0.11ms]
5 | test(\"fails - wrong value\", () => {
6 |   expect(1 + 1).toBe(3);
error: expect(received).toBe(expected)

Expected: 3
Received: 2

      at <anonymous> (sums.test.ts:6:17)
(fail) fails - wrong value [0.80ms]
9 | test(\"fails - type error\", () => {
error: undefined is not an object
      at <anonymous> (sums.test.ts:10:3)
(fail) fails - type error [0.09ms]

 1 pass
 2 fail
 2 expect() calls
Ran 3 tests across 1 files. [12.00ms]
";

fn count_tokens(s: &str) -> usize {
    s.split_whitespace().count()
}

fn parse(input: &str) -> ParseResult<TestResult> {
    BunTestParser::try_parse(input, MAX_CHARS).unwrap()
}

fn duration_ms(duration: &Option<Duration>) -> Option<u64> {
    duration.as_ref().map(|d| {
        let value: f64 = d.number.parse().unwrap_or(0.0);
        match d.unit {
            TimeUnit::Millis => value as u64,
            TimeUnit::Seconds => (value * 1000.0) as u64,
        }
    })
}

fn args(values: &[&str]) -> Vec<String> {
    values.iter().map(|s| s.to_string()).collect()
}

#[test]
fn test_bun_junit_all_pass() {
    let result = BunTestParser::parse(JUNIT_PASS, MAX_CHARS);

    assert_eq!(result.tier(), 1, "Should be Tier 1 (JUnit XML)");
    assert!(result.is_ok());

    let data = result.unwrap();
    assert_eq!(data.total, 3);
    assert_eq!(data.passed, 3);
    assert_eq!(data.failed, 0);
    assert_eq!(data.skipped, 0);
    assert!(data.failures.is_empty());
    // Duration: 0.008253s → ~8ms
    assert!(
        duration_ms(&data.duration).unwrap_or(0) > 0,
        "Duration should be parsed"
    );
}

#[test]
fn test_bun_junit_with_failures() {
    let result = BunTestParser::parse(JUNIT_FAIL, MAX_CHARS);

    assert_eq!(result.tier(), 1, "Should be Tier 1 (JUnit XML)");
    assert!(result.is_ok());

    let data = result.unwrap();
    assert_eq!(data.total, 3);
    assert_eq!(data.passed, 1);
    assert_eq!(data.failed, 2);
    assert_eq!(data.failures.len(), 2);

    let names: Vec<&str> = data.failures.iter().map(|f| f.test_name.as_str()).collect();
    assert!(names.contains(&"fails - wrong value"), "Expected 'fails - wrong value'");
    assert!(names.contains(&"fails - type error"), "Expected 'fails - type error'");
}

#[test]
fn test_bun_regex_all_pass() {
    let result = BunTestParser::parse(TEXT_PASS, MAX_CHARS);

    assert_eq!(result.tier(), 2, "Should fall to Tier 2 (regex) for text output");
    assert!(result.is_ok());

    let data = result.unwrap();
    assert_eq!(data.passed, 3);
    assert_eq!(data.failed, 0);
    assert!(data.failures.is_empty());
    assert_eq!(duration_ms(&data.duration), Some(10));
}

#[test]
fn test_bun_regex_with_failures() {
    let result = BunTestParser::parse(TEXT_FAIL, MAX_CHARS);

    assert_eq!(result.tier(), 2, "Should fall to Tier 2 (regex) for text output");
    assert!(result.is_ok());

    let data = result.unwrap();
    assert_eq!(data.passed, 1);
    assert_eq!(data.failed, 2);
    assert_eq!(data.failures.len(), 2);

    let names: Vec<&str> = data.failures.iter().map(|f| f.test_name.as_str()).collect();
    assert!(names.contains(&"fails - wrong value"), "Missing 'fails - wrong value'");
    assert!(names.contains(&"fails - type error"), "Missing 'fails - type error'");
}

#[test]
fn test_bun_passthrough_garbage() {
    let garbage = "totally random text that is not bun output at all!!!";
    let result = BunTestParser::parse(garbage, MAX_CHARS);

    assert_eq!(result.tier(), 3, "Garbage input should be Tier 3 (passthrough)");
    assert!(!result.is_ok());
}

#[test]
fn test_bun_format_all_pass() {
    let data = BunTestParser::parse(JUNIT_PASS, MAX_CHARS).unwrap();
    let output = data.format_compact();

    assert!(
        output.contains("PASS (3)"),
        "Compact output must show pass count; got: {}",
        output
    );
    assert!(
        output.contains("FAIL (0)"),
        "Compact output must show fail count; got: {}",
        output
    );
    // All-pass: no extra failure detail lines
    assert!(
        !output.contains("AssertionError"),
        "All-pass output should not mention AssertionError; got: {}",
        output
    );
}

#[test]
fn test_bun_format_with_failures() {
    let data = BunTestParser::parse(JUNIT_FAIL, MAX_CHARS).unwrap();
    let output = data.format_compact();

    assert!(
        output.contains("FAIL (2)"),
        "Must show 2 failures; got: {}",
        output
    );
    assert!(
        output.contains("fails - wrong value") || output.contains("fails - type error"),
        "Must name at least one failed test; got: {}",
        output
    );
}

#[test]
fn test_bun_token_savings() {
    let data = BunTestParser::parse(JUNIT_FAIL, MAX_CHARS).unwrap();
    let output = data.format_compact();

    let input_tokens = count_tokens(JUNIT_FAIL);
    let output_tokens = count_tokens(&output);

    let savings = 100.0 - (output_tokens as f64 / input_tokens as f64 * 100.0);
    assert!(
        savings >= 60.0,
        "Expected ≥60% token savings, got {:.1}% (in={}, out={})",
        savings,
        input_tokens,
        output_tokens
    );
}

#[test]
fn compact_form_lists_names_and_messages() {
    let data = BunTestParser::parse(JUNIT_FAIL, MAX_CHARS).unwrap();
    assert_eq!(
        data.format_compact(),
        "PASS (1) FAIL (2)\n  ✗ fails - wrong value\n    AssertionError\n  ✗ fails - type error\n    AssertionError"
    );
    let silent = TestResult {
        total: 12,
        passed: 10,
        failed: 2,
        skipped: 0,
        duration: None,
        failures: vec![TestFailure {
            test_name: "a".to_string(),
            file_path: String::new(),
            error_message: String::new(),
            stack_trace: None,
        }],
    };
    assert_eq!(silent.format_compact(), "PASS (10) FAIL (2)\n  ✗ a");
}

#[test]
fn failures_of_a_text_carry_their_messages() {
    let data = parse(TEXT_FAIL).unwrap();
    assert_eq!(data.total, 3);
    assert_eq!(data.failures[0].test_name, "fails - wrong value");
    assert_eq!(
        data.failures[0].error_message,
        "error: expect(received).toBe(expected)\nExpected: 3\nReceived: 2\nat <anonymous> (sums.test.ts:6:17)"
    );
    assert_eq!(
        data.failures[1].error_message,
        "error: undefined is not an object\nat <anonymous> (sums.test.ts:10:3)"
    );
}

#[test]
fn tiers_warn_of_what_was_lost() {
    match parse(TEXT_PASS) {
        ParseResult::Degraded(_, warnings) => {
            assert_eq!(warnings, args(&["XML parse failed; using regex tier"]));
        }
        _ => panic!("the text tier was expected"),
    }
}

#[test]
fn counts_that_overflow_are_told_apart() {
    let max = usize::MAX;
    let text = format!("{} pass\n1 fail\n", max);
    assert!(BunTestParser::try_parse(&text, MAX_CHARS).is_none());
    let text = format!("{} pass\n0 fail\n", max);
    assert_eq!(parse(&text).unwrap().total, max);

    let xml = format!("<testsuites tests=\"5\" failures=\"{}\" skipped=\"1\"/>", max);
    assert!(BunTestParser::try_parse(&xml, MAX_CHARS).is_none());
    let xml = format!("<testsuites tests=\"5\" failures=\"{}\" skipped=\"0\"/>", max);
    assert_eq!(parse(&xml).unwrap().passed, 0);
}

#[test]
fn a_report_wins_over_a_text() {
    let both = "<!-- 7 pass --><testsuites tests=\"1\" failures=\"0\" skipped=\"0\"/>";
    let result = parse(both);
    assert_eq!(result.tier(), 1);
    assert_eq!(result.unwrap().passed, 1);
}

#[test]
fn what_is_chosen_follows_the_tiers() {
    let result = |passed: usize| {
        Some(TestResult { total: 9, passed, failed: 0, skipped: 0, duration: None, failures: vec![] })
    };
    assert_eq!(choose_result(result(1), result(2), "x", 9).unwrap().passed, 1);
    let second = choose_result(None, result(2), "x", 9);
    assert_eq!(second.tier(), 2);
    assert_eq!(second.unwrap().passed, 2);
    match choose_result(None, None, "abcdef", 4) {
        ParseResult::Passthrough(raw) => assert_eq!(raw, "abcd"),
        _ => panic!("nothing was read"),
    }
}

#[test]
fn unread_output_is_cut_by_characters() {
    assert_eq!(truncate_passthrough("äöü", 2), "äö");
    assert_eq!(truncate_passthrough("äöü", 3), "äöü");
    assert_eq!(truncate_passthrough("äöü", 9), "äöü");
    assert_eq!(truncate_passthrough("äöü", 0), "");
}

#[test]
fn presentation_tells_what_is_asked_for() {
    let shown = present(parse(JUNIT_PASS), 0);
    assert_eq!(shown.text, "PASS (3) FAIL (0)");
    assert!(shown.notice.is_none());
    assert!(matches!(present(parse(JUNIT_PASS), 1).notice, Some(Notice::Report)));

    assert!(present(parse(TEXT_PASS), 0).notice.is_none());
    match present(parse(TEXT_PASS), 2).notice {
        Some(Notice::Degraded(reason)) => assert_eq!(reason, "XML parse failed; using regex tier"),
        _ => panic!("a reason was expected"),
    }

    let shown = present(parse("nothing here"), 0);
    assert_eq!(shown.text, "nothing here");
    match shown.notice {
        Some(Notice::Passthrough(reason)) => assert_eq!(reason, "All parsing tiers failed"),
        _ => panic!("a reason was expected"),
    }
}

#[test]
fn conflicting_arguments_are_dropped() {
    let given = args(&["test", "src", "--reporter=dots", "--watch", "--hot", "-t", "adds", "--reporter"]);
    assert_eq!(plan_test(&given), args(&["test", "--reporter=junit", "src", "-t", "adds"]));
    assert_eq!(plan_test(&args(&[])), args(&["test", "--reporter=junit"]));
    assert_eq!(
        plan_test(&args(&["--hotter", "tests"])),
        args(&["test", "--reporter=junit", "--hotter", "tests"])
    );
}

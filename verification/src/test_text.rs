//! The result of a test run, read from the text that the test runner prints.

use vstd::prelude::*;

use crate::ansi;
use crate::numbers;
use crate::patterns;
use crate::patterns::Groups;
use crate::test_report;
use crate::test_report::{Duration, TestFailure, TestResult, TimeUnit};
use crate::text;

verus! {

// ---------------------------------------------------------------------------
// The expressions
// ---------------------------------------------------------------------------

/// The count of the tests that passed.
pub const PASS_PATTERN: &'static str = r"(\d+)\s+pass";

/// The count of the tests that failed.
pub const FAIL_PATTERN: &'static str = r"(\d+)\s+fail";

/// The count of the tests that were skipped.
pub const SKIP_PATTERN: &'static str = r"(\d+)\s+skip";

/// The count of all tests, and the duration with its unit.
pub const RAN_PATTERN: &'static str = r"Ran\s+(\d+)\s+tests.*\[(\d+\.?\d*)(ms|s)\]";

/// The line on a test that failed, with its name.
pub const FAIL_NAME_PATTERN: &'static str = r"\(fail\)\s+(.+?)\s+\[";

/// The first line of an error.
pub const ERROR_PATTERN: &'static str = r"^error:";

// ---------------------------------------------------------------------------
// The failures
// ---------------------------------------------------------------------------

/// What is known of a line: the name of the test that it reports as failed, if it
/// does, and whether it begins an error.
#[derive(Debug)]
pub struct LineMark {
    pub failed_test: Option<String>,
    pub is_error: bool,
}

/// The view of a mark.
pub struct MarkView {
    pub failed_test: Option<Seq<char>>,
    pub is_error: bool,
}

impl View for LineMark {
    type V = MarkView;

    open spec fn view(&self) -> MarkView {
        MarkView { failed_test: text::opt_view(self.failed_test), is_error: self.is_error }
    }
}

/// The views of marks.
pub open spec fn mark_views(marks: Seq<LineMark>) -> Seq<MarkView> {
    Seq::new(marks.len(), |k: int| marks[k]@)
}

/// The mark of a line.
pub open spec fn mark_of(line: Seq<char>) -> MarkView {
    MarkView {
        failed_test: match patterns::first_match(FAIL_NAME_PATTERN@, line) {
            Some(groups) => Some(text::trimmed(patterns::group_text(groups, 1))),
            None => None,
        },
        is_error: patterns::matches_in(ERROR_PATTERN@, line),
    }
}

/// The marks of lines.
pub open spec fn marks_of(lines: Seq<Seq<char>>) -> Seq<MarkView> {
    Seq::new(lines.len(), |k: int| mark_of(lines[k]))
}

/// Where the lines on a failure begin, looking from line `k` towards the first: at
/// the nearest error, or behind the nearest failure.
pub open spec fn block_start(marks: Seq<MarkView>, k: int) -> int
    decreases k + 1,
{
    if k < 0 {
        0
    } else if marks[k].is_error {
        k
    } else if marks[k].failed_test is Some {
        k + 1
    } else {
        block_start(marks, k - 1)
    }
}

/// The lines that are not blank, without the white space around them.
pub open spec fn solid_lines(lines: Seq<Seq<char>>) -> Seq<Seq<char>>
    decreases lines.len(),
{
    if lines.len() == 0 {
        seq![]
    } else {
        let line = text::trimmed(lines.last());
        let front = solid_lines(lines.drop_last());
        if line.len() > 0 {
            front.push(line)
        } else {
            front
        }
    }
}

/// The failure that line `i` reports: its message is what stands in the lines before.
pub open spec fn failure_at(
    lines: Seq<Seq<char>>,
    marks: Seq<MarkView>,
    i: int,
) -> test_report::FailureView {
    test_report::FailureView {
        test_name: marks[i].failed_test->0,
        file_path: seq![],
        error_message: text::joined(
            solid_lines(lines.subrange(block_start(marks, i - 1), i)),
            "\n"@,
        ),
        stack_trace: None,
    }
}

/// The failures that the first `n` lines report, in their order.
pub open spec fn failures_before(
    lines: Seq<Seq<char>>,
    marks: Seq<MarkView>,
    n: int,
) -> Seq<test_report::FailureView>
    decreases n,
{
    if n <= 0 {
        seq![]
    } else if marks[n - 1].failed_test is Some {
        failures_before(lines, marks, n - 1).push(failure_at(lines, marks, n - 1))
    } else {
        failures_before(lines, marks, n - 1)
    }
}

/// The failures that a text reports.
pub open spec fn text_failures(output: Seq<char>) -> Seq<test_report::FailureView> {
    let lines = text::text_lines(output);
    failures_before(lines, marks_of(lines), lines.len() as int)
}

/// The mark of a line.
pub fn mark_line(line: &str) -> (mark: LineMark)
    ensures
        mark@ == mark_of(line@),
{
    let failed_test: Option<String> = match patterns::captures(FAIL_NAME_PATTERN, line) {
        Some(groups) => {
            let name: String = patterns::group(&groups, 1);
            Some(text::trim(name.as_str()))
        },
        None => None,
    };
    let is_error: bool = patterns::is_match(ERROR_PATTERN, line);
    LineMark { failed_test, is_error }
}

fn mark_lines(lines: &Vec<String>) -> (marks: Vec<LineMark>)
    ensures
        mark_views(marks@) == marks_of(text::views(lines@)),
{
    let mut marks: Vec<LineMark> = Vec::new();
    let mut i: usize = 0;
    while i < lines.len()
        invariant
            i <= lines@.len(),
            marks@.len() == i,
            forall|k: int| 0 <= k < i ==> (#[trigger] marks@[k])@ == mark_of(lines@[k]@),
        decreases lines@.len() - i,
    {
        let mark: LineMark = mark_line(lines[i].as_str());
        marks.push(mark);
        i += 1;
    }
    assert(mark_views(marks@) =~= marks_of(text::views(lines@)));
    marks
}

/// Where the lines on the failure in line `i` begin.
fn find_block_start(marks: &Vec<LineMark>, i: usize) -> (start: usize)
    requires
        i < marks@.len(),
    ensures
        start == block_start(mark_views(marks@), i - 1),
        start <= i,
{
    let ghost seen = mark_views(marks@);
    let mut start: usize = i;
    while start > 0
        invariant
            seen == mark_views(marks@),
            start <= i < marks.len(),
            block_start(seen, start - 1) == block_start(seen, i - 1),
        decreases start,
    {
        let mark: &LineMark = &marks[start - 1];
        assert(seen[start - 1] == mark@);
        if mark.is_error {
            return start - 1;
        }
        if mark.failed_test.is_some() {
            return start;
        }
        start -= 1;
    }
    start
}

/// The message on the failure that line `i` reports.
fn message_before(lines: &Vec<String>, marks: &Vec<LineMark>, i: usize) -> (message: String)
    requires
        lines@.len() == marks@.len(),
        i < lines@.len(),
    ensures
        message@ == text::joined(
            solid_lines(
                text::views(lines@).subrange(
                    block_start(mark_views(marks@), i - 1),
                    i as int,
                ),
            ),
            "\n"@,
        ),
{
    let ghost views = text::views(lines@);
    let start: usize = find_block_start(marks, i);
    let ghost block = views.subrange(start as int, i as int);
    let mut kept: Vec<String> = Vec::new();
    let mut k: usize = start;
    assert(block.take(0) =~= seq![]);
    assert(text::views(kept@) =~= solid_lines(block.take(0)));
    while k < i
        invariant
            start <= k <= i < lines@.len(),
            views == text::views(lines@),
            block == views.subrange(start as int, i as int),
            text::views(kept@) == solid_lines(block.take(k - start)),
        decreases i - k,
    {
        proof {
            let now = block.take(k - start + 1);
            assert(now.drop_last() =~= block.take(k - start));
            assert(now.last() == lines@[k as int]@);
        }
        let line: String = text::trim(lines[k].as_str());
        if !line.as_str().is_empty() {
            assert(text::views(kept@.push(line)) =~= text::views(kept@).push(line@));
            kept.push(line);
        }
        k += 1;
    }
    assert(block.take(i - start) =~= block);
    text::join(&kept, "\n")
}

/// The failures that lines report, from what is known of each line.
pub fn collect_failures(lines: &Vec<String>, marks: &Vec<LineMark>) -> (failures: Vec<TestFailure>)
    requires
        lines@.len() == marks@.len(),
    ensures
        test_report::failure_views(failures@) == failures_before(
            text::views(lines@),
            mark_views(marks@),
            lines@.len() as int,
        ),
{
    let ghost views = text::views(lines@);
    let ghost seen = mark_views(marks@);
    let mut failures: Vec<TestFailure> = Vec::new();
    let mut i: usize = 0;
    assert(test_report::failure_views(failures@) =~= failures_before(views, seen, 0));
    while i < lines.len()
        invariant
            lines@.len() == marks@.len(),
            i <= lines@.len(),
            views == text::views(lines@),
            seen == mark_views(marks@),
            test_report::failure_views(failures@) == failures_before(views, seen, i as int),
        decreases lines@.len() - i,
    {
        assert(seen[i as int] == marks@[i as int]@);
        if let Some(name) = &marks[i].failed_test {
            let failure: TestFailure = TestFailure {
                test_name: name.clone(),
                file_path: String::new(),
                error_message: message_before(lines, marks, i),
                stack_trace: None,
            };
            proof {
                assert(failure.file_path@ =~= seq![]);
                assert(failure@ == failure_at(views, seen, i as int));
                assert(test_report::failure_views(failures@.push(failure))
                    =~= test_report::failure_views(failures@).push(failure@));
            }
            failures.push(failure);
        }
        i += 1;
    }
    failures
}

/// The failures that a text reports.
pub fn extract_failures_from_text(output: &str) -> (failures: Vec<TestFailure>)
    ensures
        test_report::failure_views(failures@) == text_failures(output@),
{
    let lines: Vec<String> = text::lines(output);
    let marks: Vec<LineMark> = mark_lines(&lines);
    assert(mark_views(marks@).len() == text::views(lines@).len());
    collect_failures(&lines, &marks)
}

// ---------------------------------------------------------------------------
// The counts
// ---------------------------------------------------------------------------

/// The number in the first group of a match, or zero.
pub open spec fn count_of(found: Option<Seq<Option<Seq<char>>>>) -> usize {
    match found {
        Some(groups) => match numbers::usize_text(patterns::group_text(groups, 1)) {
            Some(n) => n,
            None => 0,
        },
        None => 0,
    }
}

/// The result from what was found in a text: the counts of tests that passed, failed
/// and were skipped, the line on the run, whether `pass` is mentioned, and the failures. `None`
/// where no test is counted and none is mentioned.
pub open spec fn result_from(
    pass: Option<Seq<Option<Seq<char>>>>,
    fail: Option<Seq<Option<Seq<char>>>>,
    skip: Option<Seq<Option<Seq<char>>>>,
    ran: Option<Seq<Option<Seq<char>>>>,
    mentions_pass: bool,
    failures: Seq<test_report::FailureView>,
) -> Option<test_report::ResultView> {
    let passed = count_of(pass);
    let failed = count_of(fail);
    if passed == 0 && failed == 0 && !mentions_pass {
        None
    } else {
        Some(
            test_report::ResultView {
                total: match ran {
                    Some(groups) => match numbers::usize_text(patterns::group_text(groups, 1)) {
                        Some(n) => n,
                        None => (passed + failed) as usize,
                    },
                    None => (passed + failed) as usize,
                },
                passed,
                failed,
                skipped: count_of(skip),
                duration: match ran {
                    Some(groups) => Some(
                        test_report::DurationView {
                            number: patterns::group_text(groups, 2),
                            unit: if patterns::group_text(groups, 3) == "ms"@ {
                                TimeUnit::Millis
                            } else {
                                TimeUnit::Seconds
                            },
                        },
                    ),
                    None => None,
                },
                failures,
            },
        )
    }
}

fn count(found: &Option<Groups>) -> (n: usize)
    ensures
        n == count_of(patterns::match_view(*found)),
{
    match found {
        Some(groups) => {
            let digits: String = patterns::group(groups, 1);
            match numbers::parse_usize(digits.as_str()) {
                Some(n) => n,
                None => 0,
            }
        },
        None => 0,
    }
}

/// The result from what was found in a text.
pub fn summarize_text(
    pass: &Option<Groups>,
    fail: &Option<Groups>,
    skip: &Option<Groups>,
    ran: &Option<Groups>,
    mentions_pass: bool,
    failures: Vec<TestFailure>,
) -> (result: Option<TestResult>)
    requires
        count_of(patterns::match_view(*pass)) + count_of(patterns::match_view(*fail)) <= usize::MAX,
    ensures
        test_report::result_view(result) == result_from(
            patterns::match_view(*pass),
            patterns::match_view(*fail),
            patterns::match_view(*skip),
            patterns::match_view(*ran),
            mentions_pass,
            test_report::failure_views(failures@),
        ),
{
    let passed: usize = count(pass);
    let failed: usize = count(fail);
    if passed == 0 && failed == 0 && !mentions_pass {
        return None;
    }
    let mut total: usize = passed + failed;
    let mut duration: Option<Duration> = None;
    if let Some(groups) = ran {
        let digits: String = patterns::group(groups, 1);
        if let Some(n) = numbers::parse_usize(digits.as_str()) {
            total = n;
        }
        let number: String = patterns::group(groups, 2);
        let unit: String = patterns::group(groups, 3);
        let unit: TimeUnit = if text::str_eq(unit.as_str(), "ms") {
            TimeUnit::Millis
        } else {
            TimeUnit::Seconds
        };
        duration = Some(Duration { number, unit });
    }
    Some(TestResult { total, passed, failed, skipped: count(skip), duration, failures })
}

/// The result that a text reports, if it reports one.
pub open spec fn text_result(output: Seq<char>) -> Option<test_report::ResultView> {
    let clean = ansi::stripped(output);
    result_from(
        patterns::first_match(PASS_PATTERN@, clean),
        patterns::first_match(FAIL_PATTERN@, clean),
        patterns::first_match(SKIP_PATTERN@, clean),
        patterns::first_match(RAN_PATTERN@, clean),
        text::has_substring(clean, " pass"@),
        text_failures(clean),
    )
}

/// Whether the tests that a text counts can be added up.
pub open spec fn text_counts_fit(output: Seq<char>) -> bool {
    let clean = ansi::stripped(output);
    count_of(patterns::first_match(PASS_PATTERN@, clean)) + count_of(
        patterns::first_match(FAIL_PATTERN@, clean),
    ) <= usize::MAX
}

/// Whether the tests that a text counts can be added up.
pub fn do_text_counts_fit(output: &str) -> (yes: bool)
    ensures
        yes == text_counts_fit(output@),
{
    let clean: String = ansi::strip_ansi(output);
    let passed: usize = count(&patterns::captures(PASS_PATTERN, clean.as_str()));
    let failed: usize = count(&patterns::captures(FAIL_PATTERN, clean.as_str()));
    passed <= usize::MAX - failed
}

/// Reads the result of a test run from the text that the test runner printed. `None`
/// where the text counts no test and mentions none that passed.
pub fn parse_text_output(output: &str) -> (result: Option<TestResult>)
    requires
        text_counts_fit(output@),
    ensures
        test_report::result_view(result) == text_result(output@),
{
    let clean: String = ansi::strip_ansi(output);
    let pass: Option<Groups> = patterns::captures(PASS_PATTERN, clean.as_str());
    let fail: Option<Groups> = patterns::captures(FAIL_PATTERN, clean.as_str());
    let skip: Option<Groups> = patterns::captures(SKIP_PATTERN, clean.as_str());
    let ran: Option<Groups> = patterns::captures(RAN_PATTERN, clean.as_str());
    let mentions_pass: bool = text::contains_str(clean.as_str(), " pass");
    let failures: Vec<TestFailure> = extract_failures_from_text(clean.as_str());
    summarize_text(&pass, &fail, &skip, &ran, mentions_pass, failures)
}

// ---------------------------------------------------------------------------
// Laws
// ---------------------------------------------------------------------------

/// The names of the tests that marks report as failed, in their order.
pub open spec fn failed_tests(marks: Seq<MarkView>) -> Seq<Seq<char>>
    decreases marks.len(),
{
    if marks.len() == 0 {
        seq![]
    } else if marks.last().failed_test is Some {
        failed_tests(marks.drop_last()).push(marks.last().failed_test->0)
    } else {
        failed_tests(marks.drop_last())
    }
}

/// Each line that reports a failed test makes one failure, under the name that the
/// line gives, and nothing else does.
pub proof fn each_reported_test_fails_once(lines: Seq<Seq<char>>, marks: Seq<MarkView>)
    requires
        lines.len() == marks.len(),
    ensures
        ({
            let failures = failures_before(lines, marks, lines.len() as int);
            let names = failed_tests(marks);
            &&& failures.len() == names.len()
            &&& forall|k: int|
                0 <= k < names.len() ==> (#[trigger] failures[k]).test_name == names[k]
        }),
{
    lemma_failures_before(lines, marks, lines.len() as int);
    assert(marks.take(lines.len() as int) =~= marks);
}

proof fn lemma_failures_before(lines: Seq<Seq<char>>, marks: Seq<MarkView>, n: int)
    requires
        0 <= n <= marks.len(),
    ensures
        ({
            let failures = failures_before(lines, marks, n);
            let names = failed_tests(marks.take(n));
            &&& failures.len() == names.len()
            &&& forall|k: int|
                0 <= k < names.len() ==> (#[trigger] failures[k]).test_name == names[k]
        }),
    decreases n,
{
    if n > 0 {
        lemma_failures_before(lines, marks, n - 1);
        assert(marks.take(n).drop_last() =~= marks.take(n - 1));
        assert(marks.take(n).last() == marks[n - 1]);
    }
}

/// The lines of a message lie before the line that reports the failure, none but an
/// error at their beginning reports another, and no error begins in the middle. They
/// begin at the first line of the text, with an error, or right behind another failure.
pub proof fn messages_keep_to_their_failure(marks: Seq<MarkView>, i: int)
    requires
        0 <= i < marks.len(),
    ensures
        ({
            let start = block_start(marks, i - 1);
            &&& 0 <= start <= i
            &&& forall|j: int|
                start <= j < i ==> (#[trigger] marks[j]).failed_test is None || marks[j].is_error
                    && j == start
            &&& forall|j: int| start < j < i ==> !(#[trigger] marks[j]).is_error
            &&& start > 0 ==> start < i && marks[start].is_error || marks[start
                - 1].failed_test is Some
        }),
{
    lemma_block(marks, i - 1);
}

proof fn lemma_block(marks: Seq<MarkView>, k: int)
    requires
        -1 <= k < marks.len(),
    ensures
        ({
            let start = block_start(marks, k);
            &&& 0 <= start <= k + 1
            &&& forall|j: int|
                start <= j <= k ==> (#[trigger] marks[j]).failed_test is None || marks[j].is_error
                    && j == start
            &&& forall|j: int| start < j <= k ==> !(#[trigger] marks[j]).is_error
            &&& start > 0 ==> start <= k && marks[start].is_error || marks[start
                - 1].failed_test is Some
        }),
    decreases k + 1,
{
    if k >= 0 {
        lemma_block(marks, k - 1);
    }
}

/// The total and the duration of a text are those of its line on the run. Where there
/// is none, or its count is no number that the machine has, the total is the sum of the
/// tests that passed and of those that failed. The failures are those of the text
/// without its colours.
pub proof fn the_run_line_gives_the_total(output: Seq<char>)
    requires
        text_counts_fit(output),
        text_result(output) is Some,
    ensures
        ({
            let clean = ansi::stripped(output);
            let result = text_result(output)->0;
            &&& result.failures == text_failures(clean)
            &&& match patterns::first_match(RAN_PATTERN@, clean) {
                Some(groups) => {
                    &&& match numbers::usize_text(patterns::group_text(groups, 1)) {
                        Some(n) => result.total == n,
                        None => result.total == result.passed + result.failed,
                    }
                    &&& result.duration is Some
                    &&& result.duration->0.number == patterns::group_text(groups, 2)
                    &&& result.duration->0.unit == if patterns::group_text(groups, 3) == "ms"@ {
                        TimeUnit::Millis
                    } else {
                        TimeUnit::Seconds
                    }
                },
                None => result.total == result.passed + result.failed && result.duration is None,
            }
        }),
{
}

/// What a line must match to report a test that failed.
pub open spec fn fail_line(line: Seq<char>) -> Option<Seq<Option<Seq<char>>>> {
    patterns::first_match(r"\(fail\)\s+(.+?)\s+\["@, line)
}

/// Whether a line begins an error.
pub open spec fn error_line(line: Seq<char>) -> bool {
    patterns::matches_in(r"^error:"@, line)
}

/// The text of the first group of a match, empty where it took no part in it.
pub open spec fn first_group(groups: Seq<Option<Seq<char>>>) -> Seq<char> {
    if groups.len() > 1 && groups[1] is Some {
        groups[1]->0
    } else {
        seq![]
    }
}

/// The number in the first group of a match, or zero where there is none.
pub open spec fn first_number(found: Option<Seq<Option<Seq<char>>>>) -> usize {
    if found is Some && numbers::usize_text(first_group(found->0)) is Some {
        numbers::usize_text(first_group(found->0))->0
    } else {
        0
    }
}

/// The lines among the first `n` that report a test that failed, in their order.
pub open spec fn fail_lines(lines: Seq<Seq<char>>, n: nat) -> Seq<int> {
    Seq::new(n, |i: int| i).filter(|i: int| fail_line(lines[i]) is Some)
}

/// Whether the message on the failure that line `i` reports begins with line `start`: no
/// line from there on reports another failure or begins another error, and the message
/// goes back to the nearest error, to the nearest failure, or to the first line.
pub open spec fn is_message_start(lines: Seq<Seq<char>>, i: int, start: int) -> bool {
    &&& 0 <= start <= i
    &&& forall|j: int|
        start <= j < i && fail_line(#[trigger] lines[j]) is Some ==> j == start && error_line(
            lines[j],
        )
    &&& forall|j: int| start < j < i ==> !error_line(#[trigger] lines[j])
    &&& start == 0 || (start < i && error_line(lines[start])) || fail_line(
        lines[start - 1],
    ) is Some
}

/// Lines without the white space around them, and without those that are blank.
pub open spec fn message_lines(lines: Seq<Seq<char>>) -> Seq<Seq<char>> {
    lines.map_values(|line: Seq<char>| text::trimmed(line)).filter(
        |line: Seq<char>| line.len() > 0,
    )
}

proof fn lemma_message_lines(lines: Seq<Seq<char>>)
    ensures
        solid_lines(lines) == message_lines(lines),
    decreases lines.len(),
{
    let trim = |line: Seq<char>| text::trimmed(line);
    let pred = |line: Seq<char>| line.len() > 0;
    let all = lines.map_values(trim);
    if lines.len() == 0 {
        all.lemma_filter_len(pred);
        assert(solid_lines(lines) =~= message_lines(lines));
    } else {
        let fewer = lines.drop_last();
        lemma_message_lines(fewer);
        let front = fewer.map_values(trim);
        assert(all =~= front.push(text::trimmed(lines.last())));
        front.lemma_filter_push(text::trimmed(lines.last()), pred);
    }
}

/// Whether `f` is the failure that line `i` reports.
pub open spec fn is_reported_by(
    f: test_report::FailureView,
    lines: Seq<Seq<char>>,
    i: int,
) -> bool {
    &&& f.test_name == text::trimmed(first_group(fail_line(lines[i])->0))
    &&& f.file_path.len() == 0
    &&& f.stack_trace is None
    &&& exists|start: int| #[trigger]
        is_message_start(lines, i, start) && f.error_message == text::joined(
            message_lines(lines.subrange(start, i)),
            "\n"@,
        )
}

proof fn lemma_reported(lines: Seq<Seq<char>>, n: int)
    requires
        0 <= n <= lines.len(),
    ensures
        ({
            let failures = failures_before(lines, marks_of(lines), n);
            let hits = fail_lines(lines, n as nat);
            &&& failures.len() == hits.len()
            &&& forall|k: int| 0 <= k < hits.len() ==> 0 <= #[trigger] hits[k] < n
            &&& forall|k: int|
                0 <= k < hits.len() ==> is_reported_by(#[trigger] failures[k], lines, hits[k])
        }),
    decreases n,
{
    let marks = marks_of(lines);
    let pred = |i: int| fail_line(lines[i]) is Some;
    let all = Seq::new(n as nat, |i: int| i);
    if n == 0 {
        all.lemma_filter_len(pred);
    } else {
        let k = n - 1;
        let fewer = Seq::new(k as nat, |i: int| i);
        lemma_reported(lines, k);
        assert(all =~= fewer.push(k));
        fewer.lemma_filter_push(k, pred);
        assert(marks[k] == mark_of(lines[k]));
        if fail_line(lines[k]) is Some {
            let start = block_start(marks, k - 1);
            messages_keep_to_their_failure(marks, k);
            assert forall|j: int| 0 <= j < lines.len() implies (#[trigger] marks[j]).is_error
                == error_line(lines[j]) && (marks[j].failed_test is Some) == (fail_line(
                lines[j],
            ) is Some) by {}
            assert forall|j: int| start <= j < k && fail_line(
                #[trigger] lines[j],
            ) is Some implies j == start && error_line(lines[j]) by {
                assert(marks[j].failed_test is Some);
            }
            assert forall|j: int| start < j < k implies !error_line(#[trigger] lines[j]) by {
                assert(!marks[j].is_error);
            }
            if start > 0 {
                assert(start < k && marks[start].is_error || marks[start
                    - 1].failed_test is Some);
            }
            assert(is_message_start(lines, k, start));
            lemma_message_lines(lines.subrange(start, k));
            assert(is_reported_by(failure_at(lines, marks, k), lines, k));
        }
        let failures = failures_before(lines, marks, n);
        let hits = fail_lines(lines, n as nat);
        assert(hits == all.filter(pred));
        assert forall|j: int| 0 <= j < hits.len() implies 0 <= #[trigger] hits[j] < n by {
            if j < fewer.filter(pred).len() {
                assert(hits[j] == fail_lines(lines, k as nat)[j]);
            }
        }
        assert forall|j: int| 0 <= j < hits.len() implies is_reported_by(
            #[trigger] failures[j],
            lines,
            hits[j],
        ) by {
            if j < fewer.filter(pred).len() {
                assert(hits[j] == fail_lines(lines, k as nat)[j]);
                assert(failures[j] == failures_before(lines, marks, k)[j]);
            }
        }
    }
}

/// A line of a text makes a failure exactly where it matches the expression for a test
/// that failed, whatever else it holds. The failures come in the order of their lines,
/// and each has the name that its line gives and the message that stands before it.
pub proof fn fail_lines_make_failures(output: Seq<char>)
    ensures
        ({
            let lines = text::text_lines(output);
            let hits = fail_lines(lines, lines.len());
            let failures = text_failures(output);
            &&& failures.len() == hits.len()
            &&& forall|k: int| 0 <= k < hits.len() ==> 0 <= #[trigger] hits[k] < lines.len()
            &&& forall|k: int|
                0 <= k < hits.len() ==> is_reported_by(#[trigger] failures[k], lines, hits[k])
        }),
{
    lemma_reported(text::text_lines(output), text::text_lines(output).len() as int);
}

/// What a text says of the run: the numbers before `pass`, `fail` and `skip`, the number
/// and the duration of the line on the run, and the failures, all read without the
/// colours. There is a result exactly where a test is counted or ` pass` is mentioned.
/// Where the line on the run is missing or its number cannot be read, the tests that
/// passed and those that failed make the total.
pub proof fn the_text_counts_the_tests(output: Seq<char>)
    requires
        text_counts_fit(output),
    ensures
        ({
            let clean = ansi::stripped(output);
            let passed = first_number(patterns::first_match(r"(\d+)\s+pass"@, clean));
            let failed = first_number(patterns::first_match(r"(\d+)\s+fail"@, clean));
            let skipped = first_number(patterns::first_match(r"(\d+)\s+skip"@, clean));
            let ran = patterns::first_match(
                r"Ran\s+(\d+)\s+tests.*\[(\d+\.?\d*)(ms|s)\]"@,
                clean,
            );
            let result = text_result(output);
            &&& result is Some <==> passed > 0 || failed > 0 || text::has_substring(
                clean,
                " pass"@,
            )
            &&& result is Some ==> {
                let r = result->0;
                &&& r.passed == passed
                &&& r.failed == failed
                &&& r.skipped == skipped
                &&& r.failures == text_failures(clean)
                &&& ran is Some && numbers::usize_text(first_group(ran->0)) is Some ==> r.total
                    == first_number(ran)
                &&& ran is None || numbers::usize_text(first_group(ran->0)) is None ==> r.total
                    == passed + failed
                &&& r.duration is Some <==> ran is Some
                &&& ran is Some && ran->0.len() > 3 && ran->0[2] is Some && ran->0[3] is Some ==> {
                    &&& r.duration->0.number == ran->0[2]->0
                    &&& r.duration->0.unit == if ran->0[3]->0 == "ms"@ {
                        TimeUnit::Millis
                    } else {
                        TimeUnit::Seconds
                    }
                }
            }
        }),
{
}

/// The counts of a text can be added up unless the tests that passed and those that
/// failed are together more than the machine has a number for.
pub proof fn only_huge_counts_do_not_fit(output: Seq<char>)
    ensures
        text_counts_fit(output) <==> first_number(
            patterns::first_match(r"(\d+)\s+pass"@, ansi::stripped(output)),
        ) + first_number(patterns::first_match(r"(\d+)\s+fail"@, ansi::stripped(output)))
            <= usize::MAX,
{
}

/// A mark says of a line what it matches, and nothing else: the line reports a failure
/// exactly where it matches the expression for that, under the name that the first group
/// gives, and begins an error exactly where it matches the expression for that.
pub proof fn marks_say_what_lines_match(line: Seq<char>)
    ensures
        mark_of(line).failed_test is Some <==> fail_line(line) is Some,
        fail_line(line) is Some ==> mark_of(line).failed_test->0 == text::trimmed(
            first_group(fail_line(line)->0),
        ),
        mark_of(line).is_error == error_line(line),
{
}

/// The result from what was found in a text says what was found: the numbers in the first
/// groups, and the failures as they are.
pub proof fn what_was_found_makes_the_result(
    pass: Option<Seq<Option<Seq<char>>>>,
    fail: Option<Seq<Option<Seq<char>>>>,
    skip: Option<Seq<Option<Seq<char>>>>,
    ran: Option<Seq<Option<Seq<char>>>>,
    mentions_pass: bool,
    failures: Seq<test_report::FailureView>,
)
    requires
        first_number(pass) + first_number(fail) <= usize::MAX,
    ensures
        ({
            let result = result_from(pass, fail, skip, ran, mentions_pass, failures);
            &&& result is Some <==> first_number(pass) > 0 || first_number(fail) > 0
                || mentions_pass
            &&& result is Some ==> {
                let r = result->0;
                &&& r.passed == first_number(pass)
                &&& r.failed == first_number(fail)
                &&& r.skipped == first_number(skip)
                &&& r.failures == failures
                &&& r.total == if ran is Some && numbers::usize_text(
                    first_group(ran->0),
                ) is Some {
                    first_number(ran) as int
                } else {
                    r.passed + r.failed
                }
                &&& r.duration is Some <==> ran is Some
            }
        }),
{
}

/// Whether the message of the failure in line `i` begins with line `start`, by the marks.
pub open spec fn is_marked_start(marks: Seq<MarkView>, i: int, start: int) -> bool {
    &&& 0 <= start <= i
    &&& forall|j: int|
        start <= j < i && (#[trigger] marks[j]).failed_test is Some ==> j == start
            && marks[j].is_error
    &&& forall|j: int| start < j < i ==> !(#[trigger] marks[j]).is_error
    &&& start == 0 || (start < i && marks[start].is_error) || marks[start
        - 1].failed_test is Some
}

/// The failures that lines report, by the marks: one for each marked line, in their order,
/// with the name of the mark and the message that stands before the line.
pub proof fn marked_lines_make_failures(lines: Seq<Seq<char>>, marks: Seq<MarkView>, n: int)
    requires
        lines.len() == marks.len(),
        0 <= n <= lines.len(),
    ensures
        ({
            let failures = failures_before(lines, marks, n);
            let hits = Seq::new(n as nat, |i: int| i).filter(
                |i: int| marks[i].failed_test is Some,
            );
            &&& failures.len() == hits.len()
            &&& forall|k: int|
                0 <= k < hits.len() ==> {
                    let f = #[trigger] failures[k];
                    &&& 0 <= hits[k] < n
                    &&& f.test_name == marks[hits[k]].failed_test->0
                    &&& f.file_path.len() == 0
                    &&& f.stack_trace is None
                    &&& exists|start: int| #[trigger]
                        is_marked_start(marks, hits[k], start) && f.error_message == text::joined(
                            message_lines(lines.subrange(start, hits[k])),
                            "\n"@,
                        )
                }
        }),
    decreases n,
{
    let pred = |i: int| marks[i].failed_test is Some;
    let all = Seq::new(n as nat, |i: int| i);
    if n == 0 {
        all.lemma_filter_len(pred);
    } else {
        let k = n - 1;
        let fewer = Seq::new(k as nat, |i: int| i);
        marked_lines_make_failures(lines, marks, k);
        assert(all =~= fewer.push(k));
        fewer.lemma_filter_push(k, pred);
        if marks[k].failed_test is Some {
            let start = block_start(marks, k - 1);
            messages_keep_to_their_failure(marks, k);
            assert(is_marked_start(marks, k, start));
            lemma_message_lines(lines.subrange(start, k));
        }
    }
}

} // verus!

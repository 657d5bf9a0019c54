//! What a run of tests came to, and how it is shown.

use vstd::prelude::*;

use crate::numbers;
use crate::text;

verus! {

/// A test that failed.
#[derive(Debug)]
pub struct TestFailure {
    pub test_name: String,
    pub file_path: String,
    pub error_message: String,
    pub stack_trace: Option<String>,
}

/// The unit of a duration.
#[derive(Debug, Clone, Copy, PartialEq, Eq, Structural)]
pub enum TimeUnit {
    Seconds,
    Millis,
}

/// A duration as the test runner wrote it: a number in decimal notation, and its unit.
#[derive(Debug)]
pub struct Duration {
    pub number: String,
    pub unit: TimeUnit,
}

/// What a run of tests came to.
#[derive(Debug)]
pub struct TestResult {
    pub total: usize,
    pub passed: usize,
    pub failed: usize,
    pub skipped: usize,
    pub duration: Option<Duration>,
    pub failures: Vec<TestFailure>,
}

/// The view of a failure.
pub struct FailureView {
    pub test_name: Seq<char>,
    pub file_path: Seq<char>,
    pub error_message: Seq<char>,
    pub stack_trace: Option<Seq<char>>,
}

/// The view of a duration.
pub struct DurationView {
    pub number: Seq<char>,
    pub unit: TimeUnit,
}

/// The view of the result of a run.
#[verifier::ext_equal]
pub struct ResultView {
    pub total: usize,
    pub passed: usize,
    pub failed: usize,
    pub skipped: usize,
    pub duration: Option<DurationView>,
    pub failures: Seq<FailureView>,
}

impl View for TestFailure {
    type V = FailureView;

    open spec fn view(&self) -> FailureView {
        FailureView {
            test_name: self.test_name@,
            file_path: self.file_path@,
            error_message: self.error_message@,
            stack_trace: text::opt_view(self.stack_trace),
        }
    }
}

impl View for Duration {
    type V = DurationView;

    open spec fn view(&self) -> DurationView {
        DurationView { number: self.number@, unit: self.unit }
    }
}

/// The views of failures.
pub open spec fn failure_views(failures: Seq<TestFailure>) -> Seq<FailureView> {
    Seq::new(failures.len(), |k: int| failures[k]@)
}

/// The view of a duration that may be missing.
pub open spec fn duration_view(d: Option<Duration>) -> Option<DurationView> {
    match d {
        Some(d) => Some(d@),
        None => None,
    }
}

impl View for TestResult {
    type V = ResultView;

    open spec fn view(&self) -> ResultView {
        ResultView {
            total: self.total,
            passed: self.passed,
            failed: self.failed,
            skipped: self.skipped,
            duration: duration_view(self.duration),
            failures: failure_views(self.failures@),
        }
    }
}

/// The view of a result that may be missing.
pub open spec fn result_view(r: Option<TestResult>) -> Option<ResultView> {
    match r {
        Some(r) => Some(r@),
        None => None,
    }
}

// ---------------------------------------------------------------------------
// What came of reading the output
// ---------------------------------------------------------------------------

/// What came of reading the output of a tool.
#[derive(Debug)]
pub enum ParseResult<T> {
    /// The output was read in its structured form.
    Full(T),
    /// The output was read as text, with what was lost.
    Degraded(T, Vec<String>),
    /// The output could not be read and is passed on.
    Passthrough(String),
}

impl<T> ParseResult<T> {
    /// How the output was read: 1 in its structured form, 2 as text, 3 not at all.
    pub fn tier(&self) -> (tier: u8)
        ensures
            tier == match self {
                ParseResult::Full(_) => 1u8,
                ParseResult::Degraded(_, _) => 2u8,
                ParseResult::Passthrough(_) => 3u8,
            },
    {
        match self {
            ParseResult::Full(_) => 1,
            ParseResult::Degraded(_, _) => 2,
            ParseResult::Passthrough(_) => 3,
        }
    }

    /// Whether the output could be read.
    pub fn is_ok(&self) -> (yes: bool)
        ensures
            yes == !(self is Passthrough),
    {
        match self {
            ParseResult::Passthrough(_) => false,
            _ => true,
        }
    }

    /// What was read.
    pub fn unwrap(self) -> (value: T)
        requires
            !(self is Passthrough),
        ensures
            match self {
                ParseResult::Full(v) => value == v,
                ParseResult::Degraded(v, _) => value == v,
                ParseResult::Passthrough(_) => false,
            },
    {
        match self {
            ParseResult::Full(v) => v,
            ParseResult::Degraded(v, _) => v,
            ParseResult::Passthrough(_) => vstd::pervasive::unreached(),
        }
    }
}

// ---------------------------------------------------------------------------
// How it is shown
// ---------------------------------------------------------------------------

/// The lines on one failure: its name, and its message where there is one.
pub open spec fn failure_lines(f: FailureView) -> Seq<char> {
    "\n  ✗ "@ + f.test_name + if f.error_message.len() > 0 {
        "\n    "@ + f.error_message
    } else {
        seq![]
    }
}

/// The lines on all failures.
pub open spec fn all_failure_lines(failures: Seq<FailureView>) -> Seq<char>
    decreases failures.len(),
{
    if failures.len() == 0 {
        seq![]
    } else {
        all_failure_lines(failures.drop_last()) + failure_lines(failures.last())
    }
}

/// The result in short: one line with the counts, and below it the failures.
pub open spec fn compact(r: ResultView) -> Seq<char> {
    "PASS ("@ + numbers::decimal(r.passed as nat) + ") FAIL ("@ + numbers::decimal(r.failed as nat)
        + ")"@ + all_failure_lines(r.failures)
}

impl TestResult {
    /// The result in short: one line with the counts, and below it the failures.
    pub fn format_compact(&self) -> (shown: String)
        ensures
            shown@ == compact(self@),
    {
        let mut shown: String = "PASS (".to_owned();
        let passed: String = numbers::usize_to_string(self.passed);
        shown.append(passed.as_str());
        shown.append(") FAIL (");
        let failed: String = numbers::usize_to_string(self.failed);
        shown.append(failed.as_str());
        shown.append(")");
        let ghost head = shown@;
        let ghost all = failure_views(self.failures@);
        let mut k: usize = 0;
        assert(shown@ =~= head + all_failure_lines(all.take(0)));
        while k < self.failures.len()
            invariant
                k <= self.failures@.len(),
                all == failure_views(self.failures@),
                shown@ == head + all_failure_lines(all.take(k as int)),
            decreases self.failures@.len() - k,
        {
            let failure: &TestFailure = &self.failures[k];
            let ghost before = shown@;
            proof {
                assert(all.take(k + 1).drop_last() =~= all.take(k as int));
                assert(all.take(k + 1).last() == failure@);
            }
            shown.append("\n  ✗ ");
            shown.append(failure.test_name.as_str());
            if !failure.error_message.as_str().is_empty() {
                shown.append("\n    ");
                shown.append(failure.error_message.as_str());
            }
            assert(shown@ =~= before + failure_lines(failure@));
            assert(shown@ =~= head + all_failure_lines(all.take(k + 1)));
            k += 1;
        }
        assert(all.take(self.failures@.len() as int) =~= all);
        shown
    }
}

/// A run without failures is shown in one line, which gives the counts.
pub proof fn clean_runs_take_one_line(r: ResultView)
    requires
        r.failures.len() == 0,
    ensures
        compact(r) == "PASS ("@ + numbers::decimal(r.passed as nat) + ") FAIL ("@
            + numbers::decimal(r.failed as nat) + ")"@,
        !compact(r).contains('\n'),
{
    let line = "PASS ("@ + numbers::decimal(r.passed as nat) + ") FAIL ("@ + numbers::decimal(
        r.failed as nat,
    ) + ")"@;
    assert(compact(r) =~= line);
    reveal_strlit("PASS (");
    reveal_strlit(") FAIL (");
    reveal_strlit(")");
    numbers::decimals_are_digits(r.passed as nat);
    numbers::decimals_are_digits(r.failed as nat);
    let passed = numbers::decimal(r.passed as nat);
    let failed = numbers::decimal(r.failed as nat);
    assert forall|k: int| 0 <= k < line.len() implies line[k] != '\n' by {
        let p = passed.len() as int;
        let f = failed.len() as int;
        if k < 6 {
            assert(line[k] == "PASS ("@[k]);
        } else if k < 6 + p {
            assert(line[k] == passed[k - 6]);
        } else if k < 14 + p {
            assert(line[k] == ") FAIL ("@[k - 6 - p]);
        } else if k < 14 + p + f {
            assert(line[k] == failed[k - 14 - p]);
        } else {
            assert(line[k] == ")"@[0]);
        }
    }
}

/// A text that is found in a part is found in the whole.
proof fn lemma_found_in_part(front: Seq<char>, part: Seq<char>, back: Seq<char>, s: Seq<char>)
    requires
        text::has_substring(part, s),
    ensures
        text::has_substring(front + part + back, s),
{
    let i = choose|i: int|
        0 <= i <= part.len() - s.len() && #[trigger] part.subrange(i, i + s.len()) == s;
    let at = front.len() + i;
    assert((front + part + back).subrange(at, at + s.len()) =~= part.subrange(i, i + s.len()));
}

proof fn lemma_found_at(s: Seq<char>, part: Seq<char>, i: int)
    requires
        0 <= i <= s.len() - part.len(),
        s.subrange(i, i + part.len()) == part,
    ensures
        text::has_substring(s, part),
{
}

/// A text is found in itself, and so is the empty text in any.
proof fn lemma_found_in_itself(s: Seq<char>)
    ensures
        text::has_substring(s, s),
        text::has_substring(s, Seq::<char>::empty()),
{
    assert(s.subrange(0, s.len() as int) =~= s);
    lemma_found_at(s, s, 0);
    assert(s.subrange(0, 0) =~= Seq::<char>::empty());
    lemma_found_at(s, Seq::<char>::empty(), 0);
}

/// Each failure is shown with its name and its message.
pub proof fn each_failure_is_shown(r: ResultView, k: int)
    requires
        0 <= k < r.failures.len(),
    ensures
        text::has_substring(compact(r), r.failures[k].test_name),
        text::has_substring(compact(r), r.failures[k].error_message),
{
    let head = "PASS ("@ + numbers::decimal(r.passed as nat) + ") FAIL ("@ + numbers::decimal(
        r.failed as nat,
    ) + ")"@;
    let lines = all_failure_lines(r.failures);
    lemma_failure_is_listed(r.failures, k);
    assert(compact(r) =~= head + lines + seq![]);
    lemma_found_in_part(head, lines, seq![], r.failures[k].test_name);
    lemma_found_in_part(head, lines, seq![], r.failures[k].error_message);
}

proof fn lemma_failure_is_listed(failures: Seq<FailureView>, k: int)
    requires
        0 <= k < failures.len(),
    ensures
        text::has_substring(all_failure_lines(failures), failures[k].test_name),
        text::has_substring(all_failure_lines(failures), failures[k].error_message),
    decreases failures.len(),
{
    let lines = all_failure_lines(failures);
    let front = all_failure_lines(failures.drop_last());
    let last = failure_lines(failures.last());
    let name = failures[k].test_name;
    let message = failures[k].error_message;
    if k == failures.len() - 1 {
        let back = if message.len() > 0 {
            "\n    "@ + message
        } else {
            seq![]
        };
        lemma_found_in_itself(name);
        lemma_found_in_part("\n  ✗ "@, name, back, name);
        lemma_found_in_itself(message);
        if message.len() > 0 {
            let before = "\n  ✗ "@ + name + "\n    "@;
            lemma_found_in_part(before, message, seq![], message);
            assert(last =~= before + message + seq![]);
        } else {
            lemma_found_in_itself(last);
            assert(message =~= Seq::<char>::empty());
        }
        assert(lines =~= front + last + seq![]);
        lemma_found_in_part(front, last, seq![], name);
        lemma_found_in_part(front, last, seq![], message);
    } else {
        assert(failures.drop_last()[k] == failures[k]);
        lemma_failure_is_listed(failures.drop_last(), k);
        assert(lines =~= seq![] + front + last);
        lemma_found_in_part(seq![], front, last, name);
        lemma_found_in_part(seq![], front, last, message);
    }
}

/// One failure more is two lines more: its name behind a mark, and below it its message,
/// where there is one. The counts stay as they are.
pub proof fn each_failure_adds_its_lines(r: ResultView, f: FailureView)
    ensures
        compact(ResultView { failures: r.failures.push(f), ..r }) == compact(r) + "\n  ✗ "@
            + f.test_name + if f.error_message.len() > 0 {
            "\n    "@ + f.error_message
        } else {
            seq![]
        },
{
    let more = r.failures.push(f);
    assert(more.drop_last() =~= r.failures);
    assert(compact(ResultView { failures: more, ..r }) =~= compact(r) + failure_lines(f));
    assert(compact(r) + failure_lines(f) =~= compact(r) + "\n  ✗ "@ + f.test_name
        + if f.error_message.len() > 0 {
        "\n    "@ + f.error_message
    } else {
        seq![]
    });
}

/// Only the counts of tests that passed and failed and the failures are shown.
pub proof fn nothing_else_is_shown(a: ResultView, b: ResultView)
    requires
        a.passed == b.passed,
        a.failed == b.failed,
        a.failures == b.failures,
    ensures
        compact(a) == compact(b),
{
}

} // verus!

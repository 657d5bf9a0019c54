//! `bun test`: which arguments `bun` gets, and what is shown of the result.
//!
//! The output is read as a JUnit report, or else as the text that `bun` prints for
//! people; what cannot be read is passed on, cut short.

use vstd::prelude::*;

use crate::junit;
use crate::test_report;
use crate::test_report::{ParseResult, TestResult};
use crate::test_text;
use crate::text;
use crate::xml;
use crate::xml::XmlEvent;

verus! {

// ---------------------------------------------------------------------------
// The arguments
// ---------------------------------------------------------------------------

/// Whether an argument of the user is passed on: it neither repeats the subcommand,
/// nor chooses a reporter, nor keeps `bun` running.
pub open spec fn is_passed_on(arg: Seq<char>) -> bool {
    &&& arg != "test"@
    &&& !"--reporter"@.is_prefix_of(arg)
    &&& !"--watch"@.is_prefix_of(arg)
    &&& arg != "--hot"@
}

/// What `bun` is called with.
pub open spec fn test_args(args: Seq<Seq<char>>) -> Seq<Seq<char>> {
    seq!["test"@, "--reporter=junit"@] + args.filter(|arg: Seq<char>| is_passed_on(arg))
}

fn passes_on(arg: &str) -> (yes: bool)
    ensures
        yes == is_passed_on(arg@),
{
    !text::str_eq(arg, "test") && !text::starts_with(arg, "--reporter") && !text::starts_with(
        arg,
        "--watch",
    ) && !text::str_eq(arg, "--hot")
}

/// The arguments of `bun` for the arguments of the user.
pub fn plan_test(args: &Vec<String>) -> (out: Vec<String>)
    ensures
        text::views(out@) == test_args(text::views(args@)),
{
    let mut out: Vec<String> = Vec::new();
    out.push("test".to_owned());
    out.push("--reporter=junit".to_owned());
    let ghost start = seq!["test"@, "--reporter=junit"@];
    let ghost all = text::views(args@);
    let ghost pred = |arg: Seq<char>| is_passed_on(arg);
    proof {
        all.take(0).lemma_filter_len(pred);
        assert(text::views(out@) =~= start + all.take(0).filter(pred));
    }
    let mut i: usize = 0;
    while i < args.len()
        invariant
            i <= args@.len(),
            all == text::views(args@),
            pred == (|arg: Seq<char>| is_passed_on(arg)),
            text::views(out@) == start + all.take(i as int).filter(pred),
        decreases args@.len() - i,
    {
        proof {
            assert(all.take(i + 1) =~= all.take(i as int).push(all[i as int]));
            all.take(i as int).lemma_filter_push(all[i as int], pred);
        }
        if passes_on(args[i].as_str()) {
            let arg: String = args[i].clone();
            assert(text::views(out@.push(arg)) =~= text::views(out@).push(arg@));
            assert((start + all.take(i as int).filter(pred)).push(arg@) =~= start + all.take(
                i as int,
            ).filter(pred).push(arg@));
            out.push(arg);
        }
        i += 1;
    }
    assert(all.take(args@.len() as int) =~= all);
    out
}

// ---------------------------------------------------------------------------
// The result
// ---------------------------------------------------------------------------

/// The view of what came of reading the output.
pub enum OutcomeView {
    Full(test_report::ResultView),
    Degraded(test_report::ResultView, Seq<Seq<char>>),
    Passthrough(Seq<char>),
}

/// The view of what came of reading the output.
pub open spec fn outcome_view(r: ParseResult<TestResult>) -> OutcomeView {
    match r {
        ParseResult::Full(result) => OutcomeView::Full(result@),
        ParseResult::Degraded(result, warnings) => OutcomeView::Degraded(
            result@,
            text::views(warnings@),
        ),
        ParseResult::Passthrough(raw) => OutcomeView::Passthrough(raw@),
    }
}

/// The first `max` characters of a text.
pub open spec fn cut_short(s: Seq<char>, max: usize) -> Seq<char> {
    if s.len() <= max {
        s
    } else {
        s.take(max as int)
    }
}

/// What comes of the output: the result of the report where there is one, or else
/// that of the text, or else the output, cut short.
pub open spec fn outcome(
    report: Option<test_report::ResultView>,
    text: Option<test_report::ResultView>,
    input: Seq<char>,
    max: usize,
) -> OutcomeView {
    match (report, text) {
        (Some(result), _) => OutcomeView::Full(result),
        (None, Some(result)) => OutcomeView::Degraded(
            result,
            seq!["XML parse failed; using regex tier"@],
        ),
        (None, None) => OutcomeView::Passthrough(cut_short(input, max)),
    }
}

/// What comes of an output.
pub open spec fn parsed(input: Seq<char>, max: usize) -> OutcomeView {
    outcome(
        junit::junit_result(xml::xml_events(input, true)),
        test_text::text_result(input),
        input,
        max,
    )
}

/// Whether the counts of an output can be added up.
pub open spec fn counts_fit(input: Seq<char>) -> bool {
    let events = xml::xml_events(input, true);
    junit::counts_fit(events) && (junit::is_junit(events) || test_text::text_counts_fit(input))
}

/// The first `max` characters of a text.
pub fn truncate_passthrough(s: &str, max: usize) -> (short: String)
    ensures
        short@ == cut_short(s@, max),
{
    let chars: Vec<char> = text::chars_of(s);
    let to: usize = if chars.len() <= max {
        chars.len()
    } else {
        max
    };
    let short: String = text::substring(&chars, 0, to);
    assert(short@ =~= cut_short(s@, max));
    short
}

/// What comes of an output, from the result of the report and that of the text.
pub fn choose_result(
    report: Option<TestResult>,
    text: Option<TestResult>,
    input: &str,
    max: usize,
) -> (result: ParseResult<TestResult>)
    ensures
        outcome_view(result) == outcome(
            test_report::result_view(report),
            test_report::result_view(text),
            input@,
            max,
        ),
{
    if let Some(result) = report {
        return ParseResult::Full(result);
    }
    if let Some(result) = text {
        let mut warnings: Vec<String> = Vec::new();
        warnings.push("XML parse failed; using regex tier".to_owned());
        assert(text::views(warnings@) =~= seq!["XML parse failed; using regex tier"@]);
        return ParseResult::Degraded(result, warnings);
    }
    ParseResult::Passthrough(truncate_passthrough(input, max))
}

/// Reads the output of `bun test`.
pub struct BunTestParser;

impl BunTestParser {
    /// Reads an output, of which at most `max` characters are passed on.
    pub fn parse(input: &str, max: usize) -> (result: ParseResult<TestResult>)
        requires
            counts_fit(input@),
        ensures
            outcome_view(result) == parsed(input@, max),
    {
        let report: Option<TestResult> = junit::parse_junit_xml(input);
        let text: Option<TestResult> = if report.is_some() {
            None
        } else {
            test_text::parse_text_output(input)
        };
        choose_result(report, text, input, max)
    }

    /// Reads an output, of which at most `max` characters are passed on. `None` where
    /// its counts cannot be added up.
    pub fn try_parse(input: &str, max: usize) -> (result: Option<ParseResult<TestResult>>)
        ensures
            (result is Some) == counts_fit(input@),
            result is Some ==> outcome_view(result->0) == parsed(input@, max),
    {
        let events: Vec<XmlEvent> = xml::read_events(input);
        assert(xml::event_views(events@).len() == events@.len());
        if !junit::event_counts_fit(&events) {
            return None;
        }
        if junit::summarize_events(&events).is_none() && !test_text::do_text_counts_fit(input) {
            return None;
        }
        Some(BunTestParser::parse(input, max))
    }
}

// ---------------------------------------------------------------------------
// What is shown
// ---------------------------------------------------------------------------

/// What is told on the side about how the output was read.
#[derive(Debug)]
pub enum Notice {
    /// The report was read.
    Report,
    /// The text was read, for this reason.
    Degraded(String),
    /// Nothing was read, for this reason.
    Passthrough(String),
}

/// What is shown of a test run: a text, and what is told on the side.
#[derive(Debug)]
pub struct Presentation {
    pub text: String,
    pub notice: Option<Notice>,
}

/// The view of a notice.
pub enum NoticeView {
    Report,
    Degraded(Seq<char>),
    Passthrough(Seq<char>),
}

/// The view of a notice that may be missing.
pub open spec fn notice_view(notice: Option<Notice>) -> Option<NoticeView> {
    match notice {
        Some(Notice::Report) => Some(NoticeView::Report),
        Some(Notice::Degraded(reason)) => Some(NoticeView::Degraded(reason@)),
        Some(Notice::Passthrough(reason)) => Some(NoticeView::Passthrough(reason@)),
        None => None,
    }
}

/// The text that is shown.
pub open spec fn shown_text(outcome: OutcomeView) -> Seq<char> {
    match outcome {
        OutcomeView::Full(result) => test_report::compact(result),
        OutcomeView::Degraded(result, _) => test_report::compact(result),
        OutcomeView::Passthrough(raw) => raw,
    }
}

/// What is told on the side: how the output was read, where the user wants to know,
/// and in any case that nothing was read.
pub open spec fn shown_notice(outcome: OutcomeView, verbose: u8) -> Option<NoticeView> {
    match outcome {
        OutcomeView::Full(_) if verbose > 0 => Some(NoticeView::Report),
        OutcomeView::Degraded(_, warnings) if verbose > 0 => Some(
            NoticeView::Degraded(text::joined(warnings, ", "@)),
        ),
        OutcomeView::Passthrough(_) => Some(NoticeView::Passthrough("All parsing tiers failed"@)),
        _ => None,
    }
}

/// What is shown of a test run.
pub fn present(result: ParseResult<TestResult>, verbose: u8) -> (shown: Presentation)
    ensures
        shown.text@ == shown_text(outcome_view(result)),
        notice_view(shown.notice) == shown_notice(outcome_view(result), verbose),
{
    match result {
        ParseResult::Full(data) => {
            let notice: Option<Notice> = if verbose > 0 {
                Some(Notice::Report)
            } else {
                None
            };
            Presentation { text: data.format_compact(), notice }
        },
        ParseResult::Degraded(data, warnings) => {
            let notice: Option<Notice> = if verbose > 0 {
                Some(Notice::Degraded(text::join(&warnings, ", ")))
            } else {
                None
            };
            Presentation { text: data.format_compact(), notice }
        },
        ParseResult::Passthrough(raw) => Presentation {
            text: raw,
            notice: Some(Notice::Passthrough("All parsing tiers failed".to_owned())),
        },
    }
}

// ---------------------------------------------------------------------------
// Laws
// ---------------------------------------------------------------------------

/// `bun` writes a report whatever the user asks for: the subcommand and the reporter
/// come first, and no other argument chooses a reporter, repeats the subcommand or
/// keeps `bun` running.
pub proof fn the_reporter_is_always_junit(args: Seq<Seq<char>>, k: int)
    requires
        0 <= k < test_args(args).len(),
    ensures
        k == 0 ==> test_args(args)[k] == "test"@,
        k == 1 ==> test_args(args)[k] == "--reporter=junit"@,
        k > 1 ==> is_passed_on(test_args(args)[k]) && args.contains(test_args(args)[k]),
{
    if k > 1 {
        let pred = |arg: Seq<char>| is_passed_on(arg);
        let passed = args.filter(pred);
        args.lemma_filter_pred(pred, k - 2);
        assert(passed.contains(passed[k - 2]));
        args.lemma_filter_contains_rev(pred, passed[k - 2]);
    }
}

/// What is passed on unread is the beginning of the output, and all of it where it is
/// short enough.
pub proof fn unread_output_is_cut_at_the_end(s: Seq<char>, max: usize)
    ensures
        cut_short(s, max).is_prefix_of(s),
        cut_short(s, max).len() <= max,
        s.len() <= max ==> cut_short(s, max) == s,
{
    assert(s.take(s.len() as int) =~= s);
}

/// The report comes first, whatever the text looks like, then the text, and what is
/// neither is passed on, cut short.
pub proof fn the_report_comes_first(input: Seq<char>, max: usize)
    ensures
        ({
            let report = junit::junit_result(xml::xml_events(input, true));
            let text = test_text::text_result(input);
            &&& report is Some ==> parsed(input, max) == OutcomeView::Full(report->0)
            &&& report is None && text is Some ==> parsed(input, max) == OutcomeView::Degraded(
                text->0,
                seq!["XML parse failed; using regex tier"@],
            )
            &&& report is None && text is None ==> parsed(input, max) == OutcomeView::Passthrough(
                cut_short(input, max),
            )
        }),
{
}

/// An output is passed on unread exactly where it holds neither a report nor a text
/// that counts tests, and only then is that told without being asked for.
pub proof fn unread_output_is_always_told(input: Seq<char>, max: usize)
    ensures
        parsed(input, max) is Passthrough <==> junit::junit_result(
            xml::xml_events(input, true),
        ) is None && test_text::text_result(input) is None,
        parsed(input, max) is Passthrough <==> shown_notice(parsed(input, max), 0) is Some,
{
}

/// The arguments of the user reach `bun` unchanged and in their order, behind the
/// subcommand and the reporter, but for those that repeat the subcommand, choose a
/// reporter or keep `bun` running.
pub proof fn other_arguments_are_passed_on(args: Seq<Seq<char>>)
    ensures
        test_args(args) == seq!["test"@, "--reporter=junit"@] + args.filter(
            |arg: Seq<char>|
                !(arg == "test"@ || arg == "--hot"@ || "--reporter"@.is_prefix_of(arg)
                    || "--watch"@.is_prefix_of(arg)),
        ),
{
    let a = |arg: Seq<char>| is_passed_on(arg);
    let b = |arg: Seq<char>|
        !(arg == "test"@ || arg == "--hot"@ || "--reporter"@.is_prefix_of(arg)
            || "--watch"@.is_prefix_of(arg));
    assert forall|arg: Seq<char>| #[trigger] a(arg) == b(arg) by {}
    assert(a =~= b);
}

/// A long text is cut to exactly as many characters as are allowed.
pub proof fn long_texts_are_cut_to_the_limit(s: Seq<char>, max: usize)
    ensures
        s.len() > max ==> cut_short(s, max) == s.take(max as int) && cut_short(s, max).len() == max,
        s.len() <= max ==> cut_short(s, max) == s,
{
}

/// The report comes before the text, and the text before the output itself.
pub proof fn each_tier_gives_its_result(
    report: Option<test_report::ResultView>,
    text: Option<test_report::ResultView>,
    input: Seq<char>,
    max: usize,
)
    ensures
        report is Some ==> outcome(report, text, input, max) == OutcomeView::Full(report->0),
        report is None && text is Some ==> outcome(report, text, input, max)
            == OutcomeView::Degraded(text->0, seq!["XML parse failed; using regex tier"@]),
        report is None && text is None && input.len() <= max ==> outcome(report, text, input, max)
            == OutcomeView::Passthrough(input),
        report is None && text is None && input.len() > max ==> outcome(report, text, input, max)
            == OutcomeView::Passthrough(input.take(max as int)),
{
}

/// What is shown is the result in short, or the output itself where there is none. How the
/// output was read is told to a user who asks, and that it was not read to everyone.
pub proof fn what_is_shown_and_told(
    result: test_report::ResultView,
    warnings: Seq<Seq<char>>,
    raw: Seq<char>,
    verbose: u8,
)
    ensures
        shown_text(OutcomeView::Full(result)) == test_report::compact(result),
        shown_text(OutcomeView::Degraded(result, warnings)) == test_report::compact(result),
        shown_text(OutcomeView::Passthrough(raw)) == raw,
        shown_notice(OutcomeView::Full(result), verbose) == if verbose == 0 {
            None
        } else {
            Some(NoticeView::Report)
        },
        shown_notice(OutcomeView::Degraded(result, warnings), verbose) == if verbose == 0 {
            None
        } else {
            Some(NoticeView::Degraded(text::joined(warnings, ", "@)))
        },
        shown_notice(OutcomeView::Passthrough(raw), verbose) == Some(
            NoticeView::Passthrough("All parsing tiers failed"@),
        ),
{
}

/// An output can be read unless the counts of its report, or of its text where it holds no
/// report, cannot be added up.
pub proof fn only_huge_counts_are_refused(input: Seq<char>)
    ensures
        counts_fit(input) <==> {
            let events = xml::xml_events(input, true);
            if junit::junit_result(events) is Some {
                junit::junit_result(events)->0.failed + junit::junit_result(events)->0.skipped
                    <= usize::MAX
            } else {
                test_text::text_counts_fit(input)
            }
        },
{
}

} // verus!

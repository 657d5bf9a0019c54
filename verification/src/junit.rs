//! The result of a test run, read from a JUnit report.

use vstd::prelude::*;
use vstd::utf8::*;

use crate::numbers;
use crate::test_report;
use crate::test_report::{Duration, TestFailure, TestResult, TimeUnit};
use crate::text;
use crate::xml;
use crate::xml::{XmlEvent, XmlTag};

verus! {

// ---------------------------------------------------------------------------
// Names and attributes
// ---------------------------------------------------------------------------

/// `:`, which separates the prefix of a name from the rest.
pub const COLON: u8 = 58;

/// The name without its prefix: what stands behind the last colon.
pub open spec fn local_part(name: Seq<u8>) -> Seq<u8>
    decreases name.len(),
{
    if name.len() == 0 || name.last() == COLON {
        seq![]
    } else {
        local_part(name.drop_last()).push(name.last())
    }
}

/// What stands behind a colon, and holds none, is the local part.
proof fn lemma_local_part(name: Seq<u8>, from: int)
    requires
        0 <= from <= name.len(),
        from > 0 ==> name[from - 1] == COLON,
        forall|i: int| from <= i < name.len() ==> name[i] != COLON,
    ensures
        local_part(name) == name.skip(from),
    decreases name.len() - from,
{
    if from == name.len() {
        assert(name.skip(from) =~= seq![]);
    } else {
        lemma_local_part(name.drop_last(), from);
        assert(name.skip(from) =~= name.drop_last().skip(from).push(name.last()));
    }
}

/// The name without its prefix.
pub fn local_name(name: &[u8]) -> (local: &[u8])
    ensures
        local@ == local_part(name@),
{
    let mut from: usize = name.len();
    while from > 0 && name[from - 1] != COLON
        invariant
            from <= name@.len(),
            forall|i: int| from <= i < name@.len() ==> name@[i] != COLON,
        decreases from,
    {
        from -= 1;
    }
    proof {
        lemma_local_part(name@, from as int);
        assert(name@.subrange(from as int, name@.len() as int) =~= name@.skip(from as int));
    }
    vstd::slice::slice_subrange(name, from, name.len())
}

/// Whether a name without its prefix is `word`.
pub open spec fn is_named(name: Seq<u8>, word: Seq<char>) -> bool {
    local_part(name) == encode_utf8(word)
}

fn has_name(name: &[u8], word: &str) -> (yes: bool)
    ensures
        yes == is_named(name@, word@),
{
    text::bytes_eq(local_name(name), word.as_bytes())
}

/// The text of the first attribute with the name `key` whose value can be read.
pub open spec fn attr_text(attributes: Seq<Option<xml::AttributeView>>, key: Seq<char>) -> Option<
    Seq<char>,
>
    decreases attributes.len(),
{
    if attributes.len() == 0 {
        None
    } else {
        match attributes[0] {
            Some(a) if is_named(a.key, key) && xml::unescaped(a.value) is Some => xml::unescaped(
                a.value,
            ),
            _ => attr_text(attributes.skip(1), key),
        }
    }
}

/// The text of the first attribute with the name `key` whose value can be read.
pub fn extract_attr(tag: &XmlTag, key: &str) -> (value: Option<String>)
    ensures
        text::opt_view(value) == attr_text(tag@.attributes, key@),
{
    let ghost all = tag@.attributes;
    let mut k: usize = 0;
    assert(all.skip(0) =~= all);
    while k < tag.attributes.len()
        invariant
            k <= tag.attributes@.len(),
            all == tag@.attributes,
            attr_text(all, key@) == attr_text(all.skip(k as int), key@),
        decreases tag.attributes@.len() - k,
    {
        let ghost rest = all.skip(k as int);
        proof {
            assert(rest[0] == all[k as int]);
            assert(rest.skip(1) =~= all.skip(k + 1));
        }
        if let Some(a) = &tag.attributes[k] {
            assert(rest[0] == Some(a@));
            if has_name(a.key.as_slice(), key) {
                if let Some(value) = xml::unescape_value(a.value.as_slice()) {
                    return Some(value);
                }
            }
        }
        k += 1;
    }
    None
}

/// The number in the attribute `key`, or zero where there is none.
pub open spec fn attr_number(attributes: Seq<Option<xml::AttributeView>>, key: Seq<char>) -> usize {
    match attr_text(attributes, key) {
        Some(value) => match numbers::usize_text(value) {
            Some(n) => n,
            None => 0,
        },
        None => 0,
    }
}

/// The number in the attribute `key`, or zero where there is none.
pub fn parse_usize_attr(tag: &XmlTag, key: &str) -> (n: usize)
    ensures
        n == attr_number(tag@.attributes, key@),
{
    match extract_attr(tag, key) {
        Some(value) => match numbers::parse_usize(value.as_str()) {
            Some(n) => n,
            None => 0,
        },
        None => 0,
    }
}

// ---------------------------------------------------------------------------
// The report, event by event
// ---------------------------------------------------------------------------

/// What has been read of a report.
#[verifier::ext_equal]
pub struct ReportView {
    /// Whether the element `testsuites` was met, and what it says.
    pub saw_suites: bool,
    pub total: usize,
    pub failed: usize,
    pub skipped: usize,
    /// The last readable `time` of a `testsuites`, in seconds.
    pub time: Option<Seq<char>>,
    /// The failures so far.
    pub failures: Seq<test_report::FailureView>,
    /// Whether an element `testcase` is open, and whether it has a `failure`.
    pub in_case: bool,
    pub case_failed: bool,
    /// The name and file of the last `testcase`.
    pub case_name: Option<Seq<char>>,
    pub case_file: Option<Seq<char>>,
}

/// Nothing read yet.
pub open spec fn empty_report() -> ReportView {
    ReportView {
        saw_suites: false,
        total: 0,
        failed: 0,
        skipped: 0,
        time: None,
        failures: seq![],
        in_case: false,
        case_failed: false,
        case_name: None,
        case_file: None,
    }
}

/// What an optional text is, where nothing is the empty text.
pub open spec fn or_empty(s: Option<Seq<char>>) -> Seq<char> {
    match s {
        Some(s) => s,
        None => seq![],
    }
}

/// The failure of the test case that is open.
pub open spec fn case_failure(s: ReportView) -> test_report::FailureView {
    test_report::FailureView {
        test_name: or_empty(s.case_name),
        file_path: or_empty(s.case_file),
        error_message: "AssertionError"@,
        stack_trace: None,
    }
}

/// The element `testsuites` gives the counts, and the time where it can be read.
pub open spec fn with_suites(s: ReportView, tag: xml::TagView) -> ReportView {
    ReportView {
        saw_suites: true,
        total: attr_number(tag.attributes, "tests"@),
        failed: attr_number(tag.attributes, "failures"@),
        skipped: attr_number(tag.attributes, "skipped"@),
        time: match attr_text(tag.attributes, "time"@) {
            Some(t) if numbers::float_text(t) => Some(t),
            _ => s.time,
        },
        ..s
    }
}

/// The element `testcase` gives the name and file of a test.
pub open spec fn with_case(s: ReportView, tag: xml::TagView) -> ReportView {
    ReportView {
        case_name: attr_text(tag.attributes, "name"@),
        case_file: attr_text(tag.attributes, "file"@),
        ..s
    }
}

/// What an event adds to what has been read.
pub open spec fn report_step(s: ReportView, event: xml::EventView) -> ReportView {
    match event {
        xml::EventView::Start(tag) => if is_named(tag.name, "testsuites"@) {
            with_suites(s, tag)
        } else if is_named(tag.name, "testcase"@) {
            ReportView { in_case: true, case_failed: false, ..with_case(s, tag) }
        } else if is_named(tag.name, "failure"@) && s.in_case {
            ReportView { case_failed: true, ..s }
        } else {
            s
        },
        xml::EventView::Empty(tag) => if is_named(tag.name, "testsuites"@) {
            with_suites(s, tag)
        } else if is_named(tag.name, "failure"@) && s.in_case {
            ReportView { case_failed: true, ..s }
        } else if is_named(tag.name, "testcase"@) {
            with_case(s, tag)
        } else {
            s
        },
        xml::EventView::End(name) => if is_named(name, "testcase"@) && s.in_case {
            ReportView {
                failures: if s.case_failed {
                    s.failures.push(case_failure(s))
                } else {
                    s.failures
                },
                in_case: false,
                case_failed: false,
                case_name: None,
                case_file: None,
                ..s
            }
        } else {
            s
        },
        _ => s,
    }
}

/// What has been read after several events.
pub open spec fn report_of(events: Seq<xml::EventView>) -> ReportView
    decreases events.len(),
{
    if events.len() == 0 {
        empty_report()
    } else {
        report_step(report_of(events.drop_last()), events.last())
    }
}

/// Whether the events of a document are those of a report: the document is well
/// formed and has an element `testsuites`.
pub open spec fn is_junit(events: Seq<xml::EventView>) -> bool {
    events.last() is Eof && report_of(events).saw_suites
}

/// Whether the tests that did not pass can be counted.
pub open spec fn counts_fit(events: Seq<xml::EventView>) -> bool {
    is_junit(events) ==> report_of(events).failed + report_of(events).skipped <= usize::MAX
}

/// The tests that passed: those that neither failed nor were skipped.
pub open spec fn passed_of(s: ReportView) -> usize {
    if s.total >= s.failed + s.skipped {
        (s.total - (s.failed + s.skipped)) as usize
    } else {
        0
    }
}

/// The result that the events of a document report, if they are those of a report.
pub open spec fn junit_result(events: Seq<xml::EventView>) -> Option<test_report::ResultView> {
    if is_junit(events) {
        let s = report_of(events);
        Some(
            test_report::ResultView {
                total: s.total,
                passed: passed_of(s),
                failed: s.failed,
                skipped: s.skipped,
                duration: match s.time {
                    Some(t) => Some(
                        test_report::DurationView { number: t, unit: TimeUnit::Seconds },
                    ),
                    None => None,
                },
                failures: s.failures,
            },
        )
    } else {
        None
    }
}

/// What has been read of a report.
struct Report {
    saw_suites: bool,
    total: usize,
    failed: usize,
    skipped: usize,
    time: Option<String>,
    failures: Vec<TestFailure>,
    in_case: bool,
    case_failed: bool,
    case_name: Option<String>,
    case_file: Option<String>,
}

impl View for Report {
    type V = ReportView;

    closed spec fn view(&self) -> ReportView {
        ReportView {
            saw_suites: self.saw_suites,
            total: self.total,
            failed: self.failed,
            skipped: self.skipped,
            time: text::opt_view(self.time),
            failures: test_report::failure_views(self.failures@),
            in_case: self.in_case,
            case_failed: self.case_failed,
            case_name: text::opt_view(self.case_name),
            case_file: text::opt_view(self.case_file),
        }
    }
}

fn text_or_empty(s: &Option<String>) -> (t: String)
    ensures
        t@ == or_empty(text::opt_view(*s)),
{
    match s {
        Some(s) => s.clone(),
        None => String::new(),
    }
}

impl Report {
    fn new() -> (report: Report)
        ensures
            report@ == empty_report(),
    {
        let report: Report = Report {
            saw_suites: false,
            total: 0,
            failed: 0,
            skipped: 0,
            time: None,
            failures: Vec::new(),
            in_case: false,
            case_failed: false,
            case_name: None,
            case_file: None,
        };
        assert(report@ =~= empty_report());
        report
    }

    fn read_suites(&mut self, tag: &XmlTag)
        ensures
            final(self)@ == with_suites(old(self)@, tag@),
    {
        self.saw_suites = true;
        self.total = parse_usize_attr(tag, "tests");
        self.failed = parse_usize_attr(tag, "failures");
        self.skipped = parse_usize_attr(tag, "skipped");
        if let Some(t) = extract_attr(tag, "time") {
            if numbers::is_float_text(t.as_str()) {
                self.time = Some(t);
            }
        }
        assert(self@ =~= with_suites(old(self)@, tag@));
    }

    fn read_case(&mut self, tag: &XmlTag)
        ensures
            final(self)@ == with_case(old(self)@, tag@),
    {
        self.case_name = extract_attr(tag, "name");
        self.case_file = extract_attr(tag, "file");
        assert(self@ =~= with_case(old(self)@, tag@));
    }

    fn end_case(&mut self)
        requires
            old(self)@.in_case,
        ensures
            forall|name: Seq<u8>|
                is_named(name, "testcase"@) ==> final(self)@ == #[trigger] report_step(
                    old(self)@,
                    xml::EventView::End(name),
                ),
    {
        if self.case_failed {
            let failure: TestFailure = TestFailure {
                test_name: text_or_empty(&self.case_name),
                file_path: text_or_empty(&self.case_file),
                error_message: "AssertionError".to_owned(),
                stack_trace: None,
            };
            proof {
                assert(test_report::failure_views(self.failures@.push(failure))
                    =~= test_report::failure_views(self.failures@).push(failure@));
                assert(failure@ == case_failure(old(self)@));
            }
            self.failures.push(failure);
        }
        self.in_case = false;
        self.case_failed = false;
        self.case_name = None;
        self.case_file = None;
        assert forall|name: Seq<u8>| is_named(name, "testcase"@) implies self@
            == #[trigger] report_step(old(self)@, xml::EventView::End(name)) by {
            assert(self@ =~= report_step(old(self)@, xml::EventView::End(name)));
        }
    }

    fn read(&mut self, event: &XmlEvent)
        ensures
            final(self)@ == report_step(old(self)@, event@),
    {
        match event {
            XmlEvent::Start(tag) => {
                if has_name(tag.name.as_slice(), "testsuites") {
                    self.read_suites(tag);
                } else if has_name(tag.name.as_slice(), "testcase") {
                    self.read_case(tag);
                    self.in_case = true;
                    self.case_failed = false;
                    assert(self@ =~= report_step(old(self)@, event@));
                } else if has_name(tag.name.as_slice(), "failure") && self.in_case {
                    self.case_failed = true;
                    assert(self@ =~= report_step(old(self)@, event@));
                }
            },
            XmlEvent::Empty(tag) => {
                if has_name(tag.name.as_slice(), "testsuites") {
                    self.read_suites(tag);
                } else if has_name(tag.name.as_slice(), "failure") && self.in_case {
                    self.case_failed = true;
                    assert(self@ =~= report_step(old(self)@, event@));
                } else if has_name(tag.name.as_slice(), "testcase") {
                    self.read_case(tag);
                }
            },
            XmlEvent::End(name) => {
                if has_name(name.as_slice(), "testcase") && self.in_case {
                    self.end_case();
                }
            },
            _ => {},
        }
    }
}

/// Whether the events of a document are a report in which the tests that did not
/// pass can be counted, or no report at all.
pub fn event_counts_fit(events: &Vec<XmlEvent>) -> (yes: bool)
    requires
        events@.len() > 0,
    ensures
        yes == counts_fit(xml::event_views(events@)),
{
    let report: Report = read_report(events);
    let well_formed: bool = ends_well(events);
    !(well_formed && report.saw_suites) || report.failed <= usize::MAX - report.skipped
}

fn read_report(events: &Vec<XmlEvent>) -> (report: Report)
    ensures
        report@ == report_of(xml::event_views(events@)),
{
    let ghost all = xml::event_views(events@);
    let mut report: Report = Report::new();
    let mut k: usize = 0;
    assert(all.take(0) =~= seq![]);
    while k < events.len()
        invariant
            k <= events@.len(),
            all == xml::event_views(events@),
            report@ == report_of(all.take(k as int)),
        decreases events@.len() - k,
    {
        assert(all.take(k + 1).drop_last() =~= all.take(k as int));
        report.read(&events[k]);
        k += 1;
    }
    assert(all.take(events@.len() as int) =~= all);
    report
}

fn ends_well(events: &Vec<XmlEvent>) -> (yes: bool)
    requires
        events@.len() > 0,
    ensures
        yes == xml::event_views(events@).last() is Eof,
{
    assert(xml::event_views(events@).last() == events@.last()@);
    match &events[events.len() - 1] {
        XmlEvent::Eof => true,
        _ => false,
    }
}

/// The result that the events of a document report. `None` where the document is not
/// well formed or has no element `testsuites`.
pub fn summarize_events(events: &Vec<XmlEvent>) -> (result: Option<TestResult>)
    requires
        events@.len() > 0,
        counts_fit(xml::event_views(events@)),
    ensures
        test_report::result_view(result) == junit_result(xml::event_views(events@)),
{
    if !ends_well(events) {
        return None;
    }
    let report: Report = read_report(events);
    if !report.saw_suites {
        return None;
    }
    let other: usize = report.failed + report.skipped;
    let passed: usize = if report.total >= other {
        report.total - other
    } else {
        0
    };
    let duration: Option<Duration> = match report.time {
        Some(number) => Some(Duration { number, unit: TimeUnit::Seconds }),
        None => None,
    };
    let result: TestResult = TestResult {
        total: report.total,
        passed,
        failed: report.failed,
        skipped: report.skipped,
        duration,
        failures: report.failures,
    };
    assert(Some(result@) == junit_result(xml::event_views(events@)));
    Some(result)
}

/// Reads the result of a test run from a JUnit report. `None` where the document is
/// not well formed or has no element `testsuites`.
pub fn parse_junit_xml(xml: &str) -> (result: Option<TestResult>)
    requires
        counts_fit(xml::xml_events(xml@, true)),
    ensures
        test_report::result_view(result) == junit_result(xml::xml_events(xml@, true)),
{
    let events: Vec<XmlEvent> = xml::read_events(xml);
    assert(xml::event_views(events@).len() == events@.len());
    summarize_events(&events)
}

// ---------------------------------------------------------------------------
// Laws
// ---------------------------------------------------------------------------

/// Where the report does not count more tests as failed or skipped than there are,
/// each test passed, failed or was skipped.
pub proof fn counts_add_up(events: Seq<xml::EventView>)
    requires
        is_junit(events),
        report_of(events).failed + report_of(events).skipped <= report_of(events).total,
    ensures
        junit_result(events)->0.total == junit_result(events)->0.passed
            + junit_result(events)->0.failed + junit_result(events)->0.skipped,
{
}

/// The element that an event opens, if it opens one.
pub open spec fn opened_tag(event: xml::EventView) -> Option<xml::TagView> {
    match event {
        xml::EventView::Start(tag) => Some(tag),
        xml::EventView::Empty(tag) => Some(tag),
        _ => None,
    }
}

/// Whether an event opens an element with the name `word`.
pub open spec fn opens(event: xml::EventView, word: Seq<char>) -> bool {
    opened_tag(event) is Some && is_named(opened_tag(event)->0.name, word)
}

/// Whether an event closes an element with the name `word`.
pub open spec fn closes(event: xml::EventView, word: Seq<char>) -> bool {
    event is End && is_named(event->End_0, word)
}

/// The counts are those of the last element `testsuites`.
pub proof fn last_testsuites_gives_the_counts(events: Seq<xml::EventView>, k: int)
    requires
        0 <= k < events.len(),
        opens(events[k], "testsuites"@),
        forall|j: int| k < j < events.len() ==> !opens(#[trigger] events[j], "testsuites"@),
    ensures
        ({
            let s = report_of(events);
            let attributes = opened_tag(events[k])->0.attributes;
            &&& s.saw_suites
            &&& s.total == attr_number(attributes, "tests"@)
            &&& s.failed == attr_number(attributes, "failures"@)
            &&& s.skipped == attr_number(attributes, "skipped"@)
        }),
    decreases events.len(),
{
    let fewer = events.drop_last();
    if k < events.len() - 1 {
        assert(fewer[k] == events[k]);
        last_testsuites_gives_the_counts(fewer, k);
        assert(!opens(events[events.len() - 1], "testsuites"@));
    }
}

/// Without an element `testsuites` there is no result.
pub proof fn only_testsuites_makes_a_report(events: Seq<xml::EventView>)
    requires
        forall|j: int| 0 <= j < events.len() ==> !opens(#[trigger] events[j], "testsuites"@),
    ensures
        !report_of(events).saw_suites,
        junit_result(events) is None,
    decreases events.len(),
{
    if events.len() > 0 {
        let fewer = events.drop_last();
        assert forall|j: int| 0 <= j < fewer.len() implies !opens(
            #[trigger] fewer[j],
            "testsuites"@,
        ) by {
            assert(fewer[j] == events[j]);
        }
        only_testsuites_makes_a_report(fewer);
        assert(!opens(events[events.len() - 1], "testsuites"@));
    }
}

/// The names of the elements differ.
proof fn lemma_names_differ(name: Seq<u8>)
    ensures
        is_named(name, "testsuites"@) ==> !is_named(name, "testcase"@),
        is_named(name, "testsuites"@) ==> !is_named(name, "failure"@),
        is_named(name, "testcase"@) ==> !is_named(name, "failure"@),
{
    reveal_strlit("testsuites");
    reveal_strlit("testcase");
    reveal_strlit("failure");
    encode_utf8_decode_utf8("testsuites"@);
    encode_utf8_decode_utf8("testcase"@);
    encode_utf8_decode_utf8("failure"@);
    assert("testsuites"@[4] != "testcase"@[4]);
    assert("testsuites"@[0] != "failure"@[0]);
    assert("testcase"@[0] != "failure"@[0]);
}

/// Whether the events between the tags of a test case belong to no other.
pub open spec fn inside_case(events: Seq<xml::EventView>) -> bool {
    forall|j: int|
        0 <= j < events.len() ==> !opens(#[trigger] events[j], "testcase"@) && !closes(
            events[j],
            "testcase"@,
        )
}

/// Whether there is an element `failure` among the events.
pub open spec fn holds_failure(events: Seq<xml::EventView>) -> bool {
    exists|j: int| 0 <= j < events.len() && opens(#[trigger] events[j], "failure"@)
}

/// What has been read between the tags of a test case.
proof fn lemma_inside_case(
    before: Seq<xml::EventView>,
    case: xml::TagView,
    inside: Seq<xml::EventView>,
)
    requires
        is_named(case.name, "testcase"@),
        inside_case(inside),
    ensures
        ({
            let s = report_of(before.push(xml::EventView::Start(case)) + inside);
            &&& s.in_case
            &&& s.case_failed == holds_failure(inside)
            &&& s.case_name == attr_text(case.attributes, "name"@)
            &&& s.case_file == attr_text(case.attributes, "file"@)
            &&& s.failures == report_of(before).failures
        }),
    decreases inside.len(),
{
    let start = before.push(xml::EventView::Start(case));
    if inside.len() == 0 {
        assert(start + inside =~= start);
        assert(start.drop_last() =~= before);
        lemma_names_differ(case.name);
    } else {
        let fewer = inside.drop_last();
        let event = inside.last();
        assert forall|j: int| 0 <= j < fewer.len() implies !opens(
            #[trigger] fewer[j],
            "testcase"@,
        ) && !closes(fewer[j], "testcase"@) by {
            assert(fewer[j] == inside[j]);
        }
        lemma_inside_case(before, case, fewer);
        assert((start + inside).drop_last() =~= start + fewer);
        assert(event == inside[inside.len() - 1]);
        assert(!opens(event, "testcase"@) && !closes(event, "testcase"@));
        match opened_tag(event) {
            Some(tag) => lemma_names_differ(tag.name),
            None => {},
        }
        if holds_failure(fewer) {
            let j = choose|j: int| 0 <= j < fewer.len() && opens(#[trigger] fewer[j], "failure"@);
            assert(opens(inside[j], "failure"@));
        }
        if holds_failure(inside) {
            let j = choose|j: int| 0 <= j < inside.len() && opens(#[trigger] inside[j], "failure"@);
            if j < fewer.len() {
                assert(opens(fewer[j], "failure"@));
            }
        }
    }
}

/// A test case is reported as a failure, under its name and file, exactly where it
/// holds an element `failure`.
pub proof fn cases_with_a_failure_are_reported(
    before: Seq<xml::EventView>,
    case: xml::TagView,
    inside: Seq<xml::EventView>,
    end: Seq<u8>,
)
    requires
        is_named(case.name, "testcase"@),
        inside_case(inside),
        is_named(end, "testcase"@),
    ensures
        ({
            let events = (before.push(xml::EventView::Start(case)) + inside).push(
                xml::EventView::End(end),
            );
            report_of(events).failures == if holds_failure(inside) {
                report_of(before).failures.push(
                    test_report::FailureView {
                        test_name: or_empty(attr_text(case.attributes, "name"@)),
                        file_path: or_empty(attr_text(case.attributes, "file"@)),
                        error_message: "AssertionError"@,
                        stack_trace: None,
                    },
                )
            } else {
                report_of(before).failures
            }
        }),
        attr_text(case.attributes, "name"@) is Some ==> or_empty(
            attr_text(case.attributes, "name"@),
        ) == attr_text(case.attributes, "name"@)->0,
        attr_text(case.attributes, "file"@) is Some ==> or_empty(
            attr_text(case.attributes, "file"@),
        ) == attr_text(case.attributes, "file"@)->0,
{
    let open = before.push(xml::EventView::Start(case)) + inside;
    lemma_inside_case(before, case, inside);
    assert(open.push(xml::EventView::End(end)).drop_last() =~= open);
}

/// A test case without an inside counts as passed: its event adds no failure.
pub proof fn self_closing_cases_pass(before: Seq<xml::EventView>, case: xml::TagView)
    ensures
        report_of(before.push(xml::EventView::Empty(case))).failures == report_of(before).failures,
{
    assert(before.push(xml::EventView::Empty(case)).drop_last() =~= before);
}

/// Whether a name is `word`, alone or behind a prefix and a colon.
pub open spec fn is_prefixed(name: Seq<u8>, word: Seq<char>) -> bool {
    name == encode_utf8(word) || exists|prefix: Seq<u8>|
        name == #[trigger] (prefix + seq![58u8] + encode_utf8(word))
}

proof fn lemma_local_suffix(name: Seq<u8>)
    ensures
        ({
            let local = local_part(name);
            let from = name.len() - local.len();
            &&& local.len() <= name.len()
            &&& local == name.skip(from)
            &&& from > 0 ==> name[from - 1] == 58
            &&& !local.contains(58u8)
        }),
    decreases name.len(),
{
    if name.len() == 0 || name.last() == COLON {
        assert(name.skip(name.len() as int) =~= seq![]);
    } else {
        let fewer = name.drop_last();
        lemma_local_suffix(fewer);
        let local = local_part(name);
        let from = name.len() - local.len();
        assert(local =~= name.skip(from));
        assert forall|i: int| 0 <= i < local.len() implies local[i] != 58 by {
            if i < local.len() - 1 {
                assert(local[i] == local_part(fewer)[i]);
                assert(local_part(fewer).contains(local_part(fewer)[i]));
            }
        }
    }
}

/// A name is told without its prefix: it is a word, which holds no colon, exactly where it
/// is that word alone or behind a prefix and a colon.
pub proof fn names_are_told_without_their_prefix(name: Seq<u8>, word: Seq<char>)
    requires
        !encode_utf8(word).contains(58u8),
    ensures
        is_named(name, word) <==> is_prefixed(name, word),
{
    let bytes = encode_utf8(word);
    lemma_local_suffix(name);
    let from = name.len() - local_part(name).len();
    if is_named(name, word) {
        if from == 0 {
            assert(name.skip(0) =~= name);
        } else {
            let prefix = name.take(from - 1);
            assert(name =~= prefix + seq![58u8] + bytes);
        }
    }
    if is_prefixed(name, word) {
        assert forall|i: int| 0 <= i < bytes.len() implies bytes[i] != 58 by {
            assert(bytes.contains(bytes[i]));
        }
        if name == bytes {
            lemma_local_part(name, 0);
            assert(name.skip(0) =~= name);
        } else {
            let prefix = choose|prefix: Seq<u8>|
                name == #[trigger] (prefix + seq![58u8] + bytes);
            let k = prefix.len() + 1;
            assert(name.skip(k as int) =~= bytes);
            assert forall|i: int| k <= i < name.len() implies name[i] != 58 by {
                assert(name[i] == bytes[i - k]);
            }
            lemma_local_part(name, k as int);
        }
    }
}

/// Whether attribute `k` has the name `key` and a value that can be read.
pub open spec fn is_readable(
    attributes: Seq<Option<xml::AttributeView>>,
    key: Seq<char>,
    k: int,
) -> bool {
    &&& 0 <= k < attributes.len()
    &&& attributes[k] is Some
    &&& is_named(attributes[k]->0.key, key)
    &&& xml::unescaped(attributes[k]->0.value) is Some
}

/// The text of an attribute is the value of the first that has its name and can be read,
/// and its number is that text read as one, or zero where that cannot be.
pub proof fn the_first_readable_attribute_counts(
    attributes: Seq<Option<xml::AttributeView>>,
    key: Seq<char>,
)
    ensures
        forall|k: int| #[trigger]
            is_readable(attributes, key, k) && (forall|j: int|
                0 <= j < k ==> !#[trigger] is_readable(attributes, key, j)) ==> attr_text(
                attributes,
                key,
            ) == xml::unescaped(attributes[k]->0.value),
        (forall|k: int| !#[trigger] is_readable(attributes, key, k)) ==> attr_text(
            attributes,
            key,
        ) is None,
        attr_text(attributes, key) is None ==> attr_number(attributes, key) == 0,
        attr_text(attributes, key) is Some ==> attr_number(attributes, key) == {
            let n = numbers::usize_text(attr_text(attributes, key)->0);
            if n is Some {
                n->0
            } else {
                0
            }
        },
    decreases attributes.len(),
{
    if attributes.len() > 0 {
        let rest = attributes.skip(1);
        the_first_readable_attribute_counts(rest, key);
        assert forall|k: int| #[trigger] is_readable(rest, key, k) implies is_readable(
            attributes,
            key,
            k + 1,
        ) by {
            assert(rest[k] == attributes[k + 1]);
        }
        assert forall|k: int| #[trigger] is_readable(attributes, key, k) && (forall|j: int|
            0 <= j < k ==> !#[trigger] is_readable(attributes, key, j)) implies attr_text(
            attributes,
            key,
        ) == xml::unescaped(attributes[k]->0.value) by {
            if k > 0 {
                assert(!is_readable(attributes, key, 0));
                assert(rest[k - 1] == attributes[k]);
                assert(is_readable(rest, key, k - 1));
                assert forall|j: int| 0 <= j < k - 1 implies !#[trigger] is_readable(
                    rest,
                    key,
                    j,
                ) by {
                    if is_readable(rest, key, j) {
                        assert(is_readable(attributes, key, j + 1));
                    }
                }
            }
        }
        if forall|k: int| !#[trigger] is_readable(attributes, key, k) {
            assert(!is_readable(attributes, key, 0));
            assert forall|k: int| !#[trigger] is_readable(rest, key, k) by {
                if is_readable(rest, key, k) {
                    assert(is_readable(attributes, key, k + 1));
                }
            }
        }
    }
}

/// Whether a test case is opened, with an end to come.
pub open spec fn begins_case(event: xml::EventView) -> bool {
    event is Start && is_named(event->Start_0.name, "testcase"@)
}

/// Whether the test case that event `i` opens is still open before event `j`.
pub open spec fn is_open_from(events: Seq<xml::EventView>, i: int, j: int) -> bool {
    &&& 0 <= i < j
    &&& begins_case(events[i])
    &&& forall|m: int|
        i < m < j ==> !begins_case(#[trigger] events[m]) && !closes(events[m], "testcase"@)
}

/// Whether event `m` is the last before event `j` that names a test case.
pub open spec fn names_case(events: Seq<xml::EventView>, m: int, j: int) -> bool {
    &&& 0 <= m < j
    &&& opens(events[m], "testcase"@)
    &&& forall|n: int| m < n < j ==> !opens(#[trigger] events[n], "testcase"@)
}

/// Whether an element `failure` stands between two events.
pub open spec fn failure_between(events: Seq<xml::EventView>, i: int, j: int) -> bool {
    exists|m: int| i < m < j && opens(#[trigger] events[m], "failure"@)
}

/// Whether event `j` closes a test case that holds an element `failure`.
pub open spec fn ends_failed_case(events: Seq<xml::EventView>, j: int) -> bool {
    &&& closes(events[j], "testcase"@)
    &&& exists|i: int| #[trigger] is_open_from(events, i, j) && failure_between(events, i, j)
}

/// The ends of the test cases that hold an element `failure`, in their order.
pub open spec fn failed_ends(events: Seq<xml::EventView>, n: nat) -> Seq<int> {
    Seq::new(n, |j: int| j).filter(|j: int| ends_failed_case(events, j))
}

/// Whether `t` is an optional text, or empty where there is none.
pub open spec fn is_text_or_empty(t: Seq<char>, s: Option<Seq<char>>) -> bool {
    &&& s is Some ==> t == s->0
    &&& s is None ==> t.len() == 0
}

/// Whether `f` is the failure of the test case that event `j` closes: it has the name and
/// the file that the case was given last.
pub open spec fn is_failure_of(
    f: test_report::FailureView,
    events: Seq<xml::EventView>,
    j: int,
) -> bool {
    &&& exists|m: int| #[trigger]
        names_case(events, m, j) && is_text_or_empty(
            f.test_name,
            attr_text(opened_tag(events[m])->0.attributes, "name"@),
        ) && is_text_or_empty(
            f.file_path,
            attr_text(opened_tag(events[m])->0.attributes, "file"@),
        )
    &&& f.error_message == "AssertionError"@
    &&& f.stack_trace is None
}

proof fn lemma_open_case(events: Seq<xml::EventView>, n: int)
    requires
        0 <= n <= events.len(),
    ensures
        ({
            let s = report_of(events.take(n));
            &&& s.in_case ==> exists|i: int| #[trigger]
                is_open_from(events, i, n) && s.case_failed == failure_between(events, i, n)
            &&& !s.in_case ==> forall|i: int| !#[trigger] is_open_from(events, i, n)
            &&& s.in_case ==> exists|m: int| #[trigger]
                names_case(events, m, n) && s.case_name == attr_text(
                    opened_tag(events[m])->0.attributes,
                    "name"@,
                ) && s.case_file == attr_text(opened_tag(events[m])->0.attributes, "file"@)
        }),
    decreases n,
{
    if n > 0 {
        let k = n - 1;
        let event = events[k];
        let before = report_of(events.take(k));
        let s = report_of(events.take(n));
        lemma_open_case(events, k);
        assert(events.take(n).drop_last() =~= events.take(k));
        assert(events.take(n).last() == event);
        match opened_tag(event) {
            Some(tag) => lemma_names_differ(tag.name),
            None => {},
        }
        if begins_case(event) {
            assert(is_open_from(events, k, n));
            assert(!failure_between(events, k, n));
            assert(names_case(events, k, n));
        } else if closes(event, "testcase"@) {
            assert forall|i: int| !#[trigger] is_open_from(events, i, n) by {
                if is_open_from(events, i, n) {
                    assert(i < k);
                    assert(!closes(events[k], "testcase"@));
                }
            }
        } else {
            assert(s.in_case == before.in_case);
            if before.in_case {
                let i = choose|i: int| #[trigger]
                    is_open_from(events, i, k) && before.case_failed == failure_between(
                        events,
                        i,
                        k,
                    );
                assert forall|m: int| i < m < n implies !begins_case(#[trigger] events[m])
                    && !closes(events[m], "testcase"@) by {
                    if m < k {
                    }
                }
                assert(is_open_from(events, i, n));
                if failure_between(events, i, k) {
                    let m = choose|m: int| i < m < k && opens(#[trigger] events[m], "failure"@);
                    assert(opens(events[m], "failure"@));
                }
                if opens(event, "failure"@) {
                    assert(failure_between(events, i, n));
                } else if failure_between(events, i, n) {
                    let m = choose|m: int| i < m < n && opens(#[trigger] events[m], "failure"@);
                    assert(m < k);
                    assert(failure_between(events, i, k));
                }
                assert(s.case_failed == failure_between(events, i, n));
                if opens(event, "testcase"@) {
                    assert(names_case(events, k, n));
                } else {
                    let m = choose|m: int| #[trigger]
                        names_case(events, m, k) && before.case_name == attr_text(
                            opened_tag(events[m])->0.attributes,
                            "name"@,
                        ) && before.case_file == attr_text(
                            opened_tag(events[m])->0.attributes,
                            "file"@,
                        );
                    assert forall|j: int| m < j < n implies !opens(
                        #[trigger] events[j],
                        "testcase"@,
                    ) by {
                        if j < k {
                        }
                    }
                    assert(names_case(events, m, n));
                }
            } else {
                assert forall|i: int| !#[trigger] is_open_from(events, i, n) by {
                    if is_open_from(events, i, n) {
                        assert(i < k);
                        assert(is_open_from(events, i, k));
                    }
                }
            }
        }
    }
}

proof fn lemma_failed_ends(events: Seq<xml::EventView>, n: int)
    requires
        0 <= n <= events.len(),
    ensures
        ({
            let failures = report_of(events.take(n)).failures;
            let ends = failed_ends(events, n as nat);
            &&& failures.len() == ends.len()
            &&& forall|k: int|
                0 <= k < ends.len() ==> is_failure_of(#[trigger] failures[k], events, ends[k])
        }),
    decreases n,
{
    let pred = |j: int| ends_failed_case(events, j);
    let all = Seq::new(n as nat, |j: int| j);
    if n == 0 {
        all.lemma_filter_len(pred);
    } else {
        let k = n - 1;
        let fewer = Seq::new(k as nat, |j: int| j);
        let before = report_of(events.take(k));
        let s = report_of(events.take(n));
        lemma_failed_ends(events, k);
        lemma_open_case(events, k);
        assert(all =~= fewer.push(k));
        fewer.lemma_filter_push(k, pred);
        assert(events.take(n).drop_last() =~= events.take(k));
        assert(events.take(n).last() == events[k]);
        if closes(events[k], "testcase"@) && before.in_case {
            let i = choose|i: int| #[trigger]
                is_open_from(events, i, k) && before.case_failed == failure_between(events, i, k);
            if before.case_failed {
                assert(ends_failed_case(events, k));
                let m = choose|m: int| #[trigger]
                    names_case(events, m, k) && before.case_name == attr_text(
                        opened_tag(events[m])->0.attributes,
                        "name"@,
                    ) && before.case_file == attr_text(
                        opened_tag(events[m])->0.attributes,
                        "file"@,
                    );
                assert(names_case(events, m, k));
                assert(is_failure_of(case_failure(before), events, k));
            } else if ends_failed_case(events, k) {
                let j = choose|j: int| #[trigger]
                    is_open_from(events, j, k) && failure_between(events, j, k);
                if i < j {
                    assert(!begins_case(events[j]));
                } else if j < i {
                    assert(!begins_case(events[i]));
                }
            }
        } else {
            assert(!ends_failed_case(events, k));
            assert(s.failures == before.failures);
        }
    }
}

/// Whether event `k` opens an element `testsuites` whose time can be read.
pub open spec fn gives_time(events: Seq<xml::EventView>, k: int) -> bool {
    &&& 0 <= k < events.len()
    &&& opens(events[k], "testsuites"@)
    &&& attr_text(opened_tag(events[k])->0.attributes, "time"@) is Some
    &&& numbers::float_text(attr_text(opened_tag(events[k])->0.attributes, "time"@)->0)
}

proof fn lemma_time(events: Seq<xml::EventView>)
    ensures
        forall|k: int| #[trigger]
            gives_time(events, k) && (forall|j: int| k < j ==> !#[trigger] gives_time(events, j))
                ==> report_of(events).time == attr_text(
                opened_tag(events[k])->0.attributes,
                "time"@,
            ),
        (forall|k: int| !#[trigger] gives_time(events, k)) ==> report_of(events).time is None,
    decreases events.len(),
{
    if events.len() > 0 {
        let fewer = events.drop_last();
        let last = events.len() - 1;
        lemma_time(fewer);
        assert forall|k: int| #[trigger] gives_time(fewer, k) implies gives_time(events, k) by {
            assert(fewer[k] == events[k]);
        }
        assert forall|k: int| #[trigger] gives_time(events, k) && (forall|j: int|
            k < j ==> !#[trigger] gives_time(events, j)) implies report_of(events).time
            == attr_text(opened_tag(events[k])->0.attributes, "time"@) by {
            if k < last {
                assert(!gives_time(events, last));
                assert(fewer[k] == events[k]);
                assert(gives_time(fewer, k));
                assert forall|j: int| k < j implies !#[trigger] gives_time(fewer, j) by {
                    if gives_time(fewer, j) {
                        assert(gives_time(events, j));
                    }
                }
            }
        }
        if forall|k: int| !#[trigger] gives_time(events, k) {
            assert(!gives_time(events, last));
            assert forall|k: int| !#[trigger] gives_time(fewer, k) by {
                if gives_time(fewer, k) {
                    assert(gives_time(events, k));
                }
            }
        }
    }
}

/// What the result says of the failures, whatever the counts are: it names, in their
/// order, exactly the test cases that hold an element `failure`.
pub proof fn the_result_names_the_failed_cases(events: Seq<xml::EventView>)
    requires
        junit_result(events) is Some,
    ensures
        ({
            let failures = junit_result(events)->0.failures;
            let ends = failed_ends(events, events.len());
            &&& failures.len() == ends.len()
            &&& forall|k: int|
                0 <= k < ends.len() ==> is_failure_of(#[trigger] failures[k], events, ends[k])
        }),
{
    lemma_failed_ends(events, events.len() as int);
    assert(events.take(events.len() as int) =~= events);
}

/// What the result says of the run. There is one exactly where the document is well formed
/// and holds an element `testsuites`. The counts are those of the last such element, and
/// the tests that neither failed nor were skipped passed. The duration is the last time
/// that one of them gives and that can be read, in seconds.
pub proof fn the_result_counts_the_tests(events: Seq<xml::EventView>)
    requires
        events.len() > 0,
    ensures
        junit_result(events) is Some <==> events[events.len() - 1] is Eof && exists|k: int|
            0 <= k < events.len() && opens(#[trigger] events[k], "testsuites"@),
        junit_result(events) is Some ==> {
            let r = junit_result(events)->0;
            &&& forall|k: int|
                0 <= k < events.len() && opens(#[trigger] events[k], "testsuites"@) && (forall|
                    j: int,
                |
                    k < j < events.len() ==> !opens(#[trigger] events[j], "testsuites"@)) ==> {
                    let attributes = opened_tag(events[k])->0.attributes;
                    &&& r.total == attr_number(attributes, "tests"@)
                    &&& r.failed == attr_number(attributes, "failures"@)
                    &&& r.skipped == attr_number(attributes, "skipped"@)
                }
            &&& r.passed == if r.failed + r.skipped <= r.total {
                r.total - r.failed - r.skipped
            } else {
                0
            }
            &&& forall|k: int| #[trigger]
                gives_time(events, k) && (forall|j: int| k < j ==> !#[trigger] gives_time(events, j))
                    ==> r.duration is Some && r.duration->0.unit == TimeUnit::Seconds && Some(
                    r.duration->0.number,
                ) == attr_text(opened_tag(events[k])->0.attributes, "time"@)
            &&& (forall|k: int| !#[trigger] gives_time(events, k)) ==> r.duration is None
        },
{
    lemma_time(events);
    if exists|k: int| 0 <= k < events.len() && opens(#[trigger] events[k], "testsuites"@) {
        let k = choose|k: int| 0 <= k < events.len() && opens(#[trigger] events[k], "testsuites"@);
        lemma_saw_suites(events, k);
    } else {
        only_testsuites_makes_a_report(events);
    }
    assert forall|k: int|
        0 <= k < events.len() && opens(#[trigger] events[k], "testsuites"@) && (forall|j: int|
            k < j < events.len() ==> !opens(
                #[trigger] events[j],
                "testsuites"@,
            )) implies report_of(events).total == attr_number(
        opened_tag(events[k])->0.attributes,
        "tests"@,
    ) && report_of(events).failed == attr_number(
        opened_tag(events[k])->0.attributes,
        "failures"@,
    ) && report_of(events).skipped == attr_number(
        opened_tag(events[k])->0.attributes,
        "skipped"@,
    ) by {
        last_testsuites_gives_the_counts(events, k);
    }
}

proof fn lemma_saw_suites(events: Seq<xml::EventView>, k: int)
    requires
        0 <= k < events.len(),
        opens(events[k], "testsuites"@),
    ensures
        report_of(events).saw_suites,
    decreases events.len(),
{
    if k < events.len() - 1 {
        assert(events.drop_last()[k] == events[k]);
        lemma_saw_suites(events.drop_last(), k);
    }
}

/// The counts of a document can be added up unless it holds a report in which more tests
/// failed or were skipped than the machine has a number for.
pub proof fn only_huge_counts_do_not_fit(events: Seq<xml::EventView>)
    ensures
        junit_result(events) is None ==> counts_fit(events),
        junit_result(events) is Some ==> (counts_fit(events) <==> junit_result(events)->0.failed
            + junit_result(events)->0.skipped <= usize::MAX),
{
}

} // verus!

use rtk_filters::junit::{event_counts_fit, local_name, parse_junit_xml, summarize_events};
use rtk_filters::test_report::TimeUnit;
use rtk_filters::xml::{read_events, XmlAttribute, XmlEvent, XmlTag};

fn tag(name: &str, attributes: &[(&str, &str)]) -> XmlTag {
    XmlTag {
        name: name.as_bytes().to_vec(),
        attributes: attributes
            .iter()
            .map(|(k, v)| {
                Some(XmlAttribute { key: k.as_bytes().to_vec(), value: v.as_bytes().to_vec() })
            })
            .collect(),
    }
}

#[test]
fn local_names_stand_behind_the_last_colon() {
    assert_eq!(local_name(b"a:b:c"), b"c");
    assert_eq!(local_name(b"abc"), b"abc");
    assert_eq!(local_name(b"abc:"), b"");
    assert_eq!(local_name(b""), b"");
}

#[test]
fn documents_are_read_event_by_event() {
    let events = read_events("<a x='1' y=\"&lt;\"> t <b/></a>");
    assert_eq!(events.len(), 5);
    match &events[0] {
        XmlEvent::Start(t) => {
            assert_eq!(t.name, b"a");
            assert_eq!(t.attributes.len(), 2);
            let second = t.attributes[1].as_ref().unwrap();
            assert_eq!(second.key, b"y");
            assert_eq!(second.value, b"&lt;");
        }
        _ => panic!("a start tag was expected"),
    }
    assert!(matches!(events[1], XmlEvent::Other));
    assert!(matches!(events[2], XmlEvent::Empty(_)));
    assert!(matches!(events[3], XmlEvent::End(_)));
    assert!(matches!(events[4], XmlEvent::Eof));
}

#[test]
fn documents_may_end_in_text() {
    let events = read_events("abc");
    assert_eq!(events.len(), 2);
    assert!(matches!(events[0], XmlEvent::Other));
    assert!(matches!(events[1], XmlEvent::Eof));
    let events = read_events("</x><y/>");
    assert_eq!(events.len(), 1);
    assert!(matches!(events[0], XmlEvent::Malformed));
    let events = read_events("<?xml version=\"1.0\"?><!DOCTYPE a><!-- c --><a><![CDATA[x]]><?p q?></a>");
    assert_eq!(events.len(), 8);
    assert!(matches!(events[7], XmlEvent::Eof));
}

#[test]
fn malformed_documents_end_with_the_error() {
    let events = read_events("<a></b>");
    assert!(matches!(events[events.len() - 1], XmlEvent::Malformed));
    assert!(parse_junit_xml("<testsuites tests=\"1\"></other>").is_none());
}

#[test]
fn documents_without_testsuites_are_no_reports() {
    assert!(parse_junit_xml("<testsuite tests=\"3\"/>").is_none());
    assert!(parse_junit_xml("").is_none());
    assert!(parse_junit_xml("no xml at all").is_none());
}

#[test]
fn the_last_testsuites_counts() {
    let xml = "<r><testsuites tests=\"9\" failures=\"9\" time=\"2.5\"/>\
        <x:testsuites tests=\"7\" failures=\"2\" skipped=\"1\" time=\"soon\"></x:testsuites></r>";
    let result = parse_junit_xml(xml).unwrap();
    assert_eq!((result.total, result.passed, result.failed, result.skipped), (7, 4, 2, 1));
    let duration = result.duration.unwrap();
    assert_eq!(duration.number, "2.5");
    assert_eq!(duration.unit, TimeUnit::Seconds);
}

#[test]
fn missing_or_odd_counts_are_zero() {
    let result = parse_junit_xml("<testsuites tests=\"x\" failures=\"-1\"/>").unwrap();
    assert_eq!((result.total, result.passed, result.failed, result.skipped), (0, 0, 0, 0));
    assert!(result.duration.is_none());
}

#[test]
fn attribute_values_are_unescaped() {
    let xml = "<testsuites tests=\"1\" failures=\"1\"><testcase name=\"a &lt; b &amp; c\" file=\"f.ts\">\
        <failure/></testcase></testsuites>";
    let result = parse_junit_xml(xml).unwrap();
    assert_eq!(result.failures.len(), 1);
    assert_eq!(result.failures[0].test_name, "a < b & c");
    assert_eq!(result.failures[0].file_path, "f.ts");
    assert_eq!(result.failures[0].error_message, "AssertionError");
    assert!(result.failures[0].stack_trace.is_none());
}

#[test]
fn unreadable_attributes_are_passed_over() {
    let xml = "<testsuites tests=\"&nope;\" x:tests=\"4\"/>";
    assert_eq!(parse_junit_xml(xml).unwrap().total, 4);
}

#[test]
fn failures_belong_to_an_open_case() {
    let xml = "<testsuites tests=\"3\" failures=\"1\"><failure/>\
        <testcase name=\"good\"><system-out>x</system-out></testcase>\
        <testcase name=\"bad\"><failure>text</failure></testcase>\
        <testcase name=\"short\"/></testsuites>";
    let result = parse_junit_xml(xml).unwrap();
    let names: Vec<&str> = result.failures.iter().map(|f| f.test_name.as_str()).collect();
    assert_eq!(names, vec!["bad"]);
}

#[test]
fn events_are_summed_up_as_given() {
    let mut events = vec![
        XmlEvent::Start(tag("testsuites", &[("tests", "2"), ("failures", "1")])),
        XmlEvent::Start(tag("testcase", &[("file", "a.ts")])),
        XmlEvent::Empty(tag("failure", &[])),
        XmlEvent::End(b"testcase".to_vec()),
        XmlEvent::End(b"testsuites".to_vec()),
        XmlEvent::Eof,
    ];
    assert!(event_counts_fit(&events));
    let result = summarize_events(&events).unwrap();
    assert_eq!((result.total, result.passed, result.failed), (2, 1, 1));
    assert_eq!(result.failures[0].test_name, "");
    assert_eq!(result.failures[0].file_path, "a.ts");

    events.pop();
    events.push(XmlEvent::Malformed);
    assert!(summarize_events(&events).is_none());
}

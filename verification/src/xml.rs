//! The events of an XML document, as plain values.

use quick_xml::events::{BytesStart, Event};
use quick_xml::Reader;
use vstd::prelude::*;
use vstd::utf8::*;

use crate::text;

verus! {

// ---------------------------------------------------------------------------
// Events
// ---------------------------------------------------------------------------

/// An attribute, with its value as it stands in the document.
#[derive(Debug)]
pub struct XmlAttribute {
    pub key: Vec<u8>,
    pub value: Vec<u8>,
}

/// A tag with its attributes. `None` stands for an attribute that cannot be read.
#[derive(Debug)]
pub struct XmlTag {
    pub name: Vec<u8>,
    pub attributes: Vec<Option<XmlAttribute>>,
}

/// One step in the reading of a document.
#[derive(Debug)]
pub enum XmlEvent {
    /// `<tag ..>`
    Start(XmlTag),
    /// `<tag ../>`
    Empty(XmlTag),
    /// `</tag>`
    End(Vec<u8>),
    /// The document ends.
    Eof,
    /// The document is not well formed.
    Malformed,
    /// Text, a comment, a declaration or a processing instruction.
    Other,
}

/// The view of an attribute.
pub struct AttributeView {
    pub key: Seq<u8>,
    pub value: Seq<u8>,
}

/// The view of a tag.
pub struct TagView {
    pub name: Seq<u8>,
    pub attributes: Seq<Option<AttributeView>>,
}

/// The view of an event.
pub enum EventView {
    Start(TagView),
    Empty(TagView),
    End(Seq<u8>),
    Eof,
    Malformed,
    Other,
}

impl View for XmlAttribute {
    type V = AttributeView;

    open spec fn view(&self) -> AttributeView {
        AttributeView { key: self.key@, value: self.value@ }
    }
}

/// The view of attributes.
pub open spec fn attribute_views(attributes: Seq<Option<XmlAttribute>>) -> Seq<
    Option<AttributeView>,
> {
    Seq::new(
        attributes.len(),
        |k: int|
            match attributes[k] {
                Some(a) => Some(a@),
                None => None,
            },
    )
}

impl View for XmlTag {
    type V = TagView;

    open spec fn view(&self) -> TagView {
        TagView { name: self.name@, attributes: attribute_views(self.attributes@) }
    }
}

impl View for XmlEvent {
    type V = EventView;

    open spec fn view(&self) -> EventView {
        match self {
            XmlEvent::Start(tag) => EventView::Start(tag@),
            XmlEvent::Empty(tag) => EventView::Empty(tag@),
            XmlEvent::End(name) => EventView::End(name@),
            XmlEvent::Eof => EventView::Eof,
            XmlEvent::Malformed => EventView::Malformed,
            XmlEvent::Other => EventView::Other,
        }
    }
}

/// The views of events.
pub open spec fn event_views(events: Seq<XmlEvent>) -> Seq<EventView> {
    Seq::new(events.len(), |k: int| events[k]@)
}

/// Whether an event is the last of a document.
pub open spec fn is_last(event: EventView) -> bool {
    event is Eof || event is Malformed
}

/// Whether the events go as far as the last of a document, and no further.
pub open spec fn are_complete(events: Seq<EventView>) -> bool {
    &&& events.len() > 0
    &&& is_last(events.last())
    &&& forall|k: int| 0 <= k < events.len() - 1 ==> !is_last(#[trigger] events[k])
}

// ---------------------------------------------------------------------------
// The XML reader, whose contracts are taken as given
// ---------------------------------------------------------------------------

/// The reader of the `quick_xml` crate.
#[verifier::external_type_specification]
#[verifier::external_body]
#[verifier::reject_recursive_types(R)]
pub struct ExReader<R>(quick_xml::Reader<R>);

/// The events that a reader still holds, as far as the last of the document.
pub uninterp spec fn pending_events(reader: quick_xml::Reader<&[u8]>) -> Seq<EventView>;

/// The events of a document, as far as the last, where white space around text is
/// dropped or kept.
pub uninterp spec fn xml_events(xml: Seq<char>, trim_text: bool) -> Seq<EventView>;

/// `Reader::from_str`, with the setting `Config::trim_text`: a reader that holds the
/// events of the document. Each event takes up some of the document, so there is a
/// last one: the end of the document, or an error.
#[verifier::external_body]
fn open_reader<'a>(xml: &'a str, trim_text: bool) -> (reader: Reader<&'a [u8]>)
    ensures
        pending_events(reader) == xml_events(xml@, trim_text),
        are_complete(pending_events(reader)),
{
    let mut reader = Reader::from_str(xml);
    reader.config_mut().trim_text(trim_text);
    reader
}

/// `Reader::read_event_into`: the first of the events that the reader holds, which
/// then holds the others. What it holds behind the last event of the document is left
/// unsaid: at the end it gives that event again, and behind some errors it goes on. The
/// attributes of a tag are those that
/// `BytesStart::attributes` goes through.
#[verifier::external_body]
fn next_event(reader: &mut Reader<&[u8]>) -> (event: XmlEvent)
    requires
        pending_events(*old(reader)).len() > 0,
    ensures
        event@ == pending_events(*old(reader))[0],
        !is_last(event@) ==> pending_events(*final(reader)) == pending_events(*old(reader)).skip(1),
{
    let tag = |e: BytesStart| XmlTag {
        name: e.name().as_ref().to_vec(),
        attributes: e.attributes().map(|a| a.ok().map(|a| XmlAttribute { key: a.key.as_ref().to_vec(), value: a.value.to_vec() })).collect(),
    };
    match reader.read_event_into(&mut Vec::new()) {
        Ok(Event::Start(e)) => XmlEvent::Start(tag(e)),
        Ok(Event::Empty(e)) => XmlEvent::Empty(tag(e)),
        Ok(Event::End(e)) => XmlEvent::End(e.name().as_ref().to_vec()),
        Ok(Event::Eof) => XmlEvent::Eof,
        Ok(_) => XmlEvent::Other,
        Err(_) => XmlEvent::Malformed,
    }
}

/// The text of an attribute's value: decoded as UTF-8, with its escapes replaced.
/// `None` where it is not UTF-8 or an escape is not known.
pub uninterp spec fn unescaped(value: Seq<u8>) -> Option<Seq<char>>;

/// `Attribute::decode_and_unescape_value`: the text of an attribute's value. A value
/// that is not UTF-8 has none, and one without `&` is its own text.
#[verifier::external_body]
pub(crate) fn unescape_value(value: &[u8]) -> (text: Option<String>)
    ensures
        text::opt_view(text) == unescaped(value@),
        !valid_utf8(value@) ==> text is None,
        valid_utf8(value@) && !value@.contains(38u8) ==> text::opt_view(text) == Some(
            decode_utf8(value@),
        ),
{
    let attribute = quick_xml::events::attributes::Attribute::from((&b""[..], value));
    let decoder = Reader::from_str("").decoder();
    attribute.decode_and_unescape_value(decoder).ok().map(|text| text.into_owned())
}

// ---------------------------------------------------------------------------
// Reading
// ---------------------------------------------------------------------------

/// The events of a document, as far as the last.
pub fn read_events(xml: &str) -> (events: Vec<XmlEvent>)
    ensures
        event_views(events@) == xml_events(xml@, true),
        are_complete(event_views(events@)),
{
    let mut reader: Reader<&[u8]> = open_reader(xml, true);
    let ghost all = xml_events(xml@, true);
    let mut events: Vec<XmlEvent> = Vec::new();
    let mut more: bool = true;
    assert(event_views(events@) =~= all.take(0));
    assert(all.skip(0) =~= all);
    while more
        invariant
            are_complete(all),
            events@.len() <= all.len(),
            event_views(events@) == all.take(events@.len() as int),
            more ==> pending_events(reader) == all.skip(events@.len() as int),
            more == (events@.len() < all.len()),
        decreases all.len() - events@.len(),
    {
        let event: XmlEvent = next_event(&mut reader);
        let ghost n = events@.len() as int;
        more = match event {
            XmlEvent::Eof | XmlEvent::Malformed => false,
            _ => true,
        };
        proof {
            assert(event@ == all[n]);
            assert(event_views(events@.push(event)) =~= event_views(events@).push(event@));
            assert(all.take(n + 1) =~= all.take(n).push(all[n]));
            assert(all.skip(n).skip(1) =~= all.skip(n + 1));
            assert(is_last(all[n]) == !more);
        }
        events.push(event);
    }
    assert(all.take(all.len() as int) =~= all);
    events
}

} // verus!

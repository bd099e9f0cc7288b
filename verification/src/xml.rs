//! Pull-reading XML with quick-xml: the events of a document, the attributes
//! of its tags, and tags rebuilt for writing back.
use vstd::prelude::*;

use std::io::Cursor;

use quick_xml::events::attributes::Attribute;
use quick_xml::events::{BytesStart, Event};
use quick_xml::{Reader, Writer};

use crate::text::str_eq;
use vstd::utf8::encode_utf8;

verus! {

#[verifier::external_type_specification]
#[verifier::external_body]
#[verifier::reject_recursive_types(R)]
pub struct ExXmlReader<R>(Reader<R>);

#[verifier::external_type_specification]
#[verifier::external_body]
pub struct ExBytesStart<'a>(BytesStart<'a>);

/// One event of an XML document, as the reader hands it out.
pub enum XmlEvent {
    /// An opening tag `<name ...>`.
    Start(BytesStart<'static>),
    /// A self-closing tag `<name .../>`.
    Empty(BytesStart<'static>),
    /// The end of the document.
    Eof,
    /// The reader found malformed markup.
    Failed,
    /// Any other event, with the bytes that writing it back produces (`None`
    /// when writing it failed).
    Other(Option<Vec<u8>>),
}

/// An event as a plain value; a tag is given by its content (name and
/// attributes, between the angle brackets).
pub enum XmlEventV {
    Start(Seq<u8>),
    Empty(Seq<u8>),
    Eof,
    Failed,
    Other(Option<Seq<u8>>),
}

/// One attribute of a tag.
pub struct XmlAttr {
    /// The key as written, prefix included.
    pub key: Vec<u8>,
    /// The key as text.
    pub key_text: String,
    /// The key without its namespace prefix, as text.
    pub local: String,
    /// The value as written, entities not replaced.
    pub raw: Vec<u8>,
    /// The value with entities replaced; `None` when that fails.
    pub value: Option<String>,
}

/// An attribute as a plain value.
pub struct XmlAttrV {
    pub key: Seq<u8>,
    pub key_text: Seq<char>,
    pub local: Seq<char>,
    pub raw: Seq<u8>,
    pub value: Option<Seq<char>>,
}

pub open spec fn opt_string_view(o: Option<String>) -> Option<Seq<char>> {
    match o {
        Some(s) => Some(s@),
        None => None,
    }
}

pub open spec fn attr_view(a: XmlAttr) -> XmlAttrV {
    XmlAttrV {
        key: a.key@,
        key_text: a.key_text@,
        local: a.local@,
        raw: a.raw@,
        value: opt_string_view(a.value),
    }
}

pub open spec fn attrs_view(attrs: Seq<XmlAttr>) -> Seq<XmlAttrV> {
    attrs.map_values(|a: XmlAttr| attr_view(a))
}

/// The events that quick-xml reads from `bytes`, up to and including the
/// first end of document or error.
pub uninterp spec fn xml_events(bytes: Seq<u8>) -> Seq<XmlEventV>;

/// The events that a reader has yet to hand out.
pub uninterp spec fn pending_events(reader: Reader<Cursor<Vec<u8>>>) -> Seq<XmlEventV>;

/// The content of a tag: its name, then its attributes as written.
pub uninterp spec fn tag_content(tag: BytesStart<'static>) -> Seq<u8>;

/// The name of the tag with this content, namespace prefix dropped, as text.
pub uninterp spec fn xml_local_name(content: Seq<u8>) -> Seq<char>;

/// The name of the tag with this content, prefix included, as text.
pub uninterp spec fn xml_tag_name(content: Seq<u8>) -> Seq<char>;

/// The well-formed attributes of the tag with this content, in order.
pub uninterp spec fn xml_attributes(content: Seq<u8>) -> Seq<XmlAttrV>;

/// Whether an event ends the reading of a document.
pub open spec fn is_final_event(e: XmlEventV) -> bool {
    e is Eof || e is Failed
}

/// A sequence of events that ends with the end of the document or an error,
/// and has neither before.
pub open spec fn is_terminated(events: Seq<XmlEventV>) -> bool {
    &&& events.len() > 0
    &&& is_final_event(events.last())
    &&& forall|i: int| 0 <= i < events.len() - 1 ==> !is_final_event(#[trigger] events[i])
}

pub open spec fn event_view(e: XmlEvent) -> XmlEventV {
    match e {
        XmlEvent::Start(t) => XmlEventV::Start(tag_content(t)),
        XmlEvent::Empty(t) => XmlEventV::Empty(tag_content(t)),
        XmlEvent::Eof => XmlEventV::Eof,
        XmlEvent::Failed => XmlEventV::Failed,
        XmlEvent::Other(w) => XmlEventV::Other(
            match w {
                Some(b) => Some(b@),
                None => None,
            },
        ),
    }
}

/// `Reader::from_reader` over a copy of `bytes`. Claimed: the reader will hand
/// out `xml_events` of the bytes, a sequence that ends with the first end of
/// document or error and holds neither before.
#[verifier::external_body]
pub(crate) fn xml_reader(bytes: &[u8]) -> (r: Reader<Cursor<Vec<u8>>>)
    ensures
        pending_events(r) == xml_events(bytes@),
        is_terminated(pending_events(r)),
{
    Reader::from_reader(Cursor::new(bytes.to_vec()))
}

/// `Reader::read_event_into`: the next event of the document. An event other
/// than a tag is written back with `Writer::write_event` at once. Claimed: the
/// event is the first of those the reader had pending, and it is consumed.
#[verifier::external_body]
pub(crate) fn next_event(reader: &mut Reader<Cursor<Vec<u8>>>) -> (e: XmlEvent)
    requires
        pending_events(*old(reader)).len() > 0,
    ensures
        event_view(e) == pending_events(*old(reader))[0],
        pending_events(*final(reader)) == pending_events(*old(reader)).drop_first(),
{
    let mut buf = Vec::new();
    match reader.read_event_into(&mut buf) {
        Ok(Event::Start(t)) => XmlEvent::Start(t.into_owned()),
        Ok(Event::Empty(t)) => XmlEvent::Empty(t.into_owned()),
        Ok(Event::Eof) => XmlEvent::Eof,
        Err(_) => XmlEvent::Failed,
        Ok(other) => {
            let mut w = Writer::new(Vec::new());
            match w.write_event(other) {
                Ok(()) => XmlEvent::Other(Some(w.into_inner())),
                Err(_) => XmlEvent::Other(None),
            }
        },
    }
}

/// `BytesStart::local_name`, as text. Claimed: it is `xml_local_name` of the
/// tag's content.
#[verifier::external_body]
pub(crate) fn tag_local_name(tag: &BytesStart<'static>) -> (r: String)
    ensures
        r@ == xml_local_name(tag_content(*tag)),
{
    String::from_utf8_lossy(tag.local_name().as_ref()).into_owned()
}

/// XML whitespace, which ends a tag's name.
pub open spec fn is_xml_space(c: char) -> bool {
    c == ' ' || c == '\r' || c == '\n' || c == '\t'
}

/// Text with no XML whitespace in it.
pub open spec fn no_xml_space(s: Seq<char>) -> bool {
    forall|i: int| 0 <= i < s.len() ==> !is_xml_space(#[trigger] s[i])
}

/// `BytesStart::name`, as text. Claimed: it is `xml_tag_name` of the tag's
/// content, and, since a name ends at the first XML whitespace, it holds none.
#[verifier::external_body]
pub(crate) fn tag_name(tag: &BytesStart<'static>) -> (r: String)
    ensures
        r@ == xml_tag_name(tag_content(*tag)),
        no_xml_space(r@),
{
    String::from_utf8_lossy(tag.name().as_ref()).into_owned()
}

/// `BytesStart::attributes`, skipping malformed ones; each value is also
/// unescaped with `Attribute::unescape_value`. Claimed: the list is
/// `xml_attributes` of the tag's content.
#[verifier::external_body]
pub(crate) fn tag_attributes(tag: &BytesStart<'static>) -> (r: Vec<XmlAttr>)
    ensures
        attrs_view(r@) == xml_attributes(tag_content(*tag)),
{
    tag.attributes().flatten().map(|a| XmlAttr {
        key: a.key.as_ref().to_vec(),
        key_text: String::from_utf8_lossy(a.key.as_ref()).into_owned(),
        local: String::from_utf8_lossy(a.key.local_name().as_ref()).into_owned(),
        raw: a.value.to_vec(),
        value: a.unescape_value().ok().map(|v| v.into_owned()),
    }).collect()
}

/// `BytesStart::new`. Claimed: the tag's content is the name's UTF-8 bytes.
/// The name must hold no XML whitespace, so that the tag's name is all of it,
/// as it is for a tag that is read.
#[verifier::external_body]
pub(crate) fn new_tag(name: &str) -> (r: BytesStart<'static>)
    requires
        no_xml_space(name@),
    ensures
        tag_content(r) == encode_utf8(name@),
{
    BytesStart::new(name.to_owned())
}

/// What `BytesStart::push_attribute` appends for an attribute given as raw bytes.
pub open spec fn raw_attr_bytes(key: Seq<u8>, value: Seq<u8>) -> Seq<u8> {
    seq![32u8] + key + seq![61u8, 34u8] + value + seq![34u8]
}

/// The text that `quick_xml::escape::escape` makes of `s`: each of
/// `<`, `>`, `&`, `'`, `"` replaced by its entity.
pub open spec fn xml_escape(s: Seq<char>) -> Seq<char>
    decreases s.len(),
{
    if s.len() == 0 {
        Seq::empty()
    } else {
        let c = s.last();
        let rep = if c == '<' {
            seq!['&', 'l', 't', ';']
        } else if c == '>' {
            seq!['&', 'g', 't', ';']
        } else if c == '&' {
            seq!['&', 'a', 'm', 'p', ';']
        } else if c == '\'' {
            seq!['&', 'a', 'p', 'o', 's', ';']
        } else if c == '"' {
            seq!['&', 'q', 'u', 'o', 't', ';']
        } else {
            seq![c]
        };
        xml_escape(s.drop_last()) + rep
    }
}

/// What `BytesStart::push_attribute` appends for an attribute given as text:
/// the value is escaped.
pub open spec fn text_attr_bytes(key: Seq<char>, value: Seq<char>) -> Seq<u8> {
    encode_utf8(seq![' '] + key + seq!['=', '"'] + xml_escape(value) + seq!['"'])
}

/// `BytesStart::push_attribute` with raw bytes. Claimed: ` key="value"` is
/// appended to the content, key and value as they are.
#[verifier::external_body]
pub(crate) fn push_raw_attribute(tag: &mut BytesStart<'static>, key: &[u8], value: &[u8])
    ensures
        tag_content(*final(tag)) == tag_content(*old(tag)) + raw_attr_bytes(key@, value@),
{
    tag.push_attribute(Attribute::from((key, value)));
}

/// `BytesStart::push_attribute` with text. Claimed: ` key="value"` is
/// appended to the content as UTF-8, the value escaped by `xml_escape`.
#[verifier::external_body]
pub(crate) fn push_text_attribute(tag: &mut BytesStart<'static>, key: &str, value: &str)
    ensures
        tag_content(*final(tag)) == tag_content(*old(tag)) + text_attr_bytes(key@, value@),
{
    tag.push_attribute((key, value));
}

/// What `Writer::write_event` writes for a tag with this content.
pub open spec fn tag_bytes(content: Seq<u8>, empty: bool) -> Seq<u8> {
    seq![60u8] + content + if empty {
        seq![47u8, 62u8]
    } else {
        seq![62u8]
    }
}

/// `Writer::write_event` of a tag into a fresh buffer. Claimed: the bytes are
/// `<content/>` for a self-closing tag and `<content>` for an opening one.
/// Writing into a `Vec` cannot fail, so the empty buffer of the error arm is
/// never returned.
#[verifier::external_body]
pub(crate) fn write_tag(tag: BytesStart<'static>, empty: bool) -> (r: Vec<u8>)
    ensures
        r@ == tag_bytes(tag_content(tag), empty),
{
    let mut w = Writer::new(Vec::new());
    let event = if empty {
        Event::Empty(tag)
    } else {
        Event::Start(tag)
    };
    match w.write_event(event) {
        Ok(()) => w.into_inner(),
        Err(_) => Vec::new(),
    }
}

/// Position of the first attribute whose local name is `name` and whose
/// value unescapes, from position `i` on.
pub open spec fn attr_index_from(attrs: Seq<XmlAttrV>, name: Seq<char>, i: int) -> Option<int>
    decreases attrs.len() - i,
{
    if i < 0 || i >= attrs.len() {
        None
    } else if attrs[i].local == name && attrs[i].value is Some {
        Some(i)
    } else {
        attr_index_from(attrs, name, i + 1)
    }
}

/// The unescaped value of the first attribute whose local name is `name` and
/// whose value unescapes.
pub open spec fn spec_attr_value(attrs: Seq<XmlAttrV>, name: Seq<char>) -> Option<Seq<char>> {
    match attr_index_from(attrs, name, 0) {
        Some(i) => attrs[i].value,
        None => None,
    }
}

/// The unescaped value of the first attribute named `name` (namespace prefix
/// ignored) whose value unescapes.
pub fn attr_value(attrs: &Vec<XmlAttr>, name: &str) -> (r: Option<String>)
    ensures
        opt_string_view(r) == spec_attr_value(attrs_view(attrs@), name@),
{
    let ghost av = attrs_view(attrs@);
    let mut i: usize = 0;
    while i < attrs.len()
        invariant
            i <= attrs@.len(),
            av == attrs_view(attrs@),
            attr_index_from(av, name@, 0) == attr_index_from(av, name@, i as int),
        decreases attrs@.len() - i,
    {
        let a = &attrs[i];
        assert(av[i as int] == attr_view(*a));
        if str_eq(a.local.as_str(), name) {
            match &a.value {
                Some(v) => {
                    return Some(v.clone());
                },
                None => {},
            }
        }
        i += 1;
    }
    None
}

} // verus!

//! A thin, contract-carrying layer over the `quick_xml` pull reader.
//!
//! The XML grammar itself is `quick_xml`'s work: each call into the crate
//! stands behind one trusted item here, and what it returns is named by an
//! uninterpreted spec function of the values it depends on.
use vstd::prelude::*;
use quick_xml::events::attributes::Attribute;
use quick_xml::events::{BytesStart, Event};
use quick_xml::Reader;
use vstd::string::StringSliceAdditionalSpecFns;

verus! {

#[verifier::external_type_specification]
#[verifier::external_body]
#[verifier::reject_recursive_types(R)]
pub struct ExReader<R>(Reader<R>);

#[verifier::external_type_specification]
#[verifier::external_body]
pub struct ExBytesStart<'a>(BytesStart<'a>);

/// What one read of the pull reader yields, as plain values.
pub enum XmlToken {
    /// A start tag `<name ...>`: its name and its whole content (name and attributes).
    Start { name: Seq<u8>, content: Seq<u8> },
    /// A self-closing tag `<name .../>`.
    Empty { name: Seq<u8>, content: Seq<u8> },
    /// An end tag `</name>`.
    End { name: Seq<u8> },
    /// The end of the document.
    Eof,
    /// Any other event (text, comments, declarations, ...).
    Other,
}

/// The event that `quick_xml::Reader::read_event_into` returns on its
/// `index`-th call (counting from 0) for a reader made by
/// `quick_xml::Reader::from_str(doc)`, with `trim_text(trim)` set before the
/// first read. An `Err` holds the text of the reader's error.
pub uninterp spec fn xml_event(doc: Seq<char>, trim: bool, index: nat) -> Result<XmlToken, Seq<char>>;

/// What `quick_xml::events::BytesStart::try_get_attribute(key)` returns for a
/// tag whose content is `content` and whose name is its first `name_len`
/// bytes: the raw (still escaped) value of the first attribute with that key,
/// `None` when there is none, or the text of the attribute syntax error.
pub uninterp spec fn xml_attribute(content: Seq<u8>, name_len: nat, key: Seq<u8>) -> Result<Option<Seq<u8>>, Seq<char>>;

/// What `quick_xml::events::attributes::Attribute::unescape_value` returns
/// for an attribute whose raw value is `raw`: the UTF-8 decoded text with its
/// entities replaced, or the text of the decoding or escape error.
pub uninterp spec fn xml_unescape(raw: Seq<u8>) -> Result<Seq<char>, Seq<char>>;

/// A start or self-closing tag read from a document.
pub struct XmlElement {
    start: BytesStart<'static>,
    name: Vec<u8>,
    content: Vec<u8>,
}

impl View for XmlElement {
    type V = (Seq<u8>, Seq<u8>);

    closed spec fn view(&self) -> (Seq<u8>, Seq<u8>) {
        (self.name@, self.content@)
    }
}
/// One event of the pull reader, as library values.
pub enum XmlEvent {
    /// A start tag.
    Start(XmlElement),
    /// A self-closing tag.
    Empty(XmlElement),
    /// An end tag, by its raw name.
    End(Vec<u8>),
    /// The end of the document.
    Eof,
    /// Any other event.
    Other,
}

impl XmlEvent {
    /// The event as plain values.
    pub open spec fn token(&self) -> XmlToken {
        match self {
            XmlEvent::Start(e) => XmlToken::Start { name: e@.0, content: e@.1 },
            XmlEvent::Empty(e) => XmlToken::Empty { name: e@.0, content: e@.1 },
            XmlEvent::End(n) => XmlToken::End { name: n@ },
            XmlEvent::Eof => XmlToken::Eof,
            XmlEvent::Other => XmlToken::Other,
        }
    }
}

/// The ghost state of a reader: the document, whether text is trimmed, how
/// many events were read, and the reader's byte offset with its bound.
pub struct CursorView {
    pub doc: Seq<char>,
    pub trim: bool,
    pub reads: nat,
    pub offset: nat,
    pub limit: nat,
}

/// A `quick_xml` reader over a string, with the ghost state its contracts speak of.
pub struct XmlCursor<'a> {
    reader: Reader<&'a [u8]>,
    doc: Ghost<Seq<char>>,
    trim: Ghost<bool>,
    reads: Ghost<nat>,
    offset: Ghost<nat>,
    limit: Ghost<nat>,
}

impl<'a> View for XmlCursor<'a> {
    type V = CursorView;

    closed spec fn view(&self) -> CursorView {
        CursorView { doc: self.doc@, trim: self.trim@, reads: self.reads@, offset: self.offset@, limit: self.limit@ }
    }
}

impl XmlElement {
    /// The element's raw name.
    pub fn name(&self) -> (r: &[u8])
        ensures
            r@ == self@.0,
    {
        self.name.as_slice()
    }
}

/// The unescaped text of the attribute `key` of a tag with content `content`
/// and a name of `name_len` bytes, `None` when there is none, or the error text.
pub open spec fn attribute_text(content: Seq<u8>, name_len: nat, key: Seq<u8>) -> Result<Option<Seq<char>>, Seq<char>> {
    match xml_attribute(content, name_len, key) {
        Err(msg) => Err(msg),
        Ok(None) => Ok(None),
        Ok(Some(raw)) => match xml_unescape(raw) {
            Ok(text) => Ok(Some(text)),
            Err(msg) => Err(msg),
        },
    }
}

/// Calls `quick_xml::Reader::from_str`. Claims: the reader reads `xml`, has
/// read nothing, does not trim text, and stands at byte offset 0 of a
/// document whose byte length fits in `usize`.
#[verifier::external_body]
pub(crate) fn reader_from_str<'a>(xml: &'a str) -> (c: XmlCursor<'a>)
    ensures
        c@.doc == xml@,
        !c@.trim,
        c@.reads == 0,
        c@.offset == 0,
        c@.limit == xml.spec_bytes().len(),
        c@.limit <= usize::MAX,
{
    XmlCursor {
        reader: Reader::from_str(xml),
        doc: Ghost(xml@),
        trim: Ghost(false),
        reads: Ghost(0),
        offset: Ghost(0),
        limit: Ghost(xml.spec_bytes().len()),
    }
}

/// Calls `quick_xml::reader::Config::trim_text(true)` on the reader's
/// configuration. Claims: only the trim setting changes.
#[verifier::external_body]
pub(crate) fn set_trim_text(c: &mut XmlCursor)
    requires
        old(c)@.reads == 0,
    ensures
        final(c)@ == (CursorView { trim: true, ..old(c)@ }),
{
    c.reader.config_mut().trim_text(true);
}

/// Calls `quick_xml::Reader::read_event_into`. Claims: the result is the
/// named event for this document, setting and read count; the read count
/// grows by one; an event other than `Eof` read without error moves the
/// reader's byte offset forward, and the offset never passes the document's
/// length.
#[verifier::external_body]
pub(crate) fn read_event(c: &mut XmlCursor, buf: &mut Vec<u8>) -> (r: Result<XmlEvent, String>)
    ensures
        match r {
            Ok(ev) => xml_event(old(c)@.doc, old(c)@.trim, old(c)@.reads) == Ok::<XmlToken, Seq<char>>(ev.token()),
            Err(msg) => xml_event(old(c)@.doc, old(c)@.trim, old(c)@.reads) == Err::<XmlToken, Seq<char>>(msg@),
        },
        final(c)@.doc == old(c)@.doc,
        final(c)@.trim == old(c)@.trim,
        final(c)@.reads == old(c)@.reads + 1,
        final(c)@.limit == old(c)@.limit,
        final(c)@.offset <= final(c)@.limit,
        (r matches Ok(ev) && !(ev is Eof)) ==> old(c)@.offset < final(c)@.offset,
{
    match c.reader.read_event_into(buf) {
        Ok(Event::Start(e)) => Ok(XmlEvent::Start(XmlElement { name: e.name().as_ref().to_vec(), content: e.to_vec(), start: e.into_owned() })),
        Ok(Event::Empty(e)) => Ok(XmlEvent::Empty(XmlElement { name: e.name().as_ref().to_vec(), content: e.to_vec(), start: e.into_owned() })),
        Ok(Event::End(e)) => Ok(XmlEvent::End(e.name().as_ref().to_vec())),
        Ok(Event::Eof) => Ok(XmlEvent::Eof),
        Ok(_) => Ok(XmlEvent::Other),
        Err(error) => Err(error.to_string()),
    }
}

/// Calls `quick_xml::events::BytesStart::try_get_attribute(key)` and returns
/// the raw attribute value it found, if any. Claims: the result is the named
/// one for the element's content, name length and key.
#[verifier::external_body]
pub(crate) fn find_attribute(element: &XmlElement, key: &[u8]) -> (r: Result<Option<Vec<u8>>, String>)
    ensures
        match r {
            Ok(Some(v)) => xml_attribute(element@.1, element@.0.len(), key@) == Ok::<Option<Seq<u8>>, Seq<char>>(Some(v@)),
            Ok(None) => xml_attribute(element@.1, element@.0.len(), key@) == Ok::<Option<Seq<u8>>, Seq<char>>(None),
            Err(msg) => xml_attribute(element@.1, element@.0.len(), key@) == Err::<Option<Seq<u8>>, Seq<char>>(msg@),
        },
{
    match element.start.try_get_attribute(key) {
        Ok(Some(attribute)) => Ok(Some(attribute.value.into_owned())),
        Ok(None) => Ok(None),
        Err(error) => Err(error.to_string()),
    }
}

/// Calls `quick_xml::events::attributes::Attribute::unescape_value` on an
/// attribute with raw value `raw`. Claims: the result is the named one for `raw`.
#[verifier::external_body]
pub(crate) fn unescape_value(raw: &[u8]) -> (r: Result<String, String>)
    ensures
        match r {
            Ok(v) => xml_unescape(raw@) == Ok::<Seq<char>, Seq<char>>(v@),
            Err(msg) => xml_unescape(raw@) == Err::<Seq<char>, Seq<char>>(msg@),
        },
{
    match Attribute::from((&b""[..], raw)).unescape_value() {
        Ok(value) => Ok(value.into_owned()),
        Err(error) => Err(error.to_string()),
    }
}

} // verus!

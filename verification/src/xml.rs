//! XML events as the DOCX reader consumes them, read from a document by
//! `quick_xml`, and the name and attribute lookups on them.

use vstd::prelude::*;
use vstd::utf8::encode_utf8;
use vstd::string::StringSliceAdditionalSpecFns;
use crate::text::{lossy_utf8, utf8_lossy};
use quick_xml::events::Event as QuickEvent;

verus! {

/// One attribute of a start tag: the raw key and the raw value.
#[derive(Debug)]
pub struct XmlAttribute {
    pub key: Vec<u8>,
    pub value: Vec<u8>,
}

/// A start or empty tag: its raw (possibly prefixed) name and its
/// attributes in document order, `None` for one the reader could not
/// parse.
#[derive(Debug)]
pub struct XmlTag {
    pub name: Vec<u8>,
    pub attributes: Vec<Option<XmlAttribute>>,
}

/// The reader events the DOCX reader distinguishes.
#[derive(Debug)]
pub enum XmlEvent {
    Start(XmlTag),
    Empty(XmlTag),
    /// An end tag, by its raw name.
    End(Vec<u8>),
    /// Character data, decoded, or the decoding error's message.
    Text(Result<String, String>),
    Other,
}

/// The events of a document up to its end, and the message of the read
/// error that stopped the reader early, if one did.
#[derive(Debug)]
pub struct XmlEventStream {
    pub events: Vec<XmlEvent>,
    pub error: Option<String>,
}

pub struct XmlAttrView {
    pub key: Seq<u8>,
    pub value: Seq<u8>,
}

pub struct XmlTagView {
    pub name: Seq<u8>,
    pub attributes: Seq<Option<XmlAttrView>>,
}

pub enum XmlEventView {
    Start(XmlTagView),
    Empty(XmlTagView),
    End(Seq<u8>),
    Text(Result<Seq<char>, Seq<char>>),
    Other,
}

pub struct XmlStreamView {
    pub events: Seq<XmlEventView>,
    pub error: Option<Seq<char>>,
}

impl View for XmlAttribute {
    type V = XmlAttrView;

    open spec fn view(&self) -> XmlAttrView {
        XmlAttrView { key: self.key@, value: self.value@ }
    }
}

impl View for XmlTag {
    type V = XmlTagView;

    open spec fn view(&self) -> XmlTagView {
        XmlTagView { name: self.name@, attributes: self.attributes@.map_values(|a: Option<XmlAttribute>| attr_view(a)) }
    }
}

pub open spec fn attr_view(a: Option<XmlAttribute>) -> Option<XmlAttrView> {
    match a {
        Some(x) => Some(x@),
        None => None,
    }
}

pub open spec fn text_result_view(r: Result<String, String>) -> Result<Seq<char>, Seq<char>> {
    match r {
        Ok(t) => Ok(t@),
        Err(e) => Err(e@),
    }
}

impl View for XmlEvent {
    type V = XmlEventView;

    open spec fn view(&self) -> XmlEventView {
        match self {
            XmlEvent::Start(t) => XmlEventView::Start(t@),
            XmlEvent::Empty(t) => XmlEventView::Empty(t@),
            XmlEvent::End(n) => XmlEventView::End(n@),
            XmlEvent::Text(r) => XmlEventView::Text(text_result_view(*r)),
            XmlEvent::Other => XmlEventView::Other,
        }
    }
}

pub open spec fn opt_string_view(o: Option<String>) -> Option<Seq<char>> {
    match o {
        Some(s) => Some(s@),
        None => None,
    }
}

impl View for XmlEventStream {
    type V = XmlStreamView;

    open spec fn view(&self) -> XmlStreamView {
        XmlStreamView {
            events: self.events@.map_values(|e: XmlEvent| e@),
            error: opt_string_view(self.error),
        }
    }
}

/// The events `quick_xml` reads from a document, with its default
/// configuration: a function of the document's text alone.
pub uninterp spec fn xml_event_stream(xml: Seq<char>) -> XmlStreamView;

/// Reads the whole document with `quick_xml::Reader::from_str` and
/// `read_event`, converting each event until `Eof` or the first read
/// error.  The events themselves are left to the name.
#[verifier::external_body]
pub(crate) fn read_xml_events(xml: &str) -> (r: XmlEventStream)
    ensures
        r@ == xml_event_stream(xml@),
{
    let mut reader = quick_xml::Reader::from_str(xml);
    let mut events = Vec::new();
    loop {
        match reader.read_event() {
            Ok(QuickEvent::Eof) => return XmlEventStream { events, error: None },
            Ok(event) => events.push(xml_event_from(event)),
            Err(e) => return XmlEventStream { events, error: Some(e.to_string()) },
        }
    }
}

/// `quick_xml`'s reader event, carried through to its conversion.
#[verifier::external_type_specification]
#[verifier::external_body]
pub struct ExQuickEvent<'a>(quick_xml::events::Event<'a>);

/// Converts one `quick_xml` event: start and empty tags keep their raw
/// name and each of their `attributes()`, `None` where its parse failed,
/// end tags their raw name, text its `decode()` result; others are
/// `Other`.
#[verifier::external_body]
fn xml_event_from(event: QuickEvent<'_>) -> (r: XmlEvent) {
    let tag = |e: &quick_xml::events::BytesStart<'_>| XmlTag {
        name: e.name().0.to_vec(),
        attributes: e.attributes()
            .map(|a| a.ok().map(|a| XmlAttribute { key: a.key.0.to_vec(), value: a.value.to_vec() })).collect(),
    };
    match event {
        QuickEvent::Start(e) => XmlEvent::Start(tag(&e)),
        QuickEvent::Empty(e) => XmlEvent::Empty(tag(&e)),
        QuickEvent::End(e) => XmlEvent::End(e.name().0.to_vec()),
        QuickEvent::Text(e) => XmlEvent::Text(e.decode().map(String::from).map_err(|e| e.to_string())),
        _ => XmlEvent::Other,
    }
}

/// The part of a qualified name after its last `:`.
pub open spec fn after_last_colon(s: Seq<u8>) -> Seq<u8>
    decreases s.len(),
{
    if s.len() == 0 {
        s
    } else if s.last() == 58 {
        Seq::empty()
    } else {
        after_last_colon(s.drop_last()).push(s.last())
    }
}

/// The bytes of `s` after its last `:`, or all of them.
pub fn after_last_colon_bytes(s: &[u8]) -> (r: Vec<u8>)
    ensures
        r@ == after_last_colon(s@),
{
    let mut start: usize = 0;
    let mut i: usize = 0;
    while i < s.len()
        invariant
            i <= s.len(),
            start <= i,
            after_last_colon(s@.take(i as int)) == s@.subrange(start as int, i as int),
        decreases s.len() - i,
    {
        assert(s@.take(i + 1).drop_last() =~= s@.take(i as int));
        if s[i] == 58u8 {
            start = i + 1;
            assert(s@.subrange(start as int, i + 1) =~= Seq::<u8>::empty());
        } else {
            assert(s@.subrange(start as int, i + 1) =~= s@.subrange(start as int, i as int).push(s@[i as int]));
        }
        i = i + 1;
    }
    assert(s@.take(s.len() as int) =~= s@);
    let mut r = Vec::new();
    let mut j: usize = start;
    while j < s.len()
        invariant
            start <= j <= s.len(),
            r@ == s@.subrange(start as int, j as int),
        decreases s.len() - j,
    {
        r.push(s[j]);
        j = j + 1;
        assert(r@ =~= s@.subrange(start as int, j as int));
    }
    r
}

/// The local part of a qualified name, decoded leniently.
pub open spec fn local_name_of(name: Seq<u8>) -> Seq<char> {
    lossy_utf8(after_last_colon(name))
}

/// The local part of a raw XML name (after the last `:`), decoded with
/// `String::from_utf8_lossy`.
pub fn local_name(name: &[u8]) -> (r: String)
    ensures
        r@ == local_name_of(name@),
{
    let local = after_last_colon_bytes(name);
    utf8_lossy(local.as_slice())
}

/// The value of the first attribute whose local key equals `wanted`;
/// attributes that did not parse are passed over.
pub open spec fn attribute_in(attrs: Seq<Option<XmlAttrView>>, wanted: Seq<u8>) -> Option<Seq<char>>
    decreases attrs.len(),
{
    if attrs.len() == 0 {
        None
    } else {
        match attrs[0] {
            Some(a) => if after_last_colon(a.key) == wanted {
                Some(lossy_utf8(a.value))
            } else {
                attribute_in(attrs.drop_first(), wanted)
            },
            None => attribute_in(attrs.drop_first(), wanted),
        }
    }
}

/// The value of the attribute named `wanted` (by local name) of a tag.
pub open spec fn tag_attribute(tag: XmlTagView, wanted: Seq<char>) -> Option<Seq<char>> {
    attribute_in(tag.attributes, encode_utf8(wanted))
}

fn bytes_equal(a: &[u8], b: &[u8]) -> (r: bool)
    ensures
        r == (a@ == b@),
{
    if a.len() != b.len() {
        return false;
    }
    let mut i: usize = 0;
    while i < a.len()
        invariant
            a.len() == b.len(),
            i <= a.len(),
            forall|j: int| 0 <= j < i ==> a@[j] == b@[j],
        decreases a.len() - i,
    {
        if a[i] != b[i] {
            return false;
        }
        i = i + 1;
    }
    assert(a@ =~= b@);
    true
}

/// The value of the first attribute of `element` whose key, without its
/// prefix, is `wanted`, decoded leniently.
pub fn attribute(element: &XmlTag, wanted: &str) -> (r: Option<String>)
    ensures
        opt_string_view(r) == tag_attribute(element@, wanted@),
{
    let wanted_bytes = wanted.as_bytes();
    let ghost attrs = element@.attributes;
    let mut i: usize = 0;
    assert(attrs.skip(0) =~= attrs);
    while i < element.attributes.len()
        invariant
            i <= element.attributes.len(),
            attrs == element@.attributes,
            wanted_bytes@ == encode_utf8(wanted@),
            attribute_in(attrs, wanted_bytes@) == attribute_in(attrs.skip(i as int), wanted_bytes@),
        decreases element.attributes.len() - i,
    {
        assert(attrs.skip(i as int)[0] == attr_view(element.attributes@[i as int]));
        assert(attrs.skip(i as int).drop_first() =~= attrs.skip(i + 1));
        if let Some(attr) = &element.attributes[i] {
            let key = after_last_colon_bytes(attr.key.as_slice());
            if bytes_equal(key.as_slice(), wanted_bytes) {
                return Some(utf8_lossy(attr.value.as_slice()));
            }
        }
        i = i + 1;
    }
    assert(attrs.skip(i as int).len() == 0);
    None
}

/// The local part of a name holds no `:`, so taking it again changes
/// nothing.
pub proof fn law_local_part_has_no_colon(s: Seq<u8>)
    ensures
        forall|i: int| 0 <= i < after_last_colon(s).len() ==> #[trigger] after_last_colon(s)[i] != 58,
        after_last_colon(after_last_colon(s)) == after_last_colon(s),
    decreases s.len(),
{
    if s.len() > 0 {
        law_local_part_has_no_colon(s.drop_last());
        let t = after_last_colon(s);
        if s.last() != 58 {
            let p = after_last_colon(s.drop_last());
            assert(t == p.push(s.last()));
            assert(t.drop_last() =~= p);
            assert forall|i: int| 0 <= i < t.len() implies #[trigger] t[i] != 58 by {
                if i < p.len() {
                    assert(t[i] == p[i]);
                }
            }
            assert(after_last_colon(t) == after_last_colon(p).push(s.last()));
        } else {
            assert(after_last_colon(t) =~= t);
        }
    } else {
        assert(after_last_colon(after_last_colon(s)) =~= after_last_colon(s));
    }
}

} // verus!

use vstd::prelude::*;

verus! {

/// One attribute of an element-open event, as a pair of plain strings.
#[derive(Clone, PartialEq, Eq, Debug)]
pub struct Attr {
    pub name: String,
    pub value: String,
}

/// The mathematical value of an attribute.
pub struct AttrModel {
    pub name: Seq<char>,
    pub value: Seq<char>,
}

impl Attr {
    pub fn new(name: String, value: String) -> (a: Attr)
        ensures
            a.name == name,
            a.value == value,
    {
        Attr { name, value }
    }

    /// The attribute this value stands for.
    pub open spec fn model(&self) -> AttrModel {
        AttrModel { name: self.name@, value: self.value@ }
    }
}

/// One event of the markup stream that drives the tree builder.
///
/// The first five variants mirror the events a well-formed document
/// produces; `Other` carries a description of any event the builder does not
/// accept, and `ReadError` carries the message of a failed read.
#[derive(Clone, PartialEq, Eq, Debug)]
pub enum MathEvent {
    StartDocument,
    StartElement { tag: String, attrs: Vec<Attr> },
    Characters(String),
    Whitespace(String),
    EndElement,
    Other(String),
    ReadError(String),
}

/// The mathematical value of a markup event.
pub enum EventModel {
    StartDocument,
    StartElement { tag: Seq<char>, attrs: Seq<AttrModel> },
    Characters(Seq<char>),
    Whitespace(Seq<char>),
    EndElement,
    Other(Seq<char>),
    ReadError(Seq<char>),
}

impl MathEvent {
    /// The event this value stands for.
    pub open spec fn model(&self) -> EventModel {
        match self {
            MathEvent::StartDocument => EventModel::StartDocument,
            MathEvent::StartElement { tag, attrs } => EventModel::StartElement {
                tag: tag@,
                attrs: attrs@.map_values(|a: Attr| a.model()),
            },
            MathEvent::Characters(s) => EventModel::Characters(s@),
            MathEvent::Whitespace(s) => EventModel::Whitespace(s@),
            MathEvent::EndElement => EventModel::EndElement,
            MathEvent::Other(s) => EventModel::Other(s@),
            MathEvent::ReadError(s) => EventModel::ReadError(s@),
        }
    }
}

/// The sequence of markup events that the pull parser of the `xml` crate
/// yields for a byte source, each converted to its `MathEvent` form as
/// `reader_next` converts it: from the document-start marker through the
/// first event outside the recognized set (the end-of-document marker among
/// them) or the first read fault. Parsing a byte slice depends on the bytes
/// alone, so this is a function of them; what each prefix of it builds to is
/// stated by `spec_build`, never here.
pub uninterp spec fn doc_events(bytes: Seq<u8>) -> Seq<EventModel>;

/// Whether an event ends the readable stream: the converted form of the
/// end-of-document marker or of any other unrecognized event kind, or a read
/// fault. `doc_events` runs through the first such event; the builder
/// refuses every one of them, so no build outlives its document.
pub open spec fn is_stream_end(ev: EventModel) -> bool {
    ev is Other || ev is ReadError
}

/// Holds the streaming pull parser of the `xml` crate over a borrowed byte
/// source. The parser is opaque to the verifier; the trusted readers below
/// are the only way to touch it.
#[verifier::external_body]
pub struct RawReader<'a> {
    reader: xml::reader::EventReader<&'a [u8]>,
}

/// A reading cursor over one document's markup events: the opaque pull
/// parser, how many events it has yielded, and (as a ghost) which bytes it
/// reads.
pub struct EventSource<'a> {
    raw: RawReader<'a>,
    pos: usize,
    bytes: Ghost<Seq<u8>>,
}

impl<'a> EventSource<'a> {
    /// The bytes this cursor reads.
    pub closed spec fn spec_bytes(&self) -> Seq<u8> {
        self.bytes@
    }

    /// How many events this cursor has yielded.
    pub closed spec fn spec_pos(&self) -> nat {
        self.pos as nat
    }
}

/// Relies on `xml::reader::EventReader::new`: wraps a byte source in a pull
/// parser positioned before the first event.
#[verifier::external_body]
fn raw_new(src: &[u8]) -> RawReader<'_> {
    RawReader { reader: xml::reader::EventReader::new(src) }
}

/// Opens a reading cursor over a byte source, positioned before the first
/// event.
pub fn reader_new(src: &[u8]) -> (r: EventSource<'_>)
    ensures
        r.spec_bytes() == src@,
        r.spec_pos() == 0,
{
    EventSource { raw: raw_new(src), pos: 0, bytes: Ghost(src@) }
}

/// Relies on `xml::reader::EventReader::next`: pulls the next event of the
/// document and converts it. The calls yield `doc_events` of the source
/// bytes, in order; past its end nothing is assumed of what comes back. The
/// last two clauses record what the reader's documentation gives of every
/// document: some first event always comes (the document-start marker is
/// emitted before any other, even when no declaration is present), and the
/// yielded stream runs out only at the end-of-document marker or a fault,
/// which repeat forever — so `doc_events` ends with a stream-ending event.
#[verifier::external_body]
pub fn reader_next(s: &mut EventSource<'_>) -> (ev: MathEvent)
    requires
        old(s).spec_pos() < usize::MAX,
    ensures
        final(s).spec_bytes() == old(s).spec_bytes(),
        final(s).spec_pos() == old(s).spec_pos() + 1,
        old(s).spec_pos() < doc_events(old(s).spec_bytes()).len() ==> ev.model() == doc_events(
            old(s).spec_bytes(),
        )[old(s).spec_pos() as int],
        doc_events(old(s).spec_bytes()).len() >= 1,
        is_stream_end(doc_events(old(s).spec_bytes()).last()),
{
    s.pos += 1;
    match s.raw.reader.next() {
        Ok(xml::reader::XmlEvent::StartDocument { .. }) => MathEvent::StartDocument,
        Ok(xml::reader::XmlEvent::StartElement { name, attributes, .. }) => MathEvent::StartElement {
            tag: name.local_name,
            attrs: attributes.into_iter().map(|a| Attr::new(a.name.local_name, a.value)).collect(),
        },
        Ok(xml::reader::XmlEvent::Characters(s)) => MathEvent::Characters(s),
        Ok(xml::reader::XmlEvent::Whitespace(s)) => MathEvent::Whitespace(s),
        Ok(xml::reader::XmlEvent::EndElement { .. }) => MathEvent::EndElement,
        Ok(other) => MathEvent::Other(format!("{other:?}")),
        Err(e) => MathEvent::ReadError(format!("{e}")),
    }
}

} // verus!

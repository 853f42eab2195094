use quick_xml::events::Event;
use quick_xml::Reader;
use vstd::prelude::*;

verus! {

/// `quick_xml::Reader`, carried as an opaque value.
#[verifier::external_type_specification]
#[verifier::external_body]
#[verifier::reject_recursive_types(R)]
pub struct ExReader<R>(Reader<R>);

/// One lexical event of an XML document, as the record scanner needs it.
pub enum XmlEvent {
    /// An element opened; its name.
    Open(String),
    /// Character data, trimmed and with entity references decoded.
    Text(String),
    /// An element closed; its name.
    Close(String),
    /// The document ended.
    End,
    /// The document is not well-formed XML at this byte offset.
    Malformed(u64),
    /// Anything else: comments, declarations, empty elements, CDATA.
    Skipped,
}

pub enum XmlEventView {
    Open(Seq<char>),
    Text(Seq<char>),
    Close(Seq<char>),
    End,
    Malformed(u64),
    Skipped,
}

impl View for XmlEvent {
    type V = XmlEventView;

    open spec fn view(&self) -> XmlEventView {
        match self {
            XmlEvent::Open(n) => XmlEventView::Open(n@),
            XmlEvent::Text(t) => XmlEventView::Text(t@),
            XmlEvent::Close(n) => XmlEventView::Close(n@),
            XmlEvent::End => XmlEventView::End,
            XmlEvent::Malformed(o) => XmlEventView::Malformed(*o),
            XmlEvent::Skipped => XmlEventView::Skipped,
        }
    }
}

impl XmlEventView {
    /// After this event the scan of the document stops.
    pub open spec fn is_final(self) -> bool {
        self is End || self is Malformed
    }
}

/// The event that the `index`-th read (from zero) of a text-trimming
/// `quick_xml` reader over `doc` yields.
pub uninterp spec fn xml_event_at(doc: Seq<char>, index: nat) -> XmlEventView;

/// The first `n` events of `doc`.
pub open spec fn xml_events(doc: Seq<char>, n: nat) -> Seq<XmlEventView> {
    Seq::new(n, |i: int| xml_event_at(doc, i as nat))
}

/// Relies on `quick_xml::Reader::from_str` and `Config::trim_text`: a reader
/// over `s` that drops whitespace at both ends of text.
#[verifier::external_body]
fn trimming_reader<'a>(s: &'a str) -> Reader<&'a [u8]> {
    let mut reader = Reader::from_str(s);
    reader.config_mut().trim_text(true);
    reader
}

/// A forward cursor over the events of one document.
pub(crate) struct XmlCursor<'a> {
    reader: Reader<&'a [u8]>,
    doc: Ghost<Seq<char>>,
    index: Ghost<nat>,
    pos: Ghost<u64>,
}

impl<'a> XmlCursor<'a> {
    /// A cursor at the start of `s`.
    pub(crate) fn new(s: &'a str) -> (r: XmlCursor<'a>)
        ensures
            r.doc() == s@,
            r.index() == 0,
            r.pos() == 0,
    {
        XmlCursor { reader: trimming_reader(s), doc: Ghost(s@), index: Ghost(0), pos: Ghost(0) }
    }

    /// The document.
    pub closed spec fn doc(&self) -> Seq<char> {
        self.doc@
    }

    /// The number of events read so far.
    pub closed spec fn index(&self) -> nat {
        self.index@
    }

    /// The number of bytes of the document consumed so far.
    pub closed spec fn pos(&self) -> int {
        self.pos@ as int
    }

    /// The number of bytes in the document.
    pub open spec fn size(&self) -> int {
        vstd::utf8::encode_utf8(self.doc()).len() as int
    }

    /// Relies on `quick_xml::Reader::read_event`, `BytesText::unescape` and
    /// `Reader::error_position`: the next event depends on the document and
    /// on how many were read before it alone; every event but the end and an
    /// error consumes input, and nothing past the end is consumed.
    #[verifier::external_body]
    pub(crate) fn next_event(&mut self) -> (r: XmlEvent)
        ensures
            r@ == xml_event_at(old(self).doc(), old(self).index()),
            final(self).doc() == old(self).doc(),
            final(self).index() == old(self).index() + 1,
            final(self).pos() <= final(self).size(),
            !r@.is_final() ==> final(self).pos() > old(self).pos(),
    {
        let r = match self.reader.read_event() {
            Ok(Event::Start(e)) => XmlEvent::Open(String::from_utf8_lossy(e.name().0).into_owned()),
            Ok(Event::End(e)) => XmlEvent::Close(String::from_utf8_lossy(e.name().0).into_owned()),
            Ok(Event::Text(e)) => e.unescape().map_or(
                XmlEvent::Malformed(self.reader.buffer_position()),
                |t| XmlEvent::Text(t.into_owned()),
            ),
            Ok(Event::Eof) => XmlEvent::End,
            Ok(_) => XmlEvent::Skipped,
            Err(_) => XmlEvent::Malformed(self.reader.error_position()),
        };
        self.index = Ghost(self.index@ + 1);
        self.pos = Ghost(self.reader.buffer_position());
        r
    }
}

} // verus!

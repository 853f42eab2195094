use vstd::prelude::*;

verus! {

use crate::ip::{ip_of_text, parse_ip};
use crate::record::{
    default_message, messages_view, DmarcMessage, Field, MessageView, ParseError, ParseErrorView,
};
use crate::text::{parse_u32, same_text, u32_of_text};
use crate::xml::{xml_event_at, xml_events, XmlCursor, XmlEvent, XmlEventView};

/// The element whose close ends a record.
pub open spec fn record_tag() -> Seq<char> {
    "record"@
}

/// The names of the elements whose text fills a field.
pub open spec fn is_field_tag(tag: Seq<char>) -> bool {
    tag == "org_name"@ || tag == "begin"@ || tag == "end"@ || tag == "header_from"@ || tag
        == "source_ip"@ || tag == "count"@ || tag == "dkim_result"@ || tag == "dkim_domain"@
        || tag == "spf_result"@ || tag == "spf_message"@
}

/// The unsigned integer that `text` gives a field, or the coercion error.
pub open spec fn u32_field(field: Field, text: Seq<char>) -> Result<u32, ParseErrorView> {
    match u32_of_text(text) {
        Some(v) => Ok(v),
        None => Err(ParseErrorView::FieldCoercion { field, text }),
    }
}

/// The record after the text `text` of element `tag` has been routed into it.
pub open spec fn assign_text(m: MessageView, tag: Seq<char>, text: Seq<char>) -> Result<
    MessageView,
    ParseErrorView,
> {
    if tag == "org_name"@ {
        Ok(MessageView { org_name: text, ..m })
    } else if tag == "begin"@ {
        match u32_field(Field::DateRangeBegin, text) {
            Ok(v) => Ok(MessageView { date_range_begin: v, ..m }),
            Err(e) => Err(e),
        }
    } else if tag == "end"@ {
        match u32_field(Field::DateRangeEnd, text) {
            Ok(v) => Ok(MessageView { date_range_end: v, ..m }),
            Err(e) => Err(e),
        }
    } else if tag == "header_from"@ {
        Ok(MessageView { header_from: text, ..m })
    } else if tag == "source_ip"@ {
        match ip_of_text(text) {
            Some(a) => Ok(MessageView { source_ip: a, ..m }),
            None => Err(ParseErrorView::FieldCoercion { field: Field::SourceIp, text }),
        }
    } else if tag == "count"@ {
        match u32_field(Field::MessageCount, text) {
            Ok(v) => Ok(MessageView { message_count: v, ..m }),
            Err(e) => Err(e),
        }
    } else if tag == "dkim_result"@ {
        Ok(MessageView { dkim_aligned: text == "pass"@, ..m })
    } else if tag == "dkim_domain"@ {
        Ok(MessageView { dkim_domain: text, ..m })
    } else if tag == "spf_result"@ {
        Ok(MessageView { spf_aligned: text == "pass"@, ..m })
    } else if tag == "spf_message"@ {
        Ok(MessageView { spf_domain: text, ..m })
    } else {
        Ok(m)
    }
}

/// The state of a scan: the element opened last, the record being filled,
/// and the records completed so far.
pub struct ScanView {
    pub element: Seq<char>,
    pub current: MessageView,
    pub records: Seq<MessageView>,
}

pub open spec fn initial_scan() -> ScanView {
    ScanView { element: Seq::empty(), current: default_message(), records: Seq::empty() }
}

/// One event applied to a scan.
pub open spec fn step(st: ScanView, e: XmlEventView) -> Result<ScanView, ParseErrorView> {
    match e {
        XmlEventView::Open(name) => Ok(ScanView { element: name, ..st }),
        XmlEventView::Text(text) => match assign_text(st.current, st.element, text) {
            Ok(m) => Ok(ScanView { current: m, ..st }),
            Err(x) => Err(x),
        },
        XmlEventView::Close(name) => if name == record_tag() {
            Ok(ScanView { current: default_message(), records: st.records.push(st.current), ..st })
        } else {
            Ok(st)
        },
        XmlEventView::Malformed(offset) => Err(ParseErrorView::MalformedXml { offset }),
        XmlEventView::End => Ok(st),
        XmlEventView::Skipped => Ok(st),
    }
}

/// The events applied one by one to `st`; the first error ends the scan.
pub open spec fn scan_from(st: ScanView, evs: Seq<XmlEventView>) -> Result<ScanView, ParseErrorView>
    decreases evs.len(),
{
    if evs.len() == 0 {
        Ok(st)
    } else {
        match scan_from(st, evs.drop_last()) {
            Ok(s) => step(s, evs.last()),
            Err(x) => Err(x),
        }
    }
}

/// The events applied to a fresh scan.
pub open spec fn scan(evs: Seq<XmlEventView>) -> Result<ScanView, ParseErrorView> {
    scan_from(initial_scan(), evs)
}

/// What a scan of these events hands back: its records, or its error.
pub open spec fn outcome(evs: Seq<XmlEventView>) -> Result<Seq<MessageView>, ParseErrorView> {
    match scan(evs) {
        Ok(st) => Ok(st.records),
        Err(x) => Err(x),
    }
}

/// Reading `doc` stops after its first `n` events: none before the last of
/// them ended the document or failed the scan, and the last did one or the
/// other.
pub open spec fn stops_after(doc: Seq<char>, n: nat) -> bool {
    &&& n > 0
    &&& forall|i: nat|
        i + 1 < n ==> !(#[trigger] xml_event_at(doc, i) is End) && scan(xml_events(doc, i + 1)) is Ok
    &&& (xml_event_at(doc, (n - 1) as nat) is End || scan(xml_events(doc, n)) is Err)
}

/// The value of a parse result.
pub open spec fn result_view(r: Result<Vec<DmarcMessage>, ParseError>) -> Result<
    Seq<MessageView>,
    ParseErrorView,
> {
    match r {
        Ok(v) => Ok(messages_view(v@)),
        Err(e) => Err(e@),
    }
}

/// A scan in progress: the executable counterpart of `ScanView`.
pub struct RecordScanner {
    element: String,
    current: DmarcMessage,
    records: Vec<DmarcMessage>,
}

impl View for RecordScanner {
    type V = ScanView;

    closed spec fn view(&self) -> ScanView {
        ScanView {
            element: self.element@,
            current: self.current@,
            records: messages_view(self.records@),
        }
    }
}

impl RecordScanner {
    /// A scan that has seen no event.
    pub fn new() -> (r: RecordScanner)
        ensures
            r@ == initial_scan(),
    {
        let r = RecordScanner { element: String::new(), current: DmarcMessage::new(), records: Vec::new() };
        assert(messages_view(r.records@) =~= Seq::empty());
        r
    }

    /// Applies one event.
    pub fn feed(&mut self, e: XmlEvent) -> (r: Result<(), ParseError>)
        ensures
            match step(old(self)@, e@) {
                Ok(st) => r is Ok && final(self)@ == st,
                Err(x) => r matches Err(y) && y@ == x,
            },
    {
        match e {
            XmlEvent::Open(name) => {
                self.element = name;
                Ok(())
            },
            XmlEvent::Text(text) => self.assign(text),
            XmlEvent::Close(name) => {
                if same_text(name.as_str(), "record") {
                    let mut done = DmarcMessage::new();
                    std::mem::swap(&mut self.current, &mut done);
                    let ghost before = self.records@;
                    self.records.push(done);
                    proof {
                        assert(messages_view(self.records@) =~= messages_view(before).push(done@));
                    }
                }
                Ok(())
            },
            XmlEvent::Malformed(offset) => Err(ParseError::MalformedXml { offset }),
            XmlEvent::End => Ok(()),
            XmlEvent::Skipped => Ok(()),
        }
    }

    /// Routes text into the field that the open element names.
    fn assign(&mut self, text: String) -> (r: Result<(), ParseError>)
        ensures
            match assign_text(old(self)@.current, old(self)@.element, text@) {
                Ok(m) => r is Ok && final(self)@ == (ScanView { current: m, ..old(self)@ }),
                Err(x) => r matches Err(y) && y@ == x,
            },
    {
        let tag = self.element.as_str();
        if same_text(tag, "org_name") {
            self.current.org_name = text;
        } else if same_text(tag, "begin") {
            match parse_u32(text.as_str()) {
                Some(v) => self.current.date_range_begin = v,
                None => return Err(ParseError::FieldCoercion { field: Field::DateRangeBegin, text }),
            }
        } else if same_text(tag, "end") {
            match parse_u32(text.as_str()) {
                Some(v) => self.current.date_range_end = v,
                None => return Err(ParseError::FieldCoercion { field: Field::DateRangeEnd, text }),
            }
        } else if same_text(tag, "header_from") {
            self.current.header_from = text;
        } else if same_text(tag, "source_ip") {
            match parse_ip(text.as_str()) {
                Some(a) => self.current.source_ip = a,
                None => return Err(ParseError::FieldCoercion { field: Field::SourceIp, text }),
            }
        } else if same_text(tag, "count") {
            match parse_u32(text.as_str()) {
                Some(v) => self.current.message_count = v,
                None => return Err(ParseError::FieldCoercion { field: Field::MessageCount, text }),
            }
        } else if same_text(tag, "dkim_result") {
            self.current.dkim_aligned = same_text(text.as_str(), "pass");
        } else if same_text(tag, "dkim_domain") {
            self.current.dkim_domain = text;
        } else if same_text(tag, "spf_result") {
            self.current.spf_aligned = same_text(text.as_str(), "pass");
        } else if same_text(tag, "spf_message") {
            self.current.spf_domain = text;
        }
        Ok(())
    }

    /// The records completed so far.
    pub fn into_records(self) -> (r: Vec<DmarcMessage>)
        ensures
            messages_view(r@) == self@.records,
    {
        self.records
    }
}

/// Reads every `<record>` of a DMARC aggregate report, in document order.
///
/// Text is routed by the element opened last, whatever encloses it: this is
/// sound because no two field elements of the report schema share a name and
/// none nests inside another. Text before the first `<record>` fills the
/// first record. A record is complete at its `</record>`, and one left open at
/// the end of the document is dropped. The first malformed markup or
/// unconvertible field ends the parse with its error.
pub fn perse_dmarc_xml(xml_content: &str) -> (r: Result<Vec<DmarcMessage>, ParseError>)
    ensures
        exists|n: nat|
            stops_after(xml_content@, n) && result_view(r) == outcome(
                #[trigger] xml_events(xml_content@, n),
            ),
{
    let mut cursor = XmlCursor::new(xml_content);
    let mut scanner = RecordScanner::new();
    let ghost doc = xml_content@;
    proof {
        assert(xml_events(doc, 0) =~= Seq::empty());
    }
    loop
        invariant
            cursor.doc() == doc,
            doc == xml_content@,
            0 <= cursor.pos() <= cursor.size(),
            scan(xml_events(doc, cursor.index())) == Ok::<ScanView, ParseErrorView>(scanner@),
            forall|i: nat|
                i < cursor.index() ==> !(#[trigger] xml_event_at(doc, i) is End) && scan(
                    xml_events(doc, i + 1),
                ) is Ok,
        decreases cursor.size() - cursor.pos(),
    {
        let ghost k = cursor.index();
        let e = cursor.next_event();
        proof {
            let evs = xml_events(doc, k + 1);
            assert(evs.drop_last() =~= xml_events(doc, k));
            assert(evs.last() == e@);
        }
        if let XmlEvent::End = e {
            let res = Ok(scanner.into_records());
            proof {
                let n: nat = k + 1;
                assert(stops_after(doc, n));
                assert(result_view(res) == outcome(xml_events(doc, n)));
            }
            return res;
        }
        match scanner.feed(e) {
            Ok(()) => {},
            Err(x) => {
                let res = Err(x);
                proof {
                    let n: nat = k + 1;
                    assert(stops_after(doc, n));
                    assert(result_view(res) == outcome(xml_events(doc, n)));
                }
                return res;
            },
        }
    }
}

} // verus!

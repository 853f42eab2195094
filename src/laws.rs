use vstd::prelude::*;

verus! {

use crate::ip::ip_of_text;
use crate::parser::{
    assign_text, is_field_tag, outcome, record_tag, scan, scan_from, step, stops_after, ScanView,
};
use crate::record::{default_message, Field, MessageView, ParseErrorView};
use crate::text::u32_of_text;
use crate::xml::{xml_events, XmlEventView};

/// The number of events that close a record.
pub open spec fn record_closes(evs: Seq<XmlEventView>) -> nat
    decreases evs.len(),
{
    if evs.len() == 0 {
        0
    } else {
        record_closes(evs.drop_last()) + if evs.last() == XmlEventView::Close(record_tag()) {
            1nat
        } else {
            0nat
        }
    }
}

/// A scan of `a` followed by `b` is the scan of `b` from where `a` left off.
pub proof fn lemma_scan_concat(st: ScanView, a: Seq<XmlEventView>, b: Seq<XmlEventView>)
    ensures
        scan_from(st, a + b) == match scan_from(st, a) {
            Ok(s) => scan_from(s, b),
            Err(x) => Err(x),
        },
    decreases b.len(),
{
    if b.len() == 0 {
        assert(a + b =~= a);
    } else {
        lemma_scan_concat(st, a, b.drop_last());
        assert((a + b).drop_last() =~= a + b.drop_last());
        assert((a + b).last() == b.last());
    }
}

/// A scan that succeeds completes exactly one record per `</record>`.
pub proof fn lemma_one_record_per_close(evs: Seq<XmlEventView>)
    requires
        scan(evs) is Ok,
    ensures
        scan(evs)->Ok_0.records.len() == record_closes(evs),
    decreases evs.len(),
{
    if evs.len() > 0 {
        lemma_one_record_per_close(evs.drop_last());
    }
}

/// A report that parses has one record per `</record>` that was read.
pub proof fn lemma_parse_counts_closes(doc: Seq<char>, n: nat)
    requires
        stops_after(doc, n),
        outcome(xml_events(doc, n)) is Ok,
    ensures
        outcome(xml_events(doc, n))->Ok_0.len() == record_closes(xml_events(doc, n)),
{
    lemma_one_record_per_close(xml_events(doc, n));
}

/// The records of a successful scan come in document order: every prefix of
/// the events yields a prefix of the records.
pub proof fn lemma_records_keep_order(evs: Seq<XmlEventView>, k: int)
    requires
        scan(evs) is Ok,
        0 <= k <= evs.len(),
    ensures
        scan(evs.subrange(0, k)) is Ok,
        scan(evs.subrange(0, k))->Ok_0.records.len() <= scan(evs)->Ok_0.records.len(),
        scan(evs.subrange(0, k))->Ok_0.records == scan(evs)->Ok_0.records.subrange(
            0,
            scan(evs.subrange(0, k))->Ok_0.records.len() as int,
        ),
    decreases evs.len(),
{
    if k == evs.len() {
        assert(evs.subrange(0, k) =~= evs);
        assert(scan(evs)->Ok_0.records.subrange(0, scan(evs)->Ok_0.records.len() as int)
            =~= scan(evs)->Ok_0.records);
    } else {
        let d = evs.drop_last();
        lemma_records_keep_order(d, k);
        assert(d.subrange(0, k) =~= evs.subrange(0, k));
        let before = scan(d)->Ok_0.records;
        let after = scan(evs)->Ok_0.records;
        let part = scan(evs.subrange(0, k))->Ok_0.records;
        assert(after == before || after == before.push(scan(d)->Ok_0.current));
        assert(part =~= after.subrange(0, part.len() as int));
    }
}

/// A `<record>` whose contents open no element that fills a field, close no
/// record and hold no malformed markup adds one record with every field at
/// its default, when it starts from a fresh accumulator.
pub proof fn lemma_record_without_fields_is_default(st: ScanView, inner: Seq<XmlEventView>)
    requires
        st.current == default_message(),
        forall|i: int|
            0 <= i < inner.len() ==> !(#[trigger] inner[i] is Malformed) && inner[i]
                != XmlEventView::Close(record_tag()) && (inner[i] matches XmlEventView::Open(
                n,
            ) ==> !is_field_tag(n)),
    ensures
        scan_from(
            st,
            seq![XmlEventView::Open(record_tag())] + inner + seq![XmlEventView::Close(record_tag())],
        ) matches Ok(s) && s.records == st.records.push(default_message()) && s.current
            == default_message(),
{
    let open = seq![XmlEventView::Open(record_tag())];
    let close = seq![XmlEventView::Close(record_tag())];
    lemma_tag_names();
    assert(!is_field_tag(record_tag()));
    assert(open.drop_last() =~= Seq::<XmlEventView>::empty());
    lemma_quiet_events(st, open, inner);
    lemma_scan_concat(st, open + inner, close);
    assert(close.drop_last() =~= Seq::<XmlEventView>::empty());
    let s = scan_from(st, open + inner)->Ok_0;
    assert(scan_from(s, Seq::<XmlEventView>::empty()) == Ok::<ScanView, ParseErrorView>(s));
    assert(scan_from(s, close) == step(s, XmlEventView::Close(record_tag())));
}

/// Events that touch no field leave the accumulator and the records as they
/// were.
proof fn lemma_quiet_events(st: ScanView, open: Seq<XmlEventView>, inner: Seq<XmlEventView>)
    requires
        st.current == default_message(),
        !is_field_tag(record_tag()),
        open == seq![XmlEventView::Open(record_tag())],
        forall|i: int|
            0 <= i < inner.len() ==> !(#[trigger] inner[i] is Malformed) && inner[i]
                != XmlEventView::Close(record_tag()) && (inner[i] matches XmlEventView::Open(
                n,
            ) ==> !is_field_tag(n)),
    ensures
        scan_from(st, open + inner) matches Ok(s) && s.records == st.records && s.current
            == default_message() && !is_field_tag(s.element),
    decreases inner.len(),
{
    if inner.len() == 0 {
        assert(open + inner =~= open);
        assert(open.drop_last() =~= Seq::<XmlEventView>::empty());
        assert(scan_from(st, Seq::<XmlEventView>::empty()) == Ok::<ScanView, ParseErrorView>(st));
        assert(scan_from(st, open) == step(st, XmlEventView::Open(record_tag())));
    } else {
        let d = inner.drop_last();
        assert forall|i: int| 0 <= i < d.len() implies !(#[trigger] d[i] is Malformed) && d[i]
            != XmlEventView::Close(record_tag()) && (d[i] matches XmlEventView::Open(n)
            ==> !is_field_tag(n)) by {
            assert(d[i] == inner[i]);
        }
        lemma_quiet_events(st, open, d);
        assert((open + inner).drop_last() =~= open + d);
        assert((open + inner).last() == inner[inner.len() - 1]);
        let s = scan_from(st, open + d)->Ok_0;
        let e = inner[inner.len() - 1];
        lemma_unrouted_text_is_ignored(s.current, s.element);
        assert(scan_from(st, open + inner) == step(s, e));
        match e {
            XmlEventView::Text(t) => {
                assert(assign_text(s.current, s.element, t) == Ok::<MessageView, ParseErrorView>(s.current));
            },
            _ => {},
        }
    }
}

/// The element names differ from one another.
proof fn lemma_tag_names()
    ensures
        "record"@.len() == 6,
        "org_name"@.len() == 8,
        "begin"@.len() == 5 && "begin"@[0] == 'b',
        "end"@.len() == 3,
        "header_from"@.len() == 11 && "header_from"@[0] == 'h',
        "source_ip"@.len() == 9,
        "count"@.len() == 5 && "count"@[0] == 'c',
        "dkim_result"@.len() == 11 && "dkim_result"@[0] == 'd' && "dkim_result"@[5] == 'r',
        "dkim_domain"@.len() == 11 && "dkim_domain"@[0] == 'd' && "dkim_domain"@[5] == 'd',
        "spf_result"@.len() == 10,
        "spf_message"@.len() == 11 && "spf_message"@[0] == 's',
{
    reveal_strlit("record");
    reveal_strlit("org_name");
    reveal_strlit("begin");
    reveal_strlit("end");
    reveal_strlit("header_from");
    reveal_strlit("source_ip");
    reveal_strlit("count");
    reveal_strlit("dkim_result");
    reveal_strlit("dkim_domain");
    reveal_strlit("spf_result");
    reveal_strlit("spf_message");
}

/// Text under an element that fills no field changes nothing.
proof fn lemma_unrouted_text_is_ignored(m: MessageView, tag: Seq<char>)
    requires
        !is_field_tag(tag),
    ensures
        forall|text: Seq<char>| #[trigger] assign_text(m, tag, text) == Ok::<MessageView, ParseErrorView>(m),
{
}

/// `dkim_aligned` and `spf_aligned` are true exactly when their text is `pass`.
pub proof fn lemma_pass_is_exact(m: MessageView, text: Seq<char>)
    ensures
        assign_text(m, "dkim_result"@, text) == Ok::<MessageView, ParseErrorView>(
            MessageView { dkim_aligned: text == "pass"@, ..m },
        ),
        assign_text(m, "spf_result"@, text) == Ok::<MessageView, ParseErrorView>(
            MessageView { spf_aligned: text == "pass"@, ..m },
        ),
{
    lemma_tag_names();
}

/// Text for a typed field becomes exactly the value it denotes; where it
/// denotes none, the scan fails naming that field and that text.
pub proof fn lemma_typed_fields_coerce(m: MessageView, text: Seq<char>)
    ensures
        assign_text(m, "count"@, text) == match u32_of_text(text) {
            Some(v) => Ok(MessageView { message_count: v, ..m }),
            None => Err(ParseErrorView::FieldCoercion { field: Field::MessageCount, text }),
        },
        assign_text(m, "begin"@, text) == match u32_of_text(text) {
            Some(v) => Ok(MessageView { date_range_begin: v, ..m }),
            None => Err(ParseErrorView::FieldCoercion { field: Field::DateRangeBegin, text }),
        },
        assign_text(m, "end"@, text) == match u32_of_text(text) {
            Some(v) => Ok(MessageView { date_range_end: v, ..m }),
            None => Err(ParseErrorView::FieldCoercion { field: Field::DateRangeEnd, text }),
        },
        assign_text(m, "source_ip"@, text) == match ip_of_text(text) {
            Some(a) => Ok(MessageView { source_ip: a, ..m }),
            None => Err(ParseErrorView::FieldCoercion { field: Field::SourceIp, text }),
        },
{
    lemma_tag_names();
}

/// Malformed markup ends the scan with its offset, whatever follows it.
pub proof fn lemma_malformed_is_fatal(evs: Seq<XmlEventView>, offset: u64, rest: Seq<XmlEventView>)
    requires
        scan(evs) is Ok,
    ensures
        scan(evs.push(XmlEventView::Malformed(offset)) + rest) == Err::<ScanView, ParseErrorView>(
            ParseErrorView::MalformedXml { offset },
        ),
{
    let e = evs.push(XmlEventView::Malformed(offset));
    assert(e.drop_last() =~= evs);
    lemma_scan_concat(crate::parser::initial_scan(), e, rest);
}

} // verus!

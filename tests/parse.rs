use dmarc_report::{
    parse_ip, parse_u32, perse_dmarc_xml, DmarcMessage, Field, IpAddress, ParseError, RecordScanner,
    XmlEvent,
};

fn one(xml: &str) -> DmarcMessage {
    let mut v = perse_dmarc_xml(xml).expect("well-formed report");
    assert_eq!(v.len(), 1);
    v.remove(0)
}

#[test]
fn scenario_single_record_fields() {
    let xml = "<feedback><record><org_name>ACME</org_name><row><source_ip>192.0.2.1</source_ip>\
               <count>3</count></row><auth_results><dkim><dkim_domain>acme.com</dkim_domain>\
               <dkim_result>pass</dkim_result></dkim></auth_results></record></feedback>";
    let m = one(xml);
    assert_eq!(m.org_name, "ACME");
    assert_eq!(m.source_ip, IpAddress::V4(0xC000_0201));
    assert_eq!(m.message_count, 3);
    assert_eq!(m.dkim_domain, "acme.com");
    assert!(m.dkim_aligned);
    assert!(!m.spf_aligned);
}

#[test]
fn scenario_two_records_in_order() {
    let xml = "<feedback><record><count>1</count></record><record><count>2</count></record></feedback>";
    let v = perse_dmarc_xml(xml).unwrap();
    assert_eq!(v.len(), 2);
    assert_eq!(v[0].message_count, 1);
    assert_eq!(v[1].message_count, 2);
}

#[test]
fn scenario_bad_count_is_coercion_error() {
    let r = perse_dmarc_xml("<record><count>abc</count></record>");
    match r {
        Err(ParseError::FieldCoercion { field, text }) => {
            assert_eq!(field, Field::MessageCount);
            assert_eq!(field.as_str(), "message_count");
            assert_eq!(text, "abc");
        }
        other => panic!("unexpected {:?}", other),
    }
}

#[test]
fn scenario_empty_record_is_default() {
    let m = one("<record></record>");
    assert_eq!(m, DmarcMessage::new());
    assert_eq!(m.source_ip, IpAddress::V4(0));
    assert_eq!(m.org_name, "");
    assert_eq!(m.date_range_begin, 0);
    assert!(!m.dkim_aligned);
}

#[test]
fn records_follow_document_order_in_nested_report() {
    let xml = "<?xml version=\"1.0\"?><feedback><report_metadata><org_name>Rep</org_name>\
               <date_range><begin>100</begin><end>200</end></date_range></report_metadata>\
               <record><row><source_ip>10.0.0.1</source_ip><count>5</count></row>\
               <identifiers><header_from>a.example</header_from></identifiers></record>\
               <record><row><source_ip>10.0.0.2</source_ip><count>6</count></row>\
               <identifiers><header_from>b.example</header_from></identifiers></record>\
               <record><row><source_ip>10.0.0.3</source_ip><count>7</count></row></record></feedback>";
    let v = perse_dmarc_xml(xml).unwrap();
    assert_eq!(v.len(), 3);
    assert_eq!(v[0].source_ip, IpAddress::V4(0x0A00_0001));
    assert_eq!(v[1].source_ip, IpAddress::V4(0x0A00_0002));
    assert_eq!(v[2].source_ip, IpAddress::V4(0x0A00_0003));
    assert_eq!(v[0].header_from, "a.example");
    assert_eq!(v[1].header_from, "b.example");
    assert_eq!(v[2].header_from, "");
    // Text before the first record lands in the first accumulator only.
    assert_eq!(v[0].org_name, "Rep");
    assert_eq!(v[0].date_range_begin, 100);
    assert_eq!(v[0].date_range_end, 200);
    assert_eq!(v[1].org_name, "");
    assert_eq!(v[1].date_range_begin, 0);
}

#[test]
fn record_with_unknown_tags_only_is_default() {
    let m = one("<record><policy_evaluated><disposition>none</disposition></policy_evaluated>\
                 <extension>x</extension></record>");
    assert_eq!(m, DmarcMessage::new());
}

#[test]
fn all_fields_are_routed() {
    let xml = "<record><org_name>O</org_name><begin>1</begin><end>2</end><header_from>h</header_from>\
               <source_ip>::1</source_ip><count>9</count><dkim_result>pass</dkim_result>\
               <dkim_domain>d</dkim_domain><spf_result>pass</spf_result><spf_message>s</spf_message></record>";
    let m = one(xml);
    assert_eq!(m.org_name, "O");
    assert_eq!(m.date_range_begin, 1);
    assert_eq!(m.date_range_end, 2);
    assert_eq!(m.header_from, "h");
    assert_eq!(m.source_ip, IpAddress::V6(1));
    assert_eq!(m.message_count, 9);
    assert!(m.dkim_aligned);
    assert_eq!(m.dkim_domain, "d");
    assert!(m.spf_aligned);
    assert_eq!(m.spf_domain, "s");
}

#[test]
fn pass_is_exact_and_case_sensitive() {
    assert!(!one("<record><dkim_result>fail</dkim_result></record>").dkim_aligned);
    assert!(!one("<record><dkim_result>Pass</dkim_result></record>").dkim_aligned);
    assert!(!one("<record><dkim_result></dkim_result></record>").dkim_aligned);
    assert!(!one("<record><spf_result>softfail</spf_result></record>").spf_aligned);
    assert!(one("<record><spf_result>pass</spf_result></record>").spf_aligned);
    assert!(!one("<record><spf_result>PASS</spf_result></record>").spf_aligned);
}

#[test]
fn whitespace_between_tags_changes_nothing() {
    let tight = "<feedback><record><org_name>ACME</org_name><row><count>3</count></row></record></feedback>";
    let loose = "<feedback>\n  <record>\n    <org_name>ACME</org_name>\n    <row>\n      <count>3</count>\n    </row>\n  </record>\n</feedback>\n";
    assert_eq!(perse_dmarc_xml(tight).unwrap(), perse_dmarc_xml(loose).unwrap());
    assert_eq!(one("<record><count> 3 </count></record>").message_count, 3);
}

#[test]
fn truncated_document_is_malformed() {
    let r = perse_dmarc_xml("<feedback><record><count>3</cou");
    assert!(matches!(r, Err(ParseError::MalformedXml { .. })));
}

#[test]
fn mismatched_close_is_malformed() {
    let r = perse_dmarc_xml("<feedback><record><count>3</record></feedback>");
    assert!(matches!(r, Err(ParseError::MalformedXml { .. })));
}

#[test]
fn unclosed_trailing_record_is_dropped() {
    let v = perse_dmarc_xml("<feedback><record><count>1</count></record><record><count>2</count>").unwrap();
    assert_eq!(v.len(), 1);
    assert_eq!(v[0].message_count, 1);
}

#[test]
fn empty_document_has_no_records() {
    assert_eq!(perse_dmarc_xml("").unwrap().len(), 0);
    assert_eq!(perse_dmarc_xml("<feedback></feedback>").unwrap().len(), 0);
}

#[test]
fn entities_are_decoded() {
    assert_eq!(one("<record><org_name>A &amp; B &lt;x&gt;</org_name></record>").org_name, "A & B <x>");
}

#[test]
fn unknown_entity_is_malformed() {
    let r = perse_dmarc_xml("<record><org_name>A &bogus; B</org_name></record>");
    assert!(matches!(r, Err(ParseError::MalformedXml { .. })));
}

#[test]
fn bad_address_and_dates_name_their_field() {
    match perse_dmarc_xml("<record><source_ip>300.1.1.1</source_ip></record>") {
        Err(ParseError::FieldCoercion { field, text }) => {
            assert_eq!(field, Field::SourceIp);
            assert_eq!(text, "300.1.1.1");
        }
        other => panic!("unexpected {:?}", other),
    }
    match perse_dmarc_xml("<record><begin>-1</begin></record>") {
        Err(ParseError::FieldCoercion { field, .. }) => assert_eq!(field.as_str(), "date_range_begin"),
        other => panic!("unexpected {:?}", other),
    }
    match perse_dmarc_xml("<record><end>4294967296</end></record>") {
        Err(ParseError::FieldCoercion { field, .. }) => assert_eq!(field, Field::DateRangeEnd),
        other => panic!("unexpected {:?}", other),
    }
}

#[test]
fn first_error_wins() {
    match perse_dmarc_xml("<record><count>x</count><begin>y</begin></record><a></b>") {
        Err(ParseError::FieldCoercion { field, .. }) => assert_eq!(field, Field::MessageCount),
        other => panic!("unexpected {:?}", other),
    }
}

#[test]
fn u32_text_reads_like_rust() {
    assert_eq!(parse_u32("0"), Some(0));
    assert_eq!(parse_u32("4294967295"), Some(u32::MAX));
    assert_eq!(parse_u32("4294967296"), None);
    assert_eq!(parse_u32("+17"), Some(17));
    assert_eq!(parse_u32("007"), Some(7));
    assert_eq!(parse_u32("+"), None);
    assert_eq!(parse_u32(""), None);
    assert_eq!(parse_u32("-1"), None);
    assert_eq!(parse_u32("1 2"), None);
    assert_eq!(parse_u32("١٢"), None);
    assert_eq!(parse_u32("99999999999999999999"), None);
}

#[test]
fn ipv4_text_reads_like_rust() {
    assert_eq!(parse_ip("0.0.0.0"), Some(IpAddress::V4(0)));
    assert_eq!(parse_ip("255.255.255.255"), Some(IpAddress::V4(u32::MAX)));
    assert_eq!(parse_ip("192.0.2.1"), Some(IpAddress::V4(0xC000_0201)));
    assert_eq!(parse_ip("256.0.0.1"), None);
    assert_eq!(parse_ip("01.2.3.4"), None);
    assert_eq!(parse_ip("1.2.3"), None);
    assert_eq!(parse_ip("1.2.3.4.5"), None);
    assert_eq!(parse_ip("1..2.3"), None);
    assert_eq!(parse_ip("1.2.3.4 "), None);
    assert_eq!(parse_ip(""), None);
}

#[test]
fn ipv6_text_reads_like_rust() {
    assert_eq!(parse_ip("::"), Some(IpAddress::V6(0)));
    assert_eq!(parse_ip("::1"), Some(IpAddress::V6(1)));
    assert_eq!(parse_ip("1::"), Some(IpAddress::V6(1u128 << 112)));
    assert_eq!(
        parse_ip("2001:db8::ff00:42:8329"),
        Some(IpAddress::V6(0x2001_0db8_0000_0000_0000_ff00_0042_8329))
    );
    assert_eq!(
        parse_ip("2001:0DB8:0000:0000:0000:FF00:0042:8329"),
        Some(IpAddress::V6(0x2001_0db8_0000_0000_0000_ff00_0042_8329))
    );
    assert_eq!(parse_ip("::ffff:192.0.2.1"), Some(IpAddress::V6(0xffff_c000_0201)));
    assert_eq!(
        parse_ip("1:2:3:4:5:6:1.2.3.4"),
        Some(IpAddress::V6(0x0001_0002_0003_0004_0005_0006_0102_0304))
    );
    assert_eq!(
        parse_ip("1:2:3:4:5:6:7::"),
        Some(IpAddress::V6(0x0001_0002_0003_0004_0005_0006_0007_0000))
    );
    assert_eq!(parse_ip("1:2:3:4:5:6:7:8:9"), None);
    assert_eq!(parse_ip("1:2:3:4:5:6:7:8::"), None);
    assert_eq!(parse_ip("::1:2:3:4:5:6:7:8"), None);
    assert_eq!(parse_ip("1::2::3"), None);
    assert_eq!(parse_ip(":::"), None);
    assert_eq!(parse_ip(":1::2"), None);
    assert_eq!(parse_ip("1:2:3:4:5:6:7"), None);
    assert_eq!(parse_ip("12345::"), None);
    assert_eq!(parse_ip("1.2.3.4::"), None);
    assert_eq!(parse_ip("::1.2.3.4:5"), None);
    assert_eq!(parse_ip("1:2:3:4:5:6:7:1.2.3.4"), None);
    assert_eq!(parse_ip("g::"), None);
}

#[test]
fn scanner_routes_events_by_last_open_element() {
    let mut s = RecordScanner::new();
    let events = vec![
        XmlEvent::Open("record".to_string()),
        XmlEvent::Open("count".to_string()),
        XmlEvent::Text("12".to_string()),
        XmlEvent::Close("count".to_string()),
        XmlEvent::Skipped,
        XmlEvent::Open("spf_message".to_string()),
        XmlEvent::Text("via mx".to_string()),
        XmlEvent::Close("record".to_string()),
        XmlEvent::Open("org_name".to_string()),
        XmlEvent::Text("next".to_string()),
    ];
    for e in events {
        assert_eq!(s.feed(e), Ok(()));
    }
    let v = s.into_records();
    assert_eq!(v.len(), 1);
    assert_eq!(v[0].message_count, 12);
    assert_eq!(v[0].spf_domain, "via mx");
    assert_eq!(v[0].org_name, "");
}

#[test]
fn scanner_reports_malformed_offset_and_bad_text() {
    let mut s = RecordScanner::new();
    assert_eq!(s.feed(XmlEvent::Malformed(17)), Err(ParseError::MalformedXml { offset: 17 }));
    let mut s = RecordScanner::new();
    assert_eq!(s.feed(XmlEvent::Open("source_ip".to_string())), Ok(()));
    assert_eq!(
        s.feed(XmlEvent::Text("10.0.0".to_string())),
        Err(ParseError::FieldCoercion { field: Field::SourceIp, text: "10.0.0".to_string() })
    );
}

#[test]
fn malformed_offset_points_into_document() {
    let xml = "<feedback><record></feedback>";
    match perse_dmarc_xml(xml) {
        Err(ParseError::MalformedXml { offset }) => assert!(offset as usize <= xml.len()),
        other => panic!("unexpected {:?}", other),
    }
}

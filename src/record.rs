use vstd::prelude::*;

verus! {

/// An IP address as its numeric value: an IPv4 address as the 32-bit number
/// of its four octets, an IPv6 address as the 128-bit number of its eight
/// groups, most significant first.
#[derive(Clone, Copy, Debug, PartialEq, Eq, Structural)]
pub enum IpAddress {
    V4(u32),
    V6(u128),
}

/// The address a record holds when its source gave none: `0.0.0.0`.
pub open spec fn unspecified_ip() -> IpAddress {
    IpAddress::V4(0)
}

impl IpAddress {
    /// The unspecified IPv4 address `0.0.0.0`.
    pub fn unspecified() -> (r: IpAddress)
        ensures
            r == unspecified_ip(),
    {
        IpAddress::V4(0)
    }
}

/// The typed fields whose text can fail to convert.
#[derive(Clone, Copy, Debug, PartialEq, Eq, Structural)]
pub enum Field {
    DateRangeBegin,
    DateRangeEnd,
    SourceIp,
    MessageCount,
}

/// The name of a field as a record states it.
pub open spec fn field_name(f: Field) -> Seq<char> {
    match f {
        Field::DateRangeBegin => "date_range_begin"@,
        Field::DateRangeEnd => "date_range_end"@,
        Field::SourceIp => "source_ip"@,
        Field::MessageCount => "message_count"@,
    }
}

impl Field {
    /// The field's name as a record states it.
    pub fn as_str(&self) -> (r: &'static str)
        ensures
            r@ == field_name(*self),
    {
        match self {
            Field::DateRangeBegin => "date_range_begin",
            Field::DateRangeEnd => "date_range_end",
            Field::SourceIp => "source_ip",
            Field::MessageCount => "message_count",
        }
    }
}

/// One `<record>` of an aggregate report: what was sent, from where, and how
/// DKIM and SPF judged it.
#[derive(Clone, Debug, PartialEq, Eq)]
pub struct DmarcMessage {
    pub org_name: String,
    pub date_range_begin: u32,
    pub date_range_end: u32,
    pub header_from: String,
    pub source_ip: IpAddress,
    pub message_count: u32,
    pub dkim_aligned: bool,
    pub dkim_domain: String,
    pub spf_aligned: bool,
    pub spf_domain: String,
}

/// The mathematical value of a record.
pub struct MessageView {
    pub org_name: Seq<char>,
    pub date_range_begin: u32,
    pub date_range_end: u32,
    pub header_from: Seq<char>,
    pub source_ip: IpAddress,
    pub message_count: u32,
    pub dkim_aligned: bool,
    pub dkim_domain: Seq<char>,
    pub spf_aligned: bool,
    pub spf_domain: Seq<char>,
}

impl View for DmarcMessage {
    type V = MessageView;

    open spec fn view(&self) -> MessageView {
        MessageView {
            org_name: self.org_name@,
            date_range_begin: self.date_range_begin,
            date_range_end: self.date_range_end,
            header_from: self.header_from@,
            source_ip: self.source_ip,
            message_count: self.message_count,
            dkim_aligned: self.dkim_aligned,
            dkim_domain: self.dkim_domain@,
            spf_aligned: self.spf_aligned,
            spf_domain: self.spf_domain@,
        }
    }
}

/// A record with every field at its default: empty text, zero, false, and
/// the unspecified address.
pub open spec fn default_message() -> MessageView {
    MessageView {
        org_name: Seq::empty(),
        date_range_begin: 0,
        date_range_end: 0,
        header_from: Seq::empty(),
        source_ip: unspecified_ip(),
        message_count: 0,
        dkim_aligned: false,
        dkim_domain: Seq::empty(),
        spf_aligned: false,
        spf_domain: Seq::empty(),
    }
}

/// The values of a sequence of records.
pub open spec fn messages_view(v: Seq<DmarcMessage>) -> Seq<MessageView> {
    v.map_values(|m: DmarcMessage| m@)
}

impl DmarcMessage {
    /// A fresh record with every field at its default.
    pub fn new() -> (r: DmarcMessage)
        ensures
            r@ == default_message(),
    {
        DmarcMessage {
            org_name: String::new(),
            date_range_begin: 0,
            date_range_end: 0,
            header_from: String::new(),
            source_ip: IpAddress::unspecified(),
            message_count: 0,
            dkim_aligned: false,
            dkim_domain: String::new(),
            spf_aligned: false,
            spf_domain: String::new(),
        }
    }
}

/// Why a report could not be read.
#[derive(Clone, Debug, PartialEq, Eq)]
pub enum ParseError {
    /// The text is not well-formed XML; `offset` is the byte where the scan
    /// failed.
    MalformedXml { offset: u64 },
    /// The text of a typed field does not convert to the field's type.
    FieldCoercion { field: Field, text: String },
}

pub enum ParseErrorView {
    MalformedXml { offset: u64 },
    FieldCoercion { field: Field, text: Seq<char> },
}

impl View for ParseError {
    type V = ParseErrorView;

    open spec fn view(&self) -> ParseErrorView {
        match self {
            ParseError::MalformedXml { offset } => ParseErrorView::MalformedXml { offset: *offset },
            ParseError::FieldCoercion { field, text } => ParseErrorView::FieldCoercion {
                field: *field,
                text: text@,
            },
        }
    }
}

} // verus!

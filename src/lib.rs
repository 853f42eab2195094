//! Extraction of authentication records from DMARC aggregate report XML.
//!
//! The lexical scan is done by `quick_xml`; everything that decides what a
//! record holds (tag routing, coercion of text to typed fields, record
//! boundaries, error reporting) is verified here.

pub mod ip;
pub mod laws;
pub mod parser;
pub mod record;
pub mod text;
pub mod xml;

pub use ip::parse_ip;
pub use parser::{perse_dmarc_xml, RecordScanner};
pub use record::{DmarcMessage, Field, IpAddress, ParseError};
pub use text::parse_u32;
pub use xml::XmlEvent;

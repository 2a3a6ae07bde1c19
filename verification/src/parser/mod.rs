//! The DNS wire codec.

pub mod common;
pub mod header;
pub mod packet;
pub mod question;
pub mod record;
pub mod roundtrip;

pub use common::{DNSError, DomainNameLabel, LabelPtrMap, Parse, ParseResult};
pub use header::{DNSHeader, DNSHeaderType, ResultCode};
pub use question::{DNSQuestion, DNSQuestionParser, DNSQuestionSerializer, DNSQuestionsParser};
pub use record::{
    DNSAAAARecord, DNSARecord, DNSCNameRecord, DNSMXRecord, DNSNSRecord, DNSRecord, DNSRecordData,
    DNSRecordPack, DNSRecordSerializer, DNSRecordsParser, DNSSOARecord, DNSTXTRecord,
    DNSUnknownRecord,
};
pub use packet::{DNSPacket, DNSPacketParser};

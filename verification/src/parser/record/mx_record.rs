//! Mail exchange records: a preference and the name of a mail server.

use crate::parser::common::{
    advance, lemma_encode_name_far, push_all, push_u16, read_u16, spec_encode_name, spec_u16_at,
    spec_u16_bytes, DNSError, DomainNameLabel, LabelPtrMap,
};
use crate::parser::record::{parse_name_within, spec_parse_name_within, DNSRecordPack};
use crate::parser::record::TYPE_MX;
use vstd::prelude::*;
use vstd::utf8::*;

verus! {

/// The data of an MX record.
#[derive(Debug, PartialEq, Eq, Clone)]
pub struct DNSMXRecord {
    /// The preference of this server among those of the domain; lower first.
    pub preference: u16,
    /// The name of the mail server, dotted.
    pub exchange: String,
}

/// The data of an MX record as a mathematical value.
pub struct MXView {
    pub preference: u16,
    pub exchange: Seq<char>,
}

impl View for DNSMXRecord {
    type V = MXView;

    open spec fn view(&self) -> MXView {
        MXView { preference: self.preference, exchange: self.exchange@ }
    }
}

/// The preference and the name in the `len` bytes of record data at `start`.
pub open spec fn spec_parse_mx(data: Seq<u8>, start: int, len: int) -> Result<MXView, DNSError> {
    if start + len > data.len() || len < 2 {
        Err(DNSError::ShortBuffer)
    } else {
        match spec_parse_name_within(data, start + 2, len - 2) {
            Ok((name, _)) => Ok(
                MXView { preference: spec_u16_at(data, start), exchange: name },
            ),
            Err(e) => Err(e),
        }
    }
}

/// The preference and, behind it, the name, written at `pos`.
pub open spec fn spec_serialize_mx(v: MXView, map: Map<Seq<char>, usize>, pos: int) -> (
    Result<Seq<u8>, DNSError>,
    Map<Seq<char>, usize>,
) {
    match spec_encode_name(encode_utf8(v.exchange), map, pos + 2) {
        Ok((bytes, after)) => (Ok(spec_u16_bytes(v.preference) + bytes), after),
        Err(e) => (Err(e), map),
    }
}

impl DNSRecordPack for DNSMXRecord {
    const RTYPE: u16 = TYPE_MX;

    open spec fn spec_parse(data: Seq<u8>, start: int, len: int) -> Result<MXView, DNSError> {
        spec_parse_mx(data, start, len)
    }

    open spec fn spec_serialize(v: MXView, map: Map<Seq<char>, usize>, pos: int) -> (
        Result<Seq<u8>, DNSError>,
        Map<Seq<char>, usize>,
    ) {
        spec_serialize_mx(v, map, pos)
    }

    fn parse(data: &[u8], startptr: usize, len: usize) -> (r: Result<Self, DNSError>) {
        if len > data.len() || startptr > data.len() - len || len < 2 {
            return Err(DNSError::ShortBuffer);
        }
        let preference = read_u16(data, startptr);
        let (exchange, _) = parse_name_within(data, startptr + 2, len - 2)?;
        Ok(Self { preference, exchange })
    }

    fn serialize(&self, label_ptr_map: &mut LabelPtrMap, ptr: usize) -> (r: Result<
        Vec<u8>,
        DNSError,
    >) {
        let mut data: Vec<u8> = Vec::new();
        push_u16(&mut data, self.preference);
        let at = advance(ptr, 2);
        proof {
            if at != ptr + 2 {
                lemma_encode_name_far(
                    encode_utf8(self.exchange@),
                    label_ptr_map@,
                    at as int,
                    ptr + 2,
                );
            }
        }
        let exchange = DomainNameLabel::serialize(self.exchange.as_str(), label_ptr_map, at)?;
        push_all(&mut data, exchange.as_slice());
        Ok(data)
    }
}

} // verus!

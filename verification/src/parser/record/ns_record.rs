//! Name server records: the name of an authoritative server.

use crate::parser::common::{spec_encode_name, DNSError, DomainNameLabel, LabelPtrMap};
use crate::parser::record::{parse_name_within, spec_parse_name_within, DNSRecordPack};
use crate::parser::record::TYPE_NS;
use vstd::prelude::*;
use vstd::utf8::*;

verus! {

/// The data of an NS record.
#[derive(Debug, PartialEq, Eq, Clone)]
pub struct DNSNSRecord {
    /// The name of the server, dotted.
    pub nsdname: String,
}

impl View for DNSNSRecord {
    type V = Seq<char>;

    open spec fn view(&self) -> Seq<char> {
        self.nsdname@
    }
}

/// The name that begins the `len` bytes of record data at `start`.
pub open spec fn spec_parse_single_name(data: Seq<u8>, start: int, len: int) -> Result<
    Seq<char>,
    DNSError,
> {
    if start + len > data.len() {
        Err(DNSError::ShortBuffer)
    } else {
        match spec_parse_name_within(data, start, len) {
            Ok((name, _)) => Ok(name),
            Err(e) => Err(e),
        }
    }
}

/// The record data that is one name, written at `pos`.
pub open spec fn spec_serialize_single_name(
    name: Seq<char>,
    map: Map<Seq<char>, usize>,
    pos: int,
) -> (Result<Seq<u8>, DNSError>, Map<Seq<char>, usize>) {
    match spec_encode_name(encode_utf8(name), map, pos) {
        Ok((bytes, after)) => (Ok(bytes), after),
        Err(e) => (Err(e), map),
    }
}

impl DNSRecordPack for DNSNSRecord {
    const RTYPE: u16 = TYPE_NS;

    open spec fn spec_parse(data: Seq<u8>, start: int, len: int) -> Result<Seq<char>, DNSError> {
        spec_parse_single_name(data, start, len)
    }

    open spec fn spec_serialize(name: Seq<char>, map: Map<Seq<char>, usize>, pos: int) -> (
        Result<Seq<u8>, DNSError>,
        Map<Seq<char>, usize>,
    ) {
        spec_serialize_single_name(name, map, pos)
    }

    fn parse(data: &[u8], startptr: usize, len: usize) -> (r: Result<Self, DNSError>) {
        if len > data.len() || startptr > data.len() - len {
            return Err(DNSError::ShortBuffer);
        }
        let (name, _) = parse_name_within(data, startptr, len)?;
        Ok(Self { nsdname: name })
    }

    fn serialize(&self, label_ptr_map: &mut LabelPtrMap, ptr: usize) -> (r: Result<
        Vec<u8>,
        DNSError,
    >) {
        DomainNameLabel::serialize(self.nsdname.as_str(), label_ptr_map, ptr)
    }
}

} // verus!

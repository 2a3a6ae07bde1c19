//! Address records: an IPv4 address.

use crate::parser::common::{push_all, DNSError, LabelPtrMap};
use crate::parser::record::DNSRecordPack;
use crate::parser::record::TYPE_A;
use vstd::prelude::*;

verus! {

/// The data of an A record.
#[derive(Debug, PartialEq, Eq, Clone)]
pub struct DNSARecord {
    /// The four bytes of the address.
    pub ip: [u8; 4],
}

impl View for DNSARecord {
    type V = Seq<u8>;

    open spec fn view(&self) -> Seq<u8> {
        self.ip@
    }
}

/// The address in the `len` bytes of record data at `start`, which must be
/// four.
pub open spec fn spec_parse_a(data: Seq<u8>, start: int, len: int) -> Result<Seq<u8>, DNSError> {
    if start + len > data.len() {
        Err(DNSError::ShortBuffer)
    } else if len != 4 {
        Err(DNSError::InvalidRdataLength)
    } else {
        Ok(data.subrange(start, start + 4))
    }
}

impl DNSRecordPack for DNSARecord {
    const RTYPE: u16 = TYPE_A;

    open spec fn spec_parse(data: Seq<u8>, start: int, len: int) -> Result<Seq<u8>, DNSError> {
        spec_parse_a(data, start, len)
    }

    open spec fn spec_serialize(ip: Seq<u8>, map: Map<Seq<char>, usize>, pos: int) -> (
        Result<Seq<u8>, DNSError>,
        Map<Seq<char>, usize>,
    ) {
        (Ok(ip), map)
    }

    fn parse(data: &[u8], startptr: usize, len: usize) -> (r: Result<Self, DNSError>) {
        if len > data.len() || startptr > data.len() - len {
            return Err(DNSError::ShortBuffer);
        }
        if len != 4 {
            return Err(DNSError::InvalidRdataLength);
        }
        let ip = [data[startptr], data[startptr + 1], data[startptr + 2], data[startptr + 3]];
        assert(ip@ =~= data@.subrange(startptr as int, startptr + 4));
        Ok(Self { ip })
    }

    fn serialize(&self, label_ptr_map: &mut LabelPtrMap, ptr: usize) -> (r: Result<
        Vec<u8>,
        DNSError,
    >) {
        let mut data: Vec<u8> = Vec::new();
        push_all(&mut data, self.ip.as_slice());
        assert(data@ =~= self.ip@);
        Ok(data)
    }
}

} // verus!

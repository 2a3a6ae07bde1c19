//! Records of a type that has no decoding of its own.

use crate::parser::common::{push_all, push_range, DNSError, LabelPtrMap};
use crate::parser::record::DNSRecordPack;
use vstd::prelude::*;

verus! {

/// The data of a record of any other type, kept as it came.
#[derive(Debug, PartialEq, Eq, Clone)]
pub struct DNSUnknownRecord {
    /// The bytes of the record data.
    pub data: Vec<u8>,
}

impl View for DNSUnknownRecord {
    type V = Seq<u8>;

    open spec fn view(&self) -> Seq<u8> {
        self.data@
    }
}

/// The `len` bytes of record data at `start`.
pub open spec fn spec_parse_unknown(data: Seq<u8>, start: int, len: int) -> Result<
    Seq<u8>,
    DNSError,
> {
    if start + len > data.len() {
        Err(DNSError::ShortBuffer)
    } else {
        Ok(data.subrange(start, start + len))
    }
}

impl DNSRecordPack for DNSUnknownRecord {
    const RTYPE: u16 = 0;

    open spec fn spec_parse(data: Seq<u8>, start: int, len: int) -> Result<Seq<u8>, DNSError> {
        spec_parse_unknown(data, start, len)
    }

    open spec fn spec_serialize(bytes: Seq<u8>, map: Map<Seq<char>, usize>, pos: int) -> (
        Result<Seq<u8>, DNSError>,
        Map<Seq<char>, usize>,
    ) {
        (Ok(bytes), map)
    }

    fn parse(data: &[u8], startptr: usize, len: usize) -> (r: Result<Self, DNSError>) {
        if len > data.len() || startptr > data.len() - len {
            return Err(DNSError::ShortBuffer);
        }
        let mut bytes: Vec<u8> = Vec::new();
        push_range(&mut bytes, data, startptr, startptr + len);
        Ok(Self { data: bytes })
    }

    fn serialize(&self, label_ptr_map: &mut LabelPtrMap, ptr: usize) -> (r: Result<
        Vec<u8>,
        DNSError,
    >) {
        let mut data: Vec<u8> = Vec::new();
        push_all(&mut data, self.data.as_slice());
        Ok(data)
    }
}

} // verus!

//! Address records: an IPv6 address.

use crate::parser::common::{push_all, DNSError, LabelPtrMap};
use crate::parser::record::DNSRecordPack;
use crate::parser::record::TYPE_AAAA;
use vstd::prelude::*;

verus! {

/// The data of an AAAA record.
#[derive(Debug, PartialEq, Eq, Clone)]
pub struct DNSAAAARecord {
    /// The sixteen bytes of the address.
    pub ip: [u8; 16],
}

impl View for DNSAAAARecord {
    type V = Seq<u8>;

    open spec fn view(&self) -> Seq<u8> {
        self.ip@
    }
}

/// The address in the `len` bytes of record data at `start`, which must be
/// sixteen.
pub open spec fn spec_parse_aaaa(data: Seq<u8>, start: int, len: int) -> Result<
    Seq<u8>,
    DNSError,
> {
    if start + len > data.len() {
        Err(DNSError::ShortBuffer)
    } else if len != 16 {
        Err(DNSError::InvalidRdataLength)
    } else {
        Ok(data.subrange(start, start + 16))
    }
}

impl DNSRecordPack for DNSAAAARecord {
    const RTYPE: u16 = TYPE_AAAA;

    open spec fn spec_parse(data: Seq<u8>, start: int, len: int) -> Result<Seq<u8>, DNSError> {
        spec_parse_aaaa(data, start, len)
    }

    open spec fn spec_serialize(ip: Seq<u8>, map: Map<Seq<char>, usize>, pos: int) -> (
        Result<Seq<u8>, DNSError>,
        Map<Seq<char>, usize>,
    ) {
        (Ok(ip), map)
    }

    fn parse(data: &[u8], startptr: usize, len: usize) -> (r: Result<Self, DNSError>) {
        if len > data.len() || startptr > data.len() - len {
            return Err(DNSError::ShortBuffer);
        }
        if len != 16 {
            return Err(DNSError::InvalidRdataLength);
        }
        let mut ip = [0u8; 16];
        let mut i: usize = 0;
        while i < 16
            invariant
                i <= 16,
                startptr + 16 <= data@.len(),
                forall|j: int| 0 <= j < i ==> ip@[j] == data@[startptr + j],
            decreases 16 - i,
        {
            ip[i] = data[startptr + i];
            i += 1;
        }
        assert(ip@ =~= data@.subrange(startptr as int, startptr + 16));
        Ok(Self { ip })
    }

    fn serialize(&self, label_ptr_map: &mut LabelPtrMap, ptr: usize) -> (r: Result<
        Vec<u8>,
        DNSError,
    >) {
        let mut data: Vec<u8> = Vec::new();
        push_all(&mut data, self.ip.as_slice());
        assert(data@ =~= self.ip@);
        Ok(data)
    }
}

} // verus!

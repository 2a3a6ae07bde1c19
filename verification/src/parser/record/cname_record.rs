//! Canonical name records: the name that an alias stands for.

use crate::parser::common::{DNSError, DomainNameLabel, LabelPtrMap};
use crate::parser::record::ns_record::{spec_parse_single_name, spec_serialize_single_name};
use crate::parser::record::{parse_name_within, DNSRecordPack};
use crate::parser::record::TYPE_CNAME;
use vstd::prelude::*;

verus! {

/// The data of a CNAME record.
#[derive(Debug, PartialEq, Eq, Clone)]
pub struct DNSCNameRecord {
    /// The canonical name, dotted.
    pub cname: String,
}

impl View for DNSCNameRecord {
    type V = Seq<char>;

    open spec fn view(&self) -> Seq<char> {
        self.cname@
    }
}

impl DNSRecordPack for DNSCNameRecord {
    const RTYPE: u16 = TYPE_CNAME;

    open spec fn spec_parse(data: Seq<u8>, start: int, len: int) -> Result<Seq<char>, DNSError> {
        spec_parse_single_name(data, start, len)
    }

    open spec fn spec_serialize(name: Seq<char>, map: Map<Seq<char>, usize>, pos: int) -> (
        Result<Seq<u8>, DNSError>,
        Map<Seq<char>, usize>,
    ) {
        spec_serialize_single_name(name, map, pos)
    }

    fn parse(data: &[u8], startptr: usize, len: usize) -> (r: Result<Self, DNSError>) {
        if len > data.len() || startptr > data.len() - len {
            return Err(DNSError::ShortBuffer);
        }
        let (cname, _) = parse_name_within(data, startptr, len)?;
        Ok(Self { cname })
    }

    fn serialize(&self, label_ptr_map: &mut LabelPtrMap, ptr: usize) -> (r: Result<
        Vec<u8>,
        DNSError,
    >) {
        DomainNameLabel::serialize(self.cname.as_str(), label_ptr_map, ptr)
    }
}

} // verus!

//! Start of authority records: the primary server of a zone, the mailbox of
//! who is responsible for it, and five numbers.

use crate::parser::common::{
    advance, lemma_encode_name_far, push_all, push_u32, read_u32, spec_encode_name, spec_u32_at,
    spec_u32_bytes, DNSError, DomainNameLabel, LabelPtrMap,
};
use crate::parser::record::{parse_name_within, spec_parse_name_within, DNSRecordPack};
use crate::parser::record::TYPE_SOA;
use vstd::prelude::*;
use vstd::utf8::*;

verus! {

/// The data of an SOA record.
#[derive(Debug, PartialEq, Eq, Clone)]
pub struct DNSSOARecord {
    /// The name of the primary server of the zone, dotted.
    pub mname: String,
    /// The mailbox of the person responsible, as a dotted name.
    pub rname: String,
    /// The version of the zone.
    pub serial: u32,
    /// The seconds before the zone should be refreshed.
    pub refresh: u32,
    /// The seconds before a failed refresh should be tried again.
    pub retry: u32,
    /// The seconds after which the zone is no longer authoritative.
    pub expire: u32,
    /// The least time to live of the records of the zone.
    pub minimum: u32,
}

/// The data of an SOA record as a mathematical value.
pub struct SOAView {
    pub mname: Seq<char>,
    pub rname: Seq<char>,
    pub serial: u32,
    pub refresh: u32,
    pub retry: u32,
    pub expire: u32,
    pub minimum: u32,
}

impl View for DNSSOARecord {
    type V = SOAView;

    open spec fn view(&self) -> SOAView {
        SOAView {
            mname: self.mname@,
            rname: self.rname@,
            serial: self.serial,
            refresh: self.refresh,
            retry: self.retry,
            expire: self.expire,
            minimum: self.minimum,
        }
    }
}

/// The bytes that the five numbers take.
pub const SOA_NUMBERS_LEN: usize = 20;

/// The two names and, behind them, the five numbers in the `len` bytes of
/// record data at `start`.
pub open spec fn spec_parse_soa(data: Seq<u8>, start: int, len: int) -> Result<
    SOAView,
    DNSError,
> {
    if start + len > data.len() {
        Err(DNSError::ShortBuffer)
    } else {
        match spec_parse_name_within(data, start, len) {
            Err(e) => Err(e),
            Ok((mname, first)) => match spec_parse_name_within(
                data,
                start + first,
                len - first,
            ) {
                Err(e) => Err(e),
                Ok((rname, second)) => if first + second + SOA_NUMBERS_LEN > len {
                    Err(DNSError::ShortBuffer)
                } else {
                    let at = start + first + second;
                    Ok(
                        SOAView {
                            mname,
                            rname,
                            serial: spec_u32_at(data, at),
                            refresh: spec_u32_at(data, at + 4),
                            retry: spec_u32_at(data, at + 8),
                            expire: spec_u32_at(data, at + 12),
                            minimum: spec_u32_at(data, at + 16),
                        },
                    )
                },
            },
        }
    }
}

/// The twenty bytes of the five numbers.
pub open spec fn spec_soa_numbers(v: SOAView) -> Seq<u8> {
    spec_u32_bytes(v.serial) + spec_u32_bytes(v.refresh) + spec_u32_bytes(v.retry)
        + spec_u32_bytes(v.expire) + spec_u32_bytes(v.minimum)
}

/// The two names, one behind the other, and the five numbers, written at
/// `pos`. Where the second name has a fault, the first is in the map.
pub open spec fn spec_serialize_soa(v: SOAView, map: Map<Seq<char>, usize>, pos: int) -> (
    Result<Seq<u8>, DNSError>,
    Map<Seq<char>, usize>,
) {
    match spec_encode_name(encode_utf8(v.mname), map, pos) {
        Err(e) => (Err(e), map),
        Ok((first, mid)) => match spec_encode_name(
            encode_utf8(v.rname),
            mid,
            pos + first.len(),
        ) {
            Err(e) => (Err(e), mid),
            Ok((second, after)) => (Ok(first + second + spec_soa_numbers(v)), after),
        },
    }
}

impl DNSRecordPack for DNSSOARecord {
    const RTYPE: u16 = TYPE_SOA;

    open spec fn spec_parse(data: Seq<u8>, start: int, len: int) -> Result<SOAView, DNSError> {
        spec_parse_soa(data, start, len)
    }

    open spec fn spec_serialize(v: SOAView, map: Map<Seq<char>, usize>, pos: int) -> (
        Result<Seq<u8>, DNSError>,
        Map<Seq<char>, usize>,
    ) {
        spec_serialize_soa(v, map, pos)
    }

    fn parse(data: &[u8], startptr: usize, len: usize) -> (r: Result<Self, DNSError>) {
        if len > data.len() || startptr > data.len() - len {
            return Err(DNSError::ShortBuffer);
        }
        let (mname, first) = parse_name_within(data, startptr, len)?;
        let (rname, second) = parse_name_within(data, startptr + first, len - first)?;
        if SOA_NUMBERS_LEN > len - first - second {
            return Err(DNSError::ShortBuffer);
        }
        let at = startptr + first + second;
        Ok(
            Self {
                mname,
                rname,
                serial: read_u32(data, at),
                refresh: read_u32(data, at + 4),
                retry: read_u32(data, at + 8),
                expire: read_u32(data, at + 12),
                minimum: read_u32(data, at + 16),
            },
        )
    }

    fn serialize(&self, label_ptr_map: &mut LabelPtrMap, ptr: usize) -> (r: Result<
        Vec<u8>,
        DNSError,
    >) {
        let mut data = DomainNameLabel::serialize(self.mname.as_str(), label_ptr_map, ptr)?;
        let at = advance(ptr, data.len());
        proof {
            if at != ptr + data@.len() {
                lemma_encode_name_far(
                    encode_utf8(self.rname@),
                    label_ptr_map@,
                    at as int,
                    ptr + data@.len(),
                );
            }
        }
        let rname = DomainNameLabel::serialize(self.rname.as_str(), label_ptr_map, at)?;
        push_all(&mut data, rname.as_slice());
        let ghost names = data@;
        push_u32(&mut data, self.serial);
        push_u32(&mut data, self.refresh);
        push_u32(&mut data, self.retry);
        push_u32(&mut data, self.expire);
        push_u32(&mut data, self.minimum);
        assert(data@ =~= names + spec_soa_numbers(self@));
        Ok(data)
    }
}

} // verus!

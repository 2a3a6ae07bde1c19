//! Resource records: the part common to all, and the data of each type.

pub mod a_record;
pub mod aaaa_record;
pub mod cname_record;
pub mod mx_record;
pub mod ns_record;
pub mod soa_record;
pub mod txt_record;
pub mod unknown_record;

pub use a_record::DNSARecord;
pub use aaaa_record::DNSAAAARecord;
pub use cname_record::DNSCNameRecord;
pub use mx_record::DNSMXRecord;
pub use ns_record::DNSNSRecord;
pub use soa_record::DNSSOARecord;
pub use txt_record::DNSTXTRecord;
pub use unknown_record::DNSUnknownRecord;

use crate::parser::common::{
    advance, lemma_encode_name_far, push_all, push_u16, push_u32, read_u16, read_u32,
    spec_encode_name, spec_parse_name, spec_u16_at, spec_u16_bytes, spec_u32_at, spec_u32_bytes,
    DNSError, DomainNameLabel, LabelPtrMap, ParseResult, POINTER_LIMIT,
};
use crate::parser::record::a_record::spec_parse_a;
use crate::parser::record::aaaa_record::spec_parse_aaaa;
use crate::parser::record::mx_record::{spec_parse_mx, spec_serialize_mx, MXView};
use crate::parser::record::ns_record::{spec_parse_single_name, spec_serialize_single_name};
use crate::parser::record::soa_record::{spec_parse_soa, spec_serialize_soa, SOAView};
use crate::parser::record::txt_record::{spec_encode_segments, spec_parse_txt};
use crate::parser::record::unknown_record::spec_parse_unknown;
use vstd::prelude::*;
use vstd::utf8::*;

verus! {

/// The type of address records for IPv4.
pub const TYPE_A: u16 = 1;

/// The type of name server records.
pub const TYPE_NS: u16 = 2;

/// The type of canonical name records.
pub const TYPE_CNAME: u16 = 5;

/// The type of start of authority records.
pub const TYPE_SOA: u16 = 6;

/// The type of mail exchange records.
pub const TYPE_MX: u16 = 15;

/// The type of text records.
pub const TYPE_TXT: u16 = 16;

/// The type of address records for IPv6.
pub const TYPE_AAAA: u16 = 28;

/// The data of one record type: how it is read from the bytes of a record
/// and how it is written.
pub trait DNSRecordPack: Sized + View {
    /// The number of the record type.
    const RTYPE: u16;

    /// The value in the `len` bytes of record data at `start` of the packet
    /// `data`, or why there is none.
    spec fn spec_parse(data: Seq<u8>, start: int, len: int) -> Result<Self::V, DNSError>;

    /// The bytes of the value written at `pos`, or why it cannot be written,
    /// and the map after it.
    spec fn spec_serialize(v: Self::V, map: Map<Seq<char>, usize>, pos: int) -> (
        Result<Seq<u8>, DNSError>,
        Map<Seq<char>, usize>,
    );

    /// Reads the value from the `len` bytes of record data at `startptr`.
    fn parse(data: &[u8], startptr: usize, len: usize) -> (r: Result<Self, DNSError>)
        ensures
            match Self::spec_parse(data@, startptr as int, len as int) {
                Ok(v) => r is Ok && r->Ok_0@ == v,
                Err(e) => r == Err::<Self, DNSError>(e),
            },
    ;

    /// Writes the value for the offset `ptr` of the packet under
    /// construction, compressing its names against `label_ptr_map`.
    fn serialize(&self, label_ptr_map: &mut LabelPtrMap, ptr: usize) -> (r: Result<
        Vec<u8>,
        DNSError,
    >)
        ensures
            ({
                let (bytes, map) = Self::spec_serialize(
                    self@,
                    old(label_ptr_map)@,
                    ptr as int,
                );
                &&& final(label_ptr_map)@ == map
                &&& match bytes {
                    Ok(bytes) => r is Ok && r->Ok_0@ == bytes,
                    Err(e) => r == Err::<Vec<u8>, DNSError>(e),
                }
            }),
    ;
}

/// The name at `pos`, which has to end within the `len` bytes from `pos`
/// on; where a pointer of it leads does not matter.
pub open spec fn spec_parse_name_within(data: Seq<u8>, pos: int, len: int) -> Result<
    (Seq<char>, int),
    DNSError,
> {
    match spec_parse_name(data, pos) {
        Err(e) => Err(e),
        Ok((text, taken)) => if taken > len {
            Err(DNSError::ShortBuffer)
        } else {
            Ok((text, taken))
        },
    }
}

/// Reads the name at `pos`, which has to end within `len` bytes.
pub fn parse_name_within(data: &[u8], pos: usize, len: usize) -> (r: ParseResult<String>)
    ensures
        match spec_parse_name_within(data@, pos as int, len as int) {
            Ok((name, taken)) => r is Ok && r->Ok_0.0@ == name && r->Ok_0.1 == taken,
            Err(e) => r == Err::<(String, usize), DNSError>(e),
        },
{
    let (name, taken) = DomainNameLabel::parse(data, pos)?;
    if taken > len {
        return Err(DNSError::ShortBuffer);
    }
    Ok((name, taken))
}

/// The data of a record, by its type.
#[derive(Debug, PartialEq, Eq, Clone)]
pub enum DNSRecordData {
    A(DNSARecord),
    NS(DNSNSRecord),
    CNAME(DNSCNameRecord),
    SOA(DNSSOARecord),
    MX(DNSMXRecord),
    TXT(DNSTXTRecord),
    AAAA(DNSAAAARecord),
    Unknown(DNSUnknownRecord),
}

/// The data of a record as a mathematical value.
pub enum RecordDataView {
    A(Seq<u8>),
    NS(Seq<char>),
    CNAME(Seq<char>),
    SOA(SOAView),
    MX(MXView),
    TXT(Seq<Seq<u8>>),
    AAAA(Seq<u8>),
    Unknown(Seq<u8>),
}

impl View for DNSRecordData {
    type V = RecordDataView;

    open spec fn view(&self) -> RecordDataView {
        match self {
            DNSRecordData::A(r) => RecordDataView::A(r@),
            DNSRecordData::NS(r) => RecordDataView::NS(r@),
            DNSRecordData::CNAME(r) => RecordDataView::CNAME(r@),
            DNSRecordData::SOA(r) => RecordDataView::SOA(r@),
            DNSRecordData::MX(r) => RecordDataView::MX(r@),
            DNSRecordData::TXT(r) => RecordDataView::TXT(r@),
            DNSRecordData::AAAA(r) => RecordDataView::AAAA(r@),
            DNSRecordData::Unknown(r) => RecordDataView::Unknown(r@),
        }
    }
}

/// The record type that goes with the data: the number of the variant, and
/// for data of an unknown type any number that is not one of those.
pub open spec fn spec_rtype_matches(rtype: u16, record: RecordDataView) -> bool {
    match record {
        RecordDataView::A(_) => rtype == TYPE_A,
        RecordDataView::NS(_) => rtype == TYPE_NS,
        RecordDataView::CNAME(_) => rtype == TYPE_CNAME,
        RecordDataView::SOA(_) => rtype == TYPE_SOA,
        RecordDataView::MX(_) => rtype == TYPE_MX,
        RecordDataView::TXT(_) => rtype == TYPE_TXT,
        RecordDataView::AAAA(_) => rtype == TYPE_AAAA,
        RecordDataView::Unknown(_) => rtype != TYPE_A && rtype != TYPE_NS
            && rtype != TYPE_CNAME && rtype != TYPE_SOA && rtype
            != TYPE_MX && rtype != TYPE_TXT && rtype
            != TYPE_AAAA,
    }
}

/// The data of a record of type `rtype` in the `len` bytes at `start`. A
/// type without a decoding of its own keeps the bytes.
#[verifier::opaque]
pub open spec fn spec_parse_record_data(data: Seq<u8>, rtype: u16, start: int, len: int) -> Result<
    RecordDataView,
    DNSError,
> {
    if rtype == TYPE_A {
        match spec_parse_a(data, start, len) {
            Ok(v) => Ok(RecordDataView::A(v)),
            Err(e) => Err(e),
        }
    } else if rtype == TYPE_NS {
        match spec_parse_single_name(data, start, len) {
            Ok(v) => Ok(RecordDataView::NS(v)),
            Err(e) => Err(e),
        }
    } else if rtype == TYPE_CNAME {
        match spec_parse_single_name(data, start, len) {
            Ok(v) => Ok(RecordDataView::CNAME(v)),
            Err(e) => Err(e),
        }
    } else if rtype == TYPE_SOA {
        match spec_parse_soa(data, start, len) {
            Ok(v) => Ok(RecordDataView::SOA(v)),
            Err(e) => Err(e),
        }
    } else if rtype == TYPE_MX {
        match spec_parse_mx(data, start, len) {
            Ok(v) => Ok(RecordDataView::MX(v)),
            Err(e) => Err(e),
        }
    } else if rtype == TYPE_TXT {
        match spec_parse_txt(data, start, len) {
            Ok(v) => Ok(RecordDataView::TXT(v)),
            Err(e) => Err(e),
        }
    } else if rtype == TYPE_AAAA {
        match spec_parse_aaaa(data, start, len) {
            Ok(v) => Ok(RecordDataView::AAAA(v)),
            Err(e) => Err(e),
        }
    } else {
        match spec_parse_unknown(data, start, len) {
            Ok(v) => Ok(RecordDataView::Unknown(v)),
            Err(e) => Err(e),
        }
    }
}

/// The bytes of record data written at `pos`, or why they cannot be
/// written, and the map after them.
#[verifier::opaque]
pub open spec fn spec_serialize_record_data(
    record: RecordDataView,
    map: Map<Seq<char>, usize>,
    pos: int,
) -> (Result<Seq<u8>, DNSError>, Map<Seq<char>, usize>) {
    match record {
        RecordDataView::A(ip) => (Ok(ip), map),
        RecordDataView::NS(name) => spec_serialize_single_name(name, map, pos),
        RecordDataView::CNAME(name) => spec_serialize_single_name(name, map, pos),
        RecordDataView::SOA(v) => spec_serialize_soa(v, map, pos),
        RecordDataView::MX(v) => spec_serialize_mx(v, map, pos),
        RecordDataView::TXT(segments) => (spec_encode_segments(segments), map),
        RecordDataView::AAAA(ip) => (Ok(ip), map),
        RecordDataView::Unknown(bytes) => (Ok(bytes), map),
    }
}

/// Beyond the reach of a pointer, where record data is written does not
/// matter.
pub proof fn lemma_serialize_record_data_far(
    record: RecordDataView,
    map: Map<Seq<char>, usize>,
    pos: int,
    other: int,
)
    requires
        pos >= POINTER_LIMIT,
        other >= POINTER_LIMIT,
    ensures
        spec_serialize_record_data(record, map, pos) == spec_serialize_record_data(
            record,
            map,
            other,
        ),
{
    reveal(spec_serialize_record_data);
    match record {
        RecordDataView::NS(name) => {
            lemma_encode_name_far(encode_utf8(name), map, pos, other);
        },
        RecordDataView::CNAME(name) => {
            lemma_encode_name_far(encode_utf8(name), map, pos, other);
        },
        RecordDataView::MX(v) => {
            lemma_encode_name_far(encode_utf8(v.exchange), map, pos + 2, other + 2);
        },
        RecordDataView::SOA(v) => {
            lemma_encode_name_far(encode_utf8(v.mname), map, pos, other);
            match spec_encode_name(encode_utf8(v.mname), map, pos) {
                Ok((first, mid)) => {
                    lemma_encode_name_far(
                        encode_utf8(v.rname),
                        mid,
                        pos + first.len(),
                        other + first.len(),
                    );
                },
                Err(_) => {},
            }
        },
        _ => {},
    }
}

impl DNSRecordData {
    /// Writes the data for the offset `ptr` of the packet under
    /// construction, compressing its names against `label_ptr_map`.
    pub fn serialize(&self, label_ptr_map: &mut LabelPtrMap, ptr: usize) -> (r: Result<
        Vec<u8>,
        DNSError,
    >)
        ensures
            ({
                let (bytes, map) = spec_serialize_record_data(
                    self@,
                    old(label_ptr_map)@,
                    ptr as int,
                );
                &&& final(label_ptr_map)@ == map
                &&& match bytes {
                    Ok(bytes) => r is Ok && r->Ok_0@ == bytes,
                    Err(e) => r == Err::<Vec<u8>, DNSError>(e),
                }
            }),
    {
        reveal(spec_serialize_record_data);
        match self {
            DNSRecordData::A(record) => record.serialize(label_ptr_map, ptr),
            DNSRecordData::NS(record) => record.serialize(label_ptr_map, ptr),
            DNSRecordData::CNAME(record) => record.serialize(label_ptr_map, ptr),
            DNSRecordData::SOA(record) => record.serialize(label_ptr_map, ptr),
            DNSRecordData::MX(record) => record.serialize(label_ptr_map, ptr),
            DNSRecordData::TXT(record) => record.serialize(label_ptr_map, ptr),
            DNSRecordData::AAAA(record) => record.serialize(label_ptr_map, ptr),
            DNSRecordData::Unknown(record) => record.serialize(label_ptr_map, ptr),
        }
    }
}

/// A resource record.
#[derive(Debug, PartialEq, Eq, Clone)]
pub struct DNSRecord {
    /// Domain name, dotted, with its closing dot.
    pub name: String,
    /// Record type (16 bits).
    pub rtype: u16,
    /// Class (16 bits).
    pub class: u16,
    /// Time to live, in seconds (32 bits).
    pub ttl: u32,
    /// Length of the record data on the wire (16 bits).
    pub len: u16,
    /// Record data.
    pub record: DNSRecordData,
}

/// A record as a mathematical value.
pub struct RecordView {
    pub name: Seq<char>,
    pub rtype: u16,
    pub class: u16,
    pub ttl: u32,
    pub len: u16,
    pub record: RecordDataView,
}

impl View for DNSRecord {
    type V = RecordView;

    open spec fn view(&self) -> RecordView {
        RecordView {
            name: self.name@,
            rtype: self.rtype,
            class: self.class,
            ttl: self.ttl,
            len: self.len,
            record: self.record@,
        }
    }
}

/// The records of a vector as mathematical values.
pub open spec fn records_view(records: Seq<DNSRecord>) -> Seq<RecordView> {
    Seq::new(records.len(), |i: int| records[i]@)
}

/// The bytes between the name of a record and its data: type, class, time
/// to live and length.
pub const RECORD_FIXED_LEN: usize = 10;

/// The largest length that record data can have.
pub const MAX_RDATA_LEN: usize = 0xFFFF;

/// The record at `pos` and the bytes it takes: a name, ten bytes of type,
/// class, time to live and length, and the data of that length.
#[verifier::opaque]
pub open spec fn spec_parse_record(data: Seq<u8>, pos: int) -> Result<(RecordView, int), DNSError> {
    match spec_parse_name(data, pos) {
        Err(e) => Err(e),
        Ok((text, taken)) => if pos + taken + RECORD_FIXED_LEN > data.len() {
            Err(DNSError::ShortBuffer)
        } else {
            let at = pos + taken;
            let rtype = spec_u16_at(data, at);
            let len = spec_u16_at(data, at + 8);
            match spec_parse_record_data(data, rtype, at + RECORD_FIXED_LEN, len as int) {
                Err(e) => Err(e),
                Ok(record) => Ok(
                    (
                        RecordView {
                            name: text,
                            rtype,
                            class: spec_u16_at(data, at + 2),
                            ttl: spec_u32_at(data, at + 4),
                            len,
                            record,
                        },
                        taken + RECORD_FIXED_LEN + len,
                    ),
                ),
            }
        },
    }
}

/// The `count` records from `pos` on, one behind the other, and the bytes
/// they take together.
pub open spec fn spec_parse_records(data: Seq<u8>, pos: int, count: nat) -> Result<
    (Seq<RecordView>, int),
    DNSError,
>
    decreases count,
{
    if count == 0 {
        Ok((Seq::empty(), 0))
    } else {
        match spec_parse_record(data, pos) {
            Err(e) => Err(e),
            Ok((first, taken)) => match spec_parse_records(
                data,
                pos + taken,
                (count - 1) as nat,
            ) {
                Err(e) => Err(e),
                Ok((rest, more)) => Ok((seq![first] + rest, taken + more)),
            },
        }
    }
}

/// The bytes of a record written at `pos`, or why it cannot be written, and
/// the map after it. The length written is that of the data as written,
/// whatever the record holds as its length.
#[verifier::opaque]
pub open spec fn spec_encode_record(r: RecordView, map: Map<Seq<char>, usize>, pos: int) -> (
    Result<Seq<u8>, DNSError>,
    Map<Seq<char>, usize>,
) {
    match spec_encode_name(encode_utf8(r.name), map, pos) {
        Err(e) => (Err(e), map),
        Ok((name, mid)) => match spec_serialize_record_data(
            r.record,
            mid,
            pos + name.len() + RECORD_FIXED_LEN,
        ) {
            (Err(e), after) => (Err(e), after),
            (Ok(rdata), after) => if rdata.len() > MAX_RDATA_LEN {
                (Err(DNSError::InvalidRdataLength), after)
            } else {
                (
                    Ok(
                        name + spec_u16_bytes(r.rtype) + spec_u16_bytes(r.class) + spec_u32_bytes(
                            r.ttl,
                        ) + spec_u16_bytes(rdata.len() as u16) + rdata,
                    ),
                    after,
                )
            },
        },
    }
}

/// The bytes of the records written one behind the other from `pos` on, or
/// the fault of the first that has one, and the map after what was written.
pub open spec fn spec_encode_records(
    rs: Seq<RecordView>,
    map: Map<Seq<char>, usize>,
    pos: int,
) -> (Result<Seq<u8>, DNSError>, Map<Seq<char>, usize>)
    decreases rs.len(),
{
    if rs.len() == 0 {
        (Ok(Seq::empty()), map)
    } else {
        match spec_encode_record(rs[0], map, pos) {
            (Err(e), after) => (Err(e), after),
            (Ok(first), after) => match spec_encode_records(
                rs.drop_first(),
                after,
                pos + first.len(),
            ) {
                (Err(e), last) => (Err(e), last),
                (Ok(rest), last) => (Ok(first + rest), last),
            },
        }
    }
}

/// Beyond the reach of a pointer, where a record is written does not matter.
pub proof fn lemma_encode_record_far(
    r: RecordView,
    map: Map<Seq<char>, usize>,
    pos: int,
    other: int,
)
    requires
        pos >= POINTER_LIMIT,
        other >= POINTER_LIMIT,
    ensures
        spec_encode_record(r, map, pos) == spec_encode_record(r, map, other),
{
    reveal(spec_encode_record);
    lemma_encode_name_far(encode_utf8(r.name), map, pos, other);
    match spec_encode_name(encode_utf8(r.name), map, pos) {
        Ok((name, mid)) => {
            lemma_serialize_record_data_far(
                r.record,
                mid,
                pos + name.len() + RECORD_FIXED_LEN,
                other + name.len() + RECORD_FIXED_LEN,
            );
        },
        Err(_) => {},
    }
}

/// Reads records out of a packet.
pub struct DNSRecordsParser<'data> {
    /// The packet that the records are read from.
    pub packet: &'data [u8],
}

impl<'data> DNSRecordsParser<'data> {
    /// A parser of the records of `packet`.
    pub fn new(packet: &'data [u8]) -> (parser: Self)
        ensures
            parser.packet@ == packet@,
    {
        Self { packet }
    }

    /// Reads `num_records` records from `startptr` on.
    pub fn parse(&self, num_records: usize, startptr: usize) -> (r: ParseResult<Vec<DNSRecord>>)
        ensures
            match spec_parse_records(self.packet@, startptr as int, num_records as nat) {
                Ok((records, taken)) => r is Ok && records_view(r->Ok_0.0@) == records
                    && r->Ok_0.1 == taken && (num_records > 0 ==> startptr + taken
                    <= self.packet@.len() <= usize::MAX),
                Err(e) => r == Err::<(Vec<DNSRecord>, usize), DNSError>(e),
            },
    {
        let mut ptr: usize = startptr;
        let mut result: Vec<DNSRecord> = Vec::new();
        let ghost whole = spec_parse_records(self.packet@, startptr as int, num_records as nat);
        let mut k: usize = 0;
        assert(records_view(result@) =~= Seq::<RecordView>::empty());
        while k < num_records
            invariant
                k <= num_records,
                startptr <= ptr,
                k > 0 ==> ptr <= self.packet@.len() <= usize::MAX,
                whole == spec_parse_records(self.packet@, startptr as int, num_records as nat),
                whole == match spec_parse_records(
                    self.packet@,
                    ptr as int,
                    (num_records - k) as nat,
                ) {
                    Ok((rest, more)) => Ok((records_view(result@) + rest, ptr - startptr + more)),
                    Err(e) => Err(e),
                },
            decreases num_records - k,
        {
            let (record, len) = self.parse_record(ptr)?;
            proof {
                let before = records_view(result@);
                let after = records_view(result@.push(record));
                assert(after =~= before + seq![record@]);
                assert forall|rest: Seq<RecordView>| (before + seq![record@]) + rest == before
                    + (seq![record@] + rest) by {
                    assert((before + seq![record@]) + rest =~= before + (seq![record@] + rest));
                }
            }
            result.push(record);
            ptr += len;
            k += 1;
        }
        assert(records_view(result@) + Seq::<RecordView>::empty() =~= records_view(result@));
        Ok((result, ptr - startptr))
    }

    /// Reads the record at `ptr`.
    pub fn parse_record(&self, ptr: usize) -> (r: ParseResult<DNSRecord>)
        ensures
            match spec_parse_record(self.packet@, ptr as int) {
                Ok((record, taken)) => r is Ok && r->Ok_0.0@ == record && r->Ok_0.1 == taken
                    && ptr + taken <= self.packet@.len() <= usize::MAX,
                Err(e) => r == Err::<(DNSRecord, usize), DNSError>(e),
            },
    {
        reveal(spec_parse_record);
        let (name, consumed_len) = DomainNameLabel::parse(self.packet, ptr)?;
        if RECORD_FIXED_LEN > self.packet.len() - ptr - consumed_len {
            return Err(DNSError::ShortBuffer);
        }
        let end = ptr + consumed_len;
        let rtype = read_u16(self.packet, end);
        let class = read_u16(self.packet, end + 2);
        let ttl = read_u32(self.packet, end + 4);
        let len = read_u16(self.packet, end + 8);
        let (record, record_len) = self.parse_record_data(
            rtype,
            len as usize,
            end + RECORD_FIXED_LEN,
        )?;
        Ok(
            (
                DNSRecord { name, rtype, class, ttl, len, record },
                consumed_len + RECORD_FIXED_LEN + record_len,
            ),
        )
    }

    /// Reads the data of a record of type `rtype` from the `len` bytes at
    /// `ptr`, and hands back `len` with it.
    pub fn parse_record_data(&self, rtype: u16, len: usize, ptr: usize) -> (r: ParseResult<
        DNSRecordData,
    >)
        ensures
            match spec_parse_record_data(self.packet@, rtype, ptr as int, len as int) {
                Ok(record) => r is Ok && r->Ok_0.0@ == record && r->Ok_0.1 == len && ptr + len
                    <= self.packet@.len(),
                Err(e) => r == Err::<(DNSRecordData, usize), DNSError>(e),
            },
    {
        reveal(spec_parse_record_data);
        if rtype == TYPE_A {
            Ok((DNSRecordData::A(DNSARecord::parse(self.packet, ptr, len)?), len))
        } else if rtype == TYPE_NS {
            Ok((DNSRecordData::NS(DNSNSRecord::parse(self.packet, ptr, len)?), len))
        } else if rtype == TYPE_CNAME {
            Ok((DNSRecordData::CNAME(DNSCNameRecord::parse(self.packet, ptr, len)?), len))
        } else if rtype == TYPE_SOA {
            Ok((DNSRecordData::SOA(DNSSOARecord::parse(self.packet, ptr, len)?), len))
        } else if rtype == TYPE_MX {
            Ok((DNSRecordData::MX(DNSMXRecord::parse(self.packet, ptr, len)?), len))
        } else if rtype == TYPE_TXT {
            Ok((DNSRecordData::TXT(DNSTXTRecord::parse(self.packet, ptr, len)?), len))
        } else if rtype == TYPE_AAAA {
            Ok((DNSRecordData::AAAA(DNSAAAARecord::parse(self.packet, ptr, len)?), len))
        } else {
            Ok((DNSRecordData::Unknown(DNSUnknownRecord::parse(self.packet, ptr, len)?), len))
        }
    }
}

/// Writes records for a packet under construction.
pub struct DNSRecordSerializer<'data, 'lmap> {
    /// The records to write.
    pub records: &'data [DNSRecord],
    /// The suffixes written so far in the packet.
    pub label_ptr_map: &'lmap mut LabelPtrMap,
    /// The offset in the packet at which the records begin.
    pub ptr: usize,
}

/// Writes one record for the offset `ptr`: the name, the fixed fields with
/// the length of the data as it was written, and the data.
pub fn serialize_record(record: &DNSRecord, label_ptr_map: &mut LabelPtrMap, ptr: usize) -> (r:
    Result<Vec<u8>, DNSError>)
    ensures
        ({
            let (bytes, map) = spec_encode_record(record@, old(label_ptr_map)@, ptr as int);
            &&& final(label_ptr_map)@ == map
            &&& match bytes {
                Ok(bytes) => r is Ok && r->Ok_0@ == bytes,
                Err(e) => r == Err::<Vec<u8>, DNSError>(e),
            }
        }),
{
    reveal(spec_encode_record);
    let mut data = DomainNameLabel::serialize(record.name.as_str(), label_ptr_map, ptr)?;
    let ghost name = data@;
    let at = advance(advance(ptr, data.len()), RECORD_FIXED_LEN);
    proof {
        if at != ptr + name.len() + RECORD_FIXED_LEN {
            lemma_serialize_record_data_far(
                record.record@,
                label_ptr_map@,
                at as int,
                ptr + name.len() + RECORD_FIXED_LEN,
            );
        }
    }
    let rdata = record.record.serialize(label_ptr_map, at)?;
    if rdata.len() > MAX_RDATA_LEN {
        return Err(DNSError::InvalidRdataLength);
    }
    push_u16(&mut data, record.rtype);
    push_u16(&mut data, record.class);
    push_u32(&mut data, record.ttl);
    push_u16(&mut data, rdata.len() as u16);
    push_all(&mut data, rdata.as_slice());
    Ok(data)
}

impl<'data, 'lmap> DNSRecordSerializer<'data, 'lmap> {
    /// A serializer of `records` for the offset `ptr` of a packet whose
    /// suffixes so far are in `label_ptr_map`.
    pub fn new(
        records: &'data [DNSRecord],
        label_ptr_map: &'lmap mut LabelPtrMap,
        ptr: usize,
    ) -> (s: Self)
        ensures
            s.records@ == records@,
            *s.label_ptr_map == *old(label_ptr_map),
            *final(s.label_ptr_map) == *final(label_ptr_map),
            s.ptr == ptr,
    {
        Self { records, label_ptr_map, ptr }
    }

    /// Writes the records one behind the other, and records their suffixes
    /// in the map.
    pub fn serialize(&mut self) -> (r: Result<Vec<u8>, DNSError>)
        ensures
            final(self).records@ == old(self).records@,
            final(self).ptr == old(self).ptr,
            *final(final(self).label_ptr_map) == *final(old(self).label_ptr_map),
            ({
                let (bytes, map) = spec_encode_records(
                    records_view(old(self).records@),
                    old(self).label_ptr_map@,
                    old(self).ptr as int,
                );
                &&& final(self).label_ptr_map@ == map
                &&& match bytes {
                    Ok(bytes) => r is Ok && r->Ok_0@ == bytes,
                    Err(e) => r == Err::<Vec<u8>, DNSError>(e),
                }
            }),
    {
        let mut data: Vec<u8> = Vec::new();
        let ghost all = records_view(self.records@);
        let ghost whole = spec_encode_records(all, self.label_ptr_map@, self.ptr as int);
        let mut k: usize = 0;
        assert(all.skip(0) =~= all);
        while k < self.records.len()
            invariant
                k <= self.records@.len(),
                self.records@ == old(self).records@,
                self.ptr == old(self).ptr,
                *final(self.label_ptr_map) == *final(old(self).label_ptr_map),
                all == records_view(self.records@),
                whole == spec_encode_records(all, old(self).label_ptr_map@, old(self).ptr as int),
                whole == ({
                    let (rest, last) = spec_encode_records(
                        all.skip(k as int),
                        self.label_ptr_map@,
                        self.ptr + data@.len(),
                    );
                    match rest {
                        Ok(rest) => (Ok(data@ + rest), last),
                        Err(e) => (Err(e), last),
                    }
                }),
            decreases self.records@.len() - k,
        {
            let record = &self.records[k];
            let at = advance(self.ptr, data.len());
            let ghost before = data@;
            proof {
                assert(all.skip(k as int)[0] == record@);
                assert(all.skip(k as int).drop_first() =~= all.skip(k + 1));
                if at != self.ptr + data@.len() {
                    lemma_encode_record_far(
                        record@,
                        self.label_ptr_map@,
                        at as int,
                        self.ptr + data@.len(),
                    );
                }
            }
            let bytes = serialize_record(record, self.label_ptr_map, at)?;
            push_all(&mut data, bytes.as_slice());
            proof {
                assert forall|rest: Seq<u8>| (before + bytes@) + rest == before + (bytes@
                    + rest) by {
                    assert((before + bytes@) + rest =~= before + (bytes@ + rest));
                }
            }
            k += 1;
        }
        assert(data@ + Seq::<u8>::empty() =~= data@);
        Ok(data)
    }
}


} // verus!

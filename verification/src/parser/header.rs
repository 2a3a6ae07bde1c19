//! The fixed header of twelve bytes.

use crate::parser::common::{
    push_u16, read_u16, spec_u16_at, spec_u16_bytes, DNSError, Parse, ParseResult,
};
use vstd::prelude::*;
use vstd::std_specs::convert::FromSpecImpl;

verus! {

/// Whether a message asks or answers.
#[derive(Debug, PartialEq, Eq, Copy, Clone, Structural)]
pub enum DNSHeaderType {
    Query,
    Response,
}

impl DNSHeaderType {
    /// The bit that stands for the direction.
    pub open spec fn spec_bit(self) -> usize {
        match self {
            DNSHeaderType::Query => 0,
            DNSHeaderType::Response => 1,
        }
    }

    /// The bit that stands for the direction.
    pub fn into(self) -> (bit: usize)
        ensures
            bit == self.spec_bit(),
    {
        match self {
            DNSHeaderType::Query => 0,
            DNSHeaderType::Response => 1,
        }
    }

    /// The direction that a bit stands for.
    pub fn from(value: usize) -> (qr: Self)
        requires
            value <= 1,
        ensures
            qr.spec_bit() == value,
    {
        if value == 0 {
            DNSHeaderType::Query
        } else {
            DNSHeaderType::Response
        }
    }
}

/// How a query ended.
#[derive(Debug, PartialEq, Eq, Copy, Clone, Structural)]
pub enum ResultCode {
    /// No error condition.
    NoError,
    /// The name server was unable to interpret the query.
    FormatError,
    /// The name server was unable to process the query.
    ServerFailure,
    /// The domain name of the query does not exist.
    NameError,
    /// The name server does not support the kind of query.
    NotImplemented,
    /// The name server refuses the operation for policy reasons.
    Refused,
    /// One of the codes from 6 to 15, which are reserved.
    Unknown,
}

impl ResultCode {
    /// The number written for a code. The reserved codes are not told apart
    /// and are written as the first of them, 6.
    pub open spec fn spec_code(self) -> usize {
        match self {
            ResultCode::NoError => 0,
            ResultCode::FormatError => 1,
            ResultCode::ServerFailure => 2,
            ResultCode::NameError => 3,
            ResultCode::NotImplemented => 4,
            ResultCode::Refused => 5,
            ResultCode::Unknown => 6,
        }
    }

    /// The code that a number stands for.
    pub open spec fn spec_from(value: usize) -> ResultCode {
        if value == 0 {
            ResultCode::NoError
        } else if value == 1 {
            ResultCode::FormatError
        } else if value == 2 {
            ResultCode::ServerFailure
        } else if value == 3 {
            ResultCode::NameError
        } else if value == 4 {
            ResultCode::NotImplemented
        } else if value == 5 {
            ResultCode::Refused
        } else {
            ResultCode::Unknown
        }
    }

    /// The number written for a code.
    pub fn into(self) -> (code: usize)
        ensures
            code == self.spec_code(),
    {
        match self {
            ResultCode::NoError => 0,
            ResultCode::FormatError => 1,
            ResultCode::ServerFailure => 2,
            ResultCode::NameError => 3,
            ResultCode::NotImplemented => 4,
            ResultCode::Refused => 5,
            ResultCode::Unknown => 6,
        }
    }
}

impl From<usize> for ResultCode {
    fn from(value: usize) -> (code: Self) {
        match value {
            0 => ResultCode::NoError,
            1 => ResultCode::FormatError,
            2 => ResultCode::ServerFailure,
            3 => ResultCode::NameError,
            4 => ResultCode::NotImplemented,
            5 => ResultCode::Refused,
            _ => ResultCode::Unknown,
        }
    }
}

impl FromSpecImpl<usize> for ResultCode {
    open spec fn obeys_from_spec() -> bool {
        true
    }

    open spec fn from_spec(value: usize) -> ResultCode {
        ResultCode::spec_from(value)
    }
}

/// The header of a message.
#[derive(Debug, PartialEq, Eq, Copy, Clone, Structural)]
pub struct DNSHeader {
    /// Packet identifier (16 bits).
    pub id: u16,
    /// Query or response (1 bit).
    pub qr: DNSHeaderType,
    /// Operation code (4 bits).
    pub opcode: u8,
    /// Authoritative answer (1 bit).
    pub aa: bool,
    /// Truncated message (1 bit).
    pub tc: bool,
    /// Recursion desired (1 bit).
    pub rd: bool,
    /// Recursion available (1 bit).
    pub ra: bool,
    /// Reserved (3 bits).
    pub z: u8,
    /// Response code (4 bits).
    pub rcode: ResultCode,
    /// Number of questions.
    pub qdcount: u16,
    /// Number of answers.
    pub ancount: u16,
    /// Number of authority records.
    pub nscount: u16,
    /// Number of additional records.
    pub arcount: u16,
}

/// The length of the header on the wire.
pub const HEADER_LEN: usize = 12;

/// 1 for a flag that is set, 0 for one that is not.
pub open spec fn spec_flag(b: bool) -> int {
    if b {
        1
    } else {
        0
    }
}

/// The header that the first twelve bytes of `data` stand for.
pub open spec fn spec_header_at(data: Seq<u8>) -> DNSHeader {
    DNSHeader {
        id: spec_u16_at(data, 0),
        qr: if data[2] / 128 == 0 {
            DNSHeaderType::Query
        } else {
            DNSHeaderType::Response
        },
        opcode: (data[2] / 8 % 16) as u8,
        aa: data[2] / 4 % 2 == 1,
        tc: data[2] / 2 % 2 == 1,
        rd: data[2] % 2 == 1,
        ra: data[3] / 128 == 1,
        z: (data[3] / 16 % 8) as u8,
        rcode: ResultCode::spec_from((data[3] % 16) as usize),
        qdcount: spec_u16_at(data, 4),
        ancount: spec_u16_at(data, 6),
        nscount: spec_u16_at(data, 8),
        arcount: spec_u16_at(data, 10),
    }
}

/// The header at the front of `data`, which takes twelve bytes.
pub open spec fn spec_parse_header(data: Seq<u8>) -> Result<(DNSHeader, usize), DNSError> {
    if data.len() < HEADER_LEN {
        Err(DNSError::ShortBuffer)
    } else {
        Ok((spec_header_at(data), HEADER_LEN))
    }
}

/// The byte of the direction, the operation code and the flags aa, tc, rd.
/// Of the operation code the low four bits are written.
pub open spec fn spec_flags_hi(h: DNSHeader) -> u8 {
    (h.qr.spec_bit() * 128 + (h.opcode % 16) * 8 + spec_flag(h.aa) * 4 + spec_flag(h.tc) * 2
        + spec_flag(h.rd)) as u8
}

/// The byte of the flag ra, the reserved bits and the response code. Of the
/// reserved field the low three bits are written.
pub open spec fn spec_flags_lo(h: DNSHeader) -> u8 {
    (spec_flag(h.ra) * 128 + (h.z % 8) * 16 + h.rcode.spec_code()) as u8
}

/// The twelve bytes of a header.
pub open spec fn spec_header_bytes(h: DNSHeader) -> Seq<u8> {
    spec_u16_bytes(h.id) + seq![spec_flags_hi(h), spec_flags_lo(h)] + spec_u16_bytes(h.qdcount)
        + spec_u16_bytes(h.ancount) + spec_u16_bytes(h.nscount) + spec_u16_bytes(h.arcount)
}

/// A header whose fields fit their bits.
pub open spec fn spec_header_wf(h: DNSHeader) -> bool {
    &&& h.opcode < 16
    &&& h.z < 8
}

/// A header is read back from its bytes, whatever follows them.
pub proof fn lemma_header_roundtrip(h: DNSHeader, rest: Seq<u8>)
    requires
        spec_header_wf(h),
    ensures
        spec_header_bytes(h).len() == HEADER_LEN,
        spec_parse_header(spec_header_bytes(h) + rest) == Ok::<(DNSHeader, usize), DNSError>(
            (h, HEADER_LEN),
        ),
{
    let data = spec_header_bytes(h) + rest;
    let got = spec_header_at(data);
    assert(data[2] == spec_flags_hi(h));
    assert(data[3] == spec_flags_lo(h));
    assert(data[0] == (h.id / 256) as u8 && data[1] == (h.id % 256) as u8);
    assert(data[4] == (h.qdcount / 256) as u8 && data[5] == (h.qdcount % 256) as u8);
    assert(data[6] == (h.ancount / 256) as u8 && data[7] == (h.ancount % 256) as u8);
    assert(data[8] == (h.nscount / 256) as u8 && data[9] == (h.nscount % 256) as u8);
    assert(data[10] == (h.arcount / 256) as u8 && data[11] == (h.arcount % 256) as u8);
    assert(got.id == h.id);
    assert(got.qr == h.qr);
    assert(got.opcode == h.opcode);
    assert(got.aa == h.aa);
    assert(got.tc == h.tc);
    assert(got.rd == h.rd);
    assert(got.ra == h.ra);
    assert(got.z == h.z);
    assert(got.rcode == h.rcode);
}

/// The header that a parse gives has fields that fit their bits.
pub proof fn lemma_parsed_header_fits(data: Seq<u8>)
    ensures
        spec_header_at(data).opcode < 16,
        spec_header_at(data).z < 8,
{
}

fn flag(b: bool) -> (bit: u8)
    ensures
        bit == spec_flag(b),
{
    if b {
        1
    } else {
        0
    }
}

impl Parse for DNSHeader {
    open spec fn spec_parse(data: Seq<u8>) -> Result<(Self, usize), DNSError> {
        spec_parse_header(data)
    }

    /// Reads the header at the front of `data`.
    fn parse(data: &[u8]) -> (r: ParseResult<Self>) {
        if data.len() < HEADER_LEN {
            return Err(DNSError::ShortBuffer);
        }
        let header = DNSHeader {
            id: read_u16(data, 0),
            qr: if data[2] / 128 == 0 {
                DNSHeaderType::Query
            } else {
                DNSHeaderType::Response
            },
            opcode: data[2] / 8 % 16,
            aa: data[2] / 4 % 2 == 1,
            tc: data[2] / 2 % 2 == 1,
            rd: data[2] % 2 == 1,
            ra: data[3] / 128 == 1,
            z: data[3] / 16 % 8,
            rcode: ResultCode::from((data[3] % 16) as usize),
            qdcount: read_u16(data, 4),
            ancount: read_u16(data, 6),
            nscount: read_u16(data, 8),
            arcount: read_u16(data, 10),
        };
        Ok((header, HEADER_LEN))
    }
}

impl DNSHeader {
    /// Writes the header as its twelve bytes.
    pub fn serialize(&self) -> (data: Vec<u8>)
        ensures
            data@ == spec_header_bytes(*self),
    {
        let mut data: Vec<u8> = Vec::new();
        push_u16(&mut data, self.id);
        data.push(
            self.qr.into() as u8 * 128 + (self.opcode % 16) * 8 + flag(self.aa) * 4 + flag(
                self.tc,
            ) * 2 + flag(self.rd),
        );
        data.push(flag(self.ra) * 128 + (self.z % 8) * 16 + self.rcode.into() as u8);
        push_u16(&mut data, self.qdcount);
        push_u16(&mut data, self.ancount);
        push_u16(&mut data, self.nscount);
        push_u16(&mut data, self.arcount);
        assert(data@ =~= spec_header_bytes(*self));
        data
    }
}

} // verus!

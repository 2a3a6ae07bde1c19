//! The dispatcher: the response that goes back to the client.

use crate::parser::common::{read_u16, spec_u16_at, DNSError};
use crate::parser::header::{
    spec_header_bytes, DNSHeader, DNSHeaderType, ResultCode, HEADER_LEN,
};
use crate::parser::packet::{
    spec_counted_header, spec_serialize_packet, DNSPacket, PacketView, MAX_SECTION_LEN,
};
use crate::parser::question::spec_encode_questions;
use crate::parser::record::RecordView;
use crate::server::lookup::spec_event;
use vstd::prelude::*;

verus! {

/// The count that stands for a section of `len` entries: the length, or the
/// largest count where the length is beyond it.
pub open spec fn spec_count(len: nat) -> u16 {
    if len > MAX_SECTION_LEN {
        0xFFFF
    } else {
        len as u16
    }
}

/// The count that stands for a section of `len` entries.
pub fn count(len: usize) -> (c: u16)
    ensures
        c == spec_count(len as nat),
{
    if len > MAX_SECTION_LEN {
        0xFFFF
    } else {
        len as u16
    }
}

/// The response to `request` after the resolution of its first question
/// ended with `outcome`.
///
/// It bears the identifier and the questions of the request, says that
/// recursion is available, and is not authoritative. Where the request holds
/// no question, the response code is a format error and the outcome does not
/// count. Where the resolution failed, the code is a server failure. Else
/// the records of the three sections and the truncation flag are those of
/// the outcome. The counts are the lengths of the sections.
pub open spec fn spec_response(request: PacketView, outcome: Result<PacketView, DNSError>)
    -> PacketView {
    let resolved = request.questions.len() > 0 && outcome is Ok;
    let answers = if resolved { outcome->Ok_0.answers } else { Seq::empty() };
    let authority = if resolved { outcome->Ok_0.authority } else { Seq::empty() };
    let additional = if resolved { outcome->Ok_0.additional } else { Seq::empty() };
    PacketView {
        header: DNSHeader {
            id: request.header.id,
            qr: DNSHeaderType::Response,
            opcode: 0,
            aa: false,
            tc: resolved && outcome->Ok_0.header.tc,
            rd: request.header.rd,
            ra: true,
            z: 0,
            rcode: if request.questions.len() == 0 {
                ResultCode::FormatError
            } else if outcome is Ok {
                ResultCode::NoError
            } else {
                ResultCode::ServerFailure
            },
            qdcount: spec_count(request.questions.len()),
            ancount: spec_count(answers.len()),
            nscount: spec_count(authority.len()),
            arcount: spec_count(additional.len()),
        },
        questions: request.questions,
        answers,
        authority,
        additional,
    }
}

/// Builds the response to `request` after the resolution of its first
/// question ended with `outcome`.
pub fn build_response(request: DNSPacket, outcome: Result<DNSPacket, DNSError>) -> (resp:
    DNSPacket)
    ensures
        resp@ == spec_response(request@, spec_event(outcome)),
{
    let ghost want = spec_response(request@, spec_event(outcome));
    let asked = request.questions.len() > 0;
    let mut header = DNSHeader {
        id: request.header.id,
        qr: DNSHeaderType::Response,
        opcode: 0,
        aa: false,
        tc: false,
        rd: request.header.rd,
        ra: true,
        z: 0,
        rcode: ResultCode::FormatError,
        qdcount: count(request.questions.len()),
        ancount: 0,
        nscount: 0,
        arcount: 0,
    };
    let questions = request.questions;
    if !asked {
        let resp = DNSPacket {
            header,
            questions,
            answers: Vec::new(),
            authority: Vec::new(),
            additional: Vec::new(),
        };
        proof {
            assert(resp@.answers =~= want.answers);
            assert(resp@.authority =~= want.authority);
            assert(resp@.additional =~= want.additional);
        }
        return resp;
    }
    match outcome {
        Err(_) => {
            header.rcode = ResultCode::ServerFailure;
            let resp = DNSPacket {
                header,
                questions,
                answers: Vec::new(),
                authority: Vec::new(),
                additional: Vec::new(),
            };
            proof {
                assert(resp@.answers =~= want.answers);
                assert(resp@.authority =~= want.authority);
                assert(resp@.additional =~= want.additional);
            }
            resp
        },
        Ok(found) => {
            header.rcode = ResultCode::NoError;
            header.tc = found.header.tc;
            header.ancount = count(found.answers.len());
            header.nscount = count(found.authority.len());
            header.arcount = count(found.additional.len());
            DNSPacket {
                header,
                questions,
                answers: found.answers,
                authority: found.authority,
                additional: found.additional,
            }
        },
    }
}

/// The response to bytes that do not hold a message: a format error without
/// sections, under the identifier that the first two bytes stand for, or 0
/// where there are not two.
pub open spec fn spec_format_error_response(data: Seq<u8>) -> PacketView {
    PacketView {
        header: DNSHeader {
            id: if data.len() >= 2 {
                spec_u16_at(data, 0)
            } else {
                0
            },
            qr: DNSHeaderType::Response,
            opcode: 0,
            aa: false,
            tc: false,
            rd: false,
            ra: true,
            z: 0,
            rcode: ResultCode::FormatError,
            qdcount: 0,
            ancount: 0,
            nscount: 0,
            arcount: 0,
        },
        questions: Seq::empty(),
        answers: Seq::empty(),
        authority: Seq::empty(),
        additional: Seq::empty(),
    }
}

/// Builds the response to bytes that do not hold a message.
pub fn format_error_response(data: &[u8]) -> (resp: DNSPacket)
    ensures
        resp@ == spec_format_error_response(data@),
{
    let id = if data.len() >= 2 {
        read_u16(data, 0)
    } else {
        0
    };
    let resp = DNSPacket {
        header: DNSHeader {
            id,
            qr: DNSHeaderType::Response,
            opcode: 0,
            aa: false,
            tc: false,
            rd: false,
            ra: true,
            z: 0,
            rcode: ResultCode::FormatError,
            qdcount: 0,
            ancount: 0,
            nscount: 0,
            arcount: 0,
        },
        questions: Vec::new(),
        answers: Vec::new(),
        authority: Vec::new(),
        additional: Vec::new(),
    };
    proof {
        let want = spec_format_error_response(data@);
        assert(resp@.questions =~= want.questions);
        assert(resp@.answers =~= want.answers);
        assert(resp@.authority =~= want.authority);
        assert(resp@.additional =~= want.additional);
    }
    resp
}

/// The name and the record type of the question that is resolved for a
/// request: its first.
pub fn first_question(request: &DNSPacket) -> (q: Option<(String, u16)>)
    ensures
        match q {
            Some((name, rtype)) => request@.questions.len() > 0 && name@
                == request@.questions[0].name && rtype == request@.questions[0].rtype,
            None => request@.questions.len() == 0,
        },
{
    if request.questions.len() == 0 {
        None
    } else {
        let question = &request.questions[0];
        Some((question.name.clone(), question.rtype))
    }
}

/// The bytes of a message, where it can be written: no section has more
/// entries than a count can hold, and no name or record data has a fault.
pub open spec fn spec_wire(p: PacketView) -> Option<Seq<u8>> {
    if p.questions.len() <= MAX_SECTION_LEN && p.answers.len() <= MAX_SECTION_LEN
        && p.authority.len() <= MAX_SECTION_LEN && p.additional.len() <= MAX_SECTION_LEN {
        match spec_serialize_packet(p) {
            Ok(bytes) => Some(bytes),
            Err(_) => None,
        }
    } else {
        None
    }
}

/// Writes a message, where it can be written.
pub fn wire(p: &DNSPacket) -> (bytes: Option<Vec<u8>>)
    ensures
        match spec_wire(p@) {
            Some(b) => bytes is Some && bytes->Some_0@ == b,
            None => bytes is None,
        },
{
    if p.questions.len() > MAX_SECTION_LEN || p.answers.len() > MAX_SECTION_LEN
        || p.authority.len() > MAX_SECTION_LEN || p.additional.len() > MAX_SECTION_LEN {
        return None;
    }
    match p.serialize() {
        Ok(bytes) => Some(bytes),
        Err(_) => None,
    }
}

/// The most bytes of a datagram that goes to a client.
pub const MAX_DATAGRAM_LEN: usize = 512;

/// The header that answers a request that cannot be echoed: a format error
/// under the identifier of the request.
pub open spec fn spec_refusal(id: u16) -> DNSHeader {
    DNSHeader {
        id,
        qr: DNSHeaderType::Response,
        opcode: 0,
        aa: false,
        tc: false,
        rd: false,
        ra: true,
        z: 0,
        rcode: ResultCode::FormatError,
        qdcount: 0,
        ancount: 0,
        nscount: 0,
        arcount: 0,
    }
}

/// The response cut down to its questions, and marked as truncated.
pub open spec fn spec_truncated(p: PacketView) -> PacketView {
    PacketView {
        header: DNSHeader { tc: true, ancount: 0, nscount: 0, arcount: 0, ..p.header },
        questions: p.questions,
        answers: Seq::empty(),
        authority: Seq::empty(),
        additional: Seq::empty(),
    }
}

/// The bytes of a message, where it can be written in a datagram for a
/// client.
pub open spec fn spec_fit(p: PacketView) -> Option<Seq<u8>> {
    match spec_wire(p) {
        Some(bytes) => if bytes.len() <= MAX_DATAGRAM_LEN {
            Some(bytes)
        } else {
            None
        },
        None => None,
    }
}

/// The datagram that goes back to the client for `request` after the
/// resolution of its first question ended with `outcome`. It has at most 512
/// bytes.
///
/// It is the response, where that can be written and is short enough. A
/// response that is too long is cut down to its questions and marked as
/// truncated; where the questions alone are too long, the header alone goes
/// back. In place of a response that cannot be written the response to a
/// failed resolution goes back, which holds the questions alone; and where
/// this cannot be written or is too long, the header of a format error.
pub open spec fn spec_respond(request: PacketView, outcome: Result<PacketView, DNSError>) -> Seq<
    u8,
> {
    let resp = spec_response(request, outcome);
    match spec_wire(resp) {
        Some(bytes) => if bytes.len() <= MAX_DATAGRAM_LEN {
            bytes
        } else {
            match spec_fit(spec_truncated(resp)) {
                Some(cut) => cut,
                None => spec_header_bytes(
                    DNSHeader { qdcount: 0, ..spec_truncated(resp).header },
                ),
            }
        },
        None => match spec_fit(spec_response(request, Err(DNSError::InvalidRdataLength))) {
            Some(bytes) => bytes,
            None => spec_header_bytes(spec_refusal(request.header.id)),
        },
    }
}

/// Writes a message, where it can be written in a datagram for a client.
pub fn fit(p: &DNSPacket) -> (bytes: Option<Vec<u8>>)
    ensures
        match spec_fit(p@) {
            Some(b) => bytes is Some && bytes->Some_0@ == b,
            None => bytes is None,
        },
{
    match wire(p) {
        Some(bytes) => if bytes.len() <= MAX_DATAGRAM_LEN {
            Some(bytes)
        } else {
            None
        },
        None => None,
    }
}

/// Writes the datagram that goes back to the client for `request` after the
/// resolution of its first question ended with `outcome`. There always is
/// one, and it has at most 512 bytes.
pub fn respond(request: DNSPacket, outcome: Result<DNSPacket, DNSError>) -> (bytes: Vec<u8>)
    ensures
        bytes@ == spec_respond(request@, spec_event(outcome)),
        bytes@.len() <= MAX_DATAGRAM_LEN,
{
    let id = request.header.id;
    let ghost asked = request@;
    let resp = build_response(request, outcome);
    let ghost full = resp@;
    match wire(&resp) {
        Some(bytes) => {
            if bytes.len() <= MAX_DATAGRAM_LEN {
                return bytes;
            }
            let header = DNSHeader { tc: true, ancount: 0, nscount: 0, arcount: 0, ..resp.header };
            let cut = DNSPacket {
                header,
                questions: resp.questions,
                answers: Vec::new(),
                authority: Vec::new(),
                additional: Vec::new(),
            };
            proof {
                assert(cut@.answers =~= Seq::<RecordView>::empty());
                assert(cut@.authority =~= Seq::<RecordView>::empty());
                assert(cut@.additional =~= Seq::<RecordView>::empty());
                assert(cut@ == spec_truncated(full));
            }
            match fit(&cut) {
                Some(bytes) => bytes,
                None => DNSHeader { qdcount: 0, ..header }.serialize(),
            }
        },
        None => {
            let failed = build_response(
                DNSPacket {
                    header: resp.header,
                    questions: resp.questions,
                    answers: Vec::new(),
                    authority: Vec::new(),
                    additional: Vec::new(),
                },
                Err(DNSError::InvalidRdataLength),
            );
            proof {
                assert(failed@ == spec_response(asked, Err(DNSError::InvalidRdataLength)));
            }
            match fit(&failed) {
                Some(bytes) => bytes,
                None => {
                    DNSHeader {
                        id,
                        qr: DNSHeaderType::Response,
                        opcode: 0,
                        aa: false,
                        tc: false,
                        rd: false,
                        ra: true,
                        z: 0,
                        rcode: ResultCode::FormatError,
                        qdcount: 0,
                        ancount: 0,
                        nscount: 0,
                        arcount: 0,
                    }.serialize()
                },
            }
        },
    }
}

/// Writes the datagram that goes back to the client for bytes that do not
/// hold a message: the header of a format error, under the identifier that
/// the first two bytes stand for, or 0 where there are not two.
pub fn refuse(data: &[u8]) -> (bytes: Vec<u8>)
    ensures
        bytes@ == spec_header_bytes(spec_format_error_response(data@).header),
        spec_wire(spec_format_error_response(data@)) == Some(bytes@),
{
    let resp = format_error_response(data);
    proof {
        let p = resp@;
        let none = Seq::<u8>::empty();
        let h = spec_header_bytes(spec_counted_header(p));
        assert(spec_counted_header(p) == p.header);
        assert(spec_encode_questions(p.questions, Map::empty(), HEADER_LEN as int).0 == Ok::<
            Seq<u8>,
            DNSError,
        >(none));
        assert(h + none + none + none + none =~= h);
    }
    resp.header.serialize()
}

} // verus!

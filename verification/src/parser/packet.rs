//! Whole messages: the header and the four sections behind it.

use crate::parser::common::{push_all, DNSError, LabelPtrMap, Parse};
use crate::parser::header::{
    spec_header_bytes, spec_parse_header, DNSHeader, HEADER_LEN,
};
use crate::parser::question::{
    questions_view, spec_encode_questions, spec_parse_question, spec_parse_questions,
    DNSQuestion, DNSQuestionParser, DNSQuestionSerializer, QuestionView,
};
use crate::parser::record::{
    records_view, spec_encode_records, spec_parse_record, spec_parse_records, DNSRecord,
    DNSRecordSerializer, DNSRecordsParser, RecordView,
};
use vstd::prelude::*;

verus! {

/// A DNS message.
#[derive(Debug, PartialEq, Eq, Clone)]
pub struct DNSPacket {
    pub header: DNSHeader,
    pub questions: Vec<DNSQuestion>,
    pub answers: Vec<DNSRecord>,
    pub authority: Vec<DNSRecord>,
    pub additional: Vec<DNSRecord>,
}

/// A message as a mathematical value.
pub struct PacketView {
    pub header: DNSHeader,
    pub questions: Seq<QuestionView>,
    pub answers: Seq<RecordView>,
    pub authority: Seq<RecordView>,
    pub additional: Seq<RecordView>,
}

impl View for DNSPacket {
    type V = PacketView;

    open spec fn view(&self) -> PacketView {
        PacketView {
            header: self.header,
            questions: questions_view(self.questions@),
            answers: records_view(self.answers@),
            authority: records_view(self.authority@),
            additional: records_view(self.additional@),
        }
    }
}

/// The most entries that a section can have.
pub const MAX_SECTION_LEN: usize = 0xFFFF;

/// The message that `data` holds: the header, and behind it as many
/// questions, answers, authority records and additional records as the
/// header counts, in this order. What follows them is not looked at.
pub open spec fn spec_parse_packet(data: Seq<u8>) -> Result<PacketView, DNSError> {
    match spec_parse_header(data) {
        Err(e) => Err(e),
        Ok((header, at)) => match spec_parse_questions(data, at as int, header.qdcount as nat) {
            Err(e) => Err(e),
            Ok((questions, q)) => match spec_parse_records(
                data,
                at + q,
                header.ancount as nat,
            ) {
                Err(e) => Err(e),
                Ok((answers, a)) => match spec_parse_records(
                    data,
                    at + q + a,
                    header.nscount as nat,
                ) {
                    Err(e) => Err(e),
                    Ok((authority, n)) => match spec_parse_records(
                        data,
                        at + q + a + n,
                        header.arcount as nat,
                    ) {
                        Err(e) => Err(e),
                        Ok((additional, _)) => Ok(
                            PacketView { header, questions, answers, authority, additional },
                        ),
                    },
                },
            },
        },
    }
}

/// The offset up to which `data` is read as a message by a parser that
/// begins with its offset at `start`: behind the last section that can be
/// read; and `start` itself where not even the header can.
pub open spec fn spec_parse_reach(data: Seq<u8>, start: int) -> int {
    match spec_parse_header(data) {
        Err(_) => start,
        Ok((header, at)) => match spec_parse_questions(data, at as int, header.qdcount as nat) {
            Err(_) => at as int,
            Ok((_, q)) => match spec_parse_records(data, at + q, header.ancount as nat) {
                Err(_) => at + q,
                Ok((_, a)) => match spec_parse_records(data, at + q + a, header.nscount as nat) {
                    Err(_) => at + q + a,
                    Ok((_, n)) => match spec_parse_records(
                        data,
                        at + q + a + n,
                        header.arcount as nat,
                    ) {
                        Err(_) => at + q + a + n,
                        Ok((_, r)) => at + q + a + n + r,
                    },
                },
            },
        },
    }
}

/// The header of a message with the lengths of its sections as the counts.
pub open spec fn spec_counted_header(p: PacketView) -> DNSHeader {
    DNSHeader {
        qdcount: p.questions.len() as u16,
        ancount: p.answers.len() as u16,
        nscount: p.authority.len() as u16,
        arcount: p.additional.len() as u16,
        ..p.header
    }
}

/// The bytes of a message: the header with the lengths of the sections as
/// its counts, and the sections one behind the other, with one map of
/// suffixes that begins empty and runs through all four.
pub open spec fn spec_serialize_packet(p: PacketView) -> Result<Seq<u8>, DNSError> {
    let header = spec_header_bytes(spec_counted_header(p));
    match spec_encode_questions(p.questions, Map::empty(), HEADER_LEN as int) {
        (Err(e), _) => Err(e),
        (Ok(q), m1) => match spec_encode_records(p.answers, m1, HEADER_LEN + q.len()) {
            (Err(e), _) => Err(e),
            (Ok(a), m2) => match spec_encode_records(
                p.authority,
                m2,
                HEADER_LEN + q.len() + a.len(),
            ) {
                (Err(e), _) => Err(e),
                (Ok(n), m3) => match spec_encode_records(
                    p.additional,
                    m3,
                    HEADER_LEN + q.len() + a.len() + n.len(),
                ) {
                    (Err(e), _) => Err(e),
                    (Ok(r), _) => Ok(header + q + a + n + r),
                },
            },
        },
    }
}

impl DNSPacket {
    /// Writes the message. The counts written are the lengths of the
    /// sections, whatever the header holds as its counts.
    pub fn serialize(&self) -> (r: Result<Vec<u8>, DNSError>)
        requires
            self.questions@.len() <= MAX_SECTION_LEN,
            self.answers@.len() <= MAX_SECTION_LEN,
            self.authority@.len() <= MAX_SECTION_LEN,
            self.additional@.len() <= MAX_SECTION_LEN,
        ensures
            match spec_serialize_packet(self@) {
                Ok(bytes) => r is Ok && r->Ok_0@ == bytes,
                Err(e) => r == Err::<Vec<u8>, DNSError>(e),
            },
    {
        let header = DNSHeader {
            qdcount: self.questions.len() as u16,
            ancount: self.answers.len() as u16,
            nscount: self.authority.len() as u16,
            arcount: self.additional.len() as u16,
            ..self.header
        };
        let mut data = header.serialize();
        let mut label_ptr_map = LabelPtrMap::new();

        let questions_data = DNSQuestionSerializer::new(
            self.questions.as_slice(),
            &mut label_ptr_map,
            data.len(),
        ).serialize()?;
        push_all(&mut data, questions_data.as_slice());

        let answers_data = DNSRecordSerializer::new(
            self.answers.as_slice(),
            &mut label_ptr_map,
            data.len(),
        ).serialize()?;
        push_all(&mut data, answers_data.as_slice());

        let authority_data = DNSRecordSerializer::new(
            self.authority.as_slice(),
            &mut label_ptr_map,
            data.len(),
        ).serialize()?;
        push_all(&mut data, authority_data.as_slice());

        let additional_data = DNSRecordSerializer::new(
            self.additional.as_slice(),
            &mut label_ptr_map,
            data.len(),
        ).serialize()?;
        push_all(&mut data, additional_data.as_slice());

        Ok(data)
    }
}

/// Reads a message, section by section.
pub struct DNSPacketParser<'data> {
    /// The bytes of the message.
    pub packet: &'data [u8],
    /// The offset up to which the message is read.
    pub ptr: usize,
}

impl<'data> DNSPacketParser<'data> {
    /// A parser at the front of `data`.
    pub fn new(data: &'data [u8]) -> (parser: Self)
        ensures
            parser.packet@ == data@,
            parser.ptr == 0,
    {
        Self { packet: data, ptr: 0 }
    }

    /// Reads `count` records at the offset reached, and moves behind them.
    pub fn parse_records(&mut self, count: usize) -> (r: Result<Vec<DNSRecord>, DNSError>)
        ensures
            final(self).packet@ == old(self).packet@,
            match spec_parse_records(old(self).packet@, old(self).ptr as int, count as nat) {
                Ok((records, taken)) => r is Ok && records_view(r->Ok_0@) == records
                    && final(self).ptr == old(self).ptr + taken,
                Err(e) => r == Err::<Vec<DNSRecord>, DNSError>(e) && final(self).ptr == old(
                    self,
                ).ptr,
            },
    {
        if count == 0 {
            let records: Vec<DNSRecord> = Vec::new();
            assert(records_view(records@) =~= Seq::<RecordView>::empty());
            return Ok(records);
        }
        let (records, records_size) = DNSRecordsParser::new(self.packet).parse(count, self.ptr)?;
        self.ptr += records_size;
        Ok(records)
    }

    /// Reads `count` questions at the offset reached, and moves behind them.
    pub fn parse_questions(&mut self, count: usize) -> (r: Result<Vec<DNSQuestion>, DNSError>)
        ensures
            final(self).packet@ == old(self).packet@,
            match spec_parse_questions(old(self).packet@, old(self).ptr as int, count as nat) {
                Ok((questions, taken)) => r is Ok && questions_view(r->Ok_0@) == questions
                    && final(self).ptr == old(self).ptr + taken,
                Err(e) => r == Err::<Vec<DNSQuestion>, DNSError>(e) && final(self).ptr == old(
                    self,
                ).ptr,
            },
    {
        if count == 0 {
            let questions: Vec<DNSQuestion> = Vec::new();
            assert(questions_view(questions@) =~= Seq::<QuestionView>::empty());
            return Ok(questions);
        }
        let (questions, questions_size) = DNSQuestionParser::new(self.packet).parse(
            count,
            self.ptr,
        )?;
        self.ptr += questions_size;
        Ok(questions)
    }

    /// Reads the header at the front of the message, and moves behind it.
    pub fn parse_header(&mut self) -> (r: Result<DNSHeader, DNSError>)
        ensures
            final(self).packet@ == old(self).packet@,
            match spec_parse_header(old(self).packet@) {
                Ok((header, taken)) => r == Ok::<DNSHeader, DNSError>(header) && final(self).ptr
                    == taken,
                Err(e) => r == Err::<DNSHeader, DNSError>(e) && final(self).ptr == old(self).ptr,
            },
    {
        let (header, header_size) = DNSHeader::parse(self.packet)?;
        self.ptr = header_size;
        Ok(header)
    }

    /// Reads the whole message from its front, wherever the parser was
    /// before, and leaves the parser behind the last section that it read.
    pub fn parse(&mut self) -> (r: Result<DNSPacket, DNSError>)
        ensures
            final(self).packet@ == old(self).packet@,
            final(self).ptr == spec_parse_reach(old(self).packet@, old(self).ptr as int),
            match spec_parse_packet(old(self).packet@) {
                Ok(packet) => r is Ok && r->Ok_0@ == packet && r->Ok_0.questions@.len()
                    == packet.header.qdcount && r->Ok_0.answers@.len() == packet.header.ancount
                    && r->Ok_0.authority@.len() == packet.header.nscount
                    && r->Ok_0.additional@.len() == packet.header.arcount,
                Err(e) => r == Err::<DNSPacket, DNSError>(e),
            },
    {
        proof {
            if spec_parse_packet(self.packet@) is Ok {
                lemma_parsed_counts(self.packet@);
            }
        }
        let header = self.parse_header()?;

        let questions = self.parse_questions(header.qdcount as usize)?;
        let answers = self.parse_records(header.ancount as usize)?;
        let authority = self.parse_records(header.nscount as usize)?;
        let additional = self.parse_records(header.arcount as usize)?;

        Ok(DNSPacket { header, questions, answers, authority, additional })
    }
}

/// As many questions are read as were asked for.
pub proof fn lemma_questions_count(data: Seq<u8>, pos: int, count: nat)
    requires
        spec_parse_questions(data, pos, count) is Ok,
    ensures
        spec_parse_questions(data, pos, count)->Ok_0.0.len() == count,
    decreases count,
{
    if count > 0 {
        let taken = spec_parse_question(data, pos)->Ok_0.1;
        lemma_questions_count(data, pos + taken, (count - 1) as nat);
    }
}

/// As many records are read as were asked for.
pub proof fn lemma_records_count(data: Seq<u8>, pos: int, count: nat)
    requires
        spec_parse_records(data, pos, count) is Ok,
    ensures
        spec_parse_records(data, pos, count)->Ok_0.0.len() == count,
    decreases count,
{
    if count > 0 {
        let taken = spec_parse_record(data, pos)->Ok_0.1;
        lemma_records_count(data, pos + taken, (count - 1) as nat);
    }
}

/// In a message that was read, the counts of the header are the lengths of
/// the sections.
pub proof fn lemma_parsed_counts(data: Seq<u8>)
    requires
        spec_parse_packet(data) is Ok,
    ensures
        ({
            let p = spec_parse_packet(data)->Ok_0;
            &&& p.questions.len() == p.header.qdcount
            &&& p.answers.len() == p.header.ancount
            &&& p.authority.len() == p.header.nscount
            &&& p.additional.len() == p.header.arcount
            &&& spec_counted_header(p) == p.header
        }),
{
    let (header, at) = spec_parse_header(data)->Ok_0;
    let (_, q) = spec_parse_questions(data, at as int, header.qdcount as nat)->Ok_0;
    let (_, a) = spec_parse_records(data, at + q, header.ancount as nat)->Ok_0;
    let (_, n) = spec_parse_records(data, at + q + a, header.nscount as nat)->Ok_0;
    lemma_questions_count(data, at as int, header.qdcount as nat);
    lemma_records_count(data, at + q, header.ancount as nat);
    lemma_records_count(data, at + q + a, header.nscount as nat);
    lemma_records_count(data, at + q + a + n, header.arcount as nat);
}

} // verus!

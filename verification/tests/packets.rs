use dns_resolver::parser::{
    DNSAAAARecord, DNSARecord, DNSCNameRecord, DNSError, DNSHeader, DNSHeaderType, DNSMXRecord,
    DNSNSRecord, DNSPacket, DNSPacketParser, DNSQuestion, DNSQuestionParser,
    DNSQuestionSerializer, DNSRecord, DNSRecordData, DNSSOARecord, DNSTXTRecord,
    DNSUnknownRecord, DomainNameLabel, LabelPtrMap, Parse, ResultCode,
};

static QUERY: &'static [u8] = &[
    0x86, 0xe6, 0x01, 0x20, 0x00, 0x01, 0x00, 0x00, 0x00, 0x00, 0x00, 0x00, 0x06, 0x67, 0x6f, 0x6f,
    0x67, 0x6c, 0x65, 0x03, 0x63, 0x6f, 0x6d, 0x00, 0x00, 0x01, 0x00, 0x01,
];
static RESPONSE: &'static [u8] = &[
    0x86, 0xe6, 0x81, 0x80, 0x00, 0x01, 0x00, 0x01, 0x00, 0x00, 0x00, 0x00, 0x06, 0x67, 0x6f, 0x6f,
    0x67, 0x6c, 0x65, 0x03, 0x63, 0x6f, 0x6d, 0x00, 0x00, 0x01, 0x00, 0x01, 0xc0, 0x0c, 0x00, 0x01,
    0x00, 0x01, 0x00, 0x00, 0x01, 0x2c, 0x00, 0x04, 0xac, 0xd9, 0x12, 0xee,
];

fn header(id: u16) -> DNSHeader {
    DNSHeader {
        id,
        qr: DNSHeaderType::Response,
        opcode: 0,
        aa: false,
        tc: false,
        rd: true,
        ra: true,
        z: 0,
        rcode: ResultCode::NoError,
        qdcount: 0,
        ancount: 0,
        nscount: 0,
        arcount: 0,
    }
}

fn record(name: &str, rtype: u16, len: u16, record: DNSRecordData) -> DNSRecord {
    DNSRecord { name: name.to_owned(), rtype, class: 1, ttl: 60, len, record }
}

fn parse(data: &[u8]) -> Result<DNSPacket, DNSError> {
    DNSPacketParser::new(data).parse()
}

#[test]
fn parses_and_serializes_simple_query_packet() {
    let parsed_packet = parse(QUERY);

    assert_eq!(
        Ok(DNSPacket {
            header: DNSHeader {
                id: 34534,
                qr: DNSHeaderType::Query,
                opcode: 0,
                aa: false,
                tc: false,
                rd: true,
                ra: false,
                z: 2,
                rcode: ResultCode::NoError,
                qdcount: 1,
                ancount: 0,
                nscount: 0,
                arcount: 0,
            },
            questions: vec![DNSQuestion { name: "google.com.".to_owned(), rtype: 1, class: 1 }],
            answers: vec![],
            authority: vec![],
            additional: vec![],
        }),
        parsed_packet,
    );

    assert_eq!(Ok(QUERY.to_vec()), parsed_packet.and_then(|p| p.serialize()));
}

#[test]
fn parses_response_with_compressed_answer() {
    let packet = parse(RESPONSE).unwrap();
    assert_eq!(DNSHeaderType::Response, packet.header.qr);
    assert_eq!(1, packet.header.ancount);
    assert_eq!(
        vec![DNSRecord {
            name: "google.com.".to_owned(),
            rtype: 1,
            class: 1,
            ttl: 300,
            len: 4,
            record: DNSRecordData::A(DNSARecord { ip: [172, 217, 18, 238] }),
        }],
        packet.answers
    );
    assert!(packet.authority.is_empty());
    assert!(packet.additional.is_empty());
    assert_eq!(Ok(RESPONSE.to_vec()), packet.serialize());
}

#[test]
fn pointer_cycle_fails_the_packet() {
    let mut data = vec![0x12, 0x34, 0x01, 0x00, 0, 1, 0, 0, 0, 0, 0, 0];
    data.extend_from_slice(&[0xC0, 20, 0, 1, 0, 1, 0, 0]);
    data.extend_from_slice(&[0xC0, 12]);
    assert_eq!(Err(DNSError::MalformedName), parse(&data));
    assert_eq!(Err(DNSError::MalformedName), DomainNameLabel::parse(&data, 20));
}

#[test]
fn unknown_record_type_round_trips() {
    let mut data = vec![0x00, 0x07, 0x80, 0x00, 0, 0, 0, 1, 0, 0, 0, 0];
    data.extend_from_slice(&[1, b'x', 0, 0, 99, 0, 1, 0, 0, 0, 9, 0, 5, 0xDE, 0xAD, 0xBE, 0xEF, 0x00]);
    let packet = parse(&data).unwrap();
    assert_eq!(
        vec![DNSRecord {
            name: "x.".to_owned(),
            rtype: 99,
            class: 1,
            ttl: 9,
            len: 5,
            record: DNSRecordData::Unknown(DNSUnknownRecord {
                data: vec![0xDE, 0xAD, 0xBE, 0xEF, 0x00]
            }),
        }],
        packet.answers
    );
    assert_eq!(Ok(data), packet.serialize());
}

#[test]
fn header_needs_twelve_bytes() {
    for len in 0..12 {
        assert_eq!(Err(DNSError::ShortBuffer), DNSHeader::parse(&QUERY[..len]));
        assert_eq!(Err(DNSError::ShortBuffer), parse(&QUERY[..len]));
    }
    assert!(DNSHeader::parse(&QUERY[..12]).is_ok());
}

#[test]
fn header_bits_are_read_big_endian() {
    let data = [0x01, 0x02, 0xFD, 0xA7, 0x00, 0x03, 0x04, 0x00, 0xFF, 0xFE, 0x00, 0x00];
    let (h, taken) = DNSHeader::parse(&data).unwrap();
    assert_eq!(12, taken);
    assert_eq!(
        DNSHeader {
            id: 0x0102,
            qr: DNSHeaderType::Response,
            opcode: 15,
            aa: true,
            tc: false,
            rd: true,
            ra: true,
            z: 2,
            rcode: ResultCode::Unknown,
            qdcount: 3,
            ancount: 0x0400,
            nscount: 0xFFFE,
            arcount: 0,
        },
        h
    );
}

#[test]
fn header_serializes_to_its_twelve_bytes() {
    let h = DNSHeader {
        id: 0xBEEF,
        qr: DNSHeaderType::Response,
        opcode: 2,
        aa: true,
        tc: true,
        rd: false,
        ra: true,
        z: 5,
        rcode: ResultCode::Refused,
        qdcount: 1,
        ancount: 0x0203,
        nscount: 0,
        arcount: 0xFFFF,
    };
    let bytes = h.serialize();
    assert_eq!(vec![0xBE, 0xEF, 0x96, 0xD5, 0, 1, 2, 3, 0, 0, 0xFF, 0xFF], bytes);
    assert_eq!(Ok((h, 12)), DNSHeader::parse(&bytes));
}

#[test]
fn reserved_code_reads_back_as_reserved() {
    let mut h = header(3);
    h.rcode = ResultCode::Unknown;
    let bytes = h.serialize();
    assert_eq!(0x86, bytes[3]);
    assert_eq!(Ok((h, 12)), DNSHeader::parse(&bytes));
}

#[test]
fn header_writes_only_the_bits_of_a_field() {
    let mut h = header(1);
    h.qr = DNSHeaderType::Query;
    h.rd = false;
    h.ra = false;
    h.opcode = 0xFF;
    h.z = 0xFF;
    assert_eq!(vec![0, 1, 0x78, 0x70, 0, 0, 0, 0, 0, 0, 0, 0], h.serialize());
}

#[test]
fn result_codes_and_their_numbers() {
    let codes = [
        (0usize, ResultCode::NoError),
        (1, ResultCode::FormatError),
        (2, ResultCode::ServerFailure),
        (3, ResultCode::NameError),
        (4, ResultCode::NotImplemented),
        (5, ResultCode::Refused),
    ];
    for (number, code) in codes {
        assert_eq!(code, ResultCode::from(number));
        assert_eq!(number, code.into());
    }
    for number in 6..=15usize {
        assert_eq!(ResultCode::Unknown, ResultCode::from(number));
    }
    assert_eq!(6, ResultCode::Unknown.into());
    assert_eq!(0, DNSHeaderType::Query.into());
    assert_eq!(1, DNSHeaderType::Response.into());
    assert_eq!(DNSHeaderType::Query, DNSHeaderType::from(0));
    assert_eq!(DNSHeaderType::Response, DNSHeaderType::from(1));
}

#[test]
fn question_parser_reads_name_type_and_class() {
    let parser = DNSQuestionParser::new(QUERY);
    assert_eq!(
        Ok((DNSQuestion { name: "google.com.".to_owned(), rtype: 1, class: 1 }, 16)),
        parser.parse_question(12)
    );
    assert_eq!(Ok((vec![], 0)), parser.parse(0, 12));
    assert_eq!(Err(DNSError::ShortBuffer), parser.parse(2, 12));
    assert_eq!(Err(DNSError::ShortBuffer), DNSQuestionParser::new(&QUERY[..27]).parse(1, 12));
}

#[test]
fn question_serializer_compresses_across_questions() {
    let questions = [
        DNSQuestion { name: "a.example.".to_owned(), rtype: 1, class: 1 },
        DNSQuestion { name: "b.example.".to_owned(), rtype: 28, class: 255 },
    ];
    let mut map = LabelPtrMap::new();
    let bytes = DNSQuestionSerializer::new(&questions, &mut map, 12).serialize().unwrap();
    let mut expected = vec![1, b'a', 7, b'e', b'x', b'a', b'm', b'p', b'l', b'e', 0, 0, 1, 0, 1];
    expected.extend_from_slice(&[1, b'b', 0xC0, 14, 0, 28, 0, 255]);
    assert_eq!(expected, bytes);
    assert_eq!(Some(12), map.get("a.example."));
    assert_eq!(Some(14), map.get("example."));
    assert_eq!(Some(27), map.get("b.example."));
}

#[test]
fn question_serializer_reports_the_fault_of_a_name() {
    let questions = [
        DNSQuestion { name: "ok.".to_owned(), rtype: 1, class: 1 },
        DNSQuestion { name: format!("{}.", "x".repeat(64)), rtype: 1, class: 1 },
    ];
    let mut map = LabelPtrMap::new();
    assert_eq!(
        Err(DNSError::LabelTooLong),
        DNSQuestionSerializer::new(&questions, &mut map, 12).serialize()
    );
    assert_eq!(Some(12), map.get("ok."));
}

fn full_packet() -> DNSPacket {
    let mut h = header(0xABCD);
    h.aa = true;
    h.qdcount = 1;
    h.ancount = 3;
    h.nscount = 2;
    h.arcount = 3;
    DNSPacket {
        header: h,
        questions: vec![DNSQuestion { name: "www.example.com.".to_owned(), rtype: 255, class: 1 }],
        answers: vec![
            record(
                "www.example.com.",
                5,
                6,
                DNSRecordData::CNAME(DNSCNameRecord { cname: "web.example.com.".to_owned() }),
            ),
            record("web.example.com.", 1, 4, DNSRecordData::A(DNSARecord { ip: [192, 0, 2, 1] })),
            record(
                "web.example.com.",
                28,
                16,
                DNSRecordData::AAAA(DNSAAAARecord {
                    ip: [0x20, 0x01, 0x0d, 0xb8, 0, 0, 0, 0, 0, 0, 0, 0, 0, 0, 0, 1],
                }),
            ),
        ],
        authority: vec![
            record(
                "example.com.",
                2,
                6,
                DNSRecordData::NS(DNSNSRecord { nsdname: "ns1.example.com.".to_owned() }),
            ),
            record(
                "example.com.",
                6,
                35,
                DNSRecordData::SOA(DNSSOARecord {
                    mname: "ns1.example.com.".to_owned(),
                    rname: "hostmaster.example.com.".to_owned(),
                    serial: 2024051501,
                    refresh: 86400,
                    retry: 7200,
                    expire: 3600000,
                    minimum: 172800,
                }),
            ),
        ],
        additional: vec![
            record(
                "example.com.",
                15,
                9,
                DNSRecordData::MX(DNSMXRecord { preference: 10, exchange: "mail.example.com.".to_owned() }),
            ),
            record(
                "example.com.",
                16,
                13,
                DNSRecordData::TXT(DNSTXTRecord { segments: vec![b"v=spf1 -all".to_vec(), vec![]] }),
            ),
            record(".", 41, 4, DNSRecordData::Unknown(DNSUnknownRecord { data: vec![0, 10, 0, 0] })),
        ],
    }
}

#[test]
fn written_packet_reads_back_as_itself() {
    let packet = full_packet();
    let bytes = packet.serialize().unwrap();
    assert_eq!(Ok(packet), parse(&bytes));
}

#[test]
fn bytes_of_a_parsed_packet_stay_the_same() {
    let bytes = full_packet().serialize().unwrap();
    let parsed = parse(&bytes).unwrap();
    let again = parsed.serialize().unwrap();
    assert_eq!(bytes, again);
    assert_eq!(Ok(parsed), parse(&again));
}

#[test]
fn counts_and_lengths_are_written_as_they_are() {
    let mut packet = full_packet();
    let canonical = packet.clone();
    packet.header.qdcount = 9;
    packet.header.ancount = 0;
    packet.header.arcount = 77;
    packet.answers[0].len = 1000;
    packet.authority[1].len = 0;
    let bytes = packet.serialize().unwrap();
    assert_eq!(canonical.serialize().unwrap(), bytes);
    assert_eq!(Ok(canonical), parse(&bytes));
}

#[test]
fn parsed_counts_are_the_section_lengths() {
    for data in [QUERY.to_vec(), RESPONSE.to_vec(), full_packet().serialize().unwrap()] {
        let packet = parse(&data).unwrap();
        assert_eq!(packet.header.qdcount as usize, packet.questions.len());
        assert_eq!(packet.header.ancount as usize, packet.answers.len());
        assert_eq!(packet.header.nscount as usize, packet.authority.len());
        assert_eq!(packet.header.arcount as usize, packet.additional.len());
    }
}

#[test]
fn bytes_behind_the_sections_are_not_looked_at() {
    let mut data = RESPONSE.to_vec();
    let expected = parse(&data);
    data.extend_from_slice(&[0xFF, 0x40, 0xC0]);
    assert_eq!(expected, parse(&data));
}

#[test]
fn pointers_reach_back_into_earlier_sections() {
    let bytes = full_packet().serialize().unwrap();
    // "www.example.com." of the first answer is the name of the question
    let answer_at = 12 + 17 + 4;
    assert_eq!([0xC0, 12], bytes[answer_at..answer_at + 2]);
    // the data of the CNAME is "web" and a pointer to "example.com." at 16
    let rdata_at = answer_at + 2 + 10;
    assert_eq!([3, b'w', b'e', b'b', 0xC0, 16], bytes[rdata_at..rdata_at + 6]);
    assert_eq!([0, 6], bytes[rdata_at - 2..rdata_at]);
}

#[test]
fn uncompressed_packet_is_read_and_written_compressed() {
    let mut data = vec![0, 1, 0x81, 0x80, 0, 1, 0, 1, 0, 0, 0, 0];
    data.extend_from_slice(&[1, b'a', 0, 0, 2, 0, 1]);
    data.extend_from_slice(&[1, b'a', 0, 0, 2, 0, 1, 0, 0, 0, 5, 0, 3, 1, b'a', 0]);
    let parsed = parse(&data).unwrap();
    assert_eq!(3, parsed.answers[0].len);
    let written = parsed.serialize().unwrap();
    let reparsed = parse(&written).unwrap();
    assert_eq!(2, reparsed.answers[0].len);
    assert_eq!(parsed.answers[0].record, reparsed.answers[0].record);
    assert_eq!(Ok(written.clone()), reparsed.serialize());
    assert_eq!(Ok(reparsed), parse(&written));
}

#[test]
fn packet_with_a_faulty_name_is_not_written() {
    let mut packet = full_packet();
    packet.additional[0].name = "example.com".to_owned();
    assert_eq!(Err(DNSError::MalformedName), packet.serialize());
    let mut packet = full_packet();
    packet.questions[0].name = format!("{}.com.", "w".repeat(64));
    assert_eq!(Err(DNSError::LabelTooLong), packet.serialize());
}

#[test]
fn truncated_packets_are_short() {
    let bytes = full_packet().serialize().unwrap();
    for cut in [11, 12, 20, 40, bytes.len() - 1] {
        assert_eq!(Err(DNSError::ShortBuffer), parse(&bytes[..cut]), "cut at {}", cut);
    }
}

#[test]
fn section_parsers_move_behind_what_they_read() {
    let mut parser = DNSPacketParser::new(RESPONSE);
    assert_eq!(0, parser.ptr);
    let h = parser.parse_header().unwrap();
    assert_eq!(12, parser.ptr);
    let questions = parser.parse_questions(h.qdcount as usize).unwrap();
    assert_eq!(28, parser.ptr);
    assert_eq!(1, questions.len());
    let answers = parser.parse_records(h.ancount as usize).unwrap();
    assert_eq!(RESPONSE.len(), parser.ptr);
    assert_eq!(1, answers.len());
    assert_eq!(Ok(vec![]), parser.parse_records(0));
    assert_eq!(Err(DNSError::ShortBuffer), parser.parse_records(1));
    assert_eq!(RESPONSE.len(), parser.ptr);
}

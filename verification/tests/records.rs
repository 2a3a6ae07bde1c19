use dns_resolver::parser::{
    DNSAAAARecord, DNSARecord, DNSCNameRecord, DNSError, DNSMXRecord, DNSNSRecord, DNSRecord,
    DNSRecordData, DNSRecordPack, DNSRecordSerializer, DNSRecordsParser, DNSSOARecord,
    DNSTXTRecord, DNSUnknownRecord, LabelPtrMap,
};

fn record_bytes(name: &[u8], rtype: u16, rdata: &[u8]) -> Vec<u8> {
    let mut data = name.to_vec();
    data.extend_from_slice(&rtype.to_be_bytes());
    data.extend_from_slice(&[0, 1]);
    data.extend_from_slice(&[0, 0, 0x0E, 0x10]);
    data.extend_from_slice(&(rdata.len() as u16).to_be_bytes());
    data.extend_from_slice(rdata);
    data
}

fn parse_one(data: &[u8]) -> Result<(Vec<DNSRecord>, usize), DNSError> {
    DNSRecordsParser::new(data).parse(1, 0)
}

fn record(name: &str, rtype: u16, len: u16, record: DNSRecordData) -> DNSRecord {
    DNSRecord { name: name.to_owned(), rtype, class: 1, ttl: 3600, len, record }
}

#[test]
fn record_type_numbers() {
    assert_eq!(1, DNSARecord::RTYPE);
    assert_eq!(2, DNSNSRecord::RTYPE);
    assert_eq!(5, DNSCNameRecord::RTYPE);
    assert_eq!(6, DNSSOARecord::RTYPE);
    assert_eq!(15, DNSMXRecord::RTYPE);
    assert_eq!(16, DNSTXTRecord::RTYPE);
    assert_eq!(28, DNSAAAARecord::RTYPE);
}

#[test]
fn parses_a_record_fields() {
    let data = record_bytes(&[1, b'a', 0], 1, &[10, 0, 0, 1]);
    let (records, taken) = parse_one(&data).unwrap();
    assert_eq!(data.len(), taken);
    assert_eq!(
        vec![record("a.", 1, 4, DNSRecordData::A(DNSARecord { ip: [10, 0, 0, 1] }))],
        records
    );
}

#[test]
fn a_record_needs_four_bytes() {
    let data = record_bytes(&[0], 1, &[10, 0, 0]);
    assert_eq!(Err(DNSError::InvalidRdataLength), parse_one(&data));
    let data = record_bytes(&[0], 1, &[10, 0, 0, 1, 2]);
    assert_eq!(Err(DNSError::InvalidRdataLength), parse_one(&data));
}

#[test]
fn aaaa_record_needs_sixteen_bytes() {
    let ip = [0x20, 0x01, 0x0d, 0xb8, 0, 0, 0, 0, 0, 0, 0, 0, 0, 0, 0, 1];
    let data = record_bytes(&[0], 28, &ip);
    let (records, _) = parse_one(&data).unwrap();
    assert_eq!(vec![record(".", 28, 16, DNSRecordData::AAAA(DNSAAAARecord { ip }))], records);
    let data = record_bytes(&[0], 28, &ip[..12]);
    assert_eq!(Err(DNSError::InvalidRdataLength), parse_one(&data));
}

#[test]
fn parses_ns_and_cname_records() {
    let data = record_bytes(&[3, b'c', b'o', b'm', 0], 2, &[2, b'n', b's', 0xC0, 0]);
    let (records, _) = parse_one(&data).unwrap();
    assert_eq!(
        vec![record("com.", 2, 5, DNSRecordData::NS(DNSNSRecord { nsdname: "ns.com.".to_owned() }))],
        records
    );
    let data = record_bytes(&[3, b'c', b'o', b'm', 0], 5, &[1, b'w', 0xC0, 0]);
    let (records, _) = parse_one(&data).unwrap();
    assert_eq!(
        vec![record("com.", 5, 4, DNSRecordData::CNAME(DNSCNameRecord { cname: "w.com.".to_owned() }))],
        records
    );
}

#[test]
fn parses_mx_record() {
    let data = record_bytes(&[3, b'c', b'o', b'm', 0], 15, &[0, 10, 4, b'm', b'a', b'i', b'l', 0xC0, 0]);
    let (records, _) = parse_one(&data).unwrap();
    assert_eq!(
        vec![record(
            "com.",
            15,
            9,
            DNSRecordData::MX(DNSMXRecord { preference: 10, exchange: "mail.com.".to_owned() })
        )],
        records
    );
}

#[test]
fn parses_soa_record() {
    let mut rdata = vec![2, b'n', b's', 0xC0, 0, 5, b'a', b'd', b'm', b'i', b'n', 0xC0, 0];
    for n in [2024010101u32, 7200, 3600, 1209600, 300] {
        rdata.extend_from_slice(&n.to_be_bytes());
    }
    let data = record_bytes(&[3, b'c', b'o', b'm', 0], 6, &rdata);
    let (records, taken) = parse_one(&data).unwrap();
    assert_eq!(data.len(), taken);
    assert_eq!(
        vec![record(
            "com.",
            6,
            33,
            DNSRecordData::SOA(DNSSOARecord {
                mname: "ns.com.".to_owned(),
                rname: "admin.com.".to_owned(),
                serial: 2024010101,
                refresh: 7200,
                retry: 3600,
                expire: 1209600,
                minimum: 300,
            })
        )],
        records
    );
}

#[test]
fn parses_txt_segments() {
    let data = record_bytes(&[0], 16, &[3, b'a', b'b', b'c', 0, 2, 0xFF, 0x00]);
    let (records, _) = parse_one(&data).unwrap();
    assert_eq!(
        vec![record(
            ".",
            16,
            8,
            DNSRecordData::TXT(DNSTXTRecord {
                segments: vec![b"abc".to_vec(), vec![], vec![0xFF, 0x00]]
            })
        )],
        records
    );
    let data = record_bytes(&[0], 16, &[]);
    let (records, _) = parse_one(&data).unwrap();
    assert_eq!(
        vec![record(".", 16, 0, DNSRecordData::TXT(DNSTXTRecord { segments: vec![] }))],
        records
    );
}

#[test]
fn txt_segment_must_end_within_the_data() {
    let data = record_bytes(&[0], 16, &[4, b'a', b'b', b'c']);
    assert_eq!(Err(DNSError::ShortBuffer), parse_one(&data));
}

#[test]
fn unknown_type_keeps_its_bytes() {
    let data = record_bytes(&[0], 99, &[1, 2, 3, 4, 5]);
    let (records, taken) = parse_one(&data).unwrap();
    assert_eq!(data.len(), taken);
    let expected =
        record(".", 99, 5, DNSRecordData::Unknown(DNSUnknownRecord { data: vec![1, 2, 3, 4, 5] }));
    assert_eq!(vec![expected.clone()], records);
    let mut map = LabelPtrMap::new();
    let written = DNSRecordSerializer::new(&records, &mut map, 0).serialize().unwrap();
    assert_eq!(data, written);
}

#[test]
fn unknown_type_of_no_bytes() {
    let data = record_bytes(&[0], 0, &[]);
    let (records, _) = parse_one(&data).unwrap();
    assert_eq!(
        vec![record(".", 0, 0, DNSRecordData::Unknown(DNSUnknownRecord { data: vec![] }))],
        records
    );
}

#[test]
fn record_header_and_data_must_fit_the_buffer() {
    let data = record_bytes(&[0], 99, &[1, 2, 3, 4, 5]);
    for cut in 1..data.len() {
        assert_eq!(Err(DNSError::ShortBuffer), parse_one(&data[..cut]), "cut at {}", cut);
    }
    let data = record_bytes(&[0], 1, &[1, 2, 3, 4]);
    assert_eq!(Err(DNSError::ShortBuffer), parse_one(&data[..data.len() - 1]));
}

#[test]
fn name_in_data_must_end_within_the_data() {
    // the length says 2, the name takes 4
    let mut data = record_bytes(&[0], 2, &[2, b'n']);
    data.extend_from_slice(&[b's', 0]);
    assert_eq!(Err(DNSError::ShortBuffer), parse_one(&data));
    let data = record_bytes(&[0], 15, &[0]);
    assert_eq!(Err(DNSError::ShortBuffer), parse_one(&data));
    let data = record_bytes(&[0], 6, &[0, 0, 0, 0, 0, 1]);
    assert_eq!(Err(DNSError::ShortBuffer), parse_one(&data));
}

#[test]
fn malformed_name_in_data_is_reported() {
    let data = record_bytes(&[0], 2, &[0x80, 0]);
    assert_eq!(Err(DNSError::MalformedName), parse_one(&data));
    let data = record_bytes(&[0x40], 1, &[1, 2, 3, 4]);
    assert_eq!(Err(DNSError::MalformedName), parse_one(&data));
}

#[test]
fn parses_records_one_behind_the_other() {
    let mut data = record_bytes(&[1, b'a', 0], 1, &[1, 1, 1, 1]);
    let second_at = data.len();
    data.extend_from_slice(&record_bytes(&[1, b'b', 0xC0, 0], 1, &[2, 2, 2, 2]));
    let (records, taken) = DNSRecordsParser::new(&data).parse(2, 0).unwrap();
    assert_eq!(data.len(), taken);
    assert_eq!("a.", records[0].name);
    assert_eq!("b.a.", records[1].name);
    let (records, taken) = DNSRecordsParser::new(&data).parse(1, second_at).unwrap();
    assert_eq!(data.len() - second_at, taken);
    assert_eq!(1, records.len());
    assert_eq!(Ok((vec![], 0)), DNSRecordsParser::new(&data).parse(0, 3));
    assert_eq!(Err(DNSError::ShortBuffer), DNSRecordsParser::new(&data).parse(3, 0));
}

#[test]
fn written_length_is_that_of_the_data_written() {
    // the record holds a stale length; the name in the data is compressed
    let stale = record("com.", 2, 999, DNSRecordData::NS(DNSNSRecord { nsdname: "ns.com.".to_owned() }));
    let mut map = LabelPtrMap::new();
    let written = DNSRecordSerializer::new(&[stale], &mut map, 0).serialize().unwrap();
    assert_eq!(record_bytes(&[3, b'c', b'o', b'm', 0], 2, &[2, b'n', b's', 0xC0, 0]), written);
}

#[test]
fn serializes_each_variant() {
    let mut map = LabelPtrMap::new();
    let a = DNSRecordData::A(DNSARecord { ip: [1, 2, 3, 4] });
    assert_eq!(Ok(vec![1, 2, 3, 4]), a.serialize(&mut map, 0));
    let ip = [9u8; 16];
    assert_eq!(Ok(ip.to_vec()), DNSRecordData::AAAA(DNSAAAARecord { ip }).serialize(&mut map, 0));
    let unknown = DNSRecordData::Unknown(DNSUnknownRecord { data: vec![7, 8] });
    assert_eq!(Ok(vec![7, 8]), unknown.serialize(&mut map, 0));
    let txt = DNSRecordData::TXT(DNSTXTRecord { segments: vec![b"hi".to_vec(), vec![]] });
    assert_eq!(Ok(vec![2, b'h', b'i', 0]), txt.serialize(&mut map, 0));
    let mx = DNSRecordData::MX(DNSMXRecord { preference: 0x0102, exchange: "m.".to_owned() });
    assert_eq!(Ok(vec![1, 2, 1, b'm', 0]), mx.serialize(&mut map, 10));
    assert_eq!(Some(12), map.get("m."));
    let ns = DNSRecordData::NS(DNSNSRecord { nsdname: "m.".to_owned() });
    assert_eq!(Ok(vec![0xC0, 12]), ns.serialize(&mut map, 20));
    let cname = DNSRecordData::CNAME(DNSCNameRecord { cname: "c.m.".to_owned() });
    assert_eq!(Ok(vec![1, b'c', 0xC0, 12]), cname.serialize(&mut map, 30));
    let soa = DNSRecordData::SOA(DNSSOARecord {
        mname: "p.".to_owned(),
        rname: "r.p.".to_owned(),
        serial: 1,
        refresh: 2,
        retry: 3,
        expire: 4,
        minimum: 0x01020304,
    });
    assert_eq!(
        Ok(vec![
            1, b'p', 0, 1, b'r', 0xC0, 40, 0, 0, 0, 1, 0, 0, 0, 2, 0, 0, 0, 3, 0, 0, 0, 4, 1, 2,
            3, 4
        ]),
        soa.serialize(&mut map, 40)
    );
}

#[test]
fn record_pack_parses_and_serializes_by_type() {
    let data = [0xAA, 1, 2, 3, 4, 0xBB];
    let a = DNSARecord::parse(&data, 1, 4).unwrap();
    assert_eq!(DNSARecord { ip: [1, 2, 3, 4] }, a);
    assert_eq!(Err(DNSError::ShortBuffer), DNSARecord::parse(&data, 3, 4));
    assert_eq!(Err(DNSError::ShortBuffer), DNSUnknownRecord::parse(&data, usize::MAX, 2));
    assert_eq!(Ok(DNSUnknownRecord { data: vec![3, 4, 0xBB] }), DNSUnknownRecord::parse(&data, 3, 3));
    let mut map = LabelPtrMap::new();
    assert_eq!(Ok(vec![1, 2, 3, 4]), a.serialize(&mut map, 0));
}

#[test]
fn txt_segment_of_more_than_255_bytes_is_refused() {
    let mut map = LabelPtrMap::new();
    let ok = DNSTXTRecord { segments: vec![vec![b'x'; 255]] };
    assert_eq!(256, ok.serialize(&mut map, 0).unwrap().len());
    let too_long = DNSTXTRecord { segments: vec![vec![], vec![b'x'; 256]] };
    assert_eq!(Err(DNSError::InvalidRdataLength), too_long.serialize(&mut map, 0));
}

#[test]
fn data_of_more_than_65535_bytes_is_refused() {
    let fits = record(".", 99, 0, DNSRecordData::Unknown(DNSUnknownRecord { data: vec![0; 65535] }));
    let mut map = LabelPtrMap::new();
    let written = DNSRecordSerializer::new(&[fits], &mut map, 0).serialize().unwrap();
    assert_eq!(1 + 10 + 65535, written.len());
    assert_eq!([0xFF, 0xFF], written[9..11]);
    let big = record(".", 99, 0, DNSRecordData::Unknown(DNSUnknownRecord { data: vec![0; 65536] }));
    assert_eq!(
        Err(DNSError::InvalidRdataLength),
        DNSRecordSerializer::new(&[big], &mut map, 0).serialize()
    );
}

#[test]
fn fault_in_a_name_stops_the_section() {
    let good = record("a.", 1, 4, DNSRecordData::A(DNSARecord { ip: [1, 1, 1, 1] }));
    let bad = record("b", 1, 4, DNSRecordData::A(DNSARecord { ip: [1, 1, 1, 1] }));
    let bad_data = record("c.", 2, 0, DNSRecordData::NS(DNSNSRecord { nsdname: "x..".to_owned() }));
    let mut map = LabelPtrMap::new();
    assert_eq!(
        Err(DNSError::MalformedName),
        DNSRecordSerializer::new(&[good.clone(), bad], &mut map, 0).serialize()
    );
    assert_eq!(Some(0), map.get("a."));
    let mut map = LabelPtrMap::new();
    assert_eq!(
        Err(DNSError::MalformedName),
        DNSRecordSerializer::new(&[good, bad_data], &mut map, 0).serialize()
    );
    assert_eq!(Some(17), map.get("c."));
}

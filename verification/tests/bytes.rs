use dns_resolver::parser::common::{
    advance, push_all, push_range, push_u16, push_u32, read_u16, read_u32,
};
use dns_resolver::parser::record::{parse_name_within, serialize_record};
use dns_resolver::parser::{
    DNSARecord, DNSError, DNSNSRecord, DNSRecord, DNSRecordData, DNSRecordsParser, LabelPtrMap,
};
use dns_resolver::server::lookup::{ends_with, first_address, first_glue, first_ns};

#[test]
fn numbers_are_read_big_endian() {
    let data = [0x12, 0x34, 0x56, 0x78, 0x9A];
    assert_eq!(0x1234, read_u16(&data, 0));
    assert_eq!(0x789A, read_u16(&data, 3));
    assert_eq!(0x12345678, read_u32(&data, 0));
    assert_eq!(0x3456789A, read_u32(&data, 1));
    assert_eq!(0xFFFF, read_u16(&[0xFF, 0xFF], 0));
    assert_eq!(0xFFFFFFFF, read_u32(&[0xFF, 0xFF, 0xFF, 0xFF], 0));
}

#[test]
fn numbers_are_written_big_endian() {
    let mut out = vec![9];
    push_u16(&mut out, 0x0102);
    push_u32(&mut out, 0x0A0B0C0D);
    push_u16(&mut out, 0xFFFE);
    assert_eq!(vec![9, 1, 2, 0x0A, 0x0B, 0x0C, 0x0D, 0xFF, 0xFE], out);
}

#[test]
fn bytes_are_appended() {
    let mut out = vec![1];
    push_range(&mut out, &[10, 11, 12, 13], 1, 3);
    push_range(&mut out, &[10, 11], 2, 2);
    push_all(&mut out, &[20, 21]);
    assert_eq!(vec![1, 11, 12, 20, 21], out);
}

#[test]
fn offsets_advance_without_overflow() {
    assert_eq!(15, advance(12, 3));
    assert_eq!(usize::MAX, advance(usize::MAX - 1, 1));
    assert_eq!(usize::MAX, advance(usize::MAX - 1, 2));
    assert_eq!(usize::MAX, advance(usize::MAX, usize::MAX));
}

#[test]
fn name_may_not_run_beyond_its_bytes() {
    let data = [1, b'a', 0, 0xC0, 0];
    assert_eq!(Ok(("a.".to_owned(), 3)), parse_name_within(&data, 0, 3));
    assert_eq!(Ok(("a.".to_owned(), 3)), parse_name_within(&data, 0, 9));
    assert_eq!(Err(DNSError::ShortBuffer), parse_name_within(&data, 0, 2));
    assert_eq!(Ok(("a.".to_owned(), 2)), parse_name_within(&data, 3, 2));
    assert_eq!(Err(DNSError::ShortBuffer), parse_name_within(&data, 3, 1));
}

#[test]
fn one_record_is_written_and_read() {
    let record = DNSRecord {
        name: "a.".to_owned(),
        rtype: 1,
        class: 3,
        ttl: 0x01020304,
        len: 0,
        record: DNSRecordData::A(DNSARecord { ip: [4, 3, 2, 1] }),
    };
    let mut map = LabelPtrMap::new();
    let bytes = serialize_record(&record, &mut map, 0).unwrap();
    assert_eq!(vec![1, b'a', 0, 0, 1, 0, 3, 1, 2, 3, 4, 0, 4, 4, 3, 2, 1], bytes);
    let parser = DNSRecordsParser::new(&bytes);
    let (read, taken) = parser.parse_record(0).unwrap();
    assert_eq!(17, taken);
    assert_eq!(DNSRecord { len: 4, ..record }, read);
    assert_eq!(
        Ok((DNSRecordData::A(DNSARecord { ip: [4, 3, 2, 1] }), 4)),
        parser.parse_record_data(1, 4, 13)
    );
    assert_eq!(Err(DNSError::InvalidRdataLength), parser.parse_record_data(1, 3, 13));
    assert_eq!(Err(DNSError::ShortBuffer), parser.parse_record_data(99, 5, 13));
}

#[test]
fn suffix_is_compared_byte_by_byte() {
    assert!(ends_with(b"www.example.", b"example."));
    assert!(ends_with(b"www.example.", b""));
    assert!(ends_with(b"www.example.", b"www.example."));
    assert!(!ends_with(b"www.example.", b"xwww.example."));
    assert!(!ends_with(b"www.example.", b"exbmple."));
    assert!(!ends_with(b"", b"."));
}

fn record(name: &str, data: DNSRecordData) -> DNSRecord {
    DNSRecord { name: name.to_owned(), rtype: 0, class: 1, ttl: 0, len: 0, record: data }
}

#[test]
fn first_matching_record_is_found() {
    let records = vec![
        record("x.", DNSRecordData::NS(DNSNSRecord { nsdname: "ns.x.".to_owned() })),
        record("b.", DNSRecordData::A(DNSARecord { ip: [1, 1, 1, 1] })),
        record("a.", DNSRecordData::NS(DNSNSRecord { nsdname: "ns1.a.".to_owned() })),
        record("a.", DNSRecordData::A(DNSARecord { ip: [2, 2, 2, 2] })),
        record("a.", DNSRecordData::NS(DNSNSRecord { nsdname: "ns2.a.".to_owned() })),
        record("a.", DNSRecordData::A(DNSARecord { ip: [3, 3, 3, 3] })),
    ];
    assert_eq!(Some("ns1.a.".to_owned()), first_ns("www.a.", &records));
    assert_eq!(Some("ns.x.".to_owned()), first_ns("x.", &records));
    assert_eq!(None, first_ns("www.c.", &records));
    assert_eq!(Some([2, 2, 2, 2]), first_glue(&"a.".to_owned(), &records));
    assert_eq!(None, first_glue(&"x.".to_owned(), &records));
    assert_eq!(Some([1, 1, 1, 1]), first_address(&records));
    assert_eq!(None, first_address(&records[..1]));
    assert_eq!(None, first_address(&[]));
}

use dns_resolver::parser::{DNSError, DomainNameLabel, LabelPtrMap};

fn encode(name: &str) -> Result<Vec<u8>, DNSError> {
    let mut map = LabelPtrMap::new();
    DomainNameLabel::serialize(name, &mut map, 0)
}

#[test]
fn decodes_plain_name() {
    let data = [3, b'w', b'w', b'w', 7, b'e', b'x', b'a', b'm', b'p', b'l', b'e', 3, b'c', b'o', b'm', 0];
    let (name, taken) = DomainNameLabel::parse(&data, 0).unwrap();
    assert_eq!("www.example.com.", name);
    assert_eq!(17, taken);
}

#[test]
fn decodes_root_as_single_dot() {
    let data = [0u8];
    assert_eq!(Ok((".".to_owned(), 1)), DomainNameLabel::parse(&data, 0));
}

#[test]
fn decoded_names_end_with_a_dot() {
    let data = [1, b'a', 0, 1, b'b', 0xC0, 0x00, 0];
    for pos in [0usize, 2, 3, 7] {
        let (name, _) = DomainNameLabel::parse(&data, pos).unwrap();
        assert!(name.ends_with('.'));
    }
    assert_eq!(Ok(("b.a.".to_owned(), 4)), DomainNameLabel::parse(&data, 3));
}

#[test]
fn pointer_counts_as_two_bytes() {
    // offset 0: "example.com.", offset 13: "api" + pointer to 0
    let mut data = vec![7, b'e', b'x', b'a', b'm', b'p', b'l', b'e', 3, b'c', b'o', b'm', 0];
    data.extend_from_slice(&[3, b'a', b'p', b'i', 0xC0, 0x00]);
    let (name, taken) = DomainNameLabel::parse(&data, 13).unwrap();
    assert_eq!("api.example.com.", name);
    assert_eq!(6, taken);
}

#[test]
fn pointer_uses_fourteen_bits() {
    let mut data = vec![0u8; 0x0234];
    data.extend_from_slice(&[1, b'x', 0]);
    data.extend_from_slice(&[0xC2, 0x34]);
    let at = 0x0234 + 3;
    assert_eq!(Ok(("x.".to_owned(), 2)), DomainNameLabel::parse(&data, at));
}

#[test]
fn rejects_reserved_label_prefixes() {
    assert_eq!(Err(DNSError::MalformedName), DomainNameLabel::parse(&[0x40, 0], 0));
    assert_eq!(Err(DNSError::MalformedName), DomainNameLabel::parse(&[0x80, 0], 0));
    assert_eq!(Err(DNSError::MalformedName), DomainNameLabel::parse(&[0xBF, 0], 0));
}

#[test]
fn rejects_pointer_outside_the_packet() {
    assert_eq!(Err(DNSError::MalformedName), DomainNameLabel::parse(&[0xC0, 0x02], 0));
    assert_eq!(Err(DNSError::MalformedName), DomainNameLabel::parse(&[0xFF, 0xFF, 0], 0));
}

#[test]
fn rejects_pointer_to_itself() {
    assert_eq!(Err(DNSError::MalformedName), DomainNameLabel::parse(&[0xC0, 0x00], 0));
}

#[test]
fn rejects_pointer_cycle() {
    let mut data = vec![0u8; 12];
    data.extend_from_slice(&[0xC0, 20]);
    data.extend_from_slice(&[0, 0, 0, 0, 0, 0]);
    data.extend_from_slice(&[0xC0, 12]);
    assert_eq!(Err(DNSError::MalformedName), DomainNameLabel::parse(&data, 20));
    assert_eq!(Err(DNSError::MalformedName), DomainNameLabel::parse(&data, 12));
}

#[test]
fn rejects_cycle_through_labels() {
    // a label at 0, then a pointer back to 0: the text would never end
    let data = [1, b'a', 0xC0, 0x00];
    assert_eq!(Err(DNSError::MalformedName), DomainNameLabel::parse(&data, 0));
}

#[test]
fn walk_takes_no_more_steps_than_the_packet_has_bytes() {
    // a chain of pointers, each to the one before, the first to the last
    let n = 50usize;
    let mut data = Vec::new();
    for i in 0..n {
        let target = if i == 0 { 2 * (n - 1) } else { 2 * (i - 1) };
        data.push(0xC0);
        data.push(target as u8);
    }
    let (result, steps) = DomainNameLabel::walk(&data, 0);
    assert_eq!(Err(DNSError::MalformedName), result);
    assert_eq!(n, steps);
    assert!(steps <= data.len());
}

#[test]
fn walk_counts_labels_and_pointers() {
    let data = [1, b'a', 0, 1, b'b', 0xC0, 0x00];
    let (result, steps) = DomainNameLabel::walk(&data, 3);
    assert_eq!(Ok(("b.a.".to_owned(), 4)), result);
    assert_eq!(3, steps);
}

#[test]
fn rejects_truncated_names() {
    assert_eq!(Err(DNSError::ShortBuffer), DomainNameLabel::parse(&[], 0));
    assert_eq!(Err(DNSError::ShortBuffer), DomainNameLabel::parse(&[0], 1));
    assert_eq!(Err(DNSError::ShortBuffer), DomainNameLabel::parse(&[3, b'a', b'b'], 0));
    assert_eq!(Err(DNSError::ShortBuffer), DomainNameLabel::parse(&[1, b'a'], 0));
    assert_eq!(Err(DNSError::ShortBuffer), DomainNameLabel::parse(&[0xC0], 0));
}

fn long_name(labels: usize, label_len: usize) -> Vec<u8> {
    let mut data = Vec::new();
    for _ in 0..labels {
        data.push(label_len as u8);
        for _ in 0..label_len {
            data.push(b'a');
        }
    }
    data.push(0);
    data
}

#[test]
fn accepts_name_of_255_bytes() {
    // 51 labels of 4 bytes and their dots: 255 bytes of text
    let data = long_name(51, 4);
    let (name, taken) = DomainNameLabel::parse(&data, 0).unwrap();
    assert_eq!(255, name.len());
    assert_eq!(data.len(), taken);
}

#[test]
fn rejects_name_of_more_than_255_bytes() {
    // 64 labels of 3 bytes and their dots: 256 bytes of text
    let data = long_name(64, 3);
    assert_eq!(Err(DNSError::MalformedName), DomainNameLabel::parse(&data, 0));
}

#[test]
fn reads_bytes_that_are_not_utf8_lossily() {
    let data = [2, 0xFF, b'a', 0];
    let (name, taken) = DomainNameLabel::parse(&data, 0).unwrap();
    assert_eq!("\u{FFFD}a.", name);
    assert_eq!(4, taken);
}

#[test]
fn reads_utf8_labels() {
    let data = [3, b'a', 0xC3, 0xA9, 0];
    assert_eq!(Ok(("a\u{e9}.".to_owned(), 5)), DomainNameLabel::parse(&data, 0));
}

#[test]
fn encodes_plain_name() {
    assert_eq!(
        Ok(vec![6, b'g', b'o', b'o', b'g', b'l', b'e', 3, b'c', b'o', b'm', 0]),
        encode("google.com."),
    );
}

#[test]
fn encodes_root_as_zero_byte() {
    assert_eq!(Ok(vec![0]), encode("."));
}

#[test]
fn encodes_utf8_name_by_its_bytes() {
    assert_eq!(Ok(vec![3, b'a', 0xC3, 0xA9, 0]), encode("a\u{e9}."));
}

#[test]
fn refuses_name_without_trailing_dot() {
    assert_eq!(Err(DNSError::MalformedName), encode("google.com"));
    assert_eq!(Err(DNSError::MalformedName), encode(""));
}

#[test]
fn refuses_empty_labels() {
    assert_eq!(Err(DNSError::MalformedName), encode("a..com."));
    assert_eq!(Err(DNSError::MalformedName), encode(".com."));
    assert_eq!(Err(DNSError::MalformedName), encode(".."));
}

#[test]
fn label_of_63_bytes_is_the_longest() {
    let ok = format!("{}.", "a".repeat(63));
    let bytes = encode(&ok).unwrap();
    assert_eq!(65, bytes.len());
    assert_eq!(63, bytes[0]);
    let too_long = format!("{}.com.", "a".repeat(64));
    assert_eq!(Err(DNSError::LabelTooLong), encode(&too_long));
}

#[test]
fn first_fault_from_the_left_decides() {
    let long_then_empty = format!("{}..", "a".repeat(64));
    assert_eq!(Err(DNSError::LabelTooLong), encode(&long_then_empty));
    let empty_then_long = format!("a..{}.", "a".repeat(64));
    assert_eq!(Err(DNSError::MalformedName), encode(&empty_then_long));
}

#[test]
fn refused_name_leaves_the_map_alone() {
    let mut map = LabelPtrMap::new();
    assert_eq!(Err(DNSError::MalformedName), DomainNameLabel::serialize("a.b..", &mut map, 12));
    assert_eq!(None, map.get("a.b.."));
    assert_eq!(None, map.get("b.."));
}

#[test]
fn records_every_suffix_at_its_offset() {
    let mut map = LabelPtrMap::new();
    DomainNameLabel::serialize("api.example.com.", &mut map, 12).unwrap();
    assert_eq!(Some(12), map.get("api.example.com."));
    assert_eq!(Some(16), map.get("example.com."));
    assert_eq!(Some(24), map.get("com."));
    assert_eq!(None, map.get("."));
    assert_eq!(None, map.get(""));
}

#[test]
fn known_suffix_becomes_a_pointer() {
    let mut map = LabelPtrMap::new();
    DomainNameLabel::serialize("example.com.", &mut map, 12).unwrap();
    let bytes = DomainNameLabel::serialize("api.example.com.", &mut map, 40).unwrap();
    assert_eq!(vec![3, b'a', b'p', b'i', 0xC0, 12], bytes);
    assert_eq!(Some(40), map.get("api.example.com."));
    assert_eq!(Some(12), map.get("example.com."));
    let again = DomainNameLabel::serialize("api.example.com.", &mut map, 60).unwrap();
    assert_eq!(vec![0xC0, 40], again);
}

#[test]
fn pointer_is_0xc000_or_offset() {
    let mut map = LabelPtrMap::new();
    DomainNameLabel::serialize("com.", &mut map, 0x1234).unwrap();
    assert_eq!(Ok(vec![0xD2, 0x34]), DomainNameLabel::serialize("com.", &mut map, 0x2000));
}

#[test]
fn first_offset_of_a_suffix_stays() {
    let mut map = LabelPtrMap::new();
    map.record("com.", 20);
    map.record("com.", 30);
    assert_eq!(Some(20), map.get("com."));
}

#[test]
fn offsets_beyond_fourteen_bits_are_not_recorded() {
    let mut map = LabelPtrMap::new();
    let bytes = DomainNameLabel::serialize("a.com.", &mut map, 0x3FFF).unwrap();
    assert_eq!(vec![1, b'a', 3, b'c', b'o', b'm', 0], bytes);
    assert_eq!(Some(0x3FFF), map.get("a.com."));
    assert_eq!(None, map.get("com."));
    map.record("org.", 0x4000);
    assert_eq!(None, map.get("org."));
    let far = DomainNameLabel::serialize("b.net.", &mut map, usize::MAX).unwrap();
    assert_eq!(vec![1, b'b', 3, b'n', b'e', b't', 0], far);
    assert_eq!(None, map.get("b.net."));
}

#[test]
fn written_name_reads_back_where_it_was_written() {
    let mut map = LabelPtrMap::new();
    let mut packet = vec![0u8; 12];
    for name in ["example.com.", "api.example.com.", ".", "com.", "x.api.example.com.", "a\u{e9}.example.com."] {
        let at = packet.len();
        let bytes = DomainNameLabel::serialize(name, &mut map, at).unwrap();
        packet.extend_from_slice(&bytes);
        assert_eq!(Ok((name.to_owned(), bytes.len())), DomainNameLabel::parse(&packet, at));
    }
    // every pointer leads to an earlier offset at which its suffix reads back
    for suffix in ["example.com.", "api.example.com.", "com.", "x.api.example.com."] {
        let offset = map.get(suffix).unwrap();
        assert!(offset < packet.len());
        assert_eq!(suffix, DomainNameLabel::parse(&packet, offset).unwrap().0);
    }
}

#[test]
fn name_of_more_than_255_bytes_is_written_but_not_read() {
    let label = "a".repeat(63);
    let name = format!("{0}.{0}.{0}.{0}.", label);
    assert_eq!(256, name.len());
    let bytes = encode(&name).unwrap();
    assert_eq!(257, bytes.len());
    assert_eq!(Err(DNSError::MalformedName), DomainNameLabel::parse(&bytes, 0));
}

#[test]
fn label_with_a_dot_inside_is_read_but_written_as_two() {
    let data = [3, b'a', b'.', b'b', 0];
    let (name, _) = DomainNameLabel::parse(&data, 0).unwrap();
    assert_eq!("a.b.", name);
    assert_eq!(Ok(vec![1, b'a', 1, b'b', 0]), encode(&name));
    let data = [1, b'.', 0];
    let (name, _) = DomainNameLabel::parse(&data, 0).unwrap();
    assert_eq!("..", name);
    assert_eq!(Err(DNSError::MalformedName), encode(&name));
}

use dns_codec::{DecodeError, DnsQuestion};

fn question(name: &str, qtype: u16, qclass: u16) -> DnsQuestion {
    DnsQuestion { qname: name.to_string(), qtype, qclass }
}

#[test]
fn test_dns_question_to_bytes() {
    let question = DnsQuestion {
        qname: "www.example.com".to_string(),
        qtype: 1,
        qclass: 1,
    };
    let bytes = question.to_bytes();
    assert_eq!(
        bytes,
        vec![
            0x03, 0x77, 0x77, 0x77, 0x07, 0x65, 0x78, 0x61, 0x6D, 0x70, 0x6C, 0x65, 0x03, 0x63,
            0x6F, 0x6D, 0x00, 0x00, 0x01, 0x00, 0x01
        ]
    );
}

#[test]
fn test_dns_question_from_bytes() {
    let bytes = vec![
        0x03, 0x77, 0x77, 0x77, 0x07, 0x65, 0x78, 0x61, 0x6D, 0x70, 0x6C, 0x65, 0x03, 0x63,
        0x6F, 0x6D, 0x00, 0x00, 0x01, 0x00, 0x01,
    ];
    let question = DnsQuestion::from_bytes(&bytes);
    assert_eq!(
        question,
        DnsQuestion {
            qname: "www.example.com".to_string(),
            qtype: 1,
            qclass: 1,
        }
    );
}

#[test]
fn question_type_and_class_are_big_endian() {
    assert_eq!(
        question("a", 0x0102, 0x0304).to_bytes(),
        vec![1, b'a', 0, 0x01, 0x02, 0x03, 0x04]
    );
}

#[test]
fn question_round_trip_over_the_type_range() {
    for qtype in 1u16..=16 {
        for name in ["a", "www.example.com", "é.example", "x.y.z.w"] {
            let q = question(name, qtype, 1);
            assert_eq!(DnsQuestion::from_bytes(&q.to_bytes()), q);
            assert_eq!(DnsQuestion::try_from_bytes(&q.to_bytes()), Ok(q));
        }
    }
}

#[test]
fn question_round_trip_ignores_what_follows() {
    let q = question("example.com", 15, 1);
    let mut bytes = q.to_bytes();
    bytes.extend_from_slice(&[1, 2, 3]);
    assert_eq!(DnsQuestion::from_bytes(&bytes), q);
}

#[test]
fn question_type_out_of_range_is_rejected() {
    assert_eq!(
        DnsQuestion::try_from_bytes(&question("a", 0, 1).to_bytes()),
        Err(DecodeError::InvalidType)
    );
    assert_eq!(
        DnsQuestion::try_from_bytes(&question("a", 17, 1).to_bytes()),
        Err(DecodeError::InvalidType)
    );
    assert_eq!(
        DnsQuestion::try_from_bytes(&question("a", 0x0100, 1).to_bytes()),
        Err(DecodeError::InvalidType)
    );
}

#[test]
fn question_class_other_than_internet_is_rejected() {
    assert_eq!(
        DnsQuestion::try_from_bytes(&question("a", 1, 0).to_bytes()),
        Err(DecodeError::InvalidClass)
    );
    assert_eq!(
        DnsQuestion::try_from_bytes(&question("a", 1, 2).to_bytes()),
        Err(DecodeError::InvalidClass)
    );
    assert_eq!(
        DnsQuestion::try_from_bytes(&question("a", 1, 0x0101).to_bytes()),
        Err(DecodeError::InvalidClass)
    );
}

#[test]
fn question_cut_short_is_rejected() {
    let bytes = question("a", 1, 1).to_bytes();
    assert_eq!(bytes.len(), 7);
    assert_eq!(DnsQuestion::try_from_bytes(&bytes[..6]), Err(DecodeError::Truncated));
    assert_eq!(DnsQuestion::try_from_bytes(&bytes[..5]), Err(DecodeError::Truncated));
    assert_eq!(DnsQuestion::try_from_bytes(&bytes[..4]), Err(DecodeError::Truncated));
    assert_eq!(DnsQuestion::try_from_bytes(&bytes[..3]), Err(DecodeError::Truncated));
    assert_eq!(DnsQuestion::try_from_bytes(&bytes[..2]), Err(DecodeError::UnterminatedName));
    assert_eq!(DnsQuestion::try_from_bytes(&[]), Err(DecodeError::UnterminatedName));
}

#[test]
fn question_checks_come_in_the_order_of_the_fields() {
    assert_eq!(
        DnsQuestion::try_from_bytes(&[1, 0xff, 0, 0, 0, 0, 0]),
        Err(DecodeError::InvalidUtf8)
    );
    assert_eq!(DnsQuestion::try_from_bytes(&[1, b'a', 0, 0, 0]), Err(DecodeError::InvalidType));
    assert_eq!(
        DnsQuestion::try_from_bytes(&[1, b'a', 0, 0, 0, 0, 2]),
        Err(DecodeError::InvalidType)
    );
    assert_eq!(DnsQuestion::try_from_bytes(&[1, b'a', 0, 0, 1, 0]), Err(DecodeError::Truncated));
}

#[test]
fn question_with_empty_name_does_not_round_trip() {
    let bytes = question("", 1, 1).to_bytes();
    assert_eq!(bytes, vec![0, 0, 0, 1, 0, 1]);
    assert_eq!(DnsQuestion::try_from_bytes(&bytes), Err(DecodeError::InvalidType));
}

#[test]
fn question_with_root_name_is_read() {
    assert_eq!(DnsQuestion::from_bytes(&[0, 0, 1, 0, 1]), question("", 1, 1));
}

#[test]
fn question_read_is_as_long_on_the_wire_as_what_was_read() {
    let mut bytes = vec![3, b'a', b'.', b'b', 0, 0, 1, 0, 1];
    let used = bytes.len();
    bytes.extend_from_slice(&[5, 5]);
    assert_eq!(DnsQuestion::from_bytes(&bytes).to_bytes().len(), used);
    assert_eq!(DnsQuestion::from_bytes(&[0, 0, 1, 0, 1]).to_bytes().len(), 6);
}

#[test]
fn question_that_is_not_valid_does_not_round_trip() {
    for q in [
        question("a", 0, 1),
        question("a", 17, 1),
        question("a", 1, 2),
        question("", 1, 1),
        question("a..b", 1, 1),
        question(&"a".repeat(256), 1, 1),
    ] {
        assert_ne!(DnsQuestion::try_from_bytes(&q.to_bytes()), Ok(q));
    }
}

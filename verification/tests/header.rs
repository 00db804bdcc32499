use dns_codec::{DecodeError, DnsHeader};

fn sample() -> DnsHeader {
    DnsHeader {
        id: 1234,
        recursion_desired: true,
        truncated_message: false,
        authoritative_answer: false,
        opcode: 0,
        response: true,
        rescode: 0,
        checking_disabled: false,
        authed_data: false,
        z: false,
        recursion_available: false,
        questions: 0,
        answers: 0,
        authoritative_entries: 0,
        resource_entries: 0,
    }
}

fn zero() -> DnsHeader {
    DnsHeader {
        id: 0,
        recursion_desired: false,
        truncated_message: false,
        authoritative_answer: false,
        opcode: 0,
        response: false,
        rescode: 0,
        checking_disabled: false,
        authed_data: false,
        z: false,
        recursion_available: false,
        questions: 0,
        answers: 0,
        authoritative_entries: 0,
        resource_entries: 0,
    }
}

#[test]
fn test_dns_header_to_bytes() {
    let header = DnsHeader {
        id: 1234,
        recursion_desired: true,
        truncated_message: false,
        authoritative_answer: false,
        opcode: 0,
        response: true,
        rescode: 0,
        checking_disabled: false,
        authed_data: false,
        z: false,
        recursion_available: false,
        questions: 0,
        answers: 0,
        authoritative_entries: 0,
        resource_entries: 0,
    };
    let bytes = header.to_bytes();
    assert_eq!(
        bytes,
        vec![
            0x04,
            0xD2,
            0b1000_0001,
            0b0000_0000,
            0x00,
            0x00,
            0x00,
            0x00,
            0x00,
            0x00,
            0x00,
            0x00
        ]
    );
}

#[test]
fn test_dns_header_from_bytes() {
    let bytes = vec![
        0x04,
        0xD2,
        0b1000_0001,
        0b0000_0000,
        0x00,
        0x00,
        0x00,
        0x00,
        0x00,
        0x00,
        0x00,
        0x00,
    ];
    let header = DnsHeader::from_bytes(&bytes);
    assert_eq!(
        header,
        DnsHeader {
            id: 1234,
            recursion_desired: true,
            truncated_message: false,
            authoritative_answer: false,
            opcode: 0,
            response: true,
            rescode: 0,
            checking_disabled: false,
            authed_data: false,
            z: false,
            recursion_available: false,
            questions: 0,
            answers: 0,
            authoritative_entries: 0,
            resource_entries: 0,
        }
    );
}

#[test]
fn header_default_is_the_reply_seed() {
    let header = DnsHeader::default();
    assert_eq!(
        header,
        DnsHeader {
            id: 1234,
            response: true,
            ..zero()
        }
    );
}

#[test]
fn header_is_always_twelve_bytes() {
    assert_eq!(zero().to_bytes().len(), 12);
    assert_eq!(sample().to_bytes().len(), 12);
    let full = DnsHeader {
        id: 0xffff,
        response: true,
        recursion_desired: true,
        truncated_message: true,
        authoritative_answer: true,
        opcode: 0xff,
        rescode: 0xff,
        checking_disabled: true,
        authed_data: true,
        z: true,
        recursion_available: true,
        questions: 0xffff,
        answers: 0xffff,
        authoritative_entries: 0xffff,
        resource_entries: 0xffff,
    };
    assert_eq!(full.to_bytes(), vec![0xff; 12]);
}

#[test]
fn header_first_flag_byte_layout() {
    let bytes_of = |h: DnsHeader| h.to_bytes()[2];
    assert_eq!(bytes_of(DnsHeader { response: true, ..zero() }), 0b1000_0000);
    assert_eq!(bytes_of(DnsHeader { opcode: 0b1111, ..zero() }), 0b0111_1000);
    assert_eq!(bytes_of(DnsHeader { opcode: 0b0101, ..zero() }), 0b0010_1000);
    assert_eq!(bytes_of(DnsHeader { authoritative_answer: true, ..zero() }), 0b0000_0100);
    assert_eq!(bytes_of(DnsHeader { truncated_message: true, ..zero() }), 0b0000_0010);
    assert_eq!(bytes_of(DnsHeader { recursion_desired: true, ..zero() }), 0b0000_0001);
}

#[test]
fn header_second_flag_byte_layout() {
    let bytes_of = |h: DnsHeader| h.to_bytes()[3];
    assert_eq!(bytes_of(DnsHeader { checking_disabled: true, ..zero() }), 0b1000_0000);
    assert_eq!(bytes_of(DnsHeader { authed_data: true, ..zero() }), 0b0100_0000);
    assert_eq!(bytes_of(DnsHeader { z: true, ..zero() }), 0b0010_0000);
    assert_eq!(bytes_of(DnsHeader { recursion_available: true, ..zero() }), 0b0001_0000);
    assert_eq!(bytes_of(DnsHeader { rescode: 0b1111, ..zero() }), 0b0000_1111);
    assert_eq!(bytes_of(DnsHeader { rescode: 4, ..zero() }), 0b0000_0100);
}

#[test]
fn header_opcode_keeps_its_low_four_bits() {
    let header = DnsHeader { opcode: 0b1_0011, ..zero() };
    assert_eq!(header.to_bytes()[2], 0b0001_1000);
}

#[test]
fn header_rescode_is_written_as_given() {
    let header = DnsHeader { rescode: 0b0001_0010, ..zero() };
    assert_eq!(header.to_bytes()[3], 0b0001_0010);
}

#[test]
fn header_counts_are_big_endian() {
    let header = DnsHeader {
        id: 0xabcd,
        questions: 0x0102,
        answers: 0x0304,
        authoritative_entries: 0x0506,
        resource_entries: 0x0708,
        ..zero()
    };
    assert_eq!(
        header.to_bytes(),
        vec![0xab, 0xcd, 0, 0, 0x01, 0x02, 0x03, 0x04, 0x05, 0x06, 0x07, 0x08]
    );
}

#[test]
fn header_from_bytes_takes_every_field_apart() {
    let bytes = [0xab, 0xcd, 0b1010_1101, 0b0101_0100, 0x01, 0x02, 0x03, 0x04, 0x05, 0x06, 0x07, 0x08];
    assert_eq!(
        DnsHeader::from_bytes(&bytes),
        DnsHeader {
            id: 0xabcd,
            response: true,
            opcode: 0b0101,
            authoritative_answer: true,
            truncated_message: false,
            recursion_desired: true,
            checking_disabled: false,
            authed_data: true,
            z: false,
            recursion_available: true,
            rescode: 0b0100,
            questions: 0x0102,
            answers: 0x0304,
            authoritative_entries: 0x0506,
            resource_entries: 0x0708,
        }
    );
}

#[test]
fn header_round_trip_on_valid_headers() {
    for id in [0u16, 1, 1234, 0xffff] {
        for opcode in 0u8..16 {
            for rescode in 0u8..16 {
                for flags in 0u16..512 {
                    let header = DnsHeader {
                        id,
                        response: flags & 1 != 0,
                        recursion_desired: flags & 2 != 0,
                        truncated_message: flags & 4 != 0,
                        authoritative_answer: flags & 8 != 0,
                        opcode,
                        rescode,
                        checking_disabled: flags & 16 != 0,
                        authed_data: flags & 32 != 0,
                        z: flags & 64 != 0,
                        recursion_available: flags & 128 != 0,
                        questions: id ^ 0x00ff,
                        answers: flags,
                        authoritative_entries: id.wrapping_add(7),
                        resource_entries: id.wrapping_mul(3),
                    };
                    assert_eq!(DnsHeader::from_bytes(&header.to_bytes()), header);
                }
            }
        }
    }
}

#[test]
fn header_with_wide_opcode_does_not_round_trip() {
    let header = DnsHeader { opcode: 16, ..zero() };
    let back = DnsHeader::from_bytes(&header.to_bytes());
    assert_eq!(back.opcode, 0);
    assert_ne!(back, header);
}

#[test]
fn header_try_from_bytes_accepts_twelve_bytes_only() {
    let bytes = sample().to_bytes();
    assert_eq!(DnsHeader::try_from_bytes(&bytes), Ok(sample()));
    assert_eq!(DnsHeader::try_from_bytes(&bytes[..11]), Err(DecodeError::HeaderLength));
    assert_eq!(DnsHeader::try_from_bytes(&[]), Err(DecodeError::HeaderLength));
    let mut longer = bytes.clone();
    longer.push(0);
    assert_eq!(DnsHeader::try_from_bytes(&longer), Err(DecodeError::HeaderLength));
}

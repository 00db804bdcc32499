use dns_codec::name::{read_name, try_read_name, write_name};
use dns_codec::DecodeError;

const WWW_EXAMPLE_COM: [u8; 17] = [
    0x03, 0x77, 0x77, 0x77, 0x07, 0x65, 0x78, 0x61, 0x6D, 0x70, 0x6C, 0x65, 0x03, 0x63, 0x6F, 0x6D,
    0x00,
];

#[test]
fn name_www_example_com_on_the_wire() {
    assert_eq!(write_name("www.example.com"), WWW_EXAMPLE_COM.to_vec());
}

#[test]
fn name_www_example_com_read_back() {
    assert_eq!(read_name(&WWW_EXAMPLE_COM), ("www.example.com".to_string(), 17));
    assert_eq!(try_read_name(&WWW_EXAMPLE_COM), Ok(("www.example.com".to_string(), 17)));
}

#[test]
fn name_single_label() {
    assert_eq!(write_name("localhost"), b"\x09localhost\x00".to_vec());
    assert_eq!(read_name(b"\x09localhost\x00"), ("localhost".to_string(), 11));
}

#[test]
fn name_empty_is_one_empty_label() {
    assert_eq!(write_name(""), vec![0, 0]);
}

#[test]
fn name_root_on_the_wire_reads_as_empty() {
    assert_eq!(read_name(&[0]), (String::new(), 1));
    assert_eq!(read_name(&[0, 0]), (String::new(), 1));
}

#[test]
fn name_empty_labels_are_written_as_zero_bytes() {
    assert_eq!(write_name("a..b"), vec![1, b'a', 0, 1, b'b', 0]);
    assert_eq!(write_name("a."), vec![1, b'a', 0, 0]);
    assert_eq!(write_name(".a"), vec![0, 1, b'a', 0]);
    assert_eq!(write_name("."), vec![0, 0, 0]);
}

#[test]
fn name_with_empty_label_does_not_round_trip() {
    let wire = write_name("a..b");
    assert_eq!(read_name(&wire), ("a".to_string(), 3));
}

#[test]
fn name_length_prefix_counts_bytes_not_characters() {
    assert_eq!(
        write_name("é.ü"),
        vec![2, 0xc3, 0xa9, 2, 0xc3, 0xbc, 0]
    );
    assert_eq!(read_name(&[2, 0xc3, 0xa9, 2, 0xc3, 0xbc, 0]), ("é.ü".to_string(), 7));
}

#[test]
fn name_four_byte_character() {
    let wire = write_name("a😀.b");
    assert_eq!(wire, vec![5, b'a', 0xf0, 0x9f, 0x98, 0x80, 1, b'b', 0]);
    assert_eq!(read_name(&wire), ("a😀.b".to_string(), 9));
}

#[test]
fn name_long_label_keeps_low_eight_bits_of_length() {
    let label = "a".repeat(300);
    let wire = write_name(&label);
    assert_eq!(wire.len(), 302);
    assert_eq!(wire[0], 44);
    assert!(wire[1..301].iter().all(|&b| b == b'a'));
    assert_eq!(wire[301], 0);
    let exact = "b".repeat(256);
    assert_eq!(write_name(&exact)[0], 0);
}

#[test]
fn name_label_of_255_bytes_round_trips() {
    let name = format!("{}.{}", "x".repeat(255), "y".repeat(63));
    let wire = write_name(&name);
    assert_eq!(wire.len(), name.len() + 2);
    assert_eq!(wire[0], 255);
    assert_eq!(read_name(&wire), (name.clone(), name.len() + 2));
}

#[test]
fn name_round_trip_ignores_what_follows() {
    let mut wire = write_name("mail.example.org");
    let used = wire.len();
    wire.extend_from_slice(&[0xde, 0xad, 0xbe, 0xef]);
    assert_eq!(read_name(&wire), ("mail.example.org".to_string(), used));
}

#[test]
fn name_dot_inside_a_label_reads_as_a_separator() {
    assert_eq!(read_name(&[3, b'a', b'.', b'b', 0]), ("a.b".to_string(), 5));
    assert_eq!(write_name("a.b"), vec![1, b'a', 1, b'b', 0]);
}

#[test]
fn name_without_terminator_is_rejected() {
    assert_eq!(try_read_name(&[]), Err(DecodeError::UnterminatedName));
    assert_eq!(try_read_name(&[3, b'w', b'w', b'w']), Err(DecodeError::UnterminatedName));
    assert_eq!(try_read_name(&[3, b'w', b'w']), Err(DecodeError::UnterminatedName));
    assert_eq!(try_read_name(&[1]), Err(DecodeError::UnterminatedName));
}

#[test]
fn name_with_invalid_utf8_is_rejected() {
    assert_eq!(try_read_name(&[1, 0xff, 0]), Err(DecodeError::InvalidUtf8));
    assert_eq!(try_read_name(&[2, 0xc3, 0x28, 0]), Err(DecodeError::InvalidUtf8));
    assert_eq!(try_read_name(&[1, 0xc3, 1, 0xa9, 0]), Err(DecodeError::InvalidUtf8));
    assert_eq!(try_read_name(&[3, 0xed, 0xa0, 0x80, 0]), Err(DecodeError::InvalidUtf8));
}

#[test]
fn name_errors_come_in_the_order_of_the_labels() {
    assert_eq!(try_read_name(&[1, 0xff, 5, b'a']), Err(DecodeError::InvalidUtf8));
    assert_eq!(try_read_name(&[1, b'a', 1, 0xff]), Err(DecodeError::InvalidUtf8));
    assert_eq!(try_read_name(&[1, b'a', 2, 0xff]), Err(DecodeError::UnterminatedName));
}

#[test]
fn name_compression_pointer_is_read_as_a_length() {
    assert_eq!(try_read_name(&[0xc0, 0x0c]), Err(DecodeError::UnterminatedName));
    let mut bytes = vec![0xc0];
    bytes.extend(std::iter::repeat(b'a').take(0xc0));
    bytes.push(0);
    assert_eq!(try_read_name(&bytes), Ok(("a".repeat(0xc0), 0xc0 + 2)));
}

#[test]
fn name_on_the_wire_is_two_bytes_longer_than_the_text() {
    for name in ["", ".", "a", "a.b", "www.example.com", "a..b.", "é.ü", "trailing."] {
        assert_eq!(write_name(name).len(), name.len() + 2);
    }
    let long = "a".repeat(1000);
    assert_eq!(write_name(&long).len(), 1002);
}

#[test]
fn name_read_is_as_long_on_the_wire_as_what_was_read() {
    for wire in [
        vec![1, b'a', 0],
        vec![3, b'a', b'.', b'b', 0],
        vec![3, b'w', b'w', b'w', 2, b'd', b'e', 0, 9, 9],
        vec![2, 0xc3, 0xa9, 0],
    ] {
        let (name, used) = read_name(&wire);
        assert_eq!(write_name(&name).len(), used);
    }
    let (root, used) = read_name(&[0, 7]);
    assert_eq!(used, 1);
    assert_eq!(write_name(&root).len(), 2);
}

#[test]
fn name_round_trips_exactly_when_every_label_fits() {
    let fits = ["a", "a.b", "www.example.com", "é.ü"];
    for name in fits {
        let wire = write_name(name);
        assert_eq!(try_read_name(&wire), Ok((name.to_string(), wire.len())));
    }
    let long_label = "a".repeat(256);
    let longer_label = format!("b.{}", "c".repeat(300));
    let unfit = ["", ".", "a.", ".a", "a..b", long_label.as_str(), longer_label.as_str()];
    for name in unfit {
        let wire = write_name(name);
        assert_ne!(try_read_name(&wire), Ok((name.to_string(), wire.len())));
    }
}

#[test]
fn name_labels_and_names_beyond_the_usual_limits_are_taken() {
    let label = "l".repeat(64);
    let wire = write_name(&label);
    assert_eq!(wire[0], 64);
    assert_eq!(read_name(&wire), (label, 66));
    let name = vec!["abcdefghij"; 40].join(".");
    assert_eq!(name.len(), 439);
    let wire = write_name(&name);
    assert_eq!(wire.len(), 441);
    assert_eq!(read_name(&wire), (name, 441));
}

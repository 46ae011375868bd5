use dns_wire::packet::DNSError;
use dns_wire::packet::DNSFlags;
use dns_wire::packet::DNSHeader;
use dns_wire::packet::DNSPacket;
use dns_wire::packet::DNSQuestion;
use dns_wire::packet::RecordType;

#[test]
fn serialize_dns_str() {
    assert_eq!(
        dns_wire::packet::serialize_dns_str(String::from("test.domain.com").as_str()),
        vec![
            0x04, 0x74, 0x65, 0x73, 0x74, 0x06, 0x64, 0x6f, 0x6d, 0x61, 0x69, 0x6e, 0x03, 0x63,
            0x6f, 0x6d, 0x00
        ]
    );
}

#[test]
fn serialize_header() {
    assert_eq!(
        DNSHeader {
            id: 0x1314,
            flags: DNSFlags::default(),
            question_count: 1,
            answer_count: 2,
            authority_count: 3,
            additional_count: 4,
        }
        .serialize(),
        vec![0x13, 0x14, 0x00, 0x00, 0x00, 0x01, 0x00, 0x02, 0x00, 0x03, 0x00, 0x04]
    );
}

#[test]
fn serialize_question() {
    assert_eq!(
        DNSQuestion {
            name: String::from("example.com"),
            qtype: RecordType::A,
        }
        .serialize(),
        vec![
            0x07, 0x65, 0x78, 0x61, 0x6d, 0x70, 0x6c, 0x65, 0x03, 0x63, 0x6f, 0x6d, 0x00, 0x00,
            0x01, 0x00, 0x01
        ]
    );
}

#[test]
fn serialize_packet() {
    let mut packet = DNSPacket::new();

    // set static packet ID for test
    packet.header.id = 0xFFFF;
    packet.add_question(DNSQuestion {
        name: String::from("example.com"),
        qtype: RecordType::A,
    });

    assert_eq!(
        packet.serialize(),
        vec![
            0xFF, 0xFF, 0x00, 0x00, 0x00, 0x01, 0x00, 0x00, 0x00, 0x00, 0x00, 0x00, 0x07, 0x65,
            0x78, 0x61, 0x6d, 0x70, 0x6c, 0x65, 0x03, 0x63, 0x6f, 0x6d, 0x00, 0x00, 0x01, 0x00,
            0x01
        ]
    );
}

#[test]
fn serialize_flags() {
    let mut flags = DNSFlags::default();
    flags.is_response = true;
    flags.is_authoritative = true;
    flags.recurse_available = true;
    assert_eq!(flags.serialize(), 0x8480);
}

#[test]
fn deserialize_flags() {
    let mut flags = DNSFlags::default();
    flags.is_response = true;
    flags.is_authoritative = true;
    flags.recurse_available = true;
    assert_eq!(DNSFlags::from(0x8480), flags);
}

#[test]
fn serialize_header_single_question() {
    assert_eq!(
        DNSHeader {
            id: 0x1314,
            flags: DNSFlags::default(),
            question_count: 1,
            answer_count: 0,
            authority_count: 0,
            additional_count: 0,
        }
        .serialize(),
        vec![0x13, 0x14, 0x00, 0x00, 0x00, 0x01, 0x00, 0x00, 0x00, 0x00, 0x00, 0x00]
    );
}

#[test]
fn header_serialized_length_is_twelve() {
    let mut flags = DNSFlags::default();
    flags.opcode = 9;
    flags.reply_code = 3;
    flags.is_truncated = true;
    let header = DNSHeader {
        id: 0xABCD,
        flags,
        question_count: 7,
        answer_count: 11,
        authority_count: 13,
        additional_count: 17,
    };
    assert_eq!(header.serialize().len(), 12);
}

#[test]
fn header_round_trip() {
    let mut flags = DNSFlags::default();
    flags.is_response = true;
    flags.opcode = 5;
    flags.recurse_desired = true;
    flags.reply_code = 15;
    let header = DNSHeader {
        id: 0x0102,
        flags,
        question_count: 1,
        answer_count: 2,
        authority_count: 3,
        additional_count: 4,
    };
    assert_eq!(DNSHeader::deserialize(&header.serialize()), Ok(header));
}

#[test]
fn flags_round_trip() {
    let flags = DNSFlags {
        is_response: false,
        opcode: 9,
        is_authoritative: true,
        is_truncated: true,
        recurse_desired: true,
        recurse_available: false,
        answer_authed: true,
        unauth_ok: true,
        reply_code: 5,
    };
    assert_eq!(DNSFlags::from(flags.serialize()), flags);
}

#[test]
fn deserialize_short_header() {
    let bytes = [0u8; 5];
    assert_eq!(
        DNSHeader::deserialize(&bytes),
        Err(DNSError::ShortHeader {
            expected: 12,
            actual: 5
        })
    );
}

#[test]
fn deserialize_short_packet() {
    let bytes = [0u8; 11];
    assert_eq!(
        match DNSPacket::deserialize(&bytes) {
            Ok(_) => None,
            Err(e) => Some(e),
        },
        Some(DNSError::ShortHeader {
            expected: 12,
            actual: 11
        })
    );
}

#[test]
fn deserialize_packet_reads_header_only() {
    // A response header followed by trailing record bytes that the codec
    // leaves unparsed.
    let mut bytes = vec![0x13, 0x14, 0x84, 0x80, 0x00, 0x01, 0x00, 0x01, 0x00, 0x00, 0x00, 0x00];
    bytes.extend_from_slice(&[0xDE, 0xAD, 0xBE, 0xEF]);
    let packet = DNSPacket::deserialize(&bytes).unwrap();
    assert_eq!(packet.header.id, 0x1314);
    assert_eq!(packet.header.flags, DNSFlags::from(0x8480));
    assert_eq!(packet.header.question_count, 1);
    assert_eq!(packet.header.answer_count, 1);
    assert_eq!(packet.questions.len(), 0);
}

#[test]
fn question_count_tracks_added_questions() {
    let mut packet = DNSPacket::new();
    packet.header.id = 0x0001;
    assert_eq!(packet.header.question_count, 0);
    let names = ["one.test", "two.test", "three.test"];
    for name in names {
        packet.add_question(DNSQuestion::new(String::from(name), RecordType::A));
    }
    assert_eq!(packet.header.question_count, 3);

    // The serialization is the header followed by the three question
    // sections in insertion order.
    let mut expected = packet.header.serialize();
    for name in names {
        expected.extend_from_slice(
            &DNSQuestion::new(String::from(name), RecordType::A).serialize(),
        );
    }
    assert_eq!(packet.serialize(), expected);
}

#[test]
fn label_encoding_length() {
    // (sum of label lengths) + (number of labels) + 1 terminator.
    let encoded = dns_wire::packet::serialize_dns_str("abc.de");
    assert_eq!(encoded.len(), (3 + 2) + 2 + 1);
    let encoded = dns_wire::packet::serialize_dns_str("example.com");
    assert_eq!(encoded.len(), (7 + 3) + 2 + 1);
}

#[test]
fn case_folding() {
    assert_eq!(
        dns_wire::packet::serialize_dns_str("Example.COM"),
        dns_wire::packet::serialize_dns_str("example.com")
    );
}

#[test]
fn empty_name_encodes_as_empty_label() {
    assert_eq!(dns_wire::packet::serialize_dns_str(""), vec![0x00, 0x00]);
}

#[test]
fn record_type_values() {
    assert_eq!(RecordType::A.value(), 1);
    assert_eq!(RecordType::NS.value(), 2);
    assert_eq!(RecordType::CNAME.value(), 5);
    assert_eq!(RecordType::SOA.value(), 6);
    assert_eq!(RecordType::PTR.value(), 12);
    assert_eq!(RecordType::MX.value(), 15);
    assert_eq!(RecordType::TXT.value(), 16);
}

#[test]
fn new_packet_is_empty_query() {
    let packet = DNSPacket::new();
    assert_eq!(packet.header.flags, DNSFlags::default());
    assert_eq!(packet.header.flags.serialize(), 0x0000);
    assert_eq!(packet.header.question_count, 0);
    assert_eq!(packet.header.answer_count, 0);
    assert_eq!(packet.header.authority_count, 0);
    assert_eq!(packet.header.additional_count, 0);
    assert_eq!(packet.questions.len(), 0);
}

#[test]
fn recursion_desired_word() {
    let mut flags = DNSFlags::default();
    flags.recurse_desired = true;
    assert_eq!(flags.serialize(), 0x0100);
}

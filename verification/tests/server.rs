use dns_codec::answer::DnsAnswer;
use dns_codec::err::DnsError;
use dns_codec::fields::RecordClass;
use dns_codec::fields::RecordType;
use dns_codec::fields::ResponseCode;
use dns_codec::header::DnsHeader;
use dns_codec::message::DnsMessage;
use dns_codec::message::build_response;
use dns_codec::message::handle_query;
use dns_codec::question::DnsQuestion;

/// A query datagram: the given 12-byte header fields, then one question.
fn query_bytes(id: u16, flags_hi: u8, name: &[u8]) -> Vec<u8> {
    let mut bytes = vec![
        (id >> 8) as u8,
        (id & 0xff) as u8,
        flags_hi,
        0x00,
        0x00,
        0x01, // QDCOUNT = 1
        0x00,
        0x00,
        0x00,
        0x00,
        0x00,
        0x00,
    ];
    let q = DnsQuestion::new(name.to_vec(), RecordType::A, RecordClass::IN);
    bytes.extend(q.to_be_bytes().unwrap());
    bytes
}

#[test]
fn standard_query_gets_answer() {
    // id 0x1234, flags 0x0100: only RD set, OPCODE 0.
    let query = query_bytes(0x1234, 0x01, b"abc.com");
    let response = handle_query(&query).unwrap();
    let m = DnsMessage::read(&response).unwrap();
    assert_eq!(m.header.id, 0x1234);
    assert!(m.header.qr);
    assert!(m.header.rd);
    assert_eq!(m.header.rcode, ResponseCode::NoError);
    assert_eq!(m.header.qdcount, 1);
    assert_eq!(m.header.ancount, 1);
    assert_eq!(m.header.nscount, 0);
    assert_eq!(m.header.arcount, 0);
    assert_eq!(m.questions.len(), 1);
    assert_eq!(m.questions[0].name, b"abc.com".to_vec());
    assert_eq!(m.answers.len(), 1);
    let a = &m.answers[0];
    assert_eq!(a.name, b"abc.com".to_vec());
    assert_eq!(a.rtype, RecordType::A);
    assert_eq!(a.class, RecordClass::IN);
    assert_eq!(a.ttl, 60);
    assert_eq!(a.length, 4);
    assert_eq!(a.data, vec![8, 8, 8, 8]);
}

#[test]
fn nonzero_opcode_gets_not_implemented() {
    // flags hi byte 0x08: OPCODE 1, nothing else set.
    let query = query_bytes(0x0042, 0x08, b"abc.com");
    let response = handle_query(&query).unwrap();
    let m = DnsMessage::read(&response).unwrap();
    assert_eq!(m.header.id, 0x0042);
    assert!(m.header.qr);
    assert_eq!(m.header.rcode, ResponseCode::NotImplemented);
}

#[test]
fn truncated_packet_is_rejected() {
    let short = vec![0x12, 0x34, 0x01, 0x00, 0x00, 0x01];
    assert_eq!(handle_query(&short), Err(DnsError::TruncatedHeader));
    assert_eq!(DnsMessage::read(&short), Err(DnsError::TruncatedHeader));
}

#[test]
fn build_response_echoes_question() {
    let h = DnsHeader::new(
        7,
        false,
        0,
        false,
        false,
        true,
        false,
        false,
        ResponseCode::NoError,
        1,
        0,
        0,
        0,
    );
    let q = DnsQuestion::new(b"a.b".to_vec(), RecordType::A, RecordClass::IN);
    let m = build_response(&h, q);
    assert_eq!(m.header.id, 7);
    assert!(m.header.qr);
    assert!(m.header.rd);
    assert_eq!(m.header.rcode, ResponseCode::NoError);
    assert_eq!(m.questions[0].name, b"a.b".to_vec());
    assert_eq!(m.answers[0].name, b"a.b".to_vec());
}

#[test]
fn message_round_trip() {
    let h = DnsHeader::new(
        0xabcd,
        true,
        0,
        false,
        false,
        true,
        false,
        false,
        ResponseCode::NoError,
        2,
        1,
        0,
        0,
    );
    let q1 = DnsQuestion::new(b"abc.com".to_vec(), RecordType::A, RecordClass::IN);
    let q2 = DnsQuestion::new(b"x.y.z".to_vec(), RecordType::TXT, RecordClass::HS);
    let a1 = DnsAnswer::new(
        b"abc.com".to_vec(),
        RecordType::A,
        RecordClass::IN,
        120,
        4,
        vec![9, 9, 9, 9],
    );
    let m = DnsMessage::new(h, vec![q1, q2], vec![a1]);
    let bytes = m.to_be_bytes().unwrap();
    let back = DnsMessage::read(&bytes).unwrap();
    assert_eq!(back, m);
}

#[test]
fn message_encode_reports_first_error() {
    let h = DnsHeader::new(
        1,
        false,
        0,
        false,
        false,
        false,
        false,
        false,
        ResponseCode::NoError,
        1,
        1,
        0,
        0,
    );
    let q = DnsQuestion::new(b"abc.com".to_vec(), RecordType::A, RecordClass::IN);
    let bad = DnsAnswer::new(
        b"abc.com".to_vec(),
        RecordType::A,
        RecordClass::IN,
        60,
        3,
        vec![8, 8, 8, 8],
    );
    let m = DnsMessage::new(h, vec![q], vec![bad]);
    assert_eq!(m.to_be_bytes(), Err(DnsError::LengthMismatch));
}

#[test]
fn query_with_compression_pointer_is_rejected() {
    let mut query = vec![0u8; 12];
    query[2] = 0x01;
    query[5] = 0x01;
    query.extend(vec![0xc0, 0x0c]);
    assert_eq!(handle_query(&query), Err(DnsError::UnsupportedCompression));
}

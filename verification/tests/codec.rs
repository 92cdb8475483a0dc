use dns_codec::answer::DnsAnswer;
use dns_codec::err::DnsError;
use dns_codec::fields::RecordClass;
use dns_codec::fields::RecordType;
use dns_codec::fields::ResponseCode;
use dns_codec::header::DnsHeader;
use dns_codec::name::decode_name;
use dns_codec::name::encode_name;
use dns_codec::question::DnsQuestion;

fn sample_header() -> DnsHeader {
    DnsHeader::new(
        0xbeef, true, 9, true, false, true, false, true, ResponseCode::Refused, 2, 1, 7, 0,
    )
}

#[test]
fn header_round_trip() {
    let h = sample_header();
    let bytes = h.to_be_bytes();
    assert_eq!(bytes.len(), 12);
    let (back, used) = DnsHeader::read(&bytes, 0).unwrap();
    assert_eq!(used, 12);
    assert_eq!(back, h);
}

#[test]
fn header_exact_bytes() {
    // id 0x1234, QR set, OPCODE 2, RD set, RA set, Z set, RCODE 3.
    let h = DnsHeader::new(
        0x1234, true, 2, false, false, true, true, true, ResponseCode::NameError, 1, 2, 3, 4,
    );
    let bytes = h.to_be_bytes();
    assert_eq!(
        bytes,
        vec![0x12, 0x34, 0x91, 0x93, 0x00, 0x01, 0x00, 0x02, 0x00, 0x03, 0x00, 0x04]
    );
}

#[test]
fn header_truncated() {
    let bytes = vec![0u8; 11];
    assert_eq!(DnsHeader::read(&bytes, 0), Err(DnsError::TruncatedHeader));
}

#[test]
fn header_invalid_rcode() {
    let mut bytes = vec![0u8; 12];
    bytes[3] = 0x06;
    assert_eq!(DnsHeader::read(&bytes, 0), Err(DnsError::InvalidEnumValue));
}

#[test]
fn name_round_trip_multi_label() {
    let name = b"www.example.com".to_vec();
    let bytes = encode_name(&name).unwrap();
    assert_eq!(
        bytes,
        vec![
            3, b'w', b'w', b'w', 7, b'e', b'x', b'a', b'm', b'p', b'l', b'e', 3, b'c', b'o', b'm',
            0
        ]
    );
    let (back, used) = decode_name(&bytes, 0).unwrap();
    assert_eq!(back, name);
    assert_eq!(used, bytes.len());
}

#[test]
fn name_label_of_63_bytes_encodes() {
    let name = vec![b'a'; 63];
    let bytes = encode_name(&name).unwrap();
    assert_eq!(bytes.len(), 65);
    assert_eq!(bytes[0], 63);
    let (back, _) = decode_name(&bytes, 0).unwrap();
    assert_eq!(back, name);
}

#[test]
fn name_label_of_64_bytes_fails() {
    let name = vec![b'a'; 64];
    assert_eq!(encode_name(&name), Err(DnsError::InvalidName));
}

#[test]
fn name_empty_label_fails() {
    assert_eq!(encode_name(&b"".to_vec()), Err(DnsError::InvalidName));
    assert_eq!(encode_name(&b"a..b".to_vec()), Err(DnsError::InvalidName));
    assert_eq!(encode_name(&b".ab".to_vec()), Err(DnsError::InvalidName));
}

#[test]
fn name_compression_pointer_rejected() {
    // 0xc0 tags the byte as a compression pointer.
    let bytes = vec![0xc0, 0x0c];
    assert_eq!(decode_name(&bytes, 0), Err(DnsError::UnsupportedCompression));
}

#[test]
fn name_reserved_length_tag_rejected() {
    // Tags 0x40 and 0x80 are reserved: not a pointer, but no valid length.
    let bytes = vec![0x40, 0x00];
    assert_eq!(decode_name(&bytes, 0), Err(DnsError::InvalidName));
}

#[test]
fn name_truncated_label_rejected() {
    // Length 3 announced, two bytes present and no terminator.
    let bytes = vec![3, b'a', b'b'];
    assert_eq!(decode_name(&bytes, 0), Err(DnsError::InvalidName));
}

#[test]
fn question_round_trip() {
    let q = DnsQuestion::new(b"abc.com".to_vec(), RecordType::MX, RecordClass::CH);
    let bytes = q.to_be_bytes().unwrap();
    let (back, used) = DnsQuestion::read(&bytes, 0).unwrap();
    assert_eq!(back, q);
    assert_eq!(used, bytes.len());
}

#[test]
fn question_invalid_type_tag() {
    let q = DnsQuestion::new(b"abc.com".to_vec(), RecordType::A, RecordClass::IN);
    let mut bytes = q.to_be_bytes().unwrap();
    let n = bytes.len();
    // Overwrite the type with tag 17, one past the last valid record type.
    bytes[n - 4] = 0;
    bytes[n - 3] = 17;
    assert_eq!(DnsQuestion::read(&bytes, 0), Err(DnsError::InvalidEnumValue));
}

#[test]
fn question_invalid_class_tag() {
    let q = DnsQuestion::new(b"abc.com".to_vec(), RecordType::A, RecordClass::IN);
    let mut bytes = q.to_be_bytes().unwrap();
    let n = bytes.len();
    bytes[n - 1] = 5;
    assert_eq!(DnsQuestion::read(&bytes, 0), Err(DnsError::InvalidEnumValue));
}

#[test]
fn question_truncated_fields() {
    // A complete name, then only one byte where type and class should be.
    let bytes = vec![1, b'x', 0, 0];
    assert_eq!(DnsQuestion::read(&bytes, 0), Err(DnsError::InvalidEnumValue));
}

#[test]
fn answer_round_trip() {
    let a = DnsAnswer::new(
        b"abc.com".to_vec(),
        RecordType::A,
        RecordClass::IN,
        3600,
        4,
        vec![1, 2, 3, 4],
    );
    let bytes = a.to_be_bytes().unwrap();
    let (back, used) = DnsAnswer::read(&bytes, 0).unwrap();
    assert_eq!(back, a);
    assert_eq!(used, bytes.len());
}

#[test]
fn answer_length_mismatch() {
    let a = DnsAnswer::new(
        b"abc.com".to_vec(),
        RecordType::A,
        RecordClass::IN,
        60,
        5,
        vec![8, 8, 8, 8],
    );
    assert_eq!(a.to_be_bytes(), Err(DnsError::LengthMismatch));
}

#[test]
fn answer_invalid_name_on_encode() {
    let a = DnsAnswer::new(
        vec![b'a'; 64],
        RecordType::A,
        RecordClass::IN,
        60,
        4,
        vec![8, 8, 8, 8],
    );
    assert_eq!(a.to_be_bytes(), Err(DnsError::InvalidName));
}

#[test]
fn answer_truncated_data() {
    let a = DnsAnswer::new(
        b"abc.com".to_vec(),
        RecordType::A,
        RecordClass::IN,
        60,
        4,
        vec![8, 8, 8, 8],
    );
    let mut bytes = a.to_be_bytes().unwrap();
    bytes.pop();
    assert_eq!(DnsAnswer::read(&bytes, 0), Err(DnsError::TruncatedAnswer));
}

#[test]
fn answer_truncated_fixed_fields() {
    // A complete name, then too few bytes for type/class/ttl/length.
    let bytes = vec![1, b'x', 0, 0, 1, 0, 1];
    assert_eq!(DnsAnswer::read(&bytes, 0), Err(DnsError::TruncatedAnswer));
}

#[test]
fn enum_tags_round_trip() {
    let types = [
        RecordType::A,
        RecordType::NS,
        RecordType::MD,
        RecordType::MF,
        RecordType::CNAME,
        RecordType::SOA,
        RecordType::MB,
        RecordType::MG,
        RecordType::MR,
        RecordType::NULL,
        RecordType::WKS,
        RecordType::PTR,
        RecordType::HINFO,
        RecordType::MINFO,
        RecordType::MX,
        RecordType::TXT,
    ];
    for (i, t) in types.iter().enumerate() {
        assert_eq!(t.to_u16(), (i + 1) as u16);
        assert_eq!(RecordType::from_u16(t.to_u16()), Ok(*t));
    }
    assert_eq!(RecordType::from_u16(0), Err(DnsError::InvalidEnumValue));
    assert_eq!(RecordType::from_u16(17), Err(DnsError::InvalidEnumValue));
    let classes = [
        RecordClass::IN,
        RecordClass::CS,
        RecordClass::CH,
        RecordClass::HS,
    ];
    for (i, c) in classes.iter().enumerate() {
        assert_eq!(c.to_u16(), (i + 1) as u16);
        assert_eq!(RecordClass::from_u16(c.to_u16()), Ok(*c));
    }
    assert_eq!(RecordClass::from_u16(5), Err(DnsError::InvalidEnumValue));
    let codes = [
        ResponseCode::NoError,
        ResponseCode::FormatError,
        ResponseCode::ServerFailure,
        ResponseCode::NameError,
        ResponseCode::NotImplemented,
        ResponseCode::Refused,
    ];
    for (i, rc) in codes.iter().enumerate() {
        assert_eq!(rc.to_u8(), i as u8);
        assert_eq!(ResponseCode::from_u8(rc.to_u8()), Ok(*rc));
    }
    assert_eq!(ResponseCode::from_u8(6), Err(DnsError::InvalidEnumValue));
}

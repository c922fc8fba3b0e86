use dns_resolver::dns::buffer::BytePacketBuffer;
use dns_resolver::dns::error::DnsError;
use dns_resolver::dns::header::{DnsControlFlags, DnsHeader, ResultCode};
use dns_resolver::dns::question::{DnsQuestion, QueryType};
use dns_resolver::dns::record::DnsRecord;

#[test]
fn result_code_numbers() {
    assert_eq!(ResultCode::from_num(0), ResultCode::NoErr);
    assert_eq!(ResultCode::from_num(1), ResultCode::FormErr);
    assert_eq!(ResultCode::from_num(2), ResultCode::ServFail);
    assert_eq!(ResultCode::from_num(3), ResultCode::NxDomain);
    assert_eq!(ResultCode::from_num(4), ResultCode::NotImp);
    assert_eq!(ResultCode::from_num(5), ResultCode::Refused);
    assert_eq!(ResultCode::from_num(9), ResultCode::NoErr);
    for n in 0..6u8 {
        assert_eq!(ResultCode::from_num(n).to_num(), n);
    }
}

#[test]
fn query_type_numbers() {
    assert_eq!(QueryType::from_num(1), QueryType::ALIAS);
    assert_eq!(QueryType::from_num(2), QueryType::NAMESERVER);
    assert_eq!(QueryType::from_num(5), QueryType::CANONICALNAME);
    assert_eq!(QueryType::from_num(15), QueryType::MAILEXCHANGE);
    assert_eq!(QueryType::from_num(28), QueryType::AAAA);
    assert_eq!(QueryType::from_num(99), QueryType::UNKNOWN(99));
    assert_eq!(QueryType::AAAA.to_num(), 28);
    assert_eq!(QueryType::UNKNOWN(1).to_num(), 1);
    for n in 0..100u16 {
        assert_eq!(QueryType::from_num(n).to_num(), n);
    }
}

#[test]
fn flags_bytes_and_roundtrip() {
    let mut flags = DnsControlFlags::new();
    flags.recursion_desired = true;
    flags.operation_code = 2;
    flags.query_response = true;
    flags.result_code = ResultCode::NxDomain;
    flags.recursion_available = true;
    flags.z = true;
    let mut buf = BytePacketBuffer::new();
    flags.write(&mut buf).unwrap();
    assert_eq!(&buf.buff[0..2], &[0b1001_0001, 0b1000_0011]);
    buf.pos = 0;
    let mut read = DnsControlFlags::new();
    read.read(&mut buf).unwrap();
    assert_eq!(read, DnsControlFlags { z: false, ..flags });
}

#[test]
fn flags_read_failure_keeps_flags() {
    let mut buf = BytePacketBuffer::new();
    buf.buff[511] = 0xFF;
    buf.pos = 511;
    let mut flags = DnsControlFlags::new();
    assert!(matches!(flags.read(&mut buf), Err(DnsError::BufferOverflow(512))));
    assert_eq!(flags, DnsControlFlags::new());
}

#[test]
fn header_roundtrip() {
    let mut header = DnsHeader::new();
    header.id = 0xBEEF;
    header.control_flags.recursion_desired = true;
    header.question_count = 1;
    header.answer_count = 2;
    header.authority_count = 3;
    header.additional_count = 4;
    let mut buf = BytePacketBuffer::new();
    header.write(&mut buf).unwrap();
    assert_eq!(buf.pos(), 12);
    assert_eq!(&buf.buff[0..12], &[0xBE, 0xEF, 1, 0, 0, 1, 0, 2, 0, 3, 0, 4]);
    buf.pos = 0;
    let mut read = DnsHeader::new();
    read.read(&mut buf).unwrap();
    assert_eq!(read, header);
}

#[test]
fn header_partial_read() {
    let mut buf = BytePacketBuffer::new();
    buf.buff[505] = 0x12;
    buf.buff[506] = 0x34;
    buf.pos = 505;
    let mut header = DnsHeader::new();
    header.answer_count = 77;
    assert!(matches!(header.read(&mut buf), Err(DnsError::BufferOverflow(512))));
    assert_eq!(header.id, 0x1234);
    assert_eq!(header.answer_count, 77);
}

#[test]
fn question_roundtrip() {
    let q = DnsQuestion::new("Example.ORG".to_string(), QueryType::MAILEXCHANGE);
    let mut buf = BytePacketBuffer::new();
    q.write(&mut buf).unwrap();
    let end = buf.pos();
    assert_eq!(&buf.buff[end - 4..end], &[0, 15, 0, 1]);
    buf.pos = 0;
    let read = DnsQuestion::read(&mut buf).unwrap();
    assert_eq!(read, DnsQuestion::new("example.org".to_string(), QueryType::MAILEXCHANGE));
    assert_eq!(buf.pos(), end);
}

fn roundtrip(record: &DnsRecord) -> (usize, DnsRecord, usize) {
    let mut buf = BytePacketBuffer::new();
    let written = record.write(&mut buf).unwrap();
    let end = buf.pos();
    buf.pos = 0;
    let read = DnsRecord::read(&mut buf).unwrap();
    assert_eq!(buf.pos(), end);
    (written, read, end)
}

#[test]
fn alias_record_roundtrip() {
    let r = DnsRecord::ALIAS { domain: "a.com".to_string(), addr: [10, 0, 0, 1], ttl: 3600 };
    let (n, read, end) = roundtrip(&r);
    assert_eq!(n, end);
    assert_eq!(n, 7 + 10 + 4);
    assert_eq!(read, r);
}

#[test]
fn aaaa_record_roundtrip() {
    let addr = [0x20, 0x01, 0x0d, 0xb8, 0, 0, 0, 0, 0, 0, 0, 0, 0, 0, 0, 1];
    let r = DnsRecord::AAAA { domain: "v6.net".to_string(), addr, ttl: 60 };
    let (n, read, _) = roundtrip(&r);
    assert_eq!(n, 8 + 10 + 16);
    assert_eq!(read, r);
}

#[test]
fn nameserver_and_cname_roundtrip() {
    let r = DnsRecord::NAMESERVER { domain: "com".to_string(), host: "ns1.com".to_string(), ttl: 1 };
    let mut buf = BytePacketBuffer::new();
    r.write(&mut buf).unwrap();
    // data length stored before the host name
    assert_eq!(&buf.buff[13..15], &[0, 9]);
    let (_, read, _) = roundtrip(&r);
    assert_eq!(read, r);
    let c = DnsRecord::CANONICALNAME { domain: "www.x.io".to_string(), host: "X.io".to_string(), ttl: 5 };
    let (_, read, _) = roundtrip(&c);
    assert_eq!(read, DnsRecord::CANONICALNAME { domain: "www.x.io".to_string(), host: "x.io".to_string(), ttl: 5 });
}

#[test]
fn mail_exchange_roundtrip() {
    let r = DnsRecord::MAILEXCHANGE { domain: "m.org".to_string(), priority: 10, host: "mx.m.org".to_string(), ttl: 300 };
    let mut buf = BytePacketBuffer::new();
    r.write(&mut buf).unwrap();
    // data length: priority (2) + encoded host (10)
    assert_eq!(&buf.buff[15..19], &[0, 12, 0, 10]);
    let (_, read, _) = roundtrip(&r);
    assert_eq!(read, r);
}

#[test]
fn unknown_record_is_skipped() {
    let mut buf = BytePacketBuffer::new();
    buf.write_qname("u.io").unwrap();
    buf.write_u16(99).unwrap();
    buf.write_u16(1).unwrap();
    buf.write_u32(42).unwrap();
    buf.write_u16(3).unwrap();
    buf.write_u8(1).unwrap();
    buf.write_u8(2).unwrap();
    buf.write_u8(3).unwrap();
    let end = buf.pos();
    buf.pos = 0;
    let read = DnsRecord::read(&mut buf).unwrap();
    assert_eq!(read, DnsRecord::UNKNOWN { domain: "u.io".to_string(), qtype: QueryType::UNKNOWN(99), data_len: 3, ttl: 42 });
    assert_eq!(buf.pos(), end);
    let mut out = BytePacketBuffer::new();
    assert_eq!(read.write(&mut out).unwrap(), 0);
    assert_eq!(out.pos(), 0);
}

#[test]
fn record_write_label_too_large() {
    let r = DnsRecord::ALIAS { domain: "x".repeat(70), addr: [1, 2, 3, 4], ttl: 1 };
    let mut buf = BytePacketBuffer::new();
    assert!(matches!(r.write(&mut buf), Err(DnsError::LabelTooLarge(70))));
}

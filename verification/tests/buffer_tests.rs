use dns_resolver::dns::buffer::{BytePacketBuffer, DNS_PACKET_SIZE};
use dns_resolver::dns::error::DnsError;

#[test]
fn new_buffer_is_zeroed_at_start() {
    let buf = BytePacketBuffer::new();
    assert_eq!(buf.pos(), 0);
    assert!(buf.buff.iter().all(|b| *b == 0));
    assert_eq!(buf.buff.len(), DNS_PACKET_SIZE);
}

#[test]
fn u8_u16_u32_roundtrip() {
    let mut buf = BytePacketBuffer::new();
    buf.write_u8(0xAB).unwrap();
    buf.write_u16(0x1234).unwrap();
    buf.write_u32(0xDEADBEEF).unwrap();
    assert_eq!(buf.pos(), 7);
    assert_eq!(&buf.buff[0..7], &[0xAB, 0x12, 0x34, 0xDE, 0xAD, 0xBE, 0xEF]);
    buf.pos = 0;
    assert_eq!(buf.read_u8().unwrap(), 0xAB);
    assert_eq!(buf.read_u16().unwrap(), 0x1234);
    assert_eq!(buf.read_u32().unwrap(), 0xDEADBEEF);
    assert_eq!(buf.pos(), 7);
}

#[test]
fn read_past_end_overflows() {
    let mut buf = BytePacketBuffer::new();
    buf.pos = 511;
    assert!(matches!(buf.read_u16(), Err(DnsError::BufferOverflow(512))));
    assert_eq!(buf.pos(), 512);
    buf.pos = 600;
    assert!(matches!(buf.read_u8(), Err(DnsError::BufferOverflow(600))));
    assert_eq!(buf.pos(), 600);
}

#[test]
fn write_past_end_writes_what_fits() {
    let mut buf = BytePacketBuffer::new();
    buf.pos = 510;
    assert!(matches!(buf.write_u32(0x01020304), Err(DnsError::BufferOverflow(512))));
    assert_eq!(buf.pos(), 512);
    assert_eq!(buf.buff[510], 0x01);
    assert_eq!(buf.buff[511], 0x02);
}

#[test]
fn step_checks_bounds() {
    let mut buf = BytePacketBuffer::new();
    buf.step(100).unwrap();
    assert_eq!(buf.pos(), 100);
    assert!(matches!(buf.step(412), Err(DnsError::BufferOverflow(100))));
    assert_eq!(buf.pos(), 100);
    buf.step(411).unwrap();
    assert_eq!(buf.pos(), 511);
}

#[test]
fn get_range_and_set_u16() {
    let mut buf = BytePacketBuffer::new();
    buf.write_u32(0x11223344).unwrap();
    assert_eq!(buf.get_range(1, 2).unwrap(), &[0x22, 0x33]);
    assert!(matches!(buf.get_range(500, 12), Err(DnsError::BufferOverflow(500))));
    buf.set_u16(0, 0xAABB).unwrap();
    assert_eq!(&buf.buff[0..4], &[0xAA, 0xBB, 0x33, 0x44]);
    assert_eq!(buf.pos(), 4);
    assert!(matches!(buf.set_u16(511, 1), Err(DnsError::BufferOverflow(511))));
}

#[test]
fn qname_write_bytes() {
    let mut buf = BytePacketBuffer::new();
    buf.write_qname("www.Example.com").unwrap();
    let expected: Vec<u8> = vec![3, b'w', b'w', b'w', 7, b'E', b'x', b'a', b'm', b'p', b'l', b'e', 3, b'c', b'o', b'm', 0];
    assert_eq!(&buf.buff[0..expected.len()], expected.as_slice());
    assert_eq!(buf.pos(), expected.len());
}

#[test]
fn qname_roundtrip_lowercases() {
    let mut buf = BytePacketBuffer::new();
    buf.write_qname("www.Example.COM").unwrap();
    let end = buf.pos();
    buf.pos = 0;
    let mut name = String::new();
    buf.read_qname(&mut name).unwrap();
    assert_eq!(name, "www.example.com");
    assert_eq!(buf.pos(), end);
}

#[test]
fn qname_read_appends() {
    let mut buf = BytePacketBuffer::new();
    buf.write_qname("a.b").unwrap();
    buf.pos = 0;
    let mut name = String::from("x:");
    buf.read_qname(&mut name).unwrap();
    assert_eq!(name, "x:a.b");
}

#[test]
fn qname_empty_and_trailing_dot() {
    let mut buf = BytePacketBuffer::new();
    buf.write_qname("").unwrap();
    assert_eq!(&buf.buff[0..2], &[0, 0]);
    assert_eq!(buf.pos(), 2);
    let mut buf = BytePacketBuffer::new();
    buf.write_qname("a.").unwrap();
    assert_eq!(&buf.buff[0..4], &[1, b'a', 0, 0]);
}

#[test]
fn qname_label_too_large() {
    let mut buf = BytePacketBuffer::new();
    let long = "a".repeat(64);
    let name = format!("ok.{}.com", long);
    assert!(matches!(buf.write_qname(&name), Err(DnsError::LabelTooLarge(64))));
    // the label before the long one was written
    assert_eq!(&buf.buff[0..3], &[2, b'o', b'k']);
    assert_eq!(buf.pos(), 3);
    let mut buf = BytePacketBuffer::new();
    let ok = "b".repeat(63);
    buf.write_qname(&ok).unwrap();
    assert_eq!(buf.pos(), 65);
}

#[test]
fn qname_with_pointer() {
    let mut buf = BytePacketBuffer::new();
    buf.write_qname("example.com").unwrap();
    // at 20: label "www" then a pointer to offset 0
    buf.buff[20] = 3;
    buf.buff[21] = b'w';
    buf.buff[22] = b'w';
    buf.buff[23] = b'w';
    buf.buff[24] = 0xC0;
    buf.buff[25] = 0;
    buf.pos = 20;
    let mut name = String::new();
    buf.read_qname(&mut name).unwrap();
    assert_eq!(name, "www.example.com");
    assert_eq!(buf.pos(), 26);
}

#[test]
fn qname_too_many_jumps() {
    let mut buf = BytePacketBuffer::new();
    buf.buff[10] = 0xC0;
    buf.buff[11] = 10;
    buf.pos = 10;
    let mut name = String::new();
    assert!(matches!(buf.read_qname(&mut name), Err(DnsError::TooManyJumps)));
    assert_eq!(buf.pos(), 12);
    assert_eq!(name, "");
}

#[test]
fn qname_pointer_out_of_buffer() {
    let mut buf = BytePacketBuffer::new();
    buf.buff[0] = 0xC3;
    buf.buff[1] = 0xFF;
    let mut name = String::new();
    assert!(matches!(buf.read_qname(&mut name), Err(DnsError::BufferOverflow(0x3FF))));
    assert_eq!(buf.pos(), 2);
}

#[test]
fn qname_invalid_utf8_is_replaced() {
    let mut buf = BytePacketBuffer::new();
    buf.buff[0] = 2;
    buf.buff[1] = 0xFF;
    buf.buff[2] = b'A';
    buf.buff[3] = 0;
    let mut name = String::new();
    buf.read_qname(&mut name).unwrap();
    assert_eq!(name, "\u{FFFD}a");
    assert_eq!(buf.pos(), 4);
}

#[test]
fn qname_label_past_end() {
    let mut buf = BytePacketBuffer::new();
    buf.buff[500] = 1;
    buf.buff[501] = b'x';
    buf.buff[502] = 20;
    buf.pos = 500;
    let mut name = String::new();
    assert!(matches!(buf.read_qname(&mut name), Err(DnsError::BufferOverflow(503))));
    assert_eq!(name, "x.");
    assert_eq!(buf.pos(), 500);
}

#[test]
fn errors_from_io_and_utf8() {
    let io = DnsError::from(std::io::Error::new(std::io::ErrorKind::Other, "down"));
    assert!(matches!(io, DnsError::Io(e) if e.kind() == std::io::ErrorKind::Other));
    let bad = std::str::from_utf8(&[0x61, 0xFF]).unwrap_err();
    assert!(matches!(DnsError::from(bad), DnsError::Utf8(e) if e.valid_up_to() == 1));
}

#[test]
fn qname_lowercase_ascii_reads_back_unchanged() {
    let mut buf = BytePacketBuffer::new();
    buf.pos = 7;
    buf.write_qname("mail.example-1.org").unwrap();
    assert_eq!(buf.pos(), 7 + "mail.example-1.org".len() + 2);
    buf.pos = 7;
    let mut name = String::new();
    buf.read_qname(&mut name).unwrap();
    assert_eq!(name, "mail.example-1.org");
    assert_eq!(buf.pos(), 7 + "mail.example-1.org".len() + 2);
}

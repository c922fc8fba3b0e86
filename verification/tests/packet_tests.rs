use dns_resolver::dns::buffer::BytePacketBuffer;
use dns_resolver::dns::error::DnsError;
use dns_resolver::dns::header::ResultCode;
use dns_resolver::dns::packet::DnsPacket;
use dns_resolver::dns::question::{DnsQuestion, QueryType};
use dns_resolver::dns::record::DnsRecord;
use dns_resolver::dns::resolver::{
    LookupStep, after_nameserver_lookup, build_response, new_query, next_step, query_packet, ROOT_NAMESERVER,
};
use dns_resolver::dns::text::ends_with;

fn ns(domain: &str, host: &str) -> DnsRecord {
    DnsRecord::NAMESERVER { domain: domain.to_string(), host: host.to_string(), ttl: 100 }
}

fn a(domain: &str, addr: [u8; 4]) -> DnsRecord {
    DnsRecord::ALIAS { domain: domain.to_string(), addr, ttl: 100 }
}

#[test]
fn packet_roundtrip() {
    let mut p = DnsPacket::new();
    p.header.id = 7;
    p.header.control_flags.query_response = true;
    p.questions.push(DnsQuestion::new("google.com".to_string(), QueryType::ALIAS));
    p.answers.push(a("google.com", [142, 250, 1, 1]));
    p.authorities.push(ns("com", "a.gtld.net"));
    p.resources.push(a("a.gtld.net", [192, 5, 6, 30]));
    let mut buf = BytePacketBuffer::new();
    p.to_buffer(&mut buf).unwrap();
    assert_eq!(p.header.question_count, 1);
    assert_eq!(p.header.answer_count, 1);
    assert_eq!(p.header.authority_count, 1);
    assert_eq!(p.header.additional_count, 1);
    let end = buf.pos();
    buf.pos = 0;
    let q = DnsPacket::from_buffer(&mut buf).unwrap();
    assert_eq!(buf.pos(), end);
    assert_eq!(q.header, p.header);
    assert_eq!(q.questions, p.questions);
    assert_eq!(q.answers, p.answers);
    assert_eq!(q.authorities, p.authorities);
    assert_eq!(q.resources, p.resources);
}

#[test]
fn packet_truncated_fails() {
    let mut buf = BytePacketBuffer::new();
    buf.write_u16(1).unwrap();
    buf.write_u16(0).unwrap();
    buf.write_u16(1).unwrap();
    buf.pos = 506;
    let mut p = DnsPacket::new();
    p.questions.push(DnsQuestion::new("abc.def".to_string(), QueryType::ALIAS));
    assert!(matches!(p.to_buffer(&mut buf), Err(DnsError::BufferOverflow(512))));
}

#[test]
fn random_alias_is_first_address() {
    let mut p = DnsPacket::new();
    assert_eq!(p.get_random_alias(), None);
    p.answers.push(ns("x", "y"));
    p.answers.push(a("x", [1, 1, 1, 1]));
    p.answers.push(a("x", [2, 2, 2, 2]));
    assert_eq!(p.get_random_alias(), Some([1, 1, 1, 1]));
}

#[test]
fn nameserver_lookups() {
    let mut p = DnsPacket::new();
    p.authorities.push(ns("org", "ns.org"));
    p.authorities.push(ns("com", "ns1.com"));
    p.authorities.push(ns("com", "ns2.com"));
    p.resources.push(a("ns2.com", [9, 9, 9, 9]));
    p.resources.push(a("other", [8, 8, 8, 8]));
    assert_eq!(p.get_resolved_nameserver("google.com"), Some([9, 9, 9, 9]));
    assert_eq!(p.get_unresolved_nameserver("google.com"), Some("ns1.com"));
    assert_eq!(p.get_resolved_nameserver("example.net"), None);
    assert_eq!(p.get_unresolved_nameserver("example.net"), None);
    assert_eq!(p.get_unresolved_nameserver("x.org"), Some("ns.org"));
    assert_eq!(p.get_resolved_nameserver("x.org"), None);
}

#[test]
fn query_packets() {
    let q = query_packet(42, "example.com", QueryType::AAAA);
    assert_eq!(q.header.id, 42);
    assert!(q.header.control_flags.recursion_desired);
    assert_eq!(q.header.question_count, 1);
    assert_eq!(q.questions, vec![DnsQuestion::new("example.com".to_string(), QueryType::AAAA)]);
    assert!(q.answers.is_empty() && q.authorities.is_empty() && q.resources.is_empty());
    let r = new_query("a.b", QueryType::ALIAS).expect("the random source failed");
    assert_eq!(r.questions, vec![DnsQuestion::new("a.b".to_string(), QueryType::ALIAS)]);
    assert_eq!(r.header.question_count, 1);
    assert!(r.header.control_flags.recursion_desired);
    assert_eq!(ROOT_NAMESERVER, [198, 41, 0, 4]);
}

#[test]
fn lookup_steps() {
    let mut done = DnsPacket::new();
    done.answers.push(a("x.com", [1, 2, 3, 4]));
    assert!(matches!(next_step(&done, "x.com"), LookupStep::Done));

    let mut nx = DnsPacket::new();
    nx.header.control_flags.result_code = ResultCode::NxDomain;
    assert!(matches!(next_step(&nx, "x.com"), LookupStep::Done));

    let mut referral = DnsPacket::new();
    referral.authorities.push(ns("com", "ns1.com"));
    referral.resources.push(a("ns1.com", [5, 5, 5, 5]));
    assert!(matches!(next_step(&referral, "x.com"), LookupStep::Query([5, 5, 5, 5])));

    let mut unresolved = DnsPacket::new();
    unresolved.authorities.push(ns("com", "ns1.com"));
    match next_step(&unresolved, "x.com") {
        LookupStep::ResolveNameserver(h) => assert_eq!(h, "ns1.com"),
        _ => panic!("expected a name server to resolve"),
    }

    let empty = DnsPacket::new();
    assert!(matches!(next_step(&empty, "x.com"), LookupStep::Done));
}

#[test]
fn responses() {
    let formerr = build_response(3, None, None);
    assert_eq!(formerr.header.id, 3);
    assert_eq!(formerr.header.control_flags.result_code, ResultCode::FormErr);
    assert!(formerr.header.control_flags.query_response);
    assert!(formerr.questions.is_empty());

    let q = DnsQuestion::new("x.com".to_string(), QueryType::ALIAS);
    let servfail = build_response(4, Some(q.clone()), None);
    assert_eq!(servfail.header.control_flags.result_code, ResultCode::ServFail);
    assert!(servfail.questions.is_empty());

    let mut result = DnsPacket::new();
    result.header.control_flags.result_code = ResultCode::NxDomain;
    result.authorities.push(ns("com", "ns1.com"));
    let ok = build_response(5, Some(q.clone()), Some(result));
    assert_eq!(ok.header.id, 5);
    assert_eq!(ok.header.control_flags.result_code, ResultCode::NxDomain);
    assert!(ok.header.control_flags.recursion_available && ok.header.control_flags.recursion_desired);
    assert_eq!(ok.questions, vec![q]);
    assert_eq!(ok.authorities, vec![ns("com", "ns1.com")]);
}

#[test]
fn steps_after_nameserver_lookup() {
    let mut found = DnsPacket::new();
    found.answers.push(ns("ns1.com", "ns2.com"));
    found.answers.push(a("ns1.com", [9, 8, 7, 6]));
    found.answers.push(a("ns1.com", [1, 1, 1, 1]));
    assert!(matches!(after_nameserver_lookup(&found), LookupStep::Query([9, 8, 7, 6])));

    let mut none = DnsPacket::new();
    none.authorities.push(a("ns1.com", [9, 8, 7, 6]));
    assert!(matches!(after_nameserver_lookup(&none), LookupStep::Done));
}

#[test]
fn suffixes_of_names() {
    assert!(ends_with("www.example.com", "example.com"));
    assert!(ends_with("www.example.com", ""));
    assert!(ends_with("com", "com"));
    assert!(!ends_with("com", "x.com"));
    assert!(!ends_with("www.example.com", "example.org"));
    assert!(ends_with("b\u{e9}b\u{e9}", "\u{e9}"));
}

//! The decisions of a recursive resolver and of the server that answers
//! with it: the query it sends, what it does with each response, and the
//! response it hands back. The network exchanges themselves are made by the
//! caller.

use vstd::prelude::*;
use crate::dns::header::{DnsControlFlags, DnsHeader, ResultCode};
use crate::dns::packet::{DnsPacket, PacketView, first_alias, nameservers, resolved_address};
use crate::dns::question::{DnsQuestion, QueryType, QuestionView};

verus! {

/// The root name server a resolution starts from (a.root-servers.net).
pub const ROOT_NAMESERVER: [u8; 4] = [198, 41, 0, 4];

/// Port of DNS servers.
pub const DNS_PORT: u16 = 53;

/// Fills two bytes from the operating system's random source, through
/// `rand::RngCore::try_fill_bytes` on `rand::rngs::OsRng`, which hands on
/// what `getrandom` reports and does not panic. `None` when the source
/// failed; nothing is stated of the bytes drawn.
#[verifier::external_body]
fn random_bytes() -> (res: Option<[u8; 2]>) {
    let mut bytes = [0u8; 2];
    match rand::RngCore::try_fill_bytes(&mut rand::rngs::OsRng, &mut bytes) {
        Ok(()) => Some(bytes),
        Err(_) => None,
    }
}

/// The query a resolver sends for `qname` and `qtype` with the identifier
/// `id`: recursion desired, one question.
pub open spec fn query_view(id: u16, qname: Seq<char>, qtype: QueryType) -> PacketView {
    PacketView {
        header: DnsHeader {
            id,
            control_flags: DnsControlFlags { recursion_desired: true, ..DnsControlFlags::spec_new() },
            question_count: 1,
            ..DnsHeader::spec_new()
        },
        questions: seq![QuestionView { name: qname, qtype }],
        ..DnsPacket::spec_new()
    }
}

/// Build the query for `qname` and `qtype` with the identifier `id`.
pub fn query_packet(id: u16, qname: &str, qtype: QueryType) -> (res: DnsPacket)
    ensures
        res@ == query_view(id, qname@, qtype),
        res.header.id == id,
        res.header.control_flags == (DnsControlFlags {
            recursion_desired: true,
            truncated_message: false,
            authoritative_answer: false,
            operation_code: 0,
            query_response: false,
            result_code: ResultCode::NoErr,
            check_disable: false,
            authoritative_data: false,
            z: false,
            recursion_available: false,
        }),
        res.header.question_count == 1,
        res.header.answer_count == 0,
        res.header.authority_count == 0,
        res.header.additional_count == 0,
{
    let mut packet = DnsPacket::new();
    packet.header.id = id;
    packet.header.question_count = 1;
    packet.header.control_flags.recursion_desired = true;
    packet.questions.push(DnsQuestion { name: qname.to_owned(), qtype: qtype });
    proof {
        assert(packet@.questions =~= seq![QuestionView { name: qname@, qtype }]);
    }
    packet
}

/// Build the query for `qname` and `qtype` with a random identifier, drawn
/// from the operating system; `None` when no random bytes could be had.
pub fn new_query(qname: &str, qtype: QueryType) -> (res: Option<DnsPacket>)
    ensures
        res matches Some(p) ==> p@ == query_view(p.header.id, qname@, qtype),
        res matches Some(p) ==> !p.header.control_flags.query_response && p.header.control_flags.recursion_desired,
{
    match random_bytes() {
        Some(b) => Some(query_packet(((b[0] as u16) << 8) | (b[1] as u16), qname, qtype)),
        None => None,
    }
}

/// What a resolver does after a response.
pub enum LookupStep {
    /// The response is final: hand it back.
    Done,
    /// Ask the name server at this address next.
    Query([u8; 4]),
    /// First resolve the address of this name server, then ask it.
    ResolveNameserver(String),
}

/// A response is final when it answers without error, or says that the
/// name does not exist.
pub open spec fn is_final(v: PacketView) -> bool {
    ||| (v.answers.len() > 0 && v.header.control_flags.result_code == ResultCode::NoErr)
    ||| v.header.control_flags.result_code == ResultCode::NxDomain
}

/// Decide what to do after the response `response` to a query for `qname`:
/// stop on a final response; else go on with the first name server of
/// `qname` whose address the response gives; else resolve the first name
/// server it names; else stop.
pub fn next_step(response: &DnsPacket, qname: &str) -> (step: LookupStep)
    ensures
        response@.answers.len() > 0 && response@.header.control_flags.result_code == ResultCode::NoErr ==> step is Done,
        response@.header.control_flags.result_code == ResultCode::NxDomain ==> step is Done,
        is_final(response@) ==> step is Done,
        !is_final(response@) ==> match resolved_address(
            nameservers(response@.authorities, qname@),
            response@.resources,
            0,
        ) {
            Some(a) => step matches LookupStep::Query(x) && x@ == a,
            None => if nameservers(response@.authorities, qname@).len() > 0 {
                step matches LookupStep::ResolveNameserver(h) && h@ == nameservers(
                    response@.authorities,
                    qname@,
                )[0].1
            } else {
                step is Done
            },
        },
{
    // Success
    if response.answers.len() > 0 && response.header.control_flags.result_code == ResultCode::NoErr {
        return LookupStep::Done;
    }
    // Name doesn't exist on a server
    if response.header.control_flags.result_code == ResultCode::NxDomain {
        return LookupStep::Done;
    }
    // Retrying lookup on a more suitable nameserver
    if let Some(new_ns) = response.get_resolved_nameserver(qname) {
        return LookupStep::Query(new_ns);
    }
    // Resolve IP of NS record
    match response.get_unresolved_nameserver(qname) {
        Some(x) => LookupStep::ResolveNameserver(x.to_owned()),
        None => LookupStep::Done,
    }
}

/// Decide what to do once the address of a name server was looked up, from
/// the response `ns_response` to that lookup: ask the first address it
/// answers with next, or stop.
pub fn after_nameserver_lookup(ns_response: &DnsPacket) -> (step: LookupStep)
    ensures
        match first_alias(ns_response@.answers, 0) {
            Some(a) => step matches LookupStep::Query(x) && x@ == a,
            None => step is Done,
        },
{
    match ns_response.get_random_alias() {
        Some(addr) => LookupStep::Query(addr),
        None => LookupStep::Done,
    }
}

/// The control flags of a server's response with the result code `rc`.
pub open spec fn response_flags(rc: ResultCode) -> DnsControlFlags {
    DnsControlFlags {
        recursion_desired: true,
        recursion_available: true,
        query_response: true,
        result_code: rc,
        ..DnsControlFlags::spec_new()
    }
}

/// Build a server's response to the request `id`: with no question, a
/// format error; with a question whose lookup failed, a server failure and
/// no question; else the question and the sections and result code of the
/// lookup's `result`.
pub fn build_response(id: u16, question: Option<DnsQuestion>, result: Option<DnsPacket>) -> (res: DnsPacket)
    ensures
        res.header.id == id,
        question is None ==> res@ == (PacketView {
            header: DnsHeader { id, control_flags: response_flags(ResultCode::FormErr), ..DnsHeader::spec_new() },
            ..DnsPacket::spec_new()
        }),
        question is Some && result is None ==> res@ == (PacketView {
            header: DnsHeader { id, control_flags: response_flags(ResultCode::ServFail), ..DnsHeader::spec_new() },
            ..DnsPacket::spec_new()
        }),
        question is Some && result is Some ==> res@ == (PacketView {
            header: DnsHeader {
                id,
                control_flags: response_flags(result->0.header.control_flags.result_code),
                ..DnsHeader::spec_new()
            },
            questions: seq![question->0@],
            answers: result->0@.answers,
            authorities: result->0@.authorities,
            resources: result->0@.resources,
        }),
{
    let mut response = DnsPacket::new();
    response.header.id = id;
    response.header.control_flags.recursion_desired = true;
    response.header.control_flags.recursion_available = true;
    response.header.control_flags.query_response = true;

    // Normal case: single question present
    if let Some(question) = question {
        // Proceed with server lookup
        if let Some(result) = result {
            let ghost qv = question@;
            response.questions.push(question);
            response.header.control_flags.result_code = result.header.control_flags.result_code;
            response.answers = result.answers;
            response.authorities = result.authorities;
            response.resources = result.resources;
            proof {
                assert(response@.questions =~= seq![qv]);
            }
        } else {
            response.header.control_flags.result_code = ResultCode::ServFail;
        }
    }
    // Potentially unreliable input data from the requester
    else {
        response.header.control_flags.result_code = ResultCode::FormErr;
    }
    response
}

} // verus!

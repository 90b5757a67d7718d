use resolve_rs::handlers::{
    build_response, encode_query, encode_response, lookup_query, take_question, LookupStep,
    RecursiveLookup, MAX_HOPS, ROOT_SERVER,
};
use resolve_rs::buf::BytePacketBuffer;
use resolve_rs::record::packet::DnsPacket;
use resolve_rs::record::question::{DnsQuestion, QueryType};
use resolve_rs::record::record::DnsRecord;
use resolve_rs::record::ResultCode;

#[test]
fn lookup_query_asks_one_question_with_recursion() {
    let packet = lookup_query("example.com", QueryType::AAAA, 7);
    assert_eq!(packet.header.id, 7);
    assert!(packet.header.recursion_desired);
    assert!(!packet.header.response);
    assert_eq!(packet.questions, vec![DnsQuestion::new("example.com".to_string(), QueryType::AAAA)]);
    assert!(packet.answers.is_empty());
}

#[test]
fn encode_query_gives_the_written_bytes() {
    let bytes = encode_query(lookup_query("a.b", QueryType::A, 0x0102)).unwrap();
    let mut expected = vec![0x01, 0x02, 0x01, 0x00, 0, 1, 0, 0, 0, 0, 0, 0];
    expected.extend_from_slice(b"\x01a\x01b\x00\x00\x01\x00\x01");
    assert_eq!(bytes, expected);
}

#[test]
fn encode_query_with_a_long_label_fails() {
    let name = "x".repeat(70);
    assert_eq!(
        encode_query(lookup_query(&name, QueryType::A, 1)),
        Err("Single label exceeds 63 characters of length".to_string())
    );
}

fn answer_packet() -> DnsPacket {
    let mut packet = DnsPacket::new();
    packet.header.result_code = ResultCode::NOERROR;
    packet.answers.push(DnsRecord::A { domain: "example.com".to_string(), address: 1, ttl: 5 });
    packet
}

#[test]
fn response_to_an_answered_query() {
    let question = DnsQuestion::new("example.com".to_string(), QueryType::A);
    let response = build_response(99, Some(question.clone()), Some(answer_packet()));
    assert_eq!(response.header.id, 99);
    assert!(response.header.response);
    assert!(response.header.recursion_desired);
    assert!(response.header.recursion_available);
    assert_eq!(response.header.result_code, ResultCode::NOERROR);
    assert_eq!(response.questions, vec![question]);
    assert_eq!(response.answers.len(), 1);
    let bytes = encode_response(response).unwrap();
    let mut buffer = BytePacketBuffer::new();
    buffer.buf[..bytes.len()].copy_from_slice(&bytes);
    let back = DnsPacket::from_buffer(&mut buffer).unwrap();
    assert_eq!(back.header.id, 99);
    assert_eq!(back.get_random_a(), Some(1));
}

#[test]
fn response_to_a_failed_lookup_is_a_server_failure() {
    let question = DnsQuestion::new("example.com".to_string(), QueryType::A);
    let response = build_response(3, Some(question), None);
    assert_eq!(response.header.result_code, ResultCode::SERVFAIL);
    assert!(response.questions.is_empty());
    assert!(response.answers.is_empty());
}

#[test]
fn response_without_a_question_is_empty() {
    let response = build_response(4, None, Some(answer_packet()));
    assert_eq!(response.header.result_code, ResultCode::NOERROR);
    assert!(response.questions.is_empty());
    assert!(response.answers.is_empty());
    let bytes = encode_response(response).unwrap();
    assert_eq!(bytes, vec![0, 4, 0x81, 0x80, 0, 0, 0, 0, 0, 0, 0, 0]);
}

#[test]
fn lookup_starts_at_the_root_and_stops_after_max_hops() {
    let mut lookup = RecursiveLookup::new();
    assert_eq!(ROOT_SERVER, (198u32 << 24) | (41 << 16) | 4);
    for _ in 0..MAX_HOPS {
        assert_eq!(lookup.next_server(), Some(ROOT_SERVER));
    }
    assert_eq!(lookup.next_server(), None);
    assert_eq!(lookup.hops, MAX_HOPS);
}

#[test]
fn lookup_ends_on_an_answer_or_a_name_error() {
    let mut lookup = RecursiveLookup::new();
    match lookup.on_response("example.com", answer_packet()) {
        LookupStep::Answer(p) => assert_eq!(p.answers.len(), 1),
        _ => panic!("expected an answer"),
    }
    let mut nx = DnsPacket::new();
    nx.header.result_code = ResultCode::NXDOMAIN;
    assert!(matches!(lookup.on_response("example.com", nx), LookupStep::Answer(_)));
    // Answers with an error other than a name error do not end the lookup.
    let mut refused = answer_packet();
    refused.header.result_code = ResultCode::REFUSED;
    assert!(matches!(lookup.on_response("example.com", refused), LookupStep::NoNameServer));
}

fn referral(with_glue: bool) -> DnsPacket {
    let mut packet = DnsPacket::new();
    packet.authorities.push(DnsRecord::NS { domain: "org".to_string(), host: "ns.other".to_string(), ttl: 1 });
    packet.authorities.push(DnsRecord::NS { domain: "com".to_string(), host: "a.gtld".to_string(), ttl: 1 });
    if with_glue {
        packet.resources.push(DnsRecord::A { domain: "a.gtld".to_string(), address: 0x0a000001, ttl: 1 });
    }
    packet
}

#[test]
fn lookup_follows_a_referral_with_an_address() {
    let mut lookup = RecursiveLookup::new();
    assert!(matches!(lookup.on_response("example.com", referral(true)), LookupStep::Continue));
    assert_eq!(lookup.ns, 0x0a000001);
}

#[test]
fn lookup_resolves_a_name_server_without_an_address() {
    let mut lookup = RecursiveLookup::new();
    match lookup.on_response("example.com", referral(false)) {
        LookupStep::ResolveNs(name, pending) => {
            assert_eq!(name, "a.gtld");
            assert_eq!(pending.authorities.len(), 2);
            let mut ns_answer = DnsPacket::new();
            ns_answer.answers.push(DnsRecord::A { domain: "a.gtld".to_string(), address: 0x0a000002, ttl: 1 });
            assert!(lookup.on_ns_lookup(&ns_answer, pending).is_none());
            assert_eq!(lookup.ns, 0x0a000002);
        }
        _ => panic!("expected a name server to resolve"),
    }
}

#[test]
fn lookup_ends_when_a_name_server_has_no_address() {
    let mut lookup = RecursiveLookup::new();
    let pending = referral(false);
    let back = lookup.on_ns_lookup(&DnsPacket::new(), pending).unwrap();
    assert_eq!(back.authorities.len(), 2);
    assert_eq!(lookup.ns, ROOT_SERVER);
}

#[test]
fn lookup_fails_without_a_name_server() {
    let mut lookup = RecursiveLookup::new();
    assert!(matches!(lookup.on_response("example.net", referral(true)), LookupStep::NoNameServer));
}

#[test]
fn the_last_question_is_answered() {
    let mut request = DnsPacket::new();
    assert_eq!(take_question(&mut request), None);
    request.questions.push(DnsQuestion::new("first.example".to_string(), QueryType::A));
    request.questions.push(DnsQuestion::new("last.example".to_string(), QueryType::MX));
    let question = take_question(&mut request).unwrap();
    assert_eq!(question.name, "last.example");
    assert_eq!(request.questions.len(), 1);
}

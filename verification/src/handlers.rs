//! The decisions of the resolver: the query sent to a server, the response
//! returned to a client, and each step of a recursive lookup. Sockets and
//! waiting stay with the caller, which hands the outcomes of its I/O back here.

use crate::buf::{
    emit_all, end_of_buffer_msg, err_is, lemma_emit_all_ok, pieces_bytes, write_result,
    BytePacketBuffer,
};
use crate::record::header::empty_header;
use crate::record::packet::{
    empty_packet, first_a, ns_hosts, packet_pieces, resolved_ns, with_counts,
    DnsPacket, PacketView,
};
use crate::record::question::{DnsQuestion, QueryType, QuestionView};
use crate::record::ResultCode;
use vstd::prelude::*;
use vstd::slice::slice_to_vec;

verus! {

/// The server a recursive lookup starts from: a.root-servers.net, 198.41.0.4.
pub const ROOT_SERVER: u32 = 0xC629_0004;

/// Most servers asked in one recursive lookup before it gives up.
pub const MAX_HOPS: u8 = 10;

/// A buffer of 512 zero bytes, as `BytePacketBuffer::new` makes it.
pub open spec fn zero_buf() -> Seq<u8> {
    Seq::new(512, |i: int| 0u8)
}

/// The query sent to a server: the given id, recursion desired, and one question.
pub open spec fn query_view(query_name: Seq<char>, query_type: QueryType, header_id: u16) -> PacketView {
    PacketView {
        header: crate::record::header::DnsHeader { id: header_id, recursion_desired: true, ..empty_header() },
        questions: seq![QuestionView { name: query_name, query_type }],
        ..empty_packet()
    }
}

/// Builds the query packet for asking a server about `query_name`.
pub fn lookup_query(query_name: &str, query_type: QueryType, header_id: u16) -> (res: DnsPacket)
    ensures
        res@ == query_view(query_name@, query_type, header_id),
{
    let mut packet = DnsPacket::new();
    packet.header.id = header_id;
    packet.header.recursion_desired = true;
    packet.questions.push(DnsQuestion::new(String::from_str(query_name), query_type));
    proof {
        assert(packet@.questions =~= seq![QuestionView { name: query_name@, query_type }]);
    }
    packet
}

/// The bytes of a packet as written into a fresh buffer.
pub open spec fn packet_bytes(v: PacketView) -> Seq<u8> {
    pieces_bytes(packet_pieces(with_counts(v)))
}

/// Encodes a query for sending: the packet, with its counts set, written into a
/// fresh buffer; the bytes written are returned.
pub fn encode_query(packet: DnsPacket) -> (res: Result<Vec<u8>, String>)
    ensures
        write_result(res, emit_all(zero_buf(), 0, packet_pieces(with_counts(packet@)))),
        res matches Ok(bytes) ==> bytes@ == packet_bytes(packet@),
{
    let ghost v = packet@;
    let mut packet = packet;
    let mut req_buffer = BytePacketBuffer::new();
    proof {
        assert(req_buffer.buf@ =~= zero_buf());
    }
    let ghost ps = packet_pieces(with_counts(packet@));
    packet.write(&mut req_buffer)?;
    proof {
        lemma_emit_all_ok(zero_buf(), 0, ps);
    }
    let bytes = slice_to_vec(&req_buffer.buf[0..req_buffer.pos]);
    proof {
        assert(bytes@ =~= packet_bytes(v));
    }
    Ok(bytes)
}

/// The question a request is answered for: its last one, taken out of the request.
pub fn take_question(request: &mut DnsPacket) -> (res: Option<DnsQuestion>)
    ensures
        final(request).header == old(request).header,
        final(request).answers == old(request).answers,
        final(request).authorities == old(request).authorities,
        final(request).resources == old(request).resources,
        old(request).questions@.len() == 0 ==> res is None && final(request).questions@ == old(
            request,
        ).questions@,
        old(request).questions@.len() > 0 ==> res == Some(old(request).questions@.last())
            && final(request).questions@ == old(request).questions@.drop_last(),
{
    request.questions.pop()
}

/// The response to a client: the request's id, a response with recursion desired
/// and available; when the request had a question, the question and what the
/// lookup found (its response code and all of its records), a server failure when
/// the lookup failed. Without a question the response is empty.
pub open spec fn response_view(id: u16, question: Option<QuestionView>, lookup: Option<PacketView>) -> PacketView {
    let base = crate::record::header::DnsHeader {
        id,
        recursion_desired: true,
        recursion_available: true,
        response: true,
        ..empty_header()
    };
    match question {
        None => PacketView { header: base, ..empty_packet() },
        Some(q) => match lookup {
            None => PacketView {
                header: crate::record::header::DnsHeader { result_code: ResultCode::SERVFAIL, ..base },
                ..empty_packet()
            },
            Some(r) => PacketView {
                header: crate::record::header::DnsHeader { result_code: r.header.result_code, ..base },
                questions: seq![q],
                answers: r.answers,
                authorities: r.authorities,
                resources: r.resources,
            },
        },
    }
}

/// A client is told what the lookup for its question found: the lookup's response
/// code (a name the servers say does not exist stays so for the client) and all of
/// its records, under the request's id.
pub proof fn law_response_follows_lookup(id: u16, q: QuestionView, r: PacketView)
    ensures
        ({
            let v = response_view(id, Some(q), Some(r));
            &&& v.header.result_code == r.header.result_code
            &&& v.header.id == id
            &&& v.header.response
            &&& v.questions == seq![q]
            &&& v.answers == r.answers
            &&& v.authorities == r.authorities
            &&& v.resources == r.resources
        }),
{
}

/// A client whose lookup failed is told of a server failure, with no records.
pub proof fn law_failed_lookup_is_server_failure(id: u16, q: QuestionView)
    ensures
        ({
            let v = response_view(id, Some(q), None);
            &&& v.header.result_code == ResultCode::SERVFAIL
            &&& v.header.id == id
            &&& v.answers.len() == 0
        }),
{
}

/// The plain value of an optional question.
pub open spec fn opt_question_view(q: Option<DnsQuestion>) -> Option<QuestionView> {
    match q {
        Some(q) => Some(q@),
        None => None,
    }
}

/// The plain value of an optional packet.
pub open spec fn opt_packet_view(p: Option<DnsPacket>) -> Option<PacketView> {
    match p {
        Some(p) => Some(p@),
        None => None,
    }
}

/// Builds the response to a request with id `request_id` whose (last) question was
/// `question`, given what the recursive lookup for it returned (`None` when it failed).
pub fn build_response(request_id: u16, question: Option<DnsQuestion>, lookup: Option<DnsPacket>) -> (res: DnsPacket)
    ensures
        res@ == response_view(request_id, opt_question_view(question), opt_packet_view(lookup)),
        res.header.id == request_id,
        question is Some ==> (lookup matches Some(r) ==> res.header.result_code == r.header.result_code),
        question is Some && lookup is None ==> res.header.result_code == ResultCode::SERVFAIL,
{
    let mut packet = DnsPacket::new();
    packet.header.id = request_id;
    packet.header.recursion_desired = true;
    packet.header.recursion_available = true;
    packet.header.response = true;

    if let Some(question) = question {
        packet.header.result_code = ResultCode::FORMERR;  // default
        if let Some(result) = lookup {
            let mut result = result;
            let ghost q = question@;
            let ghost r = result@;
            let ghost (ra, rau, rre) = (result.answers@, result.authorities@, result.resources@);
            assert(packet.answers@.len() == 0 && packet.authorities@.len() == 0 && packet.resources@.len() == 0);
            packet.questions.push(question);
            packet.header.result_code = result.header.result_code;
            packet.answers.append(&mut result.answers);
            packet.authorities.append(&mut result.authorities);
            packet.resources.append(&mut result.resources);
            proof {
                assert(packet@.questions =~= seq![q]);
                assert(packet.answers@ =~= ra);
                assert(packet.authorities@ =~= rau);
                assert(packet.resources@ =~= rre);
                assert(packet@.answers =~= r.answers);
                assert(packet@.authorities =~= r.authorities);
                assert(packet@.resources =~= r.resources);
            }
        } else {
            packet.header.result_code = ResultCode::SERVFAIL;
        }
    }
    packet
}

/// Encodes a response for sending: the packet, with its counts set, written into
/// a fresh buffer and read back from its start. A response that fills all 512
/// bytes cannot be read back (`get_range` takes fewer than 512 bytes) and fails.
pub fn encode_response(packet: DnsPacket) -> (res: Result<Vec<u8>, String>)
    ensures
        ({
            let e = emit_all(zero_buf(), 0, packet_pieces(with_counts(packet@)));
            let n = packet_bytes(packet@).len();
            &&& e.err is Some ==> write_result(res, e)
            &&& e.err is None && n < 512 ==> (res matches Ok(bytes) && bytes@ == packet_bytes(packet@))
            &&& e.err is None && n >= 512 ==> err_is(res, end_of_buffer_msg())
        }),
{
    let ghost v = packet@;
    let mut packet = packet;
    let mut res_buffer = BytePacketBuffer::new();
    proof {
        assert(res_buffer.buf@ =~= zero_buf());
    }
    let ghost ps = packet_pieces(with_counts(packet@));
    packet.write(&mut res_buffer)?;
    proof {
        lemma_emit_all_ok(zero_buf(), 0, ps);
    }

    let len = res_buffer.pos();
    let data = res_buffer.get_range(0, len)?;

    // Still need send_to() after this
    let bytes = slice_to_vec(data);
    proof {
        assert(bytes@ =~= packet_bytes(v));
    }
    Ok(bytes)
}

/// What a recursive lookup does after a server's response.
pub enum LookupStep {
    /// The response is the result: it answers the query, or says the name does not exist.
    Answer(DnsPacket),
    /// Ask the next server, whose address the lookup now holds.
    Continue,
    /// First look up the address of this name server; when that finds none, the
    /// lookup ends with the response held here.
    ResolveNs(String, DnsPacket),
    /// The response names no server to ask next: the lookup fails.
    NoNameServer,
}

/// A recursive lookup in progress: the server to ask next and the hops made so far.
pub struct RecursiveLookup {
    pub ns: u32,
    pub hops: u8,
}

impl RecursiveLookup {
    /// A lookup that starts at the root server.
    pub fn new() -> (res: RecursiveLookup)
        ensures
            res.ns == ROOT_SERVER,
            res.hops == 0,
    {
        RecursiveLookup { ns: ROOT_SERVER, hops: 0 }
    }

    /// Starts the next hop: the server to ask, or `None` once `MAX_HOPS` hops
    /// were made (the lookup then fails).
    pub fn next_server(&mut self) -> (res: Option<u32>)
        ensures
            old(self).hops < MAX_HOPS ==> res == Some(old(self).ns) && final(self).hops == old(
                self,
            ).hops + 1 && final(self).ns == old(self).ns,
            old(self).hops >= MAX_HOPS ==> res is None && *final(self) == *old(self),
    {
        if self.hops < MAX_HOPS {
            self.hops += 1;
            Some(self.ns)
        } else {
            None
        }
    }

    /// Decides what follows a server's response to the query for `query_name`:
    /// answers with no error, and name errors, end the lookup; otherwise the address
    /// of a name server with authority, taken from the additional section, is asked
    /// next; otherwise the first such name server's address is looked up; and with
    /// no such name server the lookup fails.
    pub fn on_response(&mut self, query_name: &str, response: DnsPacket) -> (res: LookupStep)
        ensures
            ({
                let v = response@;
                let hosts = ns_hosts(v.authorities, query_name@);
                let done = (v.answers.len() > 0 && v.header.result_code == ResultCode::NOERROR)
                    || v.header.result_code == ResultCode::NXDOMAIN;
                &&& final(self).hops == old(self).hops
                &&& done ==> (res matches LookupStep::Answer(p) && p@ == v) && final(self).ns == old(self).ns
                &&& !done && resolved_ns(hosts, v.resources) is Some ==> res is Continue
                    && final(self).ns == resolved_ns(hosts, v.resources)->Some_0
                &&& !done && resolved_ns(hosts, v.resources) is None && hosts.len() > 0 ==> (res matches LookupStep::ResolveNs(name, p) && name@ == hosts[0] && p@ == v)
                    && final(self).ns == old(self).ns
                &&& !done && resolved_ns(hosts, v.resources) is None && hosts.len() == 0 ==> res is NoNameServer
                    && final(self).ns == old(self).ns
            }),
    {
        // We have our answer
        if !response.answers.is_empty() && response.header.result_code == ResultCode::NOERROR {
            return LookupStep::Answer(response);
        }

        // NXDOMAIN => authoritative section tells us the domain doesn't exist
        if response.header.result_code == ResultCode::NXDOMAIN {
            return LookupStep::Answer(response);
        }

        // Did we get a NS record + IP? If so, we'll use it to resolve the query
        if let Some(new_ns) = response.get_resolved_ns(query_name) {
            self.ns = new_ns;
            return LookupStep::Continue;
        }

        let new_ns_name = match response.get_unresolved_ns(query_name) {
            Some(name) => String::from_str(name),
            None => return LookupStep::NoNameServer,
        };
        LookupStep::ResolveNs(new_ns_name, response)
    }

    /// Decides what follows the lookup of a name server's address: its first A
    /// record becomes the server to ask next (`None`: go on); without one the
    /// lookup ends with the response that named the server.
    pub fn on_ns_lookup(&mut self, ns_response: &DnsPacket, pending: DnsPacket) -> (res: Option<DnsPacket>)
        ensures
            final(self).hops == old(self).hops,
            first_a(ns_response@.answers) matches Some(a) ==> res is None && final(self).ns == a,
            first_a(ns_response@.answers) is None ==> (res matches Some(p) && p@ == pending@) && final(self).ns == old(self).ns,
    {
        if let Some(new_ns) = ns_response.get_random_a() {
            self.ns = new_ns;
            None
        } else {
            Some(pending)
        }
    }
}

} // verus!

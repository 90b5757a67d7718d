use crate::buf::{
    be16_at, bytes_piece, emit_all, err_is, lemma_emit_all_concat,
    lemma_emit_all_push, parse_matches, pos_after_overrun, qname_read, read_err_msg, write_result,
    wrote_all, BytePacketBuffer, Parse, Piece, QnameEnd, Reach, ReadErr, reaches, room, scan_qname,
};
use crate::record::header::{empty_header, header_after_read, header_bytes, DnsHeader};
use crate::record::question::{
    question_piece, question_read, DnsQuestion, QueryType, QuestionView,
};
use crate::record::record::{record_piece, record_reach, record_read, DnsRecord, RecordView};
use vstd::prelude::*;
use vstd::utf8::encode_utf8;

verus! {

/// A DNS message: the header and the four sections.
#[derive(Clone, Debug)]
pub struct DnsPacket {
    pub header: DnsHeader,  // 12 bytes
    pub questions: Vec<DnsQuestion>,  // variable length
    pub answers: Vec<DnsRecord>,  // variable length
    pub authorities: Vec<DnsRecord>,  // variable length
    pub resources: Vec<DnsRecord>,  // variable length
}

/// A message as plain values.
pub struct PacketView {
    pub header: DnsHeader,
    pub questions: Seq<QuestionView>,
    pub answers: Seq<RecordView>,
    pub authorities: Seq<RecordView>,
    pub resources: Seq<RecordView>,
}

/// The plain values of a list of records.
pub open spec fn records_view(v: Seq<DnsRecord>) -> Seq<RecordView> {
    v.map_values(|r: DnsRecord| r@)
}

/// The plain values of a list of questions.
pub open spec fn questions_view(v: Seq<DnsQuestion>) -> Seq<QuestionView> {
    v.map_values(|q: DnsQuestion| q@)
}

impl View for DnsPacket {
    type V = PacketView;

    open spec fn view(&self) -> PacketView {
        PacketView {
            header: self.header,
            questions: questions_view(self.questions@),
            answers: records_view(self.answers@),
            authorities: records_view(self.authorities@),
            resources: records_view(self.resources@),
        }
    }
}

/// The empty message: a cleared header and no entries.
pub open spec fn empty_packet() -> PacketView {
    PacketView {
        header: empty_header(),
        questions: Seq::empty(),
        answers: Seq::empty(),
        authorities: Seq::empty(),
        resources: Seq::empty(),
    }
}

/// Continues a parse that succeeded with `f`; a failure stays as it is.
pub open spec fn parse_then<A, B>(p: Parse<A>, f: spec_fn(A, int) -> Parse<B>) -> Parse<B> {
    match p {
        Parse::Parsed(a, q) => f(a, q),
        Parse::Failed(e, q) => Parse::Failed(e, q),
        Parse::Overrun => Parse::Overrun,
    }
}

/// Reading one question at `pos` as a parse.
pub open spec fn question_parse(buf: Seq<u8>, pos: int) -> Parse<QuestionView> {
    let q = question_read(buf, pos);
    if qname_read(buf, pos).end is Overrun {
        Parse::Overrun
    } else {
        match q.err {
            Some(e) => Parse::Failed(e, q.pos),
            None => match q.query_type {
                Some(t) => Parse::Parsed(QuestionView { name: q.text, query_type: t }, q.pos),
                None => Parse::Failed(ReadErr::EndOfBuffer, q.pos),
            },
        }
    }
}

/// Reading `n` questions one after another from `pos`.
pub open spec fn questions_read(buf: Seq<u8>, pos: int, n: nat) -> Parse<Seq<QuestionView>>
    decreases n,
{
    if n == 0 {
        Parse::Parsed(Seq::empty(), pos)
    } else {
        parse_then(
            questions_read(buf, pos, (n - 1) as nat),
            |qs: Seq<QuestionView>, p: int|
                parse_then(
                    question_parse(buf, p),
                    |q: QuestionView, p2: int| Parse::Parsed(qs.push(q), p2),
                ),
        )
    }
}

/// Reading `n` records one after another from `pos`.
pub open spec fn records_read(buf: Seq<u8>, pos: int, n: nat) -> Parse<Seq<RecordView>>
    decreases n,
{
    if n == 0 {
        Parse::Parsed(Seq::empty(), pos)
    } else {
        parse_then(
            records_read(buf, pos, (n - 1) as nat),
            |rs: Seq<RecordView>, p: int|
                parse_then(
                    record_read(buf, p),
                    |r: RecordView, p2: int| Parse::Parsed(rs.push(r), p2),
                ),
        )
    }
}

/// Reading a message at `pos`: the header, then as many questions, answers,
/// authority and additional records as its counts give.
pub open spec fn packet_read(buf: Seq<u8>, pos: int) -> Parse<PacketView> {
    if pos + 12 > 512 {
        Parse::Failed(ReadErr::EndOfBuffer, pos_after_overrun(pos))
    } else {
        let h = header_after_read(empty_header(), buf, pos);
        parse_then(
            questions_read(buf, pos + 12, h.questions as nat),
            |qs: Seq<QuestionView>, p1: int|
                parse_then(
                    records_read(buf, p1, h.answers as nat),
                    |an: Seq<RecordView>, p2: int|
                        parse_then(
                            records_read(buf, p2, h.authoritative_entries as nat),
                            |au: Seq<RecordView>, p3: int|
                                parse_then(
                                    records_read(buf, p3, h.resource_entries as nat),
                                    |rs: Seq<RecordView>, p4: int|
                                        Parse::Parsed(
                                            PacketView {
                                                header: h,
                                                questions: qs,
                                                answers: an,
                                                authorities: au,
                                                resources: rs,
                                            },
                                            p4,
                                        ),
                                ),
                        ),
                ),
        )
    }
}

/// A list read stops for good at its first failure.
proof fn lemma_questions_stop(buf: Seq<u8>, pos: int, i: nat, n: nat)
    requires
        i <= n,
        !(questions_read(buf, pos, i) is Parsed),
    ensures
        questions_read(buf, pos, n) == questions_read(buf, pos, i),
    decreases n,
{
    if n > i {
        lemma_questions_stop(buf, pos, i, (n - 1) as nat);
    }
}

/// A list read stops for good at its first failure.
proof fn lemma_records_stop(buf: Seq<u8>, pos: int, i: nat, n: nat)
    requires
        i <= n,
        !(records_read(buf, pos, i) is Parsed),
    ensures
        records_read(buf, pos, n) == records_read(buf, pos, i),
    decreases n,
{
    if n > i {
        lemma_records_stop(buf, pos, i, (n - 1) as nat);
    }
}

/// How far reading a question at `pos` gets; it tells in particular whether
/// `DnsQuestion::read` may be called there.
pub fn question_reach(buf: &[u8; 512], pos: usize) -> (res: Reach)
    ensures
        reaches(res, question_parse(buf@, pos as int)),
{
    let (end, p) = scan_qname(buf, pos);
    match end {
        QnameEnd::Done => if p > 510 {
            Reach::Fails
        } else if p <= 508 {
            Reach::To(p + 4)
        } else {
            Reach::To(512)
        },
        QnameEnd::Overrun => Reach::Overruns,
        _ => Reach::Fails,
    }
}

/// How far reading `n` questions one after another from `pos` gets.
pub fn questions_reach(buf: &[u8; 512], pos: usize, n: u16) -> (res: Reach)
    ensures
        reaches(res, questions_read(buf@, pos as int, n as nat)),
{
    let ghost b = buf@;
    let mut cur = pos;
    let mut i: u16 = 0;
    while i < n
        invariant
            b == buf@,
            i <= n,
            questions_read(b, pos as int, i as nat) matches Parse::Parsed(_, q) && q == cur,
        decreases n - i,
    {
        let r = question_reach(buf, cur);
        match r {
            Reach::To(q) => {
                cur = q;
            },
            _ => {
                proof {
                    lemma_questions_stop(b, pos as int, (i + 1) as nat, n as nat);
                }
                return r;
            },
        }
        i += 1;
    }
    Reach::To(cur)
}

/// How far reading `n` records one after another from `pos` gets.
pub fn records_reach(buf: &[u8; 512], pos: usize, n: u16) -> (res: Reach)
    ensures
        reaches(res, records_read(buf@, pos as int, n as nat)),
{
    let ghost b = buf@;
    let mut cur = pos;
    let mut i: u16 = 0;
    while i < n
        invariant
            b == buf@,
            i <= n,
            records_read(b, pos as int, i as nat) matches Parse::Parsed(_, q) && q == cur,
        decreases n - i,
    {
        let r = record_reach(buf, cur);
        match r {
            Reach::To(q) => {
                cur = q;
            },
            _ => {
                proof {
                    lemma_records_stop(b, pos as int, (i + 1) as nat, n as nat);
                }
                return r;
            },
        }
        i += 1;
    }
    Reach::To(cur)
}

/// Reads `count` records into `out`.
fn read_records(buffer: &mut BytePacketBuffer, count: u16, out: &mut Vec<DnsRecord>) -> (res: Result<(), String>)
    requires
        !(records_read(old(buffer).buf@, old(buffer).pos as int, count as nat) is Overrun),
    ensures
        final(buffer).buf == old(buffer).buf,
        match records_read(old(buffer).buf@, old(buffer).pos as int, count as nat) {
            Parse::Parsed(rs, q) => res is Ok && records_view(final(out)@) == records_view(old(out)@) + rs
                && final(buffer).pos == q,
            Parse::Failed(e, q) => err_is(res, read_err_msg(e)) && final(buffer).pos == q,
            Parse::Overrun => false,
        },
{
    let ghost b = old(buffer).buf@;
    let ghost p0 = old(buffer).pos as int;
    let ghost base = records_view(old(out)@);
    proof {
        assert(base + Seq::<RecordView>::empty() =~= base);
    }
    for i in 0..count
        invariant
            buffer.buf@ == b,
            b == old(buffer).buf@,
            p0 == old(buffer).pos as int,
            base == records_view(old(out)@),
            !(records_read(b, p0, count as nat) is Overrun),
            records_read(b, p0, i as nat) matches Parse::Parsed(rs, q) && records_view(out@) == base + rs
                && buffer.pos == q,
    {
        let ghost prev = records_read(b, p0, i as nat);
        let ghost rs = prev->Parsed_0;
        proof {
            if record_read(b, buffer.pos as int) is Overrun {
                lemma_records_stop(b, p0, (i + 1) as nat, count as nat);
            }
        }
        let record = match DnsRecord::read(buffer) {
            Ok(r) => r,
            Err(e) => {
                proof {
                    lemma_records_stop(b, p0, (i + 1) as nat, count as nat);
                }
                return Err(e);
            },
        };
        let ghost before = out@;
        out.push(record);
        proof {
            assert(records_view(out@) =~= records_view(before).push(record@));
            assert(records_view(out@) =~= base + rs.push(record@));
        }
    }
    Ok(())
}

/// Reads `count` questions into `out`.
fn read_questions(buffer: &mut BytePacketBuffer, count: u16, out: &mut Vec<DnsQuestion>) -> (res: Result<(), String>)
    requires
        !(questions_read(old(buffer).buf@, old(buffer).pos as int, count as nat) is Overrun),
    ensures
        final(buffer).buf == old(buffer).buf,
        match questions_read(old(buffer).buf@, old(buffer).pos as int, count as nat) {
            Parse::Parsed(qs, q) => res is Ok && questions_view(final(out)@) == questions_view(old(out)@)
                + qs && final(buffer).pos == q,
            Parse::Failed(e, q) => err_is(res, read_err_msg(e)) && final(buffer).pos == q,
            Parse::Overrun => false,
        },
{
    let ghost b = old(buffer).buf@;
    let ghost p0 = old(buffer).pos as int;
    let ghost base = questions_view(old(out)@);
    proof {
        assert(base + Seq::<QuestionView>::empty() =~= base);
    }
    for i in 0..count
        invariant
            buffer.buf@ == b,
            b == old(buffer).buf@,
            p0 == old(buffer).pos as int,
            base == questions_view(old(out)@),
            !(questions_read(b, p0, count as nat) is Overrun),
            questions_read(b, p0, i as nat) matches Parse::Parsed(qs, q) && questions_view(out@) == base
                + qs && buffer.pos == q,
    {
        let ghost prev = questions_read(b, p0, i as nat);
        let ghost qs = prev->Parsed_0;
        proof {
            if qname_read(b, buffer.pos as int).end is Overrun {
                lemma_questions_stop(b, p0, (i + 1) as nat, count as nat);
            }
        }
        let mut question = DnsQuestion::new(String::new(), QueryType::UNKNOWN(0));
        match question.read(buffer) {
            Ok(()) => {},
            Err(e) => {
                proof {
                    lemma_questions_stop(b, p0, (i + 1) as nat, count as nat);
                }
                return Err(e);
            },
        }
        proof {
            assert(question.name@ =~= question_read(b, prev->Parsed_1).text);
        }
        let ghost before = out@;
        out.push(question);
        proof {
            assert(questions_view(out@) =~= questions_view(before).push(question@));
            assert(questions_view(out@) =~= base + qs.push(question@));
        }
    }
    Ok(())
}

/// The message with each header count set to the length of its section, as the
/// 16-bit field holds it.
pub open spec fn with_counts(v: PacketView) -> PacketView {
    PacketView {
        header: DnsHeader {
            questions: v.questions.len() as u16,
            answers: v.answers.len() as u16,
            authoritative_entries: v.authorities.len() as u16,
            resource_entries: v.resources.len() as u16,
            ..v.header
        },
        ..v
    }
}

/// The wire units of a list of questions.
pub open spec fn question_pieces(qs: Seq<QuestionView>) -> Seq<Piece> {
    qs.map_values(|q: QuestionView| question_piece(q))
}

/// The wire units of a list of records.
pub open spec fn record_pieces(rs: Seq<RecordView>) -> Seq<Piece> {
    rs.map_values(|r: RecordView| record_piece(r))
}

/// A message on the wire: the header, then each question and record in order.
pub open spec fn packet_pieces(v: PacketView) -> Seq<Piece> {
    seq![bytes_piece(header_bytes(v.header))] + question_pieces(v.questions) + record_pieces(
        v.answers,
    ) + record_pieces(v.authorities) + record_pieces(v.resources)
}

/// `suffix` ends `s`.
pub open spec fn is_suffix(suffix: Seq<u8>, s: Seq<u8>) -> bool {
    suffix.len() <= s.len() && s.subrange(s.len() - suffix.len(), s.len() as int) == suffix
}

/// The name `domain` ends the name `qname`, compared as UTF-8 bytes.
pub open spec fn domain_ends(qname: Seq<char>, domain: Seq<char>) -> bool {
    is_suffix(encode_utf8(domain), encode_utf8(qname))
}

/// A sequence of bytes ends with any sequence it is the tail of, itself included.
pub proof fn law_suffix_of_concat(a: Seq<u8>, b: Seq<u8>)
    ensures
        is_suffix(b, a + b),
        is_suffix(b, b),
{
    assert((a + b).subrange(a.len() as int, (a + b).len() as int) =~= b);
    assert(b.subrange(0, b.len() as int) =~= b);
}

/// The hosts of the NS records among `auths` whose domain ends `qname`, in order:
/// the name servers with authority for the name.
pub open spec fn ns_hosts(auths: Seq<RecordView>, qname: Seq<char>) -> Seq<Seq<char>>
    decreases auths.len(),
{
    if auths.len() == 0 {
        Seq::empty()
    } else {
        let rest = ns_hosts(auths.drop_first(), qname);
        match auths[0] {
            RecordView::NS { domain, host, .. } => if domain_ends(qname, domain) {
                seq![host] + rest
            } else {
                rest
            },
            _ => rest,
        }
    }
}

/// `suffix` ends `s` exactly when `s` is some bytes followed by `suffix`.
pub proof fn law_suffix_means_tail(suffix: Seq<u8>, s: Seq<u8>)
    ensures
        is_suffix(suffix, s) <==> (exists|a: Seq<u8>| s == a + suffix),
{
    if is_suffix(suffix, s) {
        let a = s.take(s.len() - suffix.len());
        assert(s =~= a + suffix);
    }
    if exists|a: Seq<u8>| s == a + suffix {
        let a = choose|a: Seq<u8>| s == a + suffix;
        law_suffix_of_concat(a, suffix);
    }
}

/// A name ends with itself: the name servers for a zone whose name is the query
/// name itself have authority for it, and an NS record for the query name is
/// taken, before any that follow it.
pub proof fn law_zone_of_the_name_itself(q: Seq<char>, host: Seq<char>, ttl: u32, rest: Seq<RecordView>)
    ensures
        domain_ends(q, q),
        ns_hosts(seq![RecordView::NS { domain: q, host, ttl }], q) == seq![host],
        ns_hosts(seq![RecordView::NS { domain: q, host, ttl }] + rest, q)[0] == host,
{
    law_suffix_of_concat(Seq::empty(), encode_utf8(q));
    let one = seq![RecordView::NS { domain: q, host, ttl }];
    let all = one + rest;
    assert(all.drop_first() =~= rest);
    assert(one.drop_first() =~= Seq::<RecordView>::empty());
    assert(ns_hosts(Seq::<RecordView>::empty(), q) =~= Seq::<Seq<char>>::empty());
    assert(seq![host] + Seq::<Seq<char>>::empty() =~= seq![host]);
}

/// The address of the first A record among `rs`.
pub open spec fn first_a(rs: Seq<RecordView>) -> Option<u32>
    decreases rs.len(),
{
    if rs.len() == 0 {
        None
    } else {
        match rs[0] {
            RecordView::A { address, .. } => Some(address),
            _ => first_a(rs.drop_first()),
        }
    }
}

/// The address of the first A record among `rs` for the name `host`.
pub open spec fn first_a_for(rs: Seq<RecordView>, host: Seq<char>) -> Option<u32>
    decreases rs.len(),
{
    if rs.len() == 0 {
        None
    } else {
        match rs[0] {
            RecordView::A { domain, address, .. } => if domain == host {
                Some(address)
            } else {
                first_a_for(rs.drop_first(), host)
            },
            _ => first_a_for(rs.drop_first(), host),
        }
    }
}

/// The first address that `rs` gives for one of `hosts`, trying them in order.
pub open spec fn resolved_ns(hosts: Seq<Seq<char>>, rs: Seq<RecordView>) -> Option<u32>
    decreases hosts.len(),
{
    if hosts.len() == 0 {
        None
    } else {
        match first_a_for(rs, hosts[0]) {
            Some(a) => Some(a),
            None => resolved_ns(hosts.drop_first(), rs),
        }
    }
}

/// Whether `suffix` ends `s`, byte for byte.
fn ends_with(s: &str, suffix: &str) -> (res: bool)
    ensures
        res == is_suffix(encode_utf8(suffix@), encode_utf8(s@)),
{
    let a = s.as_bytes();
    let b = suffix.as_bytes();
    if b.len() > a.len() {
        return false;
    }
    let off = a.len() - b.len();
    let mut i: usize = 0;
    while i < b.len()
        invariant
            a@ == encode_utf8(s@),
            b@ == encode_utf8(suffix@),
            off == a.len() - b.len(),
            i <= b.len(),
            forall|j: int| 0 <= j < i ==> a@[off + j] == b@[j],
        decreases b.len() - i,
    {
        if a[off + i] != b[i] {
            proof {
                assert(a@.subrange(off as int, a.len() as int)[i as int] != b@[i as int]);
            }
            return false;
        }
        i += 1;
    }
    proof {
        assert(a@.subrange(off as int, a.len() as int) =~= b@);
    }
    true
}

/// Writes the questions one after another.
fn write_questions(questions: &Vec<DnsQuestion>, buffer: &mut BytePacketBuffer) -> (res: Result<(), String>)
    ensures
        wrote_all(old(buffer), final(buffer), question_pieces(questions_view(questions@))),
        write_result(res, emit_all(old(buffer).buf@, old(buffer).pos as int, question_pieces(questions_view(questions@)))),
{
    let ghost b0 = old(buffer).buf@;
    let ghost p0 = old(buffer).pos as int;
    let ghost ps = question_pieces(questions_view(questions@));
    let mut i: usize = 0;
    proof {
        assert(ps.take(0) =~= Seq::<Piece>::empty());
    }
    while i < questions.len()
        invariant
            i <= questions.len(),
            ps.len() == questions.len(),
            ps == question_pieces(questions_view(questions@)),
            b0 == old(buffer).buf@,
            p0 == old(buffer).pos as int,
            ({
                let e = emit_all(b0, p0, ps.take(i as int));
                buffer.buf@ == e.buf && buffer.pos == e.pos && e.err is None
            }),
        decreases questions.len() - i,
    {
        proof {
            assert(ps.take(i + 1) =~= ps.take(i as int).push(ps[i as int]));
            lemma_emit_all_push(b0, p0, ps.take(i as int), ps[i as int]);
            assert(ps.take(i + 1) + ps.skip(i + 1) =~= ps);
            lemma_emit_all_concat(b0, p0, ps.take(i + 1), ps.skip(i + 1));
        }
        questions[i].write(buffer)?;
        i += 1;
    }
    proof {
        assert(ps.take(i as int) =~= ps);
    }
    Ok(())
}

/// Writes the records one after another.
fn write_records(records: &Vec<DnsRecord>, buffer: &mut BytePacketBuffer) -> (res: Result<(), String>)
    ensures
        wrote_all(old(buffer), final(buffer), record_pieces(records_view(records@))),
        write_result(res, emit_all(old(buffer).buf@, old(buffer).pos as int, record_pieces(records_view(records@)))),
{
    let ghost b0 = old(buffer).buf@;
    let ghost p0 = old(buffer).pos as int;
    let ghost ps = record_pieces(records_view(records@));
    let mut i: usize = 0;
    proof {
        assert(ps.take(0) =~= Seq::<Piece>::empty());
    }
    while i < records.len()
        invariant
            i <= records.len(),
            ps.len() == records.len(),
            ps == record_pieces(records_view(records@)),
            b0 == old(buffer).buf@,
            p0 == old(buffer).pos as int,
            ({
                let e = emit_all(b0, p0, ps.take(i as int));
                buffer.buf@ == e.buf && buffer.pos == e.pos && e.err is None
            }),
        decreases records.len() - i,
    {
        proof {
            assert(ps.take(i + 1) =~= ps.take(i as int).push(ps[i as int]));
            lemma_emit_all_push(b0, p0, ps.take(i as int), ps[i as int]);
            assert(ps.take(i + 1) + ps.skip(i + 1) =~= ps);
            lemma_emit_all_concat(b0, p0, ps.take(i + 1), ps.skip(i + 1));
        }
        records[i].write(buffer)?;
        i += 1;
    }
    proof {
        assert(ps.take(i as int) =~= ps);
    }
    Ok(())
}

impl DnsPacket {
    pub fn new() -> (res: DnsPacket)
        ensures
            res@ == empty_packet(),
            res.questions@.len() == 0,
            res.answers@.len() == 0,
            res.authorities@.len() == 0,
            res.resources@.len() == 0,
    {
        let res = DnsPacket {
            header: DnsHeader::new(),
            questions: Vec::new(),
            answers: Vec::new(),
            authorities: Vec::new(),
            resources: Vec::new(),
        };
        proof {
            assert(res@.questions =~= Seq::<QuestionView>::empty());
            assert(res@.answers =~= Seq::<RecordView>::empty());
            assert(res@.authorities =~= Seq::<RecordView>::empty());
            assert(res@.resources =~= Seq::<RecordView>::empty());
        }
        res
    }

    /// Reads a whole message at the buffer's position. Messages with a name whose
    /// label runs past the end of the buffer are outside its domain, as for
    /// `BytePacketBuffer::read_qname`; `DnsPacket::overruns` tells beforehand
    /// whether a message is one.
    pub fn from_buffer(buffer: &mut BytePacketBuffer) -> (res: Result<DnsPacket, String>)
        requires
            !(packet_read(old(buffer).buf@, old(buffer).pos as int) is Overrun),
        ensures
            final(buffer).buf == old(buffer).buf,
            parse_matches(
                res,
                final(buffer).pos as int,
                packet_read(old(buffer).buf@, old(buffer).pos as int),
                |p: DnsPacket| p@,
            ),
    {
        let ghost b = old(buffer).buf@;
        let ghost p0 = old(buffer).pos as int;
        let mut result = DnsPacket::new();
        result.header.read(buffer)?;
        let ghost h = result.header;

        read_questions(buffer, result.header.questions, &mut result.questions)?;
        read_records(buffer, result.header.answers, &mut result.answers)?;
        read_records(buffer, result.header.authoritative_entries, &mut result.authorities)?;
        read_records(buffer, result.header.resource_entries, &mut result.resources)?;

        proof {
            assert(result@.questions =~= Seq::<QuestionView>::empty() + result@.questions);
        }
        Ok(result)
    }

    /// Whether reading a message at the buffer's position would meet a label that
    /// runs past the end of the buffer, the one input `from_buffer` does not take.
    pub fn overruns(buffer: &BytePacketBuffer) -> (res: bool)
        ensures
            res == packet_read(buffer.buf@, buffer.pos as int) is Overrun,
    {
        let buf = &buffer.buf;
        let pos = buffer.pos;
        if pos > 500 {
            return false;
        }
        let ghost h = header_after_read(empty_header(), buf@, pos as int);
        assert(room(pos as int) / 2 >= 6);
        let qd = be16_at(buf, pos + 4);
        let an = be16_at(buf, pos + 6);
        let ns = be16_at(buf, pos + 8);
        let ar = be16_at(buf, pos + 10);
        assert(h.questions == qd && h.answers == an && h.authoritative_entries == ns
            && h.resource_entries == ar);
        let p1 = match questions_reach(buf, pos + 12, qd) {
            Reach::To(q) => q,
            Reach::Fails => {
                return false;
            },
            Reach::Overruns => {
                return true;
            },
        };
        let p2 = match records_reach(buf, p1, an) {
            Reach::To(q) => q,
            Reach::Fails => {
                return false;
            },
            Reach::Overruns => {
                return true;
            },
        };
        let p3 = match records_reach(buf, p2, ns) {
            Reach::To(q) => q,
            Reach::Fails => {
                return false;
            },
            Reach::Overruns => {
                return true;
            },
        };
        match records_reach(buf, p3, ar) {
            Reach::Overruns => true,
            _ => false,
        }
    }

    /// Sets the header counts from the sections and writes the message at the
    /// buffer's position.
    pub fn write(&mut self, buffer: &mut BytePacketBuffer) -> (res: Result<(), String>)
        ensures
            final(self)@ == with_counts(old(self)@),
            wrote_all(old(buffer), final(buffer), packet_pieces(final(self)@)),
            write_result(res, emit_all(old(buffer).buf@, old(buffer).pos as int, packet_pieces(final(self)@))),
    {
        self.header.questions = self.questions.len() as u16;
        self.header.answers = self.answers.len() as u16;
        self.header.authoritative_entries = self.authorities.len() as u16;
        self.header.resource_entries = self.resources.len() as u16;
        proof {
            assert(self@.header == with_counts(old(self)@).header);
        }
        self.write_sections(buffer)
    }

    /// Writes the header and then every entry of each section in order.
    fn write_sections(&self, buffer: &mut BytePacketBuffer) -> (res: Result<(), String>)
        ensures
            wrote_all(old(buffer), final(buffer), packet_pieces(self@)),
            write_result(res, emit_all(old(buffer).buf@, old(buffer).pos as int, packet_pieces(self@))),
    {
        let ghost b0 = old(buffer).buf@;
        let ghost p0 = old(buffer).pos as int;
        let ghost v = self@;
        let ghost s0 = seq![bytes_piece(header_bytes(v.header))];
        let ghost s1 = s0 + question_pieces(v.questions);
        let ghost s2 = s1 + record_pieces(v.answers);
        let ghost s3 = s2 + record_pieces(v.authorities);
        proof {
            assert(s0 =~= Seq::<Piece>::empty().push(bytes_piece(header_bytes(v.header))));
            lemma_emit_all_push(b0, p0, Seq::<Piece>::empty(), bytes_piece(header_bytes(v.header)));
            assert(packet_pieces(v) == s3 + record_pieces(v.resources));
            lemma_emit_all_concat(b0, p0, s3, record_pieces(v.resources));
            lemma_emit_all_concat(b0, p0, s2, record_pieces(v.authorities));
            lemma_emit_all_concat(b0, p0, s1, record_pieces(v.answers));
            lemma_emit_all_concat(b0, p0, s0, question_pieces(v.questions));
        }
        let r = self.header.write(buffer);
        if r.is_err() {
            return r;
        }
        let r = write_questions(&self.questions, buffer);
        if r.is_err() {
            return r;
        }
        let r = write_records(&self.answers, buffer);
        if r.is_err() {
            return r;
        }
        let r = write_records(&self.authorities, buffer);
        if r.is_err() {
            return r;
        }
        write_records(&self.resources, buffer)
    }

    /// The address of the first A record in the answer section. When a name has
    /// several addresses, any of them will do.
    pub fn get_random_a(&self) -> (res: Option<u32>)
        ensures
            res == first_a(records_view(self.answers@)),
    {
        let ghost rs = records_view(self.answers@);
        let mut i: usize = 0;
        proof {
            assert(rs.skip(0) =~= rs);
        }
        while i < self.answers.len()
            invariant
                i <= self.answers.len(),
                rs == records_view(self.answers@),
                first_a(rs) == first_a(rs.skip(i as int)),
            decreases self.answers.len() - i,
        {
            proof {
                assert(rs.skip(i as int).drop_first() =~= rs.skip(i + 1));
                assert(rs.skip(i as int)[0] == self.answers@[i as int]@);
            }
            match &self.answers[i] {
                DnsRecord::A { address, .. } => {
                    return Some(*address);
                },
                _ => {},
            }
            i += 1;
        }
        None
    }

    /// The address that the additional section gives for a name server with
    /// authority for `qname`, trying those of the authority section in order. Name
    /// servers often bundle these A records with their NS records.
    pub fn get_resolved_ns(&self, qname: &str) -> (res: Option<u32>)
        ensures
            res == resolved_ns(
                ns_hosts(records_view(self.authorities@), qname@),
                records_view(self.resources@),
            ),
    {
        let ghost auths = records_view(self.authorities@);
        let ghost rs = records_view(self.resources@);
        let mut i: usize = 0;
        proof {
            assert(auths.skip(0) =~= auths);
        }
        while i < self.authorities.len()
            invariant
                i <= self.authorities.len(),
                auths == records_view(self.authorities@),
                rs == records_view(self.resources@),
                resolved_ns(ns_hosts(auths, qname@), rs) == resolved_ns(
                    ns_hosts(auths.skip(i as int), qname@),
                    rs,
                ),
            decreases self.authorities.len() - i,
        {
            proof {
                assert(auths.skip(i as int).drop_first() =~= auths.skip(i + 1));
                assert(auths.skip(i as int)[0] == self.authorities@[i as int]@);
            }
            match &self.authorities[i] {
                DnsRecord::NS { domain, host, .. } => {
                    if ends_with(qname, domain.as_str()) {
                        let ghost hosts = ns_hosts(auths.skip(i as int), qname@);
                        proof {
                            assert(hosts.drop_first() =~= ns_hosts(auths.skip(i + 1), qname@));
                            assert(rs.skip(0) =~= rs);
                            assert(hosts[0] == host@);
                        }
                        let mut j: usize = 0;
                        while j < self.resources.len()
                            invariant
                                j <= self.resources.len(),
                                rs == records_view(self.resources@),
                                first_a_for(rs, host@) == first_a_for(rs.skip(j as int), host@),
                                hosts.len() > 0,
                                hosts[0] == host@,
                                auths == records_view(self.authorities@),
                                resolved_ns(ns_hosts(auths, qname@), rs) == resolved_ns(hosts, rs),
                            decreases self.resources.len() - j,
                        {
                            proof {
                                assert(rs.skip(j as int).drop_first() =~= rs.skip(j + 1));
                                assert(rs.skip(j as int)[0] == self.resources@[j as int]@);
                            }
                            match &self.resources[j] {
                                DnsRecord::A { domain: a_domain, address, .. } => {
                                    if *a_domain == *host {
                                        return Some(*address);
                                    }
                                },
                                _ => {},
                            }
                            j += 1;
                        }
                        proof {
                            assert(rs.skip(j as int) =~= Seq::<RecordView>::empty());
                        }
                    }
                },
                _ => {},
            }
            i += 1;
        }
        proof {
            assert(auths.skip(i as int) =~= Seq::<RecordView>::empty());
        }
        None
    }

    /// The host of the first name server with authority for `qname`, for when its
    /// address has to be looked up separately.
    pub fn get_unresolved_ns(&self, qname: &str) -> (res: Option<&str>)
        ensures
            ({
                let hosts = ns_hosts(records_view(self.authorities@), qname@);
                &&& hosts.len() == 0 ==> res is None
                &&& hosts.len() > 0 ==> (res matches Some(h) && h@ == hosts[0])
            }),
    {
        let ghost auths = records_view(self.authorities@);
        let mut i: usize = 0;
        proof {
            assert(auths.skip(0) =~= auths);
        }
        while i < self.authorities.len()
            invariant
                i <= self.authorities.len(),
                auths == records_view(self.authorities@),
                ns_hosts(auths, qname@) == ns_hosts(auths.skip(i as int), qname@),
            decreases self.authorities.len() - i,
        {
            proof {
                assert(auths.skip(i as int).drop_first() =~= auths.skip(i + 1));
                assert(auths.skip(i as int)[0] == self.authorities@[i as int]@);
            }
            match &self.authorities[i] {
                DnsRecord::NS { domain, host, .. } => {
                    if ends_with(qname, domain.as_str()) {
                        return Some(host.as_str());
                    }
                },
                _ => {},
            }
            i += 1;
        }
        proof {
            assert(auths.skip(i as int) =~= Seq::<RecordView>::empty());
        }
        None
    }
}

impl Default for DnsPacket {
    fn default() -> (res: DnsPacket)
        ensures
            res@ == empty_packet(),
    {
        DnsPacket::new()
    }
}

} // verus!

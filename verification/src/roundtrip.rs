//! What reading gives back of what writing wrote.

use crate::buf::{
    ascii_chars, be16, be32, bytes_piece, emit, first_dot, is_ascii_bytes, lemma_first_dot_bounds,
    name_piece, qname_piece, qname_read, qname_walk, room, u16_bytes, u32_bytes, QnameEnd,
    QnameRead,
};
use crate::record::header::{
    bit, decode_flags, flag, flags_hi, flags_lo, header_after_read, header_bytes, DnsHeader,
};
use crate::record::{law_result_code_num, result_code_num};
use crate::record::question::{is_canonical, query_type_num, question_piece, QuestionView};
use crate::record::packet::question_parse;
use crate::record::record::{
    aaaa_segments, record_piece, record_read, segments_bytes, RecordView,
};
use crate::buf::Parse;
use vstd::prelude::*;
use vstd::utf8::{encode_utf8, is_ascii_chars, is_ascii_chars_encode_utf8};

verus! {

/// Every label of the name (the parts between dots) has 1 to 63 bytes.
pub open spec fn plain_labels(s: Seq<u8>) -> bool
    decreases s.len(),
{
    let d = first_dot(s);
    1 <= d <= 63 && (d < s.len() ==> plain_labels(s.skip(d + 1)))
}

/// No byte is an ASCII upper-case letter.
pub open spec fn no_upper_bytes(s: Seq<u8>) -> bool {
    forall|i: int| 0 <= i < s.len() ==> !(65 <= #[trigger] s[i] <= 90)
}

/// A name that reads back exactly as it was written: ASCII, without upper-case
/// letters (reading lower-cases), and with labels of 1 to 63 bytes (an empty label
/// ends a name, a longer one cannot be written).
pub open spec fn plain_name(name: Seq<char>) -> bool {
    &&& is_ascii_chars(name)
    &&& forall|i: int| 0 <= i < name.len() ==> !('A' <= #[trigger] name[i] <= 'Z')
    &&& plain_labels(encode_utf8(name))
}

/// The first dot, when there is one, is a dot.
pub(crate) proof fn lemma_first_dot_is_dot(s: Seq<u8>)
    ensures
        first_dot(s) < s.len() ==> s[first_dot(s)] == 46u8,
    decreases s.len(),
{
    if s.len() > 0 && s[0] != 46u8 {
        lemma_first_dot_is_dot(s.drop_first());
        let k = first_dot(s.drop_first());
        lemma_first_dot_bounds(s.drop_first());
        if k < s.drop_first().len() {
            assert(s.drop_first()[k] == s[k + 1]);
        }
    }
}

/// The wire form of a name with plain labels is complete: the length and bytes of
/// each label, then the zero byte.
pub proof fn lemma_plain_piece(s: Seq<u8>)
    requires
        plain_labels(s),
    ensures
        qname_piece(s).complete,
        qname_piece(s).full.len() >= 2,
        ({
            let d = first_dot(s);
            let rest = if d < s.len() {
                qname_piece(s.skip(d + 1)).full
            } else {
                seq![0u8]
            };
            qname_piece(s).full == seq![d as u8] + s.take(d) + rest
        }),
    decreases s.len(),
{
    lemma_first_dot_bounds(s);
    let d = first_dot(s);
    if d < s.len() {
        lemma_plain_piece(s.skip(d + 1));
    }
}

/// Reading a name whose wire form lies at `cur`, before any pointer was followed,
/// appends its text (after a dot when a label came before) and ends right after it.
proof fn lemma_walk_plain(buf: Seq<u8>, cur: int, p: int, text: Seq<char>, dot: bool, s: Seq<u8>)
    requires
        plain_labels(s),
        is_ascii_bytes(s),
        no_upper_bytes(s),
        buf.len() == 512,
        0 <= cur,
        cur + qname_piece(s).full.len() <= 512,
        buf.subrange(cur, cur + qname_piece(s).full.len()) == qname_piece(s).full,
    ensures
        qname_walk(buf, cur, p, false, 0, text, dot) == (QnameRead {
            text: text + (if dot {
                "."@
            } else {
                Seq::empty()
            }) + ascii_chars(s),
            end: QnameEnd::Done,
            pos: cur + qname_piece(s).full.len(),
        }),
    decreases s.len(),
{
    reveal_strlit(".");
    lemma_plain_piece(s);
    lemma_first_dot_bounds(s);
    let d = first_dot(s);
    let label = s.take(d);
    let full = qname_piece(s).full;
    let n = full.len();
    assert(buf.subrange(cur, cur + n)[0] == buf[cur]);
    assert(buf[cur] == full[0]);
    assert(buf[cur] == d);
    let cur1 = cur + 1;
    assert(buf.subrange(cur1, cur1 + d) =~= label) by {
        assert forall|i: int| 0 <= i < d implies buf.subrange(cur1, cur1 + d)[i] == label[i] by {
            assert(buf.subrange(cur, cur + n)[1 + i] == buf[cur1 + i]);
        }
    }
    let text1 = text + (if dot {
        "."@
    } else {
        Seq::empty()
    });
    assert(ascii_chars(label) =~= ascii_chars(s).take(d));
    assert(crate::buf::label_text(label) =~= ascii_chars(label)) by {
        assert(is_ascii_bytes(label));
    }
    let text2 = text1 + ascii_chars(label);
    if d < s.len() {
        let s2 = s.skip(d + 1);
        lemma_plain_piece(s2);
        let n2 = qname_piece(s2).full.len();
        assert(n == 1 + d + n2);
        assert(buf.subrange(cur1 + d, cur1 + d + n2) =~= qname_piece(s2).full) by {
            assert forall|i: int| 0 <= i < n2 implies buf.subrange(cur1 + d, cur1 + d + n2)[i]
                == qname_piece(s2).full[i] by {
                assert(buf.subrange(cur, cur + n)[1 + d + i] == buf[cur1 + d + i]);
            }
        }
        assert(no_upper_bytes(s2)) by {
            assert forall|i: int| 0 <= i < s2.len() implies !(65 <= #[trigger] s2[i] <= 90) by {
                assert(s2[i] == s[d + 1 + i]);
            }
        }
        lemma_walk_plain(buf, cur1 + d, p, text2, true, s2);
        lemma_first_dot_is_dot(s);
        assert(s[d] == 46u8);
        assert(ascii_chars(s) =~= ascii_chars(label) + "."@ + ascii_chars(s2));
        assert(text2 + "."@ + ascii_chars(s2) =~= text1 + ascii_chars(s));
    } else {
        assert(label =~= s);
        assert(n == d + 2);
        assert(buf.subrange(cur, cur + n)[1 + d] == buf[cur1 + d]);
    }
}

/// `bytes` lie in `buf` from offset `at`, inside the 512-byte buffer.
pub open spec fn holds(buf: Seq<u8>, at: int, bytes: Seq<u8>) -> bool {
    &&& buf.len() == 512
    &&& 0 <= at
    &&& at + bytes.len() <= 512
    &&& buf.subrange(at, at + bytes.len()) == bytes
}

/// A unit written without error lies where it was written.
pub proof fn lemma_emit_holds(buf: Seq<u8>, pos: int, p: crate::buf::Piece)
    requires
        buf.len() == 512,
        0 <= pos,
        p.full.len() > 0 || pos <= 512,
        emit(buf, pos, p).err is None,
    ensures
        holds(emit(buf, pos, p).buf, pos, p.full),
{
    let e = emit(buf, pos, p);
    assert(pos + p.full.len() <= 512);
    assert(e.buf.subrange(pos, pos + p.full.len()) =~= p.full);
}

/// A part of a region that holds `a + b + c` holds `b`.
pub proof fn lemma_holds_part(buf: Seq<u8>, at: int, a: Seq<u8>, b: Seq<u8>, c: Seq<u8>)
    requires
        holds(buf, at, a + b + c),
    ensures
        holds(buf, at + a.len(), b),
{
    let n = (a + b + c).len();
    assert forall|i: int| 0 <= i < b.len() implies buf.subrange(at + a.len(), at + a.len() + b.len())[i] == b[i] by {
        assert(buf.subrange(at, at + n)[a.len() + i] == (a + b + c)[a.len() + i]);
    }
    assert(buf.subrange(at + a.len(), at + a.len() + b.len()) =~= b);
}

/// The big-endian value of the bytes of a 16-bit value is that value.
proof fn lemma_be16_bytes(buf: Seq<u8>, at: int, v: u16)
    requires
        holds(buf, at, u16_bytes(v)),
    ensures
        be16(buf, at) == v,
{
    assert(buf.subrange(at, at + 2)[0] == buf[at]);
    assert(buf.subrange(at, at + 2)[1] == buf[at + 1]);
}

/// The big-endian value of the bytes of a 32-bit value is that value.
proof fn lemma_be32_bytes(buf: Seq<u8>, at: int, v: u32)
    requires
        holds(buf, at, u32_bytes(v)),
    ensures
        be32(buf, at) == v,
{
    assert(buf.subrange(at, at + 4)[0] == buf[at]);
    assert(buf.subrange(at, at + 4)[1] == buf[at + 1]);
    assert(buf.subrange(at, at + 4)[2] == buf[at + 2]);
    assert(buf.subrange(at, at + 4)[3] == buf[at + 3]);
}

pub(crate) proof fn lemma_flag_bits(rd: u8, tc: u8, aa: u8, op: u8, qr: u8)
    by (bit_vector)
    requires
        rd <= 1,
        tc <= 1,
        aa <= 1,
        op < 16,
        qr <= 1,
    ensures
        (rd | (tc << 1u8) | (aa << 2u8) | (op << 3u8) | (qr << 7u8)) % 2 == rd,
        ((rd | (tc << 1u8) | (aa << 2u8) | (op << 3u8) | (qr << 7u8)) / 2) % 2 == tc,
        ((rd | (tc << 1u8) | (aa << 2u8) | (op << 3u8) | (qr << 7u8)) / 4) % 2 == aa,
        ((rd | (tc << 1u8) | (aa << 2u8) | (op << 3u8) | (qr << 7u8)) / 8) % 16 == op,
        ((rd | (tc << 1u8) | (aa << 2u8) | (op << 3u8) | (qr << 7u8)) / 128) % 2 == qr,
{
}

pub(crate) proof fn lemma_code_bits(rc: u8, cd: u8, z: u8, ra: u8)
    by (bit_vector)
    requires
        rc < 16,
        cd <= 1,
        z <= 1,
        ra <= 1,
    ensures
        (rc | (cd << 4u8) | (z << 6u8) | (ra << 7u8)) % 16 == rc,
        ((rc | (cd << 4u8) | (z << 6u8) | (ra << 7u8)) / 16) % 2 == cd,
        ((rc | (cd << 4u8) | (z << 6u8) | (ra << 7u8)) / 64) % 2 == z,
        ((rc | (cd << 4u8) | (z << 6u8) | (ra << 7u8)) / 128) % 2 == ra,
{
}

/// Reading a header where one was written gives back every field but the
/// reserved bit, which reading leaves as it was, when the operation code fits the
/// four bits that the wire gives it.
pub proof fn lemma_header_at(h0: DnsHeader, buf: Seq<u8>, at: int, h: DnsHeader)
    requires
        h.op_code < 16,
        holds(buf, at, header_bytes(h)),
    ensures
        header_after_read(h0, buf, at) == (DnsHeader { _z: h0._z, ..h }),
{
    let b = header_bytes(h);
    assert(room(at) / 2 >= 6);
    assert(Seq::<u8>::empty() + u16_bytes(h.id) + b.skip(2) =~= b);
    lemma_holds_part(buf, at, Seq::empty(), u16_bytes(h.id), b.skip(2));
    lemma_be16_bytes(buf, at, h.id);
    assert(buf.subrange(at, at + 12)[2] == buf[at + 2]);
    assert(buf.subrange(at, at + 12)[3] == buf[at + 3]);
    assert(buf[at + 2] == flags_hi(h));
    assert(buf[at + 3] == flags_lo(h));
    lemma_flag_bits(
        flag(h.recursion_desired),
        flag(h.truncated_message),
        flag(h.authoritative_answer),
        h.op_code,
        flag(h.response),
    );
    law_result_code_num(h.result_code, 0);
    lemma_code_bits(result_code_num(h.result_code), flag(h.checking_disabled), flag(h._z), flag(h.recursion_available));
    let f = decode_flags(h0, buf[at + 2], buf[at + 3]);
    assert(f.recursion_desired == h.recursion_desired);
    assert(f.truncated_message == h.truncated_message);
    assert(f.authoritative_answer == h.authoritative_answer);
    assert(f.op_code == h.op_code);
    assert(f.response == h.response);
    assert(f.result_code == h.result_code);
    assert(f.checking_disabled == h.checking_disabled);
    assert(f.recursion_available == h.recursion_available);
    let b4 = u16_bytes(h.id) + seq![flags_hi(h), flags_lo(h)];
    assert(b4 + u16_bytes(h.questions) + b.skip(6) =~= b);
    lemma_holds_part(buf, at, b4, u16_bytes(h.questions), b.skip(6));
    lemma_be16_bytes(buf, at + 4, h.questions);
    let b6 = b4 + u16_bytes(h.questions);
    assert(b6 + u16_bytes(h.answers) + b.skip(8) =~= b);
    lemma_holds_part(buf, at, b6, u16_bytes(h.answers), b.skip(8));
    lemma_be16_bytes(buf, at + 6, h.answers);
    let b8 = b6 + u16_bytes(h.answers);
    assert(b8 + u16_bytes(h.authoritative_entries) + b.skip(10) =~= b);
    lemma_holds_part(buf, at, b8, u16_bytes(h.authoritative_entries), b.skip(10));
    lemma_be16_bytes(buf, at + 8, h.authoritative_entries);
    let b10 = b8 + u16_bytes(h.authoritative_entries);
    assert(b10 + u16_bytes(h.resource_entries) + Seq::<u8>::empty() =~= b);
    lemma_holds_part(buf, at, b10, u16_bytes(h.resource_entries), Seq::empty());
    lemma_be16_bytes(buf, at + 10, h.resource_entries);
}

/// Reading a header at the position where one was just written gives back every
/// field, whatever the header read into held before, when the operation code
/// fits in four bits; the reserved bit is not read and keeps what the header read
/// into held.
pub proof fn law_header_roundtrip(h0: DnsHeader, buf: Seq<u8>, pos: int, h: DnsHeader)
    requires
        buf.len() == 512,
        0 <= pos,
        h.op_code < 16,
        emit(buf, pos, bytes_piece(header_bytes(h))).err is None,
    ensures
        header_after_read(h0, emit(buf, pos, bytes_piece(header_bytes(h))).buf, pos) == (DnsHeader {
            _z: h0._z,
            ..h
        }),
{
    lemma_emit_holds(buf, pos, bytes_piece(header_bytes(h)));
    lemma_header_at(h0, emit(buf, pos, bytes_piece(header_bytes(h))).buf, pos, h);
}

/// Reading a name where a plain name's wire form lies gives back the name and
/// ends right after it.
pub proof fn lemma_name_at(buf: Seq<u8>, at: int, name: Seq<char>)
    requires
        plain_name(name),
        holds(buf, at, name_piece(name).full),
    ensures
        qname_read(buf, at) == (QnameRead { text: name, end: QnameEnd::Done, pos: at + name_piece(name).full.len() }),
        name_piece(name).complete,
        name_piece(name).full.len() >= 2,
{
    let s = encode_utf8(name);
    is_ascii_chars_encode_utf8(name);
    lemma_plain_piece(s);
    assert(is_ascii_bytes(s));
    assert(no_upper_bytes(s)) by {
        assert forall|i: int| 0 <= i < s.len() implies !(65 <= #[trigger] s[i] <= 90) by {
            assert(name[i] as u8 == s[i]);
        }
    }
    lemma_walk_plain(buf, at, at, Seq::empty(), false, s);
    assert(ascii_chars(s) =~= name);
    assert(Seq::<char>::empty() + Seq::<char>::empty() + ascii_chars(s) =~= name);
}

/// Reading a name at the position where it was just written gives back the name,
/// and leaves the position right after it, when the name is plain.
pub proof fn law_name_roundtrip(buf: Seq<u8>, pos: int, name: Seq<char>)
    requires
        buf.len() == 512,
        0 <= pos,
        plain_name(name),
        emit(buf, pos, name_piece(name)).err is None,
    ensures
        ({
            let e = emit(buf, pos, name_piece(name));
            qname_read(e.buf, pos) == (QnameRead { text: name, end: QnameEnd::Done, pos: e.pos })
        }),
{
    lemma_plain_piece(encode_utf8(name));
    lemma_emit_holds(buf, pos, name_piece(name));
    lemma_name_at(emit(buf, pos, name_piece(name)).buf, pos, name);
}

/// A question that reads back exactly as written.
pub open spec fn plain_question(q: QuestionView) -> bool {
    plain_name(q.name) && is_canonical(q.query_type)
}

/// Reading a question where a plain question's wire form lies gives it back.
pub proof fn lemma_question_at(buf: Seq<u8>, at: int, q: QuestionView)
    requires
        plain_question(q),
        holds(buf, at, question_piece(q).full),
    ensures
        question_parse(buf, at) == Parse::Parsed(q, at + question_piece(q).full.len()),
        question_piece(q).complete,
{
    let np = name_piece(q.name);
    lemma_plain_piece(encode_utf8(q.name));
    let tail = u16_bytes(query_type_num(q.query_type)) + u16_bytes(1);
    assert(question_piece(q).full == np.full + tail);
    assert(np.full + tail + Seq::<u8>::empty() =~= np.full + tail);
    lemma_holds_part(buf, at, Seq::empty(), np.full, tail);
    assert(Seq::<u8>::empty() + np.full + tail =~= np.full + tail);
    lemma_holds_part(buf, at, Seq::empty(), np.full, tail);
    lemma_name_at(buf, at, q.name);
    assert(np.full + u16_bytes(query_type_num(q.query_type)) + u16_bytes(1) =~= np.full + tail);
    lemma_holds_part(buf, at, np.full, u16_bytes(query_type_num(q.query_type)), u16_bytes(1));
    lemma_be16_bytes(buf, at + np.full.len(), query_type_num(q.query_type));
}

/// A record that reads back exactly as written: an A, NS or AAAA record with plain
/// names (and eight address segments); other records are not written.
pub open spec fn plain_record(r: RecordView) -> bool {
    match r {
        RecordView::A { domain, .. } => plain_name(domain),
        RecordView::NS { domain, host, .. } => plain_name(domain) && plain_name(host),
        RecordView::AAAA { domain, address, .. } => plain_name(domain) && address.len() == 8,
        _ => false,
    }
}

/// The bytes of the 16-bit values lie two by two, most significant first.
proof fn lemma_segments_bytes_index(s: Seq<u16>)
    ensures
        segments_bytes(s).len() == 2 * s.len(),
        forall|i: int|
            0 <= i < s.len() ==> segments_bytes(s)[2 * i] == (s[i] / 256) as u8 && segments_bytes(
                s,
            )[2 * i + 1] == (s[i] % 256) as u8,
    decreases s.len(),
{
    if s.len() > 0 {
        let t = s.drop_last();
        lemma_segments_bytes_index(t);
        let sb = segments_bytes(s);
        assert(sb == segments_bytes(t) + u16_bytes(s.last()));
        assert forall|i: int| 0 <= i < s.len() implies sb[2 * i] == (s[i] / 256) as u8 && sb[2 * i
            + 1] == (s[i] % 256) as u8 by {
            if i < t.len() {
                assert(t[i] == s[i]);
                assert(sb[2 * i] == segments_bytes(t)[2 * i]);
                assert(sb[2 * i + 1] == segments_bytes(t)[2 * i + 1]);
            } else {
                assert(i == t.len());
                assert(sb[2 * i] == u16_bytes(s.last())[0]);
                assert(sb[2 * i + 1] == u16_bytes(s.last())[1]);
            }
        }
    }
}

proof fn lemma_a_at(buf: Seq<u8>, at: int, domain: Seq<char>, address: u32, ttl: u32)
    requires
        plain_name(domain),
        holds(buf, at, record_piece(RecordView::A { domain, address, ttl }).full),
    ensures
        ({
            let r = RecordView::A { domain, address, ttl };
            &&& record_read(buf, at) == Parse::Parsed(r, at + record_piece(r).full.len())
            &&& record_piece(r).complete
            &&& record_piece(r).full.len() >= 2
        }),
{
    let r = RecordView::A { domain, address, ttl };
    let np = name_piece(domain);
    lemma_plain_piece(encode_utf8(domain));
    let f1 = u16_bytes(1) + u16_bytes(1);
    let f2 = f1 + u32_bytes(ttl);
    let f3 = f2 + u16_bytes(4);
    let tail = f3 + u32_bytes(address);
    assert(record_piece(r).full == np.full + tail);
    assert(Seq::<u8>::empty() + np.full + tail =~= np.full + tail);
    lemma_holds_part(buf, at, Seq::empty(), np.full, tail);
    lemma_name_at(buf, at, domain);
    let p1 = at + np.full.len();
    assert(np.full + u16_bytes(1) + (u16_bytes(1) + u32_bytes(ttl) + u16_bytes(4) + u32_bytes(address)) =~= np.full + tail);
    lemma_holds_part(buf, at, np.full, u16_bytes(1), u16_bytes(1) + u32_bytes(ttl) + u16_bytes(4) + u32_bytes(address));
    lemma_be16_bytes(buf, p1, 1);
    assert(np.full + f1 + u32_bytes(ttl) + (u16_bytes(4) + u32_bytes(address)) =~= np.full + tail);
    lemma_holds_part(buf, at, np.full + f1, u32_bytes(ttl), u16_bytes(4) + u32_bytes(address));
    lemma_be32_bytes(buf, p1 + 4, ttl);
    assert(np.full + f3 + u32_bytes(address) + Seq::<u8>::empty() =~= np.full + tail);
    lemma_holds_part(buf, at, np.full + f3, u32_bytes(address), Seq::empty());
    lemma_be32_bytes(buf, p1 + 10, address);
}

proof fn lemma_ns_at(buf: Seq<u8>, at: int, domain: Seq<char>, host: Seq<char>, ttl: u32)
    requires
        plain_name(domain),
        plain_name(host),
        holds(buf, at, record_piece(RecordView::NS { domain, host, ttl }).full),
    ensures
        ({
            let r = RecordView::NS { domain, host, ttl };
            &&& record_read(buf, at) == Parse::Parsed(r, at + record_piece(r).full.len())
            &&& record_piece(r).complete
            &&& record_piece(r).full.len() >= 2
        }),
{
    let r = RecordView::NS { domain, host, ttl };
    let np = name_piece(domain);
    let hp = name_piece(host);
    lemma_plain_piece(encode_utf8(domain));
    lemma_plain_piece(encode_utf8(host));
    let fixed = u16_bytes(2) + u16_bytes(1) + u32_bytes(ttl);
    let mid = fixed + u16_bytes(hp.full.len() as u16);
    assert(record_piece(r).full == np.full + fixed + u16_bytes(hp.full.len() as u16) + hp.full);
    assert(Seq::<u8>::empty() + np.full + (mid + hp.full) =~= record_piece(r).full);
    lemma_holds_part(buf, at, Seq::empty(), np.full, mid + hp.full);
    lemma_name_at(buf, at, domain);
    let p1 = at + np.full.len();
    assert(np.full + u16_bytes(2) + (u16_bytes(1) + u32_bytes(ttl) + u16_bytes(hp.full.len() as u16) + hp.full) =~= record_piece(r).full);
    lemma_holds_part(buf, at, np.full, u16_bytes(2), u16_bytes(1) + u32_bytes(ttl) + u16_bytes(hp.full.len() as u16) + hp.full);
    lemma_be16_bytes(buf, p1, 2);
    assert(np.full + (u16_bytes(2) + u16_bytes(1)) + u32_bytes(ttl) + (u16_bytes(hp.full.len() as u16) + hp.full) =~= record_piece(r).full);
    lemma_holds_part(buf, at, np.full + (u16_bytes(2) + u16_bytes(1)), u32_bytes(ttl), u16_bytes(hp.full.len() as u16) + hp.full);
    lemma_be32_bytes(buf, p1 + 4, ttl);
    assert(np.full + mid + hp.full + Seq::<u8>::empty() =~= record_piece(r).full);
    lemma_holds_part(buf, at, np.full + mid, hp.full, Seq::empty());
    lemma_name_at(buf, p1 + 10, host);
}

proof fn lemma_aaaa_at(buf: Seq<u8>, at: int, domain: Seq<char>, address: Seq<u16>, ttl: u32)
    requires
        plain_name(domain),
        address.len() == 8,
        holds(buf, at, record_piece(RecordView::AAAA { domain, address, ttl }).full),
    ensures
        ({
            let r = RecordView::AAAA { domain, address, ttl };
            &&& record_read(buf, at) == Parse::Parsed(r, at + record_piece(r).full.len())
            &&& record_piece(r).complete
            &&& record_piece(r).full.len() >= 2
        }),
{
    let r = RecordView::AAAA { domain, address, ttl };
    let np = name_piece(domain);
    lemma_plain_piece(encode_utf8(domain));
    let f1 = u16_bytes(28) + u16_bytes(1);
    let f3 = f1 + u32_bytes(ttl) + u16_bytes(16);
    let sb = segments_bytes(address);
    let tail = f3 + sb;
    assert(record_piece(r).full == np.full + tail);
    assert(Seq::<u8>::empty() + np.full + tail =~= np.full + tail);
    lemma_holds_part(buf, at, Seq::empty(), np.full, tail);
    lemma_name_at(buf, at, domain);
    let p1 = at + np.full.len();
    assert(np.full + u16_bytes(28) + (u16_bytes(1) + u32_bytes(ttl) + u16_bytes(16) + sb) =~= np.full + tail);
    lemma_holds_part(buf, at, np.full, u16_bytes(28), u16_bytes(1) + u32_bytes(ttl) + u16_bytes(16) + sb);
    lemma_be16_bytes(buf, p1, 28);
    assert(np.full + f1 + u32_bytes(ttl) + (u16_bytes(16) + sb) =~= np.full + tail);
    lemma_holds_part(buf, at, np.full + f1, u32_bytes(ttl), u16_bytes(16) + sb);
    lemma_be32_bytes(buf, p1 + 4, ttl);
    assert(np.full + f3 + sb + Seq::<u8>::empty() =~= np.full + tail);
    lemma_holds_part(buf, at, np.full + f3, sb, Seq::empty());
    lemma_segments_bytes_index(address);
    let p = p1 + 10;
    assert(aaaa_segments(buf, p) =~= address) by {
        assert forall|i: int| 0 <= i < 8 implies aaaa_segments(buf, p)[i] == address[i] by {
            assert(buf.subrange(p, p + 16)[2 * i] == buf[p + 2 * i]);
            assert(buf.subrange(p, p + 16)[2 * i + 1] == buf[p + 2 * i + 1]);
        }
    }
}

/// Reading a record where a plain record's wire form lies gives it back.
pub proof fn lemma_record_at(buf: Seq<u8>, at: int, r: RecordView)
    requires
        plain_record(r),
        holds(buf, at, record_piece(r).full),
    ensures
        record_read(buf, at) == Parse::Parsed(r, at + record_piece(r).full.len()),
        record_piece(r).complete,
        record_piece(r).full.len() >= 2,
{
    match r {
        RecordView::A { domain, address, ttl } => lemma_a_at(buf, at, domain, address, ttl),
        RecordView::NS { domain, host, ttl } => lemma_ns_at(buf, at, domain, host, ttl),
        RecordView::AAAA { domain, address, ttl } => lemma_aaaa_at(buf, at, domain, address, ttl),
        _ => {},
    }
}

/// Reading a question at the position where it was just written gives it back,
/// and leaves the position right after it, when the question is plain.
pub proof fn law_question_roundtrip(buf: Seq<u8>, pos: int, q: QuestionView)
    requires
        buf.len() == 512,
        0 <= pos,
        plain_question(q),
        emit(buf, pos, question_piece(q)).err is None,
    ensures
        ({
            let e = emit(buf, pos, question_piece(q));
            question_parse(e.buf, pos) == Parse::Parsed(q, e.pos)
        }),
{
    lemma_plain_piece(encode_utf8(q.name));
    lemma_emit_holds(buf, pos, question_piece(q));
    lemma_question_at(emit(buf, pos, question_piece(q)).buf, pos, q);
}

/// Reading a record at the position where it was just written gives it back,
/// and leaves the position right after it, when the record is plain.
pub proof fn law_record_roundtrip(buf: Seq<u8>, pos: int, r: RecordView)
    requires
        buf.len() == 512,
        0 <= pos,
        plain_record(r),
        emit(buf, pos, record_piece(r)).err is None,
    ensures
        ({
            let e = emit(buf, pos, record_piece(r));
            record_read(e.buf, pos) == Parse::Parsed(r, e.pos)
        }),
{
    let e = emit(buf, pos, record_piece(r));
    assert(record_piece(r).full.len() > 0) by {
        match r {
            RecordView::A { domain, .. } => lemma_plain_piece(encode_utf8(domain)),
            RecordView::NS { domain, .. } => lemma_plain_piece(encode_utf8(domain)),
            RecordView::AAAA { domain, .. } => lemma_plain_piece(encode_utf8(domain)),
            _ => {},
        }
    }
    lemma_emit_holds(buf, pos, record_piece(r));
    lemma_record_at(e.buf, pos, r);
}

} // verus!

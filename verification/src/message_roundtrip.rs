//! What reading a whole message gives back of what writing it wrote.

use crate::buf::{
    bytes_piece, emit_all, lemma_emit_all_ok, pieces_bytes, Parse, Piece,
};
use crate::record::header::{empty_header, header_after_read, header_bytes};
use crate::record::packet::{
    packet_pieces, packet_read, question_pieces, questions_read, record_pieces, records_read,
    with_counts, PacketView,
};
use crate::record::question::{question_piece, QuestionView};
use crate::record::record::{record_piece, RecordView};
use crate::roundtrip::{
    holds, lemma_header_at, lemma_holds_part, lemma_plain_piece, lemma_question_at,
    lemma_record_at, plain_question, plain_record,
};
use vstd::prelude::*;
use vstd::utf8::encode_utf8;

verus! {

/// The bytes of two lists of units are the bytes of the first, then of the second.
proof fn lemma_pieces_bytes_concat(ps: Seq<Piece>, qs: Seq<Piece>)
    ensures
        pieces_bytes(ps + qs) == pieces_bytes(ps) + pieces_bytes(qs),
    decreases qs.len(),
{
    if qs.len() == 0 {
        assert(ps + qs =~= ps);
        assert(pieces_bytes(ps) + Seq::<u8>::empty() =~= pieces_bytes(ps));
    } else {
        lemma_pieces_bytes_concat(ps, qs.drop_last());
        assert((ps + qs).drop_last() =~= ps + qs.drop_last());
        assert((ps + qs).last() == qs.last());
        assert(pieces_bytes(ps) + pieces_bytes(qs.drop_last()) + qs.last().full =~= pieces_bytes(ps)
            + (pieces_bytes(qs.drop_last()) + qs.last().full));
    }
}

/// Reading questions where plain questions were written one after another gives
/// them back; each took at least one byte.
pub proof fn lemma_questions_at(buf: Seq<u8>, at: int, qs: Seq<QuestionView>)
    requires
        forall|i: int| 0 <= i < qs.len() ==> plain_question(#[trigger] qs[i]),
        holds(buf, at, pieces_bytes(question_pieces(qs))),
    ensures
        questions_read(buf, at, qs.len()) == Parse::Parsed(qs, at + pieces_bytes(question_pieces(qs)).len()),
        pieces_bytes(question_pieces(qs)).len() >= qs.len(),
    decreases qs.len(),
{
    if qs.len() > 0 {
        let init = qs.drop_last();
        let ps = question_pieces(qs);
        assert(ps.drop_last() =~= question_pieces(init));
        let pb = pieces_bytes(question_pieces(init));
        let last = question_piece(qs.last());
        assert(pieces_bytes(ps) == pb + last.full);
        assert(pb + last.full + Seq::<u8>::empty() =~= pb + last.full);
        assert(Seq::<u8>::empty() + pb + last.full =~= pb + last.full);
        lemma_holds_part(buf, at, Seq::empty(), pb, last.full);
        lemma_holds_part(buf, at, pb, last.full, Seq::empty());
        assert forall|i: int| 0 <= i < init.len() implies plain_question(#[trigger] init[i]) by {
            assert(init[i] == qs[i]);
        }
        lemma_questions_at(buf, at, init);
        assert(plain_question(qs[qs.len() - 1]));
        lemma_question_at(buf, at + pb.len(), qs.last());
        lemma_plain_piece(encode_utf8(qs.last().name));
        assert(init.push(qs.last()) =~= qs);
        assert(init.len() == (qs.len() - 1) as nat);
        assert(questions_read(buf, at, init.len()) == Parse::Parsed(init, at + pb.len()));
    } else {
        assert(qs =~= Seq::<QuestionView>::empty());
        assert(question_pieces(qs) =~= Seq::<Piece>::empty());
    }
}

/// Reading records where plain records were written one after another gives them
/// back; each took at least one byte.
pub proof fn lemma_records_at(buf: Seq<u8>, at: int, rs: Seq<RecordView>)
    requires
        forall|i: int| 0 <= i < rs.len() ==> plain_record(#[trigger] rs[i]),
        holds(buf, at, pieces_bytes(record_pieces(rs))),
    ensures
        records_read(buf, at, rs.len()) == Parse::Parsed(rs, at + pieces_bytes(record_pieces(rs)).len()),
        pieces_bytes(record_pieces(rs)).len() >= rs.len(),
    decreases rs.len(),
{
    if rs.len() > 0 {
        let init = rs.drop_last();
        let ps = record_pieces(rs);
        assert(ps.drop_last() =~= record_pieces(init));
        let pb = pieces_bytes(record_pieces(init));
        let last = record_piece(rs.last());
        assert(pieces_bytes(ps) == pb + last.full);
        assert(pb + last.full + Seq::<u8>::empty() =~= pb + last.full);
        assert(Seq::<u8>::empty() + pb + last.full =~= pb + last.full);
        lemma_holds_part(buf, at, Seq::empty(), pb, last.full);
        lemma_holds_part(buf, at, pb, last.full, Seq::empty());
        assert forall|i: int| 0 <= i < init.len() implies plain_record(#[trigger] init[i]) by {
            assert(init[i] == rs[i]);
        }
        lemma_records_at(buf, at, init);
        assert(plain_record(rs[rs.len() - 1]));
        lemma_record_at(buf, at + pb.len(), rs.last());
        assert(init.push(rs.last()) =~= rs);
        assert(init.len() == (rs.len() - 1) as nat);
        assert(records_read(buf, at, init.len()) == Parse::Parsed(init, at + pb.len()));
    } else {
        assert(rs =~= Seq::<RecordView>::empty());
        assert(record_pieces(rs) =~= Seq::<Piece>::empty());
    }
}

/// A message that reads back exactly as written: an operation code that fits in
/// four bits, the reserved header bit clear (reading leaves it so), and plain
/// questions and records.
pub open spec fn plain_packet(v: PacketView) -> bool {
    &&& v.header.op_code < 16
    &&& !v.header._z
    &&& forall|i: int| 0 <= i < v.questions.len() ==> plain_question(#[trigger] v.questions[i])
    &&& forall|i: int| 0 <= i < v.answers.len() ==> plain_record(#[trigger] v.answers[i])
    &&& forall|i: int| 0 <= i < v.authorities.len() ==> plain_record(#[trigger] v.authorities[i])
    &&& forall|i: int| 0 <= i < v.resources.len() ==> plain_record(#[trigger] v.resources[i])
}

/// The bytes of a message are those of its header and of each section in turn.
proof fn lemma_packet_bytes(w: PacketView)
    ensures
        pieces_bytes(packet_pieces(w)) == header_bytes(w.header) + pieces_bytes(question_pieces(w.questions))
            + pieces_bytes(record_pieces(w.answers)) + pieces_bytes(record_pieces(w.authorities))
            + pieces_bytes(record_pieces(w.resources)),
{
    let s0 = seq![bytes_piece(header_bytes(w.header))];
    let qp = question_pieces(w.questions);
    let ap = record_pieces(w.answers);
    let aup = record_pieces(w.authorities);
    let rp = record_pieces(w.resources);
    assert(pieces_bytes(s0) == header_bytes(w.header)) by {
        assert(s0.drop_last() =~= Seq::<Piece>::empty());
        assert(pieces_bytes(Seq::<Piece>::empty()) == Seq::<u8>::empty());
        assert(s0.last() == bytes_piece(header_bytes(w.header)));
        assert(Seq::<u8>::empty() + header_bytes(w.header) =~= header_bytes(w.header));
    }
    let b1 = pieces_bytes(s0 + qp);
    assert(b1 == pieces_bytes(s0) + pieces_bytes(qp)) by {
        lemma_pieces_bytes_concat(s0, qp);
    }
    let b2 = pieces_bytes(s0 + qp + ap);
    assert(b2 == b1 + pieces_bytes(ap)) by {
        lemma_pieces_bytes_concat(s0 + qp, ap);
    }
    let b3 = pieces_bytes(s0 + qp + ap + aup);
    assert(b3 == b2 + pieces_bytes(aup)) by {
        lemma_pieces_bytes_concat(s0 + qp + ap, aup);
    }
    assert(pieces_bytes(s0 + qp + ap + aup + rp) == b3 + pieces_bytes(rp)) by {
        lemma_pieces_bytes_concat(s0 + qp + ap + aup, rp);
    }
    assert(packet_pieces(w) == s0 + qp + ap + aup + rp);
}

/// Reading a message where a plain message's wire form lies gives it back.
#[verifier::rlimit(80)]
#[verifier::spinoff_prover]
proof fn lemma_packet_at(buf: Seq<u8>, pos: int, v: PacketView)
    requires
        plain_packet(v),
        holds(buf, pos, pieces_bytes(packet_pieces(with_counts(v)))),
    ensures
        packet_read(buf, pos) == Parse::Parsed(with_counts(v), pos + pieces_bytes(packet_pieces(with_counts(v))).len()),
{
    let w = with_counts(v);
    lemma_packet_bytes(w);
    let hb = header_bytes(w.header);
    let qb = pieces_bytes(question_pieces(v.questions));
    let ab = pieces_bytes(record_pieces(v.answers));
    let aub = pieces_bytes(record_pieces(v.authorities));
    let rb = pieces_bytes(record_pieces(v.resources));
    let all = pieces_bytes(packet_pieces(w));
    assert(all == hb + qb + ab + aub + rb);
    // The header.
    assert(Seq::<u8>::empty() + hb + (qb + ab + aub + rb) =~= all);
    lemma_holds_part(buf, pos, Seq::empty(), hb, qb + ab + aub + rb);
    lemma_header_at(empty_header(), buf, pos, w.header);
    let h = header_after_read(empty_header(), buf, pos);
    assert(h == w.header);
    // The sections, one after another.
    let p1 = pos + 12;
    assert(hb + qb + (ab + aub + rb) =~= all);
    lemma_holds_part(buf, pos, hb, qb, ab + aub + rb);
    lemma_questions_at(buf, p1, v.questions);
    let p2 = p1 + qb.len();
    assert(hb + qb + ab + (aub + rb) =~= all);
    lemma_holds_part(buf, pos, hb + qb, ab, aub + rb);
    lemma_records_at(buf, p2, v.answers);
    let p3 = p2 + ab.len();
    lemma_holds_part(buf, pos, hb + qb + ab, aub, rb);
    lemma_records_at(buf, p3, v.authorities);
    let p4 = p3 + aub.len();
    assert(hb + qb + ab + aub + rb + Seq::<u8>::empty() =~= all);
    lemma_holds_part(buf, pos, hb + qb + ab + aub, rb, Seq::empty());
    lemma_records_at(buf, p4, v.resources);
    // Each count fits its 16-bit field, since the message fits the buffer.
    assert(h.questions as nat == v.questions.len());
    assert(h.answers as nat == v.answers.len());
    assert(h.authoritative_entries as nat == v.authorities.len());
    assert(h.resource_entries as nat == v.resources.len());
    assert(questions_read(buf, p1, h.questions as nat) == Parse::Parsed(v.questions, p2));
    assert(records_read(buf, p2, h.answers as nat) == Parse::Parsed(v.answers, p3));
    assert(records_read(buf, p3, h.authoritative_entries as nat) == Parse::Parsed(v.authorities, p4));
    assert(records_read(buf, p4, h.resource_entries as nat) == Parse::Parsed(v.resources, p4 + rb.len()));
}

/// Reading a message at the position where one was just written gives back the
/// message, with its header counts set to the sizes of its sections, and leaves
/// the position right after it, when the message is plain.
#[verifier::rlimit(40)]
#[verifier::spinoff_prover]
pub proof fn law_packet_roundtrip(buf: Seq<u8>, pos: int, v: PacketView)
    requires
        buf.len() == 512,
        0 <= pos,
        plain_packet(v),
        emit_all(buf, pos, packet_pieces(with_counts(v))).err is None,
    ensures
        ({
            let e = emit_all(buf, pos, packet_pieces(with_counts(v)));
            packet_read(e.buf, pos) == Parse::Parsed(with_counts(v), e.pos)
        }),
{
    let w = with_counts(v);
    let ps = packet_pieces(w);
    let e = emit_all(buf, pos, ps);
    lemma_emit_all_ok(buf, pos, ps);
    let all = pieces_bytes(ps);
    assert(all.len() >= 12) by {
        lemma_packet_bytes(w);
    }
    assert(e.buf.subrange(pos, pos + all.len()) =~= all);
    assert(holds(e.buf, pos, all));
    lemma_packet_at(e.buf, pos, v);
}

} // verus!

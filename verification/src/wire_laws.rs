//! Where the wire format puts things: the flag bits of the header, the end of a
//! record, and how far a name is followed through compression pointers.

use crate::buf::{
    ascii_chars, be16, first_dot, is_ascii_bytes, label_text, lemma_first_dot_bounds, name_piece,
    qname_piece, qname_read, qname_walk, room, QnameEnd, QnameRead,
};
use crate::record::header::{flag, flags_hi, flags_lo, header_after_read, header_bytes, DnsHeader};
use crate::record::record::{record_read, RecordView};
use crate::record::{law_result_code_num, result_code_num, result_code_of};
use crate::roundtrip::{
    holds, lemma_code_bits, lemma_first_dot_is_dot, lemma_flag_bits, lemma_plain_piece,
    no_upper_bytes, plain_labels, plain_name,
};
use vstd::utf8::{encode_utf8, is_ascii_chars_encode_utf8};
use vstd::prelude::*;

verus! {

/// Reading a header takes each flag from its fixed place on the wire, whatever
/// the header held before: in the first flag byte (the header's third byte) bit 0
/// is recursion desired, bit 1 truncated, bit 2 authoritative answer, bits 3 to 6
/// the operation code and bit 7 response; in the second, bits 0 to 3 are the
/// response code, bit 4 checking disabled and bit 7 recursion available. The
/// id and the counts are the big-endian words around them.
pub proof fn law_header_flag_places(h0: DnsHeader, buf: Seq<u8>, pos: int)
    requires
        buf.len() == 512,
        0 <= pos,
        pos + 12 <= 512,
    ensures
        ({
            let h = header_after_read(h0, buf, pos);
            let a = buf[pos + 2] as int;
            let b = buf[pos + 3] as int;
            &&& h.id == buf[pos] * 256 + buf[pos + 1]
            &&& h.recursion_desired == (a % 2 == 1)
            &&& h.truncated_message == ((a / 2) % 2 == 1)
            &&& h.authoritative_answer == ((a / 4) % 2 == 1)
            &&& h.op_code == (a / 8) % 16
            &&& h.response == (a >= 128)
            &&& h.result_code == result_code_of(b % 16)
            &&& h.checking_disabled == ((b / 16) % 2 == 1)
            &&& h.recursion_available == (b >= 128)
            &&& h.questions == buf[pos + 4] * 256 + buf[pos + 5]
            &&& h.answers == buf[pos + 6] * 256 + buf[pos + 7]
            &&& h.authoritative_entries == buf[pos + 8] * 256 + buf[pos + 9]
            &&& h.resource_entries == buf[pos + 10] * 256 + buf[pos + 11]
        }),
{
    assert(room(pos) / 2 >= 6);
}

/// Writing a header puts each flag in its fixed place on the wire, the same
/// places that reading takes them from.
pub proof fn law_header_wire_flags(h: DnsHeader)
    requires
        h.op_code < 16,
    ensures
        ({
            let w = header_bytes(h);
            let a = w[2] as int;
            let b = w[3] as int;
            &&& w.len() == 12
            &&& w[0] * 256 + w[1] == h.id
            &&& w[4] * 256 + w[5] == h.questions
            &&& w[6] * 256 + w[7] == h.answers
            &&& w[8] * 256 + w[9] == h.authoritative_entries
            &&& w[10] * 256 + w[11] == h.resource_entries
            &&& (a % 2 == 1) == h.recursion_desired
            &&& ((a / 2) % 2 == 1) == h.truncated_message
            &&& ((a / 4) % 2 == 1) == h.authoritative_answer
            &&& (a / 8) % 16 == h.op_code
            &&& (a >= 128) == h.response
            &&& b % 16 == result_code_num(h.result_code)
            &&& ((b / 16) % 2 == 1) == h.checking_disabled
            &&& (b >= 128) == h.recursion_available
        }),
{
    let w = header_bytes(h);
    assert(w[2] == flags_hi(h));
    assert(w[3] == flags_lo(h));
    let rd = flag(h.recursion_desired);
    let tc = flag(h.truncated_message);
    let aa = flag(h.authoritative_answer);
    let qr = flag(h.response);
    lemma_flag_bits(rd, tc, aa, h.op_code, qr);
    law_result_code_num(h.result_code, 0);
    lemma_code_bits(result_code_num(h.result_code), flag(h.checking_disabled), flag(h._z), flag(h.recursion_available));
}

/// A record ends right after its data, which is where the next record is read
/// from: for a record whose data is a name (NS, CNAME, MX) that is where the name
/// read at the data (after the preference, for MX) ends, and the host is that
/// name; an A record's data is 4 bytes, an AAAA record's 16, and the data of any
/// other type is skipped by the data length field.
pub proof fn law_record_ends_after_its_data(buf: Seq<u8>, pos: int)
    requires
        record_read(buf, pos) is Parsed,
    ensures
        ({
            let w = qname_read(buf, pos);
            let p = w.pos + 10;
            let r = record_read(buf, pos)->Parsed_0;
            let q = record_read(buf, pos)->Parsed_1;
            &&& w.end is Done
            &&& (r matches RecordView::NS { host, .. } ==> q == qname_read(buf, p).pos && host
                == qname_read(buf, p).text)
            &&& (r matches RecordView::CNAME { host, .. } ==> q == qname_read(buf, p).pos && host
                == qname_read(buf, p).text)
            &&& (r matches RecordView::MX { host, .. } ==> q == qname_read(buf, p + 2).pos && host
                == qname_read(buf, p + 2).text)
            &&& (r is A ==> q == p + 4)
            &&& (r is AAAA ==> q == p + 16)
            &&& (r matches RecordView::UNKNOWN { data_len, .. } ==> q == p + data_len && data_len
                == be16(buf, w.pos + 8))
        }),
{
}

/// The text put before a label: a dot when a label came before.
pub open spec fn sep(dot: bool) -> Seq<char> {
    if dot {
        "."@
    } else {
        Seq::empty()
    }
}

/// The labels of a name on the wire without the zero byte that ends it.
pub open spec fn labels_bytes(name: Seq<char>) -> Seq<u8> {
    name_piece(name).full.drop_last()
}

/// The two bytes of a compression pointer to offset `o`: the top two bits set,
/// then the offset in the remaining fourteen bits.
pub open spec fn pointer_bytes(o: int) -> Seq<u8> {
    seq![(192 + o / 256) as u8, (o % 256) as u8]
}

/// The parts of a name joined by dots.
pub open spec fn dotted(parts: Seq<Seq<char>>) -> Seq<char>
    decreases parts.len(),
{
    if parts.len() == 0 {
        Seq::empty()
    } else if parts.len() == 1 {
        parts[0]
    } else {
        parts[0] + "."@ + dotted(parts.drop_first())
    }
}

/// `parts` lie at the offsets `at` as one name split by compression pointers: the
/// labels of each part but the last, followed by a pointer to the offset of the
/// next part, and the last part written out whole with its zero byte.
pub open spec fn pointer_chain(buf: Seq<u8>, at: Seq<int>, parts: Seq<Seq<char>>) -> bool {
    &&& at.len() == parts.len()
    &&& parts.len() >= 1
    &&& forall|i: int| 0 <= i < parts.len() ==> plain_name(#[trigger] parts[i])
    &&& forall|i: int|
        0 <= i < parts.len() - 1 ==> 0 <= #[trigger] at[i + 1] < 16384 && holds(
            buf,
            at[i],
            labels_bytes(parts[i]) + pointer_bytes(at[i + 1]),
        )
    &&& holds(buf, at.last(), name_piece(parts.last()).full)
}

/// Reading the labels of a plain name, within the jump limit, appends their text
/// and goes on right after them; the name's wire form ends with a zero byte.
proof fn lemma_walk_labels(
    buf: Seq<u8>,
    cur: int,
    p: int,
    jumped: bool,
    jumps: int,
    text: Seq<char>,
    dot: bool,
    s: Seq<u8>,
)
    requires
        plain_labels(s),
        is_ascii_bytes(s),
        no_upper_bytes(s),
        buf.len() == 512,
        0 <= cur,
        0 <= jumps <= 5,
        cur + qname_piece(s).full.len() - 1 <= 512,
        buf.subrange(cur, cur + qname_piece(s).full.len() - 1) == qname_piece(s).full.drop_last(),
    ensures
        qname_piece(s).full.len() >= 3,
        qname_piece(s).full.last() == 0,
        qname_walk(buf, cur, p, jumped, jumps, text, dot) == qname_walk(
            buf,
            cur + qname_piece(s).full.len() - 1,
            p,
            jumped,
            jumps,
            text + sep(dot) + ascii_chars(s),
            true,
        ),
    decreases s.len(),
{
    reveal_strlit(".");
    lemma_plain_piece(s);
    lemma_first_dot_bounds(s);
    let d = first_dot(s);
    let label = s.take(d);
    let full = qname_piece(s).full;
    let n = full.len() as int;
    let lab = full.drop_last();
    assert(buf.subrange(cur, cur + n - 1)[0] == buf[cur]);
    assert(lab[0] == full[0]);
    assert(buf[cur] == d);
    let cur1 = cur + 1;
    assert(buf.subrange(cur1, cur1 + d) =~= label) by {
        assert forall|i: int| 0 <= i < d implies buf.subrange(cur1, cur1 + d)[i] == label[i] by {
            assert(buf.subrange(cur, cur + n - 1)[1 + i] == buf[cur1 + i]);
            assert(lab[1 + i] == full[1 + i]);
        }
    }
    let text1 = text + sep(dot);
    assert(ascii_chars(label) =~= ascii_chars(s).take(d));
    assert(label_text(label) =~= ascii_chars(label)) by {
        assert(is_ascii_bytes(label));
    }
    let text2 = text1 + ascii_chars(label);
    assert(qname_walk(buf, cur, p, jumped, jumps, text, dot) == qname_walk(buf, cur1 + d, p, jumped, jumps, text2, true));
    if d < s.len() {
        let s2 = s.skip(d + 1);
        lemma_plain_piece(s2);
        let n2 = qname_piece(s2).full.len();
        assert(n == 1 + d + n2);
        assert(full.last() == qname_piece(s2).full.last());
        assert(buf.subrange(cur1 + d, cur1 + d + n2 - 1) =~= qname_piece(s2).full.drop_last()) by {
            assert forall|i: int| 0 <= i < n2 - 1 implies buf.subrange(cur1 + d, cur1 + d + n2 - 1)[i]
                == qname_piece(s2).full.drop_last()[i] by {
                assert(buf.subrange(cur, cur + n - 1)[1 + d + i] == buf[cur1 + d + i]);
                assert(lab[1 + d + i] == full[1 + d + i]);
            }
        }
        assert(no_upper_bytes(s2)) by {
            assert forall|i: int| 0 <= i < s2.len() implies !(65 <= #[trigger] s2[i] <= 90) by {
                assert(s2[i] == s[d + 1 + i]);
            }
        }
        lemma_walk_labels(buf, cur1 + d, p, jumped, jumps, text2, true, s2);
        lemma_first_dot_is_dot(s);
        assert(s[d] == 46u8);
        assert(ascii_chars(s) =~= ascii_chars(label) + "."@ + ascii_chars(s2));
        assert(text2 + sep(true) + ascii_chars(s2) =~= text1 + ascii_chars(s));
    } else {
        assert(label =~= s);
        assert(n == d + 2);
    }
}

/// Following a compression pointer, while fewer than six have been followed, goes
/// on reading at its target with the text read so far; the buffer's position
/// stops right after the first pointer.
pub proof fn law_pointer_is_followed(
    buf: Seq<u8>,
    c: int,
    o: int,
    p: int,
    jumped: bool,
    jumps: int,
    text: Seq<char>,
    dot: bool,
)
    requires
        buf.len() == 512,
        0 <= c,
        c + 2 <= 512,
        0 <= o < 16384,
        0 <= jumps <= 5,
        holds(buf, c, pointer_bytes(o)),
    ensures
        qname_walk(buf, c, p, jumped, jumps, text, dot) == qname_walk(
            buf,
            o,
            if jumped {
                p
            } else {
                c + 2
            },
            true,
            jumps + 1,
            text,
            dot,
        ),
{
    assert(buf.subrange(c, c + 2)[0] == buf[c]);
    assert(buf.subrange(c, c + 2)[1] == buf[c + 1]);
    assert(buf[c] == 192 + o / 256);
    assert(buf[c + 1] == o % 256);
    assert((o / 256) * 256 + o % 256 == o);
}

/// Reading a name split by pointers, within the jump limit, appends the parts
/// joined by dots and ends after the last; the position stops after the first
/// pointer, or after the name when there is none.
proof fn lemma_walk_chain(
    buf: Seq<u8>,
    at: Seq<int>,
    parts: Seq<Seq<char>>,
    p: int,
    jumped: bool,
    jumps: int,
    text: Seq<char>,
    dot: bool,
)
    requires
        buf.len() == 512,
        pointer_chain(buf, at, parts),
        0 <= jumps,
        jumps + parts.len() - 1 <= 5,
    ensures
        qname_walk(buf, at[0], p, jumped, jumps, text, dot) == (QnameRead {
            text: text + sep(dot) + dotted(parts),
            end: QnameEnd::Done,
            pos: if jumped {
                p
            } else if parts.len() == 1 {
                at[0] + name_piece(parts[0]).full.len()
            } else {
                at[0] + labels_bytes(parts[0]).len() + 2
            },
        }),
    decreases parts.len(),
{
    reveal_strlit(".");
    let name = parts[0];
    assert(plain_name(name));
    let s = encode_utf8(name);
    is_ascii_chars_encode_utf8(name);
    assert(is_ascii_bytes(s));
    assert(no_upper_bytes(s)) by {
        assert forall|i: int| 0 <= i < s.len() implies !(65 <= #[trigger] s[i] <= 90) by {
            assert(name[i] as u8 == s[i]);
        }
    }
    assert(ascii_chars(s) =~= name);
    let full = name_piece(name).full;
    let n = full.len() as int;
    lemma_plain_piece(s);
    let c = at[0] + n - 1;
    let t1 = text + sep(dot) + name;
    if parts.len() == 1 {
        assert(at.last() == at[0]);
        assert(buf.subrange(at[0], at[0] + n - 1) =~= full.drop_last()) by {
            assert forall|i: int| 0 <= i < n - 1 implies buf.subrange(at[0], at[0] + n - 1)[i]
                == full.drop_last()[i] by {
                assert(buf.subrange(at[0], at[0] + n)[i] == buf[at[0] + i]);
            }
        }
        lemma_walk_labels(buf, at[0], p, jumped, jumps, text, dot, s);
        assert(buf[c] == full.last()) by {
            assert(buf.subrange(at[0], at[0] + n)[n - 1] == buf[c]);
        }
        assert(dotted(parts) == name);
    } else {
        let o = at[1];
        assert(0 <= at[0int + 1] < 16384);
        let bytes = labels_bytes(name) + pointer_bytes(o);
        assert(holds(buf, at[0], bytes));
        assert(bytes.len() == n + 1);
        assert(buf.subrange(at[0], at[0] + n - 1) =~= full.drop_last()) by {
            assert forall|i: int| 0 <= i < n - 1 implies buf.subrange(at[0], at[0] + n - 1)[i]
                == full.drop_last()[i] by {
                assert(buf.subrange(at[0], at[0] + n + 1)[i] == buf[at[0] + i]);
                assert(bytes[i] == full.drop_last()[i]);
            }
        }
        lemma_walk_labels(buf, at[0], p, jumped, jumps, text, dot, s);
        assert(buf.subrange(c, c + 2) =~= pointer_bytes(o)) by {
            assert(buf.subrange(at[0], at[0] + n + 1)[n - 1] == buf[c]);
            assert(buf.subrange(at[0], at[0] + n + 1)[n] == buf[c + 1]);
            assert(bytes[n - 1] == pointer_bytes(o)[0]);
            assert(bytes[n] == pointer_bytes(o)[1]);
        }
        law_pointer_is_followed(buf, c, o, p, jumped, jumps, t1, true);
        let at2 = at.drop_first();
        let parts2 = parts.drop_first();
        assert(pointer_chain(buf, at2, parts2)) by {
            assert forall|i: int| 0 <= i < parts2.len() implies plain_name(#[trigger] parts2[i]) by {
                assert(parts2[i] == parts[i + 1]);
            }
            assert forall|i: int| 0 <= i < parts2.len() - 1 implies 0 <= #[trigger] at2[i + 1] < 16384
                && holds(buf, at2[i], labels_bytes(parts2[i]) + pointer_bytes(at2[i + 1])) by {
                assert(at2[i + 1] == at[(i + 1) + 1]);
                assert(0 <= at[(i + 1) + 1] < 16384);
            }
            assert(at2.last() == at.last());
            assert(parts2.last() == parts.last());
        }
        let p2 = if jumped {
            p
        } else {
            c + 2
        };
        lemma_walk_chain(buf, at2, parts2, p2, true, jumps + 1, t1, true);
        assert(at2[0] == o);
        assert(t1 + sep(true) + dotted(parts2) =~= text + sep(dot) + dotted(parts));
    }
}

/// A name split across up to five compression pointers (the usual compression,
/// such as `www` pointing to `example` pointing to `com`) reads as the whole name:
/// its parts joined by dots, read to its end, with the position right after the
/// first pointer (or after the name when there is none).
pub proof fn law_pointer_chain_reads_whole(buf: Seq<u8>, at: Seq<int>, parts: Seq<Seq<char>>)
    requires
        buf.len() == 512,
        pointer_chain(buf, at, parts),
        parts.len() <= 6,
    ensures
        qname_read(buf, at[0]) == (QnameRead {
            text: dotted(parts),
            end: QnameEnd::Done,
            pos: if parts.len() == 1 {
                at[0] + name_piece(parts[0]).full.len()
            } else {
                at[0] + labels_bytes(parts[0]).len() + 2
            },
        }),
{
    assert(holds(buf, at[0], name_piece(parts[0]).full) || parts.len() > 1);
    lemma_walk_chain(buf, at, parts, at[0], false, 0, Seq::empty(), false);
    assert(Seq::<char>::empty() + sep(false) + dotted(parts) =~= dotted(parts));
}

/// A sixth compression pointer in a row is one too many: the read stops with the
/// jump-limit error, with the position right after the first pointer.
pub proof fn law_six_pointers_are_too_many(buf: Seq<u8>, at: Seq<int>)
    requires
        buf.len() == 512,
        at.len() == 7,
        forall|i: int|
            0 <= i < 6 ==> 0 <= #[trigger] at[i + 1] < 16384 && 0 <= at[i] && at[i] + 2 <= 512
                && holds(buf, at[i], pointer_bytes(at[i + 1])),
    ensures
        qname_read(buf, at[0]).end is TooManyJumps,
        qname_read(buf, at[0]).pos == at[0] + 2,
{
    let e: Seq<char> = Seq::empty();
    let p = at[0] + 2;
    assert(0 <= at[0int + 1] < 16384);
    law_pointer_is_followed(buf, at[0], at[1], at[0], false, 0, e, false);
    assert(0 <= at[1int + 1] < 16384);
    law_pointer_is_followed(buf, at[1], at[2], p, true, 1, e, false);
    assert(0 <= at[2int + 1] < 16384);
    law_pointer_is_followed(buf, at[2], at[3], p, true, 2, e, false);
    assert(0 <= at[3int + 1] < 16384);
    law_pointer_is_followed(buf, at[3], at[4], p, true, 3, e, false);
    assert(0 <= at[4int + 1] < 16384);
    law_pointer_is_followed(buf, at[4], at[5], p, true, 4, e, false);
    assert(0 <= at[5int + 1] < 16384);
    law_pointer_is_followed(buf, at[5], at[6], p, true, 5, e, false);
}

} // verus!

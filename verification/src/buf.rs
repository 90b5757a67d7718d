use vstd::prelude::*;
use vstd::utf8::{decode_utf8, encode_utf8, valid_utf8};

verus! {

/// Largest DNS message carried over UDP, and the size of the packet buffer.
pub const MAX_UDP_PACKET_SIZE: usize = 512;

/// Most compression pointers followed while reading one name.
const MAX_JUMPS: usize = 5;

/// The text of the error for a read or write past the end of the buffer.
pub open spec fn end_of_buffer_msg() -> Seq<char> {
    "End of buffer"@
}

/// Big-endian value of the two bytes at `i`.
pub open spec fn be16(b: Seq<u8>, i: int) -> int {
    b[i] * 256 + b[i + 1]
}

/// Big-endian value of the four bytes at `i`.
pub open spec fn be32(b: Seq<u8>, i: int) -> int {
    be16(b, i) * 65536 + be16(b, i + 2)
}

/// Where the position stands after a multi-byte read that ran out of buffer:
/// every byte up to the end was consumed, or nothing moved if already past it.
pub open spec fn pos_after_overrun(pos: int) -> int {
    if pos < 512 {
        512
    } else {
        pos
    }
}

/// `res` is an error whose text is `msg`.
pub open spec fn err_is<T>(res: Result<T, String>, msg: Seq<char>) -> bool {
    res matches Err(e) && e@ == msg
}

/// The text of the error for a name that follows too many compression pointers.
pub open spec fn too_many_jumps_msg() -> Seq<char> {
    "Li,it of 5 jumps exceeded"@
}

/// The characters that `String::from_utf8_lossy` decodes from `bytes`.
pub uninterp spec fn utf8_lossy(bytes: Seq<u8>) -> Seq<char>;

/// The characters that `str::to_lowercase` produces from `s`.
pub uninterp spec fn lowercase(s: Seq<char>) -> Seq<char>;

/// Every byte is an ASCII code.
pub open spec fn is_ascii_bytes(b: Seq<u8>) -> bool {
    forall|i: int| 0 <= i < b.len() ==> b[i] < 128
}

/// The ASCII characters that the bytes encode.
pub open spec fn ascii_chars(b: Seq<u8>) -> Seq<char> {
    Seq::new(b.len(), |i: int| b[i] as char)
}

/// Every character is ASCII.
pub open spec fn is_ascii_text(s: Seq<char>) -> bool {
    forall|i: int| 0 <= i < s.len() ==> (s[i] as u32) < 128
}

/// The character with ASCII upper case letters mapped to lower case.
pub open spec fn ascii_lower_char(c: char) -> char {
    if 'A' <= c && c <= 'Z' {
        ((c as u32) + 32) as char
    } else {
        c
    }
}

/// The text with ASCII upper case letters mapped to lower case.
pub open spec fn ascii_lower(s: Seq<char>) -> Seq<char> {
    Seq::new(s.len(), |i: int| ascii_lower_char(s[i]))
}

/// Decodes bytes as UTF-8 with `String::from_utf8_lossy`. Stated: the result is
/// a function of the bytes alone; valid UTF-8 decodes to the text it encodes, and
/// in particular ASCII bytes to the characters of the same codes. What it makes of
/// invalid sequences (U+FFFD replacements) is left unsaid.
#[verifier::external_body]
fn decode_lossy(bytes: &[u8]) -> (res: String)
    ensures
        res@ == utf8_lossy(bytes@),
        valid_utf8(bytes@) ==> res@ == decode_utf8(bytes@),
        is_ascii_bytes(bytes@) ==> res@ == ascii_chars(bytes@),
{
    String::from_utf8_lossy(bytes).into_owned()
}

/// Lower-cases text with `str::to_lowercase`. Stated: the result is a function of
/// the text alone, and on ASCII text it maps `A`..`Z` to `a`..`z` and keeps every
/// other character. Its Unicode mappings beyond ASCII are left unsaid.
#[verifier::external_body]
fn to_lowercase(s: &str) -> (res: String)
    ensures
        res@ == lowercase(s@),
        is_ascii_text(s@) ==> res@ == ascii_lower(s@),
{
    s.to_lowercase()
}

/// The text that one label of a name contributes to the decoded name: its bytes
/// decoded and lower-cased; for ASCII bytes, their characters with `A`..`Z` mapped
/// to `a`..`z`.
pub open spec fn label_text(bytes: Seq<u8>) -> Seq<char> {
    if is_ascii_bytes(bytes) {
        ascii_lower(ascii_chars(bytes))
    } else {
        lowercase(utf8_lossy(bytes))
    }
}

/// How reading a name ended.
pub enum QnameEnd {
    /// The terminating empty label was reached.
    Done,
    /// A length byte, pointer byte or label lay at or past the end of the buffer.
    EndOfBuffer,
    /// More than `MAX_JUMPS` compression pointers were followed.
    TooManyJumps,
    /// A label that starts inside the buffer runs past its end.
    Overrun,
}

/// What reading a name does: the text it appends to the output, how it ended,
/// and where the buffer's position stands afterwards.
pub struct QnameRead {
    pub text: Seq<char>,
    pub end: QnameEnd,
    pub pos: int,
}

/// Reading a name from offset `cur` of `buf`, with the buffer's position at `pos`,
/// `jumped` telling whether a pointer was already followed (after which the position
/// no longer moves), `jumps` pointers followed so far, `text` appended so far and
/// `dot` telling whether a label was already appended (so the next one is preceded by
/// a dot). A length byte with both top bits set is a pointer: its low six bits and the
/// next byte give the offset to continue at. A zero byte ends the name.
pub open spec fn qname_walk(
    buf: Seq<u8>,
    cur: int,
    pos: int,
    jumped: bool,
    jumps: int,
    text: Seq<char>,
    dot: bool,
) -> QnameRead
    decreases 6 - jumps, if cur < 512 { 512 - cur } else { 0 },
{
    if jumps > 5 {
        QnameRead { text, end: QnameEnd::TooManyJumps, pos }
    } else if !(cur < 512) {
        QnameRead { text, end: QnameEnd::EndOfBuffer, pos }
    } else {
        let len = buf[cur];
        if len >= 192 {
            let pos2 = if jumped {
                pos
            } else {
                cur + 2
            };
            if cur + 1 >= 512 {
                QnameRead { text, end: QnameEnd::EndOfBuffer, pos: pos2 }
            } else {
                let offset = (len - 192) * 256 + buf[cur + 1];
                qname_walk(buf, offset, pos2, true, jumps + 1, text, dot)
            }
        } else {
            let cur1 = cur + 1;
            if len == 0 {
                QnameRead {
                    text,
                    end: QnameEnd::Done,
                    pos: if jumped {
                        pos
                    } else {
                        cur1
                    },
                }
            } else {
                let text1 = if dot {
                    text + "."@
                } else {
                    text
                };
                if cur1 >= 512 {
                    QnameRead { text: text1, end: QnameEnd::EndOfBuffer, pos }
                } else if cur1 + len > 512 {
                    QnameRead { text: text1, end: QnameEnd::Overrun, pos }
                } else {
                    qname_walk(
                        buf,
                        cur1 + len,
                        pos,
                        jumped,
                        jumps,
                        text1 + label_text(buf.subrange(cur1, cur1 + len)),
                        true,
                    )
                }
            }
        }
    }
}

/// Reading a name that starts at the buffer's position `pos`.
pub open spec fn qname_read(buf: Seq<u8>, pos: int) -> QnameRead {
    qname_walk(buf, pos, pos, false, 0, Seq::empty(), false)
}

/// The text of the error for a name with a label longer than 63 bytes.
pub open spec fn label_too_long_msg() -> Seq<char> {
    "Single label exceeds 63 characters of length"@
}

/// A unit of output. `full` is what lands in the buffer when the whole unit fits;
/// when the buffer runs out partway, a prefix of `raw` lands instead (the two differ
/// only where a field is filled in after the rest of the unit was written);
/// `complete` is false when the unit stops early on a label that is too long, in
/// which case `full` holds what comes before that label.
pub struct Piece {
    pub full: Seq<u8>,
    pub raw: Seq<u8>,
    pub complete: bool,
}

/// A complete unit made of the given bytes.
pub open spec fn bytes_piece(b: Seq<u8>) -> Piece {
    Piece { full: b, raw: b, complete: true }
}

/// `a` followed by `b`; nothing of `b` is written when `a` stops early.
pub open spec fn cat(a: Piece, b: Piece) -> Piece {
    if a.complete {
        Piece { full: a.full + b.full, raw: a.full + b.raw, complete: b.complete }
    } else {
        a
    }
}

/// `full` and `raw` have the same length.
pub open spec fn piece_wf(p: Piece) -> bool {
    p.full.len() == p.raw.len()
}

/// Bytes left between the position and the end of the buffer.
pub open spec fn room(pos: int) -> int {
    if pos < 512 {
        512 - pos
    } else {
        0
    }
}

/// `buf` with `bytes` laid over it from offset `pos`.
pub open spec fn splice(buf: Seq<u8>, pos: int, bytes: Seq<u8>) -> Seq<u8> {
    Seq::new(buf.len(), |i: int| if pos <= i < pos + bytes.len() { bytes[i - pos] } else { buf[i] })
}

/// Why a write stopped.
pub enum WriteErr {
    EndOfBuffer,
    LabelTooLong,
}

/// The buffer contents, the position and the error after writing a unit.
pub struct Emit {
    pub buf: Seq<u8>,
    pub pos: int,
    pub err: Option<WriteErr>,
}

/// Writing the unit `p` byte by byte from `pos`: the bytes that fit land in the
/// buffer, the position moves past them, and the write fails when the buffer ends
/// first, or else when the unit stops on a label that is too long.
pub open spec fn emit(buf: Seq<u8>, pos: int, p: Piece) -> Emit {
    if p.full.len() > room(pos) {
        Emit {
            buf: splice(buf, pos, p.raw.take(room(pos))),
            pos: pos + room(pos),
            err: Some(WriteErr::EndOfBuffer),
        }
    } else {
        Emit {
            buf: splice(buf, pos, p.full),
            pos: pos + p.full.len(),
            err: if p.complete {
                None
            } else {
                Some(WriteErr::LabelTooLong)
            },
        }
    }
}

/// The result of a write agrees with the error of the emission.
pub open spec fn write_result<T>(res: Result<T, String>, e: Emit) -> bool {
    &&& (res is Ok <==> e.err is None)
    &&& (e.err == Some(WriteErr::EndOfBuffer) ==> err_is(res, end_of_buffer_msg()))
    &&& (e.err == Some(WriteErr::LabelTooLong) ==> err_is(res, label_too_long_msg()))
}

/// Writing `a` and then, if that succeeded, `b`, is writing `cat(a, b)`.
pub proof fn lemma_emit_cat(buf: Seq<u8>, pos: int, a: Piece, b: Piece)
    requires
        a.raw == a.full,
        piece_wf(b),
        0 <= pos,
    ensures
        emit(buf, pos, cat(a, b)) == ({
            let ea = emit(buf, pos, a);
            if ea.err is Some {
                ea
            } else {
                emit(ea.buf, ea.pos, b)
            }
        }),
{
    let ea = emit(buf, pos, a);
    if a.complete {
        let c = cat(a, b);
        if a.full.len() > room(pos) {
            assert(c.raw.take(room(pos)) =~= a.raw.take(room(pos)));
        } else {
            let k = room(ea.pos);
            assert(k == room(pos) - a.full.len());
            if c.full.len() > room(pos) {
                assert(c.raw.take(room(pos)) =~= a.full + b.raw.take(k));
                assert(splice(ea.buf, ea.pos, b.raw.take(k)) =~= splice(buf, pos, a.full + b.raw.take(k)));
            } else {
                assert(splice(ea.buf, ea.pos, b.full) =~= splice(buf, pos, c.full));
            }
        }
    }
}

/// The two bytes of `v`, most significant first.
pub open spec fn u16_bytes(v: u16) -> Seq<u8> {
    seq![(v / 256) as u8, (v % 256) as u8]
}

/// The four bytes of `v`, most significant first.
pub open spec fn u32_bytes(v: u32) -> Seq<u8> {
    seq![(v / 16777216) as u8, ((v / 65536) % 256) as u8, ((v / 256) % 256) as u8, (v % 256) as u8]
}

/// Offset of the first dot in `s`, or its length when it has none.
pub open spec fn first_dot(s: Seq<u8>) -> int
    decreases s.len(),
{
    if s.len() == 0 || s[0] == 46u8 {
        0
    } else {
        1 + first_dot(s.drop_first())
    }
}

/// A name as written on the wire: each dot-separated label preceded by its
/// length, then a zero byte. A label longer than 63 bytes stops the name there.
pub open spec fn qname_piece(s: Seq<u8>) -> Piece
    decreases s.len(),
{
    let d = first_dot(s);
    let label = s.take(d);
    let head = if label.len() > 63 {
        Piece { full: Seq::empty(), raw: Seq::empty(), complete: false }
    } else {
        bytes_piece(seq![label.len() as u8] + label)
    };
    if 0 <= d < s.len() {
        cat(head, qname_piece(s.skip(d + 1)))
    } else {
        cat(head, bytes_piece(seq![0u8]))
    }
}

/// The wire form of a name given as text: the labels of its UTF-8 encoding.
pub open spec fn name_piece(name: Seq<char>) -> Piece {
    qname_piece(encode_utf8(name))
}

pub proof fn lemma_first_dot(s: Seq<u8>, k: int)
    requires
        0 <= k <= s.len(),
        forall|j: int| 0 <= j < k ==> s[j] != 46u8,
        k == s.len() || s[k] == 46u8,
    ensures
        first_dot(s) == k,
    decreases k,
{
    if k > 0 {
        lemma_first_dot(s.drop_first(), k - 1);
    }
}

pub proof fn lemma_first_dot_bounds(s: Seq<u8>)
    ensures
        0 <= first_dot(s) <= s.len(),
    decreases s.len(),
{
    if s.len() > 0 && s[0] != 46u8 {
        lemma_first_dot_bounds(s.drop_first());
    }
}

/// Units that `cat` builds keep `full` and `raw` the same length.
pub proof fn lemma_qname_piece_wf(s: Seq<u8>)
    ensures
        piece_wf(qname_piece(s)),
        qname_piece(s).raw == qname_piece(s).full,
    decreases s.len(),
{
    lemma_first_dot_bounds(s);
    let d = first_dot(s);
    if d < s.len() {
        lemma_qname_piece_wf(s.skip(d + 1));
    }
}

/// Writing `done` then `next` is writing `done + next`; a write that fails at
/// `done + next` fails the same way whatever follows.
pub proof fn lemma_bytes_step(buf: Seq<u8>, pos: int, done: Seq<u8>, next: Seq<u8>, rest: Seq<u8>)
    requires
        0 <= pos,
    ensures
        ({
            let e0 = emit(buf, pos, bytes_piece(done));
            e0.err is None ==> emit(buf, pos, bytes_piece(done + next)) == emit(
                e0.buf,
                e0.pos,
                bytes_piece(next),
            )
        }),
        ({
            let e1 = emit(buf, pos, bytes_piece(done + next));
            e1.err is Some ==> emit(buf, pos, bytes_piece(done + next + rest)) == e1
        }),
{
    assert(cat(bytes_piece(done), bytes_piece(next)) == bytes_piece(done + next));
    lemma_emit_cat(buf, pos, bytes_piece(done), bytes_piece(next));
    assert(cat(bytes_piece(done + next), bytes_piece(rest)) == bytes_piece(done + next + rest));
    lemma_emit_cat(buf, pos, bytes_piece(done + next), bytes_piece(rest));
}

/// Writing `a + b` is writing `a` and then, if that succeeded, `b`.
pub proof fn lemma_emit_bytes_cat(buf: Seq<u8>, pos: int, a: Seq<u8>, b: Seq<u8>)
    requires
        0 <= pos,
    ensures
        emit(buf, pos, bytes_piece(a + b)) == ({
            let ea = emit(buf, pos, bytes_piece(a));
            if ea.err is Some {
                ea
            } else {
                emit(ea.buf, ea.pos, bytes_piece(b))
            }
        }),
{
    assert(cat(bytes_piece(a), bytes_piece(b)) == bytes_piece(a + b));
    lemma_emit_cat(buf, pos, bytes_piece(a), bytes_piece(b));
}

/// Writing the units one after another, stopping at the first that fails.
pub open spec fn emit_all(buf: Seq<u8>, pos: int, ps: Seq<Piece>) -> Emit
    decreases ps.len(),
{
    if ps.len() == 0 {
        Emit { buf, pos, err: None }
    } else {
        let e = emit_all(buf, pos, ps.drop_last());
        if e.err is Some {
            e
        } else {
            emit(e.buf, e.pos, ps.last())
        }
    }
}

/// Writing one more unit after a list of them.
pub proof fn lemma_emit_all_push(buf: Seq<u8>, pos: int, ps: Seq<Piece>, x: Piece)
    ensures
        emit_all(buf, pos, ps.push(x)) == ({
            let e = emit_all(buf, pos, ps);
            if e.err is Some {
                e
            } else {
                emit(e.buf, e.pos, x)
            }
        }),
{
    assert(ps.push(x).drop_last() =~= ps);
}

/// Once a write has failed, the units after it change nothing.
pub proof fn lemma_emit_all_err(buf: Seq<u8>, pos: int, ps: Seq<Piece>, qs: Seq<Piece>)
    requires
        emit_all(buf, pos, ps).err is Some,
    ensures
        emit_all(buf, pos, ps + qs) == emit_all(buf, pos, ps),
    decreases qs.len(),
{
    if qs.len() == 0 {
        assert(ps + qs =~= ps);
    } else {
        lemma_emit_all_err(buf, pos, ps, qs.drop_last());
        assert((ps + qs).drop_last() =~= ps + qs.drop_last());
    }
}

/// Writing two lists of units one after the other.
pub proof fn lemma_emit_all_concat(buf: Seq<u8>, pos: int, ps: Seq<Piece>, qs: Seq<Piece>)
    ensures
        emit_all(buf, pos, ps + qs) == ({
            let e = emit_all(buf, pos, ps);
            if e.err is Some {
                e
            } else {
                emit_all(e.buf, e.pos, qs)
            }
        }),
    decreases qs.len(),
{
    if qs.len() == 0 {
        assert(ps + qs =~= ps);
    } else {
        lemma_emit_all_concat(buf, pos, ps, qs.drop_last());
        assert((ps + qs).drop_last() =~= ps + qs.drop_last());
    }
}

/// The bytes of a list of units written in full, one after another.
pub open spec fn pieces_bytes(ps: Seq<Piece>) -> Seq<u8>
    decreases ps.len(),
{
    if ps.len() == 0 {
        Seq::empty()
    } else {
        pieces_bytes(ps.drop_last()) + ps.last().full
    }
}

/// When a list of units is written without error, the buffer holds all of their
/// bytes from the starting position on, and the position stands right after them.
pub proof fn lemma_emit_all_ok(buf: Seq<u8>, pos: int, ps: Seq<Piece>)
    requires
        emit_all(buf, pos, ps).err is None,
        0 <= pos,
    ensures
        emit_all(buf, pos, ps).buf == splice(buf, pos, pieces_bytes(ps)),
        emit_all(buf, pos, ps).pos == pos + pieces_bytes(ps).len(),
        pieces_bytes(ps).len() <= room(pos),
    decreases ps.len(),
{
    if ps.len() == 0 {
        assert(splice(buf, pos, Seq::empty()) =~= buf);
    } else {
        lemma_emit_all_ok(buf, pos, ps.drop_last());
        let e = emit_all(buf, pos, ps.drop_last());
        let x = ps.last();
        assert(x.full.len() <= room(e.pos));
        assert(splice(e.buf, e.pos, x.full) =~= splice(buf, pos, pieces_bytes(ps)));
    }
}

/// Writing nothing changes nothing.
pub proof fn lemma_emit_empty(buf: Seq<u8>, pos: int)
    requires
        buf.len() == 512,
    ensures
        emit(buf, pos, bytes_piece(Seq::empty())) == (Emit { buf, pos, err: None }),
{
    assert(splice(buf, pos, Seq::empty()) =~= buf);
}

proof fn lemma_cat_bytes(a: Seq<u8>, b: Seq<u8>, r: Piece)
    ensures
        cat(bytes_piece(a + b), r) == cat(bytes_piece(a), cat(bytes_piece(b), r)),
        cat(bytes_piece(Seq::empty()), r) == r,
{
    assert(a + b + r.full =~= a + (b + r.full));
    assert(a + b + r.raw =~= a + (b + r.raw));
    assert(Seq::<u8>::empty() + r.full =~= r.full);
    assert(Seq::<u8>::empty() + r.raw =~= r.raw);
}

/// Why a read stopped.
pub enum ReadErr {
    EndOfBuffer,
    TooManyJumps,
}

/// The error that ends a name that was not read to its end.
pub open spec fn read_err_of(end: QnameEnd) -> ReadErr {
    match end {
        QnameEnd::TooManyJumps => ReadErr::TooManyJumps,
        _ => ReadErr::EndOfBuffer,
    }
}

/// The text of a read error.
pub open spec fn read_err_msg(e: ReadErr) -> Seq<char> {
    match e {
        ReadErr::EndOfBuffer => end_of_buffer_msg(),
        ReadErr::TooManyJumps => too_many_jumps_msg(),
    }
}

/// The result of a read agrees with its error, if any.
pub open spec fn read_result<T>(res: Result<T, String>, err: Option<ReadErr>) -> bool {
    match err {
        None => res is Ok,
        Some(e) => err_is(res, read_err_msg(e)),
    }
}

/// What reading a value does: the value and the position after it, or the error
/// and the position where the read stopped, or a label running past the buffer.
pub enum Parse<T> {
    Parsed(T, int),
    Failed(ReadErr, int),
    Overrun,
}

/// `res` and the position `pos` agree with the parse outcome `p`, with `view` giving
/// the plain value of what was returned.
pub open spec fn parse_matches<T, V>(
    res: Result<T, String>,
    pos: int,
    p: Parse<V>,
    view: spec_fn(T) -> V,
) -> bool {
    match p {
        Parse::Parsed(v, q) => (res matches Ok(r) && view(r) == v) && pos == q,
        Parse::Failed(e, q) => err_is(res, read_err_msg(e)) && pos == q,
        Parse::Overrun => false,
    }
}

/// How far reading a value gets, without keeping what it reads: to the position
/// right after it, to a failure, or to a label that runs past the end of the buffer.
pub enum Reach {
    To(usize),
    Fails,
    Overruns,
}

/// `r` tells how far the parse `p` gets.
pub open spec fn reaches<T>(r: Reach, p: Parse<T>) -> bool {
    match p {
        Parse::Parsed(_, q) => r matches Reach::To(q2) && q2 == q,
        Parse::Failed(_, _) => r is Fails,
        Parse::Overrun => r is Overruns,
    }
}

/// The big-endian 16-bit value of the two bytes at `i`.
pub fn be16_at(buf: &[u8; 512], i: usize) -> (res: u16)
    requires
        i + 2 <= 512,
    ensures
        res == be16(buf@, i as int),
{
    let a = buf[i];
    let b = buf[i + 1];
    let res = ((a as u16) << 8) | (b as u16);
    assert(((a as u16) << 8) | (b as u16) == a * 256 + b) by (bit_vector);
    res
}

/// How reading a name at `start` ends and where it leaves the buffer's position,
/// found by following the name's labels and pointers without decoding them.
pub fn scan_qname(buf: &[u8; 512], start: usize) -> (res: (QnameEnd, usize))
    ensures
        res.0 == qname_read(buf@, start as int).end,
        res.1 == qname_read(buf@, start as int).pos,
{
    let ghost w = qname_read(buf@, start as int);
    let mut cur: usize = start;
    let mut pos: usize = start;
    let mut jumped = false;
    let mut jumps: usize = 0;
    let mut dot = false;
    let ghost mut text: Seq<char> = Seq::empty();
    loop
        invariant
            jumps <= 6,
            qname_walk(buf@, cur as int, pos as int, jumped, jumps as int, text, dot) == w,
            w == qname_read(buf@, start as int),
        decreases (6 - jumps) * 513 + if cur < 512 { 512 - cur } else { 0 },
    {
        if jumps > MAX_JUMPS {
            return (QnameEnd::TooManyJumps, pos);
        }
        if cur >= 512 {
            return (QnameEnd::EndOfBuffer, pos);
        }
        let len = buf[cur];
        if len >= 192 {
            let pos2 = if jumped {
                pos
            } else {
                cur + 2
            };
            if cur + 1 >= 512 {
                return (QnameEnd::EndOfBuffer, pos2);
            }
            cur = ((len - 192) as usize) * 256 + buf[cur + 1] as usize;
            pos = pos2;
            jumped = true;
            jumps += 1;
        } else {
            let cur1 = cur + 1;
            if len == 0 {
                return (QnameEnd::Done, if jumped { pos } else { cur1 });
            }
            if cur1 >= 512 {
                return (QnameEnd::EndOfBuffer, pos);
            }
            if cur1 + len as usize > 512 {
                return (QnameEnd::Overrun, pos);
            }
            proof {
                if dot {
                    text = text + "."@;
                }
                text = text + label_text(buf@.subrange(cur1 as int, cur1 + len));
            }
            cur = cur1 + len as usize;
            dot = true;
        }
    }
}

/// A fixed 512-byte buffer holding one DNS message, with a cursor.
pub struct BytePacketBuffer {
    pub buf: [u8; 512],
    pub pos: usize,
}

impl BytePacketBuffer {
    pub fn new() -> (res: Self)
        ensures
            res.pos == 0,
            forall|i: int| 0 <= i < 512 ==> res.buf@[i] == 0,
    {
        BytePacketBuffer { buf: [0;512], pos: 0 }
    }

    pub fn pos(&self) -> (res: usize)
        ensures
            res == self.pos,
    {
        self.pos
    }

    /// Advances the position in the buffer, `steps` times.
    pub fn step(&mut self, steps: usize) -> (res: Result<(), ()>)
        requires
            old(self).pos + steps <= usize::MAX,
        ensures
            res is Ok,
            final(self).pos == old(self).pos + steps,
            final(self).buf == old(self).buf,
    {
        self.pos += steps;
        Ok(())
    }

    /// Sets the position in the buffer to `pos`
    pub fn seek(&mut self, pos: usize) -> (res: Result<(), String>)
        ensures
            res is Ok,
            final(self).pos == pos,
            final(self).buf == old(self).buf,
    {
        self.pos = pos;
        Ok(())
    }

    /// Reads a single byte from the buffer and then advances the position.
    pub fn read(&mut self) -> (res: Result<u8, String>)
        ensures
            final(self).buf == old(self).buf,
            old(self).pos < 512 ==> res == Ok::<u8, String>(old(self).buf@[old(self).pos as int])
                && final(self).pos == old(self).pos + 1,
            old(self).pos >= 512 ==> final(self).pos == old(self).pos && err_is(
                res,
                end_of_buffer_msg(),
            ),
    {
        if self.pos >= MAX_UDP_PACKET_SIZE {
            return Err(String::from_str("End of buffer"));
        }
        let res = self.buf[self.pos];
        self.pos += 1;
        Ok(res)
    }

    /// Reads a single byte from the buffer without advancing the position.
    pub fn get(&mut self, pos: usize) -> (res: Result<u8, String>)
        ensures
            *final(self) == *old(self),
            pos < 512 ==> res == Ok::<u8, String>(old(self).buf@[pos as int]),
            pos >= 512 ==> err_is(res, end_of_buffer_msg()),
    {
        if pos >= MAX_UDP_PACKET_SIZE {
            return Err(String::from_str("End of buffer"));
        }
        Ok(self.buf[pos])
    }

    /// Reads a range of bytes from the buffer starting at `start` and going `len` bytes
    /// forward without advancing the position.
    pub fn get_range(&mut self, start: usize, len: usize) -> (res: Result<&[u8], String>)
        requires
            start < 512 && len < 512 ==> start + len <= 512,
        ensures
            *final(self) == *old(self),
            start < 512 && len < 512 ==> (res matches Ok(r) && r@ == old(self).buf@.subrange(
                start as int,
                start + len,
            )),
            !(start < 512 && len < 512) ==> err_is(res, end_of_buffer_msg()),
    {
        if start >= MAX_UDP_PACKET_SIZE || len >= MAX_UDP_PACKET_SIZE {
            return Err(String::from_str("End of buffer"));
        }
        Ok(&self.buf[start..start + len])
    }

    /// Read two bytes, stepping twice forward
    pub fn read_u16(&mut self) -> (res: Result<u16, String>)
        ensures
            final(self).buf == old(self).buf,
            old(self).pos + 2 <= 512 ==> res == Ok::<u16, String>(
                be16(old(self).buf@, old(self).pos as int) as u16,
            ) && final(self).pos == old(self).pos + 2,
            old(self).pos + 2 > 512 ==> final(self).pos == pos_after_overrun(old(self).pos as int)
                && err_is(res, end_of_buffer_msg()),
    {
        let res = ((self.read()? as u16) << 8) | (self.read()? as u16);
        proof {
            let a = old(self).buf@[old(self).pos as int];
            let b = old(self).buf@[old(self).pos + 1];
            assert(((a as u16) << 8) | (b as u16) == a * 256 + b) by (bit_vector);
        }
        Ok(res)
    }

    pub fn read_u32(&mut self) -> (res: Result<u32, String>)
        ensures
            final(self).buf == old(self).buf,
            old(self).pos + 4 <= 512 ==> res == Ok::<u32, String>(
                be32(old(self).buf@, old(self).pos as int) as u32,
            ) && final(self).pos == old(self).pos + 4,
            old(self).pos + 4 > 512 ==> final(self).pos == pos_after_overrun(old(self).pos as int)
                && err_is(res, end_of_buffer_msg()),
    {
        let res = ((self.read()? as u32) << 24) | ((self.read()? as u32) << 16) | ((
        self.read()? as u32) << 8) | ((self.read()? as u32) << 0);
        proof {
            let p = old(self).pos as int;
            let a = old(self).buf@[p];
            let b = old(self).buf@[p + 1];
            let c = old(self).buf@[p + 2];
            let d = old(self).buf@[p + 3];
            assert(((a as u32) << 24) | ((b as u32) << 16) | ((c as u32) << 8) | ((d as u32) << 0)
                == a * 16777216 + b * 65536 + c * 256 + d) by (bit_vector);
        }
        Ok(res)
    }

    /// Read a domain name from labels
    /// This gets messy because we can have whole domains or we might have
    /// a jump byte to avoid repeating the domain in the record to save space.
    /// A jump byte tells the reader to jump to an earlier position which will
    /// have the domain name.
    ///
    /// This function will take something like [3]www[6]google[3]com[0] and append
    /// www.google.com to outstr.
    ///
    /// A label that starts inside the buffer but runs past its end cannot be sliced
    /// out of it; such names are outside this function's domain, and `scan_qname`
    /// tells beforehand whether the name at a position is one.
    pub fn read_qname(&mut self, outstr: &mut String) -> (res: Result<(), String>)
        requires
            !(qname_read(old(self).buf@, old(self).pos as int).end is Overrun),
        ensures
            ({
                let w = qname_read(old(self).buf@, old(self).pos as int);
                &&& final(self).buf == old(self).buf
                &&& final(self).pos == w.pos
                &&& final(outstr)@ == old(outstr)@ + w.text
                &&& (res is Ok <==> w.end is Done)
                &&& (w.end is EndOfBuffer ==> err_is(res, end_of_buffer_msg()))
                &&& (w.end is TooManyJumps ==> err_is(res, too_many_jumps_msg()))
            }),
    {
        let ghost w = qname_read(old(self).buf@, old(self).pos as int);
        // Keep track of position locally for when we run into a jump
        let mut pos = self.pos();

        // Track if we've jumped
        let mut jumped = false;
        let mut jumps_performed: usize = 0;
        let mut dot = false;
        let ghost mut acc: Seq<char> = Seq::empty();

        loop
            invariant
                self.buf == old(self).buf,
                jumps_performed <= 6,
                outstr@ == old(outstr)@ + acc,
                qname_walk(self.buf@, pos as int, self.pos as int, jumped, jumps_performed as int, acc, dot)
                    == w,
                !(w.end is Overrun),
                w == qname_read(old(self).buf@, old(self).pos as int),
            decreases (6 - jumps_performed) * 513 + if pos < 512 { 512 - pos } else { 0 },
        {
            // A crafted packet can hold a cycle of pointers; stop after a few jumps.
            if jumps_performed > MAX_JUMPS {
                return Err(String::from_str("Li,it of 5 jumps exceeded"));
            }

            // At this point, we're always at the beginning of a label. Recall
            // that labels start with a length byte.
            let len = self.get(pos)?;

            // Jump case: the two most significant bits set mean a pointer to another offset.
            assert((len & 0xc0) == 0xc0 <==> len >= 192) by (bit_vector);
            if (len & 0xc0) == 0xc0 {
                // Move the buffer position past the pointer; the label is not read again.
                if !jumped {
                    self.seek(pos + 2)?;
                }

                // Read another byte, calculate the offset and perform the jump
                // by updating our local position variable.
                let b2 = self.get(pos + 1)? as u16;
                let offset = (((len as u16) ^ 0xC0) << 8) | b2;
                assert(len >= 192 && b2 < 256 ==> (((len as u16) ^ 0xC0) << 8) | b2 == (len - 192)
                    * 256 + b2) by (bit_vector);
                pos = offset as usize;
                jumped = true;
                jumps_performed += 1;
                continue;
            }

            // Move past the length byte
            pos += 1;

            // Labels are terminated by an empty label
            if len == 0 {
                // Without a jump, the buffer position moves past the name
                if !jumped {
                    self.seek(pos)?;
                }
                return Ok(());
            }

            // Append the delimiter to the output buffer
            if dot {
                outstr.append(".");
                proof {
                    acc = acc + "."@;
                }
            }

            // Extract the actual bytes for this label and append them
            let str_buffer = self.get_range(pos, len as usize)?;
            let decoded = decode_lossy(str_buffer);
            let lowered = to_lowercase(decoded.as_str());
            outstr.append(lowered.as_str());
            proof {
                acc = acc + lowered@;
            }

            dot = true;

            // Move our position forward by the length of the label
            pos += len as usize;
        }
    }
}


/// The buffer after a write is the emission of `p` from where it stood before.
pub open spec fn wrote(old_buf: &BytePacketBuffer, new_buf: &BytePacketBuffer, p: Piece) -> bool {
    let e = emit(old_buf.buf@, old_buf.pos as int, p);
    new_buf.buf@ == e.buf && new_buf.pos == e.pos
}

impl BytePacketBuffer {
    /// Writes a single byte at the position and advances it.
    pub fn write(&mut self, val: u8) -> (res: Result<(), String>)
        ensures
            wrote(old(self), final(self), bytes_piece(seq![val])),
            write_result(res, emit(old(self).buf@, old(self).pos as int, bytes_piece(seq![val]))),
    {
        if self.pos >= MAX_UDP_PACKET_SIZE {
            let r = Err(String::from_str("End of buffer"));
            proof {
                assert(seq![val].take(0) =~= Seq::<u8>::empty());
                assert(splice(old(self).buf@, old(self).pos as int, Seq::<u8>::empty()) =~= self.buf@);
            }
            return r;
        }
        self.buf[self.pos] = val;
        self.pos += 1;
        proof {
            assert(splice(old(self).buf@, old(self).pos as int, seq![val]) =~= self.buf@);
        }
        Ok(())
    }

    pub fn write_u8(&mut self, val: u8) -> (res: Result<(), String>)
        ensures
            wrote(old(self), final(self), bytes_piece(seq![val])),
            write_result(res, emit(old(self).buf@, old(self).pos as int, bytes_piece(seq![val]))),
    {
        self.write(val)?;
        Ok(())
    }

    pub fn write_u16(&mut self, val: u16) -> (res: Result<(), String>)
        ensures
            wrote(old(self), final(self), bytes_piece(u16_bytes(val))),
            write_result(res, emit(old(self).buf@, old(self).pos as int, bytes_piece(u16_bytes(val)))),
    {
        let hi = (val >> 8) as u8;
        let lo = (val & 0xFF) as u8;
        assert(hi == val / 256 && lo == val % 256) by (bit_vector)
            requires
                hi == (val >> 8) as u8,
                lo == (val & 0xFF) as u8,
        ;
        proof {
            assert(u16_bytes(val) =~= seq![hi] + seq![lo]);
            assert(bytes_piece(u16_bytes(val)) == cat(bytes_piece(seq![hi]), bytes_piece(seq![lo])));
            lemma_emit_cat(old(self).buf@, old(self).pos as int, bytes_piece(seq![hi]), bytes_piece(seq![lo]));
        }
        self.write(hi)?;
        self.write(lo)?;
        Ok(())
    }

    pub fn write_u32(&mut self, val: u32) -> (res: Result<(), String>)
        ensures
            wrote(old(self), final(self), bytes_piece(u32_bytes(val))),
            write_result(res, emit(old(self).buf@, old(self).pos as int, bytes_piece(u32_bytes(val)))),
    {
        let b0 = ((val >> 24) & 0xFF) as u8;
        let b1 = ((val >> 16) & 0xFF) as u8;
        let b2 = ((val >> 8) & 0xFF) as u8;
        let b3 = ((val >> 0) & 0xFF) as u8;
        assert(b0 == val / 16777216 && b1 == (val / 65536) % 256 && b2 == (val / 256) % 256 && b3
            == val % 256) by (bit_vector)
            requires
                b0 == ((val >> 24) & 0xFF) as u8,
                b1 == ((val >> 16) & 0xFF) as u8,
                b2 == ((val >> 8) & 0xFF) as u8,
                b3 == ((val >> 0) & 0xFF) as u8,
        ;
        let ghost p3 = bytes_piece(seq![b3]);
        let ghost p23 = cat(bytes_piece(seq![b2]), p3);
        let ghost p123 = cat(bytes_piece(seq![b1]), p23);
        proof {
            assert(u32_bytes(val) =~= seq![b0] + (seq![b1] + (seq![b2] + seq![b3])));
            assert(bytes_piece(u32_bytes(val)) == cat(bytes_piece(seq![b0]), p123));
            lemma_emit_cat(old(self).buf@, old(self).pos as int, bytes_piece(seq![b0]), p123);
        }
        self.write(b0)?;
        proof {
            lemma_emit_cat(self.buf@, self.pos as int, bytes_piece(seq![b1]), p23);
        }
        self.write(b1)?;
        proof {
            lemma_emit_cat(self.buf@, self.pos as int, bytes_piece(seq![b2]), p3);
        }
        self.write(b2)?;
        self.write(b3)?;
        Ok(())
    }

    /// Writes a domain name as labels: each dot-separated part preceded by its length,
    /// then a terminating zero byte.
    pub fn write_qname(&mut self, qname: &str) -> (res: Result<(), String>)
        ensures
            wrote(old(self), final(self), name_piece(qname@)),
            write_result(res, emit(old(self).buf@, old(self).pos as int, name_piece(qname@))),
    {
        let bytes = qname.as_bytes();
        let n = bytes.len();
        let ghost s = bytes@;
        let ghost target = emit(old(self).buf@, old(self).pos as int, qname_piece(s));
        let mut start: usize = 0;
        proof {
            assert(s.skip(0) =~= s);
        }
        loop
            invariant
                bytes@ == s,
                n == s.len(),
                start <= n,
                s == encode_utf8(qname@),
                target == emit(old(self).buf@, old(self).pos as int, qname_piece(s)),
                emit(self.buf@, self.pos as int, qname_piece(s.skip(start as int))) == target,
            decreases n - start,
        {
            // Find where this label ends: at the next dot or at the end of the name.
            let mut i = start;
            while i < n && bytes[i] != 46u8
                invariant
                    bytes@ == s,
                    n == s.len(),
                    start <= i <= n,
                    forall|j: int| start <= j < i ==> s[j] != 46u8,
                    s == encode_utf8(qname@),
                    target == emit(old(self).buf@, old(self).pos as int, qname_piece(s)),
                    emit(self.buf@, self.pos as int, qname_piece(s.skip(start as int))) == target,
                decreases n - i,
            {
                i += 1;
            }
            let len = i - start;
            let ghost rest_s = s.skip(start as int);
            let ghost label = s.subrange(start as int, i as int);
            let ghost rest = if i < n {
                qname_piece(s.skip(i + 1))
            } else {
                bytes_piece(seq![0u8])
            };
            proof {
                lemma_first_dot(rest_s, len as int);
                assert(rest_s.take(len as int) =~= label);
                if i < n {
                    assert(rest_s.skip(len + 1) =~= s.skip(i + 1));
                    lemma_qname_piece_wf(s.skip(i + 1));
                }
            }
            if len > 0x3f {
                let r = Err(String::from_str("Single label exceeds 63 characters of length"));
                proof {
                    assert(splice(self.buf@, self.pos as int, Seq::<u8>::empty()) =~= self.buf@);
                }
                return r;
            }
            proof {
                lemma_cat_bytes(seq![len as u8], label, rest);
                lemma_emit_cat(self.buf@, self.pos as int, bytes_piece(seq![len as u8]), cat(bytes_piece(label), rest));
            }
            self.write_u8(len as u8)?;
            let mut j = start;
            while j < i
                invariant
                    bytes@ == s,
                    n == s.len(),
                    start <= j <= i <= n,
                    piece_wf(rest),
                    s == encode_utf8(qname@),
                    target == emit(old(self).buf@, old(self).pos as int, qname_piece(s)),
                    emit(self.buf@, self.pos as int, cat(bytes_piece(s.subrange(j as int, i as int)), rest))
                        == target,
                decreases i - j,
            {
                proof {
                    assert(s.subrange(j as int, i as int) =~= seq![s[j as int]] + s.subrange(j + 1, i as int));
                    lemma_cat_bytes(seq![s[j as int]], s.subrange(j + 1, i as int), rest);
                    lemma_emit_cat(self.buf@, self.pos as int, bytes_piece(seq![s[j as int]]), cat(bytes_piece(s.subrange(j + 1, i as int)), rest));
                }
                self.write_u8(bytes[j])?;
                j += 1;
            }
            proof {
                lemma_cat_bytes(Seq::empty(), Seq::empty(), rest);
                assert(s.subrange(i as int, i as int) =~= Seq::<u8>::empty());
            }
            if i == n {
                self.write_u8(0)?;
                return Ok(());
            }
            start = i + 1;
        }
    }

    /// Overwrites the byte at `pos` without moving the position.
    pub fn set(&mut self, pos: usize, val: u8) -> (res: Result<(), String>)
        requires
            pos < 512,
        ensures
            res is Ok,
            final(self).pos == old(self).pos,
            final(self).buf@ == old(self).buf@.update(pos as int, val),
    {
        self.buf[pos] = val;
        Ok(())
    }

    /// Overwrites the two bytes at `pos` with `val`, most significant first.
    pub fn set_u16(&mut self, pos: usize, val: u16) -> (res: Result<(), String>)
        requires
            pos + 1 < 512,
        ensures
            res is Ok,
            final(self).pos == old(self).pos,
            final(self).buf@ == splice(old(self).buf@, pos as int, u16_bytes(val)),
    {
        let hi = (val >> 8) as u8;
        let lo = (val & 0xFF) as u8;
        assert(hi == val / 256 && lo == val % 256) by (bit_vector)
            requires
                hi == (val >> 8) as u8,
                lo == (val & 0xFF) as u8,
        ;
        self.set(pos, hi)?;
        self.set(pos + 1, lo)?;
        proof {
            assert(self.buf@ =~= splice(old(self).buf@, pos as int, u16_bytes(val)));
        }
        Ok(())
    }
}

/// The buffer after writing a list of units is their emission from where it stood before.
pub open spec fn wrote_all(old_buf: &BytePacketBuffer, new_buf: &BytePacketBuffer, ps: Seq<Piece>) -> bool {
    let e = emit_all(old_buf.buf@, old_buf.pos as int, ps);
    new_buf.buf@ == e.buf && new_buf.pos == e.pos
}

} // verus!

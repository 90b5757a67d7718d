use crate::buf::{
    be16, bytes_piece, cat, emit, lemma_emit_bytes_cat, lemma_emit_cat, lemma_qname_piece_wf,
    name_piece, pos_after_overrun, qname_read, read_err_of, read_result, u16_bytes, write_result,
    wrote, BytePacketBuffer, Piece, ReadErr,
};
use vstd::prelude::*;
use vstd::utf8::encode_utf8;

verus! {

/// The record types this resolver knows; any other number is kept as `UNKNOWN`.
#[derive(PartialEq, Eq, Debug, Clone, Hash, Copy, Structural)]
pub enum QueryType {
    UNKNOWN(u16),
    A,  // 1
    NS,  // 2
    CNAME,  // 5
    MX,  // 15
    AAAA,  // 28
}

/// The query type that a type number stands for.
pub open spec fn query_type_of(value: u16) -> QueryType {
    if value == 1 {
        QueryType::A
    } else if value == 2 {
        QueryType::NS
    } else if value == 5 {
        QueryType::CNAME
    } else if value == 15 {
        QueryType::MX
    } else if value == 28 {
        QueryType::AAAA
    } else {
        QueryType::UNKNOWN(value)
    }
}

/// The type number of a query type.
pub open spec fn query_type_num(t: QueryType) -> u16 {
    match t {
        QueryType::A => 1,
        QueryType::NS => 2,
        QueryType::CNAME => 5,
        QueryType::MX => 15,
        QueryType::AAAA => 28,
        QueryType::UNKNOWN(value) => value,
    }
}

/// `UNKNOWN` does not hold the number of a known type.
pub open spec fn is_canonical(t: QueryType) -> bool {
    query_type_of(query_type_num(t)) == t
}

impl QueryType {
    pub fn from_u16(value: u16) -> (res: QueryType)
        ensures
            res == query_type_of(value),
    {
        match value {
            1 => QueryType::A,
            2 => QueryType::NS,
            5 => QueryType::CNAME,
            15 => QueryType::MX,
            28 => QueryType::AAAA,
            _ => QueryType::UNKNOWN(value),
        }
    }

    /// The type's name as it is printed, such as `MX` or `UNKNOWN(16)`.
    pub fn to_string(&self) -> (res: String)
        ensures
            res@ == query_type_name(*self),
    {
        match self {
            QueryType::A => String::from_str("A"),
            QueryType::NS => String::from_str("NS"),
            QueryType::CNAME => String::from_str("CNAME"),
            QueryType::MX => String::from_str("MX"),
            QueryType::AAAA => String::from_str("AAAA"),
            QueryType::UNKNOWN(value) => {
                let mut out = String::from_str("UNKNOWN(");
                push_decimal(&mut out, *value);
                out.append(")");
                out
            },
        }
    }

    pub fn to_u16(&self) -> (res: u16)
        ensures
            res == query_type_num(*self),
    {
        match self {
            QueryType::A => 1,
            QueryType::NS => 2,
            QueryType::CNAME => 5,
            QueryType::MX => 15,
            QueryType::AAAA => 28,
            QueryType::UNKNOWN(value) => *value,
        }
    }
}

/// The decimal digit character of `d`.
pub open spec fn digit_char(d: int) -> char {
    ((d + 48) as u32) as char
}

/// The decimal digits of `n`, most significant first.
pub open spec fn decimal(n: nat) -> Seq<char>
    decreases n,
{
    if n < 10 {
        seq![digit_char(n as int)]
    } else {
        decimal(n / 10) + seq![digit_char((n % 10) as int)]
    }
}

/// The name of a query type as it is printed: the variant's name, and for an
/// unknown type its number in parentheses.
pub open spec fn query_type_name(t: QueryType) -> Seq<char> {
    match t {
        QueryType::A => "A"@,
        QueryType::NS => "NS"@,
        QueryType::CNAME => "CNAME"@,
        QueryType::MX => "MX"@,
        QueryType::AAAA => "AAAA"@,
        QueryType::UNKNOWN(v) => "UNKNOWN("@ + decimal(v as nat) + ")"@,
    }
}

/// The one-character text of a decimal digit.
fn digit_str(d: u16) -> (res: &'static str)
    requires
        d < 10,
    ensures
        res@ == seq![digit_char(d as int)],
{
    proof {
        reveal_strlit("0");
        reveal_strlit("1");
        reveal_strlit("2");
        reveal_strlit("3");
        reveal_strlit("4");
        reveal_strlit("5");
        reveal_strlit("6");
        reveal_strlit("7");
        reveal_strlit("8");
        reveal_strlit("9");
    }
    match d {
        0 => "0",
        1 => "1",
        2 => "2",
        3 => "3",
        4 => "4",
        5 => "5",
        6 => "6",
        7 => "7",
        8 => "8",
        _ => "9",
    }
}

/// Appends the decimal digits of `v`.
fn push_decimal(out: &mut String, v: u16)
    ensures
        final(out)@ == old(out)@ + decimal(v as nat),
    decreases v,
{
    if v >= 10 {
        push_decimal(out, v / 10);
    }
    out.append(digit_str(v % 10));
    proof {
        if v >= 10 {
            assert(old(out)@ + decimal((v / 10) as nat) + seq![digit_char((v % 10) as int)] =~= old(out)@
                + decimal(v as nat));
        } else {
            assert(old(out)@ + seq![digit_char((v % 10) as int)] =~= old(out)@ + decimal(v as nat));
        }
    }
}

/// A type number survives the trip through `QueryType`; a query type survives the
/// trip through its number exactly when it is canonical, and every known type is.
pub proof fn law_query_type_numbers(value: u16, t: QueryType)
    ensures
        query_type_num(query_type_of(value)) == value,
        is_canonical(t) <==> query_type_of(query_type_num(t)) == t,
        !(t is UNKNOWN) ==> is_canonical(t),
        is_canonical(query_type_of(value)),
{
}

/// The class of a record; only `IN` is used.
#[allow(dead_code)]
pub enum QueryClass {
    IN,  // 1
    // Unused
    _CH,  // 3
    _HS,  // 4
    _ANY,  // 255
}

/// The class number of a query class.
pub open spec fn query_class_num(c: QueryClass) -> u16 {
    match c {
        QueryClass::IN => 1,
        QueryClass::_CH => 3,
        QueryClass::_HS => 4,
        QueryClass::_ANY => 255,
    }
}

impl QueryClass {
    pub fn to_u16(self) -> (res: u16)
        ensures
            res == query_class_num(self),
    {
        match self {
            QueryClass::IN => 1,
            QueryClass::_CH => 3,
            QueryClass::_HS => 4,
            QueryClass::_ANY => 255,
        }
    }
}

/// One entry of the question section: a name and the type asked for.
#[derive(PartialEq, Eq, Debug, Clone)]
pub struct DnsQuestion {
    pub name: String,
    pub query_type: QueryType,
}

/// A question as plain values.
pub struct QuestionView {
    pub name: Seq<char>,
    pub query_type: QueryType,
}

impl View for DnsQuestion {
    type V = QuestionView;

    open spec fn view(&self) -> QuestionView {
        QuestionView { name: self.name@, query_type: self.query_type }
    }
}

/// What reading a question does: the name text it appends, the type it stores (if
/// it got that far), where the position ends up and the error, if any. The class
/// that follows the type is skipped, and running out of buffer there is no error.
pub struct QuestionRead {
    pub text: Seq<char>,
    pub query_type: Option<QueryType>,
    pub pos: int,
    pub err: Option<ReadErr>,
}

/// Reading a question at offset `pos` of `buf`.
pub open spec fn question_read(buf: Seq<u8>, pos: int) -> QuestionRead {
    let w = qname_read(buf, pos);
    if !(w.end is Done) {
        QuestionRead { text: w.text, query_type: None, pos: w.pos, err: Some(read_err_of(w.end)) }
    } else if w.pos + 2 > 512 {
        QuestionRead {
            text: w.text,
            query_type: None,
            pos: pos_after_overrun(w.pos),
            err: Some(ReadErr::EndOfBuffer),
        }
    } else {
        QuestionRead {
            text: w.text,
            query_type: Some(query_type_of(be16(buf, w.pos) as u16)),
            pos: if w.pos + 4 <= 512 {
                w.pos + 4
            } else {
                pos_after_overrun(w.pos + 2)
            },
            err: None,
        }
    }
}

/// A question on the wire: the name, the type number and class `IN`.
pub open spec fn question_piece(q: QuestionView) -> Piece {
    cat(name_piece(q.name), bytes_piece(u16_bytes(query_type_num(q.query_type)) + u16_bytes(1)))
}

impl DnsQuestion {
    pub fn new(name: String, query_type: QueryType) -> (res: DnsQuestion)
        ensures
            res.name == name,
            res.query_type == query_type,
    {
        DnsQuestion { name, query_type }
    }

    /// Reads a question at the buffer's position, appending the name to `self.name`.
    /// A name whose label runs past the end of the buffer is outside its domain;
    /// `question_reach` tells beforehand whether the question at a position has one.
    pub fn read(&mut self, buffer: &mut BytePacketBuffer) -> (res: Result<(), String>)
        requires
            !(qname_read(old(buffer).buf@, old(buffer).pos as int).end is Overrun),
        ensures
            ({
                let q = question_read(old(buffer).buf@, old(buffer).pos as int);
                &&& final(self).name@ == old(self).name@ + q.text
                &&& final(self).query_type == (match q.query_type {
                    Some(t) => t,
                    None => old(self).query_type,
                })
                &&& final(buffer).buf == old(buffer).buf
                &&& final(buffer).pos == q.pos
                &&& read_result(res, q.err)
            }),
    {
        buffer.read_qname(&mut self.name)?;
        self.query_type = QueryType::from_u16(buffer.read_u16()?);
        let _ = buffer.read_u16();  // class

        Ok(())
    }

    /// Writes the question at the buffer's position.
    pub fn write(&self, buffer: &mut BytePacketBuffer) -> (res: Result<(), String>)
        ensures
            wrote(old(buffer), final(buffer), question_piece(self@)),
            write_result(res, emit(old(buffer).buf@, old(buffer).pos as int, question_piece(self@))),
    {
        let ghost tail = u16_bytes(query_type_num(self.query_type)) + u16_bytes(1);
        proof {
            lemma_qname_piece_wf(encode_utf8(self.name@));
            lemma_emit_cat(old(buffer).buf@, old(buffer).pos as int, name_piece(self.name@), bytes_piece(tail));
        }
        buffer.write_qname(self.name.as_str())?;
        proof {
            lemma_emit_bytes_cat(buffer.buf@, buffer.pos as int, u16_bytes(query_type_num(self.query_type)), u16_bytes(1));
        }
        buffer.write_u16(self.query_type.to_u16())?;
        buffer.write_u16(QueryClass::IN.to_u16())?;

        Ok(())
    }
}

} // verus!

//! Question records: a name, a type code and a class code.

use vstd::prelude::*;
use crate::error::{view_result, DecodeError};
use crate::name::{
    lemma_empty_name_wire, lemma_name_round_trip, lemma_parse_name_bounds,
    lemma_read_name_wire_len, lemma_unfit_name, name_fits, name_wire, parse_name, try_read_name,
    write_name,
};
use crate::wire::{be16, be16_bytes, lemma_be16_round_trip, push_all, push_u16, u16_from_be};

verus! {

/// The lowest type code a decoder accepts.
pub const TYPE_MIN: u16 = 1;

/// The highest type code a decoder accepts.
pub const TYPE_MAX: u16 = 16;

/// The class code of the Internet class, the only one a decoder accepts.
pub const CLASS_IN: u16 = 1;

/// One entry of the question section.
#[derive(Debug, Clone, PartialEq, Eq)]
pub struct DnsQuestion {
    /// The name asked about, labels separated by dots.
    pub qname: String,
    /// The type of record asked for.
    pub qtype: u16,
    /// The class of the query.
    pub qclass: u16,
}

/// A question as a mathematical value.
pub struct QuestionView {
    pub qname: Seq<char>,
    pub qtype: u16,
    pub qclass: u16,
}

impl View for DnsQuestion {
    type V = QuestionView;

    open spec fn view(&self) -> QuestionView {
        QuestionView { qname: self.qname@, qtype: self.qtype, qclass: self.qclass }
    }
}

impl QuestionView {
    /// The question on the wire: the name, then type and class, big-endian.
    pub open spec fn wire(self) -> Seq<u8> {
        name_wire(self.qname) + be16_bytes(self.qtype) + be16_bytes(self.qclass)
    }

    /// The questions that a decoder accepts and that come back from the wire
    /// as they went: the name fits, the type is in range, the class is Internet.
    pub open spec fn valid(self) -> bool {
        &&& name_fits(self.qname)
        &&& TYPE_MIN <= self.qtype <= TYPE_MAX
        &&& self.qclass == CLASS_IN
    }
}

/// The question that opens `bytes`. What follows the question is not looked at.
///
/// The checks come in the order of the fields: the name, the two bytes of the
/// type, its range, the two bytes of the class, its value.
pub open spec fn parse_question(bytes: Seq<u8>) -> Result<QuestionView, DecodeError> {
    match parse_name(bytes) {
        Err(e) => Err(e),
        Ok((qname, used)) => {
            if bytes.len() < used + 2 {
                Err(DecodeError::Truncated)
            } else {
                let qtype = be16(bytes[used], bytes[used + 1]);
                if !(TYPE_MIN <= qtype <= TYPE_MAX) {
                    Err(DecodeError::InvalidType)
                } else if bytes.len() < used + 4 {
                    Err(DecodeError::Truncated)
                } else {
                    let qclass = be16(bytes[used + 2], bytes[used + 3]);
                    if qclass != CLASS_IN {
                        Err(DecodeError::InvalidClass)
                    } else {
                        Ok(QuestionView { qname, qtype, qclass })
                    }
                }
            }
        },
    }
}

impl DnsQuestion {
    /// Serialises the question: name, type, class.
    pub fn to_bytes(&self) -> (bytes: Vec<u8>)
        ensures
            bytes@ == self@.wire(),
    {
        let mut bytes: Vec<u8> = Vec::new();
        let name_bytes = write_name(self.qname.as_str());
        push_all(&mut bytes, name_bytes.as_slice());
        push_u16(&mut bytes, self.qtype);
        push_u16(&mut bytes, self.qclass);
        bytes
    }

    /// Reads the question at the front of `bytes`, or says why there is none.
    pub fn try_from_bytes(bytes: &[u8]) -> (result: Result<DnsQuestion, DecodeError>)
        ensures
            view_result(result) == parse_question(bytes@),
    {
        let (qname, i) = match try_read_name(bytes) {
            Ok(read) => read,
            Err(e) => {
                return Err(e);
            },
        };
        if bytes.len() - i < 2 {
            return Err(DecodeError::Truncated);
        }
        let qtype = u16_from_be(bytes[i], bytes[i + 1]);
        if qtype < TYPE_MIN || qtype > TYPE_MAX {
            return Err(DecodeError::InvalidType);
        }
        if bytes.len() - i < 4 {
            return Err(DecodeError::Truncated);
        }
        let qclass = u16_from_be(bytes[i + 2], bytes[i + 3]);
        if qclass != CLASS_IN {
            return Err(DecodeError::InvalidClass);
        }
        Ok(DnsQuestion { qname, qtype, qclass })
    }

    /// Reads the question at the front of `bytes`, which must hold one.
    pub fn from_bytes(bytes: &[u8]) -> (question: DnsQuestion)
        requires
            parse_question(bytes@) is Ok,
        ensures
            parse_question(bytes@) == Ok::<QuestionView, DecodeError>(question@),
    {
        DnsQuestion::try_from_bytes(bytes).unwrap()
    }
}

/// What a decoder accepts has its name at the front of the buffer and its
/// type in the two bytes after the name, a type in range and the Internet
/// class.
pub proof fn lemma_parsed_question(bytes: Seq<u8>)
    ensures
        parse_question(bytes) matches Ok(question) ==> {
            &&& parse_name(bytes) matches Ok((name, used)) && question.qname == name
                && question.qtype == be16(bytes[used], bytes[used + 1])
            &&& TYPE_MIN <= question.qtype <= TYPE_MAX
            &&& question.qclass == CLASS_IN
        },
{
    lemma_parse_name_bounds(bytes);
}

/// Decoding the encoding of a valid question gives the question back,
/// whatever follows the encoding.
proof fn lemma_valid_question(question: QuestionView, rest: Seq<u8>)
    requires
        question.valid(),
    ensures
        parse_question(question.wire() + rest) == Ok::<QuestionView, DecodeError>(question),
{
    let name = name_wire(question.qname);
    let bytes = question.wire() + rest;
    let used = name.len() as int;
    lemma_name_round_trip(
        question.qname,
        be16_bytes(question.qtype) + be16_bytes(question.qclass) + rest,
    );
    assert(bytes =~= name + (be16_bytes(question.qtype) + be16_bytes(question.qclass) + rest));
    lemma_be16_round_trip(question.qtype);
    lemma_be16_round_trip(question.qclass);
    assert(bytes[used] == be16_bytes(question.qtype)[0]);
    assert(bytes[used + 1] == be16_bytes(question.qtype)[1]);
    assert(bytes[used + 2] == be16_bytes(question.qclass)[0]);
    assert(bytes[used + 3] == be16_bytes(question.qclass)[1]);
}

/// A question that is not valid does not come back from its encoding.
proof fn lemma_invalid_question(question: QuestionView, rest: Seq<u8>)
    requires
        !question.valid(),
    ensures
        parse_question(question.wire() + rest) != Ok::<QuestionView, DecodeError>(question),
{
    let bytes = question.wire() + rest;
    lemma_parsed_question(bytes);
    if !name_fits(question.qname) {
        let parsed = parse_question(bytes);
        if parsed == Ok::<QuestionView, DecodeError>(question) {
            let tail = be16_bytes(question.qtype) + (be16_bytes(question.qclass) + rest);
            assert(bytes =~= name_wire(question.qname) + tail);
            lemma_unfit_name(question.qname, tail);
            lemma_empty_name_wire();
            assert(question.qname =~= Seq::<char>::empty());
            assert(bytes[1] == 0);
            assert(bytes[2] == be16_bytes(question.qtype)[0]);
            assert(question.qtype == be16(bytes[1], bytes[2]));
            assert(false);
        }
    }
}

/// Decoding the encoding of a question gives the question back, whatever
/// follows the encoding, exactly when the question is valid.
pub proof fn lemma_question_round_trip(question: QuestionView, rest: Seq<u8>)
    ensures
        question.valid() <==> parse_question(question.wire() + rest) == Ok::<
            QuestionView,
            DecodeError,
        >(question),
{
    if question.valid() {
        lemma_valid_question(question, rest);
    } else {
        lemma_invalid_question(question, rest);
    }
}

/// A question that was read is as long on the wire as what was read of the
/// buffer: the name and four bytes. A question with the empty name is one
/// byte longer.
pub proof fn lemma_read_question_wire_len(bytes: Seq<u8>)
    ensures
        parse_question(bytes) matches Ok(question) ==> parse_name(bytes) matches Ok((_, used))
            && question.wire().len() == used + 4 + if question.qname.len() == 0 {
            1int
        } else {
            0int
        },
{
    lemma_parsed_question(bytes);
    lemma_read_name_wire_len(bytes);
}

} // verus!

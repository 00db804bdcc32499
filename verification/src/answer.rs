//! Resource records: a name, type, class, time to live and a payload.

use vstd::prelude::*;
use vstd::slice::slice_to_vec;
use crate::error::{view_result, DecodeError};
use crate::name::{
    lemma_empty_name_wire, lemma_name_round_trip, lemma_parse_name_bounds,
    lemma_read_name_wire_len, lemma_unfit_name, name_fits, name_wire, parse_name, try_read_name,
    write_name,
};
use crate::question::{CLASS_IN, TYPE_MAX, TYPE_MIN};
use crate::wire::{
    be16, be16_bytes, be32, be32_bytes, lemma_be16_round_trip, lemma_be32_round_trip, push_all,
    push_u16, push_u32, u16_from_be, u32_from_be,
};

verus! {

/// One resource record of the answer section.
#[derive(Debug, Clone, PartialEq, Eq)]
pub struct DnsAnswer {
    /// The name the record belongs to, labels separated by dots.
    pub name: String,
    /// The type of the record.
    pub qtype: u16,
    /// The class of the record.
    pub qclass: u16,
    /// How many seconds the record may be kept.
    pub ttl: u32,
    /// The declared length of `rdata`.
    pub rdlength: u16,
    /// The payload.
    pub rdata: Vec<u8>,
}

/// A resource record as a mathematical value.
pub struct AnswerView {
    pub name: Seq<char>,
    pub qtype: u16,
    pub qclass: u16,
    pub ttl: u32,
    pub rdlength: u16,
    pub rdata: Seq<u8>,
}

impl View for DnsAnswer {
    type V = AnswerView;

    open spec fn view(&self) -> AnswerView {
        AnswerView {
            name: self.name@,
            qtype: self.qtype,
            qclass: self.qclass,
            ttl: self.ttl,
            rdlength: self.rdlength,
            rdata: self.rdata@,
        }
    }
}

impl AnswerView {
    /// The record on the wire: the name, then type, class, time to live and
    /// declared length, big-endian, then the payload as it is.
    pub open spec fn wire(self) -> Seq<u8> {
        name_wire(self.name) + be16_bytes(self.qtype) + be16_bytes(self.qclass) + be32_bytes(
            self.ttl,
        ) + be16_bytes(self.rdlength) + self.rdata
    }

    /// The records that a decoder accepts and that come back from the wire as
    /// they went: the name fits, the type is in range, the class is Internet,
    /// and the payload is as long as declared.
    pub open spec fn valid(self) -> bool {
        &&& name_fits(self.name)
        &&& TYPE_MIN <= self.qtype <= TYPE_MAX
        &&& self.qclass == CLASS_IN
        &&& self.rdata.len() == self.rdlength
    }
}

/// The record that opens `bytes`. What follows the record is not looked at.
///
/// The checks come in the order of the fields: the name, the two bytes of the
/// type, its range, the two bytes of the class, its value, the six bytes of
/// time to live and declared length, and the payload of that length.
pub open spec fn parse_answer(bytes: Seq<u8>) -> Result<AnswerView, DecodeError> {
    match parse_name(bytes) {
        Err(e) => Err(e),
        Ok((name, used)) => {
            if bytes.len() < used + 2 {
                Err(DecodeError::Truncated)
            } else {
                let qtype = be16(bytes[used], bytes[used + 1]);
                if !(TYPE_MIN <= qtype <= TYPE_MAX) {
                    Err(DecodeError::InvalidType)
                } else if bytes.len() < used + 4 {
                    Err(DecodeError::Truncated)
                } else {
                    let qclass = be16(bytes[used + 2], bytes[used + 3]);
                    if qclass != CLASS_IN {
                        Err(DecodeError::InvalidClass)
                    } else if bytes.len() < used + 10 {
                        Err(DecodeError::Truncated)
                    } else {
                        let ttl = be32(
                            bytes[used + 4],
                            bytes[used + 5],
                            bytes[used + 6],
                            bytes[used + 7],
                        );
                        let rdlength = be16(bytes[used + 8], bytes[used + 9]);
                        if bytes.len() < used + 10 + rdlength {
                            Err(DecodeError::Truncated)
                        } else {
                            Ok(
                                AnswerView {
                                    name,
                                    qtype,
                                    qclass,
                                    ttl,
                                    rdlength,
                                    rdata: bytes.subrange(used + 10, used + 10 + rdlength),
                                },
                            )
                        }
                    }
                }
            }
        },
    }
}

impl DnsAnswer {
    /// Serialises the record: name, type, class, time to live, declared
    /// length, payload.
    pub fn to_bytes(&self) -> (bytes: Vec<u8>)
        ensures
            bytes@ == self@.wire(),
    {
        let mut bytes: Vec<u8> = Vec::new();
        let name_bytes = write_name(self.name.as_str());
        push_all(&mut bytes, name_bytes.as_slice());
        push_u16(&mut bytes, self.qtype);
        push_u16(&mut bytes, self.qclass);
        push_u32(&mut bytes, self.ttl);
        push_u16(&mut bytes, self.rdlength);
        push_all(&mut bytes, self.rdata.as_slice());
        bytes
    }

    /// Reads the record at the front of `bytes`, or says why there is none.
    pub fn try_from_bytes(bytes: &[u8]) -> (result: Result<DnsAnswer, DecodeError>)
        ensures
            view_result(result) == parse_answer(bytes@),
    {
        let (name, i) = match try_read_name(bytes) {
            Ok(read) => read,
            Err(e) => {
                return Err(e);
            },
        };
        let left = bytes.len() - i;
        if left < 2 {
            return Err(DecodeError::Truncated);
        }
        let qtype = u16_from_be(bytes[i], bytes[i + 1]);
        if qtype < TYPE_MIN || qtype > TYPE_MAX {
            return Err(DecodeError::InvalidType);
        }
        if left < 4 {
            return Err(DecodeError::Truncated);
        }
        let qclass = u16_from_be(bytes[i + 2], bytes[i + 3]);
        if qclass != CLASS_IN {
            return Err(DecodeError::InvalidClass);
        }
        if left < 10 {
            return Err(DecodeError::Truncated);
        }
        let ttl = u32_from_be(bytes[i + 4], bytes[i + 5], bytes[i + 6], bytes[i + 7]);
        let rdlength = u16_from_be(bytes[i + 8], bytes[i + 9]);
        if left - 10 < rdlength as usize {
            return Err(DecodeError::Truncated);
        }
        let rdata = slice_to_vec(&bytes[i + 10..i + 10 + rdlength as usize]);
        Ok(DnsAnswer { name, qtype, qclass, ttl, rdlength, rdata })
    }

    /// Reads the record at the front of `bytes`, which must hold one.
    pub fn from_bytes(bytes: &[u8]) -> (answer: DnsAnswer)
        requires
            parse_answer(bytes@) is Ok,
        ensures
            parse_answer(bytes@) == Ok::<AnswerView, DecodeError>(answer@),
    {
        DnsAnswer::try_from_bytes(bytes).unwrap()
    }
}

/// What a decoder accepts has its name at the front of the buffer and its
/// type in the two bytes after the name, a type in range, the Internet class,
/// and a payload as long as declared.
pub proof fn lemma_parsed_answer(bytes: Seq<u8>)
    ensures
        parse_answer(bytes) matches Ok(answer) ==> {
            &&& parse_name(bytes) matches Ok((name, used)) && answer.name == name && answer.qtype
                == be16(bytes[used], bytes[used + 1])
            &&& TYPE_MIN <= answer.qtype <= TYPE_MAX
            &&& answer.qclass == CLASS_IN
            &&& answer.rdata.len() == answer.rdlength
        },
{
    lemma_parse_name_bounds(bytes);
}

/// Decoding the encoding of a valid record gives the record back, whatever
/// follows the encoding.
proof fn lemma_valid_answer(answer: AnswerView, rest: Seq<u8>)
    requires
        answer.valid(),
    ensures
        parse_answer(answer.wire() + rest) == Ok::<AnswerView, DecodeError>(answer),
{
    let name = name_wire(answer.name);
    let fixed = be16_bytes(answer.qtype) + be16_bytes(answer.qclass) + be32_bytes(answer.ttl)
        + be16_bytes(answer.rdlength);
    let bytes = answer.wire() + rest;
    let used = name.len() as int;
    lemma_name_round_trip(answer.name, fixed + answer.rdata + rest);
    assert(bytes =~= name + (fixed + answer.rdata + rest));
    lemma_be16_round_trip(answer.qtype);
    lemma_be16_round_trip(answer.qclass);
    lemma_be32_round_trip(answer.ttl);
    lemma_be16_round_trip(answer.rdlength);
    assert(fixed.len() == 10);
    assert(bytes[used] == be16_bytes(answer.qtype)[0]);
    assert(bytes[used + 1] == be16_bytes(answer.qtype)[1]);
    assert(bytes[used + 2] == be16_bytes(answer.qclass)[0]);
    assert(bytes[used + 3] == be16_bytes(answer.qclass)[1]);
    assert(bytes[used + 4] == be32_bytes(answer.ttl)[0]);
    assert(bytes[used + 5] == be32_bytes(answer.ttl)[1]);
    assert(bytes[used + 6] == be32_bytes(answer.ttl)[2]);
    assert(bytes[used + 7] == be32_bytes(answer.ttl)[3]);
    assert(bytes[used + 8] == be16_bytes(answer.rdlength)[0]);
    assert(bytes[used + 9] == be16_bytes(answer.rdlength)[1]);
    assert(bytes.subrange(used + 10, used + 10 + answer.rdlength) =~= answer.rdata);
}

/// A record that is not valid does not come back from its encoding.
proof fn lemma_invalid_answer(answer: AnswerView, rest: Seq<u8>)
    requires
        !answer.valid(),
    ensures
        parse_answer(answer.wire() + rest) != Ok::<AnswerView, DecodeError>(answer),
{
    let bytes = answer.wire() + rest;
    lemma_parsed_answer(bytes);
    if !name_fits(answer.name) {
        let parsed = parse_answer(bytes);
        if parsed == Ok::<AnswerView, DecodeError>(answer) {
            let tail = be16_bytes(answer.qtype) + (be16_bytes(answer.qclass) + be32_bytes(
                answer.ttl,
            ) + be16_bytes(answer.rdlength) + answer.rdata + rest);
            assert(bytes =~= name_wire(answer.name) + tail);
            lemma_unfit_name(answer.name, tail);
            lemma_empty_name_wire();
            assert(answer.name =~= Seq::<char>::empty());
            assert(bytes[1] == 0);
            assert(bytes[2] == be16_bytes(answer.qtype)[0]);
            assert(answer.qtype == be16(bytes[1], bytes[2]));
            assert(false);
        }
    }
}

/// Decoding the encoding of a record gives the record back, whatever follows
/// the encoding, exactly when the record is valid.
pub proof fn lemma_answer_round_trip(answer: AnswerView, rest: Seq<u8>)
    ensures
        answer.valid() <==> parse_answer(answer.wire() + rest) == Ok::<AnswerView, DecodeError>(
            answer,
        ),
{
    if answer.valid() {
        lemma_valid_answer(answer, rest);
    } else {
        lemma_invalid_answer(answer, rest);
    }
}

/// A record that was read is as long on the wire as what was read of the
/// buffer: the name, ten bytes and the payload. A record with the empty name
/// is one byte longer.
pub proof fn lemma_read_answer_wire_len(bytes: Seq<u8>)
    ensures
        parse_answer(bytes) matches Ok(answer) ==> parse_name(bytes) matches Ok((_, used))
            && answer.wire().len() == used + 10 + answer.rdlength + if answer.name.len() == 0 {
            1int
        } else {
            0int
        },
{
    lemma_parsed_answer(bytes);
    lemma_read_name_wire_len(bytes);
}

} // verus!

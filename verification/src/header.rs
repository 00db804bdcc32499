//! The fixed twelve-byte header that opens every DNS message.

use vstd::prelude::*;
use crate::error::DecodeError;
use crate::wire::{be16, be16_bytes, lemma_be16_round_trip, push_u16, u16_from_be};

verus! {

/// Number of bytes a header occupies on the wire.
pub const HEADER_LEN: usize = 12;

/// A DNS message header.
///
/// `opcode` and `rescode` are four-bit fields; a header is `valid` when both fit.
#[derive(Debug, Clone, Copy, PartialEq, Eq)]
pub struct DnsHeader {
    /// The transaction id, which a reply takes over from its request.
    pub id: u16,
    /// Set in a reply, clear in a query.
    pub response: bool,
    /// The client asks for the name to be resolved recursively.
    pub recursion_desired: bool,
    /// The message was cut to fit the transport.
    pub truncated_message: bool,
    /// The server that replies owns the name asked about.
    pub authoritative_answer: bool,
    /// The kind of query, a four-bit value: 0 is a standard query.
    pub opcode: u8,
    /// The outcome, a four-bit value: 0 is "no error", 4 is "not implemented".
    pub rescode: u8,
    /// The client does not want answers checked.
    pub checking_disabled: bool,
    /// The answers were authenticated.
    pub authed_data: bool,
    /// The reserved bit.
    pub z: bool,
    /// The server resolves recursively.
    pub recursion_available: bool,
    /// How many questions follow the header.
    pub questions: u16,
    /// How many answers follow the questions.
    pub answers: u16,
    /// How many authority records follow the answers.
    pub authoritative_entries: u16,
    /// How many additional records follow those.
    pub resource_entries: u16,
}

/// A flag as a single bit.
pub open spec fn bit(flag: bool) -> u8 {
    if flag {
        1u8
    } else {
        0u8
    }
}

/// Turns a flag into its bit.
fn flag_bit(flag: bool) -> (b: u8)
    ensures
        b == bit(flag),
{
    if flag {
        1
    } else {
        0
    }
}

impl Default for DnsHeader {
    /// The seed for reply headers: id 1234, the response flag set, all else zero.
    fn default() -> (header: DnsHeader)
        ensures
            header == (DnsHeader {
                id: 1234,
                response: true,
                recursion_desired: false,
                truncated_message: false,
                authoritative_answer: false,
                opcode: 0,
                rescode: 0,
                checking_disabled: false,
                authed_data: false,
                z: false,
                recursion_available: false,
                questions: 0,
                answers: 0,
                authoritative_entries: 0,
                resource_entries: 0,
            }),
    {
        DnsHeader {
            id: 1234,
            recursion_desired: false,
            truncated_message: false,
            authoritative_answer: false,
            opcode: 0,
            response: true,
            rescode: 0,
            checking_disabled: false,
            authed_data: false,
            z: false,
            recursion_available: false,
            questions: 0,
            answers: 0,
            authoritative_entries: 0,
            resource_entries: 0,
        }
    }
}

impl DnsHeader {
    /// Both four-bit fields hold four-bit values.
    pub open spec fn valid(&self) -> bool {
        self.opcode < 16 && self.rescode < 16
    }

    /// First flag byte: response in bit 7, opcode in bits 6 to 3, then
    /// authoritative-answer, truncation and recursion-desired in bits 2, 1 and 0.
    /// Only the low four bits of `opcode` are used.
    pub open spec fn flags_hi(&self) -> u8 {
        bit(self.response) << 7 | (self.opcode & 0x0f) << 3 | bit(self.authoritative_answer) << 2
            | bit(self.truncated_message) << 1 | bit(self.recursion_desired)
    }

    /// Second flag byte: checking-disabled in bit 7, authenticated-data in bit 6,
    /// the reserved bit in bit 5, recursion-available in bit 4 and the response
    /// code in bits 3 to 0. `rescode` is or-ed in as it is.
    pub open spec fn flags_lo(&self) -> u8 {
        bit(self.checking_disabled) << 7 | bit(self.authed_data) << 6 | bit(self.z) << 5 | bit(
            self.recursion_available,
        ) << 4 | self.rescode
    }

    /// The twelve bytes of the header on the wire.
    pub open spec fn wire(&self) -> Seq<u8> {
        be16_bytes(self.id) + seq![self.flags_hi(), self.flags_lo()] + be16_bytes(self.questions)
            + be16_bytes(self.answers) + be16_bytes(self.authoritative_entries) + be16_bytes(
            self.resource_entries,
        )
    }

    /// The header that twelve wire bytes stand for.
    pub open spec fn parse(bytes: Seq<u8>) -> DnsHeader
        recommends
            bytes.len() == 12,
    {
        DnsHeader {
            id: be16(bytes[0], bytes[1]),
            response: bytes[2] & 0x80 != 0,
            opcode: (bytes[2] & 0x78) >> 3,
            authoritative_answer: bytes[2] & 0x04 != 0,
            truncated_message: bytes[2] & 0x02 != 0,
            recursion_desired: bytes[2] & 0x01 != 0,
            checking_disabled: bytes[3] & 0x80 != 0,
            authed_data: bytes[3] & 0x40 != 0,
            z: bytes[3] & 0x20 != 0,
            recursion_available: bytes[3] & 0x10 != 0,
            rescode: bytes[3] & 0x0f,
            questions: be16(bytes[4], bytes[5]),
            answers: be16(bytes[6], bytes[7]),
            authoritative_entries: be16(bytes[8], bytes[9]),
            resource_entries: be16(bytes[10], bytes[11]),
        }
    }

    /// Serialises the header into its twelve wire bytes.
    pub fn to_bytes(&self) -> (bytes: Vec<u8>)
        ensures
            bytes@ == self.wire(),
            bytes@.len() == 12,
    {
        let mut bytes: Vec<u8> = Vec::new();
        push_u16(&mut bytes, self.id);
        let first_flag_byte: u8 = flag_bit(self.response) << 7 | (self.opcode & 0x0f) << 3
            | flag_bit(self.authoritative_answer) << 2 | flag_bit(self.truncated_message) << 1
            | flag_bit(self.recursion_desired);
        bytes.push(first_flag_byte);
        let second_flag_byte: u8 = flag_bit(self.checking_disabled) << 7 | flag_bit(
            self.authed_data,
        ) << 6 | flag_bit(self.z) << 5 | flag_bit(self.recursion_available) << 4 | self.rescode;
        bytes.push(second_flag_byte);
        push_u16(&mut bytes, self.questions);
        push_u16(&mut bytes, self.answers);
        push_u16(&mut bytes, self.authoritative_entries);
        push_u16(&mut bytes, self.resource_entries);
        bytes
    }

    /// Reads a header from exactly twelve bytes.
    pub fn from_bytes(bytes: &[u8]) -> (header: DnsHeader)
        requires
            bytes@.len() == 12,
        ensures
            header == DnsHeader::parse(bytes@),
    {
        let id = u16_from_be(bytes[0], bytes[1]);
        let first_flag_byte: u8 = bytes[2];
        let response = first_flag_byte & 0x80 != 0;
        let opcode = (first_flag_byte & 0x78) >> 3;
        let authoritative_answer = first_flag_byte & 0x04 != 0;
        let truncated_message = first_flag_byte & 0x02 != 0;
        let recursion_desired = first_flag_byte & 0x01 != 0;
        let second_flag_byte: u8 = bytes[3];
        let checking_disabled = second_flag_byte & 0x80 != 0;
        let authed_data = second_flag_byte & 0x40 != 0;
        let z = second_flag_byte & 0x20 != 0;
        let recursion_available = second_flag_byte & 0x10 != 0;
        let rescode = second_flag_byte & 0x0f;
        let questions = u16_from_be(bytes[4], bytes[5]);
        let answers = u16_from_be(bytes[6], bytes[7]);
        let authoritative_entries = u16_from_be(bytes[8], bytes[9]);
        let resource_entries = u16_from_be(bytes[10], bytes[11]);
        DnsHeader {
            id,
            response,
            recursion_desired,
            truncated_message,
            authoritative_answer,
            opcode,
            rescode,
            checking_disabled,
            authed_data,
            z,
            recursion_available,
            questions,
            answers,
            authoritative_entries,
            resource_entries,
        }
    }

    /// Reads a header from `bytes`, which must be exactly twelve bytes long.
    pub fn try_from_bytes(bytes: &[u8]) -> (result: Result<DnsHeader, DecodeError>)
        ensures
            bytes@.len() == 12 ==> result == Ok::<DnsHeader, DecodeError>(DnsHeader::parse(bytes@)),
            bytes@.len() != 12 ==> result == Err::<DnsHeader, DecodeError>(
                DecodeError::HeaderLength,
            ),
    {
        if bytes.len() == HEADER_LEN {
            Ok(DnsHeader::from_bytes(bytes))
        } else {
            Err(DecodeError::HeaderLength)
        }
    }
}

/// What the flag bytes of a valid header give back when they are taken apart.
proof fn lemma_flag_bytes(
    response: bool,
    opcode: u8,
    authoritative_answer: bool,
    truncated_message: bool,
    recursion_desired: bool,
    checking_disabled: bool,
    authed_data: bool,
    z: bool,
    recursion_available: bool,
    rescode: u8,
)
    by (bit_vector)
    requires
        opcode < 16,
        rescode < 16,
    ensures
        ({
            let hi = bit(response) << 7 | (opcode & 0x0f) << 3 | bit(authoritative_answer) << 2
                | bit(truncated_message) << 1 | bit(recursion_desired);
            &&& (hi & 0x80 != 0) == response
            &&& (hi & 0x78) >> 3 == opcode
            &&& (hi & 0x04 != 0) == authoritative_answer
            &&& (hi & 0x02 != 0) == truncated_message
            &&& (hi & 0x01 != 0) == recursion_desired
        }),
        ({
            let lo = bit(checking_disabled) << 7 | bit(authed_data) << 6 | bit(z) << 5 | bit(
                recursion_available,
            ) << 4 | rescode;
            &&& (lo & 0x80 != 0) == checking_disabled
            &&& (lo & 0x40 != 0) == authed_data
            &&& (lo & 0x20 != 0) == z
            &&& (lo & 0x10 != 0) == recursion_available
            &&& lo & 0x0f == rescode
        }),
{
}

/// The four-bit fields of a header whose flag bytes are taken apart never
/// hold more than four bits.
proof fn lemma_fields_fit(hi: u8, lo: u8)
    by (bit_vector)
    ensures
        (hi & 0x78) >> 3 < 16,
        lo & 0x0f < 16,
{
}

/// What comes out of a decoder is a valid header.
pub proof fn lemma_parse_valid(bytes: Seq<u8>)
    ensures
        DnsHeader::parse(bytes).valid(),
{
    lemma_fields_fit(bytes[2], bytes[3]);
}

/// An encoding is twelve bytes long, and decoding the encoding of a valid
/// header gives the header back. A header that is not valid does not come back.
pub proof fn lemma_header_round_trip(header: DnsHeader)
    ensures
        header.wire().len() == 12,
        header.valid() ==> DnsHeader::parse(header.wire()) == header,
        !header.valid() ==> DnsHeader::parse(header.wire()) != header,
{
    lemma_parse_valid(header.wire());
    if header.valid() {
        lemma_valid_header_round_trip(header);
    }
}

/// Decoding the encoding of a valid header gives the header back.
proof fn lemma_valid_header_round_trip(header: DnsHeader)
    requires
        header.valid(),
    ensures
        header.wire().len() == 12,
        DnsHeader::parse(header.wire()) == header,
{
    lemma_flag_bytes(
        header.response,
        header.opcode,
        header.authoritative_answer,
        header.truncated_message,
        header.recursion_desired,
        header.checking_disabled,
        header.authed_data,
        header.z,
        header.recursion_available,
        header.rescode,
    );
    lemma_be16_round_trip(header.id);
    lemma_be16_round_trip(header.questions);
    lemma_be16_round_trip(header.answers);
    lemma_be16_round_trip(header.authoritative_entries);
    lemma_be16_round_trip(header.resource_entries);
    let wire = header.wire();
    assert(wire.len() == 12);
    assert(wire[0] == be16_bytes(header.id)[0] && wire[1] == be16_bytes(header.id)[1]);
    assert(wire[2] == header.flags_hi() && wire[3] == header.flags_lo());
    assert(wire[4] == be16_bytes(header.questions)[0] && wire[5] == be16_bytes(
        header.questions,
    )[1]);
    assert(wire[6] == be16_bytes(header.answers)[0] && wire[7] == be16_bytes(header.answers)[1]);
    assert(wire[8] == be16_bytes(header.authoritative_entries)[0] && wire[9] == be16_bytes(
        header.authoritative_entries,
    )[1]);
    assert(wire[10] == be16_bytes(header.resource_entries)[0] && wire[11] == be16_bytes(
        header.resource_entries,
    )[1]);
}

} // verus!

//! Why a byte buffer was not accepted by a decoder.

use vstd::prelude::*;

verus! {

/// The reason a decoder gives for turning its input down.
#[derive(Debug, Clone, Copy, PartialEq, Eq)]
pub enum DecodeError {
    /// A header was not given exactly twelve bytes, or a message fewer than twelve.
    HeaderLength,
    /// The buffer ended before the zero byte that closes a name.
    UnterminatedName,
    /// A label of a name is not valid UTF-8.
    InvalidUtf8,
    /// The buffer ended inside the fields that follow a name.
    Truncated,
    /// The type code is outside 1 to 16.
    InvalidType,
    /// The class code is not 1, the Internet class.
    InvalidClass,
}

impl DecodeError {
    /// The message for each reason.
    pub open spec fn text(self) -> Seq<char> {
        match self {
            DecodeError::HeaderLength => "DnsHeader is not 12 bytes long"@,
            DecodeError::UnterminatedName => "Domain name is not null-terminated"@,
            DecodeError::InvalidUtf8 => "Invalid UTF-8 in domain name"@,
            DecodeError::Truncated => "Record is cut short"@,
            DecodeError::InvalidType => "Invalid qtype"@,
            DecodeError::InvalidClass => "Invalid qclass"@,
        }
    }

    /// A short message that says what was wrong with the input.
    pub fn message(&self) -> (text: &'static str)
        ensures
            text@ == self.text(),
    {
        match self {
            DecodeError::HeaderLength => "DnsHeader is not 12 bytes long",
            DecodeError::UnterminatedName => "Domain name is not null-terminated",
            DecodeError::InvalidUtf8 => "Invalid UTF-8 in domain name",
            DecodeError::Truncated => "Record is cut short",
            DecodeError::InvalidType => "Invalid qtype",
            DecodeError::InvalidClass => "Invalid qclass",
        }
    }
}

/// A decoder's result as a mathematical value.
pub open spec fn view_result<T: View>(result: Result<T, DecodeError>) -> Result<
    T::V,
    DecodeError,
> {
    match result {
        Ok(value) => Ok(value@),
        Err(e) => Err(e),
    }
}

} // verus!

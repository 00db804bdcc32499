//! A small DNS message codec and a one-hop forwarding resolver.
//!
//! The codec covers a strict subset of the DNS wire format: the twelve-byte
//! header, questions and answer records, with names written as plain
//! length-prefixed labels. Name compression, the authority and additional
//! sections and record types beyond an opaque payload are not covered.
//!
//! Every type has an encoder `to_bytes` that accepts any value, a decoder
//! `try_from_bytes` that says why it turns an input down, and a decoder
//! `from_bytes` for inputs known to be well-formed. What they compute is
//! stated over sequences of bytes by the `wire` and `parse` functions of each
//! module, and each module proves that decoding an encoding gives the value
//! back exactly when the value is valid.
//!
//! The resolver (`resolver`) neither sends nor receives: it says which query
//! is to go to the upstream server next, takes the reply, and in the end hands
//! out the reply for the client.
//!
//! * `wire`: big-endian integers
//! * `split`, `utf8`: dotted text and its encoding
//! * `name`: domain names
//! * `header`, `question`, `answer`, `message`: the parts of a message
//! * `resolver`: answering a request
//! * `error`: why a decoder turned its input down

pub mod answer;
pub mod error;
pub mod header;
pub mod message;
pub mod name;
pub mod question;
pub mod resolver;
pub mod split;
pub mod utf8;
pub mod wire;

pub use answer::DnsAnswer;
pub use error::DecodeError;
pub use header::DnsHeader;
pub use message::DnsMessage;
pub use question::DnsQuestion;

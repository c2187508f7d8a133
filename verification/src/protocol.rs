//! The protocol interface: what a decoder turns bytes into, what an encoder
//! turns a response into, and the errors both may raise.

use vstd::prelude::*;

use crate::commands::{Command, CommandResponse, CommandResponseV, CommandV};

verus! {

/// Why a frame could not be turned into a command.
#[derive(Debug, PartialEq, Eq)]
pub enum ProtocolError {
    /// Decoding went through, but the named operation is unknown.
    CommandNotRecognized(String),
    /// The frame is not an HTTP request; maybe it is another protocol.
    CurlProtocolDecodingError,
    /// The frame is not a RESP message; maybe it is another protocol.
    RespProtocolDecodingError,
}

/// Mathematical image of [`ProtocolError`].
#[verifier::ext_equal]
pub enum ProtocolErrorV {
    CommandNotRecognized(Seq<char>),
    CurlProtocolDecodingError,
    RespProtocolDecodingError,
}

impl View for ProtocolError {
    type V = ProtocolErrorV;

    open spec fn view(&self) -> ProtocolErrorV {
        match self {
            ProtocolError::CommandNotRecognized(s) => ProtocolErrorV::CommandNotRecognized(s@),
            ProtocolError::CurlProtocolDecodingError => ProtocolErrorV::CurlProtocolDecodingError,
            ProtocolError::RespProtocolDecodingError => ProtocolErrorV::RespProtocolDecodingError,
        }
    }
}

/// The message each error prints.
pub open spec fn message_of(e: ProtocolErrorV) -> Seq<char> {
    match e {
        ProtocolErrorV::CommandNotRecognized(name) => "command not recognized "@ + name,
        ProtocolErrorV::CurlProtocolDecodingError => "curl protocol decoding error"@,
        ProtocolErrorV::RespProtocolDecodingError => "resp protocol decoding error"@,
    }
}

impl ProtocolError {
    /// The error as the text shown to a client or a log.
    pub fn to_message(&self) -> (r: String)
        ensures
            r@ == message_of(self@),
    {
        match self {
            ProtocolError::CommandNotRecognized(name) => {
                let mut s = String::from_str("command not recognized ");
                s.append(name.as_str());
                s
            },
            ProtocolError::CurlProtocolDecodingError => {
                String::from_str("curl protocol decoding error")
            },
            ProtocolError::RespProtocolDecodingError => {
                String::from_str("resp protocol decoding error")
            },
        }
    }
}

/// The view of a decode result.
pub open spec fn decode_view(r: Result<Command, ProtocolError>) -> Result<
    CommandV,
    ProtocolErrorV,
> {
    match r {
        Ok(c) => Ok(c@),
        Err(e) => Err(e@),
    }
}

/// One wire protocol: a decoder from raw bytes to a command and an encoder
/// from a response to raw bytes. Each implementation pins its behaviour
/// down with the three specification functions.
pub trait Protocol {
    /// What `decode` returns on every byte string.
    spec fn decode_spec(raw: Seq<u8>) -> Result<CommandV, ProtocolErrorV>;

    /// Which responses this protocol can carry.
    spec fn encode_ok(response: CommandResponseV) -> bool;

    /// The bytes `encode` produces.
    spec fn encode_spec(response: CommandResponseV) -> Seq<u8>;

    fn decode(raw: &[u8]) -> (r: Result<Command, ProtocolError>)
        ensures
            decode_view(r) == Self::decode_spec(raw@),
    ;

    fn encode(response: CommandResponse) -> (r: Vec<u8>)
        requires
            Self::encode_ok(response.deep_view()),
        ensures
            r@ == Self::encode_spec(response.deep_view()),
    ;
}

} // verus!

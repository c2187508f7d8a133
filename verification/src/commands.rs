//! The command model: every operation a client can ask for, the responses
//! the server answers with, and the assembly of a command from the decoded
//! pieces of a frame.

use vstd::prelude::*;

use crate::protocol::{ProtocolError, ProtocolErrorV};
use crate::text;

verus! {

use vstd::string::StringExecFns;

/// One client operation. A TTL is a relative duration in whole seconds.
#[derive(Debug, PartialEq, Eq)]
pub enum Command {
    /// Get the value of a key; an absent key answers with a sentinel.
    Get { key: String },
    /// Bind a key to a value, optionally with a TTL.
    SetValue { key: String, value: String, ttl: Option<u64> },
    /// Remove a key; an absent key is ignored.
    Del { key: String },
    /// Does the key exist?
    Exists { key: String },
    /// Documentary information about commands.
    Docs,
    /// The server configuration.
    Config,
    /// Liveliness probe.
    Ping,
    /// Increment the number stored at a key by one, from zero if absent.
    Incr { key: String },
    /// Remove all keys.
    FlushDb,
}

/// Mathematical image of [`Command`].
#[verifier::ext_equal]
pub enum CommandV {
    Get { key: Seq<char> },
    SetKv { key: Seq<char>, value: Seq<char>, ttl: Option<u64> },
    Del { key: Seq<char> },
    Exists { key: Seq<char> },
    Docs,
    Config,
    Ping,
    Incr { key: Seq<char> },
    FlushDb,
}

impl View for Command {
    type V = CommandV;

    open spec fn view(&self) -> CommandV {
        match self {
            Command::Get { key } => CommandV::Get { key: key@ },
            Command::SetValue { key, value, ttl } => CommandV::SetKv {
                key: key@,
                value: value@,
                ttl: *ttl,
            },
            Command::Del { key } => CommandV::Del { key: key@ },
            Command::Exists { key } => CommandV::Exists { key: key@ },
            Command::Docs => CommandV::Docs,
            Command::Config => CommandV::Config,
            Command::Ping => CommandV::Ping,
            Command::Incr { key } => CommandV::Incr { key: key@ },
            Command::FlushDb => CommandV::FlushDb,
        }
    }
}

/// One server answer. `Error` carries the reply for a command that failed
/// (an increment of a non-numeric value); the RESP encoder writes it as an
/// error frame.
#[derive(Debug, PartialEq)]
pub enum CommandResponse {
    String { value: String },
    Integer { value: i64 },
    Array { value: Vec<CommandResponse> },
    Error { value: String },
}

/// Mathematical image of [`CommandResponse`].
#[verifier::ext_equal]
pub enum CommandResponseV {
    SimpleString { value: Seq<char> },
    Integer { value: i64 },
    Array { value: Seq<CommandResponseV> },
    ErrorMsg { value: Seq<char> },
}

/// The image of a response.
pub open spec fn response_view(r: CommandResponse) -> CommandResponseV
    decreases r,
{
    match r {
        CommandResponse::String { value } => CommandResponseV::SimpleString { value: value@ },
        CommandResponse::Integer { value } => CommandResponseV::Integer { value },
        CommandResponse::Array { value } => CommandResponseV::Array {
            value: Seq::new(
                value@.len(),
                |i: int|
                    if 0 <= i < value@.len() {
                        response_view(value@[i])
                    } else {
                        CommandResponseV::Integer { value: 0 }
                    },
            ),
        },
        CommandResponse::Error { value } => CommandResponseV::ErrorMsg { value: value@ },
    }
}

impl DeepView for CommandResponse {
    type V = CommandResponseV;

    open spec fn deep_view(&self) -> CommandResponseV {
        response_view(*self)
    }
}

/// How a `set` assembles its TTL from the trailing option tokens: a leading
/// `EX` followed by a number of seconds counts; anything else is ignored.
pub open spec fn make_set_spec(key: Seq<char>, v: Seq<char>, options: Seq<Seq<char>>) -> CommandV {
    CommandV::SetKv {
        key,
        value: text::trim_ws(v),
        ttl: if options.len() >= 2 && options[0] == "EX"@ && text::parse_u64(options[1]) is Some {
            Some(text::parse_u64(options[1])->0)
        } else {
            None
        },
    }
}

/// What [`Command::new`] returns: the key is stripped of leading and
/// trailing slashes, the operation name is lowercased for matching (both
/// `del` and the HTTP method `delete` remove a key), and an unknown name is
/// reported back. A `set` without a value is rejected as a malformed frame.
pub open spec fn command_new_spec(
    kind: Seq<char>,
    key: Seq<char>,
    value: Option<Seq<char>>,
    options: Seq<Seq<char>>,
) -> Result<CommandV, ProtocolErrorV> {
    let k = text::trim_slash(key);
    let lk = text::lower_str(kind);
    if lk == "command"@ && k == "DOCS"@ {
        Ok(CommandV::Docs)
    } else if lk == "get"@ {
        Ok(CommandV::Get { key: k })
    } else if lk == "set"@ {
        match value {
            Some(v) => Ok(make_set_spec(k, v, options)),
            None => Err(ProtocolErrorV::RespProtocolDecodingError),
        }
    } else if lk == "post"@ {
        match value {
            Some(v) => Ok(make_set_spec(k, v, options)),
            None => Ok(CommandV::Del { key: k }),
        }
    } else if lk == "del"@ || lk == "delete"@ {
        Ok(CommandV::Del { key: k })
    } else if lk == "exists"@ {
        Ok(CommandV::Exists { key: k })
    } else if lk == "config"@ {
        Ok(CommandV::Config)
    } else if lk == "ping"@ {
        Ok(CommandV::Ping)
    } else if lk == "incr"@ {
        Ok(CommandV::Incr { key: k })
    } else if lk == "flushdb"@ {
        Ok(CommandV::FlushDb)
    } else {
        Err(ProtocolErrorV::CommandNotRecognized(lk))
    }
}

/// Build the set command out of key, raw value and option tokens.
pub fn make_set(key: String, v: String, options: Vec<String>) -> (r: Command)
    ensures
        r@ == make_set_spec(key@, v@, options.deep_view()),
{
    let value = String::from_str(text::trim_ws_str(v.as_str()));
    let ttl: Option<u64> = if options.len() >= 2 {
        proof {
            assert(options.deep_view()[0] == options@[0]@);
            assert(options.deep_view()[1] == options@[1]@);
        }
        if text::str_eq(options[0].as_str(), "EX") {
            text::parse_u64_exec(options[1].as_str())
        } else {
            None
        }
    } else {
        None
    };
    Command::SetValue { key, value, ttl }
}

impl Command {
    /// Assemble a command from an operation name, a key, an optional value
    /// and trailing option tokens, as [`command_new_spec`] lays it out.
    pub fn new(kind: &str, key: &str, value: Option<String>, options: Vec<String>) -> (r: Result<
        Command,
        ProtocolError,
    >)
        ensures
            crate::protocol::decode_view(r) == command_new_spec(
                kind@,
                key@,
                match value {
                    Some(v) => Some(v@),
                    None => None,
                },
                options.deep_view(),
            ),
    {
        let key_owned = String::from_str(text::trim_slash_str(key));
        let lk = text::lower_exec(kind);
        if text::str_eq(lk.as_str(), "command") && text::str_eq(key_owned.as_str(), "DOCS") {
            Ok(Command::Docs)
        } else if text::str_eq(lk.as_str(), "get") {
            Ok(Command::Get { key: key_owned })
        } else if text::str_eq(lk.as_str(), "set") {
            match value {
                Some(v) => Ok(make_set(key_owned, v, options)),
                None => Err(ProtocolError::RespProtocolDecodingError),
            }
        } else if text::str_eq(lk.as_str(), "post") {
            match value {
                Some(v) => Ok(make_set(key_owned, v, options)),
                None => Ok(Command::Del { key: key_owned }),
            }
        } else if text::str_eq(lk.as_str(), "del") || text::str_eq(lk.as_str(), "delete") {
            Ok(Command::Del { key: key_owned })
        } else if text::str_eq(lk.as_str(), "exists") {
            Ok(Command::Exists { key: key_owned })
        } else if text::str_eq(lk.as_str(), "config") {
            Ok(Command::Config)
        } else if text::str_eq(lk.as_str(), "ping") {
            Ok(Command::Ping)
        } else if text::str_eq(lk.as_str(), "incr") {
            Ok(Command::Incr { key: key_owned })
        } else if text::str_eq(lk.as_str(), "flushdb") {
            Ok(Command::FlushDb)
        } else {
            Err(ProtocolError::CommandNotRecognized(lk))
        }
    }
}

} // verus!

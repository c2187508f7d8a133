//! The protocol router: probe one frame as HTTP and as RESP, and hand back
//! the command together with the kind of reply encoding it calls for.

use vstd::prelude::*;

use crate::commands::{Command, CommandV};
use crate::curl::Curl;
use crate::protocol::{message_of, Protocol, ProtocolError, ProtocolErrorV};
use crate::resp::Resp;

verus! {

/// Which encoder the reply to a request must use.
#[derive(Debug, PartialEq, Eq)]
pub enum RequestKind {
    /// An HTTP request, as curl sends it; the reply closes the connection.
    Http,
    /// A RESP request, as the command-line client for the store sends it.
    RedisCLI,
}

/// One decoded request: the command and the reply kind to answer it with.
#[derive(Debug)]
pub struct Request {
    pub kind: RequestKind,
    pub cmd: Command,
}

/// How a frame is routed: when the HTTP decoder says the frame is not HTTP,
/// the RESP decoder's verdict stands, and the reply is RESP; otherwise the
/// HTTP verdict stands (an unknown command name included) and the reply is
/// HTTP. An error is reported as its message text.
pub open spec fn route_spec(raw: Seq<u8>) -> Result<(RequestKind, CommandV), Seq<char>> {
    let hr = <Curl as Protocol>::decode_spec(raw);
    let rr = <Resp as Protocol>::decode_spec(raw);
    if hr == Err::<CommandV, ProtocolErrorV>(ProtocolErrorV::CurlProtocolDecodingError) {
        match rr {
            Ok(c) => Ok((RequestKind::RedisCLI, c)),
            Err(e) => Err(message_of(e)),
        }
    } else {
        match hr {
            Ok(c) => Ok((RequestKind::Http, c)),
            Err(e) => Err(message_of(e)),
        }
    }
}

/// Decode one frame as [`route_spec`] lays it out.
pub fn parse_request(raw_request: &[u8]) -> (r: Result<Request, String>)
    ensures
        (match r {
            Ok(req) => route_spec(raw_request@) matches Ok((k, c)) && req.kind == k && req.cmd@
                == c,
            Err(m) => route_spec(raw_request@) matches Err(ms) && m@ == ms,
        }),
{
    let http_cmd = Curl::decode(raw_request);
    let redis_cli_cmd = Resp::decode(raw_request);
    let curl_failed = matches!(http_cmd, Err(ProtocolError::CurlProtocolDecodingError));
    if curl_failed {
        match redis_cli_cmd {
            Ok(c) => Ok(Request { kind: RequestKind::RedisCLI, cmd: c }),
            Err(e) => Err(e.to_message()),
        }
    } else {
        match http_cmd {
            Ok(c) => Ok(Request { kind: RequestKind::Http, cmd: c }),
            Err(e) => Err(e.to_message()),
        }
    }
}

/// The reply kind a failed route answers with: RESP, unless the frame is
/// HTTP enough that the HTTP decoder got past its own checks (its verdict,
/// an unknown command name included, then stands).
pub open spec fn route_err_kind_spec(raw: Seq<u8>) -> RequestKind {
    if <Curl as Protocol>::decode_spec(raw) == Err::<CommandV, ProtocolErrorV>(
        ProtocolErrorV::CurlProtocolDecodingError,
    ) {
        RequestKind::RedisCLI
    } else {
        RequestKind::Http
    }
}

/// Which encoding an error reply to this frame must use, so that an HTTP
/// client is answered in the HTTP form and everyone else in RESP.
pub fn route_err_kind(raw_request: &[u8]) -> (r: RequestKind)
    ensures
        r == route_err_kind_spec(raw_request@),
{
    let http_cmd = Curl::decode(raw_request);
    if matches!(http_cmd, Err(ProtocolError::CurlProtocolDecodingError)) {
        RequestKind::RedisCLI
    } else {
        RequestKind::Http
    }
}

} // verus!

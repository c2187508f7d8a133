//! The RESP codec: decoding one frame (simple string, error, integer, bulk
//! string, array, null) into a command, and encoding a response back into
//! RESP bytes.
//!
//! The grammar is pinned down by [`parse_frame`]: a frame is a type byte
//! followed by CRLF-terminated lines; arrays nest. The decoder and the
//! encoder are verified against it.

use vstd::prelude::*;

use crate::commands::{command_new_spec, Command, CommandResponse, CommandV};
use crate::protocol::{decode_view, Protocol, ProtocolError, ProtocolErrorV};
use crate::text;

verus! {

use vstd::string::StringExecFns;
use vstd::string::StrSliceExecFns;

/// RESP is a serialization protocol supporting simple strings, errors,
/// integers, bulk strings and arrays.
pub struct Resp {}

/// One decoded RESP frame. `Null` is the null bulk string or null array
/// (length -1).
#[derive(Debug, PartialEq)]
pub enum RespType {
    SimpleString { value: String },
    Error { value: String },
    Integer { value: i64 },
    BulkString { value: String },
    Array { value: Vec<RespType> },
    Null,
}

/// Mathematical image of [`RespType`].
#[verifier::ext_equal]
pub enum RespTypeV {
    SimpleString { value: Seq<char> },
    Error { value: Seq<char> },
    Integer { value: i64 },
    BulkString { value: Seq<char> },
    Array { value: Seq<RespTypeV> },
    Null,
}

/// The image of a frame.
pub open spec fn rt_view(r: RespType) -> RespTypeV
    decreases r,
{
    match r {
        RespType::SimpleString { value } => RespTypeV::SimpleString { value: value@ },
        RespType::Error { value } => RespTypeV::Error { value: value@ },
        RespType::Integer { value } => RespTypeV::Integer { value },
        RespType::BulkString { value } => RespTypeV::BulkString { value: value@ },
        RespType::Array { value } => RespTypeV::Array {
            value: Seq::new(
                value@.len(),
                |i: int|
                    if 0 <= i < value@.len() {
                        rt_view(value@[i])
                    } else {
                        RespTypeV::Null
                    },
            ),
        },
        RespType::Null => RespTypeV::Null,
    }
}

impl DeepView for RespType {
    type V = RespTypeV;

    open spec fn deep_view(&self) -> RespTypeV {
        rt_view(*self)
    }
}

/// The characters of one protocol line: everything from `from` up to the
/// first carriage return (or the end).
pub open spec fn take_line(s: Seq<char>, from: int) -> Seq<char> {
    s.subrange(from, text::find_char(s, from, '\r'))
}

/// Where reading continues after that line: past the carriage return and
/// one more character (the line feed), clamped to the end.
pub open spec fn next_pos(s: Seq<char>, from: int) -> int {
    if text::find_char(s, from, '\r') + 2 <= s.len() {
        text::find_char(s, from, '\r') + 2
    } else {
        s.len() as int
    }
}

/// Parse one frame of `s` starting at `pos`: the frame's image and the
/// position after it, or `None` for a malformed or truncated frame.
pub open spec fn parse_frame(s: Seq<char>, pos: int) -> Option<(RespTypeV, int)>
    decreases s.len() - pos, 0int,
    via parse_frame_dec
{
    if !(0 <= pos < s.len()) {
        None
    } else {
        let c = s[pos];
        let line = take_line(s, pos + 1);
        let p1 = next_pos(s, pos + 1);
        if c == '+' {
            Some((RespTypeV::SimpleString { value: line }, p1))
        } else if c == '-' {
            Some((RespTypeV::Error { value: line }, p1))
        } else if c == ':' {
            match text::parse_i64(line) {
                Some(n) => Some((RespTypeV::Integer { value: n }, p1)),
                None => None,
            }
        } else if c == '$' {
            match text::parse_i64(line) {
                Some(n) => if n == -1 {
                    Some((RespTypeV::Null, p1))
                } else {
                    Some((RespTypeV::BulkString { value: take_line(s, p1) }, next_pos(s, p1)))
                },
                None => None,
            }
        } else if c == '*' {
            match text::parse_i64(line) {
                Some(n) => if n == -1 {
                    Some((RespTypeV::Null, p1))
                } else if n < 0 {
                    None
                } else {
                    match parse_items(s, p1, n as nat) {
                        Some((items, p2)) => Some((RespTypeV::Array { value: items }, p2)),
                        None => None,
                    }
                },
                None => None,
            }
        } else {
            None
        }
    }
}

/// Parse `count` frames in a row starting at `pos`.
pub open spec fn parse_items(s: Seq<char>, pos: int, count: nat) -> Option<(Seq<RespTypeV>, int)>
    decreases s.len() - pos, 1int,
{
    if count == 0 {
        Some((Seq::empty(), pos))
    } else {
        match parse_frame(s, pos) {
            None => None,
            Some((v, p2)) => if p2 <= pos || p2 > s.len() {
                // A parsed frame always moves forward and stays inside the
                // input; these cases cannot arise.
                None
            } else {
                match parse_items(s, p2, (count - 1) as nat) {
                    None => None,
                    Some((rest, p3)) => Some((seq![v] + rest, p3)),
                }
            },
        }
    }
}

#[via_fn]
proof fn parse_frame_dec(s: Seq<char>, pos: int) {
    if 0 <= pos < s.len() {
        text::lemma_find_char(s, pos + 1, '\r');
    }
}

/// Prepend the frames already read to the outcome of reading the rest (a
/// helper for the array loop's invariant).
pub open spec fn add_got(got: Seq<RespTypeV>, rest: Option<(Seq<RespTypeV>, int)>) -> Option<
    (Seq<RespTypeV>, int),
> {
    match rest {
        Some((vs, pf)) => Some((got + vs, pf)),
        None => None,
    }
}

/// The reader the decoder walks the input with: the characters and the
/// current position.
pub struct RespDecoder<'a> {
    chars: &'a str,
    pos: usize,
    n: usize,
}

impl<'a> RespDecoder<'a> {
    pub closed spec fn wf(self) -> bool {
        self.n == self.chars@.len() && self.pos <= self.n
    }

    fn new(chars: &'a str) -> (r: Self)
        ensures
            r.wf(),
            r.chars@ == chars@,
            r.pos == 0,
    {
        let n = chars.unicode_len();
        RespDecoder { chars, pos: 0, n }
    }

    /// Consume one line: the characters up to the next carriage return,
    /// which is skipped together with the character after it.
    fn take_next_string(&mut self) -> (r: String)
        requires
            old(self).wf(),
        ensures
            final(self).wf(),
            final(self).chars@ == old(self).chars@,
            final(self).n == old(self).n,
            r@ == take_line(old(self).chars@, old(self).pos as int),
            final(self).pos == next_pos(old(self).chars@, old(self).pos as int),
            old(self).pos <= final(self).pos,
    {
        proof {
            text::lemma_find_char(self.chars@, self.pos as int, '\r');
        }
        let e = text::find_char_exec(self.chars, self.pos, self.n, '\r');
        let line = self.chars.substring_char(self.pos, e);
        self.pos = if self.n - e >= 2 {
            e + 2
        } else {
            self.n
        };
        String::from_str(line)
    }

    /// Consume one line and read it as a signed number.
    fn decode_integer(&mut self) -> (r: Result<i64, &'static str>)
        requires
            old(self).wf(),
        ensures
            final(self).wf(),
            final(self).chars@ == old(self).chars@,
            final(self).n == old(self).n,
            final(self).pos == next_pos(old(self).chars@, old(self).pos as int),
            old(self).pos <= final(self).pos,
            (match r {
                Ok(n) => text::parse_i64(take_line(old(self).chars@, old(self).pos as int))
                    == Some(n),
                Err(_) => text::parse_i64(take_line(old(self).chars@, old(self).pos as int))
                    is None,
            }),
    {
        let s = self.take_next_string();
        match text::parse_i64_exec(s.as_str()) {
            Some(n) => Ok(n),
            None => Err("Error while parsing integer"),
        }
    }

    /// Read the next frame, as [`parse_frame`] lays it out.
    fn next_chunk(&mut self) -> (r: Result<RespType, &'static str>)
        requires
            old(self).wf(),
        ensures
            final(self).wf(),
            final(self).chars@ == old(self).chars@,
            final(self).n == old(self).n,
            (match r {
                Ok(rt) => parse_frame(old(self).chars@, old(self).pos as int) == Some(
                    (rt.deep_view(), final(self).pos as int),
                ) && old(self).pos < final(self).pos,
                Err(_) => parse_frame(old(self).chars@, old(self).pos as int) is None,
            }),
        decreases self.n - self.pos,
    {
        let ghost s = self.chars@;
        let ghost pos0 = self.pos as int;
        if self.pos >= self.n {
            return Err("Error while parsing RESP");
        }
        let c = self.chars.get_char(self.pos);
        self.pos = self.pos + 1;
        proof {
            text::lemma_find_char(s, pos0 + 1, '\r');
        }
        if c == '+' {
            let v = self.take_next_string();
            Ok(RespType::SimpleString { value: v })
        } else if c == '-' {
            let v = self.take_next_string();
            Ok(RespType::Error { value: v })
        } else if c == ':' {
            match self.decode_integer() {
                Ok(n) => Ok(RespType::Integer { value: n }),
                Err(e) => Err(e),
            }
        } else if c == '$' {
            match self.decode_integer() {
                Err(e) => Err(e),
                Ok(len) => {
                    if len == -1 {
                        Ok(RespType::Null)
                    } else {
                        let v = self.take_next_string();
                        Ok(RespType::BulkString { value: v })
                    }
                },
            }
        } else if c == '*' {
            match self.decode_integer() {
                Err(e) => Err(e),
                Ok(len) => {
                    if len == -1 {
                        Ok(RespType::Null)
                    } else if len < 0 {
                        Err("Error while parsing array")
                    } else {
                        let ghost p1 = self.pos as int;
                        let mut items: Vec<RespType> = Vec::new();
                        let mut k: i64 = 0;
                        proof {
                            assert(items.deep_view() =~= Seq::<RespTypeV>::empty());
                            assert(parse_items(s, p1, len as nat) == add_got(
                                items.deep_view(),
                                parse_items(s, self.pos as int, (len - k) as nat),
                            )) by {
                                match parse_items(s, p1, len as nat) {
                                    Some((vs, pf)) => {
                                        assert(items.deep_view() + vs =~= vs);
                                    },
                                    None => {},
                                }
                            }
                        }
                        while k < len
                            invariant
                                self.wf(),
                                self.chars@ == s,
                                self.n == s.len(),
                                s == old(self).chars@,
                                pos0 == old(self).pos as int,
                                self.n == old(self).n,
                                0 <= k <= len,
                                0 <= pos0 < s.len(),
                                s[pos0] == '*',
                                text::parse_i64(take_line(s, pos0 + 1)) == Some(len),
                                p1 == next_pos(s, pos0 + 1),
                                pos0 + 1 <= p1 <= self.pos,
                                self.pos <= s.len(),
                                parse_items(s, p1, len as nat) == add_got(
                                    items.deep_view(),
                                    parse_items(s, self.pos as int, (len - k) as nat),
                                ),
                            decreases len - k,
                        {
                            let ghost cur = self.pos as int;
                            let ghost prev_items = items.deep_view();
                            match self.next_chunk() {
                                Err(e) => {
                                    proof {
                                        assert(parse_items(s, cur, (len - k) as nat) is None);
                                        assert(parse_items(s, p1, len as nat) is None);
                                        assert(parse_frame(s, pos0) is None);
                                    }
                                    return Err(e);
                                },
                                Ok(rt) => {
                                    let ghost rv = rt.deep_view();
                                    let ghost newpos = self.pos as int;
                                    items.push(rt);
                                    proof {
                                        assert forall|j: int|
                                            0 <= j < prev_items.len() implies items.deep_view()[j]
                                            == prev_items[j] by {
                                            assert(items@[j] == items@.subrange(
                                                0,
                                                prev_items.len() as int,
                                            )[j]);
                                        }
                                        assert(items.deep_view() =~= prev_items.push(rv));
                                        assert(parse_items(s, p1, len as nat) == add_got(
                                            items.deep_view(),
                                            parse_items(s, newpos, (len - k - 1) as nat),
                                        )) by {
                                            match parse_items(s, newpos, (len - k - 1) as nat) {
                                                Some((rest, pf)) => {
                                                    assert(prev_items + (seq![rv] + rest)
                                                        =~= items.deep_view() + rest);
                                                },
                                                None => {},
                                            }
                                        }
                                    }
                                    k = k + 1;
                                },
                            }
                        }
                        let ghost idv = items.deep_view();
                        proof {
                            assert(parse_items(s, self.pos as int, 0nat) == Some(
                                (Seq::<RespTypeV>::empty(), self.pos as int),
                            ));
                            assert(idv + Seq::<RespTypeV>::empty() =~= idv);
                            assert(parse_items(s, p1, len as nat) == Some((idv, self.pos as int)));
                            assert(parse_frame(s, pos0) == Some(
                                (RespTypeV::Array { value: idv }, self.pos as int),
                            ));
                        }
                        let r = RespType::Array { value: items };
                        proof {
                            let dv = rt_view(r);
                            assert(dv is Array);
                            assert(dv->Array_value =~= idv);
                            assert(dv == RespTypeV::Array { value: idv });
                        }
                        Ok(r)
                    }
                },
            }
        } else {
            Err("Invalid first character in RESP")
        }
    }
}

impl RespType {
    /// Parse the first frame of the text.
    pub fn try_from(value: String) -> (r: Result<RespType, &'static str>)
        ensures
            (match r {
                Ok(rt) => parse_frame(value@, 0) matches Some((f, _)) && f == rt.deep_view(),
                Err(_) => parse_frame(value@, 0) is None,
            }),
    {
        let mut rd = RespDecoder::new(value.as_str());
        rd.next_chunk()
    }
}

/// The text a frame carries when a string is expected there.
pub open spec fn str_of(f: RespTypeV) -> Option<Seq<char>> {
    match f {
        RespTypeV::SimpleString { value } => Some(value),
        RespTypeV::BulkString { value } => Some(value),
        _ => None,
    }
}

/// The texts of a run of frames that must all be bulk strings (the option
/// tokens of a command).
pub open spec fn bulk_values(items: Seq<RespTypeV>) -> Option<Seq<Seq<char>>>
    decreases items.len(),
{
    if items.len() == 0 {
        Some(Seq::empty())
    } else {
        match items[0] {
            RespTypeV::BulkString { value } => match bulk_values(items.drop_first()) {
                Some(rest) => Some(seq![value] + rest),
                None => None,
            },
            _ => None,
        }
    }
}

/// Assemble a command from a parsed frame. Only an array frame carries a
/// command: its first element names the operation, the second the key, the
/// third the value, and the rest are option tokens (bulk strings only).
/// Anything else is a malformed request.
pub open spec fn command_from_frame(f: RespTypeV) -> Result<CommandV, ProtocolErrorV> {
    match f {
        RespTypeV::Array { value: items } => {
            if items.len() == 0 {
                Err(ProtocolErrorV::RespProtocolDecodingError)
            } else {
                match str_of(items[0]) {
                    None => Err(ProtocolErrorV::RespProtocolDecodingError),
                    Some(op) => {
                        if items.len() == 1 {
                            command_new_spec(op, Seq::empty(), None, Seq::empty())
                        } else {
                            match str_of(items[1]) {
                                None => Err(ProtocolErrorV::RespProtocolDecodingError),
                                Some(key) => {
                                    if items.len() == 2 {
                                        command_new_spec(op, key, None, Seq::empty())
                                    } else {
                                        match str_of(items[2]) {
                                            None => Err(
                                                ProtocolErrorV::RespProtocolDecodingError,
                                            ),
                                            Some(v) => match bulk_values(
                                                items.subrange(3, items.len() as int),
                                            ) {
                                                None => Err(
                                                    ProtocolErrorV::RespProtocolDecodingError,
                                                ),
                                                Some(opts) => command_new_spec(
                                                    op,
                                                    key,
                                                    Some(v),
                                                    opts,
                                                ),
                                            },
                                        }
                                    }
                                },
                            }
                        }
                    },
                }
            }
        },
        _ => Err(ProtocolErrorV::RespProtocolDecodingError),
    }
}

/// What RESP decoding returns on a character string: the inline `PING`
/// heartbeat short-circuits; otherwise the first frame is parsed and turned
/// into a command.
pub open spec fn resp_decode_chars(s: Seq<char>) -> Result<CommandV, ProtocolErrorV> {
    if text::contains_seq(s, "PING"@) {
        Ok(CommandV::Ping)
    } else {
        match parse_frame(s, 0) {
            None => Err(ProtocolErrorV::RespProtocolDecodingError),
            Some((f, _)) => command_from_frame(f),
        }
    }
}

/// The carried text of a frame, cloned out.
fn str_of_exec(f: &RespType) -> (r: Option<String>)
    ensures
        (match r {
            Some(s) => str_of(f.deep_view()) == Some(s@),
            None => str_of(f.deep_view()) is None,
        }),
{
    match f {
        RespType::SimpleString { value } => Some(value.clone()),
        RespType::BulkString { value } => Some(value.clone()),
        _ => None,
    }
}

/// Assemble the command a parsed frame stands for.
fn command_from_rt(rt: &RespType) -> (r: Result<Command, ProtocolError>)
    ensures
        decode_view(r) == command_from_frame(rt.deep_view()),
{
    let ghost fv = rt.deep_view();
    match rt {
        RespType::Array { value: items } => {
            let ghost iv = fv->Array_value;
            proof {
                assert(iv.len() == items@.len());
                assert(forall|j: int|
                    0 <= j < items@.len() ==> iv[j] == rt_view(#[trigger] items@[j]));
            }
            if items.len() == 0 {
                return Err(ProtocolError::RespProtocolDecodingError);
            }
            let op = match str_of_exec(&items[0]) {
                Some(s) => s,
                None => {
                    return Err(ProtocolError::RespProtocolDecodingError);
                },
            };
            if items.len() == 1 {
                let no_opts: Vec<String> = Vec::new();
                proof {
                    reveal_strlit("");
                    assert(""@ =~= Seq::<char>::empty());
                    assert(no_opts.deep_view() =~= Seq::<Seq<char>>::empty());
                }
                return Command::new(op.as_str(), "", None, no_opts);
            }
            let key = match str_of_exec(&items[1]) {
                Some(s) => s,
                None => {
                    return Err(ProtocolError::RespProtocolDecodingError);
                },
            };
            if items.len() == 2 {
                let no_opts: Vec<String> = Vec::new();
                proof {
                    assert(no_opts.deep_view() =~= Seq::<Seq<char>>::empty());
                }
                return Command::new(op.as_str(), key.as_str(), None, no_opts);
            }
            let v = match str_of_exec(&items[2]) {
                Some(s) => s,
                None => {
                    return Err(ProtocolError::RespProtocolDecodingError);
                },
            };
            let n = items.len();
            let mut options: Vec<String> = Vec::new();
            let mut i: usize = 3;
            proof {
                assert(options.deep_view() =~= Seq::<Seq<char>>::empty());
                assert(bulk_values(iv.subrange(3, n as int)) == (match bulk_values(
                    iv.subrange(i as int, n as int),
                ) {
                    Some(rest) => Some(options.deep_view() + rest),
                    None => None::<Seq<Seq<char>>>,
                })) by {
                    match bulk_values(iv.subrange(3, n as int)) {
                        Some(vs) => {
                            assert(options.deep_view() + vs =~= vs);
                        },
                        None => {},
                    }
                }
            }
            while i < n
                invariant
                    n == items@.len(),
                    n == iv.len(),
                    3 <= i <= n,
                    fv == (RespTypeV::Array { value: iv }),
                    fv == rt.deep_view(),
                    str_of(iv[0]) == Some(op@),
                    str_of(iv[1]) == Some(key@),
                    str_of(iv[2]) == Some(v@),
                    forall|j: int| 0 <= j < items@.len() ==> iv[j] == rt_view(#[trigger] items@[j]),
                    bulk_values(iv.subrange(3, n as int)) == (match bulk_values(
                        iv.subrange(i as int, n as int),
                    ) {
                        Some(rest) => Some(options.deep_view() + rest),
                        None => None::<Seq<Seq<char>>>,
                    }),
                decreases n - i,
            {
                let ghost prev = options.deep_view();
                let ghost win = iv.subrange(i as int, n as int);
                match &items[i] {
                    RespType::BulkString { value } => {
                        options.push(value.clone());
                        proof {
                            assert(win[0] == rt_view(items@[i as int]));
                            assert(win.drop_first() =~= iv.subrange(i + 1, n as int));
                            assert forall|j: int|
                                0 <= j < prev.len() implies options.deep_view()[j] == prev[j] by {
                                assert(options@[j] == options@.subrange(0, prev.len() as int)[j]);
                            }
                            assert(options.deep_view() =~= prev.push(value@));
                            assert(bulk_values(iv.subrange(3, n as int)) == (match bulk_values(
                                iv.subrange(i + 1, n as int),
                            ) {
                                Some(rest) => Some(options.deep_view() + rest),
                                None => None::<Seq<Seq<char>>>,
                            })) by {
                                match bulk_values(iv.subrange(i + 1, n as int)) {
                                    Some(rest) => {
                                        assert(prev + (seq![value@] + rest) =~= options.deep_view()
                                            + rest);
                                    },
                                    None => {},
                                }
                            }
                        }
                        i += 1;
                    },
                    _ => {
                        proof {
                            assert(win[0] == rt_view(items@[i as int]));
                            assert(bulk_values(win) is None);
                        }
                        return Err(ProtocolError::RespProtocolDecodingError);
                    },
                }
            }
            proof {
                assert(iv.subrange(i as int, n as int).len() == 0);
                assert(bulk_values(iv.subrange(i as int, n as int)) == Some(
                    Seq::<Seq<char>>::empty(),
                ));
                match bulk_values(iv.subrange(3, n as int)) {
                    Some(vs) => {
                        assert(options.deep_view() + Seq::<Seq<char>>::empty()
                            =~= options.deep_view());
                    },
                    None => {},
                }
            }
            Command::new(op.as_str(), key.as_str(), Some(v), options)
        },
        _ => Err(ProtocolError::RespProtocolDecodingError),
    }
}

impl Protocol for Resp {
    open spec fn decode_spec(raw: Seq<u8>) -> Result<CommandV, ProtocolErrorV> {
        if vstd::utf8::valid_utf8(raw) {
            resp_decode_chars(vstd::utf8::decode_utf8(raw))
        } else {
            Err(ProtocolErrorV::RespProtocolDecodingError)
        }
    }

    open spec fn encode_ok(response: crate::commands::CommandResponseV) -> bool {
        true
    }

    open spec fn encode_spec(response: crate::commands::CommandResponseV) -> Seq<u8> {
        vstd::utf8::encode_utf8(resp_encode_chars(response))
    }

    fn decode(raw: &[u8]) -> (r: Result<Command, ProtocolError>) {
        let s = match text::utf8_to_str(raw) {
            Some(s) => s,
            None => {
                return Err(ProtocolError::RespProtocolDecodingError);
            },
        };
        if text::contains_exec(s, "PING") {
            return Ok(Command::Ping);
        }
        let mut rd = RespDecoder::new(s);
        match rd.next_chunk() {
            Err(_) => Err(ProtocolError::RespProtocolDecodingError),
            Ok(rt) => command_from_rt(&rt),
        }
    }

    fn encode(response: crate::commands::CommandResponse) -> (r: Vec<u8>) {
        let mut out = String::new();
        encode_onto(&response, &mut out);
        out.as_str().as_bytes_vec()
    }
}

/// The RESP notation of an integer: a minus sign for a negative value, then
/// the decimal digits.
pub open spec fn int_chars(n: int) -> Seq<char> {
    if n < 0 {
        seq!['-'] + text::dec_str(-n)
    } else {
        text::dec_str(n)
    }
}

/// The RESP text of a response: `+text`, `-text` or `:number` followed by
/// CRLF, or `*length`, CRLF and the encoded elements in order.
pub open spec fn resp_encode_chars(r: crate::commands::CommandResponseV) -> Seq<char>
    decreases r, 0int,
{
    match r {
        crate::commands::CommandResponseV::SimpleString { value } => seq!['+'] + value + seq![
            '\r',
            '\n',
        ],
        crate::commands::CommandResponseV::ErrorMsg { value } => seq!['-'] + value + seq![
            '\r',
            '\n',
        ],
        crate::commands::CommandResponseV::Integer { value } => seq![':'] + int_chars(
            value as int,
        ) + seq!['\r', '\n'],
        crate::commands::CommandResponseV::Array { value } => seq!['*'] + text::dec_str(
            value.len() as int,
        ) + seq!['\r', '\n'] + encode_items_chars(value),
    }
}

/// The concatenated RESP texts of a run of responses.
pub open spec fn encode_items_chars(items: Seq<crate::commands::CommandResponseV>) -> Seq<char>
    decreases items, 1int,
{
    if items.len() == 0 {
        Seq::empty()
    } else {
        resp_encode_chars(items[0]) + encode_items_chars(items.drop_first())
    }
}

/// One more encoded element extends the run's text at the end.
proof fn lemma_encode_items_snoc(
    items: Seq<crate::commands::CommandResponseV>,
    x: crate::commands::CommandResponseV,
)
    ensures
        encode_items_chars(items.push(x)) == encode_items_chars(items) + resp_encode_chars(x),
    decreases items.len(),
{
    assert(items.push(x)[0] == if items.len() == 0 {
        x
    } else {
        items[0]
    });
    if items.len() == 0 {
        assert(items.push(x).drop_first() =~= items);
        assert(encode_items_chars(items) == Seq::<char>::empty());
        assert(encode_items_chars(items.push(x)) == resp_encode_chars(items.push(x)[0])
            + encode_items_chars(items.push(x).drop_first()));
        assert(resp_encode_chars(x) + Seq::<char>::empty() =~= Seq::<char>::empty()
            + resp_encode_chars(x));
    } else {
        assert(items.push(x).drop_first() =~= items.drop_first().push(x));
        lemma_encode_items_snoc(items.drop_first(), x);
        assert(resp_encode_chars(items[0]) + (encode_items_chars(items.drop_first())
            + resp_encode_chars(x)) =~= (resp_encode_chars(items[0]) + encode_items_chars(
            items.drop_first(),
        )) + resp_encode_chars(x));
    }
}

/// Append the RESP text of `r` to `out`.
fn encode_onto(r: &CommandResponse, out: &mut String)
    ensures
        final(out)@ == old(out)@ + resp_encode_chars(r.deep_view()),
    decreases *r,
{
    match r {
        CommandResponse::String { value } => {
            text::push_char(out, '+');
            out.append(value.as_str());
            text::push_char(out, '\r');
            text::push_char(out, '\n');
            proof {
                assert(out@ =~= old(out)@ + resp_encode_chars(r.deep_view()));
            }
        },
        CommandResponse::Error { value } => {
            text::push_char(out, '-');
            out.append(value.as_str());
            text::push_char(out, '\r');
            text::push_char(out, '\n');
            proof {
                assert(out@ =~= old(out)@ + resp_encode_chars(r.deep_view()));
            }
        },
        CommandResponse::Integer { value } => {
            text::push_char(out, ':');
            if *value < 0 {
                text::push_char(out, '-');
                let mag: u64 = if *value == i64::MIN {
                    9223372036854775808u64
                } else {
                    (-*value) as u64
                };
                let digits = text::u64_to_string(mag);
                out.append(digits.as_str());
            } else {
                let digits = text::u64_to_string(*value as u64);
                out.append(digits.as_str());
            }
            text::push_char(out, '\r');
            text::push_char(out, '\n');
            proof {
                assert(out@ =~= old(out)@ + resp_encode_chars(r.deep_view()));
            }
        },
        CommandResponse::Array { value } => {
            let ghost rv = r.deep_view();
            let ghost iv = rv->Array_value;
            proof {
                assert(iv.len() == value@.len());
                assert(forall|j: int|
                    0 <= j < value@.len() ==> iv[j] == crate::commands::response_view(
                        #[trigger] value@[j],
                    ));
            }
            text::push_char(out, '*');
            let digits = text::u64_to_string(value.len() as u64);
            out.append(digits.as_str());
            text::push_char(out, '\r');
            text::push_char(out, '\n');
            let ghost header_done = out@;
            proof {
                assert(iv.subrange(0, 0) =~= Seq::<crate::commands::CommandResponseV>::empty());
                assert(header_done + encode_items_chars(iv.subrange(0, 0)) =~= header_done);
            }
            let n = value.len();
            let mut i: usize = 0;
            while i < n
                invariant
                    n == value@.len(),
                    n == iv.len(),
                    i <= n,
                    *r == (CommandResponse::Array { value: *value }),
                    rv == r.deep_view(),
                    forall|j: int|
                        0 <= j < value@.len() ==> iv[j] == crate::commands::response_view(
                            #[trigger] value@[j],
                        ),
                    out@ == header_done + encode_items_chars(iv.subrange(0, i as int)),
                decreases n - i,
            {
                proof {
                    vstd::std_specs::vec::axiom_vec_index_decreases(*value, i as int);
                    assert(*r == (CommandResponse::Array { value: *value }));
                    assert(decreases_to!(*r => *value));
                    assert(decreases_to!(*r => value@[i as int]));
                }
                encode_onto(&value[i], out);
                proof {
                    assert(iv.subrange(0, i as int).push(iv[i as int]) =~= iv.subrange(0, i + 1));
                    lemma_encode_items_snoc(iv.subrange(0, i as int), iv[i as int]);
                    assert((header_done + encode_items_chars(iv.subrange(0, i as int)))
                        + resp_encode_chars(iv[i as int]) =~= header_done + (encode_items_chars(
                        iv.subrange(0, i as int),
                    ) + resp_encode_chars(iv[i as int])));
                }
                i += 1;
            }
            proof {
                assert(iv.subrange(0, n as int) =~= iv);
                assert(header_done =~= old(out)@ + (seq!['*'] + text::dec_str(iv.len() as int)
                    + seq!['\r', '\n']));
                assert(out@ =~= old(out)@ + resp_encode_chars(rv));
            }
        },
    }
}

/// Text that can ride inside one frame line: no carriage return and no
/// line feed.
pub open spec fn wire_text(s: Seq<char>) -> bool {
    forall|i: int| 0 <= i < s.len() ==> (#[trigger] s[i]) != '\r' && s[i] != '\n'
}

/// A response whose encoding admits decoding: every carried text is free of
/// line breaks, and an array is small enough for its length line.
pub open spec fn wire_safe(r: crate::commands::CommandResponseV) -> bool
    decreases r, 0int,
{
    match r {
        crate::commands::CommandResponseV::SimpleString { value } => wire_text(value),
        crate::commands::CommandResponseV::ErrorMsg { value } => wire_text(value),
        crate::commands::CommandResponseV::Integer { value } => true,
        crate::commands::CommandResponseV::Array { value } => value.len() <= i64::MAX
            && wire_safe_items(value),
    }
}

pub open spec fn wire_safe_items(items: Seq<crate::commands::CommandResponseV>) -> bool
    decreases items, 1int,
{
    items.len() == 0 || (wire_safe(items[0]) && wire_safe_items(items.drop_first()))
}

/// The frame that decoding an encoded response yields.
pub open spec fn frame_of_response(r: crate::commands::CommandResponseV) -> RespTypeV
    decreases r, 0int,
{
    match r {
        crate::commands::CommandResponseV::SimpleString { value } => RespTypeV::SimpleString {
            value,
        },
        crate::commands::CommandResponseV::ErrorMsg { value } => RespTypeV::Error { value },
        crate::commands::CommandResponseV::Integer { value } => RespTypeV::Integer { value },
        crate::commands::CommandResponseV::Array { value } => RespTypeV::Array {
            value: frames_of_responses(value),
        },
    }
}

pub open spec fn frames_of_responses(items: Seq<crate::commands::CommandResponseV>) -> Seq<
    RespTypeV,
>
    decreases items, 1int,
{
    if items.len() == 0 {
        Seq::empty()
    } else {
        seq![frame_of_response(items[0])] + frames_of_responses(items.drop_first())
    }
}

/// Every encoding is at least one character long.
proof fn lemma_encode_nonempty(r: crate::commands::CommandResponseV)
    ensures
        resp_encode_chars(r).len() >= 1,
{
    match r {
        crate::commands::CommandResponseV::SimpleString { value } => {
            assert(resp_encode_chars(r) == seq!['+'] + value + seq!['\r', '\n']);
        },
        crate::commands::CommandResponseV::ErrorMsg { value } => {
            assert(resp_encode_chars(r) == seq!['-'] + value + seq!['\r', '\n']);
        },
        crate::commands::CommandResponseV::Integer { value } => {
            assert(resp_encode_chars(r) == seq![':'] + int_chars(value as int) + seq![
                '\r',
                '\n',
            ]);
        },
        crate::commands::CommandResponseV::Array { value } => {
            assert(resp_encode_chars(r) == seq!['*'] + text::dec_str(value.len() as int) + seq![
                '\r',
                '\n',
            ] + encode_items_chars(value));
        },
    }
}

/// When `value` sits at `pos` followed by CRLF, the line read at `pos` is
/// exactly `value` and reading continues after the CRLF.
proof fn lemma_line_at(s: Seq<char>, pos: int, value: Seq<char>)
    requires
        wire_text(value),
        0 <= pos,
        pos + value.len() + 2 <= s.len(),
        s.subrange(pos, pos + value.len() as int) == value,
        s[pos + value.len()] == '\r',
    ensures
        text::find_char(s, pos, '\r') == pos + value.len(),
        take_line(s, pos) == value,
        next_pos(s, pos) == pos + value.len() + 2,
{
    text::lemma_find_char(s, pos, '\r');
    let fc = text::find_char(s, pos, '\r');
    assert forall|q: int| 0 <= q < value.len() implies s[pos + q] == value[q] by {
        assert(s.subrange(pos, pos + value.len() as int)[q] == s[pos + q]);
    }
    if fc < pos + value.len() {
        assert(s[fc] == '\r');
        assert(s[fc] == value[fc - pos]);
    }
    if fc > pos + value.len() {
        assert(s[pos + value.len()] != '\r');
    }
    assert(take_line(s, pos) =~= value);
}

/// The integer notation carries only digits and maybe a leading minus, and
/// the number parser reads the value back.
proof fn lemma_int_chars(n: i64)
    ensures
        wire_text(int_chars(n as int)),
        int_chars(n as int).len() >= 1,
        text::parse_i64(int_chars(n as int)) == Some(n),
{
    if n < 0 {
        text::lemma_dec_str_val(-(n as int));
        let mag = text::dec_str(-(n as int));
        let d = int_chars(n as int);
        assert(d == seq!['-'] + mag);
        assert(d[0] == '-');
        assert forall|i: int| 0 <= i < d.len() implies (#[trigger] d[i]) != '\r' && d[i]
            != '\n' by {
            if i >= 1 {
                assert(d[i] == mag[i - 1]);
                assert('0' <= mag[i - 1] <= '9');
            }
        }
        assert(d.drop_first() =~= mag);
        assert('0' <= mag[0] <= '9');
        assert(text::parse_i64(d) == Some(n));
    } else {
        text::lemma_dec_str_val(n as int);
        let d = int_chars(n as int);
        assert(d == text::dec_str(n as int));
        assert forall|i: int| 0 <= i < d.len() implies (#[trigger] d[i]) != '\r' && d[i]
            != '\n' by {
            assert('0' <= d[i] <= '9');
        }
        assert('0' <= d[0] <= '9');
        assert(d[0] != '-' && d[0] != '+');
        assert(text::parse_i64(d) == Some(n));
    }
}

/// One character of a run that sits inside `s` at `pos`.
proof fn lemma_char_at(s: Seq<char>, pos: int, enc: Seq<char>, q: int)
    requires
        0 <= pos,
        0 <= q < enc.len(),
        pos + enc.len() <= s.len(),
        s.subrange(pos, pos + enc.len() as int) == enc,
    ensures
        s[pos + q] == enc[q],
{
    assert(s.subrange(pos, pos + enc.len() as int)[q] == s[pos + q]);
}

/// One window of a run that sits inside `s` at `pos`.
proof fn lemma_sub_at(s: Seq<char>, pos: int, enc: Seq<char>, a: int, b: int)
    requires
        0 <= pos,
        0 <= a <= b <= enc.len(),
        pos + enc.len() <= s.len(),
        s.subrange(pos, pos + enc.len() as int) == enc,
    ensures
        s.subrange(pos + a, pos + b) == enc.subrange(a, b),
{
    assert forall|q: int|
        0 <= q < b - a implies s.subrange(pos + a, pos + b)[q] == enc.subrange(a, b)[q] by {
        assert(s.subrange(pos + a, pos + b)[q] == s[pos + a + q]);
        assert(s.subrange(pos, pos + enc.len() as int)[a + q] == s[pos + (a + q)]);
        assert(enc.subrange(a, b)[q] == enc[a + q]);
    }
    assert(s.subrange(pos + a, pos + b) =~= enc.subrange(a, b));
}

/// An encoded wire-safe response parses back, at any position where its
/// encoding sits, to its frame, consuming exactly the encoding.
pub proof fn lemma_roundtrip_at(s: Seq<char>, pos: int, r: crate::commands::CommandResponseV)
    requires
        wire_safe(r),
        0 <= pos,
        pos + resp_encode_chars(r).len() <= s.len(),
        s.subrange(pos, pos + resp_encode_chars(r).len() as int) == resp_encode_chars(r),
    ensures
        parse_frame(s, pos) == Some(
            (frame_of_response(r), pos + resp_encode_chars(r).len()),
        ),
    decreases r, 0int,
{
    let enc = resp_encode_chars(r);
    lemma_encode_nonempty(r);
    match r {
        crate::commands::CommandResponseV::SimpleString { value } => {
            assert(enc == seq!['+'] + value + seq!['\r', '\n']);
            lemma_char_at(s, pos, enc, 0);
            assert(s[pos] == '+');
            lemma_sub_at(s, pos, enc, 1, 1 + value.len() as int);
            assert(enc.subrange(1, 1 + value.len() as int) =~= value);
            lemma_char_at(s, pos, enc, 1 + value.len() as int);
            assert(s[pos + 1 + value.len()] == '\r');
            lemma_line_at(s, pos + 1, value);
        },
        crate::commands::CommandResponseV::ErrorMsg { value } => {
            assert(enc == seq!['-'] + value + seq!['\r', '\n']);
            lemma_char_at(s, pos, enc, 0);
            assert(s[pos] == '-');
            lemma_sub_at(s, pos, enc, 1, 1 + value.len() as int);
            assert(enc.subrange(1, 1 + value.len() as int) =~= value);
            lemma_char_at(s, pos, enc, 1 + value.len() as int);
            assert(s[pos + 1 + value.len()] == '\r');
            lemma_line_at(s, pos + 1, value);
        },
        crate::commands::CommandResponseV::Integer { value } => {
            let d = int_chars(value as int);
            lemma_int_chars(value);
            assert(enc == seq![':'] + d + seq!['\r', '\n']);
            lemma_char_at(s, pos, enc, 0);
            assert(s[pos] == ':');
            lemma_sub_at(s, pos, enc, 1, 1 + d.len() as int);
            assert(enc.subrange(1, 1 + d.len() as int) =~= d);
            lemma_char_at(s, pos, enc, 1 + d.len() as int);
            assert(s[pos + 1 + d.len()] == '\r');
            lemma_line_at(s, pos + 1, d);
        },
        crate::commands::CommandResponseV::Array { value } => {
            let lenstr = text::dec_str(value.len() as int);
            text::lemma_dec_str_val(value.len() as int);
            let erest = encode_items_chars(value);
            assert(enc == seq!['*'] + lenstr + seq!['\r', '\n'] + erest);
            lemma_char_at(s, pos, enc, 0);
            assert(s[pos] == '*');
            assert(wire_text(lenstr)) by {
                assert forall|i: int| 0 <= i < lenstr.len() implies (#[trigger] lenstr[i])
                    != '\r' && lenstr[i] != '\n' by {
                    assert('0' <= lenstr[i] <= '9');
                }
            }
            lemma_sub_at(s, pos, enc, 1, 1 + lenstr.len() as int);
            assert(enc.subrange(1, 1 + lenstr.len() as int) =~= lenstr);
            lemma_char_at(s, pos, enc, 1 + lenstr.len() as int);
            assert(s[pos + 1 + lenstr.len()] == '\r');
            lemma_line_at(s, pos + 1, lenstr);
            let n = value.len() as int;
            assert('0' <= lenstr[0] <= '9');
            assert(text::parse_i64(lenstr) == Some(n as i64));
            let p1 = pos + 1 + lenstr.len() + 2;
            assert(next_pos(s, pos + 1) == p1);
            lemma_sub_at(s, pos, enc, lenstr.len() + 3 as int, enc.len() as int);
            assert(enc.subrange(lenstr.len() + 3 as int, enc.len() as int) =~= erest);
            assert(s.subrange(p1, p1 + erest.len() as int) == erest);
            lemma_roundtrip_items(s, p1, value);
            assert(parse_items(s, p1, value.len()) == Some(
                (frames_of_responses(value), p1 + erest.len()),
            ));
            assert(p1 + erest.len() == pos + enc.len());
        },
    }
}

/// A run of encoded wire-safe responses parses back item by item.
proof fn lemma_roundtrip_items(
    s: Seq<char>,
    pos: int,
    items: Seq<crate::commands::CommandResponseV>,
)
    requires
        wire_safe_items(items),
        0 <= pos,
        pos + encode_items_chars(items).len() <= s.len(),
        s.subrange(pos, pos + encode_items_chars(items).len() as int) == encode_items_chars(
            items,
        ),
    ensures
        parse_items(s, pos, items.len()) == Some(
            (frames_of_responses(items), pos + encode_items_chars(items).len()),
        ),
    decreases items, 1int,
{
    if items.len() == 0 {
        assert(parse_items(s, pos, 0nat) == Some((Seq::<RespTypeV>::empty(), pos)));
        assert(frames_of_responses(items) == Seq::<RespTypeV>::empty());
    } else {
        let e0 = resp_encode_chars(items[0]);
        let erest = encode_items_chars(items.drop_first());
        let etotal = encode_items_chars(items);
        assert(etotal == e0 + erest);
        lemma_sub_at(s, pos, etotal, 0, e0.len() as int);
        assert(etotal.subrange(0, e0.len() as int) =~= e0);
        assert(s.subrange(pos + 0, pos + e0.len() as int) == e0);
        assert(s.subrange(pos, pos + e0.len() as int) == s.subrange(
            pos + 0,
            pos + e0.len() as int,
        ));
        lemma_roundtrip_at(s, pos, items[0]);
        lemma_encode_nonempty(items[0]);
        let p2 = pos + e0.len();
        lemma_sub_at(s, pos, etotal, e0.len() as int, etotal.len() as int);
        assert(etotal.subrange(e0.len() as int, etotal.len() as int) =~= erest);
        assert(s.subrange(p2, p2 + erest.len() as int) == erest);
        lemma_roundtrip_items(s, p2, items.drop_first());
        assert((items.len() - 1) as nat == items.drop_first().len());
        assert(seq![frame_of_response(items[0])] + frames_of_responses(items.drop_first())
            == frames_of_responses(items));
    }
}

/// Round-trip: the RESP encoding of any wire-safe response decodes, as a
/// frame, to exactly the frame image of that response, consuming the whole
/// encoding.
pub proof fn lemma_response_roundtrip(r: crate::commands::CommandResponseV)
    requires
        wire_safe(r),
    ensures
        parse_frame(resp_encode_chars(r), 0) == Some(
            (frame_of_response(r), resp_encode_chars(r).len() as int),
        ),
{
    let enc = resp_encode_chars(r);
    assert(enc.subrange(0, enc.len() as int) =~= enc);
    lemma_roundtrip_at(enc, 0, r);
}

/// The same round-trip through the wire bytes: the encoder's UTF-8 output
/// is valid UTF-8, and its characters' first frame is the response's frame.
pub proof fn lemma_response_roundtrip_bytes(r: crate::commands::CommandResponseV)
    requires
        wire_safe(r),
    ensures
        vstd::utf8::valid_utf8(<Resp as Protocol>::encode_spec(r)),
        parse_frame(vstd::utf8::decode_utf8(<Resp as Protocol>::encode_spec(r)), 0) == Some(
            (frame_of_response(r), resp_encode_chars(r).len() as int),
        ),
{
    vstd::utf8::encode_utf8_valid_utf8(resp_encode_chars(r));
    vstd::utf8::encode_utf8_decode_utf8(resp_encode_chars(r));
    lemma_response_roundtrip(r);
}

} // verus!

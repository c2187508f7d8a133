//! The HTTP/1.1 codec for curl-style probes: the request line gives method
//! and path, the headers run to the first blank line, what follows is the
//! body, and any response is sent as `HTTP/1.1 200 OK` with the text as its
//! body.

use vstd::prelude::*;

use crate::commands::{command_new_spec, Command, CommandResponse, CommandResponseV, CommandV};
use crate::protocol::{decode_view, Protocol, ProtocolError, ProtocolErrorV};
use crate::text;

verus! {

use vstd::string::StringExecFns;
use vstd::string::StrSliceExecFns;

pub struct Curl {}

/// A line of nothing but whitespace: the blank line that ends the header
/// section.
pub open spec fn line_is_blank(l: Seq<char>) -> bool {
    forall|i: int| 0 <= i < l.len() ==> text::is_ws(#[trigger] l[i])
}

/// Index of the first blank line at or after `from`, or the line count.
pub open spec fn first_blank(lines: Seq<Seq<char>>, from: int) -> int
    decreases lines.len() - from,
{
    if !(0 <= from < lines.len()) {
        lines.len() as int
    } else if line_is_blank(lines[from]) {
        from
    } else {
        first_blank(lines, from + 1)
    }
}

proof fn lemma_first_blank(lines: Seq<Seq<char>>, from: int)
    requires
        0 <= from <= lines.len(),
    ensures
        from <= first_blank(lines, from) <= lines.len(),
        forall|j: int|
            from <= j < first_blank(lines, from) ==> !line_is_blank(#[trigger] lines[j]),
        first_blank(lines, from) < lines.len() ==> line_is_blank(
            lines[first_blank(lines, from)],
        ),
    decreases lines.len() - from,
{
    if from < lines.len() && !line_is_blank(lines[from]) {
        lemma_first_blank(lines, from + 1);
    }
}

/// The whitespace-separated tokens of the lines from `from` on, in order: a
/// line break separates tokens like any other whitespace.
pub open spec fn body_tokens(lines: Seq<Seq<char>>, from: int) -> Seq<Seq<char>>
    decreases lines.len() - from,
{
    if !(0 <= from < lines.len()) {
        Seq::empty()
    } else {
        text::ws_tokens(lines[from]) + body_tokens(lines, from + 1)
    }
}

/// What the request body supplies: the headers run to the first blank
/// line, the body is everything after it; the body's first token is the
/// value and the rest are option tokens. No blank line, or nothing but
/// whitespace after it, means no body.
pub open spec fn scan_body(lines: Seq<Seq<char>>) -> Option<(Seq<char>, Seq<Seq<char>>)> {
    let b = first_blank(lines, 0);
    if b >= lines.len() {
        None
    } else {
        let toks = body_tokens(lines, b + 1);
        if toks.len() == 0 {
            None
        } else {
            Some((toks[0], toks.drop_first()))
        }
    }
}

/// What HTTP decoding returns on a character string: the trimmed request's
/// first line must hold method, path and version; the body, when present,
/// supplies the value and option tokens.
pub open spec fn curl_decode_chars(s: Seq<char>) -> Result<CommandV, ProtocolErrorV> {
    let t = text::trim_ws(s);
    let lines = text::split_lines(t);
    if lines.len() == 0 {
        Err(ProtocolErrorV::CurlProtocolDecodingError)
    } else {
        let parts = text::ws_tokens(lines[0]);
        if parts.len() < 3 {
            Err(ProtocolErrorV::CurlProtocolDecodingError)
        } else {
            match scan_body(lines.drop_first()) {
                None => command_new_spec(parts[0], parts[1], None, Seq::empty()),
                Some((body, opts)) => command_new_spec(parts[0], parts[1], Some(body), opts),
            }
        }
    }
}

/// Is the line nothing but whitespace?
fn line_blank_exec(l: &str) -> (r: bool)
    ensures
        r == line_is_blank(l@),
{
    let n = l.unicode_len();
    let mut i: usize = 0;
    while i < n
        invariant
            n == l@.len(),
            i <= n,
            forall|j: int| 0 <= j < i ==> text::is_ws(#[trigger] l@[j]),
        decreases n - i,
    {
        let c = l.get_char(i);
        if !(c == ' ' || c == '\t' || c == '\n' || c == '\r') {
            return false;
        }
        i += 1;
    }
    true
}

impl Protocol for Curl {
    open spec fn decode_spec(raw: Seq<u8>) -> Result<CommandV, ProtocolErrorV> {
        if vstd::utf8::valid_utf8(raw) {
            curl_decode_chars(vstd::utf8::decode_utf8(raw))
        } else {
            Err(ProtocolErrorV::CurlProtocolDecodingError)
        }
    }

    open spec fn encode_ok(response: CommandResponseV) -> bool {
        response is SimpleString
    }

    open spec fn encode_spec(response: CommandResponseV) -> Seq<u8> {
        vstd::utf8::encode_utf8("HTTP/1.1 200 OK\r\n\r\n"@ + response->SimpleString_value)
    }

    fn decode(raw: &[u8]) -> (r: Result<Command, ProtocolError>) {
        let s = match text::utf8_to_str(raw) {
            Some(s) => s,
            None => {
                return Err(ProtocolError::CurlProtocolDecodingError);
            },
        };
        let t = text::trim_ws_str(s);
        let lines = text::split_lines_exec(t);
        let ghost lv = lines.deep_view();
        let ghost lvr = lv.drop_first();
        if lines.len() == 0 {
            return Err(ProtocolError::CurlProtocolDecodingError);
        }
        let parts = text::ws_tokens_exec(lines[0].as_str());
        proof {
            assert(lv[0] == lines@[0]@);
        }
        if parts.len() < 3 {
            return Err(ProtocolError::CurlProtocolDecodingError);
        }
        let nl = lines.len();
        proof {
            assert(lvr.len() == nl - 1);
            assert(forall|j: int| 0 <= j < lvr.len() ==> #[trigger] lvr[j] == lv[j + 1]);
            lemma_first_blank(lvr, 0);
        }
        // The headers run to the first blank line among the lines after the
        // request line.
        let mut bi: usize = 1;
        while bi < nl
            invariant
                lv == lines.deep_view(),
                lvr == lv.drop_first(),
                nl == lines@.len(),
                lv.len() == nl,
                1 <= bi <= nl,
                forall|j: int| 0 <= j < lvr.len() ==> #[trigger] lvr[j] == lv[j + 1],
                forall|j: int| 1 <= j < bi ==> !line_is_blank(#[trigger] lv[j]),
            ensures
                1 <= bi <= nl,
                forall|j: int| 1 <= j < bi ==> !line_is_blank(#[trigger] lv[j]),
                bi < nl ==> line_is_blank(lv[bi as int]),
            decreases nl - bi,
        {
            let blank = line_blank_exec(lines[bi].as_str());
            proof {
                assert(lv[bi as int] == lines@[bi as int]@);
            }
            if blank {
                break;
            }
            bi += 1;
        }
        proof {
            lemma_first_blank(lvr, 0);
            let fb = first_blank(lvr, 0);
            if bi < nl {
                assert(fb == bi - 1) by {
                    if fb < bi - 1 {
                        assert(line_is_blank(lvr[fb]));
                        assert(lvr[fb] == lv[fb + 1]);
                    }
                    if fb > bi - 1 {
                        assert(!line_is_blank(lvr[bi - 1]));
                        assert(lvr[bi - 1] == lv[bi as int]);
                    }
                }
            } else {
                assert(fb >= lvr.len()) by {
                    if fb < lvr.len() {
                        assert(line_is_blank(lvr[fb]));
                        assert(lvr[fb] == lv[fb + 1]);
                    }
                }
            }
        }
        let mut body: Option<String> = None;
        let mut options: Vec<String> = Vec::new();
        if bi < nl {
            // Collect the body: every whitespace-separated token after the
            // blank line.
            let mut toks: Vec<String> = Vec::new();
            let mut k: usize = bi + 1;
            proof {
                assert(toks.deep_view() =~= Seq::<Seq<char>>::empty());
                assert(body_tokens(lvr, bi as int) == toks.deep_view() + body_tokens(
                    lvr,
                    k - 1,
                )) by {
                    assert(toks.deep_view() + body_tokens(lvr, k - 1) =~= body_tokens(
                        lvr,
                        k - 1,
                    ));
                }
            }
            while k < nl
                invariant
                    lv == lines.deep_view(),
                    lvr == lv.drop_first(),
                    nl == lines@.len(),
                    lv.len() == nl,
                    lvr.len() == nl - 1,
                    1 <= bi < nl,
                    bi + 1 <= k <= nl,
                    forall|j: int| 0 <= j < lvr.len() ==> #[trigger] lvr[j] == lv[j + 1],
                    body_tokens(lvr, bi as int) == toks.deep_view() + body_tokens(lvr, k - 1),
                decreases nl - k,
            {
                let ghost prev_deep = toks.deep_view();
                let ghost prev_sh = toks@;
                let mut t = text::ws_tokens_exec(lines[k].as_str());
                let ghost t_sh = t@;
                toks.append(&mut t);
                proof {
                    assert(lv[k as int] == lines@[k as int]@);
                    assert(lvr[k - 1] == lv[k as int]);
                    assert(toks@ == prev_sh + t_sh);
                    assert forall|q: int|
                        0 <= q < toks@.len() implies toks.deep_view()[q] == (prev_deep + Seq::new(
                        t_sh.len(),
                        |x: int| t_sh[x]@,
                    ))[q] by {
                        if q < prev_sh.len() {
                            assert((prev_sh + t_sh)[q] == prev_sh[q]);
                        } else {
                            assert((prev_sh + t_sh)[q] == t_sh[q - prev_sh.len()]);
                        }
                    }
                    assert(Seq::new(t_sh.len(), |x: int| t_sh[x]@) =~= text::ws_tokens(
                        lvr[k - 1],
                    ));
                    assert(toks.deep_view() =~= prev_deep + text::ws_tokens(lvr[k - 1]));
                    assert(body_tokens(lvr, k - 1) == text::ws_tokens(lvr[k - 1]) + body_tokens(
                        lvr,
                        k as int,
                    ));
                    assert(prev_deep + (text::ws_tokens(lvr[k - 1]) + body_tokens(lvr, k as int))
                        =~= toks.deep_view() + body_tokens(lvr, k as int));
                }
                k += 1;
            }
            proof {
                assert(body_tokens(lvr, k - 1) =~= Seq::<Seq<char>>::empty());
                assert(toks.deep_view() + Seq::<Seq<char>>::empty() =~= toks.deep_view());
                assert(body_tokens(lvr, bi as int) == toks.deep_view());
            }
            if toks.len() > 0 {
                let ghost all = toks.deep_view();
                let ghost all_sh = toks@;
                let first_tok = toks.remove(0);
                proof {
                    all_sh.remove_ensures(0);
                    assert(toks@ == all_sh.remove(0));
                    assert forall|q: int|
                        0 <= q < toks@.len() implies toks.deep_view()[q] == all.drop_first()[
                        q] by {
                        assert(toks@[q] == all_sh[q + 1]);
                    }
                    assert(toks.deep_view() =~= all.drop_first());
                    assert(first_tok@ == all[0]);
                }
                body = Some(first_tok);
                options = toks;
            }
        }
        proof {
            assert(lv.subrange(1, lv.len() as int) =~= lv.drop_first());
        }
        let method = parts[0].clone();
        let path = parts[1].clone();
        proof {
            assert(text::ws_tokens(lv[0])[0] == parts@[0]@);
            assert(text::ws_tokens(lv[0])[1] == parts@[1]@);
        }
        Command::new(method.as_str(), path.as_str(), body, options)
    }

    fn encode(response: CommandResponse) -> (r: Vec<u8>) {
        match response {
            CommandResponse::String { value } => {
                let mut out = String::from_str("HTTP/1.1 200 OK\r\n\r\n");
                out.append(value.as_str());
                out.as_str().as_bytes_vec()
            },
            _ => {
                proof {
                    assert(false);
                }
                Vec::new()
            },
        }
    }
}

} // verus!

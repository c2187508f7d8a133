//! Small verified helpers on strings and characters that the decoders and
//! the engine share.

use vstd::prelude::*;

verus! {

use vstd::string::StringSliceAdditionalSpecFns;

/// Character-for-character equality of two string slices, decided by
/// comparing their UTF-8 bytes.
pub fn str_eq(a: &str, b: &str) -> (r: bool)
    ensures
        r == (a@ == b@),
{
    proof {
        vstd::utf8::encode_utf8_decode_utf8(a@);
        vstd::utf8::encode_utf8_decode_utf8(b@);
    }
    let ab = a.as_bytes();
    let bb = b.as_bytes();
    if ab.len() != bb.len() {
        return false;
    }
    let n = ab.len();
    let mut i: usize = 0;
    while i < n
        invariant
            n == ab@.len() == bb@.len(),
            i <= n,
            ab@ == a.spec_bytes(),
            bb@ == b.spec_bytes(),
            forall|j: int| 0 <= j < i ==> ab@[j] == bb@[j],
        decreases n - i,
    {
        if ab[i] != bb[i] {
            return false;
        }
        i += 1;
    }
    proof {
        assert(a.spec_bytes() =~= b.spec_bytes());
    }
    true
}

/// Relies on `String::push`: appends exactly the given character.
#[verifier::external_body]
pub fn push_char(s: &mut String, c: char)
    ensures
        final(s)@ == old(s)@.push(c),
{
    s.push(c);
}

pub open spec fn is_digit(c: char) -> bool {
    '0' <= c <= '9'
}

pub open spec fn digit_val(c: char) -> int {
    c as u32 - '0' as u32
}

pub open spec fn all_digits(s: Seq<char>) -> bool {
    forall|i: int| 0 <= i < s.len() ==> is_digit(#[trigger] s[i])
}

/// Numeric value of a digit string, most significant digit first.
pub open spec fn digits_val(s: Seq<char>) -> int
    decreases s.len(),
{
    if s.len() == 0 {
        0
    } else {
        digits_val(s.drop_last()) * 10 + digit_val(s.last())
    }
}

/// What `str::parse::<u64>` accepts: an optional `+` sign, then one or more
/// decimal digits whose value fits.
pub open spec fn parse_u64(s: Seq<char>) -> Option<u64> {
    let mag = if s.len() > 0 && s[0] == '+' {
        s.drop_first()
    } else {
        s
    };
    if mag.len() > 0 && all_digits(mag) && digits_val(mag) <= u64::MAX {
        Some(digits_val(mag) as u64)
    } else {
        None
    }
}

/// What `str::parse::<i64>` accepts: an optional sign, then one or more
/// decimal digits whose signed value fits.
pub open spec fn parse_i64(s: Seq<char>) -> Option<i64> {
    if s.len() > 0 && s[0] == '-' {
        let mag = s.drop_first();
        if mag.len() > 0 && all_digits(mag) && -digits_val(mag) >= i64::MIN {
            Some((-digits_val(mag)) as i64)
        } else {
            None
        }
    } else {
        let mag = if s.len() > 0 && s[0] == '+' {
            s.drop_first()
        } else {
            s
        };
        if mag.len() > 0 && all_digits(mag) && digits_val(mag) <= i64::MAX {
            Some(digits_val(mag) as i64)
        } else {
            None
        }
    }
}

proof fn lemma_digits_val_nonneg(s: Seq<char>)
    requires
        all_digits(s),
    ensures
        digits_val(s) >= 0,
    decreases s.len(),
{
    if s.len() > 0 {
        assert(all_digits(s.drop_last()));
        lemma_digits_val_nonneg(s.drop_last());
        assert(digits_val(s.drop_last()) * 10 >= 0) by (nonlinear_arith)
            requires
                digits_val(s.drop_last()) >= 0,
        ;
    }
}

/// A digit string is worth at least any of its prefixes.
proof fn lemma_digits_val_mono(s: Seq<char>, j: int)
    requires
        all_digits(s),
        0 <= j <= s.len(),
    ensures
        digits_val(s.take(j)) <= digits_val(s),
    decreases s.len() - j,
{
    if j < s.len() {
        let t = s.take(j + 1);
        assert(t.drop_last() =~= s.take(j));
        assert(all_digits(s.take(j)));
        lemma_digits_val_nonneg(s.take(j));
        assert(digits_val(s.take(j)) * 10 >= digits_val(s.take(j))) by (nonlinear_arith)
            requires
                digits_val(s.take(j)) >= 0,
        ;
        assert(digits_val(t) == digits_val(s.take(j)) * 10 + digit_val(t.last()));
        lemma_digits_val_mono(s, j + 1);
    } else {
        assert(s.take(j) =~= s);
    }
}

/// Value of the digit run `s@[start..end]`, or `None` if a non-digit occurs
/// there or the value exceeds `u64::MAX`.
fn digits_to_u64(s: &str, start: usize, end: usize, n: usize) -> (r: Option<u64>)
    requires
        n == s@.len(),
        start <= end <= n,
    ensures
        all_digits(s@.subrange(start as int, end as int)) && digits_val(
            s@.subrange(start as int, end as int),
        ) <= u64::MAX ==> r == Some(digits_val(s@.subrange(start as int, end as int)) as u64),
        r matches Some(v) ==> all_digits(s@.subrange(start as int, end as int)) && v
            == digits_val(s@.subrange(start as int, end as int)) && digits_val(
            s@.subrange(start as int, end as int),
        ) <= u64::MAX,
{
    let ghost whole = s@.subrange(start as int, end as int);
    let mut acc: u64 = 0;
    let mut i: usize = start;
    while i < end
        invariant
            n == s@.len(),
            start <= i <= end <= n,
            whole == s@.subrange(start as int, end as int),
            all_digits(s@.subrange(start as int, i as int)),
            acc == digits_val(s@.subrange(start as int, i as int)),
        decreases end - i,
    {
        let c = s.get_char(i);
        proof {
            assert(whole[i - start] == s@[i as int]);
        }
        if !(c >= '0' && c <= '9') {
            proof {
                assert(!all_digits(whole));
            }
            return None;
        }
        let d: u64 = (c as u32 as u64) - 48;
        let ghost pref = s@.subrange(start as int, i as int);
        let ghost pref1 = s@.subrange(start as int, i + 1);
        proof {
            assert(pref1.drop_last() =~= pref);
            assert(pref1.last() == s@[i as int]);
            assert(all_digits(pref1));
        }
        let big = (acc as u128) * 10 + (d as u128);
        proof {
            assert(big == digits_val(pref1)) by {
                assert(digits_val(pref1) == digits_val(pref) * 10 + digit_val(s@[i as int]));
            }
        }
        if big > u64::MAX as u128 {
            proof {
                assert(whole.take(i + 1 - start) =~= pref1);
                assert(!(all_digits(whole) && digits_val(whole) <= u64::MAX)) by {
                    if all_digits(whole) {
                        lemma_digits_val_mono(whole, i + 1 - start);
                        assert(digits_val(whole) >= digits_val(pref1));
                    }
                }
            }
            return None;
        }
        acc = big as u64;
        i += 1;
    }
    proof {
        assert(s@.subrange(start as int, i as int) =~= whole);
    }
    Some(acc)
}

/// `str::parse::<u64>`, verified against [`parse_u64`].
pub fn parse_u64_exec(s: &str) -> (r: Option<u64>)
    ensures
        r == parse_u64(s@),
{
    let n = s.unicode_len();
    let start: usize = if n > 0 && s.get_char(0) == '+' {
        1
    } else {
        0
    };
    proof {
        if start == 1 {
            assert(s@.subrange(1, n as int) =~= s@.drop_first());
        } else {
            assert(s@.subrange(0, n as int) =~= s@);
        }
    }
    if start == n {
        return None;
    }
    digits_to_u64(s, start, n, n)
}

/// `str::parse::<i64>`, verified against [`parse_i64`].
pub fn parse_i64_exec(s: &str) -> (r: Option<i64>)
    ensures
        r == parse_i64(s@),
{
    let n = s.unicode_len();
    if n == 0 {
        return None;
    }
    let c0 = s.get_char(0);
    if c0 == '-' {
        proof {
            assert(s@.subrange(1, n as int) =~= s@.drop_first());
        }
        if n == 1 {
            return None;
        }
        let mag = digits_to_u64(s, 1, n, n);
        match mag {
            None => {
                proof {
                    if all_digits(s@.drop_first()) && -digits_val(s@.drop_first()) >= i64::MIN {
                        assert(digits_val(s@.drop_first()) <= u64::MAX);
                    }
                }
                None
            },
            Some(v) => {
                if v > 9223372036854775808u64 {
                    None
                } else if v == 9223372036854775808u64 {
                    Some(i64::MIN)
                } else {
                    Some(-(v as i64))
                }
            },
        }
    } else {
        let start: usize = if c0 == '+' {
            1
        } else {
            0
        };
        proof {
            if start == 1 {
                assert(s@.subrange(1, n as int) =~= s@.drop_first());
            } else {
                assert(s@.subrange(0, n as int) =~= s@);
            }
        }
        if start == n {
            return None;
        }
        let mag = digits_to_u64(s, start, n, n);
        match mag {
            None => None,
            Some(v) => {
                if v > i64::MAX as u64 {
                    None
                } else {
                    Some(v as i64)
                }
            },
        }
    }
}

/// The decimal digit character for `n`.
pub open spec fn dec_digit(n: int) -> char {
    if n == 0 {
        '0'
    } else if n == 1 {
        '1'
    } else if n == 2 {
        '2'
    } else if n == 3 {
        '3'
    } else if n == 4 {
        '4'
    } else if n == 5 {
        '5'
    } else if n == 6 {
        '6'
    } else if n == 7 {
        '7'
    } else if n == 8 {
        '8'
    } else {
        '9'
    }
}

/// Decimal notation of a non-negative number, most significant digit first.
pub open spec fn dec_str(n: int) -> Seq<char>
    decreases n,
{
    if n < 10 {
        seq![dec_digit(n)]
    } else {
        dec_str(n / 10).push(dec_digit(n % 10))
    }
}

fn dec_digit_exec(n: u64) -> (r: char)
    requires
        n < 10,
    ensures
        r == dec_digit(n as int),
{
    if n == 0 {
        '0'
    } else if n == 1 {
        '1'
    } else if n == 2 {
        '2'
    } else if n == 3 {
        '3'
    } else if n == 4 {
        '4'
    } else if n == 5 {
        '5'
    } else if n == 6 {
        '6'
    } else if n == 7 {
        '7'
    } else if n == 8 {
        '8'
    } else {
        '9'
    }
}

/// Decimal notation of `n`, as `u64::to_string` writes it.
pub fn u64_to_string(n: u64) -> (r: String)
    ensures
        r@ == dec_str(n as int),
    decreases n,
{
    let d = dec_digit_exec(n % 10);
    if n < 10 {
        let mut s = String::new();
        push_char(&mut s, d);
        proof {
            assert(s@ =~= dec_str(n as int));
        }
        s
    } else {
        let mut s = u64_to_string(n / 10);
        push_char(&mut s, d);
        s
    }
}

/// The decimal notation of a number is all digits and is worth the number.
pub proof fn lemma_dec_str_val(m: int)
    requires
        0 <= m,
    ensures
        all_digits(dec_str(m)),
        digits_val(dec_str(m)) == m,
        dec_str(m).len() >= 1,
        forall|i: int| 0 <= i < dec_str(m).len() ==> '0' <= #[trigger] dec_str(m)[i] <= '9',
    decreases m,
{
    if m < 10 {
        assert(digit_val(dec_digit(m)) == m);
        let d = dec_str(m);
        assert(d.drop_last() =~= Seq::<char>::empty());
        assert(digits_val(Seq::<char>::empty()) == 0);
        assert(d.last() == dec_digit(m));
    } else {
        vstd::arithmetic::div_mod::lemma_fundamental_div_mod(m, 10);
        assert(0 <= m / 10 < m) by (nonlinear_arith)
            requires
                m >= 10,
        ;
        lemma_dec_str_val(m / 10);
        let d = dec_str(m);
        assert(d.drop_last() =~= dec_str(m / 10));
        assert(d.last() == dec_digit(m % 10));
        assert(digit_val(dec_digit(m % 10)) == m % 10);
        assert forall|i: int| 0 <= i < d.len() implies '0' <= #[trigger] d[i] <= '9' by {
            if i < d.len() - 1 {
                assert(d[i] == dec_str(m / 10)[i]);
            }
        }
    }
}

/// ASCII lowercasing of one character, as command names need it.
pub open spec fn lower_char(c: char) -> char {
    if 'A' <= c <= 'Z' {
        ((c as u8) + 32) as char
    } else {
        c
    }
}

pub open spec fn lower_str(s: Seq<char>) -> Seq<char> {
    s.map_values(|c: char| lower_char(c))
}

/// ASCII lowercasing of a whole string.
pub fn lower_exec(s: &str) -> (r: String)
    ensures
        r@ == lower_str(s@),
{
    let n = s.unicode_len();
    let mut out = String::new();
    let mut i: usize = 0;
    while i < n
        invariant
            n == s@.len(),
            i <= n,
            out@ =~= lower_str(s@).take(i as int),
        decreases n - i,
    {
        let c = s.get_char(i);
        let l: char = if c >= 'A' && c <= 'Z' {
            ((c as u8) + 32) as char
        } else {
            c
        };
        proof {
            assert(l == lower_char(s@[i as int]));
        }
        push_char(&mut out, l);
        proof {
            assert(out@ =~= lower_str(s@).take(i + 1));
        }
        i += 1;
    }
    proof {
        assert(lower_str(s@).take(n as int) =~= lower_str(s@));
    }
    out
}

/// ASCII whitespace, as the protocol lines use it.
pub open spec fn is_ws(c: char) -> bool {
    c == ' ' || c == '\t' || c == '\n' || c == '\r'
}

/// Index of the first occurrence of `c` at or after `from`, or the length.
pub open spec fn find_char(s: Seq<char>, from: int, c: char) -> int
    decreases s.len() - from,
{
    if !(0 <= from < s.len()) {
        s.len() as int
    } else if s[from] == c {
        from
    } else {
        find_char(s, from + 1, c)
    }
}

pub proof fn lemma_find_char(s: Seq<char>, from: int, c: char)
    requires
        0 <= from <= s.len(),
    ensures
        from <= find_char(s, from, c) <= s.len(),
        forall|j: int| from <= j < find_char(s, from, c) ==> s[j] != c,
        find_char(s, from, c) < s.len() ==> s[find_char(s, from, c)] == c,
    decreases s.len() - from,
{
    if from < s.len() && s[from] != c {
        lemma_find_char(s, from + 1, c);
    }
}

/// Scan for `c` from position `from`; the result is exactly `find_char`.
pub fn find_char_exec(s: &str, from: usize, n: usize, c: char) -> (r: usize)
    requires
        n == s@.len(),
        from <= n,
    ensures
        r == find_char(s@, from as int, c),
        from <= r <= n,
{
    proof {
        lemma_find_char(s@, from as int, c);
    }
    let mut i: usize = from;
    while i < n
        invariant
            n == s@.len(),
            from <= i <= n,
            forall|j: int| from <= j < i ==> s@[j] != c,
        decreases n - i,
    {
        if s.get_char(i) == c {
            proof {
                lemma_find_char(s@, from as int, c);
                let r = find_char(s@, from as int, c);
                if r < i {
                    assert(s@[r] == c);
                }
                if r > i {
                    assert(s@[i as int] != c);
                }
            }
            return i;
        }
        i += 1;
    }
    proof {
        let r = find_char(s@, from as int, c);
        if r < n {
            assert(s@[r] == c);
        }
    }
    n
}

/// Index of the first character at or after `from` that fails `p`.
pub open spec fn skip_while(s: Seq<char>, from: int, p: spec_fn(char) -> bool) -> int
    decreases s.len() - from,
{
    if !(0 <= from < s.len()) {
        s.len() as int
    } else if p(s[from]) {
        skip_while(s, from + 1, p)
    } else {
        from
    }
}

pub proof fn lemma_skip_while(s: Seq<char>, from: int, p: spec_fn(char) -> bool)
    requires
        0 <= from <= s.len(),
    ensures
        from <= skip_while(s, from, p) <= s.len(),
        forall|j: int| from <= j < skip_while(s, from, p) ==> p(s[j]),
        skip_while(s, from, p) < s.len() ==> !p(s[skip_while(s, from, p)]),
    decreases s.len() - from,
{
    if from < s.len() && p(s[from]) {
        lemma_skip_while(s, from + 1, p);
    }
}

/// Index after the last character before `upto` that fails `p` (so
/// everything from the result to `upto` satisfies `p`).
pub open spec fn rskip_while(s: Seq<char>, upto: int, p: spec_fn(char) -> bool) -> int
    decreases upto,
{
    if upto <= 0 || upto > s.len() {
        0
    } else if p(s[upto - 1]) {
        rskip_while(s, upto - 1, p)
    } else {
        upto
    }
}

pub proof fn lemma_rskip_while(s: Seq<char>, upto: int, p: spec_fn(char) -> bool)
    requires
        0 <= upto <= s.len(),
    ensures
        0 <= rskip_while(s, upto, p) <= upto,
        forall|j: int| rskip_while(s, upto, p) <= j < upto ==> p(s[j]),
        rskip_while(s, upto, p) > 0 ==> !p(s[rskip_while(s, upto, p) - 1]),
    decreases upto,
{
    if 0 < upto <= s.len() && p(s[upto - 1]) {
        lemma_rskip_while(s, upto - 1, p);
    }
}

/// The string without leading and trailing characters satisfying `p`.
pub open spec fn trim_by(s: Seq<char>, p: spec_fn(char) -> bool) -> Seq<char> {
    let a = skip_while(s, 0, p);
    let b = rskip_while(s, s.len() as int, p);
    if a <= b {
        s.subrange(a, b)
    } else {
        Seq::empty()
    }
}

pub open spec fn ws_pred() -> spec_fn(char) -> bool {
    |c: char| is_ws(c)
}

pub open spec fn slash_pred() -> spec_fn(char) -> bool {
    |c: char| c == '/'
}

/// `str::trim` on ASCII whitespace.
pub open spec fn trim_ws(s: Seq<char>) -> Seq<char> {
    trim_by(s, ws_pred())
}

/// `str::trim_matches('/')`.
pub open spec fn trim_slash(s: Seq<char>) -> Seq<char> {
    trim_by(s, slash_pred())
}

/// Trim with an executable predicate `slash` selecting between the two
/// predicates this crate trims by.
fn trim_pred_str<'a>(s: &'a str, slash: bool) -> (r: &'a str)
    ensures
        r@ == trim_by(s@, if slash { slash_pred() } else { ws_pred() }),
{
    let ghost p = if slash {
        slash_pred()
    } else {
        ws_pred()
    };
    proof {
        lemma_skip_while(s@, 0, p);
        lemma_rskip_while(s@, s@.len() as int, p);
    }
    let n = s.unicode_len();
    let mut a: usize = 0;
    while a < n
        invariant
            n == s@.len(),
            a <= n,
            p == (if slash { slash_pred() } else { ws_pred() }),
            forall|j: int| 0 <= j < a ==> p(s@[j]),
        ensures
            n == s@.len(),
            a <= n,
            forall|j: int| 0 <= j < a ==> p(s@[j]),
            a < n ==> !p(s@[a as int]),
        decreases n - a,
    {
        let c = s.get_char(a);
        let hit: bool = if slash {
            c == '/'
        } else {
            c == ' ' || c == '\t' || c == '\n' || c == '\r'
        };
        proof {
            assert(hit == p(s@[a as int]));
        }
        if !hit {
            break;
        }
        a += 1;
    }
    let mut b: usize = n;
    while b > a
        invariant
            n == s@.len(),
            a <= b <= n,
            p == (if slash { slash_pred() } else { ws_pred() }),
            forall|j: int| b <= j < n ==> p(s@[j]),
        ensures
            a <= b <= n,
            forall|j: int| b <= j < n ==> p(s@[j]),
            b > a ==> !p(s@[b - 1]),
        decreases b,
    {
        let c = s.get_char(b - 1);
        let hit: bool = if slash {
            c == '/'
        } else {
            c == ' ' || c == '\t' || c == '\n' || c == '\r'
        };
        proof {
            assert(hit == p(s@[b - 1]));
        }
        if !hit {
            break;
        }
        b -= 1;
    }
    let r = s.substring_char(a, b);
    proof {
        let a0 = skip_while(s@, 0, p);
        let b0 = rskip_while(s@, s@.len() as int, p);
        if a < b {
            assert(a0 == a) by {
                if a0 < a {
                    assert(p(s@[a0]));
                }
                if a0 > a {
                    assert(p(s@[a as int]));
                }
            }
            assert(b0 == b) by {
                if b0 < b {
                    assert(p(s@[b - 1]));
                }
                if b0 > b {
                    assert(p(s@[b0 - 1]));
                }
            }
            assert(r@ =~= trim_by(s@, p));
        } else {
            // The two scans met: every character satisfies `p`, so the
            // trimmed string is empty either way.
            assert(a == b);
            assert(a == n) by {
                if a < n {
                    assert(!p(s@[a as int]));
                    assert(p(s@[a as int]));
                }
            }
            assert(a0 == n) by {
                if a0 < n {
                    assert(!p(s@[a0]));
                    assert(p(s@[a0]));
                }
            }
            assert(r@ =~= trim_by(s@, p));
        }
    }
    r
}

/// `str::trim` (ASCII whitespace), verified against [`trim_ws`].
pub fn trim_ws_str<'a>(s: &'a str) -> (r: &'a str)
    ensures
        r@ == trim_ws(s@),
{
    trim_pred_str(s, false)
}

/// `str::trim_matches('/')`, verified against [`trim_slash`].
pub fn trim_slash_str<'a>(s: &'a str) -> (r: &'a str)
    ensures
        r@ == trim_slash(s@),
{
    trim_pred_str(s, true)
}

pub open spec fn not_ws_pred() -> spec_fn(char) -> bool {
    |c: char| !is_ws(c)
}

/// `str::lines`: split at `\n`, dropping one `\r` before each split point;
/// a last fragment without a newline is kept as it stands, and a trailing
/// newline opens no empty line.
pub open spec fn split_lines(s: Seq<char>) -> Seq<Seq<char>>
    decreases s.len(),
    via split_lines_dec
{
    if s.len() == 0 {
        Seq::empty()
    } else {
        let e = find_char(s, 0, '\n');
        let line = if e < s.len() && e > 0 && s[e - 1] == '\r' {
            s.subrange(0, e - 1)
        } else {
            s.subrange(0, e)
        };
        if e >= s.len() {
            seq![line]
        } else {
            seq![line] + split_lines(s.subrange(e + 1, s.len() as int))
        }
    }
}

#[via_fn]
proof fn split_lines_dec(s: Seq<char>) {
    if s.len() > 0 {
        lemma_find_char(s, 0, '\n');
    }
}

/// `str::split_whitespace` over ASCII whitespace: maximal runs of
/// non-whitespace characters, in order.
pub open spec fn ws_tokens(s: Seq<char>) -> Seq<Seq<char>>
    decreases s.len(),
    via ws_tokens_dec
{
    if s.len() == 0 {
        Seq::empty()
    } else if is_ws(s[0]) {
        ws_tokens(s.drop_first())
    } else {
        let e = skip_while(s, 0, not_ws_pred());
        seq![s.subrange(0, e)] + ws_tokens(s.subrange(e, s.len() as int))
    }
}

#[via_fn]
proof fn ws_tokens_dec(s: Seq<char>) {
    if s.len() > 0 && !is_ws(s[0]) {
        lemma_skip_while(s, 0, not_ws_pred());
        let e = skip_while(s, 0, not_ws_pred());
        if e == 0 {
            assert(!not_ws_pred()(s[0]));
        }
    }
}

/// `str::lines`, verified against [`split_lines`].
pub fn split_lines_exec(s: &str) -> (r: Vec<String>)
    ensures
        r.deep_view() == split_lines(s@),
{
    let n = s.unicode_len();
    let mut out: Vec<String> = Vec::new();
    let mut pos: usize = 0;
    proof {
        assert(out.deep_view() =~= Seq::<Seq<char>>::empty());
        assert(s@.subrange(0, n as int) =~= s@);
        assert(out.deep_view() + split_lines(s@) =~= split_lines(s@));
    }
    while pos < n
        invariant
            n == s@.len(),
            pos <= n,
            split_lines(s@) == out.deep_view() + split_lines(s@.subrange(pos as int, n as int)),
        decreases n - pos,
    {
        let ghost rs = s@.subrange(pos as int, n as int);
        let ghost prev_deep = out.deep_view();
        let e = find_char_exec(s, pos, n, '\n');
        let line_end: usize = if e < n && e > pos && s.get_char(e - 1) == '\r' {
            e - 1
        } else {
            e
        };
        let line = s.substring_char(pos, line_end);
        out.push(String::from_str(line));
        let newpos: usize = if e < n {
            e + 1
        } else {
            n
        };
        proof {
            lemma_find_char(s@, pos as int, '\n');
            lemma_find_char(rs, 0, '\n');
            let er = find_char(rs, 0, '\n');
            assert(er == e - pos) by {
                if er < e - pos {
                    assert(rs[er] == '\n');
                    assert(s@[pos + er] == '\n');
                }
                if er > e - pos {
                    assert(rs[e - pos] == '\n');
                }
            }
            let spec_line = if er < rs.len() && er > 0 && rs[er - 1] == '\r' {
                rs.subrange(0, er - 1)
            } else {
                rs.subrange(0, er)
            };
            assert(line@ =~= spec_line);
            assert(out.deep_view() =~= prev_deep.push(line@));
            if e < n {
                assert(rs.subrange(er + 1, rs.len() as int) =~= s@.subrange(
                    newpos as int,
                    n as int,
                ));
                assert(split_lines(rs) == seq![spec_line] + split_lines(
                    s@.subrange(newpos as int, n as int),
                ));
                assert(prev_deep + split_lines(rs) =~= out.deep_view() + split_lines(
                    s@.subrange(newpos as int, n as int),
                ));
            } else {
                assert(split_lines(rs) == seq![spec_line]);
                assert(s@.subrange(newpos as int, n as int).len() == 0);
                assert(split_lines(s@.subrange(newpos as int, n as int)) =~= Seq::<
                    Seq<char>,
                >::empty());
                assert(prev_deep + split_lines(rs) =~= out.deep_view() + split_lines(
                    s@.subrange(newpos as int, n as int),
                ));
            }
        }
        pos = newpos;
    }
    proof {
        assert(s@.subrange(pos as int, n as int).len() == 0);
        assert(split_lines(s@.subrange(pos as int, n as int)) =~= Seq::<Seq<char>>::empty());
        assert(out.deep_view() =~= split_lines(s@));
    }
    out
}

/// First index at or after `from` whose character is ASCII whitespace (or
/// is not, when `ws` is false).
fn scan_pred(s: &str, from: usize, n: usize, ws: bool) -> (r: usize)
    requires
        n == s@.len(),
        from <= n,
    ensures
        r == skip_while(s@, from as int, if ws { not_ws_pred() } else { ws_pred() }),
        from <= r <= n,
{
    let ghost p = if ws {
        not_ws_pred()
    } else {
        ws_pred()
    };
    proof {
        lemma_skip_while(s@, from as int, p);
    }
    let mut i: usize = from;
    while i < n
        invariant
            n == s@.len(),
            from <= i <= n,
            p == (if ws { not_ws_pred() } else { ws_pred() }),
            forall|j: int| from <= j < i ==> p(s@[j]),
        ensures
            from <= i <= n,
            forall|j: int| from <= j < i ==> p(s@[j]),
            i < n ==> !p(s@[i as int]),
        decreases n - i,
    {
        let c = s.get_char(i);
        let white: bool = c == ' ' || c == '\t' || c == '\n' || c == '\r';
        let keep: bool = if ws {
            !white
        } else {
            white
        };
        proof {
            assert(keep == p(s@[i as int]));
        }
        if !keep {
            break;
        }
        i += 1;
    }
    proof {
        lemma_skip_while(s@, from as int, p);
        let r = skip_while(s@, from as int, p);
        if r < i {
            assert(p(s@[r]));
        }
        if r > i {
            assert(p(s@[i as int]));
        }
    }
    i
}

/// `str::split_whitespace`, verified against [`ws_tokens`].
pub fn ws_tokens_exec(s: &str) -> (r: Vec<String>)
    ensures
        r.deep_view() == ws_tokens(s@),
{
    let n = s.unicode_len();
    let mut out: Vec<String> = Vec::new();
    let mut pos: usize = 0;
    proof {
        assert(out.deep_view() =~= Seq::<Seq<char>>::empty());
        assert(s@.subrange(0, n as int) =~= s@);
        assert(out.deep_view() + ws_tokens(s@) =~= ws_tokens(s@));
    }
    while pos < n
        invariant
            n == s@.len(),
            pos <= n,
            ws_tokens(s@) == out.deep_view() + ws_tokens(s@.subrange(pos as int, n as int)),
        decreases n - pos,
    {
        let ghost rs = s@.subrange(pos as int, n as int);
        let c = s.get_char(pos);
        if c == ' ' || c == '\t' || c == '\n' || c == '\r' {
            proof {
                assert(rs.drop_first() =~= s@.subrange(pos + 1, n as int));
                assert(ws_tokens(rs) == ws_tokens(s@.subrange(pos + 1, n as int)));
            }
            pos += 1;
        } else {
            let ghost prev_deep = out.deep_view();
            let e = scan_pred(s, pos, n, true);
            let token = s.substring_char(pos, e);
            out.push(String::from_str(token));
            proof {
                lemma_skip_while(s@, pos as int, not_ws_pred());
                lemma_skip_while(rs, 0, not_ws_pred());
                let er = skip_while(rs, 0, not_ws_pred());
                assert(er == e - pos) by {
                    if er < e - pos {
                        assert(!not_ws_pred()(rs[er]));
                        assert(not_ws_pred()(s@[pos + er]));
                    }
                    if er > e - pos {
                        if e < n {
                            assert(not_ws_pred()(rs[e - pos]));
                            assert(!not_ws_pred()(s@[e as int]));
                        }
                    }
                }
                assert(token@ =~= rs.subrange(0, er));
                assert(rs.subrange(er, rs.len() as int) =~= s@.subrange(e as int, n as int));
                assert(ws_tokens(rs) == seq![token@] + ws_tokens(s@.subrange(e as int, n as int)));
                assert(out.deep_view() =~= prev_deep.push(token@));
                assert(prev_deep + ws_tokens(rs) =~= out.deep_view() + ws_tokens(
                    s@.subrange(e as int, n as int),
                ));
            }
            pos = e;
        }
    }
    proof {
        assert(s@.subrange(pos as int, n as int).len() == 0);
        assert(ws_tokens(s@.subrange(pos as int, n as int)) =~= Seq::<Seq<char>>::empty());
        assert(out.deep_view() =~= ws_tokens(s@));
    }
    out
}

/// `pat` occurs as a contiguous run somewhere in `s`.
pub open spec fn contains_seq(s: Seq<char>, pat: Seq<char>) -> bool {
    exists|i: int|
        0 <= i && i + pat.len() <= s.len() && #[trigger] s.subrange(i, i + pat.len() as int)
            == pat
}

/// The window of `s` at `at` equals `pat`.
fn window_eq(s: &str, at: usize, pat: &str, n: usize, m: usize) -> (r: bool)
    requires
        n == s@.len(),
        m == pat@.len(),
        at + m <= n,
    ensures
        r == (s@.subrange(at as int, at + m) == pat@),
{
    let mut j: usize = 0;
    while j < m
        invariant
            n == s@.len(),
            m == pat@.len(),
            at + m <= n,
            j <= m,
            forall|k: int| 0 <= k < j ==> s@[at + k] == pat@[k],
        decreases m - j,
    {
        if s.get_char(at + j) != pat.get_char(j) {
            proof {
                assert(s@.subrange(at as int, at + m)[j as int] == s@[at + j]);
            }
            return false;
        }
        j += 1;
    }
    proof {
        assert(s@.subrange(at as int, at + m) =~= pat@);
    }
    true
}

/// `str::contains`, verified against [`contains_seq`].
pub fn contains_exec(s: &str, pat: &str) -> (r: bool)
    ensures
        r == contains_seq(s@, pat@),
{
    let n = s.unicode_len();
    let m = pat.unicode_len();
    if m > n {
        return false;
    }
    let lim = n - m;
    let mut i: usize = 0;
    loop
        invariant
            n == s@.len(),
            m == pat@.len(),
            m <= n,
            lim == n - m,
            i <= lim,
            forall|k: int| 0 <= k < i ==> #[trigger] s@.subrange(k, k + m as int) != pat@,
        ensures
            forall|k: int| 0 <= k <= lim ==> #[trigger] s@.subrange(k, k + m as int) != pat@,
        decreases lim - i,
    {
        if window_eq(s, i, pat, n, m) {
            return true;
        }
        if i == lim {
            break;
        }
        i += 1;
    }
    false
}

/// Relies on `core::str::from_utf8`: succeeds exactly on valid UTF-8 and
/// yields its decoding.
#[verifier::external_body]
pub fn utf8_to_str<'a>(v: &'a [u8]) -> (r: Option<&'a str>)
    ensures
        r matches Some(s) ==> vstd::utf8::valid_utf8(v@) && s@ == vstd::utf8::decode_utf8(v@),
        r is None ==> !vstd::utf8::valid_utf8(v@),
{
    core::str::from_utf8(v).ok()
}

} // verus!

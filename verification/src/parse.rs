//! Hex-pattern parser.
//!
//! A pattern is a textual description of a byte sequence, given as raw bytes
//! of the text. Two notations are understood:
//!
//! 1. Escaped-hex notation: wherever the two-byte marker `\x` appears, the two
//!    following bytes are read as hex digits and contribute one output byte;
//!    bytes not part of such a token are ignored.
//! 2. Space-separated hex notation: after stripping an optional `b'...'` or
//!    `b"..."` wrapper, the text is split on runs of whitespace and each token
//!    is read as a one- or two-digit hex byte.
//!
//! Escaped-hex notation is tried first whenever the marker occurs in the
//! trimmed input; if it yields no bytes, the space-separated notation is used.

use vstd::prelude::*;

verus! {

/// ASCII whitespace: space, tab, line feed, vertical tab, form feed,
/// carriage return.
pub open spec fn is_space(b: u8) -> bool {
    b == 32 || b == 9 || b == 10 || b == 11 || b == 12 || b == 13
}

/// ASCII hex digit: `0`-`9`, `A`-`F` or `a`-`f`.
pub open spec fn is_hex_digit(b: u8) -> bool {
    (48 <= b && b <= 57) || (65 <= b && b <= 70) || (97 <= b && b <= 102)
}

/// Numeric value of a hex digit.
pub open spec fn hex_val(b: u8) -> u8 {
    if 48 <= b && b <= 57 {
        (b - 48) as u8
    } else if 65 <= b && b <= 70 {
        (b - 55) as u8
    } else {
        (b - 87) as u8
    }
}

/// Decodes one hex digit, or reports that the byte is not one.
fn hex_digit_value(b: u8) -> (r: Option<u8>)
    ensures
        r is Some <==> is_hex_digit(b),
        r matches Some(v) ==> v == hex_val(b) && v < 16,
{
    if 48 <= b && b <= 57 {
        Some(b - 48)
    } else if 65 <= b && b <= 70 {
        Some(b - 55)
    } else if 97 <= b && b <= 102 {
        Some(b - 87)
    } else {
        None
    }
}

/// Why a pattern failed to parse. Each variant carries the offending
/// fragment of the input.
#[derive(Debug, PartialEq, Eq)]
pub enum ParseError {
    /// A `\x` marker with fewer than two bytes after it.
    TruncatedEscape,
    /// A `\x` marker followed by two bytes that are not both hex digits.
    InvalidEscape { first: u8, second: u8 },
    /// A whitespace-separated token that is not one or two hex digits.
    InvalidToken { token: Vec<u8> },
}

/// Mathematical image of [`ParseError`]: the same variants over `Seq`.
pub enum ParseErrorModel {
    TruncatedEscape,
    InvalidEscape { first: u8, second: u8 },
    InvalidToken { token: Seq<u8> },
}

impl View for ParseError {
    type V = ParseErrorModel;

    open spec fn view(&self) -> ParseErrorModel {
        match self {
            ParseError::TruncatedEscape => ParseErrorModel::TruncatedEscape,
            ParseError::InvalidEscape { first, second } => ParseErrorModel::InvalidEscape {
                first: *first,
                second: *second,
            },
            ParseError::InvalidToken { token } => ParseErrorModel::InvalidToken { token: token@ },
        }
    }
}

/// The input without its leading whitespace.
pub open spec fn trim_front(s: Seq<u8>) -> Seq<u8>
    decreases s.len(),
{
    if s.len() > 0 && is_space(s[0]) {
        trim_front(s.skip(1))
    } else {
        s
    }
}

/// The input without its trailing whitespace.
pub open spec fn trim_back(s: Seq<u8>) -> Seq<u8>
    decreases s.len(),
{
    if s.len() > 0 && is_space(s.last()) {
        trim_back(s.drop_last())
    } else {
        s
    }
}

/// The input without leading and trailing whitespace.
pub open spec fn trimmed(s: Seq<u8>) -> Seq<u8> {
    trim_back(trim_front(s))
}

proof fn lemma_trim_front_skip(s: Seq<u8>, i: int)
    requires
        0 <= i <= s.len(),
        forall|j: int| 0 <= j < i ==> is_space(s[j]),
        i == s.len() || !is_space(s[i]),
    ensures
        trim_front(s) == s.skip(i),
    decreases i,
{
    if i == 0 {
        assert(s.skip(0) =~= s);
    } else {
        lemma_trim_front_skip(s.skip(1), i - 1);
        assert(s.skip(1).skip(i - 1) =~= s.skip(i));
    }
}

proof fn lemma_trim_back_take(s: Seq<u8>, i: int)
    requires
        0 <= i <= s.len(),
        forall|j: int| i <= j < s.len() ==> is_space(s[j]),
        i == 0 || !is_space(s[i - 1]),
    ensures
        trim_back(s) == s.take(i),
    decreases s.len(),
{
    if i == s.len() {
        assert(s.take(i) =~= s);
    } else {
        lemma_trim_back_take(s.drop_last(), i);
        assert(s.drop_last().take(i) =~= s.take(i));
    }
}

/// Start and end of the trimmed region of `s`: `s[lo..hi]` is `s` without its
/// leading and trailing whitespace.
fn trim_bounds(s: &[u8]) -> (r: (usize, usize))
    ensures
        r.0 <= r.1 <= s@.len(),
        s@.subrange(r.0 as int, r.1 as int) == trimmed(s@),
{
    let n = s.len();
    let mut lo: usize = 0;
    while lo < n && is_space_byte(s[lo])
        invariant
            lo <= n,
            n == s@.len(),
            forall|j: int| 0 <= j < lo ==> is_space(s@[j]),
        decreases n - lo,
    {
        lo += 1;
    }
    let mut hi: usize = n;
    while hi > lo && is_space_byte(s[hi - 1])
        invariant
            lo <= hi <= n,
            n == s@.len(),
            forall|j: int| 0 <= j < lo ==> is_space(s@[j]),
            forall|j: int| hi <= j < n ==> is_space(s@[j]),
        decreases hi,
    {
        hi -= 1;
    }
    proof {
        lemma_trim_front_skip(s@, lo as int);
        let t = s@.skip(lo as int);
        lemma_trim_back_take(t, hi - lo);
        assert(t.take(hi - lo) =~= s@.subrange(lo as int, hi as int));
    }
    (lo, hi)
}

/// Exec mirror of [`is_space`].
fn is_space_byte(b: u8) -> (r: bool)
    ensures
        r == is_space(b),
{
    b == 32 || b == 9 || b == 10 || b == 11 || b == 12 || b == 13
}

/// The escaped-hex marker `\x` occurs somewhere in the input.
pub open spec fn has_marker(s: Seq<u8>) -> bool {
    exists|i: int| 0 <= i && i + 1 < s.len() && #[trigger] s[i] == 92 && s[i + 1] == 120
}

/// Checks whether the escaped-hex marker `\x` occurs in the input.
fn contains_marker(s: &[u8]) -> (r: bool)
    ensures
        r == has_marker(s@),
{
    let n = s.len();
    if n < 2 {
        return false;
    }
    let mut i: usize = 0;
    while i < n - 1
        invariant
            i <= n - 1,
            n == s@.len(),
            n >= 2,
            forall|j: int| 0 <= j < i ==> !(#[trigger] s@[j] == 92 && s@[j + 1] == 120),
        decreases n - i,
    {
        if s[i] == 92 && s[i + 1] == 120 {
            return true;
        }
        i += 1;
    }
    false
}

/// Escaped-hex scan: walks the input left to right; each `\x` marker must be
/// followed by two hex digits, which contribute one byte; every byte not part
/// of such a token is skipped.
pub open spec fn escape_scan(s: Seq<u8>) -> Result<Seq<u8>, ParseErrorModel>
    decreases s.len(),
{
    if s.len() == 0 {
        Ok(Seq::empty())
    } else if s[0] == 92 && s.len() >= 2 && s[1] == 120 {
        if s.len() < 4 {
            Err(ParseErrorModel::TruncatedEscape)
        } else if is_hex_digit(s[2]) && is_hex_digit(s[3]) {
            match escape_scan(s.skip(4)) {
                Ok(rest) => Ok(seq![(hex_val(s[2]) * 16 + hex_val(s[3])) as u8] + rest),
                Err(e) => Err(e),
            }
        } else {
            Err(ParseErrorModel::InvalidEscape { first: s[2], second: s[3] })
        }
    } else {
        escape_scan(s.skip(1))
    }
}

/// Runs the escaped-hex scan over the input.
fn escape_scan_exec(s: &[u8]) -> (r: Result<Vec<u8>, ParseError>)
    ensures
        match r {
            Ok(v) => escape_scan(s@) == Ok::<Seq<u8>, ParseErrorModel>(v@),
            Err(e) => escape_scan(s@) == Err::<Seq<u8>, ParseErrorModel>(e@),
        },
{
    let n = s.len();
    let mut out: Vec<u8> = Vec::new();
    let mut i: usize = 0;
    proof {
        assert(s@.skip(0) =~= s@);
        if escape_scan(s@) is Ok {
            assert(Seq::<u8>::empty() + escape_scan(s@)->Ok_0 =~= escape_scan(s@)->Ok_0);
        }
    }
    while i < n
        invariant
            i <= n,
            n == s@.len(),
            match escape_scan(s@.skip(i as int)) {
                Ok(rest) => escape_scan(s@) == Ok::<Seq<u8>, ParseErrorModel>(out@ + rest),
                Err(e) => escape_scan(s@) == Err::<Seq<u8>, ParseErrorModel>(e),
            },
        decreases n - i,
    {
        let ghost u = s@.skip(i as int);
        if s[i] == 92 && i + 1 < n && s[i + 1] == 120 {
            if n - i < 4 {
                proof {
                    assert(u.len() < 4);
                    assert(u[0] == 92 && u.len() >= 2 && u[1] == 120);
                }
                return Err(ParseError::TruncatedEscape);
            }
            let h1 = s[i + 2];
            let h2 = s[i + 3];
            proof {
                assert(u[0] == 92 && u[1] == 120 && u[2] == h1 && u[3] == h2);
                assert(u.len() >= 4);
            }
            match (hex_digit_value(h1), hex_digit_value(h2)) {
                (Some(v1), Some(v2)) => {
                    let b = v1 * 16 + v2;
                    let ghost old_out = out@;
                    out.push(b);
                    i += 4;
                    proof {
                        assert(u.skip(4) =~= s@.skip(i as int));
                        assert(b == (hex_val(u[2]) * 16 + hex_val(u[3])) as u8);
                        assert(out@ =~= old_out + seq![b]);
                        match escape_scan(s@.skip(i as int)) {
                            Ok(rest2) => {
                                assert(escape_scan(u) == Ok::<Seq<u8>, ParseErrorModel>(
                                    seq![b] + rest2,
                                ));
                                assert(old_out + (seq![b] + rest2) =~= (old_out + seq![b])
                                    + rest2);
                            },
                            Err(_) => {},
                        }
                    }
                },
                _ => {
                    return Err(ParseError::InvalidEscape { first: h1, second: h2 });
                },
            }
        } else {
            proof {
                assert(u.len() >= 1);
                assert(!(u[0] == 92 && u.len() >= 2 && u[1] == 120));
                assert(u.skip(1) =~= s@.skip(i + 1));
            }
            i += 1;
        }
    }
    proof {
        assert(s@.skip(n as int) =~= Seq::<u8>::empty());
        assert(out@ + Seq::<u8>::empty() =~= out@);
    }
    Ok(out)
}

/// Length of the leading run of non-whitespace bytes.
pub open spec fn token_end(s: Seq<u8>) -> int
    decreases s.len(),
{
    if s.len() == 0 || is_space(s[0]) {
        0
    } else {
        1 + token_end(s.skip(1))
    }
}

proof fn lemma_token_end_bounds(s: Seq<u8>)
    ensures
        0 <= token_end(s) <= s.len(),
    decreases s.len(),
{
    if s.len() > 0 && !is_space(s[0]) {
        lemma_token_end_bounds(s.skip(1));
    }
}

proof fn lemma_token_end_run(s: Seq<u8>, k: int)
    requires
        0 <= k <= s.len(),
        forall|j: int| 0 <= j < k ==> !is_space(s[j]),
        k == s.len() || is_space(s[k]),
    ensures
        token_end(s) == k,
    decreases k,
{
    if k > 0 {
        lemma_token_end_run(s.skip(1), k - 1);
    }
}

/// A token of the space-separated notation: one or two hex digits.
pub open spec fn is_valid_token(t: Seq<u8>) -> bool {
    ||| (t.len() == 1 && is_hex_digit(t[0]))
    ||| (t.len() == 2 && is_hex_digit(t[0]) && is_hex_digit(t[1]))
}

/// Byte value of a valid token.
pub open spec fn token_value(t: Seq<u8>) -> u8 {
    if t.len() == 1 {
        hex_val(t[0])
    } else {
        (hex_val(t[0]) * 16 + hex_val(t[1])) as u8
    }
}

/// Space-separated scan: splits the input on runs of whitespace and reads
/// each token as a one- or two-digit hex byte.
pub open spec fn token_scan(s: Seq<u8>) -> Result<Seq<u8>, ParseErrorModel>
    decreases s.len(),
        via token_scan_decreases
{
    if s.len() == 0 {
        Ok(Seq::empty())
    } else if is_space(s[0]) {
        token_scan(s.skip(1))
    } else {
        let tok = s.take(token_end(s));
        if is_valid_token(tok) {
            match token_scan(s.skip(token_end(s))) {
                Ok(rest) => Ok(seq![token_value(tok)] + rest),
                Err(e) => Err(e),
            }
        } else {
            Err(ParseErrorModel::InvalidToken { token: tok })
        }
    }
}

#[via_fn]
proof fn token_scan_decreases(s: Seq<u8>) {
    if s.len() > 0 && !is_space(s[0]) {
        lemma_token_end_bounds(s);
    }
}

/// The input without an enclosing `b'...'` or `b"..."` wrapper, if one is
/// present.
pub open spec fn strip_wrapper(s: Seq<u8>) -> Seq<u8> {
    if s.len() >= 3 && s[0] == 98 && ((s[1] == 39 && s.last() == 39) || (s[1] == 34
        && s.last() == 34)) {
        s.subrange(2, s.len() - 1)
    } else {
        s
    }
}

/// Runs the space-separated scan over the input.
fn token_scan_exec(s: &[u8]) -> (r: Result<Vec<u8>, ParseError>)
    ensures
        match r {
            Ok(v) => token_scan(s@) == Ok::<Seq<u8>, ParseErrorModel>(v@),
            Err(e) => token_scan(s@) == Err::<Seq<u8>, ParseErrorModel>(e@),
        },
{
    let n = s.len();
    let mut out: Vec<u8> = Vec::new();
    let mut i: usize = 0;
    proof {
        assert(s@.skip(0) =~= s@);
        if token_scan(s@) is Ok {
            assert(Seq::<u8>::empty() + token_scan(s@)->Ok_0 =~= token_scan(s@)->Ok_0);
        }
    }
    while i < n
        invariant
            i <= n,
            n == s@.len(),
            match token_scan(s@.skip(i as int)) {
                Ok(rest) => token_scan(s@) == Ok::<Seq<u8>, ParseErrorModel>(out@ + rest),
                Err(e) => token_scan(s@) == Err::<Seq<u8>, ParseErrorModel>(e),
            },
        decreases n - i,
    {
        let ghost u = s@.skip(i as int);
        if is_space_byte(s[i]) {
            proof {
                assert(u.skip(1) =~= s@.skip(i + 1));
            }
            i += 1;
        } else {
            let mut j = i + 1;
            while j < n && !is_space_byte(s[j])
                invariant
                    i < j <= n,
                    n == s@.len(),
                    !is_space(s@[i as int]),
                    forall|k: int| i < k < j ==> !is_space(s@[k]),
                decreases n - j,
            {
                j += 1;
            }
            proof {
                assert forall|m: int| 0 <= m < j - i implies !is_space(u[m]) by {
                    assert(u[m] == s@[i + m]);
                }
                lemma_token_end_run(u, j - i);
                assert(u.take(j - i) =~= s@.subrange(i as int, j as int));
                assert(u.skip(j - i) =~= s@.skip(j as int));
            }
            let tok_len = j - i;
            let b: u8;
            if tok_len == 1 {
                match hex_digit_value(s[i]) {
                    Some(v) => {
                        b = v;
                    },
                    None => {
                        return Err(ParseError::InvalidToken {
                            token: vstd::slice::slice_to_vec(vstd::slice::slice_subrange(s, i, j)),
                        });
                    },
                }
            } else if tok_len == 2 {
                match (hex_digit_value(s[i]), hex_digit_value(s[i + 1])) {
                    (Some(v1), Some(v2)) => {
                        b = v1 * 16 + v2;
                    },
                    _ => {
                        return Err(ParseError::InvalidToken {
                            token: vstd::slice::slice_to_vec(vstd::slice::slice_subrange(s, i, j)),
                        });
                    },
                }
            } else {
                return Err(ParseError::InvalidToken {
                    token: vstd::slice::slice_to_vec(vstd::slice::slice_subrange(s, i, j)),
                });
            }
            let ghost old_out = out@;
            out.push(b);
            i = j;
            proof {
                assert(b == token_value(u.take(token_end(u))));
                assert(out@ =~= old_out + seq![b]);
                match token_scan(s@.skip(i as int)) {
                    Ok(rest2) => {
                        assert(token_scan(u) == Ok::<Seq<u8>, ParseErrorModel>(seq![b] + rest2));
                        assert(old_out + (seq![b] + rest2) =~= (old_out + seq![b]) + rest2);
                    },
                    Err(_) => {},
                }
            }
        }
    }
    proof {
        assert(s@.skip(n as int) =~= Seq::<u8>::empty());
        assert(out@ + Seq::<u8>::empty() =~= out@);
    }
    Ok(out)
}

/// What parsing a pattern yields: the trimmed input is scanned in escaped-hex
/// notation when the `\x` marker occurs in it and that scan yields at least
/// one byte; otherwise the wrapper is stripped and the space-separated
/// notation is used.
pub open spec fn spec_parse_pattern(s: Seq<u8>) -> Result<Seq<u8>, ParseErrorModel> {
    let t = trimmed(s);
    if has_marker(t) {
        match escape_scan(t) {
            Ok(bs) => if bs.len() > 0 {
                Ok(bs)
            } else {
                token_scan(strip_wrapper(t))
            },
            Err(e) => Err(e),
        }
    } else {
        token_scan(strip_wrapper(t))
    }
}

/// Parses a textual byte pattern into the byte sequence it denotes.
///
/// The result is exactly [`spec_parse_pattern`] of the input.
pub fn parse_hex_pattern(input: &[u8]) -> (r: Result<Vec<u8>, ParseError>)
    ensures
        match r {
            Ok(v) => spec_parse_pattern(input@) == Ok::<Seq<u8>, ParseErrorModel>(v@),
            Err(e) => spec_parse_pattern(input@) == Err::<Seq<u8>, ParseErrorModel>(e@),
        },
{
    let (lo, hi) = trim_bounds(input);
    let t = vstd::slice::slice_subrange(input, lo, hi);
    if contains_marker(t) {
        match escape_scan_exec(t) {
            Ok(v) => {
                if v.len() > 0 {
                    return Ok(v);
                }
            },
            Err(e) => {
                return Err(e);
            },
        }
    }
    let n = t.len();
    let core: &[u8] = if n >= 3 && t[0] == 98 && ((t[1] == 39 && t[n - 1] == 39) || (t[1] == 34
        && t[n - 1] == 34)) {
        vstd::slice::slice_subrange(t, 2, n - 1)
    } else {
        proof {
            assert(strip_wrapper(t@) =~= t@);
        }
        t
    };
    token_scan_exec(core)
}

/// Uppercase hex digit for a value below 16.
pub open spec fn upper_hex_digit(v: u8) -> u8 {
    if v < 10 {
        (48 + v) as u8
    } else {
        (55 + v) as u8
    }
}

/// The two uppercase hex digits of a byte.
pub open spec fn byte_hex(b: u8) -> Seq<u8> {
    seq![upper_hex_digit(b / 16), upper_hex_digit(b % 16)]
}

/// A byte sequence written as space-separated uppercase hex: two digits per
/// byte, one space between consecutive bytes.
pub open spec fn spec_format_hex(bs: Seq<u8>) -> Seq<u8>
    decreases bs.len(),
{
    if bs.len() == 0 {
        Seq::empty()
    } else if bs.len() == 1 {
        byte_hex(bs[0])
    } else {
        byte_hex(bs[0]) + seq![32u8] + spec_format_hex(bs.skip(1))
    }
}

proof fn lemma_format_split(s: Seq<u8>, i: int)
    requires
        0 < i < s.len(),
    ensures
        spec_format_hex(s) == spec_format_hex(s.take(i)) + seq![32u8] + spec_format_hex(s.skip(i)),
    decreases i,
{
    if i == 1 {
        assert(s.take(1) =~= seq![s[0]]);
        assert(spec_format_hex(s.take(1)) == byte_hex(s[0]));
    } else {
        lemma_format_split(s.skip(1), i - 1);
        assert(s.skip(1).take(i - 1) =~= s.take(i).skip(1));
        assert(s.skip(1).skip(i - 1) =~= s.skip(i));
        assert(s.take(i).len() == i);
        assert(s.take(i)[0] == s[0]);
        assert(spec_format_hex(s.take(i)) == byte_hex(s[0]) + seq![32u8] + spec_format_hex(
            s.take(i).skip(1),
        ));
        assert(byte_hex(s[0]) + seq![32u8] + (spec_format_hex(s.skip(1).take(i - 1)) + seq![32u8]
            + spec_format_hex(s.skip(1).skip(i - 1))) =~= (byte_hex(s[0]) + seq![32u8]
            + spec_format_hex(s.take(i).skip(1))) + seq![32u8] + spec_format_hex(s.skip(i)));
    }
}

/// Exec mirror of [`upper_hex_digit`].
fn upper_hex_digit_exec(v: u8) -> (r: u8)
    requires
        v < 16,
    ensures
        r == upper_hex_digit(v),
{
    if v < 10 {
        48 + v
    } else {
        55 + v
    }
}

/// Formats a byte sequence as space-separated uppercase hex.
///
/// The result is exactly [`spec_format_hex`] of the input, a text that
/// [`parse_hex_pattern`] maps back to the input (see
/// [`lemma_parse_format_round_trip`]).
pub fn format_hex(bytes: &[u8]) -> (r: Vec<u8>)
    ensures
        r@ == spec_format_hex(bytes@),
{
    let n = bytes.len();
    let mut r: Vec<u8> = Vec::new();
    let mut i: usize = 0;
    proof {
        assert(bytes@.take(0) =~= Seq::<u8>::empty());
    }
    while i < n
        invariant
            i <= n,
            n == bytes@.len(),
            r@ == spec_format_hex(bytes@.take(i as int)),
        decreases n - i,
    {
        let ghost old_r = r@;
        if i > 0 {
            r.push(32);
        }
        let b = bytes[i];
        r.push(upper_hex_digit_exec(b / 16));
        r.push(upper_hex_digit_exec(b % 16));
        proof {
            let pre = bytes@.take(i as int);
            let cur = bytes@.take(i + 1);
            assert(cur.take(i as int) =~= pre);
            assert(cur[i as int] == bytes@[i as int]);
            if i == 0 {
                assert(cur =~= seq![bytes@[0]]);
                assert(r@ =~= byte_hex(bytes@[0]));
            } else {
                lemma_format_split(cur, i as int);
                assert(cur.skip(i as int) =~= seq![bytes@[i as int]]);
                assert(spec_format_hex(cur.skip(i as int)) == byte_hex(bytes@[i as int]));
                assert(r@ =~= old_r + seq![32u8] + byte_hex(bytes@[i as int]));
            }
        }
        i += 1;
    }
    proof {
        assert(bytes@.take(n as int) =~= bytes@);
    }
    r
}

proof fn lemma_format_shape(bs: Seq<u8>)
    ensures
        bs.len() == 0 ==> spec_format_hex(bs).len() == 0,
        bs.len() > 0 ==> spec_format_hex(bs).len() == 3 * bs.len() - 1,
        forall|i: int|
            0 <= i < spec_format_hex(bs).len() ==> ((48 <= #[trigger] spec_format_hex(bs)[i]
                && spec_format_hex(bs)[i] <= 57) || (65 <= spec_format_hex(bs)[i]
                && spec_format_hex(bs)[i] <= 70) || spec_format_hex(bs)[i] == 32),
        bs.len() > 0 ==> is_hex_digit(spec_format_hex(bs)[0]) && is_hex_digit(
            spec_format_hex(bs).last(),
        ),
    decreases bs.len(),
{
    if bs.len() >= 2 {
        lemma_format_shape(bs.skip(1));
        let f = spec_format_hex(bs);
        let rest = spec_format_hex(bs.skip(1));
        assert forall|i: int|
            0 <= i < f.len() implies ((48 <= #[trigger] f[i] && f[i] <= 57) || (65 <= f[i]
            && f[i] <= 70) || f[i] == 32) by {
            if i >= 3 {
                assert(f[i] == rest[i - 3]);
            }
        }
        assert(f.last() == rest.last());
    }
}

proof fn lemma_token_scan_format(bs: Seq<u8>)
    ensures
        token_scan(spec_format_hex(bs)) == Ok::<Seq<u8>, ParseErrorModel>(bs),
    decreases bs.len(),
{
    let f = spec_format_hex(bs);
    if bs.len() == 0 {
        assert(bs =~= Seq::<u8>::empty());
    } else {
        let b = bs[0];
        vstd::arithmetic::div_mod::lemma_fundamental_div_mod(b as int, 16);
        assert(hex_val(upper_hex_digit(b / 16)) == b / 16);
        assert(hex_val(upper_hex_digit(b % 16)) == b % 16);
        if bs.len() == 1 {
            lemma_token_end_run(f, 2);
            assert(f.take(2) =~= f);
            assert(token_value(f) == b);
            assert(f.skip(2) =~= Seq::<u8>::empty());
            assert(seq![b] + Seq::<u8>::empty() =~= bs);
        } else {
            let rest = spec_format_hex(bs.skip(1));
            lemma_format_shape(bs.skip(1));
            assert(f[2] == 32);
            lemma_token_end_run(f, 2);
            let tok = f.take(2);
            assert(tok =~= byte_hex(b));
            assert(token_value(tok) == b);
            assert(f.skip(2) =~= seq![32u8] + rest);
            assert((seq![32u8] + rest).skip(1) =~= rest);
            lemma_token_scan_format(bs.skip(1));
            assert(token_scan(f.skip(2)) == Ok::<Seq<u8>, ParseErrorModel>(bs.skip(1)));
            assert(seq![b] + bs.skip(1) =~= bs);
        }
    }
}

/// Round trip: writing any byte sequence as space-separated uppercase hex and
/// parsing the text back yields the sequence unchanged.
pub proof fn lemma_parse_format_round_trip(bs: Seq<u8>)
    ensures
        spec_parse_pattern(spec_format_hex(bs)) == Ok::<Seq<u8>, ParseErrorModel>(bs),
{
    let f = spec_format_hex(bs);
    lemma_format_shape(bs);
    assert(trim_front(f) == f);
    assert(trim_back(f) == f);
    assert(!has_marker(f)) by {
        if has_marker(f) {
            let i = choose|i: int|
                0 <= i && i + 1 < f.len() && #[trigger] f[i] == 92 && f[i + 1] == 120;
            assert(false);
        }
    }
    assert(strip_wrapper(f) == f);
    lemma_token_scan_format(bs);
}

} // verus!

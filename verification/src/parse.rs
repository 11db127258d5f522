//! Recursive-descent parser: consumes a token sequence through an explicit
//! cursor and builds a nested [`Value`] tree, or reports the first structural
//! fault with a specific diagnosis.
//!
//! The parser is specified by [`spec_parse`], a recursive mathematical
//! description of the grammar (value, array, object member); [`parse`] and
//! [`parse_token`] are proved to return exactly what that description says.
//! Duplicate object keys are resolved last-wins ([`spec_obj_insert`]).

use vstd::prelude::*;

use crate::tokenize::{seq_tokens, SpecToken, Token};
use crate::{spec_members_view, spec_values_view, SpecValue, Value};
use crate::{lemma_members_view, lemma_values_view};
use crate::push_char;

verus! {

/// The deepest container nesting the parser accepts before it reports
/// `DepthExceeded` instead of recursing further.
pub const MAX_DEPTH: usize = 64;

/// Everything that can go wrong while parsing, a closed set so that callers
/// can pattern-match. Positions are cursor values into the token sequence;
/// offending tokens are carried along.
#[derive(Debug, PartialEq)]
pub enum TokenParseError {
    /// The wrong kind of token stood at a grammar position.
    UnexpectedToken(Token, usize),
    /// The token sequence ended where a production needed more.
    UnexpectedEndOfInput,
    /// An object member key was not a string token.
    MalformedKey(Token, usize),
    /// A string literal held an invalid or incomplete escape sequence; the
    /// raw literal is carried.
    StringDecodeError(String),
    /// The nesting went past [`MAX_DEPTH`].
    DepthExceeded,
    /// Tokens remained after the top-level value; the cursor position is
    /// carried.
    TrailingData(usize),
}

/// Mathematical model of a [`TokenParseError`].
pub enum SpecParseError {
    UnexpectedToken(SpecToken, int),
    UnexpectedEndOfInput,
    MalformedKey(SpecToken, int),
    StringDecodeError(Seq<char>),
    DepthExceeded,
    TrailingData(int),
}

impl View for TokenParseError {
    type V = SpecParseError;

    open spec fn view(&self) -> SpecParseError {
        match self {
            TokenParseError::UnexpectedToken(t, p) => SpecParseError::UnexpectedToken(
                t@,
                *p as int,
            ),
            TokenParseError::UnexpectedEndOfInput => SpecParseError::UnexpectedEndOfInput,
            TokenParseError::MalformedKey(t, p) => SpecParseError::MalformedKey(t@, *p as int),
            TokenParseError::StringDecodeError(s) => SpecParseError::StringDecodeError(s@),
            TokenParseError::DepthExceeded => SpecParseError::DepthExceeded,
            TokenParseError::TrailingData(p) => SpecParseError::TrailingData(*p as int),
        }
    }
}

// ---------------------------------------------------------------------------
// Escape resolution
// ---------------------------------------------------------------------------

/// Hexadecimal digit.
pub open spec fn spec_is_hex(c: char) -> bool {
    ('0' <= c && c <= '9') || ('a' <= c && c <= 'f') || ('A' <= c && c <= 'F')
}

/// The value of a hexadecimal digit.
pub open spec fn spec_hex_val(c: char) -> int {
    if '0' <= c && c <= '9' {
        c as int - '0' as int
    } else if 'a' <= c && c <= 'f' {
        10 + c as int - 'a' as int
    } else {
        10 + c as int - 'A' as int
    }
}

/// The character a single-character escape resolves to: the self-escapes
/// `\"` `\\` `\/` and the named controls `\n` `\t` `\r` `\b` `\f`.
pub open spec fn spec_esc_char(c: char) -> Option<char> {
    if c == '"' {
        Some('"')
    } else if c == '\\' {
        Some('\\')
    } else if c == '/' {
        Some('/')
    } else if c == 'n' {
        Some('\n')
    } else if c == 't' {
        Some('\t')
    } else if c == 'r' {
        Some('\r')
    } else if c == 'b' {
        Some('\u{0008}')
    } else if c == 'f' {
        Some('\u{000c}')
    } else {
        None
    }
}

/// The code of the four hex digits starting at `j`.
pub open spec fn spec_hex4(s: Seq<char>, j: int) -> int {
    spec_hex_val(s[j]) * 4096 + spec_hex_val(s[j + 1]) * 256 + spec_hex_val(s[j + 2]) * 16
        + spec_hex_val(s[j + 3])
}

/// A Unicode scalar value: a code a `char` can hold (no surrogates).
pub open spec fn spec_is_scalar(u: int) -> bool {
    (0 <= u < 0xD800) || (0xDFFF < u <= 0x10FFFF)
}

/// Escape resolution over the raw literal body from position `i` on:
/// `None` when an escape is incomplete or names an unrecognized character,
/// or a `\u` escape does not denote a Unicode scalar value.
pub open spec fn spec_unescape_from(s: Seq<char>, i: int) -> Option<Seq<char>>
    decreases s.len() - i,
{
    if !(0 <= i <= s.len()) {
        None
    } else if i == s.len() {
        Some(Seq::empty())
    } else if s[i] == '\\' {
        if i + 1 >= s.len() {
            None
        } else {
            let c = s[i + 1];
            if c == 'u' {
                if i + 6 > s.len() {
                    None
                } else if spec_is_hex(s[i + 2]) && spec_is_hex(s[i + 3]) && spec_is_hex(s[i + 4])
                    && spec_is_hex(s[i + 5]) {
                    let code = spec_hex4(s, i + 2);
                    if spec_is_scalar(code) {
                        match spec_unescape_from(s, i + 6) {
                            Some(rest) => Some(seq![((code as u32) as char)] + rest),
                            None => None,
                        }
                    } else {
                        None
                    }
                } else {
                    None
                }
            } else {
                match spec_esc_char(c) {
                    Some(ec) => match spec_unescape_from(s, i + 2) {
                        Some(rest) => Some(seq![ec] + rest),
                        None => None,
                    },
                    None => None,
                }
            }
        }
    } else {
        match spec_unescape_from(s, i + 1) {
            Some(rest) => Some(seq![s[i]] + rest),
            None => None,
        }
    }
}

/// Escape resolution over a whole raw literal body.
pub open spec fn spec_unescape(s: Seq<char>) -> Option<Seq<char>> {
    spec_unescape_from(s, 0)
}

/// Relies on `char::from_u32`: `Some` exactly for Unicode scalar values
/// (codes up to 0x10FFFF outside the surrogate range 0xD800..=0xDFFF),
/// returning the character with that code.
#[verifier::external_body]
fn char_from_u32(u: u32) -> (r: Option<char>)
    ensures
        r is Some <==> spec_is_scalar(u as int),
        r matches Some(c) ==> c as u32 == u,
{
    char::from_u32(u)
}

fn hex_val(c: char) -> (r: Option<u32>)
    ensures
        r is Some <==> spec_is_hex(c),
        r matches Some(v) ==> v == spec_hex_val(c) && v < 16,
{
    if '0' <= c && c <= '9' {
        Some(c as u32 - '0' as u32)
    } else if 'a' <= c && c <= 'f' {
        Some(10 + c as u32 - 'a' as u32)
    } else if 'A' <= c && c <= 'F' {
        Some(10 + c as u32 - 'A' as u32)
    } else {
        None
    }
}

/// Resolves all escape sequences of a raw string-literal body, exactly as
/// [`spec_unescape`] describes.
fn unescape(input: &str) -> (r: Result<String, TokenParseError>)
    ensures
        match spec_unescape(input@) {
            Some(out) => r matches Ok(s) && s@ == out,
            None => r matches Err(e) && e@ == SpecParseError::StringDecodeError(input@),
        },
{
    let ghost s = input@;
    let n = input.unicode_len();
    let mut out = String::new();
    let mut i: usize = 0;
    while i < n
        invariant
            0 <= i <= n,
            n == s.len(),
            input@ == s,
            match spec_unescape_from(s, i as int) {
                Some(tail) => spec_unescape(s) matches Some(whole) && whole == out@ + tail,
                None => spec_unescape(s) is None,
            },
        decreases n - i,
    {
        let c = input.get_char(i);
        if c == '\\' {
            if i + 1 >= n {
                return Err(TokenParseError::StringDecodeError(input.to_owned()));
            }
            let c2 = input.get_char(i + 1);
            if c2 == 'u' {
                if n - i < 6 {
                    return Err(TokenParseError::StringDecodeError(input.to_owned()));
                }
                let h1 = hex_val(input.get_char(i + 2));
                let h2 = hex_val(input.get_char(i + 3));
                let h3 = hex_val(input.get_char(i + 4));
                let h4 = hex_val(input.get_char(i + 5));
                match (h1, h2, h3, h4) {
                    (Some(v1), Some(v2), Some(v3), Some(v4)) => {
                        let code: u32 = v1 * 4096 + v2 * 256 + v3 * 16 + v4;
                        proof {
                            assert(code as int == spec_hex4(s, i as int + 2));
                        }
                        match char_from_u32(code) {
                            Some(ch) => {
                                proof {
                                    vstd::utf8::char_u32_cast(ch, code);
                                    let tail0 = spec_unescape_from(s, i as int);
                                    let tail6 = spec_unescape_from(s, i as int + 6);
                                    if tail6 is Some {
                                        assert(out@ + (seq![ch] + tail6->0) =~= out@.push(ch)
                                            + tail6->0);
                                    }
                                }
                                push_char(&mut out, ch);
                                i = i + 6;
                            },
                            None => {
                                return Err(
                                    TokenParseError::StringDecodeError(input.to_owned()),
                                );
                            },
                        }
                    },
                    _ => {
                        return Err(TokenParseError::StringDecodeError(input.to_owned()));
                    },
                }
            } else {
                let resolved: Option<char> = if c2 == '"' {
                    Some('"')
                } else if c2 == '\\' {
                    Some('\\')
                } else if c2 == '/' {
                    Some('/')
                } else if c2 == 'n' {
                    Some('\n')
                } else if c2 == 't' {
                    Some('\t')
                } else if c2 == 'r' {
                    Some('\r')
                } else if c2 == 'b' {
                    Some('\u{0008}')
                } else if c2 == 'f' {
                    Some('\u{000c}')
                } else {
                    None
                };
                proof {
                    assert(resolved == spec_esc_char(c2));
                }
                match resolved {
                    Some(ec) => {
                        proof {
                            let tail2 = spec_unescape_from(s, i as int + 2);
                            if tail2 is Some {
                                assert(out@ + (seq![ec] + tail2->0) =~= out@.push(ec) + tail2->0);
                            }
                        }
                        push_char(&mut out, ec);
                        i = i + 2;
                    },
                    None => {
                        return Err(TokenParseError::StringDecodeError(input.to_owned()));
                    },
                }
            }
        } else {
            proof {
                let tail1 = spec_unescape_from(s, i as int + 1);
                if tail1 is Some {
                    assert(out@ + (seq![c] + tail1->0) =~= out@.push(c) + tail1->0);
                }
            }
            push_char(&mut out, c);
            i = i + 1;
        }
    }
    proof {
        assert(spec_unescape_from(s, i as int) == Some(Seq::<char>::empty()));
        assert(out@ + Seq::<char>::empty() =~= out@);
    }
    Ok(out)
}

/// Builds the string value of a string token: the raw literal body with all
/// escape sequences resolved.
pub fn parse_string(input: &str) -> (r: Result<Value, TokenParseError>)
    ensures
        match spec_unescape(input@) {
            Some(out) => r matches Ok(v) && v@ == SpecValue::String(out),
            None => r matches Err(e) && e@ == SpecParseError::StringDecodeError(input@),
        },
{
    match unescape(input) {
        Ok(s) => Ok(Value::String(s)),
        Err(e) => Err(e),
    }
}

// ---------------------------------------------------------------------------
// Objects: last-wins key insertion
// ---------------------------------------------------------------------------

/// The first index holding key `k`, or `m.len()` when no member does.
pub open spec fn spec_key_index(m: Seq<(Seq<char>, SpecValue)>, k: Seq<char>) -> int
    decreases m.len(),
{
    if m.len() == 0 {
        0
    } else if m[0].0 == k {
        0
    } else {
        1 + spec_key_index(m.drop_first(), k)
    }
}

pub proof fn lemma_key_index(m: Seq<(Seq<char>, SpecValue)>, k: Seq<char>)
    ensures
        0 <= spec_key_index(m, k) <= m.len(),
        spec_key_index(m, k) < m.len() ==> m[spec_key_index(m, k)].0 == k,
        forall|j: int| 0 <= j < spec_key_index(m, k) ==> (#[trigger] m[j]).0 != k,
    decreases m.len(),
{
    if m.len() > 0 && m[0].0 != k {
        lemma_key_index(m.drop_first(), k);
        assert forall|j: int| 0 <= j < spec_key_index(m, k) implies (#[trigger] m[j]).0 != k by {
            if j > 0 {
                assert(m.drop_first()[j - 1] == m[j]);
            }
        }
    }
}

/// Insertion with the last-wins duplicate policy: an existing member with the
/// same key has its value replaced in place, a fresh key is appended.
pub open spec fn spec_obj_insert(
    m: Seq<(Seq<char>, SpecValue)>,
    k: Seq<char>,
    v: SpecValue,
) -> Seq<(Seq<char>, SpecValue)> {
    let idx = spec_key_index(m, k);
    if idx < m.len() {
        m.update(idx, (k, v))
    } else {
        m.push((k, v))
    }
}

/// The object built by inserting the parsed pairs left to right.
pub open spec fn spec_obj_from_pairs(ps: Seq<(Seq<char>, SpecValue)>) -> Seq<
    (Seq<char>, SpecValue),
>
    decreases ps.len(),
{
    if ps.len() == 0 {
        Seq::empty()
    } else {
        spec_obj_insert(spec_obj_from_pairs(ps.drop_last()), ps.last().0, ps.last().1)
    }
}

/// Inserts a member under the last-wins policy, exactly as
/// [`spec_obj_insert`] describes.
fn insert_pair(members: &mut Vec<(String, Value)>, key: String, val: Value)
    ensures
        spec_members_view(final(members)@) == spec_obj_insert(
            spec_members_view(old(members)@),
            key@,
            val@,
        ),
{
    let ghost m0 = spec_members_view(old(members)@);
    proof {
        lemma_key_index(m0, key@);
        lemma_members_view(old(members)@);
    }
    let n = members.len();
    let mut j: usize = 0;
    while j < n
        invariant
            0 <= j <= n,
            n == members@.len(),
            members@ == old(members)@,
            m0 == spec_members_view(members@),
            m0.len() == members@.len(),
            forall|t: int|
                0 <= t < members@.len() ==> #[trigger] m0[t] == (
                    members@[t].0@,
                    members@[t].1@,
                ),
            forall|t: int| 0 <= t < j ==> (#[trigger] m0[t]).0 != key@,
        decreases n - j,
    {
        if members[j].0 == key {
            proof {
                assert(m0[j as int].0 == key@);
                assert(spec_key_index(m0, key@) == j as int) by {
                    lemma_key_index(m0, key@);
                }
            }
            let ghost before = members@;
            let _replaced = members.remove(j);
            members.insert(j, (key, val));
            proof {
                lemma_members_view(members@);
                assert(members@.len() == before.len());
                assert forall|t: int|
                    0 <= t < members@.len() implies #[trigger] members@[t] == if t == j as int {
                        (key, val)
                    } else {
                        before[t]
                    } by {
                    if t < j as int {
                        assert(before.remove(j as int)[t] == before[t]);
                    } else if t > j as int {
                        assert(before.remove(j as int)[t - 1] == before[t]);
                    }
                }
                assert(spec_members_view(members@) =~= spec_obj_insert(m0, key@, val@));
            }
            return ;
        }
        j = j + 1;
    }
    proof {
        lemma_key_index(m0, key@);
        assert(spec_key_index(m0, key@) == m0.len());
    }
    members.push((key, val));
    proof {
        lemma_members_view(members@);
        assert(spec_members_view(members@) =~= spec_obj_insert(m0, key@, val@));
    }
}

// ---------------------------------------------------------------------------
// The grammar
// ---------------------------------------------------------------------------

/// What parsing one value at cursor `i` with `depth` container levels of
/// budget produces: the value and the cursor just past its tokens, or the
/// fault. The inner cursor test in the member productions only justifies
/// termination; by [`lemma_parse_value_bounds`] it never fails.
pub open spec fn spec_parse_value(ts: Seq<SpecToken>, i: int, depth: int) -> Result<
    (SpecValue, int),
    SpecParseError,
>
    decreases depth, 1int, 0int,
{
    if !(0 <= i < ts.len()) {
        Err(SpecParseError::UnexpectedEndOfInput)
    } else {
        match ts[i] {
            SpecToken::Null => Ok((SpecValue::Null, i + 1)),
            SpecToken::True => Ok((SpecValue::Boolean(true), i + 1)),
            SpecToken::False => Ok((SpecValue::Boolean(false), i + 1)),
            SpecToken::Number(n) => Ok((SpecValue::Number(n), i + 1)),
            SpecToken::String(raw) => match spec_unescape(raw) {
                Some(out) => Ok((SpecValue::String(out), i + 1)),
                None => Err(SpecParseError::StringDecodeError(raw)),
            },
            SpecToken::LeftBracket => if depth <= 0 {
                Err(SpecParseError::DepthExceeded)
            } else if i + 1 < ts.len() && ts[i + 1] is RightBracket {
                Ok((SpecValue::Array(Seq::empty()), i + 2))
            } else {
                match spec_parse_array_items(ts, i + 1, depth) {
                    Ok((elems, j)) => Ok((SpecValue::Array(elems), j)),
                    Err(e) => Err(e),
                }
            },
            SpecToken::LeftBrace => if depth <= 0 {
                Err(SpecParseError::DepthExceeded)
            } else if i + 1 < ts.len() && ts[i + 1] is RightBrace {
                Ok((SpecValue::Object(Seq::empty()), i + 2))
            } else {
                match spec_parse_obj_items(ts, i + 1, depth) {
                    Ok((pairs, j)) => Ok((SpecValue::Object(spec_obj_from_pairs(pairs)), j)),
                    Err(e) => Err(e),
                }
            },
            _ => Err(SpecParseError::UnexpectedToken(ts[i], i)),
        }
    }
}

/// The elements of a non-empty array body starting at `i`, each followed by a
/// comma (continue) or the closing bracket (stop, cursor just past it).
pub open spec fn spec_parse_array_items(ts: Seq<SpecToken>, i: int, depth: int) -> Result<
    (Seq<SpecValue>, int),
    SpecParseError,
>
    decreases depth, 0int, ts.len() - i,
{
    if depth <= 0 {
        Err(SpecParseError::DepthExceeded)
    } else {
        match spec_parse_value(ts, i, depth - 1) {
            Err(e) => Err(e),
            Ok((v, j)) => if j >= ts.len() {
                Err(SpecParseError::UnexpectedEndOfInput)
            } else if ts[j] is Comma {
                if 0 <= i < j + 1 {
                    match spec_parse_array_items(ts, j + 1, depth) {
                        Ok((rest, k)) => Ok((seq![v] + rest, k)),
                        Err(e) => Err(e),
                    }
                } else {
                    Err(SpecParseError::UnexpectedEndOfInput)
                }
            } else if ts[j] is RightBracket {
                Ok((seq![v], j + 1))
            } else {
                Err(SpecParseError::UnexpectedToken(ts[j], j))
            },
        }
    }
}

/// The members of a non-empty object body starting at `i`: a string key, a
/// colon, a value, then a comma (continue) or the closing brace (stop).
/// The pairs are returned in source order, duplicates included; the caller
/// folds them with [`spec_obj_from_pairs`].
pub open spec fn spec_parse_obj_items(ts: Seq<SpecToken>, i: int, depth: int) -> Result<
    (Seq<(Seq<char>, SpecValue)>, int),
    SpecParseError,
>
    decreases depth, 0int, ts.len() - i,
{
    if depth <= 0 {
        Err(SpecParseError::DepthExceeded)
    } else if !(0 <= i < ts.len()) {
        Err(SpecParseError::UnexpectedEndOfInput)
    } else {
        match ts[i] {
            SpecToken::String(raw) => match spec_unescape(raw) {
                None => Err(SpecParseError::StringDecodeError(raw)),
                Some(key) => if i + 1 >= ts.len() {
                    Err(SpecParseError::UnexpectedEndOfInput)
                } else if !(ts[i + 1] is Colon) {
                    Err(SpecParseError::UnexpectedToken(ts[i + 1], i + 1))
                } else {
                    match spec_parse_value(ts, i + 2, depth - 1) {
                        Err(e) => Err(e),
                        Ok((v, j)) => if j >= ts.len() {
                            Err(SpecParseError::UnexpectedEndOfInput)
                        } else if ts[j] is Comma {
                            if 0 <= i < j + 1 {
                                match spec_parse_obj_items(ts, j + 1, depth) {
                                    Ok((rest, k)) => Ok((seq![(key, v)] + rest, k)),
                                    Err(e) => Err(e),
                                }
                            } else {
                                Err(SpecParseError::UnexpectedEndOfInput)
                            }
                        } else if ts[j] is RightBrace {
                            Ok((seq![(key, v)], j + 1))
                        } else {
                            Err(SpecParseError::UnexpectedToken(ts[j], j))
                        },
                    }
                },
            },
            _ => Err(SpecParseError::MalformedKey(ts[i], i)),
        }
    }
}

/// What parsing a whole token sequence produces: the top-level value, with
/// every token consumed; leftover tokens are the `TrailingData` fault.
pub open spec fn spec_parse(ts: Seq<SpecToken>) -> Result<SpecValue, SpecParseError> {
    match spec_parse_value(ts, 0, MAX_DEPTH as int) {
        Err(e) => Err(e),
        Ok((v, j)) => if j == ts.len() {
            Ok(v)
        } else {
            Err(SpecParseError::TrailingData(j))
        },
    }
}

/// A parsed value always covers at least one token and never takes the
/// cursor past the end.
pub proof fn lemma_parse_value_bounds(ts: Seq<SpecToken>, i: int, depth: int)
    ensures
        spec_parse_value(ts, i, depth) matches Ok((v, j)) ==> i < j <= ts.len(),
    decreases depth, 1int, 0int,
{
    if 0 <= i < ts.len() {
        match ts[i] {
            SpecToken::LeftBracket => {
                if depth > 0 && !(i + 1 < ts.len() && ts[i + 1] is RightBracket) {
                    lemma_parse_items_bounds(ts, i + 1, depth);
                }
            },
            SpecToken::LeftBrace => {
                if depth > 0 && !(i + 1 < ts.len() && ts[i + 1] is RightBrace) {
                    lemma_parse_members_bounds(ts, i + 1, depth);
                }
            },
            _ => {},
        }
    }
}

pub proof fn lemma_parse_items_bounds(ts: Seq<SpecToken>, i: int, depth: int)
    ensures
        spec_parse_array_items(ts, i, depth) matches Ok((es, k)) ==> i < k <= ts.len(),
    decreases depth, 0int, ts.len() - i,
{
    if depth > 0 {
        lemma_parse_value_bounds(ts, i, depth - 1);
        match spec_parse_value(ts, i, depth - 1) {
            Ok((v, j)) => {
                if j < ts.len() && ts[j] is Comma && 0 <= i < j + 1 {
                    lemma_parse_items_bounds(ts, j + 1, depth);
                }
            },
            Err(_) => {},
        }
    }
}

pub proof fn lemma_parse_members_bounds(ts: Seq<SpecToken>, i: int, depth: int)
    ensures
        spec_parse_obj_items(ts, i, depth) matches Ok((ps, k)) ==> i < k <= ts.len(),
    decreases depth, 0int, ts.len() - i,
{
    if depth > 0 && 0 <= i < ts.len() {
        match ts[i] {
            SpecToken::String(raw) => {
                lemma_parse_value_bounds(ts, i + 2, depth - 1);
                match spec_parse_value(ts, i + 2, depth - 1) {
                    Ok((v, j)) => {
                        if j < ts.len() && ts[j] is Comma && 0 <= i < j + 1 {
                            lemma_parse_members_bounds(ts, j + 1, depth);
                        }
                    },
                    Err(_) => {},
                }
            },
            _ => {},
        }
    }
}

// ---------------------------------------------------------------------------
// Executable parser
// ---------------------------------------------------------------------------

/// A copy of the token for an error report.
fn dup_token(t: &Token) -> (r: Token)
    ensures
        r == *t,
{
    match t {
        Token::LeftBrace => Token::LeftBrace,
        Token::RightBrace => Token::RightBrace,
        Token::LeftBracket => Token::LeftBracket,
        Token::RightBracket => Token::RightBracket,
        Token::Comma => Token::Comma,
        Token::Colon => Token::Colon,
        Token::Null => Token::Null,
        Token::False => Token::False,
        Token::True => Token::True,
        Token::String(s) => Token::String(s.clone()),
        Token::Number(n) => Token::Number(n.clone()),
    }
}

/// Parses the one value that starts at the cursor, leaving the cursor just
/// past its tokens, exactly as [`spec_parse_value`] describes; `depth` is
/// the remaining container budget.
pub fn parse_token(tokens: &Vec<Token>, index: &mut usize, depth: usize) -> (r: Result<
    Value,
    TokenParseError,
>)
    ensures
        ({
            let res = spec_parse_value(seq_tokens(tokens@), *old(index) as int, depth as int);
            match r {
                Ok(v) => res matches Ok(p) && v@ == p.0 && *final(index) == p.1,
                Err(e) => res matches Err(se) && e@ == se,
            }
        }),
    decreases depth, 1int,
{
    let ghost ts = seq_tokens(tokens@);
    let n = tokens.len();
    if *index >= n {
        return Err(TokenParseError::UnexpectedEndOfInput);
    }
    let t = &tokens[*index];
    proof {
        assert(ts[*index as int] == t@);
    }
    match t {
        Token::Null => {
            *index = *index + 1;
            Ok(Value::Null)
        },
        Token::True => {
            *index = *index + 1;
            Ok(Value::Boolean(true))
        },
        Token::False => {
            *index = *index + 1;
            Ok(Value::Boolean(false))
        },
        Token::Number(lit) => {
            let v = Value::Number(lit.clone());
            *index = *index + 1;
            Ok(v)
        },
        Token::String(raw) => {
            match parse_string(raw.as_str()) {
                Ok(v) => {
                    *index = *index + 1;
                    Ok(v)
                },
                Err(e) => Err(e),
            }
        },
        Token::LeftBracket => {
            if depth == 0 {
                Err(TokenParseError::DepthExceeded)
            } else {
                parse_array(tokens, index, depth)
            }
        },
        Token::LeftBrace => {
            if depth == 0 {
                Err(TokenParseError::DepthExceeded)
            } else {
                parse_object(tokens, index, depth)
            }
        },
        _ => {
            Err(TokenParseError::UnexpectedToken(dup_token(t), *index))
        },
    }
}

/// Parses an array whose opening bracket stands at the cursor.
fn parse_array(tokens: &Vec<Token>, index: &mut usize, depth: usize) -> (r: Result<
    Value,
    TokenParseError,
>)
    requires
        *old(index) < tokens@.len(),
        seq_tokens(tokens@)[*old(index) as int] is LeftBracket,
        depth >= 1,
    ensures
        ({
            let res = spec_parse_value(seq_tokens(tokens@), *old(index) as int, depth as int);
            match r {
                Ok(v) => res matches Ok(p) && v@ == p.0 && *final(index) == p.1,
                Err(e) => res matches Err(se) && e@ == se,
            }
        }),
    decreases depth, 0int,
{
    let ghost ts = seq_tokens(tokens@);
    let ghost start = *old(index) as int;
    let n = tokens.len();
    *index = *index + 1;
    if *index < n {
        let t0 = &tokens[*index];
        if let Token::RightBracket = t0 {
            let empty_elems: Vec<Value> = Vec::new();
            proof {
                assert(ts[start + 1] == t0@);
                assert(spec_values_view(empty_elems@) =~= Seq::<SpecValue>::empty());
            }
            *index = *index + 1;
            return Ok(Value::Array(empty_elems));
        }
    }
    let mut elems: Vec<Value> = Vec::new();
    proof {
        assert(spec_values_view(elems@) =~= Seq::<SpecValue>::empty());
        match spec_parse_array_items(ts, start + 1, depth as int) {
            Ok((rest, k)) => {
                assert(spec_values_view(elems@) + rest =~= rest);
            },
            Err(_) => {},
        }
    }
    loop
        invariant
            ts == seq_tokens(tokens@),
            n == tokens@.len(),
            start == *old(index) as int,
            start + 1 <= *index as int <= n,
            depth >= 1,
            0 <= start < n,
            ts[start] is LeftBracket,
            spec_parse_value(ts, start, depth as int) == match spec_parse_array_items(
                ts,
                *index as int,
                depth as int,
            ) {
                Ok((rest, k)) => match spec_parse_array_items(ts, start + 1, depth as int) {
                    Ok(_) => Result::<(SpecValue, int), SpecParseError>::Ok(
                        (SpecValue::Array(spec_values_view(elems@) + rest), k),
                    ),
                    Err(e) => Err(e),
                },
                Err(e) => Err(e),
            },
            spec_parse_array_items(ts, *index as int, depth as int) is Ok
                ==> spec_parse_array_items(ts, start + 1, depth as int) is Ok,
        decreases n - *index as int,
    {
        let ghost cur = *index as int;
        match parse_token(tokens, index, depth - 1) {
            Err(e) => {
                proof {
                    assert(spec_parse_array_items(ts, cur, depth as int) == Err::<
                        (Seq<SpecValue>, int),
                        SpecParseError,
                    >(e@));
                }
                return Err(e);
            },
            Ok(v) => {
                proof {
                    lemma_parse_value_bounds(ts, cur, depth as int - 1);
                }
                let ghost prev = elems@;
                elems.push(v);
                proof {
                    lemma_values_view(prev);
                    lemma_values_view(elems@);
                    assert(spec_values_view(elems@) =~= spec_values_view(prev).push(v@));
                }
                if *index >= n {
                    proof {
                        assert(spec_parse_array_items(ts, cur, depth as int) == Err::<
                            (Seq<SpecValue>, int),
                            SpecParseError,
                        >(SpecParseError::UnexpectedEndOfInput));
                    }
                    return Err(TokenParseError::UnexpectedEndOfInput);
                }
                let t = &tokens[*index];
                proof {
                    assert(ts[*index as int] == t@);
                }
                match t {
                    Token::Comma => {
                        proof {
                            let j = *index as int;
                            match spec_parse_array_items(ts, j + 1, depth as int) {
                                Ok((rest, k)) => {
                                    assert(spec_parse_array_items(ts, cur, depth as int) == Ok::<
                                        (Seq<SpecValue>, int),
                                        SpecParseError,
                                    >((seq![v@] + rest, k)));
                                    assert(spec_values_view(prev) + (seq![v@] + rest)
                                        =~= spec_values_view(elems@) + rest);
                                },
                                Err(e) => {
                                    assert(spec_parse_array_items(ts, cur, depth as int) == Err::<
                                        (Seq<SpecValue>, int),
                                        SpecParseError,
                                    >(e));
                                },
                            }
                        }
                        *index = *index + 1;
                    },
                    Token::RightBracket => {
                        proof {
                            let j = *index as int;
                            assert(spec_parse_array_items(ts, cur, depth as int) == Ok::<
                                (Seq<SpecValue>, int),
                                SpecParseError,
                            >((seq![v@], j + 1)));
                            assert(spec_values_view(prev) + seq![v@] =~= spec_values_view(
                                elems@,
                            ));
                            assert(spec_values_view(elems@) + Seq::<SpecValue>::empty()
                                =~= spec_values_view(elems@));
                        }
                        *index = *index + 1;
                        return Ok(Value::Array(elems));
                    },
                    _ => {
                        proof {
                            assert(spec_parse_array_items(ts, cur, depth as int) == Err::<
                                (Seq<SpecValue>, int),
                                SpecParseError,
                            >(SpecParseError::UnexpectedToken(ts[*index as int], *index as int)));
                        }
                        return Err(TokenParseError::UnexpectedToken(dup_token(t), *index));
                    },
                }
            },
        }
    }
}

/// Parses an object whose opening brace stands at the cursor.
fn parse_object(tokens: &Vec<Token>, index: &mut usize, depth: usize) -> (r: Result<
    Value,
    TokenParseError,
>)
    requires
        *old(index) < tokens@.len(),
        seq_tokens(tokens@)[*old(index) as int] is LeftBrace,
        depth >= 1,
    ensures
        ({
            let res = spec_parse_value(seq_tokens(tokens@), *old(index) as int, depth as int);
            match r {
                Ok(v) => res matches Ok(p) && v@ == p.0 && *final(index) == p.1,
                Err(e) => res matches Err(se) && e@ == se,
            }
        }),
    decreases depth, 0int,
{
    let ghost ts = seq_tokens(tokens@);
    let ghost start = *old(index) as int;
    let n = tokens.len();
    *index = *index + 1;
    if *index < n {
        let t0 = &tokens[*index];
        if let Token::RightBrace = t0 {
            let empty_members: Vec<(String, Value)> = Vec::new();
            proof {
                assert(ts[start + 1] == t0@);
                assert(spec_members_view(empty_members@) =~= Seq::<
                    (Seq<char>, SpecValue),
                >::empty());
            }
            *index = *index + 1;
            return Ok(Value::Object(empty_members));
        }
    }
    let mut members: Vec<(String, Value)> = Vec::new();
    let ghost mut pairs: Seq<(Seq<char>, SpecValue)> = Seq::empty();
    proof {
        assert(spec_members_view(members@) =~= spec_obj_from_pairs(pairs));
        match spec_parse_obj_items(ts, start + 1, depth as int) {
            Ok((rest, k)) => {
                assert(pairs + rest =~= rest);
            },
            Err(_) => {},
        }
    }
    loop
        invariant
            ts == seq_tokens(tokens@),
            n == tokens@.len(),
            start == *old(index) as int,
            start + 1 <= *index as int <= n,
            depth >= 1,
            0 <= start < n,
            ts[start] is LeftBrace,
            spec_members_view(members@) == spec_obj_from_pairs(pairs),
            spec_parse_value(ts, start, depth as int) == match spec_parse_obj_items(
                ts,
                *index as int,
                depth as int,
            ) {
                Ok((rest, k)) => match spec_parse_obj_items(ts, start + 1, depth as int) {
                    Ok(_) => Result::<(SpecValue, int), SpecParseError>::Ok(
                        (SpecValue::Object(spec_obj_from_pairs(pairs + rest)), k),
                    ),
                    Err(e) => Err(e),
                },
                Err(e) => Err(e),
            },
            spec_parse_obj_items(ts, *index as int, depth as int) is Ok
                ==> spec_parse_obj_items(ts, start + 1, depth as int) is Ok,
        decreases n - *index as int,
    {
        let ghost cur = *index as int;
        if *index >= n {
            proof {
                assert(spec_parse_obj_items(ts, cur, depth as int) == Err::<
                    (Seq<(Seq<char>, SpecValue)>, int),
                    SpecParseError,
                >(SpecParseError::UnexpectedEndOfInput));
            }
            return Err(TokenParseError::UnexpectedEndOfInput);
        }
        let tk = &tokens[*index];
        proof {
            assert(ts[cur] == tk@);
        }
        match tk {
            Token::String(raw) => {
                let key = match unescape(raw.as_str()) {
                    Ok(k) => k,
                    Err(e) => {
                        proof {
                            assert(spec_parse_obj_items(ts, cur, depth as int) == Err::<
                                (Seq<(Seq<char>, SpecValue)>, int),
                                SpecParseError,
                            >(e@));
                        }
                        return Err(e);
                    },
                };
                *index = *index + 1;
                if *index >= n {
                    proof {
                        assert(spec_parse_obj_items(ts, cur, depth as int) == Err::<
                            (Seq<(Seq<char>, SpecValue)>, int),
                            SpecParseError,
                        >(SpecParseError::UnexpectedEndOfInput));
                    }
                    return Err(TokenParseError::UnexpectedEndOfInput);
                }
                let t1 = &tokens[*index];
                proof {
                    assert(ts[cur + 1] == t1@);
                }
                if !(matches!(t1, Token::Colon)) {
                    proof {
                        assert(spec_parse_obj_items(ts, cur, depth as int) == Err::<
                            (Seq<(Seq<char>, SpecValue)>, int),
                            SpecParseError,
                        >(SpecParseError::UnexpectedToken(ts[cur + 1], cur + 1)));
                    }
                    return Err(TokenParseError::UnexpectedToken(dup_token(t1), *index));
                }
                *index = *index + 1;
                match parse_token(tokens, index, depth - 1) {
                    Err(e) => {
                        proof {
                            assert(spec_parse_obj_items(ts, cur, depth as int) == Err::<
                                (Seq<(Seq<char>, SpecValue)>, int),
                                SpecParseError,
                            >(e@));
                        }
                        return Err(e);
                    },
                    Ok(v) => {
                        proof {
                            lemma_parse_value_bounds(ts, cur + 2, depth as int - 1);
                        }
                        let ghost key_v = key@;
                        let ghost val_v = v@;
                        let ghost pairs0 = pairs;
                        insert_pair(&mut members, key, v);
                        proof {
                            pairs = pairs0.push((key_v, val_v));
                            assert(pairs.drop_last() =~= pairs0);
                            assert(spec_obj_from_pairs(pairs) == spec_obj_insert(
                                spec_obj_from_pairs(pairs0),
                                key_v,
                                val_v,
                            ));
                        }
                        if *index >= n {
                            proof {
                                assert(spec_parse_obj_items(ts, cur, depth as int) == Err::<
                                    (Seq<(Seq<char>, SpecValue)>, int),
                                    SpecParseError,
                                >(SpecParseError::UnexpectedEndOfInput));
                            }
                            return Err(TokenParseError::UnexpectedEndOfInput);
                        }
                        let t2 = &tokens[*index];
                        proof {
                            assert(ts[*index as int] == t2@);
                        }
                        match t2 {
                            Token::Comma => {
                                proof {
                                    let j = *index as int;
                                    match spec_parse_obj_items(ts, j + 1, depth as int) {
                                        Ok((rest, k)) => {
                                            assert(spec_parse_obj_items(ts, cur, depth as int)
                                                == Ok::<
                                                (Seq<(Seq<char>, SpecValue)>, int),
                                                SpecParseError,
                                            >((seq![(key_v, val_v)] + rest, k)));
                                            assert(pairs0 + (seq![(key_v, val_v)] + rest)
                                                =~= pairs + rest);
                                        },
                                        Err(e) => {
                                            assert(spec_parse_obj_items(ts, cur, depth as int)
                                                == Err::<
                                                (Seq<(Seq<char>, SpecValue)>, int),
                                                SpecParseError,
                                            >(e));
                                        },
                                    }
                                }
                                *index = *index + 1;
                            },
                            Token::RightBrace => {
                                proof {
                                    let j = *index as int;
                                    assert(spec_parse_obj_items(ts, cur, depth as int) == Ok::<
                                        (Seq<(Seq<char>, SpecValue)>, int),
                                        SpecParseError,
                                    >((seq![(key_v, val_v)], j + 1)));
                                    assert(pairs0 + seq![(key_v, val_v)] =~= pairs);
                                    assert(pairs + Seq::<(Seq<char>, SpecValue)>::empty()
                                        =~= pairs);
                                }
                                *index = *index + 1;
                                return Ok(Value::Object(members));
                            },
                            _ => {
                                proof {
                                    assert(spec_parse_obj_items(ts, cur, depth as int) == Err::<
                                        (Seq<(Seq<char>, SpecValue)>, int),
                                        SpecParseError,
                                    >(SpecParseError::UnexpectedToken(
                                        ts[*index as int],
                                        *index as int,
                                    )));
                                }
                                return Err(
                                    TokenParseError::UnexpectedToken(dup_token(t2), *index),
                                );
                            },
                        }
                    },
                }
            },
            _ => {
                proof {
                    assert(spec_parse_obj_items(ts, cur, depth as int) == Err::<
                        (Seq<(Seq<char>, SpecValue)>, int),
                        SpecParseError,
                    >(SpecParseError::MalformedKey(ts[cur], cur)));
                }
                return Err(TokenParseError::MalformedKey(dup_token(tk), *index));
            },
        }
    }
}

/// Parses a whole token sequence into the one top-level value, exactly as
/// [`spec_parse`] describes: the cursor starts at zero and every token must
/// be consumed; leftovers are reported as `TrailingData`.
pub fn parse(tokens: &Vec<Token>) -> (r: Result<Value, TokenParseError>)
    ensures
        ({
            let res = spec_parse(seq_tokens(tokens@));
            match r {
                Ok(v) => res matches Ok(m) && v@ == m,
                Err(e) => res matches Err(se) && e@ == se,
            }
        }),
{
    let mut index: usize = 0;
    match parse_token(tokens, &mut index, MAX_DEPTH) {
        Err(e) => Err(e),
        Ok(v) => {
            proof {
                lemma_parse_value_bounds(seq_tokens(tokens@), 0, MAX_DEPTH as int);
            }
            if index == tokens.len() {
                Ok(v)
            } else {
                Err(TokenParseError::TrailingData(index))
            }
        },
    }
}

} // verus!

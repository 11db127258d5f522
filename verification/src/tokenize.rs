//! Lexical scanner: turns a character sequence into a flat sequence of typed
//! tokens, or reports the first lexical fault with a specific diagnosis.
//!
//! The whole scanner is specified by [`spec_tokenize`], a recursive
//! mathematical description of greedy left-to-right scanning; [`tokenize`]
//! is proved to return exactly what that description says, for every input.

use vstd::prelude::*;

use crate::push_char;

verus! {

/// A minimal lexical unit of JSON syntax.
///
/// `String` carries the raw literal body: the characters between the quotes
/// with escape sequences still unresolved (resolution belongs to the parser).
/// `Number` carries the numeric literal text, already validated against the
/// number grammar ([`spec_valid_number`]).
#[derive(Debug, PartialEq)]
pub enum Token {
    LeftBrace,
    RightBrace,
    LeftBracket,
    RightBracket,
    Comma,
    Colon,
    Null,
    False,
    True,
    String(String),
    Number(String),
}

/// Mathematical model of a [`Token`]: text payloads become `Seq<char>`.
pub enum SpecToken {
    LeftBrace,
    RightBrace,
    LeftBracket,
    RightBracket,
    Comma,
    Colon,
    Null,
    False,
    True,
    String(Seq<char>),
    Number(Seq<char>),
}

impl View for Token {
    type V = SpecToken;

    open spec fn view(&self) -> SpecToken {
        match self {
            Token::LeftBrace => SpecToken::LeftBrace,
            Token::RightBrace => SpecToken::RightBrace,
            Token::LeftBracket => SpecToken::LeftBracket,
            Token::RightBracket => SpecToken::RightBracket,
            Token::Comma => SpecToken::Comma,
            Token::Colon => SpecToken::Colon,
            Token::Null => SpecToken::Null,
            Token::False => SpecToken::False,
            Token::True => SpecToken::True,
            Token::String(s) => SpecToken::String(s@),
            Token::Number(n) => SpecToken::Number(n@),
        }
    }
}

/// The model of a token sequence.
pub open spec fn seq_tokens(ts: Seq<Token>) -> Seq<SpecToken> {
    Seq::new(ts.len(), |i: int| ts[i]@)
}

/// Everything that can go wrong while scanning, a closed set so that callers
/// can pattern-match. `ParseNumberError` carries the numeric buffer that
/// failed validation; `CharNotRecognized` carries the offending character.
#[derive(Debug, PartialEq, Eq, Clone)]
pub enum TokenizeError {
    UnfinishedLiteralValue,
    ParseNumberError(String),
    UnclosedQuotes,
    UnexpectedEof,
    CharNotRecognized(char),
}

/// Mathematical model of a [`TokenizeError`].
pub enum SpecTokenizeError {
    UnfinishedLiteralValue,
    ParseNumberError(Seq<char>),
    UnclosedQuotes,
    UnexpectedEof,
    CharNotRecognized(char),
}

impl View for TokenizeError {
    type V = SpecTokenizeError;

    open spec fn view(&self) -> SpecTokenizeError {
        match self {
            TokenizeError::UnfinishedLiteralValue => SpecTokenizeError::UnfinishedLiteralValue,
            TokenizeError::ParseNumberError(b) => SpecTokenizeError::ParseNumberError(b@),
            TokenizeError::UnclosedQuotes => SpecTokenizeError::UnclosedQuotes,
            TokenizeError::UnexpectedEof => SpecTokenizeError::UnexpectedEof,
            TokenizeError::CharNotRecognized(c) => SpecTokenizeError::CharNotRecognized(*c),
        }
    }
}

// ---------------------------------------------------------------------------
// Character classes
// ---------------------------------------------------------------------------

/// ASCII whitespace, the characters the scanner skips between tokens.
pub open spec fn spec_is_ws(c: char) -> bool {
    c == ' ' || c == '\t' || c == '\n' || c == '\r' || c == '\u{000c}'
}

/// ASCII decimal digit.
pub open spec fn spec_is_digit(c: char) -> bool {
    '0' <= c && c <= '9'
}

fn is_ws(c: char) -> (r: bool)
    ensures
        r == spec_is_ws(c),
{
    c == ' ' || c == '\t' || c == '\n' || c == '\r' || c == '\u{000c}'
}

fn is_digit(c: char) -> (r: bool)
    ensures
        r == spec_is_digit(c),
{
    '0' <= c && c <= '9'
}

// ---------------------------------------------------------------------------
// Whitespace
// ---------------------------------------------------------------------------

/// The first position at or after `i` that does not hold whitespace.
pub open spec fn spec_skip_ws(s: Seq<char>, i: int) -> int
    decreases s.len() - i,
{
    if 0 <= i < s.len() && spec_is_ws(s[i]) {
        spec_skip_ws(s, i + 1)
    } else {
        i
    }
}

pub proof fn lemma_skip_ws_bounds(s: Seq<char>, i: int)
    requires
        0 <= i <= s.len(),
    ensures
        i <= spec_skip_ws(s, i) <= s.len(),
        spec_skip_ws(s, i) < s.len() ==> !spec_is_ws(s[spec_skip_ws(s, i)]),
    decreases s.len() - i,
{
    if 0 <= i < s.len() && spec_is_ws(s[i]) {
        lemma_skip_ws_bounds(s, i + 1);
    }
}

// ---------------------------------------------------------------------------
// Keyword literals
// ---------------------------------------------------------------------------

/// The four characters of `null` stand at position `i`.
pub open spec fn spec_lit_null(s: Seq<char>, i: int) -> bool {
    &&& i + 4 <= s.len()
    &&& s[i] == 'n'
    &&& s[i + 1] == 'u'
    &&& s[i + 2] == 'l'
    &&& s[i + 3] == 'l'
}

/// The five characters of `false` stand at position `i`.
pub open spec fn spec_lit_false(s: Seq<char>, i: int) -> bool {
    &&& i + 5 <= s.len()
    &&& s[i] == 'f'
    &&& s[i + 1] == 'a'
    &&& s[i + 2] == 'l'
    &&& s[i + 3] == 's'
    &&& s[i + 4] == 'e'
}

/// The four characters of `true` stand at position `i`.
pub open spec fn spec_lit_true(s: Seq<char>, i: int) -> bool {
    &&& i + 4 <= s.len()
    &&& s[i] == 't'
    &&& s[i + 1] == 'r'
    &&& s[i + 2] == 'u'
    &&& s[i + 3] == 'e'
}

// ---------------------------------------------------------------------------
// Numeric literals
// ---------------------------------------------------------------------------

/// Whether the numeric accumulation loop takes the character `c`, given
/// whether a decimal point or an exponent marker was already taken, and
/// whether the previous character was the exponent marker (only there may a
/// sign follow).
pub open spec fn spec_num_takes(c: char, has_dot: bool, has_exp: bool, sign_ok: bool) -> bool {
    ||| spec_is_digit(c)
    ||| (c == '.' && !has_dot && !has_exp)
    ||| ((c == 'e' || c == 'E') && !has_exp)
    ||| ((c == '+' || c == '-') && sign_ok)
}

/// Where numeric accumulation starting at `i` with the given flags stops.
pub open spec fn spec_num_end(s: Seq<char>, i: int, has_dot: bool, has_exp: bool, sign_ok: bool) -> int
    decreases s.len() - i,
{
    if 0 <= i < s.len() && spec_num_takes(s[i], has_dot, has_exp, sign_ok) {
        let c = s[i];
        if spec_is_digit(c) {
            spec_num_end(s, i + 1, has_dot, has_exp, false)
        } else if c == '.' {
            spec_num_end(s, i + 1, true, has_exp, false)
        } else if c == 'e' || c == 'E' {
            spec_num_end(s, i + 1, has_dot, true, true)
        } else {
            spec_num_end(s, i + 1, has_dot, has_exp, false)
        }
    } else {
        i
    }
}

pub proof fn lemma_num_end_bounds(s: Seq<char>, i: int, has_dot: bool, has_exp: bool, sign_ok: bool)
    requires
        0 <= i <= s.len(),
    ensures
        i <= spec_num_end(s, i, has_dot, has_exp, sign_ok) <= s.len(),
    decreases s.len() - i,
{
    if 0 <= i < s.len() && spec_num_takes(s[i], has_dot, has_exp, sign_ok) {
        let c = s[i];
        if spec_is_digit(c) {
            lemma_num_end_bounds(s, i + 1, has_dot, has_exp, false);
        } else if c == '.' {
            lemma_num_end_bounds(s, i + 1, true, has_exp, false);
        } else if c == 'e' || c == 'E' {
            lemma_num_end_bounds(s, i + 1, has_dot, true, true);
        } else {
            lemma_num_end_bounds(s, i + 1, has_dot, has_exp, false);
        }
    }
}

/// States of the number-grammar automaton.
#[derive(PartialEq, Eq, Structural, Clone, Copy, Debug)]
pub enum NumState {
    /// Nothing read yet: a sign or a digit may come.
    Start,
    /// A leading minus was read; an integer digit must come.
    Minus,
    /// Inside the integer digits (accepting).
    Int,
    /// A decimal point was read; a fraction digit must come.
    Dot,
    /// Inside the fraction digits (accepting).
    Frac,
    /// An exponent marker was read; a sign or a digit may come.
    Exp,
    /// An exponent sign was read; an exponent digit must come.
    ExpSign,
    /// Inside the exponent digits (accepting).
    ExpDigits,
    /// The text left the grammar.
    Reject,
}

/// One step of the number-grammar automaton. The grammar is
/// `-? digits ( . digits )? ( (e|E) (+|-)? digits )?`, with leading zeros
/// admitted, as a float parser would admit them in the buffer.
pub open spec fn spec_num_step(st: NumState, c: char) -> NumState {
    match st {
        NumState::Start => if spec_is_digit(c) {
            NumState::Int
        } else if c == '-' {
            NumState::Minus
        } else {
            NumState::Reject
        },
        NumState::Minus => if spec_is_digit(c) {
            NumState::Int
        } else {
            NumState::Reject
        },
        NumState::Int => if spec_is_digit(c) {
            NumState::Int
        } else if c == '.' {
            NumState::Dot
        } else if c == 'e' || c == 'E' {
            NumState::Exp
        } else {
            NumState::Reject
        },
        NumState::Dot => if spec_is_digit(c) {
            NumState::Frac
        } else {
            NumState::Reject
        },
        NumState::Frac => if spec_is_digit(c) {
            NumState::Frac
        } else if c == 'e' || c == 'E' {
            NumState::Exp
        } else {
            NumState::Reject
        },
        NumState::Exp => if spec_is_digit(c) {
            NumState::ExpDigits
        } else if c == '+' || c == '-' {
            NumState::ExpSign
        } else {
            NumState::Reject
        },
        NumState::ExpSign => if spec_is_digit(c) {
            NumState::ExpDigits
        } else {
            NumState::Reject
        },
        NumState::ExpDigits => if spec_is_digit(c) {
            NumState::ExpDigits
        } else {
            NumState::Reject
        },
        NumState::Reject => NumState::Reject,
    }
}

/// The automaton state after reading the first `n` characters of `s`.
pub open spec fn spec_num_state(s: Seq<char>, n: int) -> NumState
    decreases n,
{
    if n <= 0 {
        NumState::Start
    } else {
        spec_num_step(spec_num_state(s, n - 1), s[n - 1])
    }
}

/// Whether `s` is a valid numeric literal.
pub open spec fn spec_valid_number(s: Seq<char>) -> bool {
    spec_num_state(s, s.len() as int) == NumState::Int || spec_num_state(s, s.len() as int)
        == NumState::Frac || spec_num_state(s, s.len() as int) == NumState::ExpDigits
}

/// What scanning a numeric literal at position `i` (a digit or a minus sign)
/// produces: the accumulated buffer becomes a `Number` token when it is a
/// valid literal, and the whole buffer is reported otherwise.
pub open spec fn spec_scan_number(s: Seq<char>, i: int) -> Result<(SpecToken, int), SpecTokenizeError> {
    let b = if s[i] == '-' {
        i + 1
    } else {
        i
    };
    let end = spec_num_end(s, b, false, false, false);
    let lit = s.subrange(i, end);
    if spec_valid_number(lit) {
        Ok((SpecToken::Number(lit), end))
    } else {
        Err(SpecTokenizeError::ParseNumberError(lit))
    }
}

// ---------------------------------------------------------------------------
// String literals
// ---------------------------------------------------------------------------

/// The position of the closing quote of a string literal whose body starts at
/// `i`, given whether the previous character opened an escape; `None` when the
/// input ends first. A quote under an active escape does not close the
/// literal; a backslash toggles the escape flag.
pub open spec fn spec_string_close(s: Seq<char>, i: int, esc: bool) -> Option<int>
    decreases s.len() - i,
{
    if 0 <= i < s.len() {
        let c = s[i];
        if c == '"' && !esc {
            Some(i)
        } else {
            spec_string_close(s, i + 1, if c == '\\' {
                !esc
            } else {
                false
            })
        }
    } else {
        None
    }
}

pub proof fn lemma_string_close_bounds(s: Seq<char>, i: int, esc: bool)
    requires
        0 <= i <= s.len(),
    ensures
        match spec_string_close(s, i, esc) {
            Some(q) => i <= q < s.len(),
            None => true,
        },
    decreases s.len() - i,
{
    if 0 <= i < s.len() {
        let c = s[i];
        if !(c == '"' && !esc) {
            lemma_string_close_bounds(s, i + 1, if c == '\\' {
                !esc
            } else {
                false
            });
        }
    }
}

/// What scanning a string literal at position `i` (the opening quote)
/// produces: the raw body, escapes unresolved, and the position just past the
/// closing quote.
pub open spec fn spec_scan_string(s: Seq<char>, i: int) -> Result<(SpecToken, int), SpecTokenizeError> {
    match spec_string_close(s, i + 1, false) {
        Some(q) => Ok((SpecToken::String(s.subrange(i + 1, q)), q + 1)),
        None => Err(SpecTokenizeError::UnclosedQuotes),
    }
}

// ---------------------------------------------------------------------------
// One token
// ---------------------------------------------------------------------------

/// What the scanner produces for the token starting at the non-whitespace
/// position `i`: the token and the position just past it, or the fault.
pub open spec fn spec_next_token(s: Seq<char>, i: int) -> Result<(SpecToken, int), SpecTokenizeError> {
    let c = s[i];
    if c == '{' {
        Ok((SpecToken::LeftBrace, i + 1))
    } else if c == '}' {
        Ok((SpecToken::RightBrace, i + 1))
    } else if c == '[' {
        Ok((SpecToken::LeftBracket, i + 1))
    } else if c == ']' {
        Ok((SpecToken::RightBracket, i + 1))
    } else if c == ',' {
        Ok((SpecToken::Comma, i + 1))
    } else if c == ':' {
        Ok((SpecToken::Colon, i + 1))
    } else if c == 'n' {
        if spec_lit_null(s, i) {
            Ok((SpecToken::Null, i + 4))
        } else {
            Err(SpecTokenizeError::UnfinishedLiteralValue)
        }
    } else if c == 'f' {
        if spec_lit_false(s, i) {
            Ok((SpecToken::False, i + 5))
        } else {
            Err(SpecTokenizeError::UnfinishedLiteralValue)
        }
    } else if c == 't' {
        if spec_lit_true(s, i) {
            Ok((SpecToken::True, i + 4))
        } else {
            Err(SpecTokenizeError::UnfinishedLiteralValue)
        }
    } else if spec_is_digit(c) || c == '-' {
        spec_scan_number(s, i)
    } else if c == '"' {
        spec_scan_string(s, i)
    } else {
        Err(SpecTokenizeError::CharNotRecognized(c))
    }
}

/// A scanned token always covers at least one character.
pub proof fn lemma_next_token_advances(s: Seq<char>, i: int)
    requires
        0 <= i < s.len(),
    ensures
        match spec_next_token(s, i) {
            Ok((t, k)) => i < k <= s.len(),
            Err(e) => true,
        },
{
    let c = s[i];
    if spec_is_digit(c) || c == '-' {
        let b = if c == '-' {
            i + 1
        } else {
            i
        };
        lemma_num_end_bounds(s, b, false, false, false);
    } else if c == '"' {
        lemma_string_close_bounds(s, i + 1, false);
    }
}

// ---------------------------------------------------------------------------
// The whole scan
// ---------------------------------------------------------------------------

/// The token sequence of the input from position `i` on: skip whitespace,
/// stop cleanly at the end of input, otherwise scan one token and continue
/// just past it. The inner bounds test only justifies termination; by
/// [`lemma_next_token_advances`] and [`lemma_skip_ws_bounds`] it never fails.
pub open spec fn spec_tokenize_from(s: Seq<char>, i: int) -> Result<Seq<SpecToken>, SpecTokenizeError>
    decreases s.len() - i,
{
    let j = spec_skip_ws(s, i);
    if j >= s.len() || j < i {
        Ok(Seq::empty())
    } else {
        match spec_next_token(s, j) {
            Err(e) => Err(e),
            Ok((t, k)) => if i < k && k <= s.len() {
                match spec_tokenize_from(s, k) {
                    Err(e) => Err(e),
                    Ok(rest) => Ok(seq![t] + rest),
                }
            } else {
                Err(SpecTokenizeError::UnexpectedEof)
            },
        }
    }
}

/// The token sequence of the whole input, or the first lexical fault.
pub open spec fn spec_tokenize(s: Seq<char>) -> Result<Seq<SpecToken>, SpecTokenizeError> {
    spec_tokenize_from(s, 0)
}

// ---------------------------------------------------------------------------
// Executable scanner
// ---------------------------------------------------------------------------

fn tokenize_null(chars: &Vec<char>, index: &mut usize) -> (r: Result<Token, TokenizeError>)
    requires
        *old(index) < chars@.len(),
        chars@[*old(index) as int] == 'n',
    ensures
        if spec_lit_null(chars@, *old(index) as int) {
            r == Ok::<Token, TokenizeError>(Token::Null) && *final(index) == *old(index) + 4
        } else {
            r == Err::<Token, TokenizeError>(TokenizeError::UnfinishedLiteralValue)
        },
{
    let i = *index;
    if chars.len() - i >= 4 && chars[i + 1] == 'u' && chars[i + 2] == 'l' && chars[i + 3] == 'l' {
        *index = i + 4;
        Ok(Token::Null)
    } else {
        Err(TokenizeError::UnfinishedLiteralValue)
    }
}

fn tokenize_false(chars: &Vec<char>, index: &mut usize) -> (r: Result<Token, TokenizeError>)
    requires
        *old(index) < chars@.len(),
        chars@[*old(index) as int] == 'f',
    ensures
        if spec_lit_false(chars@, *old(index) as int) {
            r == Ok::<Token, TokenizeError>(Token::False) && *final(index) == *old(index) + 5
        } else {
            r == Err::<Token, TokenizeError>(TokenizeError::UnfinishedLiteralValue)
        },
{
    let i = *index;
    if chars.len() - i >= 5 && chars[i + 1] == 'a' && chars[i + 2] == 'l' && chars[i + 3] == 's'
        && chars[i + 4] == 'e' {
        *index = i + 5;
        Ok(Token::False)
    } else {
        Err(TokenizeError::UnfinishedLiteralValue)
    }
}

fn tokenize_true(chars: &Vec<char>, index: &mut usize) -> (r: Result<Token, TokenizeError>)
    requires
        *old(index) < chars@.len(),
        chars@[*old(index) as int] == 't',
    ensures
        if spec_lit_true(chars@, *old(index) as int) {
            r == Ok::<Token, TokenizeError>(Token::True) && *final(index) == *old(index) + 4
        } else {
            r == Err::<Token, TokenizeError>(TokenizeError::UnfinishedLiteralValue)
        },
{
    let i = *index;
    if chars.len() - i >= 4 && chars[i + 1] == 'r' && chars[i + 2] == 'u' && chars[i + 3] == 'e' {
        *index = i + 4;
        Ok(Token::True)
    } else {
        Err(TokenizeError::UnfinishedLiteralValue)
    }
}

/// Whether the numeric accumulation loop takes `c` under the given flags.
fn num_takes(c: char, has_dot: bool, has_exp: bool, sign_ok: bool) -> (r: bool)
    ensures
        r == spec_num_takes(c, has_dot, has_exp, sign_ok),
{
    is_digit(c) || (c == '.' && !has_dot && !has_exp) || ((c == 'e' || c == 'E') && !has_exp) || ((
    c == '+' || c == '-') && sign_ok)
}

/// Whether `buf` is a valid numeric literal, by running the number-grammar
/// automaton over it.
fn check_number(buf: &String) -> (r: bool)
    ensures
        r == spec_valid_number(buf@),
{
    let s = buf.as_str();
    let n = s.unicode_len();
    let mut st = NumState::Start;
    let mut k: usize = 0;
    while k < n
        invariant
            0 <= k <= n,
            n == buf@.len(),
            s@ == buf@,
            st == spec_num_state(buf@, k as int),
        decreases n - k,
    {
        let c = s.get_char(k);
        st = match st {
            NumState::Start => if is_digit(c) {
                NumState::Int
            } else if c == '-' {
                NumState::Minus
            } else {
                NumState::Reject
            },
            NumState::Minus => if is_digit(c) {
                NumState::Int
            } else {
                NumState::Reject
            },
            NumState::Int => if is_digit(c) {
                NumState::Int
            } else if c == '.' {
                NumState::Dot
            } else if c == 'e' || c == 'E' {
                NumState::Exp
            } else {
                NumState::Reject
            },
            NumState::Dot => if is_digit(c) {
                NumState::Frac
            } else {
                NumState::Reject
            },
            NumState::Frac => if is_digit(c) {
                NumState::Frac
            } else if c == 'e' || c == 'E' {
                NumState::Exp
            } else {
                NumState::Reject
            },
            NumState::Exp => if is_digit(c) {
                NumState::ExpDigits
            } else if c == '+' || c == '-' {
                NumState::ExpSign
            } else {
                NumState::Reject
            },
            NumState::ExpSign => if is_digit(c) {
                NumState::ExpDigits
            } else {
                NumState::Reject
            },
            NumState::ExpDigits => if is_digit(c) {
                NumState::ExpDigits
            } else {
                NumState::Reject
            },
            NumState::Reject => NumState::Reject,
        };
        k = k + 1;
    }
    st == NumState::Int || st == NumState::Frac || st == NumState::ExpDigits
}

fn tokenize_float(chars: &Vec<char>, index: &mut usize) -> (r: Result<Token, TokenizeError>)
    requires
        *old(index) < chars@.len(),
        spec_is_digit(chars@[*old(index) as int]) || chars@[*old(index) as int] == '-',
    ensures
        ({
            let res = spec_scan_number(chars@, *old(index) as int);
            match r {
                Ok(t) => res matches Ok(p) && t@ == p.0 && *final(index) == p.1,
                Err(e) => res matches Err(se) && e@ == se,
            }
        }),
{
    let ghost s = chars@;
    let n = chars.len();
    let start = *index;
    proof {
        assert(start < n);
    }
    let mut i = start;
    let mut buf = String::new();
    if chars[i] == '-' {
        push_char(&mut buf, '-');
        i = i + 1;
    }
    let ghost b = i as int;
    let mut has_dot = false;
    let mut has_exp = false;
    let mut sign_ok = false;
    while i < chars.len() && num_takes(chars[i], has_dot, has_exp, sign_ok)
        invariant
            b <= i as int <= s.len(),
            s == chars@,
            start as int <= b <= start as int + 1,
            buf@ == s.subrange(start as int, i as int),
            spec_num_end(s, b, false, false, false) == spec_num_end(
                s,
                i as int,
                has_dot,
                has_exp,
                sign_ok,
            ),
        decreases s.len() - i as int,
    {
        let c = chars[i];
        if is_digit(c) {
            sign_ok = false;
        } else if c == '.' {
            has_dot = true;
            sign_ok = false;
        } else if c == 'e' || c == 'E' {
            has_exp = true;
            sign_ok = true;
        } else {
            sign_ok = false;
        }
        push_char(&mut buf, c);
        i = i + 1;
        proof {
            assert(buf@ =~= s.subrange(start as int, i as int));
        }
    }
    *index = i;
    proof {
        assert(spec_num_end(s, i as int, has_dot, has_exp, sign_ok) == i as int);
        assert(buf@ == s.subrange(start as int, spec_num_end(s, b, false, false, false)));
    }
    if check_number(&buf) {
        Ok(Token::Number(buf))
    } else {
        Err(TokenizeError::ParseNumberError(buf))
    }
}

fn tokenize_string(chars: &Vec<char>, index: &mut usize) -> (r: Result<Token, TokenizeError>)
    requires
        *old(index) < chars@.len(),
        chars@[*old(index) as int] == '"',
    ensures
        ({
            let res = spec_scan_string(chars@, *old(index) as int);
            match r {
                Ok(t) => res matches Ok(p) && t@ == p.0 && *final(index) == p.1,
                Err(e) => res matches Err(se) && e@ == se,
            }
        }),
{
    let ghost s = chars@;
    let n = chars.len();
    let start = *index;
    proof {
        assert(start < n);
    }
    let mut i = start + 1;
    let mut body = String::new();
    let mut esc = false;
    while i < chars.len() && (esc || chars[i] != '"')
        invariant
            start as int + 1 <= i as int <= s.len(),
            s == chars@,
            body@ == s.subrange(start as int + 1, i as int),
            spec_string_close(s, start as int + 1, false) == spec_string_close(s, i as int, esc),
        decreases s.len() - i as int,
    {
        let c = chars[i];
        if c == '\\' {
            esc = !esc;
        } else {
            esc = false;
        }
        push_char(&mut body, c);
        i = i + 1;
        proof {
            assert(body@ =~= s.subrange(start as int + 1, i as int));
        }
    }
    if i < chars.len() {
        // the closing quote
        *index = i + 1;
        proof {
            assert(spec_string_close(s, i as int, esc) == Some(i as int));
        }
        Ok(Token::String(body))
    } else {
        proof {
            assert(spec_string_close(s, i as int, esc) is None);
        }
        Err(TokenizeError::UnclosedQuotes)
    }
}

/// Scans the one token that starts at the non-whitespace position `*index`,
/// leaving the cursor just past it on success.
fn make_token(chars: &Vec<char>, index: &mut usize) -> (r: Result<Token, TokenizeError>)
    requires
        *old(index) < chars@.len(),
        !spec_is_ws(chars@[*old(index) as int]),
    ensures
        ({
            let res = spec_next_token(chars@, *old(index) as int);
            match r {
                Ok(t) => res matches Ok(p) && t@ == p.0 && *final(index) == p.1 && *old(index)
                    < *final(index) <= chars@.len(),
                Err(e) => res matches Err(se) && e@ == se,
            }
        }),
{
    let n = chars.len();
    proof {
        assert(*index < n);
    }
    let ch = chars[*index];
    let r = if ch == '{' {
        *index = *index + 1;
        Ok(Token::LeftBrace)
    } else if ch == '}' {
        *index = *index + 1;
        Ok(Token::RightBrace)
    } else if ch == '[' {
        *index = *index + 1;
        Ok(Token::LeftBracket)
    } else if ch == ']' {
        *index = *index + 1;
        Ok(Token::RightBracket)
    } else if ch == ',' {
        *index = *index + 1;
        Ok(Token::Comma)
    } else if ch == ':' {
        *index = *index + 1;
        Ok(Token::Colon)
    } else if ch == 'n' {
        tokenize_null(chars, index)
    } else if ch == 'f' {
        tokenize_false(chars, index)
    } else if ch == 't' {
        tokenize_true(chars, index)
    } else if is_digit(ch) || ch == '-' {
        tokenize_float(chars, index)
    } else if ch == '"' {
        tokenize_string(chars, index)
    } else {
        Err(TokenizeError::CharNotRecognized(ch))
    };
    proof {
        lemma_next_token_advances(chars@, *old(index) as int);
    }
    r
}

/// Turns the input text into its token sequence, exactly as
/// [`spec_tokenize`] describes: whitespace between tokens is skipped (also
/// before the first and after the last token), and the first lexical fault
/// is reported as the specific [`TokenizeError`].
pub fn tokenize(input: String) -> (r: Result<Vec<Token>, TokenizeError>)
    ensures
        ({
            let res = spec_tokenize(input@);
            match r {
                Ok(v) => res matches Ok(ts) && seq_tokens(v@) == ts,
                Err(e) => res matches Err(se) && e@ == se,
            }
        }),
{
    let s = input.as_str();
    let n = s.unicode_len();
    let mut chars: Vec<char> = Vec::new();
    let mut ci: usize = 0;
    while ci < n
        invariant
            0 <= ci <= n,
            n == input@.len(),
            s@ == input@,
            chars@ == input@.subrange(0, ci as int),
        decreases n - ci,
    {
        chars.push(s.get_char(ci));
        ci = ci + 1;
        proof {
            assert(chars@ =~= input@.subrange(0, ci as int));
        }
    }
    proof {
        assert(chars@ =~= input@);
    }

    let ghost sq = input@;
    let mut index: usize = 0;
    let mut tokens: Vec<Token> = Vec::new();
    while index < chars.len()
        invariant
            0 <= index <= chars@.len(),
            chars@ == sq,
            sq == input@,
            match spec_tokenize_from(sq, index as int) {
                Ok(rest) => spec_tokenize(sq) == Ok::<Seq<SpecToken>, SpecTokenizeError>(
                    seq_tokens(tokens@) + rest,
                ),
                Err(e) => spec_tokenize(sq) == Err::<Seq<SpecToken>, SpecTokenizeError>(e),
            },
        decreases chars@.len() - index as int,
    {
        let ch = chars[index];
        if is_ws(ch) {
            proof {
                lemma_skip_ws_bounds(sq, index as int + 1);
                assert(spec_skip_ws(sq, index as int) == spec_skip_ws(sq, index as int + 1));
                assert(spec_tokenize_from(sq, index as int) == spec_tokenize_from(
                    sq,
                    index as int + 1,
                ));
            }
            index = index + 1;
        } else {
            let ghost i0 = index as int;
            match make_token(&chars, &mut index) {
                Ok(token) => {
                    proof {
                        assert(spec_skip_ws(sq, i0) == i0);
                        lemma_next_token_advances(sq, i0);
                    }
                    let ghost prev = tokens@;
                    tokens.push(token);
                    proof {
                        let k = index as int;
                        assert(seq_tokens(tokens@) =~= seq_tokens(prev) + seq![token@]);
                        match spec_tokenize_from(sq, k) {
                            Ok(rest) => {
                                assert(spec_tokenize_from(sq, i0) == Ok::<
                                    Seq<SpecToken>,
                                    SpecTokenizeError,
                                >(seq![token@] + rest));
                                assert(seq_tokens(prev) + (seq![token@] + rest) =~= seq_tokens(
                                    tokens@,
                                ) + rest);
                            },
                            Err(e) => {
                                assert(spec_tokenize_from(sq, i0) == Err::<
                                    Seq<SpecToken>,
                                    SpecTokenizeError,
                                >(e));
                            },
                        }
                    }
                },
                Err(e) => {
                    proof {
                        assert(spec_skip_ws(sq, i0) == i0);
                        assert(spec_tokenize_from(sq, i0) == Err::<
                            Seq<SpecToken>,
                            SpecTokenizeError,
                        >(e@));
                        assert(spec_tokenize(sq) == Err::<Seq<SpecToken>, SpecTokenizeError>(e@));
                        assert(spec_tokenize(input@) == Err::<Seq<SpecToken>, SpecTokenizeError>(
                            e@,
                        ));
                    }
                    return Err(e);
                },
            }
        }
    }
    proof {
        assert(spec_tokenize_from(sq, index as int) == Ok::<Seq<SpecToken>, SpecTokenizeError>(
            Seq::empty(),
        ));
        assert(seq_tokens(tokens@) + Seq::<SpecToken>::empty() =~= seq_tokens(tokens@));
    }
    Ok(tokens)
}

} // verus!

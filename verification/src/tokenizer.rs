//! Splits JSON text into tokens.
//!
//! The tokenizer works on the UTF-8 bytes of its input.  Braces, brackets,
//! colons and commas become one token each; `true`, `false` and `null`
//! become keyword tokens; blanks (space, tab, line feed, carriage return)
//! are skipped.  A number is an optional `-` followed by a run of digits and
//! at most one `.`; its token keeps the text of the number.  A string token
//! keeps the raw text between its quotes: escapes are not decoded, and a
//! backslash makes the byte after it part of the string whatever it is.
use vstd::prelude::*;
use vstd::utf8::*;
use vstd::string::*;
use crate::text::{lemma_ascii_is_boundary, lemma_after_ascii_is_boundary, substring, push_char};
use vstd::string::StringExecFns;

verus! {

broadcast use vstd::utf8::encode_utf8_valid_utf8, vstd::utf8::encode_utf8_decode_utf8;

/// One lexical unit of JSON text.
///
/// A number token holds the text of the number (for instance `-3.14`);
/// a string token holds the raw text between the quotes.
#[derive(Debug, Clone, PartialEq)]
pub enum Token {
    LeftBrace,
    RightBrace,
    LeftBracket,
    RightBracket,
    Colon,
    Comma,
    StringToken(String),
    NumberToken(String),
    True,
    False,
    Null,
}

/// The mathematical value of a token: strings as sequences of characters.
pub enum TokenV {
    LeftBrace,
    RightBrace,
    LeftBracket,
    RightBracket,
    Colon,
    Comma,
    Str(Seq<char>),
    Num(Seq<char>),
    True,
    False,
    Null,
}

impl View for Token {
    type V = TokenV;

    open spec fn view(&self) -> TokenV {
        match self {
            Token::LeftBrace => TokenV::LeftBrace,
            Token::RightBrace => TokenV::RightBrace,
            Token::LeftBracket => TokenV::LeftBracket,
            Token::RightBracket => TokenV::RightBracket,
            Token::Colon => TokenV::Colon,
            Token::Comma => TokenV::Comma,
            Token::StringToken(s) => TokenV::Str(s@),
            Token::NumberToken(s) => TokenV::Num(s@),
            Token::True => TokenV::True,
            Token::False => TokenV::False,
            Token::Null => TokenV::Null,
        }
    }
}

/// Why a text could not be split into tokens.
#[derive(Debug, Clone, Copy, PartialEq, Eq)]
pub enum TokenizeError {
    /// A byte that starts no token; the byte is kept.
    UnexpectedCharacter(u8),
    /// A number with a second `.`.
    MultipleDots,
    /// A number without any digit (a lone `-` or `-.`), which is no float literal.
    InvalidNumber,
    /// A string without its closing quote.
    UnterminatedString,
}

impl TokenizeError {
    /// The text of the error.
    pub open spec fn spec_message(self) -> Seq<char> {
        match self {
            TokenizeError::UnexpectedCharacter(c) => "unexpected character: '"@ + seq![c as char]
                + "'"@,
            TokenizeError::MultipleDots => "invalid number: multiple dots"@,
            TokenizeError::InvalidNumber => "invalid float literal"@,
            TokenizeError::UnterminatedString => "unterminated string"@,
        }
    }

    /// The text of the error; an unexpected byte is shown as the character
    /// with the byte's code.
    pub fn message(&self) -> (r: String)
        ensures
            r@ == self.spec_message(),
    {
        match self {
            TokenizeError::UnexpectedCharacter(c) => {
                let mut s = "unexpected character: '".to_owned();
                push_char(&mut s, *c as char);
                s.append("'");
                s
            },
            TokenizeError::MultipleDots => "invalid number: multiple dots".to_owned(),
            TokenizeError::InvalidNumber => "invalid float literal".to_owned(),
            TokenizeError::UnterminatedString => "unterminated string".to_owned(),
        }
    }
}

pub open spec fn is_digit(c: u8) -> bool {
    0x30 <= c <= 0x39
}

pub open spec fn is_blank(c: u8) -> bool {
    c == 0x20 || c == 0x09 || c == 0x0a || c == 0x0d
}

/// The bytes of `true`.
pub open spec fn word_true() -> Seq<u8> {
    seq![0x74u8, 0x72u8, 0x75u8, 0x65u8]
}

/// The bytes of `false`.
pub open spec fn word_false() -> Seq<u8> {
    seq![0x66u8, 0x61u8, 0x6cu8, 0x73u8, 0x65u8]
}

/// The bytes of `null`.
pub open spec fn word_null() -> Seq<u8> {
    seq![0x6eu8, 0x75u8, 0x6cu8, 0x6cu8]
}

/// `b` holds the word `w` at position `i`.
pub open spec fn has_word(b: Seq<u8>, i: int, w: Seq<u8>) -> bool {
    0 <= i && i + w.len() <= b.len() && b.subrange(i, i + w.len()) == w
}

/// Where the run of digits and dots that starts at `i` ends, or `None` when
/// the run holds a second dot (`seen_dot` says whether one was seen already).
pub open spec fn number_end(b: Seq<u8>, i: int, seen_dot: bool) -> Option<int>
    decreases b.len() - i,
{
    if i < 0 || i >= b.len() {
        Some(i)
    } else if is_digit(b[i]) {
        number_end(b, i + 1, seen_dot)
    } else if b[i] == 0x2e {
        if seen_dot {
            None
        } else {
            number_end(b, i + 1, true)
        }
    } else {
        Some(i)
    }
}

/// Some byte in `[s, e)` is a digit.
pub open spec fn has_digit(b: Seq<u8>, s: int, e: int) -> bool {
    exists|k: int| s <= k < e && is_digit(#[trigger] b[k])
}

/// The position of the quote that closes a string whose text starts at `i`,
/// or `None` when the input ends first.  A backslash skips the byte after it.
pub open spec fn string_end(b: Seq<u8>, i: int) -> Option<int>
    decreases b.len() - i,
{
    if i < 0 || i >= b.len() {
        None
    } else if b[i] == 0x5c {
        if i + 1 >= b.len() {
            None
        } else {
            string_end(b, i + 2)
        }
    } else if b[i] == 0x22 {
        Some(i)
    } else {
        string_end(b, i + 1)
    }
}

pub proof fn lemma_number_end_bounds(b: Seq<u8>, i: int, seen_dot: bool)
    requires
        0 <= i <= b.len(),
    ensures
        number_end(b, i, seen_dot) matches Some(e) ==> i <= e <= b.len(),
    decreases b.len() - i,
{
    if i < b.len() {
        if is_digit(b[i]) {
            lemma_number_end_bounds(b, i + 1, seen_dot);
        } else if b[i] == 0x2e && !seen_dot {
            lemma_number_end_bounds(b, i + 1, true);
        }
    }
}

pub proof fn lemma_string_end_bounds(b: Seq<u8>, i: int)
    ensures
        string_end(b, i) matches Some(e) ==> i <= e < b.len() && b[e] == 0x22,
    decreases b.len() - i,
{
    if 0 <= i < b.len() {
        if b[i] == 0x5c {
            if i + 1 < b.len() {
                lemma_string_end_bounds(b, i + 2);
            }
        } else if b[i] != 0x22 {
            lemma_string_end_bounds(b, i + 1);
        }
    }
}

/// Where the number that starts at `i` (with a digit or `-`) ends, or why
/// it is no number: a second dot, or no digit at all.
pub open spec fn number_token_end(b: Seq<u8>, i: int) -> Result<int, TokenizeError> {
    let d = if b[i] == 0x2d { i + 1 } else { i };
    match number_end(b, d, false) {
        None => Err(TokenizeError::MultipleDots),
        Some(e) => if has_digit(b, i, e) {
            Ok(e)
        } else {
            Err(TokenizeError::InvalidNumber)
        },
    }
}

pub proof fn lemma_number_token_end_bounds(b: Seq<u8>, i: int)
    requires
        0 <= i < b.len(),
    ensures
        number_token_end(b, i) matches Ok(e) ==> i < e <= b.len(),
{
    let d = if b[i] == 0x2d { i + 1 } else { i };
    lemma_number_end_bounds(b, d, false);
}

/// `t` in front of the tokens of `rest`, or the error of `rest`.
pub open spec fn cons(t: TokenV, rest: Result<Seq<TokenV>, TokenizeError>) -> Result<
    Seq<TokenV>,
    TokenizeError,
> {
    match rest {
        Ok(ts) => Ok(seq![t] + ts),
        Err(e) => Err(e),
    }
}

/// The tokens of `b` from position `i` on, or the first error met there.
pub open spec fn lex(b: Seq<u8>, i: int) -> Result<Seq<TokenV>, TokenizeError>
    decreases b.len() - i,
{
    if i < 0 || i >= b.len() {
        Ok(seq![])
    } else {
        let c = b[i];
        if c == 0x7b {
            cons(TokenV::LeftBrace, lex(b, i + 1))
        } else if c == 0x7d {
            cons(TokenV::RightBrace, lex(b, i + 1))
        } else if c == 0x5b {
            cons(TokenV::LeftBracket, lex(b, i + 1))
        } else if c == 0x5d {
            cons(TokenV::RightBracket, lex(b, i + 1))
        } else if c == 0x3a {
            cons(TokenV::Colon, lex(b, i + 1))
        } else if c == 0x2c {
            cons(TokenV::Comma, lex(b, i + 1))
        } else if c == 0x74 && has_word(b, i, word_true()) {
            cons(TokenV::True, lex(b, i + 4))
        } else if c == 0x66 && has_word(b, i, word_false()) {
            cons(TokenV::False, lex(b, i + 5))
        } else if c == 0x6e && has_word(b, i, word_null()) {
            cons(TokenV::Null, lex(b, i + 4))
        } else if is_digit(c) || c == 0x2d {
            match number_token_end(b, i) {
                Err(e) => Err(e),
                Ok(e) => {
                    proof {
                        lemma_number_token_end_bounds(b, i);
                    }
                    cons(TokenV::Num(decode_utf8(b.subrange(i, e))), lex(b, e))
                },
            }
        } else if c == 0x22 {
            match string_end(b, i + 1) {
                None => Err(TokenizeError::UnterminatedString),
                Some(e) => {
                    proof {
                        lemma_string_end_bounds(b, i + 1);
                    }
                    cons(TokenV::Str(decode_utf8(b.subrange(i + 1, e))), lex(b, e + 1))
                },
            }
        } else if is_blank(c) {
            lex(b, i + 1)
        } else {
            Err(TokenizeError::UnexpectedCharacter(c))
        }
    }
}

/// The views of a vector of tokens.
pub open spec fn tokens_view(ts: Seq<Token>) -> Seq<TokenV> {
    ts.map_values(|t: Token| t@)
}

/// What `tokenize` returns, seen through the views of its tokens.
pub open spec fn tokenize_result_view(r: Result<Vec<Token>, TokenizeError>) -> Result<
    Seq<TokenV>,
    TokenizeError,
> {
    match r {
        Ok(ts) => Ok(tokens_view(ts@)),
        Err(e) => Err(e),
    }
}

/// `prefix` in front of what `rest` holds.
pub open spec fn glue(prefix: Seq<TokenV>, rest: Result<Seq<TokenV>, TokenizeError>) -> Result<
    Seq<TokenV>,
    TokenizeError,
> {
    match rest {
        Ok(ts) => Ok(prefix + ts),
        Err(e) => Err(e),
    }
}

proof fn lemma_push_one(before: Seq<Token>, t: Token, rest: Result<Seq<TokenV>, TokenizeError>)
    ensures
        glue(tokens_view(before.push(t)), rest) == glue(tokens_view(before), cons(t@, rest)),
{
    assert(tokens_view(before.push(t)) =~= tokens_view(before).push(t@));
    if let Ok(ts) = rest {
        assert(tokens_view(before) + (seq![t@] + ts) =~= tokens_view(before).push(t@) + ts);
    }
}

/// Whether `bytes` holds the word `w` at `idx`.
fn word_at(bytes: &[u8], idx: usize, w: &[u8]) -> (r: bool)
    ensures
        r == has_word(bytes@, idx as int, w@),
{
    if w.len() > bytes.len() || idx > bytes.len() - w.len() {
        return false;
    }
    let mut k: usize = 0;
    while k < w.len()
        invariant
            idx + w@.len() <= bytes@.len(),
            idx + w.len() <= bytes.len(),
            k <= w.len(),
            forall|j: int| 0 <= j < k ==> bytes@[idx + j] == w@[j],
        decreases w.len() - k,
    {
        if bytes[idx + k] != w[k] {
            proof {
                assert(bytes@.subrange(idx as int, idx + w@.len())[k as int] != w@[k as int]);
            }
            return false;
        }
        k += 1;
    }
    assert(bytes@.subrange(idx as int, idx + w@.len()) =~= w@);
    true
}

/// Scans the number that starts at `start`.
fn scan_number(bytes: &[u8], start: usize) -> (r: Result<usize, TokenizeError>)
    requires
        start < bytes@.len(),
        is_digit(bytes@[start as int]) || bytes@[start as int] == 0x2d,
    ensures
        match r {
            Ok(e) => number_token_end(bytes@, start as int) == Ok::<int, TokenizeError>(e as int)
                && start < e && bytes@[e - 1] <= 0x7f,
            Err(x) => number_token_end(bytes@, start as int) == Err::<int, TokenizeError>(x),
        },
{
    let ghost b = bytes@;
    let len = bytes.len();
    let mut idx = start;
    if bytes[idx] == 0x2du8 {
        idx += 1;
    }
    let ghost d = idx as int;
    let mut has_dot = false;
    let mut digits = false;
    assert(!has_digit(b, start as int, idx as int));
    while idx < len
        invariant
            b == bytes@,
            len == b.len(),
            start <= d <= idx <= len,
            d == (if b[start as int] == 0x2d { start + 1 } else { start as int }),
            number_end(b, d, false) == number_end(b, idx as int, has_dot),
            digits == has_digit(b, start as int, idx as int),
            idx > start ==> b[idx - 1] <= 0x7f,
        ensures
            number_end(b, d, false) == Some(idx as int),
            digits == has_digit(b, start as int, idx as int),
            idx > start ==> b[idx - 1] <= 0x7f,
            start <= idx <= len,
        decreases len - idx,
    {
        let x = bytes[idx];
        if 0x30u8 <= x && x <= 0x39u8 {
            idx += 1;
            digits = true;
            assert(is_digit(b[idx - 1]));
        } else if x == 0x2eu8 {
            if has_dot {
                return Err(TokenizeError::MultipleDots);
            }
            has_dot = true;
            idx += 1;
            assert(has_digit(b, start as int, idx as int) == has_digit(b, start as int, idx - 1));
        } else {
            break;
        }
    }
    if digits {
        assert(idx > start);
        Ok(idx)
    } else {
        Err(TokenizeError::InvalidNumber)
    }
}

/// Finds the quote that closes a string whose text starts at `start`.
fn scan_string(bytes: &[u8], start: usize) -> (r: Option<usize>)
    requires
        start <= bytes@.len(),
    ensures
        r matches Some(e) ==> string_end(bytes@, start as int) == Some(e as int),
        r is None ==> string_end(bytes@, start as int) is None,
{
    let ghost b = bytes@;
    let len = bytes.len();
    let mut idx = start;
    while idx < len
        invariant
            b == bytes@,
            len == b.len(),
            start <= idx <= len,
            string_end(b, start as int) == string_end(b, idx as int),
        decreases len - idx,
    {
        let x = bytes[idx];
        if x == 0x5cu8 {
            if len - idx < 2 {
                idx = len;
            } else {
                idx += 2;
            }
        } else if x == 0x22u8 {
            return Some(idx);
        } else {
            idx += 1;
        }
    }
    None
}

/// Splits `input` into tokens.
///
/// The result is the spec `lex` of the input's UTF-8 bytes: the tokens in
/// order, or the first error met from the left.
pub fn tokenize(input: &str) -> (r: Result<Vec<Token>, TokenizeError>)
    ensures
        tokenize_result_view(r) == lex(input.spec_bytes(), 0),
{
    let bytes = input.as_bytes();
    let len = bytes.len();
    let ghost b = input.spec_bytes();
    let mut res: Vec<Token> = Vec::new();
    let mut idx: usize = 0;
    proof {
        if let Ok(ts) = lex(b, 0) {
            assert(tokens_view(res@) + ts =~= ts);
        }
    }
    while idx < len
        invariant
            bytes@ == b,
            len == b.len(),
            valid_utf8(b),
            b == input.spec_bytes(),
            idx <= len,
            glue(tokens_view(res@), lex(b, idx as int)) == lex(b, 0),
        decreases len - idx,
    {
        let ghost before = res@;
        let ghost at = idx as int;
        let c = bytes[idx];
        if c == 0x7bu8 {
            res.push(Token::LeftBrace);
            idx += 1;
            proof { lemma_push_one(before, Token::LeftBrace, lex(b, idx as int)); }
        } else if c == 0x7du8 {
            res.push(Token::RightBrace);
            idx += 1;
            proof { lemma_push_one(before, Token::RightBrace, lex(b, idx as int)); }
        } else if c == 0x5bu8 {
            res.push(Token::LeftBracket);
            idx += 1;
            proof { lemma_push_one(before, Token::LeftBracket, lex(b, idx as int)); }
        } else if c == 0x5du8 {
            res.push(Token::RightBracket);
            idx += 1;
            proof { lemma_push_one(before, Token::RightBracket, lex(b, idx as int)); }
        } else if c == 0x3au8 {
            res.push(Token::Colon);
            idx += 1;
            proof { lemma_push_one(before, Token::Colon, lex(b, idx as int)); }
        } else if c == 0x2cu8 {
            res.push(Token::Comma);
            idx += 1;
            proof { lemma_push_one(before, Token::Comma, lex(b, idx as int)); }
        } else if c == 0x74u8 && word_at(bytes, idx, &[0x74u8, 0x72u8, 0x75u8, 0x65u8]) {
            res.push(Token::True);
            idx += 4;
            proof { lemma_push_one(before, Token::True, lex(b, idx as int)); }
        } else if c == 0x66u8 && word_at(bytes, idx, &[0x66u8, 0x61u8, 0x6cu8, 0x73u8, 0x65u8]) {
            res.push(Token::False);
            idx += 5;
            proof { lemma_push_one(before, Token::False, lex(b, idx as int)); }
        } else if c == 0x6eu8 && word_at(bytes, idx, &[0x6eu8, 0x75u8, 0x6cu8, 0x6cu8]) {
            res.push(Token::Null);
            idx += 4;
            proof { lemma_push_one(before, Token::Null, lex(b, idx as int)); }
        } else if (0x30u8 <= c && c <= 0x39u8) || c == 0x2du8 {
            match scan_number(bytes, idx) {
                Err(e) => {
                    return Err(e);
                },
                Ok(e) => {
                    proof {
                        lemma_number_token_end_bounds(b, at);
                        lemma_ascii_is_boundary(b, at);
                        lemma_after_ascii_is_boundary(b, e - 1);
                    }
                    let text = substring(input, idx, e);
                    let t = Token::NumberToken(text);
                    res.push(t);
                    idx = e;
                    proof { lemma_push_one(before, t, lex(b, idx as int)); }
                },
            }
        } else if c == 0x22u8 {
            match scan_string(bytes, idx + 1) {
                None => {
                    return Err(TokenizeError::UnterminatedString);
                },
                Some(e) => {
                    proof {
                        lemma_string_end_bounds(b, at + 1);
                        lemma_after_ascii_is_boundary(b, at);
                        lemma_ascii_is_boundary(b, e as int);
                    }
                    let text = substring(input, idx + 1, e);
                    let t = Token::StringToken(text);
                    res.push(t);
                    idx = e + 1;
                    proof { lemma_push_one(before, t, lex(b, idx as int)); }
                },
            }
        } else if c == 0x20u8 || c == 0x09u8 || c == 0x0au8 || c == 0x0du8 {
            idx += 1;
        } else {
            return Err(TokenizeError::UnexpectedCharacter(c));
        }
    }
    proof {
        assert(tokens_view(res@) + seq![] =~= tokens_view(res@));
    }
    Ok(res)
}

/// The text of a number without its leading `-`.
pub open spec fn number_body(s: Seq<char>) -> Seq<char> {
    if s.len() > 0 && s[0] == '-' {
        s.drop_first()
    } else {
        s
    }
}

/// The text of a number as Rust's float parser takes it: an optional `-`,
/// then digits and at most one `.`, with at least one digit.
pub open spec fn float_literal(s: Seq<char>) -> bool {
    let body = number_body(s);
    &&& forall|k: int| 0 <= k < body.len() ==> ('0' <= #[trigger] body[k] <= '9' || body[k] == '.')
    &&& forall|k1: int, k2: int|
        0 <= k1 < k2 < body.len() ==> !(#[trigger] body[k1] == '.' && #[trigger] body[k2] == '.')
    &&& exists|k: int| 0 <= k < body.len() && '0' <= #[trigger] body[k] <= '9'
}

/// ASCII bytes decode to the characters with the same codes.
proof fn lemma_decode_ascii(bs: Seq<u8>)
    requires
        forall|k: int| 0 <= k < bs.len() ==> #[trigger] bs[k] <= 0x7f,
    ensures
        valid_utf8(bs),
        decode_utf8(bs).len() == bs.len(),
        forall|k: int| 0 <= k < bs.len() ==> #[trigger] decode_utf8(bs)[k] == bs[k] as char,
    decreases bs.len(),
{
    if bs.len() > 0 {
        let rest = pop_first_scalar(bs);
        assert(rest =~= bs.drop_first());
        assert forall|k: int| 0 <= k < rest.len() implies #[trigger] rest[k] <= 0x7f by {
            assert(rest[k] == bs[k + 1]);
        }
        lemma_decode_ascii(rest);
        let b0 = bs[0];
        assert(b0 & 0x7f == b0) by (bit_vector)
            requires
                b0 <= 0x7f,
        ;
        assert(decode_first_scalar(bs) == b0 as u32);
        assert forall|k: int| 0 <= k < bs.len() implies #[trigger] decode_utf8(bs)[k] == bs[k] as char by {
            if k > 0 {
                assert(decode_utf8(bs)[k] == decode_utf8(rest)[k - 1]);
                assert(rest[k - 1] == bs[k]);
            }
        }
    }
}

/// The run scanned by `number_end` holds only digits and dots, with at most
/// one dot, and none when one was seen already.
proof fn lemma_number_run(b: Seq<u8>, i: int, seen_dot: bool)
    requires
        0 <= i <= b.len(),
    ensures
        number_end(b, i, seen_dot) matches Some(e) ==> {
            &&& forall|k: int| i <= k < e ==> is_digit(#[trigger] b[k]) || b[k] == 0x2e
            &&& forall|k1: int, k2: int|
                i <= k1 < k2 < e ==> !(#[trigger] b[k1] == 0x2e && #[trigger] b[k2] == 0x2e)
            &&& seen_dot ==> forall|k: int| i <= k < e ==> #[trigger] b[k] != 0x2e
        },
    decreases b.len() - i,
{
    if i < b.len() {
        if is_digit(b[i]) {
            lemma_number_run(b, i + 1, seen_dot);
        } else if b[i] == 0x2e && !seen_dot {
            lemma_number_run(b, i + 1, true);
        }
    }
}

/// The text of a number token is a float literal.
proof fn lemma_number_text(b: Seq<u8>, i: int)
    requires
        0 <= i < b.len(),
        is_digit(b[i]) || b[i] == 0x2d,
        number_token_end(b, i) is Ok,
    ensures
        number_token_end(b, i) matches Ok(e) ==> float_literal(decode_utf8(b.subrange(i, e))),
{
    let d = if b[i] == 0x2d { i + 1 } else { i };
    lemma_number_end_bounds(b, d, false);
    lemma_number_run(b, d, false);
    let e = number_token_end(b, i)->Ok_0;
    let bs = b.subrange(i, e);
    assert forall|k: int| 0 <= k < bs.len() implies #[trigger] bs[k] <= 0x7f by {
        assert(bs[k] == b[i + k]);
    }
    lemma_decode_ascii(bs);
    let s = decode_utf8(bs);
    let off = d - i;
    assert(e > i);
    assert(s[0] == b[i] as char);
    assert((s[0] == '-') == (b[i] == 0x2d));
    let body = number_body(s);
    assert(body.len() == e - d);
    assert forall|k: int| 0 <= k < body.len() implies #[trigger] body[k] == b[d + k] as char by {
        assert(s[k + off] == bs[k + off] as char);
        assert(bs[k + off] == b[d + k]);
    }
    assert forall|k: int| 0 <= k < body.len() implies ('0' <= #[trigger] body[k] <= '9' || body[k]
        == '.') by {
        assert(body[k] == b[d + k] as char);
    }
    assert forall|k1: int, k2: int| 0 <= k1 < k2 < body.len() implies !(#[trigger] body[k1] == '.'
        && #[trigger] body[k2] == '.') by {
        assert(body[k1] == b[d + k1] as char);
        assert(body[k2] == b[d + k2] as char);
    }
    let w = choose|w: int| i <= w < e && is_digit(#[trigger] b[w]);
    assert(w >= d);
    assert(body[w - d] == b[w] as char);
    assert('0' <= body[w - d] <= '9');
    assert(exists|k: int| 0 <= k < body.len() && '0' <= #[trigger] body[k] <= '9');
    assert(float_literal(s));
}

/// Every number token that the tokenizer yields holds a float literal, so
/// reading its value as a float cannot fail.
pub proof fn lemma_number_tokens_are_float_literals(b: Seq<u8>, i: int)
    ensures
        lex(b, i) matches Ok(ts) ==> forall|k: int|
            0 <= k < ts.len() && (#[trigger] ts[k]) is Num ==> float_literal(ts[k]->Num_0),
    decreases b.len() - i,
{
    if 0 <= i < b.len() {
        let c = b[i];
        let next: int = if c == 0x7b || c == 0x7d || c == 0x5b || c == 0x5d || c == 0x3a || c == 0x2c
            || is_blank(c) {
            i + 1
        } else if c == 0x74 && has_word(b, i, word_true()) {
            i + 4
        } else if c == 0x66 && has_word(b, i, word_false()) {
            i + 5
        } else if c == 0x6e && has_word(b, i, word_null()) {
            i + 4
        } else if is_digit(c) || c == 0x2d {
            lemma_number_token_end_bounds(b, i);
            match number_token_end(b, i) {
                Ok(e) => e,
                Err(_) => i + 1,
            }
        } else if c == 0x22 {
            lemma_string_end_bounds(b, i + 1);
            match string_end(b, i + 1) {
                Some(e) => e + 1,
                None => i + 1,
            }
        } else {
            i + 1
        };
        lemma_number_tokens_are_float_literals(b, next);
        if (is_digit(c) || c == 0x2d) && number_token_end(b, i) is Ok {
            lemma_number_text(b, i);
        }
        if let Ok(ts) = lex(b, i) {
            assert forall|k: int| 0 <= k < ts.len() && (#[trigger] ts[k]) is Num implies float_literal(
                ts[k]->Num_0,
            ) by {
                if k > 0 && !is_blank(c) {
                    let rest = lex(b, next)->Ok_0;
                    assert(ts[k] == rest[k - 1]);
                }
            }
        }
    }
}

/* Joining texts: what the tokens of a text depend on. */

proof fn lemma_number_end_shift(p: Seq<u8>, b: Seq<u8>, k: int, seen_dot: bool)
    requires
        0 <= k,
    ensures
        match number_end(b, k, seen_dot) {
            Some(e) => number_end(p + b, p.len() + k, seen_dot) == Some(p.len() + e),
            None => number_end(p + b, p.len() + k, seen_dot) is None,
        },
    decreases b.len() - k,
{
    if k < b.len() {
        assert((p + b)[p.len() + k] == b[k]);
        if is_digit(b[k]) {
            lemma_number_end_shift(p, b, k + 1, seen_dot);
        } else if b[k] == 0x2e && !seen_dot {
            lemma_number_end_shift(p, b, k + 1, true);
        }
    }
}

proof fn lemma_string_end_shift(p: Seq<u8>, b: Seq<u8>, k: int)
    requires
        0 <= k,
    ensures
        match string_end(b, k) {
            Some(e) => string_end(p + b, p.len() + k) == Some(p.len() + e),
            None => string_end(p + b, p.len() + k) is None,
        },
    decreases b.len() - k,
{
    if k < b.len() {
        assert((p + b)[p.len() + k] == b[k]);
        if b[k] == 0x5c {
            if k + 1 < b.len() {
                lemma_string_end_shift(p, b, k + 2);
            }
        } else if b[k] != 0x22 {
            lemma_string_end_shift(p, b, k + 1);
        }
    }
}

proof fn lemma_subrange_shift(p: Seq<u8>, b: Seq<u8>, s: int, e: int)
    requires
        0 <= s <= e <= b.len(),
    ensures
        (p + b).subrange(p.len() + s, p.len() + e) == b.subrange(s, e),
{
    assert((p + b).subrange(p.len() + s, p.len() + e) =~= b.subrange(s, e));
}

proof fn lemma_has_word_shift(p: Seq<u8>, b: Seq<u8>, k: int, w: Seq<u8>)
    requires
        0 <= k,
    ensures
        has_word(p + b, p.len() + k, w) == has_word(b, k, w),
{
    if k + w.len() <= b.len() {
        lemma_subrange_shift(p, b, k, k + w.len());
    }
}

proof fn lemma_number_token_end_shift(p: Seq<u8>, b: Seq<u8>, k: int)
    requires
        0 <= k < b.len(),
    ensures
        match number_token_end(b, k) {
            Ok(e) => number_token_end(p + b, p.len() + k) == Ok::<int, TokenizeError>(p.len() + e),
            Err(x) => number_token_end(p + b, p.len() + k) == Err::<int, TokenizeError>(x),
        },
{
    let n = p.len() as int;
    assert((p + b)[n + k] == b[k]);
    let d = if b[k] == 0x2d { k + 1 } else { k };
    lemma_number_end_shift(p, b, d, false);
    lemma_number_end_bounds(b, d, false);
    if let Some(e) = number_end(b, d, false) {
        assert(has_digit(p + b, n + k, n + e) == has_digit(b, k, e)) by {
            if has_digit(b, k, e) {
                let w = choose|w: int| k <= w < e && is_digit(#[trigger] b[w]);
                assert((p + b)[n + w] == b[w]);
            }
            if has_digit(p + b, n + k, n + e) {
                let w = choose|w: int| n + k <= w < n + e && is_digit(#[trigger] (p + b)[w]);
                assert((p + b)[w] == b[w - n]);
            }
        }
    }
}

/// The tokens of a text from a position on do not depend on what stands
/// before that position.
proof fn lemma_lex_shift(p: Seq<u8>, b: Seq<u8>, k: int)
    requires
        0 <= k,
    ensures
        lex(p + b, p.len() + k) == lex(b, k),
    decreases b.len() - k,
{
    let n = p.len() as int;
    if k < b.len() {
        let c = b[k];
        assert((p + b)[n + k] == c);
        lemma_has_word_shift(p, b, k, word_true());
        lemma_has_word_shift(p, b, k, word_false());
        lemma_has_word_shift(p, b, k, word_null());
        if c == 0x7b || c == 0x7d || c == 0x5b || c == 0x5d || c == 0x3a || c == 0x2c || is_blank(c) {
            lemma_lex_shift(p, b, k + 1);
        } else if c == 0x74 && has_word(b, k, word_true()) {
            lemma_lex_shift(p, b, k + 4);
        } else if c == 0x66 && has_word(b, k, word_false()) {
            lemma_lex_shift(p, b, k + 5);
        } else if c == 0x6e && has_word(b, k, word_null()) {
            lemma_lex_shift(p, b, k + 4);
        } else if is_digit(c) || c == 0x2d {
            lemma_number_token_end_shift(p, b, k);
            lemma_number_token_end_bounds(b, k);
            if let Ok(e) = number_token_end(b, k) {
                lemma_lex_shift(p, b, e);
                lemma_subrange_shift(p, b, k, e);
            }
        } else if c == 0x22 {
            lemma_string_end_shift(p, b, k + 1);
            lemma_string_end_bounds(b, k + 1);
            if let Some(e) = string_end(b, k + 1) {
                lemma_lex_shift(p, b, e + 1);
                lemma_subrange_shift(p, b, k + 1, e);
            }
        }
    } else {
        assert(p.len() + k >= (p + b).len());
    }
}

proof fn lemma_number_end_extend(a: Seq<u8>, r: Seq<u8>, k: int, seen_dot: bool)
    requires
        0 <= k <= a.len(),
        r.len() > 0,
        is_blank(r[0]),
    ensures
        number_end(a + r, k, seen_dot) == number_end(a, k, seen_dot),
    decreases a.len() - k,
{
    if k < a.len() {
        assert((a + r)[k] == a[k]);
        if is_digit(a[k]) {
            lemma_number_end_extend(a, r, k + 1, seen_dot);
        } else if a[k] == 0x2e && !seen_dot {
            lemma_number_end_extend(a, r, k + 1, true);
        }
    } else {
        assert((a + r)[k] == r[0]);
    }
}

proof fn lemma_string_end_extend(a: Seq<u8>, r: Seq<u8>, k: int)
    requires
        0 <= k,
        string_end(a, k) is Some,
    ensures
        string_end(a + r, k) == string_end(a, k),
    decreases a.len() - k,
{
    if k < a.len() {
        assert((a + r)[k] == a[k]);
        if a[k] == 0x5c {
            assert(k + 1 < a.len());
            lemma_string_end_extend(a, r, k + 2);
        } else if a[k] != 0x22 {
            lemma_string_end_extend(a, r, k + 1);
        }
    }
}

proof fn lemma_subrange_extend(a: Seq<u8>, r: Seq<u8>, s: int, e: int)
    requires
        0 <= s <= e <= a.len(),
    ensures
        (a + r).subrange(s, e) == a.subrange(s, e),
{
    assert((a + r).subrange(s, e) =~= a.subrange(s, e));
}

proof fn lemma_cons_glue(t: TokenV, prefix: Seq<TokenV>, rest: Result<Seq<TokenV>, TokenizeError>)
    ensures
        cons(t, glue(prefix, rest)) == glue(seq![t] + prefix, rest),
{
    if let Ok(ts) = rest {
        assert(seq![t] + (prefix + ts) =~= (seq![t] + prefix) + ts);
    }
}

/// A text that tokenizes, followed by a blank and more: its tokens come
/// first, then those from where it ends.
proof fn lemma_lex_extend(a: Seq<u8>, r: Seq<u8>, i: int)
    requires
        0 <= i <= a.len(),
        r.len() > 0,
        is_blank(r[0]),
        lex(a, i) is Ok,
    ensures
        lex(a + r, i) == glue(lex(a, i)->Ok_0, lex(a + r, a.len() as int)),
    decreases a.len() - i,
{
    let x = a + r;
    if i == a.len() {
        if let Ok(ts) = lex(x, i) {
            assert(Seq::<TokenV>::empty() + ts =~= ts);
        }
    } else {
        let c = a[i];
        assert(x[i] == c);
        if c == 0x74 && has_word(a, i, word_true()) {
            lemma_subrange_extend(a, r, i, i + 4);
        }
        if c == 0x66 && has_word(a, i, word_false()) {
            lemma_subrange_extend(a, r, i, i + 5);
        }
        if c == 0x6e && has_word(a, i, word_null()) {
            lemma_subrange_extend(a, r, i, i + 4);
        }
        let next: int = if c == 0x7b || c == 0x7d || c == 0x5b || c == 0x5d || c == 0x3a || c == 0x2c
            || is_blank(c) {
            i + 1
        } else if c == 0x74 && has_word(a, i, word_true()) {
            i + 4
        } else if c == 0x66 && has_word(a, i, word_false()) {
            i + 5
        } else if c == 0x6e && has_word(a, i, word_null()) {
            i + 4
        } else if is_digit(c) || c == 0x2d {
            let d = if c == 0x2d { i + 1 } else { i };
            lemma_number_end_extend(a, r, d, false);
            lemma_number_end_bounds(a, d, false);
            lemma_number_token_end_bounds(a, i);
            match number_token_end(a, i) {
                Ok(e) => {
                    assert(has_digit(x, i, e) == has_digit(a, i, e)) by {
                        if has_digit(a, i, e) {
                            let w = choose|w: int| i <= w < e && is_digit(#[trigger] a[w]);
                            assert(x[w] == a[w]);
                        }
                        if has_digit(x, i, e) {
                            let w = choose|w: int| i <= w < e && is_digit(#[trigger] x[w]);
                            assert(x[w] == a[w]);
                        }
                    }
                    lemma_subrange_extend(a, r, i, e);
                    e
                },
                Err(_) => i + 1,
            }
        } else if c == 0x22 {
            lemma_string_end_bounds(a, i + 1);
            match string_end(a, i + 1) {
                Some(e) => {
                    lemma_string_end_extend(a, r, i + 1);
                    lemma_subrange_extend(a, r, i + 1, e);
                    e + 1
                },
                None => i + 1,
            }
        } else {
            i + 1
        };
        if lex(a, next) is Ok && next <= a.len() {
            lemma_lex_extend(a, r, next);
        }
        if !is_blank(c) {
            if let Ok(ts) = lex(a, next) {
                if next <= a.len() {
                    let t = lex(a, i)->Ok_0[0];
                    lemma_cons_glue(t, ts, lex(x, a.len() as int));
                }
            }
        }
    }
}

proof fn lemma_lex_blanks(x: Seq<u8>, i: int, m: int)
    requires
        0 <= i,
        0 <= m,
        i + m <= x.len(),
        forall|k: int| i <= k < i + m ==> is_blank(#[trigger] x[k]),
    ensures
        lex(x, i) == lex(x, i + m),
    decreases m,
{
    if m > 0 {
        lemma_lex_blanks(x, i + 1, m - 1);
    }
}

/// Blanks between two texts that tokenize separate their tokens: the joined
/// text gives the tokens of the first, then those of the second.
pub proof fn lemma_lex_join_blanks(a: Seq<u8>, ws: Seq<u8>, b: Seq<u8>)
    requires
        lex(a, 0) is Ok,
        lex(b, 0) is Ok,
        ws.len() > 0,
        forall|k: int| 0 <= k < ws.len() ==> is_blank(#[trigger] ws[k]),
    ensures
        lex(a + ws + b, 0) == Ok::<Seq<TokenV>, TokenizeError>(lex(a, 0)->Ok_0 + lex(b, 0)->Ok_0),
{
    let x = a + ws + b;
    let r = ws + b;
    assert(x =~= a + r);
    assert(r[0] == ws[0]);
    lemma_lex_extend(a, r, 0);
    assert forall|k: int| a.len() <= k < a.len() + ws.len() implies is_blank(#[trigger] x[k]) by {
        assert(x[k] == ws[k - a.len()]);
    }
    lemma_lex_blanks(x, a.len() as int, ws.len() as int);
    lemma_lex_shift(a + ws, b, 0);
}

proof fn lemma_encode_concat(x: Seq<char>, y: Seq<char>)
    ensures
        encode_utf8(x + y) == encode_utf8(x) + encode_utf8(y),
    decreases x.len(),
{
    if x.len() == 0 {
        assert(x + y =~= y);
        assert(encode_utf8(x) + encode_utf8(y) =~= encode_utf8(y));
    } else {
        assert((x + y).drop_first() =~= x.drop_first() + y);
        assert((x + y)[0] == x[0]);
        lemma_encode_concat(x.drop_first(), y);
        assert(encode_scalar(x[0] as u32) + (encode_utf8(x.drop_first()) + encode_utf8(y))
            =~= encode_scalar(x[0] as u32) + encode_utf8(x.drop_first()) + encode_utf8(y));
    }
}

/// `tokenize` on texts joined by blanks (spaces, tabs, line feeds, carriage
/// returns): when both texts tokenize, the joined text gives the tokens of
/// the first, then those of the second.
pub proof fn lemma_tokenize_join_blanks(a: Seq<char>, ws: Seq<char>, b: Seq<char>)
    requires
        lex(encode_utf8(a), 0) is Ok,
        lex(encode_utf8(b), 0) is Ok,
        ws.len() > 0,
        forall|k: int|
            0 <= k < ws.len() ==> (#[trigger] ws[k] == ' ' || ws[k] == '\t' || ws[k] == '\n' || ws[k]
                == '\r'),
    ensures
        lex(encode_utf8(a + ws + b), 0) == Ok::<Seq<TokenV>, TokenizeError>(
            lex(encode_utf8(a), 0)->Ok_0 + lex(encode_utf8(b), 0)->Ok_0,
        ),
{
    assert(vstd::utf8::is_ascii_chars(ws));
    vstd::utf8::is_ascii_chars_encode_utf8(ws);
    let wb = encode_utf8(ws);
    assert forall|k: int| 0 <= k < wb.len() implies is_blank(#[trigger] wb[k]) by {
        assert(ws[k] as u8 == wb[k]);
    }
    lemma_encode_concat(a, ws);
    lemma_encode_concat(a + ws, b);
    lemma_lex_join_blanks(encode_utf8(a), wb, encode_utf8(b));
}

} // verus!

//! Hand-written tokenizer for the supported OpenQASM 3 subset.
//!
//! The subset needs identifiers, numbers, strings and a small punctuation
//! set. Every token carries the 1-based line and column of its first
//! character, so diagnostics can point at the offending source position.
//!
//! The specification reads the source one lexeme at a time: whitespace and
//! comments are skipped, an identifier or number runs as far as its
//! characters allow, a string runs to its closing quote, and punctuation is
//! one character (two for `->`).
use vstd::prelude::*;

use crate::frontend::error::FrontendError;
use crate::text::{chars_of, push_char, push_str};

verus! {

/// Whether Unicode classes `c` as whitespace, as `char::is_whitespace`
/// reports.
pub uninterp spec fn unicode_whitespace(c: char) -> bool;

/// Whether Unicode classes `c` as alphabetic, as `char::is_alphabetic`
/// reports.
pub uninterp spec fn unicode_alphabetic(c: char) -> bool;

/// Whether Unicode classes `c` as numeric, as `char::is_numeric` reports.
pub uninterp spec fn unicode_numeric(c: char) -> bool;

/// An ASCII character.
pub open spec fn is_ascii(c: char) -> bool {
    (c as u32) < 128
}

/// An ASCII letter.
pub open spec fn ascii_letter(c: char) -> bool {
    ('a' <= c <= 'z') || ('A' <= c <= 'Z')
}

/// The ASCII characters with the Unicode `White_Space` property: space,
/// tab, line feed, vertical tab, form feed and carriage return.
pub open spec fn ascii_space(c: char) -> bool {
    c == ' ' || c == '\t' || c == '\n' || c == '\u{0B}' || c == '\u{0C}' || c == '\r'
}

/// Whitespace as the tokenizer sees it: exact for ASCII, Unicode's
/// `White_Space` beyond.
pub open spec fn whitespace_char(c: char) -> bool {
    if is_ascii(c) {
        ascii_space(c)
    } else {
        unicode_whitespace(c)
    }
}

/// A letter as the tokenizer sees it: exact for ASCII, Unicode's
/// `Alphabetic` beyond.
pub open spec fn alphabetic_char(c: char) -> bool {
    if is_ascii(c) {
        ascii_letter(c)
    } else {
        unicode_alphabetic(c)
    }
}

/// A letter or digit as the tokenizer sees it: exact for ASCII, Unicode's
/// `Alphabetic` or numeric classes beyond.
pub open spec fn alphanumeric_char(c: char) -> bool {
    if is_ascii(c) {
        ascii_letter(c) || ('0' <= c <= '9')
    } else {
        unicode_alphabetic(c) || unicode_numeric(c)
    }
}

/// `char::is_whitespace`: whether `c` has the Unicode `White_Space`
/// property, a function of `c` alone; among ASCII characters exactly
/// space, tab, line feed, vertical tab, form feed and carriage return.
#[verifier::external_body]
fn is_whitespace(c: char) -> (r: bool)
    ensures
        r == unicode_whitespace(c),
        is_ascii(c) ==> (r <==> ascii_space(c)),
{
    c.is_whitespace()
}

/// `char::is_alphabetic`: whether `c` has the Unicode `Alphabetic`
/// property, a function of `c` alone; among ASCII characters exactly the
/// letters.
#[verifier::external_body]
fn is_alphabetic(c: char) -> (r: bool)
    ensures
        r == unicode_alphabetic(c),
        is_ascii(c) ==> (r <==> ascii_letter(c)),
{
    c.is_alphabetic()
}

/// `char::is_alphanumeric`: as std documents, exactly the characters that
/// are alphabetic or numeric; among ASCII characters exactly the letters
/// and the decimal digits.
#[verifier::external_body]
fn is_alphanumeric(c: char) -> (r: bool)
    ensures
        r == (unicode_alphabetic(c) || unicode_numeric(c)),
        is_ascii(c) ==> (r <==> (ascii_letter(c) || ('0' <= c <= '9'))),
{
    c.is_alphanumeric()
}

/// An ASCII decimal digit.
pub open spec fn is_digit(c: char) -> bool {
    '0' <= c <= '9'
}

/// The characters a scanned numeric literal is made of.
pub open spec fn number_char(c: char) -> bool {
    is_digit(c) || c == '.' || c == 'e' || c == 'E' || c == '+' || c == '-'
}

/// Where the exponent of a numeric text starts: its first `e` or `E`, or
/// its length.
pub open spec fn exponent_start(t: Seq<char>, k: nat) -> nat
    decreases t.len() - k,
{
    if k >= t.len() || t[k as int] == 'e' || t[k as int] == 'E' {
        k
    } else {
        exponent_start(t, k + 1)
    }
}

/// A mantissa of decimal digits with at most one point and at least one
/// digit.
pub open spec fn valid_mantissa(m: Seq<char>) -> bool {
    &&& forall|k: int| 0 <= k < m.len() ==> is_digit(#[trigger] m[k]) || m[k] == '.'
    &&& forall|k: int, l: int| 0 <= k < l < m.len() && #[trigger] m[k] == '.' ==> #[trigger] m[l] != '.'
    &&& exists|k: int| 0 <= k < m.len() && is_digit(#[trigger] m[k])
}

/// The digits of an exponent text, after its `e` and optional sign.
pub open spec fn exponent_digits(x: Seq<char>) -> Seq<char> {
    if x.len() >= 2 && (x[1] == '+' || x[1] == '-') {
        x.subrange(2, x.len() as int)
    } else {
        x.subrange(1, x.len() as int)
    }
}

/// Every character is a decimal digit.
pub open spec fn all_digits(s: Seq<char>) -> bool {
    forall|k: int| 0 <= k < s.len() ==> is_digit(#[trigger] s[k])
}

/// An exponent: empty, or `e`/`E`, an optional sign and at least one digit.
pub open spec fn valid_exponent(x: Seq<char>) -> bool {
    x.len() == 0 || ((x[0] == 'e' || x[0] == 'E') && exponent_digits(x).len() > 0 && all_digits(
        exponent_digits(x),
    ))
}

/// Whether a numeric text is a decimal float literal: a mantissa of digits
/// with at most one point and at least one digit, then an optional exponent.
/// These are the texts of this shape that a binary64 parse accepts.
pub open spec fn decimal_float(t: Seq<char>) -> bool {
    let e = exponent_start(t, 0);
    valid_mantissa(t.subrange(0, e as int)) && valid_exponent(t.subrange(e as int, t.len() as int))
}

/// The abstract value of a [`TokenKind`].
pub enum TokenKindModel {
    /// See [`TokenKind::Ident`].
    Ident(Seq<char>),
    /// See [`TokenKind::Number`].
    Number(Seq<char>),
    /// See [`TokenKind::Str`].
    Str(Seq<char>),
    /// `;`
    Semicolon,
    /// `,`
    Comma,
    /// `(`
    LParen,
    /// `)`
    RParen,
    /// `[`
    LBracket,
    /// `]`
    RBracket,
    /// `{`
    LBrace,
    /// `}`
    RBrace,
    /// `=`
    Equals,
    /// `:`
    Colon,
    /// `->`
    Arrow,
    /// `+`
    Plus,
    /// `-`
    Minus,
    /// `*`
    Star,
    /// `/`
    Slash,
    /// End of input.
    Eof,
}

/// The token classes of the supported subset.
#[derive(Debug, Clone, PartialEq)]
pub enum TokenKind {
    /// An identifier or keyword (keywords are resolved by the parser).
    Ident(String),
    /// A numeric literal, as written: a decimal float text. Integers and
    /// floats share one class; the parser decides which it needs.
    Number(String),
    /// A double-quoted string literal, without the quotes.
    Str(String),
    /// `;`
    Semicolon,
    /// `,`
    Comma,
    /// `(`
    LParen,
    /// `)`
    RParen,
    /// `[`
    LBracket,
    /// `]`
    RBracket,
    /// `{`
    LBrace,
    /// `}`
    RBrace,
    /// `=`
    Equals,
    /// `:`, scanned so that a range inside an unsupported construct reaches
    /// the parser, which can then name the construct.
    Colon,
    /// `->`
    Arrow,
    /// `+`
    Plus,
    /// `-`
    Minus,
    /// `*`
    Star,
    /// `/`
    Slash,
    /// End of input.
    Eof,
}

impl View for TokenKind {
    type V = TokenKindModel;

    open spec fn view(&self) -> TokenKindModel {
        match self {
            TokenKind::Ident(s) => TokenKindModel::Ident(s@),
            TokenKind::Number(t) => TokenKindModel::Number(t@),
            TokenKind::Str(s) => TokenKindModel::Str(s@),
            TokenKind::Semicolon => TokenKindModel::Semicolon,
            TokenKind::Comma => TokenKindModel::Comma,
            TokenKind::LParen => TokenKindModel::LParen,
            TokenKind::RParen => TokenKindModel::RParen,
            TokenKind::LBracket => TokenKindModel::LBracket,
            TokenKind::RBracket => TokenKindModel::RBracket,
            TokenKind::LBrace => TokenKindModel::LBrace,
            TokenKind::RBrace => TokenKindModel::RBrace,
            TokenKind::Equals => TokenKindModel::Equals,
            TokenKind::Colon => TokenKindModel::Colon,
            TokenKind::Arrow => TokenKindModel::Arrow,
            TokenKind::Plus => TokenKindModel::Plus,
            TokenKind::Minus => TokenKindModel::Minus,
            TokenKind::Star => TokenKindModel::Star,
            TokenKind::Slash => TokenKindModel::Slash,
            TokenKind::Eof => TokenKindModel::Eof,
        }
    }
}

/// The abstract value of a [`Token`].
pub struct TokenModel {
    /// What was scanned.
    pub kind: TokenKindModel,
    /// 1-based line of the first character.
    pub line: nat,
    /// 1-based column of the first character.
    pub column: nat,
}

/// A lexical token together with its source position.
#[derive(Debug, Clone, PartialEq)]
pub struct Token {
    /// What was scanned.
    pub kind: TokenKind,
    /// 1-based line of the token's first character.
    pub line: u32,
    /// 1-based column of the token's first character.
    pub column: u32,
}

impl View for Token {
    type V = TokenModel;

    open spec fn view(&self) -> TokenModel {
        TokenModel { kind: self.kind@, line: self.line as nat, column: self.column as nat }
    }
}

/// The models of a token list.
pub open spec fn tokens_model(ts: Seq<Token>) -> Seq<TokenModel> {
    ts.map_values(|t: Token| t@)
}

/// The 1-based line of the character at index `i`.
pub open spec fn line_at(cs: Seq<char>, i: nat) -> nat
    decreases i,
{
    if i == 0 {
        1
    } else {
        line_at(cs, (i - 1) as nat) + if cs[i - 1] == '\n' {
            1nat
        } else {
            0nat
        }
    }
}

/// The 1-based column of the character at index `i`.
pub open spec fn column_at(cs: Seq<char>, i: nat) -> nat
    decreases i,
{
    if i == 0 {
        1
    } else if cs[i - 1] == '\n' {
        1
    } else {
        column_at(cs, (i - 1) as nat) + 1
    }
}

/// The end of the run of characters satisfying `p` that starts at `i`.
pub open spec fn span_end(cs: Seq<char>, i: nat, p: spec_fn(char) -> bool) -> nat
    decreases cs.len() - i,
{
    if i < cs.len() && p(cs[i as int]) {
        span_end(cs, i + 1, p)
    } else {
        i
    }
}

/// Characters a line comment runs over.
pub open spec fn not_newline() -> spec_fn(char) -> bool {
    |c: char| c != '\n'
}

/// Characters the body of a string literal runs over.
pub open spec fn string_body() -> spec_fn(char) -> bool {
    |c: char| c != '"' && c != '\n'
}

/// Characters the mantissa of a numeric literal runs over.
pub open spec fn mantissa_char() -> spec_fn(char) -> bool {
    |c: char| is_digit(c) || c == '.'
}

/// Characters the exponent digits of a numeric literal run over.
pub open spec fn digit_char() -> spec_fn(char) -> bool {
    |c: char| is_digit(c)
}

/// Characters an identifier runs over.
pub open spec fn ident_rest() -> spec_fn(char) -> bool {
    |c: char| ident_char(c)
}

/// Characters of an identifier after its first.
pub open spec fn ident_char(c: char) -> bool {
    alphanumeric_char(c) || c == '_'
}

/// The end of a numeric literal starting at `i`: digits and points, then an
/// optional `e` or `E`, an optional sign and digits.
pub open spec fn number_end(cs: Seq<char>, i: nat) -> nat {
    let j = span_end(cs, i, mantissa_char());
    if j < cs.len() && (cs[j as int] == 'e' || cs[j as int] == 'E') {
        let k = if j + 1 < cs.len() && (cs[(j + 1) as int] == '+' || cs[(j + 1) as int] == '-') {
            j + 2
        } else {
            j + 1
        };
        span_end(cs, k, digit_char())
    } else {
        j
    }
}

/// The index just past the first `*/` at or after `i`, if there is one.
pub open spec fn block_close(cs: Seq<char>, i: nat) -> Option<nat>
    decreases cs.len() - i,
{
    if i >= cs.len() {
        None
    } else if cs[i as int] == '*' && i + 1 < cs.len() && cs[(i + 1) as int] == '/' {
        Some(i + 2)
    } else {
        block_close(cs, i + 1)
    }
}

/// The one-character token a punctuation character scans as.
pub open spec fn punct(c: char) -> Option<TokenKindModel> {
    if c == ';' {
        Some(TokenKindModel::Semicolon)
    } else if c == ',' {
        Some(TokenKindModel::Comma)
    } else if c == '(' {
        Some(TokenKindModel::LParen)
    } else if c == ')' {
        Some(TokenKindModel::RParen)
    } else if c == '[' {
        Some(TokenKindModel::LBracket)
    } else if c == ']' {
        Some(TokenKindModel::RBracket)
    } else if c == '{' {
        Some(TokenKindModel::LBrace)
    } else if c == '}' {
        Some(TokenKindModel::RBrace)
    } else if c == '=' {
        Some(TokenKindModel::Equals)
    } else if c == ':' {
        Some(TokenKindModel::Colon)
    } else if c == '+' {
        Some(TokenKindModel::Plus)
    } else if c == '*' {
        Some(TokenKindModel::Star)
    } else if c == '/' {
        Some(TokenKindModel::Slash)
    } else if c == '-' {
        Some(TokenKindModel::Minus)
    } else {
        None
    }
}

/// A lexical error: its message and the 1-based position it is reported
/// at.
pub struct LexError {
    /// What went wrong.
    pub message: Seq<char>,
    /// 1-based line.
    pub line: nat,
    /// 1-based column.
    pub column: nat,
}

/// A token list with `t` in front, or the same error.
pub open spec fn prepend(t: TokenModel, r: Result<Seq<TokenModel>, LexError>) -> Result<
    Seq<TokenModel>,
    LexError,
> {
    match r {
        Ok(rest) => Ok(seq![t] + rest),
        Err(e) => Err(e),
    }
}

/// The token at index `i` of a source.
pub open spec fn token_at(cs: Seq<char>, i: nat, kind: TokenKindModel) -> TokenModel {
    TokenModel { kind, line: line_at(cs, i), column: column_at(cs, i) }
}

/// The error reported at index `i` of a source.
pub open spec fn error_at(cs: Seq<char>, i: nat, message: Seq<char>) -> LexError {
    LexError { message, line: line_at(cs, i), column: column_at(cs, i) }
}

/// Tokenizing the source from index `i` on, ending with `Eof`.
///
/// Whitespace and `//` or `/* … */` comments are skipped. An identifier
/// starts with an alphabetic character or `_` and runs over alphanumerics
/// and `_`. A number starts with a digit, or a point before a digit; its
/// text must be a decimal float, and is kept as written. A string runs from `"` to the next `"` on
/// the same line. Punctuation is one character, except `->`.
pub open spec fn lex(cs: Seq<char>, i: nat) -> Result<Seq<TokenModel>, LexError>
    decreases cs.len() - i,
{
    if i >= cs.len() {
        Ok(seq![token_at(cs, i, TokenKindModel::Eof)])
    } else {
        let c = cs[i as int];
        let next = if i + 1 < cs.len() {
            Some(cs[(i + 1) as int])
        } else {
            None
        };
        if whitespace_char(c) {
            lex(cs, i + 1)
        } else if c == '/' && next == Some('/') {
            let j = span_end(cs, i, not_newline());
            proof {
                lemma_span_end(cs, i, not_newline());
            }
            lex(cs, j)
        } else if c == '/' && next == Some('*') {
            match block_close(cs, i + 2) {
                None => Err(error_at(cs, i, "unterminated block comment"@)),
                Some(j) => {
                    proof {
                        lemma_block_close(cs, i + 2);
                    }
                    lex(cs, j)
                },
            }
        } else if alphabetic_char(c) || c == '_' {
            let j = span_end(cs, i, ident_rest());
            proof {
                lemma_span_end(cs, i, ident_rest());
            }
            prepend(
                token_at(cs, i, TokenKindModel::Ident(cs.subrange(i as int, j as int))),
                lex(cs, j),
            )
        } else if is_digit(c) || (c == '.' && next is Some && is_digit(next->0)) {
            let j = number_end(cs, i);
            let text = cs.subrange(i as int, j as int);
            if !decimal_float(text) {
                Err(error_at(cs, i, "malformed numeric literal `"@ + text + "`"@))
            } else {
                proof {
                    lemma_number_end(cs, i);
                }
                prepend(token_at(cs, i, TokenKindModel::Number(text)), lex(cs, j))
            }
        } else if c == '"' {
            let j = span_end(cs, i + 1, string_body());
            proof {
                lemma_span_end(cs, i + 1, string_body());
            }
            if j < cs.len() && cs[j as int] == '"' {
                prepend(
                    token_at(cs, i, TokenKindModel::Str(cs.subrange((i + 1) as int, j as int))),
                    lex(cs, j + 1),
                )
            } else {
                Err(error_at(cs, i, "unterminated string literal"@))
            }
        } else if c == '-' && next == Some('>') {
            prepend(token_at(cs, i, TokenKindModel::Arrow), lex(cs, i + 2))
        } else {
            match punct(c) {
                Some(k) => prepend(token_at(cs, i, k), lex(cs, i + 1)),
                None => Err(error_at(cs, i, "unexpected character `"@ + seq![c] + "`"@)),
            }
        }
    }
}

/// A token list with `ts` in front, or the same error.
pub open spec fn glue(ts: Seq<TokenModel>, r: Result<Seq<TokenModel>, LexError>) -> Result<
    Seq<TokenModel>,
    LexError,
> {
    match r {
        Ok(rest) => Ok(ts + rest),
        Err(e) => Err(e),
    }
}

/// Lines and columns never run ahead of the index.
proof fn lemma_position_bounds(cs: Seq<char>, i: nat)
    ensures
        1 <= line_at(cs, i) <= i + 1,
        1 <= column_at(cs, i) <= i + 1,
    decreases i,
{
    if i > 0 {
        lemma_position_bounds(cs, (i - 1) as nat);
    }
}

/// Moves past the character at `i`, keeping the line and column in step.
fn advance(cs: &Vec<char>, i: &mut usize, line: &mut u32, column: &mut u32)
    requires
        *old(i) < cs@.len(),
        cs@.len() < u32::MAX,
        *old(line) == line_at(cs@, *old(i) as nat),
        *old(column) == column_at(cs@, *old(i) as nat),
    ensures
        *final(i) == *old(i) + 1,
        *final(line) == line_at(cs@, *final(i) as nat),
        *final(column) == column_at(cs@, *final(i) as nat),
{
    proof {
        lemma_position_bounds(cs@, *i as nat);
    }
    if cs[*i] == '\n' {
        *line = *line + 1;
        *column = 1;
    } else {
        *column = *column + 1;
    }
    *i = *i + 1;
}

/// A syntax error at a position.
fn syntax_error(message: String, line: u32, column: u32) -> (r: FrontendError)
    ensures
        r matches FrontendError::Syntax { message: m, line: l, column: c } && m@ == message@
            && l == line && c == column,
{
    FrontendError::Syntax { message, line, column }
}

/// Whether `r` is the syntax error `e`.
pub open spec fn reports(r: FrontendError, e: LexError) -> bool {
    r matches FrontendError::Syntax { message, line, column } && message@ == e.message && line
        == e.line && column == e.column
}

/// Whether the characters `start..end` form a decimal float literal.
fn is_decimal_float(cs: &Vec<char>, start: usize, end: usize) -> (r: bool)
    requires
        start <= end <= cs@.len(),
    ensures
        r == decimal_float(cs@.subrange(start as int, end as int)),
{
    let ghost t = cs@.subrange(start as int, end as int);
    let mut e = start;
    while e < end && cs[e] != 'e' && cs[e] != 'E'
        invariant
            start <= e <= end <= cs@.len(),
            t == cs@.subrange(start as int, end as int),
            exponent_start(t, (e - start) as nat) == exponent_start(t, 0),
        decreases end - e,
    {
        e += 1;
    }
    proof {
        assert(exponent_start(t, (e - start) as nat) == (e - start) as nat);
        assert(exponent_start(t, 0) == (e - start) as nat);
    }
    let ghost m = t.subrange(0, (e - start) as int);
    proof {
        assert(decimal_float(t) == (valid_mantissa(m) && valid_exponent(
            t.subrange((e - start) as int, t.len() as int),
        )));
    }
    let mut k = start;
    let mut seen_dot = false;
    let mut seen_digit = false;
    while k < e
        invariant
            start <= k <= e <= end <= cs@.len(),
            t == cs@.subrange(start as int, end as int),
            m == t.subrange(0, (e - start) as int),
            decimal_float(t) == (valid_mantissa(m) && valid_exponent(
                t.subrange((e - start) as int, t.len() as int),
            )),
            forall|j: int| 0 <= j < k - start ==> is_digit(#[trigger] m[j]) || m[j] == '.',
            forall|j: int, l: int| 0 <= j < l < k - start && #[trigger] m[j] == '.' ==> #[trigger] m[l] != '.',
            seen_dot <==> exists|j: int| 0 <= j < k - start && #[trigger] m[j] == '.',
            seen_digit <==> exists|j: int| 0 <= j < k - start && is_digit(#[trigger] m[j]),
        decreases e - k,
    {
        let c = cs[k];
        proof {
            assert(m[k - start] == c);
        }
        if c == '.' {
            if seen_dot {
                proof {
                    let j = choose|j: int| 0 <= j < k - start && #[trigger] m[j] == '.';
                    assert(m[j] == '.' && m[k - start] == '.');
                    assert(!valid_mantissa(m));
                    assert(!decimal_float(t));
                }
                return false;
            }
            seen_dot = true;
        } else if '0' <= c && c <= '9' {
            seen_digit = true;
        } else {
            proof {
                assert(!(is_digit(m[k - start]) || m[k - start] == '.'));
                assert(!valid_mantissa(m));
                assert(!decimal_float(t));
            }
            return false;
        }
        k += 1;
    }
    if !seen_digit {
        proof {
            assert(m.len() == k - start);
            assert(!valid_mantissa(m));
            assert(!decimal_float(t));
        }
        return false;
    }
    proof {
        assert(valid_mantissa(m));
    }
    if e == end {
        proof {
            assert(t.subrange((e - start) as int, t.len() as int).len() == 0);
        }
        return true;
    }
    let ghost x = t.subrange((e - start) as int, t.len() as int);
    let d = if e + 1 < end && (cs[e + 1] == '+' || cs[e + 1] == '-') {
        e + 2
    } else {
        e + 1
    };
    let ghost digits = cs@.subrange(d as int, end as int);
    let ghost spec_digits = exponent_digits(x);
    proof {
        assert(x =~= cs@.subrange(e as int, end as int));
        assert(x.len() > 0);
        assert(x[0] == 'e' || x[0] == 'E');
        assert(decimal_float(t) == valid_exponent(x));
        assert(valid_exponent(x) == (spec_digits.len() > 0 && all_digits(spec_digits)));
        assert(x[0] == cs@[e as int]);
        if x.len() >= 2 {
            assert(x[1] == cs@[e + 1]);
        }
        if x.len() >= 2 && (x[1] == '+' || x[1] == '-') {
            assert(digits =~= x.subrange(2, x.len() as int));
        } else {
            assert(digits =~= x.subrange(1, x.len() as int));
        }
    }
    if d >= end {
        proof {
            assert(digits.len() == 0);
            assert(!valid_exponent(x));
            assert(!decimal_float(t));
        }
        return false;
    }
    let mut q = d;
    while q < end
        invariant
            d <= q <= end <= cs@.len(),
            digits == cs@.subrange(d as int, end as int),
            digits == spec_digits,
            t == cs@.subrange(start as int, end as int),
            decimal_float(t) == valid_exponent(x),
            x.len() > 0,
            x[0] == 'e' || x[0] == 'E',
            valid_exponent(x) == (spec_digits.len() > 0 && all_digits(spec_digits)),
            forall|j: int| 0 <= j < q - d ==> is_digit(#[trigger] digits[j]),
        decreases end - q,
    {
        let c = cs[q];
        proof {
            assert(digits[q - d] == c);
        }
        if !('0' <= c && c <= '9') {
            proof {
                assert(!is_digit(spec_digits[q - d]));
                assert(!all_digits(spec_digits));
                assert(!decimal_float(t));
            }
            return false;
        }
        q += 1;
    }
    proof {
        assert(all_digits(spec_digits));
    }
    true
}

/// Tokenizes an OpenQASM 3 source string, always ending with
/// [`TokenKind::Eof`]. Line (`//`) and block (`/* … */`) comments are
/// skipped.
///
/// # Errors
///
/// [`FrontendError::Syntax`] for an unterminated string or block comment,
/// a malformed number, or a character outside the subset's alphabet, at the
/// position where the offending lexeme starts.
pub fn tokenize(source: &str) -> (r: Result<Vec<Token>, FrontendError>)
    requires
        source@.len() < u32::MAX,
    ensures
        match (r, lex(source@, 0)) {
            (Ok(ts), Ok(expected)) => tokens_model(ts@) == expected,
            (Err(e), Err(expected)) => reports(e, expected),
            _ => false,
        },
{
    let cs = chars_of(source);
    let mut tokens: Vec<Token> = Vec::new();
    let mut i: usize = 0;
    let mut line: u32 = 1;
    let mut column: u32 = 1;
    proof {
        assert(tokens_model(tokens@) =~= Seq::<TokenModel>::empty());
        assert(glue(Seq::empty(), lex(cs@, 0)) == lex(cs@, 0)) by {
            if lex(cs@, 0) is Ok {
                assert(Seq::<TokenModel>::empty() + lex(cs@, 0)->Ok_0 =~= lex(cs@, 0)->Ok_0);
            }
        }
    }
    while i < cs.len()
        invariant
            cs@ == source@,
            cs@.len() < u32::MAX,
            i <= cs@.len(),
            line == line_at(cs@, i as nat),
            column == column_at(cs@, i as nat),
            lex(cs@, 0) == glue(tokens_model(tokens@), lex(cs@, i as nat)),
        decreases cs@.len() - i,
    {
        let c = cs[i];
        let next: Option<char> = if i + 1 < cs.len() {
            Some(cs[i + 1])
        } else {
            None
        };
        let start = i;
        let start_line = line;
        let start_column = column;
        proof {
            lemma_span_end(cs@, i as nat, not_newline());
        }
        if is_whitespace(c) {
            advance(&cs, &mut i, &mut line, &mut column);
            continue;
        }
        if c == '/' && next == Some('/') {
            while i < cs.len() && cs[i] != '\n'
                invariant
                    start <= i <= cs@.len(),
                    cs@.len() < u32::MAX,
                    line == line_at(cs@, i as nat),
                    column == column_at(cs@, i as nat),
                    span_end(cs@, start as nat, not_newline()) == span_end(cs@, i as nat, not_newline()),
                decreases cs@.len() - i,
            {
                advance(&cs, &mut i, &mut line, &mut column);
            }
            continue;
        }
        if c == '/' && next == Some('*') {
            advance(&cs, &mut i, &mut line, &mut column);
            advance(&cs, &mut i, &mut line, &mut column);
            while i < cs.len() && !(cs[i] == '*' && i + 1 < cs.len() && cs[i + 1] == '/')
                invariant
                    start + 2 <= i <= cs@.len(),
                    cs@.len() < u32::MAX,
                    line == line_at(cs@, i as nat),
                    column == column_at(cs@, i as nat),
                    block_close(cs@, (start + 2) as nat) == block_close(cs@, i as nat),
                decreases cs@.len() - i,
            {
                advance(&cs, &mut i, &mut line, &mut column);
            }
            if i >= cs.len() {
                let mut msg = String::new();
                push_str(&mut msg, "unterminated block comment");
                proof {
                    reveal_strlit("unterminated block comment");
                    assert(msg@ =~= "unterminated block comment"@);
                }
                return Err(syntax_error(msg, start_line, start_column));
            }
            advance(&cs, &mut i, &mut line, &mut column);
            advance(&cs, &mut i, &mut line, &mut column);
            continue;
        }
        if is_alphabetic(c) || c == '_' {
            let mut name = String::new();
            while i < cs.len() && (is_alphanumeric(cs[i]) || cs[i] == '_')
                invariant
                    start <= i <= cs@.len(),
                    cs@.len() < u32::MAX,
                    line == line_at(cs@, i as nat),
                    column == column_at(cs@, i as nat),
                    span_end(cs@, start as nat, ident_rest()) == span_end(cs@, i as nat, ident_rest()),
                    name@ == cs@.subrange(start as int, i as int),
                decreases cs@.len() - i,
            {
                push_char(&mut name, cs[i]);
                proof {
                    assert(name@ =~= cs@.subrange(start as int, i + 1));
                }
                advance(&cs, &mut i, &mut line, &mut column);
            }
            let ghost before = tokens_model(tokens@);
            tokens.push(Token { kind: TokenKind::Ident(name), line: start_line, column: start_column });
            proof {
                assert(tokens_model(tokens@) =~= before.push(
                    token_at(cs@, start as nat, TokenKindModel::Ident(cs@.subrange(start as int, i as int))),
                ));
                lemma_glue_one(before, token_at(cs@, start as nat, TokenKindModel::Ident(cs@.subrange(start as int, i as int))), lex(cs@, i as nat));
            }
            continue;
        }
        if ('0' <= c && c <= '9') || (c == '.' && i + 1 < cs.len() && '0' <= cs[i + 1] && cs[i + 1] <= '9') {
            let mut text = String::new();
            while i < cs.len() && (('0' <= cs[i] && cs[i] <= '9') || cs[i] == '.')
                invariant
                    start <= i <= cs@.len(),
                    cs@.len() < u32::MAX,
                    line == line_at(cs@, i as nat),
                    column == column_at(cs@, i as nat),
                    span_end(cs@, start as nat, mantissa_char()) == span_end(cs@, i as nat, mantissa_char()),
                    text@ == cs@.subrange(start as int, i as int),
                decreases cs@.len() - i,
            {
                push_char(&mut text, cs[i]);
                proof {
                    assert(text@ =~= cs@.subrange(start as int, i + 1));
                }
                advance(&cs, &mut i, &mut line, &mut column);
            }
            if i < cs.len() && (cs[i] == 'e' || cs[i] == 'E') {
                push_char(&mut text, cs[i]);
                proof {
                    assert(text@ =~= cs@.subrange(start as int, i + 1));
                }
                advance(&cs, &mut i, &mut line, &mut column);
                if i < cs.len() && (cs[i] == '+' || cs[i] == '-') {
                    push_char(&mut text, cs[i]);
                    proof {
                        assert(text@ =~= cs@.subrange(start as int, i + 1));
                    }
                    advance(&cs, &mut i, &mut line, &mut column);
                }
                let digits_start = i;
                while i < cs.len() && '0' <= cs[i] && cs[i] <= '9'
                    invariant
                        digits_start <= i <= cs@.len(),
                        start <= digits_start,
                        cs@.len() < u32::MAX,
                        line == line_at(cs@, i as nat),
                        column == column_at(cs@, i as nat),
                        span_end(cs@, digits_start as nat, digit_char()) == span_end(
                            cs@,
                            i as nat,
                            digit_char(),
                        ),
                        text@ == cs@.subrange(start as int, i as int),
                    decreases cs@.len() - i,
                {
                    push_char(&mut text, cs[i]);
                    proof {
                        assert(text@ =~= cs@.subrange(start as int, i + 1));
                    }
                    advance(&cs, &mut i, &mut line, &mut column);
                }
            }
            proof {
                assert(i == number_end(cs@, start as nat));
            }
            if !is_decimal_float(&cs, start, i) {
                let mut msg = String::new();
                push_str(&mut msg, "malformed numeric literal `");
                push_str(&mut msg, text.as_str());
                push_str(&mut msg, "`");
                proof {
                    assert(msg@ =~= "malformed numeric literal `"@ + cs@.subrange(start as int, i as int)
                        + "`"@);
                }
                return Err(syntax_error(msg, start_line, start_column));
            }
            let ghost before = tokens_model(tokens@);
            let ghost tok = token_at(cs@, start as nat, TokenKindModel::Number(cs@.subrange(start as int, i as int)));
            tokens.push(Token { kind: TokenKind::Number(text), line: start_line, column: start_column });
            proof {
                assert(tokens_model(tokens@) =~= before.push(tok));
                lemma_glue_one(before, tok, lex(cs@, i as nat));
            }
            continue;
        }
        if c == '"' {
            advance(&cs, &mut i, &mut line, &mut column);
            let mut value = String::new();
            while i < cs.len() && cs[i] != '"' && cs[i] != '\n'
                invariant
                    start + 1 <= i <= cs@.len(),
                    cs@.len() < u32::MAX,
                    line == line_at(cs@, i as nat),
                    column == column_at(cs@, i as nat),
                    span_end(cs@, (start + 1) as nat, string_body()) == span_end(
                        cs@,
                        i as nat,
                        string_body(),
                    ),
                    value@ == cs@.subrange(start + 1, i as int),
                decreases cs@.len() - i,
            {
                push_char(&mut value, cs[i]);
                proof {
                    assert(value@ =~= cs@.subrange(start + 1, i + 1));
                }
                advance(&cs, &mut i, &mut line, &mut column);
            }
            if i >= cs.len() || cs[i] == '\n' {
                let mut msg = String::new();
                push_str(&mut msg, "unterminated string literal");
                proof {
                    reveal_strlit("unterminated string literal");
                    assert(msg@ =~= "unterminated string literal"@);
                }
                return Err(syntax_error(msg, start_line, start_column));
            }
            let ghost value_end = i;
            advance(&cs, &mut i, &mut line, &mut column);
            let ghost before = tokens_model(tokens@);
            let ghost tok = token_at(cs@, start as nat, TokenKindModel::Str(cs@.subrange(start + 1, value_end as int)));
            tokens.push(Token { kind: TokenKind::Str(value), line: start_line, column: start_column });
            proof {
                assert(tokens_model(tokens@) =~= before.push(tok));
                lemma_glue_one(before, tok, lex(cs@, i as nat));
            }
            continue;
        }
        let kind = if c == '-' && next == Some('>') {
            advance(&cs, &mut i, &mut line, &mut column);
            TokenKind::Arrow
        } else {
            match punct_kind(c) {
                Some(k) => k,
                None => {
                    let mut msg = String::new();
                    push_str(&mut msg, "unexpected character `");
                    push_char(&mut msg, c);
                    push_str(&mut msg, "`");
                    proof {
                        assert(msg@ =~= "unexpected character `"@ + seq![c] + "`"@);
                    }
                    return Err(syntax_error(msg, start_line, start_column));
                },
            }
        };
        advance(&cs, &mut i, &mut line, &mut column);
        let ghost before = tokens_model(tokens@);
        let ghost tok = token_at(cs@, start as nat, kind@);
        tokens.push(Token { kind, line: start_line, column: start_column });
        proof {
            assert(tokens_model(tokens@) =~= before.push(tok));
            lemma_glue_one(before, tok, lex(cs@, i as nat));
        }
    }
    let ghost before = tokens_model(tokens@);
    tokens.push(Token { kind: TokenKind::Eof, line, column });
    proof {
        assert(tokens_model(tokens@) =~= before + seq![token_at(cs@, i as nat, TokenKindModel::Eof)]);
    }
    Ok(tokens)
}

/// The one-character token a punctuation character scans as.
fn punct_kind(c: char) -> (r: Option<TokenKind>)
    ensures
        match punct(c) {
            Some(k) => r is Some && r->0@ == k,
            None => r is None,
        },
{
    if c == ';' {
        Some(TokenKind::Semicolon)
    } else if c == ',' {
        Some(TokenKind::Comma)
    } else if c == '(' {
        Some(TokenKind::LParen)
    } else if c == ')' {
        Some(TokenKind::RParen)
    } else if c == '[' {
        Some(TokenKind::LBracket)
    } else if c == ']' {
        Some(TokenKind::RBracket)
    } else if c == '{' {
        Some(TokenKind::LBrace)
    } else if c == '}' {
        Some(TokenKind::RBrace)
    } else if c == '=' {
        Some(TokenKind::Equals)
    } else if c == ':' {
        Some(TokenKind::Colon)
    } else if c == '+' {
        Some(TokenKind::Plus)
    } else if c == '*' {
        Some(TokenKind::Star)
    } else if c == '/' {
        Some(TokenKind::Slash)
    } else if c == '-' {
        Some(TokenKind::Minus)
    } else {
        None
    }
}

/// Pushing one more token onto the front part keeps the glued result.
proof fn lemma_glue_one(before: Seq<TokenModel>, t: TokenModel, rest: Result<Seq<TokenModel>, LexError>)
    ensures
        glue(before, prepend(t, rest)) == glue(before.push(t), rest),
{
    if rest is Ok {
        assert(before + (seq![t] + rest->Ok_0) =~= before.push(t) + rest->Ok_0);
    }
}

/// A run starts where it is asked to, ends within the text, and is not
/// empty when its first character qualifies.
pub proof fn lemma_span_end(cs: Seq<char>, i: nat, p: spec_fn(char) -> bool)
    requires
        i <= cs.len(),
    ensures
        i <= span_end(cs, i, p) <= cs.len(),
        i < cs.len() && p(cs[i as int]) ==> span_end(cs, i, p) > i,
        forall|k: int| i <= k < span_end(cs, i, p) ==> p(#[trigger] cs[k]),
        span_end(cs, i, p) < cs.len() ==> !p(cs[span_end(cs, i, p) as int]),
    decreases cs.len() - i,
{
    if i < cs.len() && p(cs[i as int]) {
        lemma_span_end(cs, i + 1, p);
    }
}

/// Whether token `a` starts strictly before token `b`: on an earlier line,
/// or further left on the same line.
pub open spec fn token_before(a: TokenModel, b: TokenModel) -> bool {
    a.line < b.line || (a.line == b.line && a.column < b.column)
}

/// Whether a token starts at or after the character at index `i`.
pub open spec fn at_or_after(t: TokenModel, cs: Seq<char>, i: nat) -> bool {
    t.line > line_at(cs, i) || (t.line == line_at(cs, i) && t.column >= column_at(cs, i))
}

/// The shape of every token stream the lexer produces: it ends with exactly
/// one `Eof`, every position is 1-based, and the tokens come in strictly
/// increasing source order.
pub open spec fn well_formed_stream(ts: Seq<TokenModel>) -> bool {
    &&& ts.len() >= 1
    &&& ts.last().kind is Eof
    &&& forall|k: int| 0 <= k < ts.len() - 1 ==> !((#[trigger] ts[k]).kind is Eof)
    &&& forall|k: int| 0 <= k < ts.len() ==> (#[trigger] ts[k]).line >= 1 && ts[k].column >= 1
    &&& forall|a: int, b: int|
        0 <= a < b < ts.len() ==> token_before(#[trigger] ts[a], #[trigger] ts[b])
}

/// A later character sits at a strictly later position.
proof fn lemma_index_order(cs: Seq<char>, i: nat, j: nat)
    requires
        i < j <= cs.len(),
    ensures
        line_at(cs, i) < line_at(cs, j) || (line_at(cs, i) == line_at(cs, j) && column_at(
            cs,
            i,
        ) < column_at(cs, j)),
    decreases j - i,
{
    if j > i + 1 {
        lemma_index_order(cs, i, (j - 1) as nat);
    }
}

/// Putting a token that starts at index `i` in front of a stream that starts
/// at a later index keeps the stream well formed.
proof fn lemma_prepend_shape(cs: Seq<char>, i: nat, j: nat, t: TokenModel, rest: Seq<TokenModel>)
    requires
        i < j <= cs.len(),
        t == token_at(cs, i, t.kind),
        !(t.kind is Eof),
        well_formed_stream(rest),
        forall|k: int| 0 <= k < rest.len() ==> at_or_after(#[trigger] rest[k], cs, j),
    ensures
        well_formed_stream(seq![t] + rest),
        forall|k: int| 0 <= k < rest.len() + 1 ==> at_or_after(#[trigger] (seq![t] + rest)[k], cs, i),
{
    lemma_index_order(cs, i, j);
    lemma_position_bounds(cs, i);
    let ts = seq![t] + rest;
    assert(ts.last() == rest.last());
    assert forall|k: int| 0 <= k < ts.len() - 1 implies !((#[trigger] ts[k]).kind is Eof) by {
        if k > 0 {
            assert(ts[k] == rest[k - 1]);
        }
    }
    assert forall|k: int| 0 <= k < ts.len() implies (#[trigger] ts[k]).line >= 1 && ts[k].column
        >= 1 by {
        if k > 0 {
            assert(ts[k] == rest[k - 1]);
        }
    }
    assert forall|a: int, b: int| 0 <= a < b < ts.len() implies token_before(
        #[trigger] ts[a],
        #[trigger] ts[b],
    ) by {
        assert(ts[b] == rest[b - 1]);
        assert(at_or_after(rest[b - 1], cs, j));
        if a > 0 {
            assert(ts[a] == rest[a - 1]);
            assert(token_before(rest[a - 1], rest[b - 1]));
        }
    }
    assert forall|k: int| 0 <= k < rest.len() + 1 implies at_or_after(
        #[trigger] (seq![t] + rest)[k],
        cs,
        i,
    ) by {
        if k > 0 {
            assert(ts[k] == rest[k - 1]);
            assert(at_or_after(rest[k - 1], cs, j));
        }
    }
}

/// Skipping from index `i` to a later index keeps every token at or after
/// `i`.
proof fn lemma_skip_shape(cs: Seq<char>, i: nat, j: nat, ts: Seq<TokenModel>)
    requires
        i < j <= cs.len(),
        forall|k: int| 0 <= k < ts.len() ==> at_or_after(#[trigger] ts[k], cs, j),
    ensures
        forall|k: int| 0 <= k < ts.len() ==> at_or_after(#[trigger] ts[k], cs, i),
{
    lemma_index_order(cs, i, j);
}

/// What lexing from index `i` produces, when it succeeds: a well-formed
/// stream whose tokens all start at or after `i`.
proof fn lemma_lex_shape(cs: Seq<char>, i: nat)
    requires
        i <= cs.len(),
    ensures
        lex(cs, i) matches Ok(ts) ==> well_formed_stream(ts) && forall|k: int|
            0 <= k < ts.len() ==> at_or_after(#[trigger] ts[k], cs, i),
    decreases cs.len() - i,
{
    if i >= cs.len() {
        lemma_position_bounds(cs, i);
        let ts = seq![token_at(cs, i, TokenKindModel::Eof)];
        assert(ts.last() == ts[0]);
    } else {
        let c = cs[i as int];
        let next = if i + 1 < cs.len() {
            Some(cs[(i + 1) as int])
        } else {
            None
        };
        if whitespace_char(c) {
            lemma_lex_shape(cs, i + 1);
            if lex(cs, i + 1) is Ok {
                lemma_skip_shape(cs, i, i + 1, lex(cs, i + 1)->Ok_0);
            }
        } else if c == '/' && next == Some('/') {
            let j = span_end(cs, i, not_newline());
            lemma_span_end(cs, i, not_newline());
            lemma_lex_shape(cs, j);
            if lex(cs, j) is Ok {
                lemma_skip_shape(cs, i, j, lex(cs, j)->Ok_0);
            }
        } else if c == '/' && next == Some('*') {
            lemma_block_close(cs, i + 2);
            if let Some(j) = block_close(cs, i + 2) {
                lemma_lex_shape(cs, j);
                if lex(cs, j) is Ok {
                    lemma_skip_shape(cs, i, j, lex(cs, j)->Ok_0);
                }
            }
        } else if alphabetic_char(c) || c == '_' {
            let j = span_end(cs, i, ident_rest());
            lemma_span_end(cs, i, ident_rest());
            lemma_lex_shape(cs, j);
            if lex(cs, j) is Ok {
                let t = token_at(cs, i, TokenKindModel::Ident(cs.subrange(i as int, j as int)));
                lemma_prepend_shape(cs, i, j, t, lex(cs, j)->Ok_0);
            }
        } else if is_digit(c) || (c == '.' && next is Some && is_digit(next->0)) {
            let j = number_end(cs, i);
            let text = cs.subrange(i as int, j as int);
            if decimal_float(text) {
                lemma_number_end(cs, i);
                lemma_lex_shape(cs, j);
                if lex(cs, j) is Ok {
                    let t = token_at(cs, i, TokenKindModel::Number(text));
                    lemma_prepend_shape(cs, i, j, t, lex(cs, j)->Ok_0);
                }
            }
        } else if c == '"' {
            let j = span_end(cs, i + 1, string_body());
            lemma_span_end(cs, i + 1, string_body());
            if j < cs.len() && cs[j as int] == '"' {
                lemma_lex_shape(cs, j + 1);
                if lex(cs, j + 1) is Ok {
                    let t = token_at(
                        cs,
                        i,
                        TokenKindModel::Str(cs.subrange((i + 1) as int, j as int)),
                    );
                    lemma_prepend_shape(cs, i, j + 1, t, lex(cs, j + 1)->Ok_0);
                }
            }
        } else if c == '-' && next == Some('>') {
            lemma_lex_shape(cs, i + 2);
            if lex(cs, i + 2) is Ok {
                let t = token_at(cs, i, TokenKindModel::Arrow);
                lemma_prepend_shape(cs, i, i + 2, t, lex(cs, i + 2)->Ok_0);
            }
        } else {
            if let Some(k) = punct(c) {
                lemma_lex_shape(cs, i + 1);
                if lex(cs, i + 1) is Ok {
                    let t = token_at(cs, i, k);
                    lemma_prepend_shape(cs, i, i + 1, t, lex(cs, i + 1)->Ok_0);
                }
            }
        }
    }
}

/// Every token stream the lexer produces ends with exactly one `Eof`, has
/// 1-based positions, and lists its tokens in strictly increasing source
/// order; by the contract of [`tokenize`], so does every `Ok` it returns.
pub proof fn lemma_token_stream_shape(cs: Seq<char>)
    ensures
        lex(cs, 0) matches Ok(ts) ==> well_formed_stream(ts),
{
    lemma_lex_shape(cs, 0);
}

/// How a punctuation token is written in source; `None` for tokens that
/// carry text of their own and for the end of input.
pub open spec fn spelling(k: TokenKindModel) -> Option<Seq<char>> {
    match k {
        TokenKindModel::Semicolon => Some(seq![';']),
        TokenKindModel::Comma => Some(seq![',']),
        TokenKindModel::LParen => Some(seq!['(']),
        TokenKindModel::RParen => Some(seq![')']),
        TokenKindModel::LBracket => Some(seq!['[']),
        TokenKindModel::RBracket => Some(seq![']']),
        TokenKindModel::LBrace => Some(seq!['{']),
        TokenKindModel::RBrace => Some(seq!['}']),
        TokenKindModel::Equals => Some(seq!['=']),
        TokenKindModel::Colon => Some(seq![':']),
        TokenKindModel::Arrow => Some(seq!['-', '>']),
        TokenKindModel::Plus => Some(seq!['+']),
        TokenKindModel::Minus => Some(seq!['-']),
        TokenKindModel::Star => Some(seq!['*']),
        TokenKindModel::Slash => Some(seq!['/']),
        _ => None,
    }
}

/// Every punctuation character scans as the token written with it: the
/// token's spelling is the character itself, no two characters scan as
/// the same token, and a source made of that one character lexes as that
/// token followed by the end of input.
pub proof fn lemma_punctuation_scans_as_written(c: char, d: char)
    ensures
        punct(c) matches Some(k) ==> spelling(k) == Some(seq![c]),
        punct(c) is Some && punct(c) == punct(d) ==> c == d,
        punct(c) matches Some(k) ==> lex(seq![c], 0) == Ok::<Seq<TokenModel>, LexError>(
            seq![token_at(seq![c], 0, k), token_at(seq![c], 1, TokenKindModel::Eof)],
        ),
{
    let cs = seq![c];
    if punct(c) is Some {
        let k = punct(c)->0;
        assert(lex(cs, 1) == Ok::<Seq<TokenModel>, LexError>(seq![token_at(cs, 1, TokenKindModel::Eof)]));
        assert(seq![token_at(cs, 0, k)] + seq![token_at(cs, 1, TokenKindModel::Eof)] =~= seq![
            token_at(cs, 0, k),
            token_at(cs, 1, TokenKindModel::Eof),
        ]);
    }
}

/// A closing `*/` ends after it starts and within the text.
pub proof fn lemma_block_close(cs: Seq<char>, i: nat)
    ensures
        block_close(cs, i) matches Some(j) ==> i + 2 <= j <= cs.len(),
    decreases cs.len() - i,
{
    if i < cs.len() && !(cs[i as int] == '*' && i + 1 < cs.len() && cs[(i + 1) as int] == '/') {
        lemma_block_close(cs, i + 1);
    }
}

/// A numeric literal starting at a digit or a point is not empty and ends
/// within the text.
pub proof fn lemma_number_end(cs: Seq<char>, i: nat)
    requires
        i < cs.len(),
        is_digit(cs[i as int]) || cs[i as int] == '.',
    ensures
        i < number_end(cs, i) <= cs.len(),
{
    let p = mantissa_char();
    lemma_span_end(cs, i, p);
    let j = span_end(cs, i, p);
    if j < cs.len() && (cs[j as int] == 'e' || cs[j as int] == 'E') {
        let k = if j + 1 < cs.len() && (cs[(j + 1) as int] == '+' || cs[(j + 1) as int] == '-') {
            j + 2
        } else {
            j + 1
        };
        lemma_span_end(cs, k, digit_char());
    }
}

} // verus!

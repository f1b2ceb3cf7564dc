use vstd::prelude::*;

use crate::error::{push_char, ParseError};
use crate::value::{Number, NumberModel};

verus! {

// ---------------------------------------------------------------------------
// Character classes
// ---------------------------------------------------------------------------

/// The classes of characters that the lexer reads in runs.
#[derive(Clone, Copy, Debug, PartialEq, Eq)]
pub enum CharClass {
    Whitespace,
    Digit,
    IdentifierChar,
}

pub open spec fn is_ws(c: char) -> bool {
    c == ' ' || c == '\t' || c == '\r' || c == '\n'
}

pub open spec fn is_digit_char(c: char) -> bool {
    '0' <= c && c <= '9'
}

pub open spec fn is_ident_start(c: char) -> bool {
    ('a' <= c && c <= 'z') || ('A' <= c && c <= 'Z') || c == '_'
}

pub open spec fn is_ident_char(c: char) -> bool {
    is_ident_start(c) || is_digit_char(c)
}

pub open spec fn in_class(k: CharClass, c: char) -> bool {
    match k {
        CharClass::Whitespace => is_ws(c),
        CharClass::Digit => is_digit_char(c),
        CharClass::IdentifierChar => is_ident_char(c),
    }
}

/// The end of the longest run of class `k` that starts at `i`.
pub open spec fn run_end(s: Seq<char>, i: int, k: CharClass) -> int
    decreases s.len() - i,
{
    if 0 <= i < s.len() && in_class(k, s[i]) {
        run_end(s, i + 1, k)
    } else {
        i
    }
}

/// The first position at or after `i` that is not whitespace.
pub open spec fn ws_end(s: Seq<char>, i: int) -> int {
    run_end(s, i, CharClass::Whitespace)
}

// ---------------------------------------------------------------------------
// Messages
// ---------------------------------------------------------------------------

pub open spec fn quoted(prefix: Seq<char>, t: Seq<char>, suffix: Seq<char>) -> Seq<char> {
    prefix + t + suffix
}

pub open spec fn msg_eof() -> Seq<char> {
    "Unexpected end of file"@
}

pub open spec fn msg_unexpected_char(c: char) -> Seq<char> {
    quoted("Unexpected character '"@, seq![c], "'"@)
}

pub open spec fn msg_eof_number() -> Seq<char> {
    "Unexpected EOF while parsing number"@
}

pub open spec fn msg_malformed_number() -> Seq<char> {
    "Malformed number literal"@
}

pub open spec fn msg_eof_string() -> Seq<char> {
    "Unexpected end of file while parsing string literal"@
}

pub open spec fn msg_newline_string() -> Seq<char> {
    "Unexpected newline while parsing string literal"@
}

pub open spec fn msg_eof_escape() -> Seq<char> {
    "Unexpected end of file while parsing string literal escape sequence"@
}

pub open spec fn msg_eof_unicode() -> Seq<char> {
    "Unexpected EOF when parsing unicode escape in string literal"@
}

pub open spec fn msg_bad_hex(c: char) -> Seq<char> {
    quoted("Bad hex digit '"@, seq![c], "' in unicode escape"@)
}

pub open spec fn msg_bad_code_point() -> Seq<char> {
    "Unicode escape does not name a character"@
}

// ---------------------------------------------------------------------------
// Tokens
// ---------------------------------------------------------------------------

/// A lexical unit of JSON text.
#[derive(Debug, PartialEq)]
pub enum Token {
    OpenBracket,
    CloseBracket,
    OpenBrace,
    CloseBrace,
    Colon,
    Comma,
    Identifier(String),
    String(String),
    Number(Number),
}

/// The mathematical form of a `Token`.
pub enum Tok {
    OpenBracket,
    CloseBracket,
    OpenBrace,
    CloseBrace,
    Colon,
    Comma,
    Identifier(Seq<char>),
    Str(Seq<char>),
    Number(NumberModel),
}

impl View for Token {
    type V = Tok;

    open spec fn view(&self) -> Tok {
        match self {
            Token::OpenBracket => Tok::OpenBracket,
            Token::CloseBracket => Tok::CloseBracket,
            Token::OpenBrace => Tok::OpenBrace,
            Token::CloseBrace => Tok::CloseBrace,
            Token::Colon => Tok::Colon,
            Token::Comma => Tok::Comma,
            Token::Identifier(w) => Tok::Identifier(w@),
            Token::String(t) => Tok::Str(t@),
            Token::Number(n) => Tok::Number(n@),
        }
    }
}

// ---------------------------------------------------------------------------
// Numbers
// ---------------------------------------------------------------------------

/// Reads a number literal that starts at `j` (a `-` or a digit): an optional
/// `-`, integer digits, an optional `.` and fraction digits, an optional
/// `e`/`E` with an optional sign and exponent digits. At least one digit must
/// stand before the exponent, and an exponent marker needs digits after it.
/// On success gives the number and the position after it.
pub open spec fn lex_number_spec(s: Seq<char>, j: int) -> Result<(NumberModel, int), Seq<char>> {
    let neg = 0 <= j < s.len() && s[j] == '-';
    let k = if neg { j + 1 } else { j };
    if k >= s.len() {
        Err(msg_eof_number())
    } else {
        let a = run_end(s, k, CharClass::Digit);
        let has_point = a < s.len() && s[a] == '.';
        let f = if has_point { a + 1 } else { a };
        let b = run_end(s, f, CharClass::Digit);
        let has_exp = b < s.len() && (s[b] == 'e' || s[b] == 'E');
        let c = b + 1;
        let has_sign = has_exp && c < s.len() && (s[c] == '-' || s[c] == '+');
        let exp_neg = has_sign && s[c] == '-';
        let d0 = if has_sign { c + 1 } else { c };
        let d = if has_exp { run_end(s, d0, CharClass::Digit) } else { b };
        if (a == k && b == f) || (has_exp && d == d0) {
            Err(msg_malformed_number())
        } else {
            Ok(
                (
                    NumberModel {
                        negative: neg,
                        integer: s.subrange(k, a),
                        fraction: s.subrange(f, b),
                        exponent_negative: exp_neg,
                        exponent: if has_exp {
                            s.subrange(d0, d)
                        } else {
                            Seq::empty()
                        },
                    },
                    d,
                ),
            )
        }
    }
}

// ---------------------------------------------------------------------------
// Strings
// ---------------------------------------------------------------------------

/// The position of the quote that closes a string literal whose contents
/// start at `k`. A backslash takes the character after it along, so an
/// escaped quote does not close the literal; a raw newline is refused.
pub open spec fn string_end(s: Seq<char>, k: int) -> Result<int, Seq<char>>
    decreases s.len() - k,
{
    if k < 0 || k >= s.len() {
        Err(msg_eof_string())
    } else if s[k] == '\n' {
        Err(msg_newline_string())
    } else if s[k] == '"' {
        Ok(k)
    } else if s[k] == '\\' {
        if k + 1 >= s.len() {
            Err(msg_eof_escape())
        } else if s[k + 1] == '\n' {
            Err(msg_newline_string())
        } else {
            string_end(s, k + 2)
        }
    } else {
        string_end(s, k + 1)
    }
}

pub open spec fn is_hex(c: char) -> bool {
    is_digit_char(c) || ('a' <= c && c <= 'f') || ('A' <= c && c <= 'F')
}

pub open spec fn hex_value(c: char) -> int {
    if is_digit_char(c) {
        c as int - '0' as int
    } else if 'a' <= c && c <= 'f' {
        c as int - 'a' as int + 10
    } else {
        c as int - 'A' as int + 10
    }
}

/// The value of four hex digits, or the message for the first one that is
/// not a hex digit.
pub open spec fn hex4(d1: char, d2: char, d3: char, d4: char) -> Result<int, Seq<char>> {
    if !is_hex(d1) {
        Err(msg_bad_hex(d1))
    } else if !is_hex(d2) {
        Err(msg_bad_hex(d2))
    } else if !is_hex(d3) {
        Err(msg_bad_hex(d3))
    } else if !is_hex(d4) {
        Err(msg_bad_hex(d4))
    } else {
        Ok(hex_value(d1) * 4096 + hex_value(d2) * 256 + hex_value(d3) * 16 + hex_value(d4))
    }
}

/// A Unicode scalar value below 0x10000 (no surrogate half).
pub open spec fn is_bmp_scalar(n: int) -> bool {
    0 <= n < 0xD800 || 0xE000 <= n < 0x10000
}

/// The character that a backslash followed by `n` stands for, for every `n`
/// but `u` (a character with no escape meaning stands for itself).
pub open spec fn simple_escape(n: char) -> char {
    if n == 'b' {
        '\x08'
    } else if n == 'f' {
        '\x0c'
    } else if n == 'n' {
        '\n'
    } else if n == 'r' {
        '\r'
    } else if n == 't' {
        '\t'
    } else {
        n
    }
}

/// Resolves the escapes in `t` from position `k` on, appending to `acc`.
pub open spec fn unescape(t: Seq<char>, k: int, acc: Seq<char>) -> Result<Seq<char>, Seq<char>>
    decreases t.len() - k,
{
    if k < 0 || k >= t.len() {
        Ok(acc)
    } else if t[k] != '\\' {
        unescape(t, k + 1, acc.push(t[k]))
    } else if k + 1 >= t.len() {
        Err(msg_eof_escape())
    } else if t[k + 1] != 'u' {
        unescape(t, k + 2, acc.push(simple_escape(t[k + 1])))
    } else if k + 6 > t.len() {
        Err(msg_eof_unicode())
    } else {
        match hex4(t[k + 2], t[k + 3], t[k + 4], t[k + 5]) {
            Err(m) => Err(m),
            Ok(n) => if is_bmp_scalar(n) {
                unescape(t, k + 6, acc.push(char_of(n)))
            } else {
                Err(msg_bad_code_point())
            },
        }
    }
}

/// The character whose code is `n`.
pub open spec fn char_of(n: int) -> char {
    n as char
}

// ---------------------------------------------------------------------------
// The token at a position
// ---------------------------------------------------------------------------

/// The token that starts at or after `i` (whitespace skipped): the token, the
/// position just after its text, and the first position after the whitespace
/// that follows it.
pub open spec fn lex(s: Seq<char>, i: int) -> Result<(Tok, int, int), Seq<char>> {
    let j = ws_end(s, i);
    if j < 0 || j >= s.len() {
        Err(msg_eof())
    } else {
        let c = s[j];
        if c == '[' {
            Ok((Tok::OpenBracket, j + 1, ws_end(s, j + 1)))
        } else if c == ']' {
            Ok((Tok::CloseBracket, j + 1, ws_end(s, j + 1)))
        } else if c == ',' {
            Ok((Tok::Comma, j + 1, ws_end(s, j + 1)))
        } else if c == ':' {
            Ok((Tok::Colon, j + 1, ws_end(s, j + 1)))
        } else if c == '{' {
            Ok((Tok::OpenBrace, j + 1, ws_end(s, j + 1)))
        } else if c == '}' {
            Ok((Tok::CloseBrace, j + 1, ws_end(s, j + 1)))
        } else if c == '-' || is_digit_char(c) {
            match lex_number_spec(s, j) {
                Err(m) => Err(m),
                Ok((n, e)) => Ok((Tok::Number(n), e, ws_end(s, e))),
            }
        } else if c == '"' {
            match string_end(s, j + 1) {
                Err(m) => Err(m),
                Ok(q) => match unescape(s.subrange(j + 1, q), 0, Seq::empty()) {
                    Err(m) => Err(m),
                    Ok(t) => Ok((Tok::Str(t), q + 1, ws_end(s, q + 1))),
                },
            }
        } else if is_ident_start(c) {
            let e = run_end(s, j, CharClass::IdentifierChar);
            Ok((Tok::Identifier(s.subrange(j, e)), e, ws_end(s, e)))
        } else {
            Err(msg_unexpected_char(c))
        }
    }
}


// ---------------------------------------------------------------------------
// Facts about the spec functions
// ---------------------------------------------------------------------------

pub proof fn lemma_run_end_bounds(s: Seq<char>, i: int, k: CharClass)
    requires
        0 <= i <= s.len(),
    ensures
        i <= run_end(s, i, k) <= s.len(),
        forall|m: int| i <= m < run_end(s, i, k) ==> in_class(k, #[trigger] s[m]),
        run_end(s, i, k) < s.len() ==> !in_class(k, s[run_end(s, i, k)]),
    decreases s.len() - i,
{
    if i < s.len() && in_class(k, s[i]) {
        lemma_run_end_bounds(s, i + 1, k);
    }
}

pub proof fn lemma_string_end_bounds(s: Seq<char>, k: int)
    requires
        0 <= k,
    ensures
        string_end(s, k) matches Ok(q) ==> k <= q < s.len() && s[q] == '"',
    decreases s.len() - k,
{
    if 0 <= k < s.len() && s[k] != '\n' && s[k] != '"' {
        if s[k] == '\\' {
            if k + 1 < s.len() && s[k + 1] != '\n' {
                lemma_string_end_bounds(s, k + 2);
            }
        } else {
            lemma_string_end_bounds(s, k + 1);
        }
    }
}

/// Relies on `char::from_u32`: it gives the character with code `n` exactly
/// when `n` is a Unicode scalar value (not a surrogate half, at most 0x10FFFF).
#[verifier::external_body]
fn char_from_code(n: u32) -> (r: Option<char>)
    ensures
        r is Some <==> (n < 0xD800 || (0xE000 <= n && n <= 0x10FFFF)),
        r matches Some(c) ==> c == n as char,
{
    char::from_u32(n)
}

pub(crate) fn message(m: &str) -> (r: ParseError)
    ensures
        r.0@ == m@,
{
    ParseError(m.to_owned())
}

pub(crate) fn message_with(prefix: &str, c: char, suffix: &str) -> (r: ParseError)
    ensures
        r.0@ == quoted(prefix@, seq![c], suffix@),
{
    let mut m = prefix.to_owned();
    push_char(&mut m, c);
    m.append(suffix);
    proof {
        assert(m@ =~= quoted(prefix@, seq![c], suffix@));
    }
    ParseError(m)
}

// ---------------------------------------------------------------------------
// The lexer
// ---------------------------------------------------------------------------

/// Reads tokens one at a time from a sequence of characters.
pub struct Lexer {
    pub s: Vec<char>,
    pub pos: usize,
}

impl Lexer {
    pub open spec fn wf(&self) -> bool {
        self.pos <= self.s@.len()
    }

    pub fn new(s: Vec<char>) -> (r: Lexer)
        ensures
            r.s@ == s@,
            r.pos == 0,
            r.wf(),
    {
        Lexer { s, pos: 0 }
    }

    /// Whether every character has been read.
    pub fn eof(&self) -> (r: bool)
        ensures
            r == (self.pos >= self.s@.len()),
    {
        self.pos >= self.s.len()
    }

    /// Moves past the next character, if there is one.
    pub fn advance(&mut self)
        ensures
            final(self).s == old(self).s,
            final(self).pos == if old(self).pos < old(self).s@.len() {
                old(self).pos + 1
            } else {
                old(self).pos as int
            },
    {
        if self.pos < self.s.len() {
            self.pos += 1;
        }
    }

    /// The next character, without reading it.
    pub fn peek_byte(&self) -> (r: Option<char>)
        ensures
            r == if self.pos < self.s@.len() {
                Some(self.s@[self.pos as int])
            } else {
                None::<char>
            },
    {
        if self.eof() {
            None
        } else {
            Some(self.s[self.pos])
        }
    }

    pub fn is_identifier_start(b: char) -> (r: bool)
        ensures
            r == is_ident_start(b),
    {
        (b >= 'a' && b <= 'z') || (b >= 'A' && b <= 'Z') || b == '_'
    }

    pub fn is_identifier_char(b: char) -> (r: bool)
        ensures
            r == is_ident_char(b),
    {
        Self::is_identifier_start(b) || Self::is_digit(b)
    }

    pub fn is_digit(b: char) -> (r: bool)
        ensures
            r == is_digit_char(b),
    {
        b >= '0' && b <= '9'
    }

    pub fn is_whitespace(b: char) -> (r: bool)
        ensures
            r == is_ws(b),
    {
        b == ' ' || b == '\t' || b == '\r' || b == '\n'
    }

    pub fn in_char_class(k: CharClass, b: char) -> (r: bool)
        ensures
            r == in_class(k, b),
    {
        match k {
            CharClass::Whitespace => Self::is_whitespace(b),
            CharClass::Digit => Self::is_digit(b),
            CharClass::IdentifierChar => Self::is_identifier_char(b),
        }
    }

    /// Reads the longest run of characters of class `k` and returns it.
    pub fn take_while(&mut self, k: CharClass) -> (r: String)
        requires
            old(self).wf(),
        ensures
            final(self).s == old(self).s,
            final(self).wf(),
            final(self).pos == run_end(old(self).s@, old(self).pos as int, k),
            r@ == old(self).s@.subrange(old(self).pos as int, final(self).pos as int),
    {
        let start = self.pos;
        let mut r = String::new();
        while self.pos < self.s.len() && Self::in_char_class(k, self.s[self.pos])
            invariant
                self.s == old(self).s,
                start == old(self).pos,
                start <= self.pos <= self.s@.len(),
                run_end(self.s@, start as int, k) == run_end(self.s@, self.pos as int, k),
                r@ == self.s@.subrange(start as int, self.pos as int),
            decreases self.s@.len() - self.pos,
        {
            push_char(&mut r, self.s[self.pos]);
            self.pos += 1;
            proof {
                assert(r@ =~= self.s@.subrange(start as int, self.pos as int));
            }
        }
        r
    }

    /// Reads past whitespace.
    pub fn skip_whitespace(&mut self)
        requires
            old(self).wf(),
        ensures
            final(self).s == old(self).s,
            final(self).wf(),
            final(self).pos == ws_end(old(self).s@, old(self).pos as int),
    {
        let _ = self.take_while(CharClass::Whitespace);
    }

    /// What is left to read.
    pub fn rest(&self) -> (r: String)
        requires
            self.wf(),
        ensures
            r@ == self.s@.subrange(self.pos as int, self.s@.len() as int),
    {
        let mut r = String::new();
        let mut i: usize = self.pos;
        while i < self.s.len()
            invariant
                self.pos <= i <= self.s@.len(),
                r@ == self.s@.subrange(self.pos as int, i as int),
            decreases self.s@.len() - i,
        {
            push_char(&mut r, self.s[i]);
            i += 1;
            proof {
                assert(r@ =~= self.s@.subrange(self.pos as int, i as int));
            }
        }
        r
    }

    /// The value of one hex digit.
    pub fn parse_hex_digit(d: char) -> (r: Result<u32, ParseError>)
        ensures
            match r {
                Ok(v) => is_hex(d) && v == hex_value(d),
                Err(e) => !is_hex(d) && e.0@ == msg_bad_hex(d),
            },
    {
        if d >= '0' && d <= '9' {
            Ok(d as u32 - '0' as u32)
        } else if d >= 'a' && d <= 'f' {
            Ok(d as u32 - 'a' as u32 + 10)
        } else if d >= 'A' && d <= 'F' {
            Ok(d as u32 - 'A' as u32 + 10)
        } else {
            Err(message_with("Bad hex digit '", d, "' in unicode escape"))
        }
    }

    /// The value of four hex digits, most significant first.
    pub fn parse_hex(d1: char, d2: char, d3: char, d4: char) -> (r: Result<u32, ParseError>)
        ensures
            match hex4(d1, d2, d3, d4) {
                Ok(n) => r matches Ok(v) && v == n,
                Err(m) => r matches Err(e) && e.0@ == m,
            },
    {
        let a1 = match Self::parse_hex_digit(d1) {
            Ok(v) => v,
            Err(e) => return Err(e),
        };
        let a2 = match Self::parse_hex_digit(d2) {
            Ok(v) => v,
            Err(e) => return Err(e),
        };
        let a3 = match Self::parse_hex_digit(d3) {
            Ok(v) => v,
            Err(e) => return Err(e),
        };
        let a4 = match Self::parse_hex_digit(d4) {
            Ok(v) => v,
            Err(e) => return Err(e),
        };
        Ok(a1 * 4096 + a2 * 256 + a3 * 16 + a4)
    }

    /// Resolves the escapes in the contents `s[start..end]` of a string literal.
    pub fn parse_string(s: &Vec<char>, start: usize, end: usize) -> (r: Result<String, ParseError>)
        requires
            start <= end <= s@.len(),
        ensures
            match unescape(s@.subrange(start as int, end as int), 0, Seq::empty()) {
                Ok(t) => r matches Ok(v) && v@ == t,
                Err(m) => r matches Err(e) && e.0@ == m,
            },
    {
        let ghost t = s@.subrange(start as int, end as int);
        let mut res = String::new();
        let mut k: usize = start;
        while k < end
            invariant
                start <= k <= end <= s@.len(),
                t == s@.subrange(start as int, end as int),
                unescape(t, 0, Seq::empty()) == unescape(t, k - start, res@),
            decreases end - k,
        {
            let c = s[k];
            if c != '\\' {
                push_char(&mut res, c);
                k += 1;
            } else if end - k < 2 {
                return Err(message(
                    "Unexpected end of file while parsing string literal escape sequence",
                ));
            } else {
                let n = s[k + 1];
                if n != 'u' {
                    let e = match n {
                        'b' => '\x08',
                        'f' => '\x0c',
                        'n' => '\n',
                        'r' => '\r',
                        't' => '\t',
                        other => other,
                    };
                    push_char(&mut res, e);
                    k += 2;
                } else if end - k < 6 {
                    return Err(message("Unexpected EOF when parsing unicode escape in string literal"));
                } else {
                    let code = match Self::parse_hex(s[k + 2], s[k + 3], s[k + 4], s[k + 5]) {
                        Ok(v) => v,
                        Err(e) => return Err(e),
                    };
                    match char_from_code(code) {
                        Some(ch) => {
                            proof {
                                assert(ch == char_of(code as int));
                            }
                            push_char(&mut res, ch);
                        },
                        None => {
                            return Err(message("Unicode escape does not name a character"));
                        },
                    }
                    k += 6;
                }
            }
        }
        Ok(res)
    }

    /// Reads a number literal; the next character is a `-` or a digit.
    pub fn lex_number(&mut self) -> (r: Result<Number, ParseError>)
        requires
            old(self).wf(),
        ensures
            final(self).s == old(self).s,
            final(self).wf(),
            match lex_number_spec(old(self).s@, old(self).pos as int) {
                Ok((n, e)) => r matches Ok(x) && x@ == n && final(self).pos == e,
                Err(m) => r matches Err(x) && x.0@ == m,
            },
            r is Ok ==> old(self).pos < final(self).pos,
    {
        let ghost s = self.s@;
        let ghost j = self.pos as int;
        let negative = self.pos < self.s.len() && self.s[self.pos] == '-';
        if negative {
            self.advance();
        }
        if self.eof() {
            return Err(message("Unexpected EOF while parsing number"));
        }
        let k = self.pos;
        let integer = self.take_while(CharClass::Digit);
        let a = self.pos;
        proof {
            lemma_run_end_bounds(s, k as int, CharClass::Digit);
        }
        if self.pos < self.s.len() && self.s[self.pos] == '.' {
            self.advance();
        }
        let f = self.pos;
        let fraction = self.take_while(CharClass::Digit);
        let b = self.pos;
        proof {
            lemma_run_end_bounds(s, f as int, CharClass::Digit);
        }
        let mut exponent_negative = false;
        let mut exponent = String::new();
        if self.pos < self.s.len() && (self.s[self.pos] == 'e' || self.s[self.pos] == 'E') {
            self.advance();
            if self.pos < self.s.len() && (self.s[self.pos] == '-' || self.s[self.pos] == '+') {
                exponent_negative = self.s[self.pos] == '-';
                self.advance();
            }
            let d0 = self.pos;
            exponent = self.take_while(CharClass::Digit);
            proof {
                lemma_run_end_bounds(s, d0 as int, CharClass::Digit);
            }
            if self.pos == d0 {
                return Err(message("Malformed number literal"));
            }
        }
        if a == k && b == f {
            return Err(message("Malformed number literal"));
        }
        let n = Number { negative, integer, fraction, exponent_negative, exponent };
        proof {
            assert(n@.exponent =~= lex_number_spec(s, j)->Ok_0.0.exponent);
        }
        Ok(n)
    }

    /// Reads the next token, with the whitespace before and after it.
    pub fn token(&mut self) -> (r: Result<Token, ParseError>)
        requires
            old(self).wf(),
        ensures
            final(self).s == old(self).s,
            final(self).wf(),
            match lex(old(self).s@, old(self).pos as int) {
                Ok((t, e, n)) => r matches Ok(x) && x@ == t && final(self).pos == n,
                Err(m) => r matches Err(x) && x.0@ == m,
            },
            r is Ok ==> old(self).pos < final(self).pos,
    {
        let ghost s = self.s@;
        self.skip_whitespace();
        proof {
            lemma_run_end_bounds(s, old(self).pos as int, CharClass::Whitespace);
        }
        if self.eof() {
            return Err(message("Unexpected end of file"));
        }
        let c = self.s[self.pos];
        let result = if c == '[' {
            self.advance();
            Token::OpenBracket
        } else if c == ']' {
            self.advance();
            Token::CloseBracket
        } else if c == ',' {
            self.advance();
            Token::Comma
        } else if c == ':' {
            self.advance();
            Token::Colon
        } else if c == '{' {
            self.advance();
            Token::OpenBrace
        } else if c == '}' {
            self.advance();
            Token::CloseBrace
        } else if c == '-' || Self::is_digit(c) {
            match self.lex_number() {
                Ok(n) => Token::Number(n),
                Err(e) => return Err(e),
            }
        } else if c == '"' {
            self.advance();
            let start = self.pos;
            while self.pos < self.s.len() && self.s[self.pos] != '"'
                invariant
                    self.s == old(self).s,
                    self.s@ == s,
                    start <= self.pos <= s.len(),
                    1 <= start,
                    start == ws_end(s, old(self).pos as int) + 1,
                    s[start - 1] == '"',
                    string_end(s, start as int) == string_end(s, self.pos as int),
                decreases s.len() - self.pos,
            {
                let b = self.s[self.pos];
                if b == '\n' {
                    return Err(message("Unexpected newline while parsing string literal"));
                } else if b == '\\' {
                    if self.s.len() - self.pos < 2 {
                        return Err(message(
                            "Unexpected end of file while parsing string literal escape sequence",
                        ));
                    }
                    if self.s[self.pos + 1] == '\n' {
                        return Err(message("Unexpected newline while parsing string literal"));
                    }
                    self.pos += 2;
                } else {
                    self.pos += 1;
                }
            }
            if self.eof() {
                return Err(message("Unexpected end of file while parsing string literal"));
            }
            let end = self.pos;
            self.advance();
            match Self::parse_string(&self.s, start, end) {
                Ok(t) => Token::String(t),
                Err(e) => return Err(e),
            }
        } else if Self::is_identifier_start(c) {
            proof {
                lemma_run_end_bounds(s, self.pos as int, CharClass::IdentifierChar);
            }
            let w = self.take_while(CharClass::IdentifierChar);
            Token::Identifier(w)
        } else {
            return Err(message_with("Unexpected character '", c, "'"));
        };
        let ghost e = self.pos as int;
        self.skip_whitespace();
        proof {
            lemma_run_end_bounds(s, e, CharClass::Whitespace);
        }
        Ok(result)
    }
}

} // verus!

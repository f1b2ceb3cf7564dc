use vstd::prelude::*;
use vstd::std_specs::iter::IteratorSpec;

use crate::error::ParseError;
use crate::lexer::{lemma_run_end_bounds, lex, message, quoted, ws_end, CharClass, Lexer, Tok, Token};
use crate::value::{
    element_views, entry_views, keys_unique, lemma_array_view, lemma_object_view, upsert, Json,
    Value,
};

verus! {

// ---------------------------------------------------------------------------
// Messages
// ---------------------------------------------------------------------------

/// How a token is named in a message.
pub open spec fn tok_text(t: Tok) -> Seq<char> {
    match t {
        Tok::OpenBracket => "["@,
        Tok::CloseBracket => "]"@,
        Tok::OpenBrace => "{"@,
        Tok::CloseBrace => "}"@,
        Tok::Colon => ":"@,
        Tok::Comma => ","@,
        Tok::Identifier(w) => w,
        Tok::Str(_) => "a string"@,
        Tok::Number(_) => "a number"@,
    }
}

pub open spec fn msg_unknown_token(t: Tok) -> Seq<char> {
    quoted("Unknown token '"@, tok_text(t), "'"@)
}

pub open spec fn msg_expected_comma_bracket(t: Tok) -> Seq<char> {
    quoted("Expected ',' or ']' but got '"@, tok_text(t), "'"@)
}

pub open spec fn msg_expected_colon(t: Tok) -> Seq<char> {
    quoted("Expected colon but got '"@, tok_text(t), "'"@)
}

pub open spec fn msg_expected_comma_brace(t: Tok) -> Seq<char> {
    quoted("Expected comma or brace but got '"@, tok_text(t), "'"@)
}

pub open spec fn msg_key_not_string() -> Seq<char> {
    "Object keys must be strings"@
}

pub open spec fn msg_trailing(rest: Seq<char>) -> Seq<char> {
    "Extra content at end of input: "@ + rest
}

/// Never produced: every token moves the position forward, so the parser
/// always makes progress. The spec functions check it to be well founded.
pub open spec fn msg_stalled() -> Seq<char> {
    "Parser made no progress"@
}

pub open spec fn word_null() -> Seq<char> {
    "null"@
}

pub open spec fn word_true() -> Seq<char> {
    "true"@
}

pub open spec fn word_false() -> Seq<char> {
    "false"@
}

// ---------------------------------------------------------------------------
// The grammar
// ---------------------------------------------------------------------------

/// Reads one value whose first token is at or after `i`: the value and the
/// position after it and the whitespace that follows it.
pub open spec fn parse_value_spec(s: Seq<char>, i: int) -> Result<(Json, int), Seq<char>>
    decreases s.len() - i, 0int,
{
    match lex(s, i) {
        Err(m) => Err(m),
        Ok((t, _e, j)) => match t {
            Tok::Identifier(w) => if w == word_null() {
                Ok((Json::Null, j))
            } else if w == word_true() {
                Ok((Json::Boolean(true), j))
            } else if w == word_false() {
                Ok((Json::Boolean(false), j))
            } else {
                Err(msg_unknown_token(t))
            },
            Tok::Str(x) => Ok((Json::Str(x), j)),
            Tok::Number(n) => Ok((Json::Number(n), j)),
            Tok::OpenBracket => if 0 <= j < s.len() && s[j] == ']' {
                Ok((Json::Array(Seq::empty()), ws_end(s, j + 1)))
            } else if i < j <= s.len() {
                parse_elements_spec(s, j, Seq::empty())
            } else {
                Err(msg_stalled())
            },
            Tok::OpenBrace => if 0 <= j < s.len() && s[j] == '}' {
                Ok((Json::Object(Seq::empty()), ws_end(s, j + 1)))
            } else if i < j <= s.len() {
                parse_members_spec(s, j, Seq::empty())
            } else {
                Err(msg_stalled())
            },
            _ => Err(msg_unknown_token(t)),
        },
    }
}

/// Reads the elements of an array from `i` on, after the elements `acc`,
/// up to and including the closing bracket.
pub open spec fn parse_elements_spec(s: Seq<char>, i: int, acc: Seq<Json>) -> Result<
    (Json, int),
    Seq<char>,
>
    decreases s.len() - i, 1int,
{
    match parse_value_spec(s, i) {
        Err(m) => Err(m),
        Ok((v, k)) => match lex(s, k) {
            Err(m) => Err(m),
            Ok((t, _e, n)) => match t {
                Tok::CloseBracket => Ok((Json::Array(acc.push(v)), n)),
                Tok::Comma => if i < n <= s.len() {
                    parse_elements_spec(s, n, acc.push(v))
                } else {
                    Err(msg_stalled())
                },
                _ => Err(msg_expected_comma_bracket(t)),
            },
        },
    }
}

/// Reads the members of an object from `i` on, after the pairs `acc`,
/// up to and including the closing brace. A key seen before gets the new
/// value in its old place.
pub open spec fn parse_members_spec(
    s: Seq<char>,
    i: int,
    acc: Seq<(Seq<char>, Json)>,
) -> Result<(Json, int), Seq<char>>
    decreases s.len() - i, 1int,
{
    match parse_value_spec(s, i) {
        Err(m) => Err(m),
        Ok((key, k)) => match key {
            Json::Str(name) => match lex(s, k) {
                Err(m) => Err(m),
                Ok((t, _e, c)) => if !(t is Colon) {
                    Err(msg_expected_colon(t))
                } else if !(i < c <= s.len()) {
                    Err(msg_stalled())
                } else {
                    match parse_value_spec(s, c) {
                        Err(m) => Err(m),
                        Ok((v, k2)) => match lex(s, k2) {
                            Err(m) => Err(m),
                            Ok((t2, _e2, n)) => match t2 {
                                Tok::CloseBrace => Ok((Json::Object(upsert(acc, name, v)), n)),
                                Tok::Comma => if i < n <= s.len() {
                                    parse_members_spec(s, n, upsert(acc, name, v))
                                } else {
                                    Err(msg_stalled())
                                },
                                _ => Err(msg_expected_comma_brace(t2)),
                            },
                        },
                    }
                },
            },
            _ => Err(msg_key_not_string()),
        },
    }
}

/// What `parse` gives for the text `s`: one value, with nothing after it but
/// whitespace.
pub open spec fn parse_spec(s: Seq<char>) -> Result<Json, Seq<char>> {
    match parse_value_spec(s, 0) {
        Err(m) => Err(m),
        Ok((v, k)) => if ws_end(s, k) < s.len() {
            Err(msg_trailing(s.subrange(ws_end(s, k), s.len() as int)))
        } else {
            Ok(v)
        },
    }
}


// ---------------------------------------------------------------------------
// Executable parser
// ---------------------------------------------------------------------------

/// How a token is named in a message.
pub fn describe(t: &Token) -> (r: String)
    ensures
        r@ == tok_text(t@),
{
    match t {
        Token::OpenBracket => "[".to_owned(),
        Token::CloseBracket => "]".to_owned(),
        Token::OpenBrace => "{".to_owned(),
        Token::CloseBrace => "}".to_owned(),
        Token::Colon => ":".to_owned(),
        Token::Comma => ",".to_owned(),
        Token::Identifier(w) => w.clone(),
        Token::String(_) => "a string".to_owned(),
        Token::Number(_) => "a number".to_owned(),
    }
}

fn message_token(prefix: &str, t: &Token, suffix: &str) -> (r: ParseError)
    ensures
        r.0@ == quoted(prefix@, tok_text(t@), suffix@),
{
    let mut m = prefix.to_owned();
    let d = describe(t);
    m.append(d.as_str());
    m.append(suffix);
    ParseError(m)
}

/// Whether the word `w` is `lit`.
pub fn matches_word(w: &String, lit: &str) -> (r: bool)
    ensures
        r == (w@ == lit@),
{
    let a = w.as_str();
    let n = a.unicode_len();
    if n != lit.unicode_len() {
        return false;
    }
    let mut i: usize = 0;
    while i < n
        invariant
            n == a@.len() == lit@.len(),
            a@ == w@,
            i <= n,
            forall|j: int| 0 <= j < i ==> a@[j] == lit@[j],
        decreases n - i,
    {
        if a.get_char(i) != lit.get_char(i) {
            return false;
        }
        i += 1;
    }
    proof {
        assert(w@ =~= lit@);
    }
    true
}

/// Sets `key` to `val` in the entries of an object: replaces the value of an
/// entry that has this key, or appends a new entry.
pub fn insert_entry(obj: &mut Vec<(String, Value)>, key: String, val: Value)
    requires
        keys_unique(old(obj)@),
    ensures
        keys_unique(final(obj)@),
        entry_views(final(obj)@) == upsert(entry_views(old(obj)@), key@, val.view()),
        forall|j: int|
            0 <= j < final(obj)@.len() ==> #[trigger] final(obj)@[j].1 == val || exists|i: int|
                0 <= i < old(obj)@.len() && final(obj)@[j].1 == #[trigger] old(obj)@[i].1,
{
    let ghost p = entry_views(obj@);
    let mut i: usize = 0;
    while i < obj.len()
        invariant
            i <= obj@.len(),
            obj@ == old(obj)@,
            keys_unique(obj@),
            p == entry_views(obj@),
            forall|j: int| 0 <= j < i ==> (#[trigger] obj@[j]).0@ != key@,
        decreases obj@.len() - i,
    {
        if obj[i].0 == key {
            let ghost k = key@;
            let ghost v = val.view();
            proof {
                assert(p[i as int].0 == k);
                let c = choose|c: int| 0 <= c < p.len() && #[trigger] p[c].0 == k;
                assert(p[c] == (obj@[c].0@, obj@[c].1.view()));
                if c < i {
                    assert(obj@[c].0@ != obj@[i as int].0@);
                } else if c > i {
                    assert(obj@[i as int].0@ != obj@[c].0@);
                }
            }
            let ghost vv = val;
            obj.set(i, (key, val));
            proof {
                assert forall|j: int| 0 <= j < obj@.len() implies #[trigger] obj@[j].1 == vv
                    || exists|a: int| 0 <= a < old(obj)@.len() && obj@[j].1 == #[trigger] old(obj)@[a].1 by {
                    if j != i {
                        assert(obj@[j].1 == old(obj)@[j].1);
                    }
                }
                assert(entry_views(obj@) =~= p.update(i as int, (k, v)));
                assert forall|a: int, b: int| 0 <= a < b < obj@.len() implies #[trigger] obj@[a].0@
                    != #[trigger] obj@[b].0@ by {
                    assert(old(obj)@[a].0@ != old(obj)@[b].0@);
                    assert(obj@[a].0@ == old(obj)@[a].0@);
                    assert(obj@[b].0@ == old(obj)@[b].0@);
                }
            }
            return;
        }
        i += 1;
    }
    let ghost k = key@;
    let ghost v = val.view();
    let ghost vv = val;
    obj.push((key, val));
    proof {
        assert forall|j: int| 0 <= j < obj@.len() implies #[trigger] obj@[j].1 == vv || exists|a: int|
            0 <= a < old(obj)@.len() && obj@[j].1 == #[trigger] old(obj)@[a].1 by {
            if j < old(obj)@.len() {
                assert(obj@[j].1 == old(obj)@[j].1);
            }
        }
        assert forall|c: int| 0 <= c < p.len() implies #[trigger] p[c].0 != k by {
            assert(old(obj)@[c].0@ != k);
        }
        assert(entry_views(obj@) =~= p.push((k, v)));
        assert forall|a: int, b: int| 0 <= a < b < obj@.len() implies #[trigger] obj@[a].0@
            != #[trigger] obj@[b].0@ by {
            if b < old(obj)@.len() {
                assert(old(obj)@[a].0@ != old(obj)@[b].0@);
            } else {
                assert(old(obj)@[a].0@ != k);
            }
        }
    }
}

/// Reads one value, with the whitespace around it.
pub fn parse_value(lexer: &mut Lexer) -> (r: Result<Value, ParseError>)
    requires
        old(lexer).wf(),
    ensures
        final(lexer).s == old(lexer).s,
        final(lexer).wf(),
        r is Ok ==> old(lexer).pos < final(lexer).pos,
        r matches Ok(x) ==> x.view().wf(),
        match parse_value_spec(old(lexer).s@, old(lexer).pos as int) {
            Ok((v, k)) => r matches Ok(x) && x.view() == v && final(lexer).pos == k,
            Err(m) => r matches Err(e) && e.0@ == m,
        },
    decreases old(lexer).s@.len() - old(lexer).pos,
{
    let ghost s = lexer.s@;
    let ghost i = lexer.pos as int;
    let token = match lexer.token() {
        Ok(t) => t,
        Err(e) => return Err(e),
    };
    match token {
        Token::Identifier(w) => {
            if matches_word(&w, "null") {
                Ok(Value::Null)
            } else if matches_word(&w, "true") {
                Ok(Value::Boolean(true))
            } else if matches_word(&w, "false") {
                Ok(Value::Boolean(false))
            } else {
                Err(message_token("Unknown token '", &Token::Identifier(w), "'"))
            }
        },
        Token::String(x) => Ok(Value::String(x)),
        Token::Number(n) => Ok(Value::Number(n)),
        Token::OpenBracket => {
            if lexer.pos < lexer.s.len() && lexer.s[lexer.pos] == ']' {
                lexer.advance();
                proof {
                    lemma_run_end_bounds(s, lexer.pos as int, CharClass::Whitespace);
                }
                lexer.skip_whitespace();
                let arr: Vec<Value> = Vec::new();
                proof {
                    lemma_array_view(arr);
                    assert(element_views(arr@) =~= Seq::<Json>::empty());
                }
                return Ok(Value::Array(arr));
            }
            let mut arr: Vec<Value> = Vec::new();
            proof {
                assert(element_views(arr@) =~= Seq::<Json>::empty());
            }
            loop
                invariant
                    lexer.s == old(lexer).s,
                    lexer.s@ == s,
                    s == old(lexer).s@,
                    i == old(lexer).pos,
                    lexer.wf(),
                    i < lexer.pos,
                    parse_value_spec(s, i) == parse_elements_spec(
                        s,
                        lexer.pos as int,
                        element_views(arr@),
                    ),
                    forall|j: int| 0 <= j < arr@.len() ==> (#[trigger] arr@[j]).view().wf(),
                decreases s.len() - lexer.pos,
            {
                let ghost p = lexer.pos as int;
                let ghost acc = element_views(arr@);
                let val = match parse_value(lexer) {
                    Ok(v) => v,
                    Err(e) => return Err(e),
                };
                let ghost v = val.view();
                arr.push(val);
                proof {
                    assert(element_views(arr@) =~= acc.push(v));
                }
                let next = match lexer.token() {
                    Ok(t) => t,
                    Err(e) => return Err(e),
                };
                match next {
                    Token::CloseBracket => {
                        proof {
                            lemma_array_view(arr);
                            let a = element_views(arr@);
                            assert forall|j: int| 0 <= j < a.len() implies #[trigger] a[j].wf() by {
                                assert(a[j] == arr@[j].view());
                            }
                        }
                        return Ok(Value::Array(arr));
                    },
                    Token::Comma => {},
                    other => {
                        return Err(message_token("Expected ',' or ']' but got '", &other, "'"));
                    },
                }
            }
        },
        Token::OpenBrace => {
            if lexer.pos < lexer.s.len() && lexer.s[lexer.pos] == '}' {
                lexer.advance();
                proof {
                    lemma_run_end_bounds(s, lexer.pos as int, CharClass::Whitespace);
                }
                lexer.skip_whitespace();
                let obj: Vec<(String, Value)> = Vec::new();
                proof {
                    lemma_object_view(obj);
                    assert(entry_views(obj@) =~= Seq::<(Seq<char>, Json)>::empty());
                }
                return Ok(Value::Object(obj));
            }
            let mut obj: Vec<(String, Value)> = Vec::new();
            proof {
                assert(entry_views(obj@) =~= Seq::<(Seq<char>, Json)>::empty());
            }
            loop
                invariant
                    lexer.s == old(lexer).s,
                    lexer.s@ == s,
                    s == old(lexer).s@,
                    i == old(lexer).pos,
                    lexer.wf(),
                    i < lexer.pos,
                    keys_unique(obj@),
                    parse_value_spec(s, i) == parse_members_spec(
                        s,
                        lexer.pos as int,
                        entry_views(obj@),
                    ),
                    forall|j: int| 0 <= j < obj@.len() ==> (#[trigger] obj@[j]).1.view().wf(),
                decreases s.len() - lexer.pos,
            {
                let key = match parse_value(lexer) {
                    Ok(v) => v,
                    Err(e) => return Err(e),
                };
                let name = match key {
                    Value::String(k) => k,
                    _ => return Err(message("Object keys must be strings")),
                };
                let colon = match lexer.token() {
                    Ok(t) => t,
                    Err(e) => return Err(e),
                };
                match colon {
                    Token::Colon => {},
                    other => {
                        return Err(message_token("Expected colon but got '", &other, "'"));
                    },
                }
                let val = match parse_value(lexer) {
                    Ok(v) => v,
                    Err(e) => return Err(e),
                };
                let ghost before = obj@;
                let ghost vv = val;
                insert_entry(&mut obj, name, val);
                proof {
                    assert forall|j: int| 0 <= j < obj@.len() implies (#[trigger] obj@[j]).1.view().wf() by {
                        if obj@[j].1 != vv {
                            let a = choose|a: int| 0 <= a < before.len() && obj@[j].1 == #[trigger] before[a].1;
                            assert(before[a].1.view().wf());
                        }
                    }
                }
                let next = match lexer.token() {
                    Ok(t) => t,
                    Err(e) => return Err(e),
                };
                match next {
                    Token::CloseBrace => {
                        proof {
                            lemma_object_view(obj);
                            let p = entry_views(obj@);
                            assert forall|j: int| 0 <= j < p.len() implies #[trigger] p[j].1.wf() by {
                                assert(p[j].1 == obj@[j].1.view());
                            }
                            assert forall|a: int, b: int| 0 <= a < b < p.len() implies #[trigger] p[a].0
                                != #[trigger] p[b].0 by {
                                assert(p[a].0 == obj@[a].0@);
                                assert(p[b].0 == obj@[b].0@);
                            }
                        }
                        return Ok(Value::Object(obj));
                    },
                    Token::Comma => {},
                    other => {
                        return Err(message_token("Expected comma or brace but got '", &other, "'"));
                    },
                }
            }
        },
        other => Err(message_token("Unknown token '", &other, "'")),
    }
}


/// The characters of `s`, in order.
pub fn chars_of(s: &str) -> (r: Vec<char>)
    ensures
        r@ == s@,
{
    broadcast use vstd::string::axiom_spec_iter, vstd::string::next_postcondition;

    let n = s.unicode_len();
    let mut it = s.chars();
    let mut r: Vec<char> = Vec::new();
    while r.len() < n
        invariant
            n == s@.len(),
            r@ + it.remaining() == s@,
        decreases n - r@.len(),
    {
        match it.next() {
            Some(c) => {
                r.push(c);
                proof {
                    assert(r@ + it.remaining() =~= s@);
                }
            },
            None => {
                return r;
            },
        }
    }
    proof {
        assert(r@ =~= s@);
    }
    r
}

/// Parses JSON text into a value. Whitespace may stand before and after the
/// value; anything else after it is refused.
pub fn parse(s: &str) -> (r: Result<Value, ParseError>)
    ensures
        r matches Ok(x) ==> x.view().wf(),
        match parse_spec(s@) {
            Ok(v) => r matches Ok(x) && x.view() == v,
            Err(m) => r matches Err(e) && e.0@ == m,
        },
{
    let mut lexer = Lexer::new(chars_of(s));
    let v = match parse_value(&mut lexer) {
        Ok(v) => v,
        Err(e) => return Err(e),
    };
    lexer.skip_whitespace();
    if !lexer.eof() {
        let mut m = "Extra content at end of input: ".to_owned();
        let rest = lexer.rest();
        m.append(rest.as_str());
        Err(ParseError(m))
    } else {
        Ok(v)
    }
}

} // verus!

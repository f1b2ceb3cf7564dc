use vstd::prelude::*;

use crate::lexer::{
    in_class, is_digit_char, is_ident_char, is_ident_start, is_ws,
    lemma_string_end_bounds, lex, msg_eof_unicode, run_end, string_end, unescape,
    ws_end, CharClass, Tok,
};
use crate::decode::FromJSON;
use crate::number::{all_digits, digits_value, lemma_digits_value_nonneg, pow10};
use crate::parser::{
    msg_trailing, msg_unknown_token, parse_elements_spec, parse_members_spec, parse_spec,
    parse_value_spec,
};
use crate::value::{lemma_pairs_update, pairs_to_map, pairs_unique, upsert, Json, NumberModel};

verus! {

/// Every character of `s` is whitespace.
pub open spec fn all_ws(s: Seq<char>) -> bool {
    forall|i: int| 0 <= i < s.len() ==> is_ws(#[trigger] s[i])
}

/// A run of class `k` from `i` ends at `j` when every character in between is
/// of the class and the one at `j` (if any) is not.
pub proof fn lemma_run_end_at(s: Seq<char>, i: int, j: int, k: CharClass)
    requires
        0 <= i <= j <= s.len(),
        forall|m: int| i <= m < j ==> in_class(k, #[trigger] s[m]),
        j < s.len() ==> !in_class(k, s[j]),
    ensures
        run_end(s, i, k) == j,
    decreases j - i,
{
    if i < j {
        lemma_run_end_at(s, i + 1, j, k);
    }
}

/// The three literal words read as their values, whatever whitespace stands
/// around them.
pub proof fn law_literals(before: Seq<char>, after: Seq<char>)
    requires
        all_ws(before),
        all_ws(after),
    ensures
        parse_spec(before + "null"@ + after) == Ok::<Json, Seq<char>>(Json::Null),
        parse_spec(before + "true"@ + after) == Ok::<Json, Seq<char>>(Json::Boolean(true)),
        parse_spec(before + "false"@ + after) == Ok::<Json, Seq<char>>(Json::Boolean(false)),
{
    lemma_null(before, after);
    lemma_true(before, after);
    lemma_false(before, after);
}

proof fn lemma_null(before: Seq<char>, after: Seq<char>)
    requires
        all_ws(before),
        all_ws(after),
    ensures
        parse_spec(before + "null"@ + after) == Ok::<Json, Seq<char>>(Json::Null),
{
    reveal_strlit("null");
    lemma_word_between(before, "null"@, after);
}

proof fn lemma_true(before: Seq<char>, after: Seq<char>)
    requires
        all_ws(before),
        all_ws(after),
    ensures
        parse_spec(before + "true"@ + after) == Ok::<Json, Seq<char>>(Json::Boolean(true)),
{
    reveal_strlit("true");
    reveal_strlit("null");
    lemma_word_between(before, "true"@, after);
}

proof fn lemma_false(before: Seq<char>, after: Seq<char>)
    requires
        all_ws(before),
        all_ws(after),
    ensures
        parse_spec(before + "false"@ + after) == Ok::<Json, Seq<char>>(Json::Boolean(false)),
{
    reveal_strlit("false");
    reveal_strlit("null");
    reveal_strlit("true");
    lemma_word_between(before, "false"@, after);
}

proof fn lemma_word_between(before: Seq<char>, w: Seq<char>, after: Seq<char>)
    requires
        all_ws(before),
        all_ws(after),
        w.len() > 0,
        'a' <= w[0] <= 'z',
        forall|i: int| 0 <= i < w.len() ==> 'a' <= #[trigger] w[i] <= 'z',
    ensures
        ({
            let s = before + w + after;
            &&& lex(s, 0) == Ok::<(Tok, int, int), Seq<char>>(
                (Tok::Identifier(w), (before.len() + w.len()) as int, s.len() as int),
            )
            &&& ws_end(s, s.len() as int) == s.len()
        }),
{
    let s = before + w + after;
    let b = before.len() as int;
    let e = b + w.len();
    assert forall|m: int| 0 <= m < b implies in_class(CharClass::Whitespace, #[trigger] s[m]) by {
        assert(s[m] == before[m]);
    }
    assert(s[b] == w[0]);
    lemma_run_end_at(s, 0, b, CharClass::Whitespace);
    assert forall|m: int| b <= m < e implies in_class(CharClass::IdentifierChar, #[trigger] s[m]) by {
        assert(s[m] == w[m - b]);
        assert('a' <= w[m - b] <= 'z');
    }
    if e < s.len() {
        assert(s[e] == after[0]);
        assert(is_ws(after[0]));
    }
    lemma_run_end_at(s, b, e, CharClass::IdentifierChar);
    assert forall|m: int| e <= m < s.len() implies in_class(CharClass::Whitespace, #[trigger] s[m]) by {
        assert(s[m] == after[m - e]);
    }
    lemma_run_end_at(s, e, s.len() as int, CharClass::Whitespace);
    lemma_run_end_at(s, s.len() as int, s.len() as int, CharClass::Whitespace);
    assert(s.subrange(b, e) =~= w);
}

/// No character of `w` is a quote, a backslash or a newline.
pub open spec fn plain_text(w: Seq<char>) -> bool {
    forall|i: int| 0 <= i < w.len() ==> #[trigger] w[i] != '"' && w[i] != '\\' && w[i] != '\n'
}

proof fn lemma_string_end_plain(s: Seq<char>, k: int, q: int)
    requires
        0 <= k <= q < s.len(),
        s[q] == '"',
        forall|m: int| k <= m < q ==> #[trigger] s[m] != '"' && s[m] != '\\' && s[m] != '\n',
    ensures
        string_end(s, k) == Ok::<int, Seq<char>>(q),
    decreases q - k,
{
    if k < q {
        lemma_string_end_plain(s, k + 1, q);
    }
}

proof fn lemma_unescape_plain(t: Seq<char>, k: int)
    requires
        0 <= k <= t.len(),
        plain_text(t),
    ensures
        unescape(t, k, t.subrange(0, k)) == Ok::<Seq<char>, Seq<char>>(t),
    decreases t.len() - k,
{
    if k < t.len() {
        assert(t.subrange(0, k).push(t[k]) =~= t.subrange(0, k + 1));
        lemma_unescape_plain(t, k + 1);
    } else {
        assert(t.subrange(0, k) =~= t);
    }
}

/// A string literal whose text has no quote, backslash or newline reads as
/// exactly that text, whatever characters (of any script) it holds.
pub proof fn law_plain_string(w: Seq<char>)
    requires
        plain_text(w),
    ensures
        parse_spec(seq!['"'] + w + seq!['"']) == Ok::<Json, Seq<char>>(Json::Str(w)),
{
    let s = seq!['"'] + w + seq!['"'];
    let q = (w.len() + 1) as int;
    lemma_run_end_at(s, 0, 0, CharClass::Whitespace);
    assert forall|m: int| 1 <= m < q implies #[trigger] s[m] != '"' && s[m] != '\\' && s[m] != '\n' by {
        assert(s[m] == w[m - 1]);
    }
    lemma_string_end_plain(s, 1, q);
    assert(s.subrange(1, q) =~= w);
    lemma_unescape_plain(w, 0);
    assert(w.subrange(0, 0) =~= Seq::<char>::empty());
    lemma_run_end_at(s, q + 1, q + 1, CharClass::Whitespace);
}

/// A string literal with no closing quote is an error.
pub proof fn law_unterminated_string(w: Seq<char>)
    requires
        forall|i: int| 0 <= i < w.len() ==> #[trigger] w[i] != '"',
    ensures
        parse_spec(seq!['"'] + w) is Err,
{
    let s = seq!['"'] + w;
    lemma_run_end_at(s, 0, 0, CharClass::Whitespace);
    lemma_string_end_bounds(s, 1);
    if let Ok(q) = string_end(s, 1) {
        assert(s[q] == w[q - 1]);
    }
}

/// A `\u` escape with fewer than four characters before the closing quote is
/// an error.
pub proof fn law_truncated_unicode_escape(h: Seq<char>)
    requires
        h.len() < 4,
        plain_text(h),
    ensures
        parse_spec(seq!['"', '\\', 'u'] + h + seq!['"']) == Err::<Json, Seq<char>>(msg_eof_unicode()),
{
    let s = seq!['"', '\\', 'u'] + h + seq!['"'];
    let q = (h.len() + 3) as int;
    lemma_run_end_at(s, 0, 0, CharClass::Whitespace);
    assert forall|m: int| 3 <= m < q implies #[trigger] s[m] != '"' && s[m] != '\\' && s[m] != '\n' by {
        assert(s[m] == h[m - 3]);
    }
    lemma_string_end_plain(s, 3, q);
    assert(string_end(s, 1) == string_end(s, 3));
    let t = s.subrange(1, q);
    assert(t[0] == '\\' && t[1] == 'u');
}

/// A bare word other than `null`, `true` and `false` is an error that names it.
pub proof fn law_unknown_identifier(w: Seq<char>)
    requires
        w.len() > 0,
        is_ident_start(w[0]),
        forall|i: int| 0 <= i < w.len() ==> is_ident_char(#[trigger] w[i]),
        w != "null"@,
        w != "true"@,
        w != "false"@,
    ensures
        parse_spec(w) == Err::<Json, Seq<char>>(msg_unknown_token(Tok::Identifier(w))),
{
    lemma_run_end_at(w, 0, 0, CharClass::Whitespace);
    lemma_run_end_at(w, 0, w.len() as int, CharClass::IdentifierChar);
    lemma_run_end_at(w, w.len() as int, w.len() as int, CharClass::Whitespace);
    assert(w.subrange(0, w.len() as int) =~= w);
}

/// A run of digits reads as a whole number, and with a `-` before it as the
/// same number negated.
pub proof fn law_integer_sign(d: Seq<char>)
    requires
        d.len() > 0,
        all_digits(d),
    ensures
        parse_spec(d) == Ok::<Json, Seq<char>>(
            Json::Number(
                NumberModel {
                    negative: false,
                    integer: d,
                    fraction: Seq::empty(),
                    exponent_negative: false,
                    exponent: Seq::empty(),
                },
            ),
        ),
        parse_spec(seq!['-'] + d) == Ok::<Json, Seq<char>>(
            Json::Number(
                NumberModel {
                    negative: true,
                    integer: d,
                    fraction: Seq::empty(),
                    exponent_negative: false,
                    exponent: Seq::empty(),
                },
            ),
        ),
{
    lemma_digits_read(Seq::empty(), d);
    lemma_digits_read(seq!['-'], d);
}

proof fn lemma_digits_read(sign: Seq<char>, d: Seq<char>)
    requires
        d.len() > 0,
        all_digits(d),
        sign.len() <= 1,
        sign.len() == 1 ==> sign[0] == '-',
    ensures
        parse_spec(sign + d) == Ok::<Json, Seq<char>>(
            Json::Number(
                NumberModel {
                    negative: sign.len() == 1,
                    integer: d,
                    fraction: Seq::empty(),
                    exponent_negative: false,
                    exponent: Seq::empty(),
                },
            ),
        ),
{
    let s = sign + d;
    let k = sign.len() as int;
    let n = s.len() as int;
    assert(s[0] == if k == 1 { '-' } else { d[0] });
    assert(is_digit_char(d[0]));
    lemma_run_end_at(s, 0, 0, CharClass::Whitespace);
    assert forall|m: int| k <= m < n implies in_class(CharClass::Digit, #[trigger] s[m]) by {
        assert(s[m] == d[m - k]);
    }
    lemma_run_end_at(s, k, n, CharClass::Digit);
    lemma_run_end_at(s, n, n, CharClass::Digit);
    lemma_run_end_at(s, n, n, CharClass::Whitespace);
    assert(s.subrange(k, n) =~= d);
    assert(s.subrange(n, n) =~= Seq::<char>::empty());
}

/// `n` opening brackets followed by `n` closing ones.
pub open spec fn brackets(n: nat) -> Seq<char> {
    Seq::new(2 * n, |i: int| if i < n { '[' } else { ']' })
}

/// An empty array inside `n - 1` arrays of one element each.
pub open spec fn nested(n: nat) -> Json
    decreases n,
{
    if n <= 1 {
        Json::Array(Seq::empty())
    } else {
        Json::Array(seq![nested((n - 1) as nat)])
    }
}

/// Arrays nest to any depth: `n` brackets deep read as `n` arrays, one inside
/// the next.
pub proof fn law_nested_arrays(n: nat)
    requires
        n >= 1,
    ensures
        parse_spec(brackets(n)) == Ok::<Json, Seq<char>>(nested(n)),
{
    let s = brackets(n);
    lemma_nested_prefix(s, n, 0);
    lemma_run_end_at(s, (2 * n) as int, (2 * n) as int, CharClass::Whitespace);
}

/// A number written with integer digits `d`, fraction digits `f` and no
/// exponent decodes into a `u32` exactly when every digit of `f` is a zero,
/// and then into the value of `d`, held to the range of `u32`.
pub proof fn law_u32_of_decimal(d: Seq<char>, f: Seq<char>, r: u32)
    requires
        all_digits(d),
        all_digits(f),
    ensures
        ({
            let v = Json::Number(
                NumberModel {
                    negative: false,
                    integer: d,
                    fraction: f,
                    exponent_negative: false,
                    exponent: Seq::empty(),
                },
            );
            &&& <u32 as FromJSON>::decodable(v) <==> (forall|i: int|
                0 <= i < f.len() ==> #[trigger] f[i] == '0')
            &&& <u32 as FromJSON>::decodes_to(v, r) <==> r == (if digits_value(d) > u32::MAX {
                u32::MAX as int
            } else {
                digits_value(d)
            })
        }),
{
    let n = NumberModel {
        negative: false,
        integer: d,
        fraction: f,
        exponent_negative: false,
        exponent: Seq::empty(),
    };
    assert(all_digits(Seq::<char>::empty()));
    assert(n.scale() == -f.len());
    let dd = n.digits();
    assert(dd.subrange(0, d.len() as int) =~= d);
    if n.is_integral() {
        assert forall|i: int| 0 <= i < f.len() implies #[trigger] f[i] == '0' by {
            assert(dd[d.len() + i] == f[i]);
        }
    }
    if forall|i: int| 0 <= i < f.len() ==> #[trigger] f[i] == '0' {
        assert forall|i: int|
            0 <= i < dd.len() && i >= dd.len() + n.scale() implies #[trigger] dd[i] == '0' by {
            assert(dd[i] == f[i - d.len()]);
        }
    }
    lemma_digits_value_nonneg(d);
    if f.len() == 0 {
        assert(dd =~= d);
        assert(pow10(0) == 1);
        assert(n.integer_part() == digits_value(d));
    } else if d.len() == 0 {
        assert(d =~= Seq::<char>::empty());
        assert(n.integer_part() == 0);
    } else {
        assert(n.integer_part() == digits_value(d));
    }
}

/// Among an object's members a later value for a key replaces the earlier
/// one: seen as a map, setting a key is inserting it, and keys stay unique.
pub proof fn law_last_write_wins(p: Seq<(Seq<char>, Json)>, k: Seq<char>, v: Json)
    requires
        pairs_unique(p),
    ensures
        pairs_to_map(upsert(p, k, v)) == pairs_to_map(p).insert(k, v),
        pairs_unique(upsert(p, k, v)),
{
    if exists|i: int| 0 <= i < p.len() && #[trigger] p[i].0 == k {
        let c = choose|i: int| 0 <= i < p.len() && #[trigger] p[i].0 == k;
        assert forall|j: int| 0 <= j < p.len() && j != c implies #[trigger] p[j].0 != p[c].0 by {
            if j < c {
                assert(p[j].0 != p[c].0);
            } else {
                assert(p[c].0 != p[j].0);
            }
        }
        lemma_pairs_update(p, c, v);
        let q = upsert(p, k, v);
        assert forall|a: int, b: int| 0 <= a < b < q.len() implies #[trigger] q[a].0 != #[trigger] q[b].0 by {
            assert(q[a].0 == p[a].0);
            assert(q[b].0 == p[b].0);
        }
    } else {
        let q = upsert(p, k, v);
        assert(q.drop_last() =~= p);
        assert forall|a: int, b: int| 0 <= a < b < q.len() implies #[trigger] q[a].0 != #[trigger] q[b].0 by {
            if b == p.len() {
                assert(q[a].0 == p[a].0);
            } else {
                assert(q[a].0 == p[a].0);
                assert(q[b].0 == p[b].0);
            }
        }
    }
}

/// `x..y` is a run of whitespace that nothing more of it follows.
pub open spec fn ws_run(s: Seq<char>, x: int, y: int) -> bool {
    &&& 0 <= x <= y <= s.len()
    &&& forall|m: int| x <= m < y ==> is_ws(#[trigger] s[m])
    &&& y < s.len() ==> !is_ws(s[y])
}

proof fn lemma_ws_run(s: Seq<char>, x: int, y: int)
    requires
        ws_run(s, x, y),
    ensures
        ws_end(s, x) == y,
{
    lemma_run_end_at(s, x, y, CharClass::Whitespace);
}

proof fn lemma_lex_punct(s: Seq<char>, i: int, j: int)
    requires
        0 <= i < s.len(),
        s[i] == '[' || s[i] == ']' || s[i] == '{' || s[i] == '}' || s[i] == ':' || s[i] == ',',
        ws_run(s, i + 1, j),
    ensures
        lex(s, i) == Ok::<(Tok, int, int), Seq<char>>(
            (
                if s[i] == '[' {
                    Tok::OpenBracket
                } else if s[i] == ']' {
                    Tok::CloseBracket
                } else if s[i] == '{' {
                    Tok::OpenBrace
                } else if s[i] == '}' {
                    Tok::CloseBrace
                } else if s[i] == ':' {
                    Tok::Colon
                } else {
                    Tok::Comma
                },
                i + 1,
                j,
            ),
        ),
{
    lemma_run_end_at(s, i, i, CharClass::Whitespace);
    lemma_ws_run(s, i + 1, j);
}

proof fn lemma_lex_string(s: Seq<char>, i: int, w: Seq<char>, j: int)
    requires
        0 <= i,
        i + w.len() + 2 <= s.len(),
        s[i] == '"',
        s[i + w.len() + 1] == '"',
        forall|m: int| 0 <= m < w.len() ==> s[i + 1 + m] == #[trigger] w[m],
        plain_text(w),
        ws_run(s, i + w.len() + 2, j),
    ensures
        lex(s, i) == Ok::<(Tok, int, int), Seq<char>>((Tok::Str(w), i + w.len() + 2, j)),
{
    let q = i + w.len() + 1;
    lemma_run_end_at(s, i, i, CharClass::Whitespace);
    assert forall|m: int| i + 1 <= m < q implies #[trigger] s[m] != '"' && s[m] != '\\' && s[m] != '\n' by {
        assert(s[m] == w[m - i - 1]);
    }
    lemma_string_end_plain(s, i + 1, q);
    assert(s.subrange(i + 1, q) =~= w);
    lemma_unescape_plain(w, 0);
    assert(w.subrange(0, 0) =~= Seq::<char>::empty());
    lemma_ws_run(s, q + 1, j);
}

proof fn lemma_lex_true(s: Seq<char>, i: int, j: int)
    requires
        0 <= i,
        i + 4 < s.len(),
        s[i] == 't' && s[i + 1] == 'r' && s[i + 2] == 'u' && s[i + 3] == 'e',
        !is_ident_char(s[i + 4]),
        ws_run(s, i + 4, j),
    ensures
        lex(s, i) == Ok::<(Tok, int, int), Seq<char>>((Tok::Identifier("true"@), i + 4, j)),
{
    reveal_strlit("true");
    lemma_run_end_at(s, i, i, CharClass::Whitespace);
    lemma_run_end_at(s, i, i + 4, CharClass::IdentifierChar);
    assert(s.subrange(i, i + 4) =~= "true"@);
    lemma_ws_run(s, i + 4, j);
}

/// A string in quotes.
pub open spec fn quote(w: Seq<char>) -> Seq<char> {
    seq!['"'] + w + seq!['"']
}

/// An object of two members, the first with a string value and the second
/// with `true`, reads as those two members in order, whatever whitespace
/// stands around its colons and comma.
pub proof fn law_object_members(
    k1: Seq<char>,
    v1: Seq<char>,
    k2: Seq<char>,
    a: Seq<char>,
    b: Seq<char>,
    c: Seq<char>,
    d: Seq<char>,
    e: Seq<char>,
    f: Seq<char>,
)
    requires
        plain_text(k1),
        plain_text(v1),
        plain_text(k2),
        k1 != k2,
        all_ws(a),
        all_ws(b),
        all_ws(c),
        all_ws(d),
        all_ws(e),
        all_ws(f),
    ensures
        parse_spec(
            seq!['{'] + quote(k1) + a + seq![':'] + b + quote(v1) + c + seq![','] + d + quote(k2) + e
                + seq![':'] + f + seq!['t', 'r', 'u', 'e', '}'],
        ) == Ok::<Json, Seq<char>>(
            Json::Object(seq![(k1, Json::Str(v1)), (k2, Json::Boolean(true))]),
        ),
{
    let s1 = seq!['{'] + quote(k1);
    let s2 = s1 + a;
    let s3 = s2 + seq![':'];
    let s4 = s3 + b;
    let s5 = s4 + quote(v1);
    let s6 = s5 + c;
    let s7 = s6 + seq![','];
    let s8 = s7 + d;
    let s9 = s8 + quote(k2);
    let s10 = s9 + e;
    let s11 = s10 + seq![':'];
    let s12 = s11 + f;
    let s = s12 + seq!['t', 'r', 'u', 'e', '}'];
    let p1 = 1int;
    let p2 = s1.len() as int;
    let p3 = s2.len() as int;
    let p4 = s3.len() as int;
    let p5 = s4.len() as int;
    let p6 = s5.len() as int;
    let p7 = s6.len() as int;
    let p8 = s7.len() as int;
    let p9 = s8.len() as int;
    let p10 = s9.len() as int;
    let p11 = s10.len() as int;
    let p12 = s11.len() as int;
    let p13 = s12.len() as int;
    let n = s.len() as int;
    assert(n == p13 + 5);
    // Each piece stands where its offset says.
    assert(s[0] == '{');
    assert(s[p1] == '"');
    assert forall|m: int| 0 <= m < k1.len() implies s[p1 + 1 + m] == #[trigger] k1[m] by {
        assert(s[p1 + 1 + m] == s1[p1 + 1 + m]);
    }
    assert(s[p2 - 1] == '"');
    assert forall|m: int| p2 <= m < p3 implies is_ws(#[trigger] s[m]) by {
        assert(s[m] == a[m - p2]);
    }
    assert(s[p3] == ':');
    assert forall|m: int| p4 <= m < p5 implies is_ws(#[trigger] s[m]) by {
        assert(s[m] == b[m - p4]);
    }
    assert(s[p5] == '"');
    assert forall|m: int| 0 <= m < v1.len() implies s[p5 + 1 + m] == #[trigger] v1[m] by {
        assert(s[p5 + 1 + m] == s5[p5 + 1 + m]);
    }
    assert(s[p6 - 1] == '"');
    assert forall|m: int| p6 <= m < p7 implies is_ws(#[trigger] s[m]) by {
        assert(s[m] == c[m - p6]);
    }
    assert(s[p7] == ',');
    assert forall|m: int| p8 <= m < p9 implies is_ws(#[trigger] s[m]) by {
        assert(s[m] == d[m - p8]);
    }
    assert(s[p9] == '"');
    assert forall|m: int| 0 <= m < k2.len() implies s[p9 + 1 + m] == #[trigger] k2[m] by {
        assert(s[p9 + 1 + m] == s9[p9 + 1 + m]);
    }
    assert(s[p10 - 1] == '"');
    assert forall|m: int| p10 <= m < p11 implies is_ws(#[trigger] s[m]) by {
        assert(s[m] == e[m - p10]);
    }
    assert(s[p11] == ':');
    assert forall|m: int| p12 <= m < p13 implies is_ws(#[trigger] s[m]) by {
        assert(s[m] == f[m - p12]);
    }
    assert(s[p13] == 't' && s[p13 + 1] == 'r' && s[p13 + 2] == 'u' && s[p13 + 3] == 'e');
    assert(s[p13 + 4] == '}');
    // Token by token.
    lemma_lex_punct(s, 0, p1);
    lemma_lex_string(s, p1, k1, p3);
    lemma_lex_punct(s, p3, p5);
    lemma_lex_string(s, p5, v1, p7);
    lemma_lex_punct(s, p7, p9);
    lemma_lex_string(s, p9, k2, p11);
    lemma_lex_punct(s, p11, p13);
    lemma_lex_true(s, p13, p13 + 4);
    lemma_lex_punct(s, p13 + 4, n);
    lemma_run_end_at(s, n, n, CharClass::Whitespace);
    lemma_second_member(s, k1, v1, k2, p9, p11, p13, n);
    lemma_first_member(s, k1, v1, k2, p1, p3, p5, p7, p9, n);
}

proof fn lemma_second_member(
    s: Seq<char>,
    k1: Seq<char>,
    v1: Seq<char>,
    k2: Seq<char>,
    p9: int,
    p11: int,
    p13: int,
    n: int,
)
    requires
        0 <= p9 < p11 < p13 < n,
        n == s.len(),
        k1 != k2,
        lex(s, p9) matches Ok((Tok::Str(w), _, j)) && w == k2 && j == p11,
        lex(s, p11) matches Ok((Tok::Colon, _, j)) && j == p13,
        lex(s, p13) matches Ok((Tok::Identifier(w), _, j)) && w == "true"@ && j == p13 + 4,
        lex(s, p13 + 4) matches Ok((Tok::CloseBrace, _, j)) && j == n,
    ensures
        parse_members_spec(s, p9, seq![(k1, Json::Str(v1))]) == Ok::<(Json, int), Seq<char>>(
            (Json::Object(seq![(k1, Json::Str(v1)), (k2, Json::Boolean(true))]), n),
        ),
{
    reveal_strlit("null");
    reveal_strlit("true");
    let acc1 = seq![(k1, Json::Str(v1))];
    assert(!(exists|i: int| 0 <= i < acc1.len() && #[trigger] acc1[i].0 == k2));
    assert(upsert(acc1, k2, Json::Boolean(true)) =~= seq![
        (k1, Json::Str(v1)),
        (k2, Json::Boolean(true)),
    ]);
    assert(parse_value_spec(s, p9) == Ok::<(Json, int), Seq<char>>((Json::Str(k2), p11)));
    assert("true"@[0] != "null"@[0]);
    assert("true"@ != "null"@);
    assert(parse_value_spec(s, p13) == Ok::<(Json, int), Seq<char>>((Json::Boolean(true), p13 + 4)));
}

proof fn lemma_first_member(
    s: Seq<char>,
    k1: Seq<char>,
    v1: Seq<char>,
    k2: Seq<char>,
    p1: int,
    p3: int,
    p5: int,
    p7: int,
    p9: int,
    n: int,
)
    requires
        0 <= p1 < p3 < p5 < p7 < p9 <= n,
        n == s.len(),
        s[p1] == '"',
        lex(s, 0) matches Ok((Tok::OpenBrace, _, j)) && j == p1,
        lex(s, p1) matches Ok((Tok::Str(w), _, j)) && w == k1 && j == p3,
        lex(s, p3) matches Ok((Tok::Colon, _, j)) && j == p5,
        lex(s, p5) matches Ok((Tok::Str(w), _, j)) && w == v1 && j == p7,
        lex(s, p7) matches Ok((Tok::Comma, _, j)) && j == p9,
        parse_members_spec(s, p9, seq![(k1, Json::Str(v1))]) == Ok::<(Json, int), Seq<char>>(
            (Json::Object(seq![(k1, Json::Str(v1)), (k2, Json::Boolean(true))]), n),
        ),
        ws_end(s, n) == n,
    ensures
        parse_spec(s) == Ok::<Json, Seq<char>>(
            Json::Object(seq![(k1, Json::Str(v1)), (k2, Json::Boolean(true))]),
        ),
{
    assert(upsert(Seq::empty(), k1, Json::Str(v1)) =~= seq![(k1, Json::Str(v1))]);
    assert(parse_value_spec(s, p1) == Ok::<(Json, int), Seq<char>>((Json::Str(k1), p3)));
    assert(parse_value_spec(s, p5) == Ok::<(Json, int), Seq<char>>((Json::Str(v1), p7)));
    assert(parse_members_spec(s, p1, Seq::empty()) == Ok::<(Json, int), Seq<char>>(
        (Json::Object(seq![(k1, Json::Str(v1)), (k2, Json::Boolean(true))]), n),
    ));
}
proof fn lemma_lex_false(s: Seq<char>, i: int, j: int)
    requires
        0 <= i,
        i + 5 < s.len(),
        s[i] == 'f' && s[i + 1] == 'a' && s[i + 2] == 'l' && s[i + 3] == 's' && s[i + 4] == 'e',
        !is_ident_char(s[i + 5]),
        ws_run(s, i + 5, j),
    ensures
        lex(s, i) == Ok::<(Tok, int, int), Seq<char>>((Tok::Identifier("false"@), i + 5, j)),
{
    reveal_strlit("false");
    lemma_run_end_at(s, i, i, CharClass::Whitespace);
    lemma_run_end_at(s, i, i + 5, CharClass::IdentifierChar);
    assert(s.subrange(i, i + 5) =~= "false"@);
    lemma_ws_run(s, i + 5, j);
}

/// Leading whitespace is skipped before a token.
proof fn lemma_lex_after_ws(s: Seq<char>, x: int, i: int)
    requires
        ws_run(s, x, i),
    ensures
        lex(s, x) == lex(s, i),
{
    lemma_ws_run(s, x, i);
    lemma_run_end_at(s, i, i, CharClass::Whitespace);
}

/// An array of `true` and `false` reads the same whatever whitespace stands
/// before, inside and after it.
pub proof fn law_array_whitespace(
    a: Seq<char>,
    b: Seq<char>,
    c: Seq<char>,
    d: Seq<char>,
    e: Seq<char>,
    f: Seq<char>,
)
    requires
        all_ws(a),
        all_ws(b),
        all_ws(c),
        all_ws(d),
        all_ws(e),
        all_ws(f),
    ensures
        parse_spec(
            a + seq!['['] + b + seq!['t', 'r', 'u', 'e'] + c + seq![','] + d + seq![
                'f',
                'a',
                'l',
                's',
                'e',
            ] + e + seq![']'] + f,
        ) == Ok::<Json, Seq<char>>(Json::Array(seq![Json::Boolean(true), Json::Boolean(false)])),
{
    let s1 = a + seq!['['];
    let s2 = s1 + b;
    let s3 = s2 + seq!['t', 'r', 'u', 'e'];
    let s4 = s3 + c;
    let s5 = s4 + seq![','];
    let s6 = s5 + d;
    let s7 = s6 + seq!['f', 'a', 'l', 's', 'e'];
    let s8 = s7 + e;
    let s9 = s8 + seq![']'];
    let s = s9 + f;
    let p0 = a.len() as int;
    let p1 = s1.len() as int;
    let p2 = s2.len() as int;
    let p3 = s3.len() as int;
    let p4 = s4.len() as int;
    let p5 = s5.len() as int;
    let p6 = s6.len() as int;
    let p7 = s7.len() as int;
    let p8 = s8.len() as int;
    let p9 = s9.len() as int;
    let n = s.len() as int;
    assert forall|m: int| 0 <= m < p0 implies is_ws(#[trigger] s[m]) by {
        assert(s[m] == a[m]);
    }
    assert(s[p0] == '[');
    assert forall|m: int| p1 <= m < p2 implies is_ws(#[trigger] s[m]) by {
        assert(s[m] == b[m - p1]);
    }
    assert(s[p2] == 't' && s[p2 + 1] == 'r' && s[p2 + 2] == 'u' && s[p2 + 3] == 'e');
    assert forall|m: int| p3 <= m < p4 implies is_ws(#[trigger] s[m]) by {
        assert(s[m] == c[m - p3]);
    }
    assert(s[p4] == ',');
    assert forall|m: int| p5 <= m < p6 implies is_ws(#[trigger] s[m]) by {
        assert(s[m] == d[m - p5]);
    }
    assert(s[p6] == 'f' && s[p6 + 1] == 'a' && s[p6 + 2] == 'l' && s[p6 + 3] == 's' && s[p6 + 4]
        == 'e');
    assert forall|m: int| p7 <= m < p8 implies is_ws(#[trigger] s[m]) by {
        assert(s[m] == e[m - p7]);
    }
    assert(s[p8] == ']');
    assert forall|m: int| p9 <= m < n implies is_ws(#[trigger] s[m]) by {
        assert(s[m] == f[m - p9]);
    }
    lemma_lex_after_ws(s, 0, p0);
    lemma_lex_punct(s, p0, p2);
    lemma_lex_true(s, p2, p4);
    lemma_lex_punct(s, p4, p6);
    lemma_lex_false(s, p6, p8);
    lemma_lex_punct(s, p8, n);
    lemma_run_end_at(s, n, n, CharClass::Whitespace);
    lemma_two_elements(s, p2, p4, p6, p8, n);
}

proof fn lemma_two_elements(s: Seq<char>, p2: int, p4: int, p6: int, p8: int, n: int)
    requires
        0 <= p2 < p4 < p6 < p8 < n,
        n == s.len(),
        s[p2] == 't',
        lex(s, 0) matches Ok((Tok::OpenBracket, _, j)) && j == p2,
        lex(s, p2) matches Ok((Tok::Identifier(w), _, j)) && w == "true"@ && j == p4,
        lex(s, p4) matches Ok((Tok::Comma, _, j)) && j == p6,
        lex(s, p6) matches Ok((Tok::Identifier(w), _, j)) && w == "false"@ && j == p8,
        lex(s, p8) matches Ok((Tok::CloseBracket, _, j)) && j == n,
        ws_end(s, n) == n,
    ensures
        parse_spec(s) == Ok::<Json, Seq<char>>(
            Json::Array(seq![Json::Boolean(true), Json::Boolean(false)]),
        ),
{
    reveal_strlit("null");
    reveal_strlit("true");
    reveal_strlit("false");
    assert("true"@[0] != "null"@[0]);
    assert("false"@[0] != "null"@[0]);
    assert("false"@[0] != "true"@[0]);
    assert(parse_value_spec(s, p2) == Ok::<(Json, int), Seq<char>>((Json::Boolean(true), p4)));
    assert(parse_value_spec(s, p6) == Ok::<(Json, int), Seq<char>>((Json::Boolean(false), p8)));
    assert(Seq::<Json>::empty().push(Json::Boolean(true)).push(Json::Boolean(false)) =~= seq![
        Json::Boolean(true),
        Json::Boolean(false),
    ]);
    assert(parse_elements_spec(s, p6, seq![Json::Boolean(true)]) == Ok::<(Json, int), Seq<char>>(
        (Json::Array(seq![Json::Boolean(true), Json::Boolean(false)]), n),
    ));
    assert(Seq::<Json>::empty().push(Json::Boolean(true)) =~= seq![Json::Boolean(true)]);
}

proof fn lemma_nested_prefix(s: Seq<char>, n: nat, i: int)
    requires
        0 <= i < n,
        2 * n <= s.len(),
        forall|m: int| 0 <= m < 2 * n ==> #[trigger] s[m] == if m < n { '[' } else { ']' },
    ensures
        parse_value_spec(s, i) == Ok::<(Json, int), Seq<char>>(
            (nested((n - i) as nat), if i == 0 { ws_end(s, (2 * n) as int) } else { 2 * n - i }),
        ),
    decreases n - i,
{
    lemma_run_end_at(s, i, i, CharClass::Whitespace);
    lemma_run_end_at(s, i + 1, i + 1, CharClass::Whitespace);
    if i + 1 == n {
        if i > 0 {
            lemma_run_end_at(s, i + 2, i + 2, CharClass::Whitespace);
        }
    } else {
        lemma_nested_prefix(s, n, i + 1);
        let k = 2 * n - i - 1;
        lemma_run_end_at(s, k, k, CharClass::Whitespace);
        if i > 0 {
            lemma_run_end_at(s, k + 1, k + 1, CharClass::Whitespace);
        }
        assert(parse_elements_spec(s, i + 1, Seq::empty()) == Ok::<(Json, int), Seq<char>>(
            (
                Json::Array(seq![nested((n - i - 1) as nat)]),
                if i == 0 { ws_end(s, (2 * n) as int) } else { 2 * n - i },
            ),
        )) by {
            assert(Seq::<Json>::empty().push(nested((n - i - 1) as nat)) =~= seq![
                nested((n - i - 1) as nat),
            ]);
        }
    }
}

/// A complete array followed by anything but whitespace is refused, and the
/// message shows what follows.
pub proof fn law_trailing_after_array(n: nat, w: Seq<char>, c: char)
    requires
        n >= 1,
        all_ws(w),
        !is_ws(c),
    ensures
        parse_spec(brackets(n) + w + seq![c]) == Err::<Json, Seq<char>>(msg_trailing(seq![c])),
{
    let b = brackets(n);
    let s = b + w + seq![c];
    let e = (2 * n + w.len()) as int;
    assert forall|m: int| 0 <= m < 2 * n implies #[trigger] s[m] == if m < n { '[' } else { ']' } by {
        assert(s[m] == b[m]);
    }
    lemma_nested_prefix(s, n, 0);
    assert forall|m: int| 2 * n <= m < e implies in_class(CharClass::Whitespace, #[trigger] s[m]) by {
        assert(s[m] == w[m - 2 * n]);
    }
    assert(s[e] == c);
    lemma_run_end_at(s, (2 * n) as int, e, CharClass::Whitespace);
    assert(s.subrange(e, s.len() as int) =~= seq![c]);
}

} // verus!

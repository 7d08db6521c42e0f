use vstd::prelude::*;
use crate::text::{
    alphanumeric_char, append_range, chars_of, is_alphanumeric, is_numeric, is_whitespace,
    numeric_char, string_of, whitespace_char,
};
use crate::value::Decimal;

verus! {

/// A lexical token of the script format.
#[derive(Debug)]
pub enum Token {
    Equal,
    OpenBrace,
    CloseBrace,
    Comma,
    Identifier(String),
    StringLiteral(String),
    IntegerLiteral(i64),
    FloatLiteral(Decimal),
}

/// The mathematical model of a `Token`.
pub enum Lexeme {
    Equal,
    Open,
    Close,
    Comma,
    Ident(Seq<char>),
    Str(Seq<char>),
    Int(int),
    Float(Seq<char>),
}

/// Why a text could not be split into tokens.
#[derive(PartialEq, Eq, Structural, Clone, Copy, Debug)]
pub enum LexError {
    UnknownEscape,
    IncompleteEscape,
    UnterminatedString,
    UnexpectedCharacter,
    NumberFormat,
}

impl Token {
    pub open spec fn view(&self) -> Lexeme {
        match self {
            Token::Equal => Lexeme::Equal,
            Token::OpenBrace => Lexeme::Open,
            Token::CloseBrace => Lexeme::Close,
            Token::Comma => Lexeme::Comma,
            Token::Identifier(s) => Lexeme::Ident(s@),
            Token::StringLiteral(s) => Lexeme::Str(s@),
            Token::IntegerLiteral(i) => Lexeme::Int(*i as int),
            Token::FloatLiteral(d) => Lexeme::Float(d.text@),
        }
    }
}

/// Every decimal literal among the tokens has canonical text.
pub open spec fn canonical_decimals(ts: Seq<Token>) -> bool {
    forall|j: int|
        0 <= j < ts.len() && #[trigger] ts[j] is FloatLiteral ==> canonical_text(
            ts[j]->FloatLiteral_0.text@,
        )
}

pub open spec fn lexemes(ts: Seq<Token>) -> Seq<Lexeme> {
    ts.map_values(|t: Token| t.view())
}

pub open spec fn word_char(c: char) -> bool {
    alphanumeric_char(c) || c == '_'
}

pub open spec fn number_char(c: char) -> bool {
    numeric_char(c) || c == '.'
}

pub open spec fn blank_char(c: char) -> bool {
    whitespace_char(c) || c == '\n' || c == '\r'
}

pub open spec fn ascii_digit(c: char) -> bool {
    '0' <= c <= '9'
}

pub open spec fn all_digits(t: Seq<char>) -> bool {
    forall|m: int| 0 <= m < t.len() ==> ascii_digit(#[trigger] t[m])
}

/// The character that `\c` stands for inside a string literal.
pub open spec fn escaped(c: char) -> Option<char> {
    if c == 'n' {
        Some('\n')
    } else if c == 't' {
        Some('\t')
    } else if c == '"' {
        Some('"')
    } else if c == '\\' {
        Some('\\')
    } else {
        None
    }
}

/// The end of the run of identifier characters that starts at `i`.
pub open spec fn word_end(s: Seq<char>, i: int) -> int
    decreases s.len() - i,
{
    if 0 <= i < s.len() && word_char(s[i]) {
        word_end(s, i + 1)
    } else {
        i
    }
}

/// The end of the run of digits and points that starts at `i`.
pub open spec fn number_end(s: Seq<char>, i: int) -> int
    decreases s.len() - i,
{
    if 0 <= i < s.len() && number_char(s[i]) {
        number_end(s, i + 1)
    } else {
        i
    }
}

pub open spec fn prepend_text(
    a: Seq<char>,
    r: Result<(Seq<char>, int), LexError>,
) -> Result<(Seq<char>, int), LexError> {
    match r {
        Ok((t, j)) => Ok((a + t, j)),
        Err(e) => Err(e),
    }
}

/// The decoded body of a string literal whose opening quote stands before `i`,
/// with the position after its closing quote.
pub open spec fn string_body(s: Seq<char>, i: int) -> Result<(Seq<char>, int), LexError>
    decreases s.len() - i,
{
    if i < 0 || i >= s.len() {
        Err(LexError::UnterminatedString)
    } else if s[i] == '"' {
        Ok((seq![], i + 1))
    } else if s[i] == '\\' {
        if i + 1 >= s.len() {
            Err(LexError::IncompleteEscape)
        } else {
            match escaped(s[i + 1]) {
                None => Err(LexError::UnknownEscape),
                Some(c) => prepend_text(seq![c], string_body(s, i + 2)),
            }
        }
    } else {
        prepend_text(seq![s[i]], string_body(s, i + 1))
    }
}

/// The value of a run of decimal digits.
pub open spec fn digits_value(t: Seq<char>) -> int
    decreases t.len(),
{
    if t.len() == 0 {
        0
    } else {
        digits_value(t.drop_last()) * 10 + (t.last() as int - '0' as int)
    }
}

pub open spec fn count_points(t: Seq<char>) -> int
    decreases t.len(),
{
    if t.len() == 0 {
        0
    } else {
        count_points(t.drop_last()) + if t.last() == '.' { 1int } else { 0 }
    }
}

/// The position of the first `.` of `t`, or its length if there is none.
pub open spec fn first_point(t: Seq<char>) -> int
    decreases t.len(),
{
    if t.len() == 0 {
        0
    } else if t[0] == '.' {
        0
    } else {
        1 + first_point(t.drop_first())
    }
}

pub open spec fn strip_leading_zeros(t: Seq<char>) -> Seq<char>
    decreases t.len(),
{
    if t.len() > 0 && t[0] == '0' {
        strip_leading_zeros(t.drop_first())
    } else {
        t
    }
}

pub open spec fn strip_trailing_zeros(t: Seq<char>) -> Seq<char>
    decreases t.len(),
{
    if t.len() > 0 && t.last() == '0' {
        strip_trailing_zeros(t.drop_last())
    } else {
        t
    }
}

pub open spec fn or_zero(t: Seq<char>) -> Seq<char> {
    if t.len() == 0 {
        seq!['0']
    } else {
        t
    }
}

/// The canonical text of the decimal with sign `neg`, whole digits `w` and fraction digits `f`.
pub open spec fn canonical_decimal(neg: bool, w: Seq<char>, f: Seq<char>) -> Seq<char> {
    (if neg { seq!['-'] } else { seq![] }) + or_zero(strip_leading_zeros(w)) + seq!['.'] + or_zero(
        strip_trailing_zeros(f),
    )
}

pub open spec fn i64_range(v: int) -> bool {
    i64::MIN <= v <= i64::MAX
}

/// The token that a numeric literal's text stands for.
pub open spec fn number_lexeme(t: Seq<char>) -> Result<Lexeme, LexError> {
    let neg = t.len() > 0 && t[0] == '-';
    let body = if neg { t.drop_first() } else { t };
    let n = count_points(body);
    if n == 0 {
        let v = if neg { -digits_value(body) } else { digits_value(body) };
        if all_digits(body) && i64_range(v) {
            Ok(Lexeme::Int(v))
        } else {
            Err(LexError::NumberFormat)
        }
    } else if n == 1 {
        let d = first_point(body);
        let w = body.take(d);
        let f = body.skip(d + 1);
        if all_digits(w) && all_digits(f) {
            Ok(Lexeme::Float(canonical_decimal(neg, w, f)))
        } else {
            Err(LexError::NumberFormat)
        }
    } else {
        Err(LexError::NumberFormat)
    }
}

pub open spec fn cons(t: Lexeme, r: Result<Seq<Lexeme>, LexError>) -> Result<Seq<Lexeme>, LexError> {
    match r {
        Ok(ts) => Ok(seq![t] + ts),
        Err(e) => Err(e),
    }
}

pub open spec fn cons_all(p: Seq<Lexeme>, r: Result<Seq<Lexeme>, LexError>) -> Result<
    Seq<Lexeme>,
    LexError,
> {
    match r {
        Ok(ts) => Ok(p + ts),
        Err(e) => Err(e),
    }
}

/// The tokens of `s` from position `i` on.
pub open spec fn lex_from(s: Seq<char>, i: int) -> Result<Seq<Lexeme>, LexError>
    decreases s.len() - i,
    via lex_from_decreases
{
    if i < 0 || i >= s.len() {
        Ok(seq![])
    } else {
        let c = s[i];
        if c == '=' {
            cons(Lexeme::Equal, lex_from(s, i + 1))
        } else if c == '{' {
            cons(Lexeme::Open, lex_from(s, i + 1))
        } else if c == '}' {
            cons(Lexeme::Close, lex_from(s, i + 1))
        } else if c == ',' {
            cons(Lexeme::Comma, lex_from(s, i + 1))
        } else if c == '"' {
            match string_body(s, i + 1) {
                Err(e) => Err(e),
                Ok((t, j)) => cons(Lexeme::Str(t), lex_from(s, j)),
            }
        } else if blank_char(c) {
            lex_from(s, i + 1)
        } else if numeric_char(c) || (c == '-' && i + 1 < s.len() && numeric_char(s[i + 1])) {
            let j = number_end(s, i + 1);
            match number_lexeme(s.subrange(i, j)) {
                Err(e) => Err(e),
                Ok(t) => cons(t, lex_from(s, j)),
            }
        } else if word_char(c) {
            let j = word_end(s, i + 1);
            cons(Lexeme::Ident(s.subrange(i, j)), lex_from(s, j))
        } else {
            Err(LexError::UnexpectedCharacter)
        }
    }
}

/// The tokens of a whole text.
pub open spec fn lex(s: Seq<char>) -> Result<Seq<Lexeme>, LexError> {
    lex_from(s, 0)
}

pub proof fn lemma_word_end(s: Seq<char>, i: int)
    requires
        0 <= i <= s.len(),
    ensures
        i <= word_end(s, i) <= s.len(),
        forall|m: int| i <= m < word_end(s, i) ==> word_char(#[trigger] s[m]),
    decreases s.len() - i,
{
    if i < s.len() && word_char(s[i]) {
        lemma_word_end(s, i + 1);
    }
}

pub proof fn lemma_number_end(s: Seq<char>, i: int)
    requires
        0 <= i <= s.len(),
    ensures
        i <= number_end(s, i) <= s.len(),
        forall|m: int| i <= m < number_end(s, i) ==> number_char(#[trigger] s[m]),
    decreases s.len() - i,
{
    if i < s.len() && number_char(s[i]) {
        lemma_number_end(s, i + 1);
    }
}

pub proof fn lemma_string_body(s: Seq<char>, i: int)
    ensures
        string_body(s, i) matches Ok((t, j)) ==> i < j <= s.len(),
    decreases s.len() - i,
{
    if 0 <= i < s.len() && s[i] != '"' {
        if s[i] == '\\' {
            if i + 1 < s.len() {
                lemma_string_body(s, i + 2);
            }
        } else {
            lemma_string_body(s, i + 1);
        }
    }
}

#[via_fn]
proof fn lex_from_decreases(s: Seq<char>, i: int) {
    if 0 <= i < s.len() {
        lemma_string_body(s, i + 1);
        if i + 1 <= s.len() {
            lemma_word_end(s, i + 1);
            lemma_number_end(s, i + 1);
        }
    }
}

pub proof fn lemma_strip_leading(w: Seq<char>)
    requires
        all_digits(w),
    ensures
        all_digits(strip_leading_zeros(w)),
        strip_leading_zeros(w).len() > 0 ==> strip_leading_zeros(w)[0] != '0',
    decreases w.len(),
{
    if w.len() > 0 && w[0] == '0' {
        assert forall|m: int| 0 <= m < w.drop_first().len() implies ('0' <= #[trigger] w.drop_first()[m] <= '9') by {
            assert(w.drop_first()[m] == w[m + 1]);
        }
        lemma_strip_leading(w.drop_first());
    }
}

pub proof fn lemma_strip_trailing(f: Seq<char>)
    requires
        all_digits(f),
    ensures
        all_digits(strip_trailing_zeros(f)),
        strip_trailing_zeros(f).len() > 0 ==> strip_trailing_zeros(f).last() != '0',
    decreases f.len(),
{
    if f.len() > 0 && f.last() == '0' {
        assert(all_digits(f.drop_last()));
        lemma_strip_trailing(f.drop_last());
    }
}

/// Canonical decimal text: an optional `-`, whole digits without a leading
/// zero (a lone `0` allowed), a `.`, and fraction digits without a trailing
/// zero (a lone `0` allowed).
pub open spec fn canonical_text(t: Seq<char>) -> bool {
    let body = if t.len() > 0 && t[0] == '-' { t.drop_first() } else { t };
    let d = first_point(body);
    let w = body.take(d);
    let f = body.skip(d + 1);
    &&& 0 < d && d + 1 < body.len()
    &&& body[d] == '.'
    &&& all_digits(w)
    &&& all_digits(f)
    &&& (w.len() > 1 ==> w[0] != '0')
    &&& (f.len() > 1 ==> f.last() != '0')
}

/// The text that the lexer makes of a decimal literal is canonical.
pub proof fn lemma_canonical_decimal(neg: bool, w: Seq<char>, f: Seq<char>)
    requires
        all_digits(w),
        all_digits(f),
    ensures
        canonical_text(canonical_decimal(neg, w, f)),
{
    let sw = strip_leading_zeros(w);
    let sf = strip_trailing_zeros(f);
    lemma_strip_leading(w);
    lemma_strip_trailing(f);
    let ww = or_zero(sw);
    let ff = or_zero(sf);
    let t = canonical_decimal(neg, w, f);
    let body = ww + seq!['.'] + ff;
    assert(t =~= (if neg { seq!['-'] } else { seq![] }) + body);
    assert('0' <= ww[0] <= '9');
    if neg {
        assert(t.drop_first() =~= body);
    } else {
        assert(t =~= body);
    }
    assert forall|m: int| 0 <= m < ww.len() implies #[trigger] body[m] != '.' by {
        assert(body[m] == ww[m]);
    }
    lemma_first_point(body, ww.len() as int);
    assert(body.take(ww.len() as int) =~= ww);
    assert(body.skip(ww.len() as int + 1) =~= ff);
}

proof fn lemma_cons_all_step(p: Seq<Lexeme>, t: Lexeme, r: Result<Seq<Lexeme>, LexError>)
    ensures
        cons_all(p, cons(t, r)) == cons_all(p.push(t), r),
{
    if let Ok(ts) = r {
        assert(p + (seq![t] + ts) =~= p.push(t) + ts);
    }
}

proof fn lemma_prepend_step(a: Seq<char>, c: char, r: Result<(Seq<char>, int), LexError>)
    ensures
        prepend_text(a, prepend_text(seq![c], r)) == prepend_text(a.push(c), r),
{
    if let Ok((t, j)) = r {
        assert(a + (seq![c] + t) =~= a.push(c) + t);
    }
}

proof fn lemma_digits_value_monotone(t: Seq<char>, k: int)
    requires
        0 <= k <= t.len(),
        all_digits(t),
    ensures
        0 <= digits_value(t.take(k)) <= digits_value(t),
    decreases t.len(),
{
    if t.len() > 0 {
        assert(all_digits(t.drop_last()));
        if k < t.len() {
            assert(t.drop_last().take(k) =~= t.take(k));
            lemma_digits_value_monotone(t.drop_last(), k);
        } else {
            assert(t.take(k) =~= t);
            lemma_digits_value_monotone(t.drop_last(), k - 1);
            assert(t.drop_last().take(k - 1) =~= t.drop_last());
        }
    } else {
        assert(t.take(k) =~= t);
    }
}

pub proof fn lemma_first_point(t: Seq<char>, d: int)
    requires
        0 <= d <= t.len(),
        forall|m: int| 0 <= m < d ==> #[trigger] t[m] != '.',
        d < t.len() ==> t[d] == '.',
    ensures
        first_point(t) == d,
    decreases t.len(),
{
    if t.len() > 0 && t[0] != '.' {
        assert forall|m: int| 0 <= m < d - 1 implies #[trigger] t.drop_first()[m] != '.' by {
            assert(t[m + 1] != '.');
        }
        lemma_first_point(t.drop_first(), d - 1);
    }
}

/// Decodes the string literal whose opening quote stands before `start`.
fn scan_string(cs: &Vec<char>, start: usize) -> (r: Result<(String, usize), LexError>)
    requires
        start <= cs.len(),
    ensures
        string_body(cs@, start as int) == match r {
            Ok((t, j)) => Ok((t@, j as int)),
            Err(e) => Err(e),
        },
{
    let mut acc: Vec<char> = Vec::new();
    let mut k: usize = start;
    proof {
        assert(acc@ + seq![] =~= seq![]);
        let r0 = string_body(cs@, start as int);
        if let Ok((t, j)) = r0 {
            assert(acc@ + t =~= t);
        }
    }
    loop
        invariant
            start <= k <= cs.len(),
            string_body(cs@, start as int) == prepend_text(acc@, string_body(cs@, k as int)),
        decreases cs.len() - k,
    {
        if k >= cs.len() {
            return Err(LexError::UnterminatedString);
        }
        let c = cs[k];
        if c == '"' {
            let t = string_of(&acc);
            proof {
                assert(acc@ + seq![] =~= acc@);
            }
            return Ok((t, k + 1));
        } else if c == '\\' {
            if k + 1 >= cs.len() {
                return Err(LexError::IncompleteEscape);
            }
            let e = cs[k + 1];
            let d: char;
            if e == 'n' {
                d = '\n';
            } else if e == 't' {
                d = '\t';
            } else if e == '"' {
                d = '"';
            } else if e == '\\' {
                d = '\\';
            } else {
                return Err(LexError::UnknownEscape);
            }
            proof {
                lemma_prepend_step(acc@, d, string_body(cs@, k + 2));
            }
            acc.push(d);
            k = k + 2;
        } else {
            proof {
                lemma_prepend_step(acc@, c, string_body(cs@, k + 1));
            }
            acc.push(c);
            k = k + 1;
        }
    }
}

fn scan_word(cs: &Vec<char>, start: usize) -> (j: usize)
    requires
        start <= cs.len(),
    ensures
        j as int == word_end(cs@, start as int),
{
    let mut k: usize = start;
    while k < cs.len() && (is_alphanumeric(cs[k]) || cs[k] == '_')
        invariant
            start <= k <= cs.len(),
            word_end(cs@, start as int) == word_end(cs@, k as int),
        decreases cs.len() - k,
    {
        k += 1;
    }
    k
}

fn scan_number(cs: &Vec<char>, start: usize) -> (j: usize)
    requires
        start <= cs.len(),
    ensures
        j as int == number_end(cs@, start as int),
{
    let mut k: usize = start;
    while k < cs.len() && (is_numeric(cs[k]) || cs[k] == '.')
        invariant
            start <= k <= cs.len(),
            number_end(cs@, start as int) == number_end(cs@, k as int),
        decreases cs.len() - k,
    {
        k += 1;
    }
    k
}


/// The value of the digits `cs[b..end]`, or `None` where it exceeds 2^63.
fn digits_magnitude(cs: &Vec<char>, b: usize, end: usize) -> (r: Option<i128>)
    requires
        b <= end <= cs.len(),
        all_digits(cs@.subrange(b as int, end as int)),
    ensures
        match r {
            Some(v) => v as int == digits_value(cs@.subrange(b as int, end as int)) && 0 <= v
                <= 9223372036854775808,
            None => digits_value(cs@.subrange(b as int, end as int)) > 9223372036854775808,
        },
{
    let ghost body = cs@.subrange(b as int, end as int);
    let mut acc: i128 = 0;
    let mut k: usize = b;
    assert(body.take(0) =~= seq![]);
    while k < end
        invariant
            b <= k <= end <= cs.len(),
            all_digits(body),
            body == cs@.subrange(b as int, end as int),
            acc as int == digits_value(body.take(k - b)),
            0 <= acc <= 9223372036854775808,
        decreases end - k,
    {
        assert(body.take(k + 1 - b).drop_last() =~= body.take(k - b));
        assert(body[k - b] == cs@[k as int]);
        assert(ascii_digit(body[k - b]));
        let dg = cs[k] as u32 - '0' as u32;
        assert(dg <= 9);
        acc = acc * 10 + dg as i128;
        k += 1;
        assert(acc as int == digits_value(body.take(k - b)));
        if acc > 9223372036854775808 {
            proof {
                lemma_digits_value_monotone(body, k - b);
            }
            return None;
        }
    }
    assert(body.take(end - b) =~= body);
    Some(acc)
}

/// The canonical text of the decimal literal with whole digits `cs[b..dot]` and
/// fraction digits `cs[dot + 1..end]`.
fn decimal_text(cs: &Vec<char>, neg: bool, b: usize, dot: usize, end: usize) -> (text: Vec<char>)
    requires
        b <= dot < end <= cs.len(),
    ensures
        text@ == canonical_decimal(
            neg,
            cs@.subrange(b as int, dot as int),
            cs@.subrange(dot + 1, end as int),
        ),
{
    let ghost w = cs@.subrange(b as int, dot as int);
    let ghost f = cs@.subrange(dot + 1, end as int);
    // whole digits without leading zeros
    let mut p: usize = b;
    while p < dot && cs[p] == '0'
        invariant
            b <= p <= dot < end <= cs.len(),
            strip_leading_zeros(w) == strip_leading_zeros(cs@.subrange(p as int, dot as int)),
        decreases dot - p,
    {
        assert(cs@.subrange(p as int, dot as int).drop_first() =~= cs@.subrange(p + 1, dot as int));
        p += 1;
    }
    assert(w =~= cs@.subrange(b as int, dot as int));
    let ghost sw = cs@.subrange(p as int, dot as int);
    assert(strip_leading_zeros(sw) == sw);
    // fraction digits without trailing zeros
    let mut q: usize = end;
    while q > dot + 1 && cs[q - 1] == '0'
        invariant
            b <= dot < end <= cs.len(),
            dot + 1 <= q <= end,
            strip_trailing_zeros(f) == strip_trailing_zeros(cs@.subrange(dot + 1, q as int)),
        decreases q,
    {
        assert(cs@.subrange(dot + 1, q as int).drop_last() =~= cs@.subrange(dot + 1, q - 1));
        q -= 1;
    }
    assert(f =~= cs@.subrange(dot + 1, end as int));
    let ghost sf = cs@.subrange(dot + 1, q as int);
    assert(strip_trailing_zeros(sf) == sf);
    let mut text: Vec<char> = Vec::new();
    if neg {
        text.push('-');
    }
    if p == dot {
        text.push('0');
    } else {
        append_range(&mut text, cs, p, dot);
    }
    text.push('.');
    if q == dot + 1 {
        text.push('0');
    } else {
        append_range(&mut text, cs, dot + 1, q);
    }
    assert(text@ =~= canonical_decimal(neg, w, f));
    text
}

/// The token of the numeric literal `cs[start..end]`.
fn number_token(cs: &Vec<char>, start: usize, end: usize) -> (r: Result<Token, LexError>)
    requires
        start < end <= cs.len(),
    ensures
        number_lexeme(cs@.subrange(start as int, end as int)) == match r {
            Ok(t) => Ok(t.view()),
            Err(e) => Err(e),
        },
        r matches Ok(Token::FloatLiteral(d)) ==> canonical_text(d.text@),
{
    let ghost t = cs@.subrange(start as int, end as int);
    let neg = cs[start] == '-';
    let b: usize = if neg { start + 1 } else { start };
    let ghost body = cs@.subrange(b as int, end as int);
    assert(body =~= if neg { t.drop_first() } else { t });
    let mut points: usize = 0;
    let mut dot: usize = end;
    let mut digits = true;
    let mut k: usize = b;
    while k < end
        invariant
            b <= k <= end <= cs.len(),
            points as int == count_points(cs@.subrange(b as int, k as int)),
            points <= k - b,
            digits == (forall|m: int| b <= m < k && cs@[m] != '.' ==> ascii_digit(#[trigger] cs@[m])),
            b <= dot <= end,
            points == 0 ==> dot == end,
            points > 0 ==> dot < k && cs@[dot as int] == '.',
            forall|m: int| b <= m < k && m < dot ==> #[trigger] cs@[m] != '.',
        decreases end - k,
    {
        assert(cs@.subrange(b as int, k + 1).drop_last() =~= cs@.subrange(b as int, k as int));
        let c = cs[k];
        if c == '.' {
            if points == 0 {
                dot = k;
            }
            points += 1;
        } else if !('0' <= c && c <= '9') {
            digits = false;
        }
        k += 1;
    }
    assert(body =~= cs@.subrange(b as int, k as int));
    if points == 0 {
        assert(!digits ==> !all_digits(body)) by {
            if !digits {
                let m = choose|m: int| b <= m < k && cs@[m] != '.' && !ascii_digit(#[trigger] cs@[m]);
                assert(body[m - b] == cs@[m]);
            }
        }
        if !digits {
            return Err(LexError::NumberFormat);
        }
        match digits_magnitude(cs, b, end) {
            None => {
                return Err(LexError::NumberFormat);
            },
            Some(acc) => {
                if neg {
                    let v: i128 = -acc;
                    return Ok(Token::IntegerLiteral(v as i64));
                } else if acc > 9223372036854775807 {
                    return Err(LexError::NumberFormat);
                } else {
                    return Ok(Token::IntegerLiteral(acc as i64));
                }
            },
        }
    } else if points > 1 {
        return Err(LexError::NumberFormat);
    }
    proof {
        lemma_first_point(body, dot - b);
    }
    let ghost w = body.take(dot - b);
    let ghost f = body.skip(dot - b + 1);
    assert(all_digits(w) && all_digits(f) ==> digits) by {
        if !digits {
            let m = choose|m: int| b <= m < k && cs@[m] != '.' && !ascii_digit(#[trigger] cs@[m]);
            if m < dot {
                assert(w[m - b] == cs@[m]);
            } else {
                assert(m != dot);
                assert(f[m - dot - 1] == cs@[m]);
            }
        }
    }
    assert(digits ==> all_digits(w) && all_digits(f)) by {
        if digits {
            assert forall|m: int| 0 <= m < w.len() implies ascii_digit(#[trigger] w[m]) by {
                assert(w[m] == cs@[b + m]);
            }
            assert forall|m: int| 0 <= m < f.len() implies ascii_digit(#[trigger] f[m]) by {
                assert(f[m] == cs@[dot + 1 + m]);
                assert(count_points(body) == 1);
                if cs@[dot + 1 + m] == '.' {
                    lemma_two_points(body, dot - b, dot + 1 + m - b);
                }
            }
        }
    }
    if !digits {
        return Err(LexError::NumberFormat);
    }
    assert(w =~= cs@.subrange(b as int, dot as int));
    assert(f =~= cs@.subrange(dot + 1, end as int));
    let text = decimal_text(cs, neg, b, dot, end);
    proof {
        lemma_canonical_decimal(neg, w, f);
    }
    Ok(Token::FloatLiteral(Decimal { text: string_of(&text) }))
}

proof fn lemma_two_points(t: Seq<char>, x: int, y: int)
    requires
        0 <= x < y < t.len(),
        t[x] == '.',
        t[y] == '.',
    ensures
        count_points(t) >= 2,
    decreases t.len(),
{
    lemma_count_points_nonneg(t.drop_last());
    if y == t.len() - 1 {
        lemma_one_point(t.drop_last(), x);
    } else {
        lemma_two_points(t.drop_last(), x, y);
    }
}

proof fn lemma_one_point(t: Seq<char>, x: int)
    requires
        0 <= x < t.len(),
        t[x] == '.',
    ensures
        count_points(t) >= 1,
    decreases t.len(),
{
    lemma_count_points_nonneg(t.drop_last());
    if x < t.len() - 1 {
        lemma_one_point(t.drop_last(), x);
    }
}

proof fn lemma_count_points_nonneg(t: Seq<char>)
    ensures
        count_points(t) >= 0,
    decreases t.len(),
{
    if t.len() > 0 {
        lemma_count_points_nonneg(t.drop_last());
    }
}

/// Splits a text into tokens.
pub fn tokenize(input: &str) -> (r: Result<Vec<Token>, LexError>)
    ensures
        lex(input@) == match r {
            Ok(ts) => Ok(lexemes(ts@)),
            Err(e) => Err(e),
        },
        r matches Ok(ts) ==> canonical_decimals(ts@),
{
    let cs = chars_of(input);
    let mut tokens: Vec<Token> = Vec::new();
    let mut i: usize = 0;
    proof {
        if let Ok(ts) = lex_from(cs@, 0) {
            assert(seq![] + ts =~= ts);
        }
        assert(lexemes(tokens@) =~= seq![]);
    }
    while i < cs.len()
        invariant
            i <= cs.len(),
            cs@ == input@,
            lex_from(cs@, 0) == cons_all(lexemes(tokens@), lex_from(cs@, i as int)),
            canonical_decimals(tokens@),
        decreases cs.len() - i,
    {
        let c = cs[i];
        let ghost before = tokens@;
        let tok: Token;
        let next: usize;
        if c == '=' {
            tok = Token::Equal;
            next = i + 1;
        } else if c == '{' {
            tok = Token::OpenBrace;
            next = i + 1;
        } else if c == '}' {
            tok = Token::CloseBrace;
            next = i + 1;
        } else if c == ',' {
            tok = Token::Comma;
            next = i + 1;
        } else if c == '"' {
            proof {
                lemma_string_body(cs@, i + 1);
            }
            match scan_string(&cs, i + 1) {
                Err(e) => {
                    return Err(e);
                },
                Ok((t, j)) => {
                    tok = Token::StringLiteral(t);
                    next = j;
                },
            }
        } else if is_whitespace(c) || c == '\n' || c == '\r' {
            i += 1;
            continue;
        } else if is_numeric(c) || (c == '-' && i + 1 < cs.len() && is_numeric(cs[i + 1])) {
            proof {
                lemma_number_end(cs@, i + 1);
            }
            let j = scan_number(&cs, i + 1);
            match number_token(&cs, i, j) {
                Err(e) => {
                    return Err(e);
                },
                Ok(t) => {
                    tok = t;
                    next = j;
                },
            }
        } else if is_alphanumeric(c) || c == '_' {
            proof {
                lemma_word_end(cs@, i + 1);
            }
            let j = scan_word(&cs, i + 1);
            let mut name: Vec<char> = Vec::new();
            append_range(&mut name, &cs, i, j);
            assert(name@ =~= cs@.subrange(i as int, j as int));
            tok = Token::Identifier(string_of(&name));
            next = j;
        } else {
            return Err(LexError::UnexpectedCharacter);
        }
        proof {
            lemma_cons_all_step(lexemes(before), tok.view(), lex_from(cs@, next as int));
        }
        tokens.push(tok);
        assert(lexemes(tokens@) =~= lexemes(before).push(tok.view()));
        assert(canonical_decimals(tokens@)) by {
            assert forall|j: int| 0 <= j < tokens@.len() && #[trigger] tokens@[j] is FloatLiteral implies canonical_text(
                tokens@[j]->FloatLiteral_0.text@,
            ) by {
                if j < before.len() {
                    assert(tokens@[j] == before[j]);
                }
            }
        }
        i = next;
    }
    proof {
        if let Ok(ts) = lex_from(cs@, i as int) {
            assert(lexemes(tokens@) + ts =~= lexemes(tokens@));
        }
    }
    Ok(tokens)
}

} // verus!

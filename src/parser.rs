use vstd::prelude::*;
use crate::lexer::{lexemes, Lexeme, Token};
use crate::value::{
    dict_view, find_key, first_index, keys_unique, lemma_first_index, lemma_view_array, list_view,
    Decimal, Entry, Tree, Value,
};

verus! {

/// Why a token sequence is not a document.
#[derive(Debug)]
pub enum ParseError {
    ExpectedIdentifier,
    UnexpectedToken(Token),
    UnexpectedEndOfInput,
}

/// The mathematical model of a `ParseError`.
pub enum ParseFault {
    ExpectedIdentifier,
    UnexpectedToken(Lexeme),
    UnexpectedEndOfInput,
}

impl ParseError {
    pub open spec fn view(&self) -> ParseFault {
        match self {
            ParseError::ExpectedIdentifier => ParseFault::ExpectedIdentifier,
            ParseError::UnexpectedToken(t) => ParseFault::UnexpectedToken(t.view()),
            ParseError::UnexpectedEndOfInput => ParseFault::UnexpectedEndOfInput,
        }
    }
}

/// The value that starts at token `i`, with the position after it.
pub open spec fn parse_value(ts: Seq<Lexeme>, i: int) -> Result<(Tree, int), ParseFault>
    decreases ts.len() - i, 0int,
{
    if i < 0 || i >= ts.len() {
        Err(ParseFault::UnexpectedEndOfInput)
    } else {
        match ts[i] {
            Lexeme::Open => parse_items(ts, i + 1, seq![]),
            Lexeme::Str(s) => Ok((Tree::Str(s), i + 1)),
            Lexeme::Int(n) => Ok((Tree::Int(n), i + 1)),
            Lexeme::Float(x) => Ok((Tree::Dec(x), i + 1)),
            Lexeme::Ident(s) => if i + 1 >= ts.len() {
                Err(ParseFault::UnexpectedEndOfInput)
            } else if ts[i + 1] is Equal {
                match parse_value(ts, i + 2) {
                    Ok((v, j)) => Ok((Tree::Dict(seq![(s, v)]), j)),
                    Err(e) => Err(e),
                }
            } else {
                Ok((Tree::Str(s), i + 1))
            },
            t => Err(ParseFault::UnexpectedToken(t)),
        }
    }
}

/// The rest of an array whose values so far are `acc`, from token `i` on,
/// with the position after its closing brace.
pub open spec fn parse_items(ts: Seq<Lexeme>, i: int, acc: Seq<Tree>) -> Result<(Tree, int), ParseFault>
    decreases ts.len() - i, 1int,
{
    if i < 0 || i >= ts.len() {
        Err(ParseFault::UnexpectedEndOfInput)
    } else if ts[i] is Close {
        Ok((Tree::List(acc), i + 1))
    } else if ts[i] is Comma {
        parse_items(ts, i + 1, acc)
    } else {
        match parse_value(ts, i) {
            Err(e) => Err(e),
            Ok((v, j)) => if j <= i || j > ts.len() {
                Err(ParseFault::UnexpectedEndOfInput)
            } else {
                parse_items(ts, j, acc.push(v))
            },
        }
    }
}

/// `d` with `k` bound to `v`: the value of an existing key is replaced, a new key is appended.
pub open spec fn insert_entry(d: Seq<(Seq<char>, Tree)>, k: Seq<char>, v: Tree) -> Seq<
    (Seq<char>, Tree),
> {
    let i = first_index(d, k);
    if 0 <= i < d.len() {
        d.update(i, (k, v))
    } else {
        d.push((k, v))
    }
}

/// The `key = value` pairs from token `i` on, added to `acc`.
pub open spec fn parse_pairs(ts: Seq<Lexeme>, i: int, acc: Seq<(Seq<char>, Tree)>) -> Result<
    Seq<(Seq<char>, Tree)>,
    ParseFault,
>
    decreases ts.len() - i,
{
    if i < 0 || i >= ts.len() {
        Ok(acc)
    } else {
        match ts[i] {
            Lexeme::Ident(k) => if i + 1 >= ts.len() {
                Err(ParseFault::UnexpectedEndOfInput)
            } else if ts[i + 1] is Equal {
                match parse_value(ts, i + 2) {
                    Err(e) => Err(e),
                    Ok((v, j)) => if j <= i || j > ts.len() {
                        Err(ParseFault::UnexpectedEndOfInput)
                    } else {
                        parse_pairs(ts, j, insert_entry(acc, k, v))
                    },
                }
            } else {
                Err(ParseFault::UnexpectedToken(ts[i + 1]))
            },
            _ => Err(ParseFault::ExpectedIdentifier),
        }
    }
}

/// The document that a token sequence spells.
pub open spec fn parse(ts: Seq<Lexeme>) -> Result<Seq<(Seq<char>, Tree)>, ParseFault> {
    parse_pairs(ts, 0, seq![])
}

pub proof fn lemma_parse_advances(ts: Seq<Lexeme>, i: int, acc: Seq<Tree>)
    ensures
        parse_value(ts, i) matches Ok((v, j)) ==> i < j <= ts.len(),
        parse_items(ts, i, acc) matches Ok((v, j)) ==> i < j <= ts.len(),
    decreases ts.len() - i,
{
    if 0 <= i < ts.len() {
        lemma_parse_advances(ts, i + 1, seq![]);
        lemma_parse_advances(ts, i + 1, acc);
        if i + 2 <= ts.len() {
            lemma_parse_advances(ts, i + 2, seq![]);
        }
        if let Ok((v, j)) = parse_value(ts, i) {
            if !(ts[i] is Close) && !(ts[i] is Comma) && i < j <= ts.len() {
                lemma_parse_advances(ts, j, acc.push(v));
            }
        }
    }
}

proof fn lemma_insert_entry_unique(d: Seq<(Seq<char>, Tree)>, k: Seq<char>, v: Tree)
    requires
        keys_unique(d),
    ensures
        keys_unique(insert_entry(d, k, v)),
{
    lemma_first_index(d, k);
    let e = insert_entry(d, k, v);
    assert forall|i: int, j: int| 0 <= i < j < e.len() implies #[trigger] e[i].0 != #[trigger] e[j].0 by {
        if j == d.len() {
            assert(d[i].0 != k);
        } else {
            assert(e[i].0 == d[i].0 && e[j].0 == d[j].0);
        }
    }
}

/// The documents that the parser builds hold each key once.
pub proof fn lemma_parse_keys_unique(ts: Seq<Lexeme>, i: int, acc: Seq<(Seq<char>, Tree)>)
    requires
        keys_unique(acc),
    ensures
        parse_pairs(ts, i, acc) matches Ok(d) ==> keys_unique(d),
    decreases ts.len() - i,
{
    if 0 <= i < ts.len() && ts[i] is Ident && i + 1 < ts.len() && ts[i + 1] is Equal {
        if let Ok((v, j)) = parse_value(ts, i + 2) {
            if i < j <= ts.len() {
                lemma_insert_entry_unique(acc, ts[i]->Ident_0, v);
                lemma_parse_keys_unique(ts, j, insert_entry(acc, ts[i]->Ident_0, v));
            }
        }
    }
}

fn copy_token(t: &Token) -> (r: Token)
    ensures
        r.view() == t.view(),
{
    match t {
        Token::Equal => Token::Equal,
        Token::OpenBrace => Token::OpenBrace,
        Token::CloseBrace => Token::CloseBrace,
        Token::Comma => Token::Comma,
        Token::Identifier(s) => Token::Identifier(s.clone()),
        Token::StringLiteral(s) => Token::StringLiteral(s.clone()),
        Token::IntegerLiteral(n) => Token::IntegerLiteral(*n),
        Token::FloatLiteral(d) => Token::FloatLiteral(Decimal { text: d.text.clone() }),
    }
}

pub open spec fn value_result(r: Result<(Value, usize), ParseError>) -> Result<(Tree, int), ParseFault> {
    match r {
        Ok((v, j)) => Ok((v.view(), j as int)),
        Err(e) => Err(e.view()),
    }
}

/// Parses the value that starts at token `index`; returns it with the position after it.
pub fn parse_value_at(tokens: &Vec<Token>, index: usize) -> (r: Result<(Value, usize), ParseError>)
    ensures
        value_result(r) == parse_value(lexemes(tokens@), index as int),
    decreases tokens.len() - index, 1int,
{
    let ghost ts = lexemes(tokens@);
    if index >= tokens.len() {
        return Err(ParseError::UnexpectedEndOfInput);
    }
    assert(ts[index as int] == tokens[index as int].view());
    match &tokens[index] {
        Token::OpenBrace => parse_array(tokens, index),
        Token::StringLiteral(s) => Ok((Value::String(s.clone()), index + 1)),
        Token::IntegerLiteral(n) => Ok((Value::Integer(*n), index + 1)),
        Token::FloatLiteral(d) => Ok((Value::Float(Decimal { text: d.text.clone() }), index + 1)),
        Token::Identifier(s) => {
            if index + 1 >= tokens.len() {
                return Err(ParseError::UnexpectedEndOfInput);
            }
            assert(ts[index + 1] == tokens[index + 1].view());
            match &tokens[index + 1] {
                Token::Equal => {
                    match parse_value_at(tokens, index + 2) {
                        Ok((v, j)) => {
                            let d = vec![Entry { key: s.clone(), value: v }];
                            let r = Value::Dictionary(d);
                            proof {
                                assert(r.view()->Dict_0 =~= seq![(s@, v.view())]);
                            }
                            Ok((r, j))
                        },
                        Err(e) => Err(e),
                    }
                },
                _ => Ok((Value::String(s.clone()), index + 1)),
            }
        },
        t => Err(ParseError::UnexpectedToken(copy_token(t))),
    }
}

/// Parses the array whose opening brace is token `index`; returns it with
/// the position after its closing brace.
pub fn parse_array(tokens: &Vec<Token>, index: usize) -> (r: Result<(Value, usize), ParseError>)
    requires
        index < tokens.len(),
        tokens[index as int] is OpenBrace,
    ensures
        value_result(r) == parse_items(lexemes(tokens@), index + 1, seq![]),
    decreases tokens.len() - index, 0int,
{
    let ghost ts = lexemes(tokens@);
    let mut values: Vec<Value> = Vec::new();
    let mut k: usize = index + 1;
    assert(list_view(values@) =~= seq![]);
    loop
        invariant
            index < k <= tokens.len(),
            ts == lexemes(tokens@),
            parse_items(ts, index + 1, seq![]) == parse_items(ts, k as int, list_view(values@)),
        decreases tokens.len() - k,
    {
        if k >= tokens.len() {
            return Err(ParseError::UnexpectedEndOfInput);
        }
        assert(ts[k as int] == tokens[k as int].view());
        match &tokens[k] {
            Token::CloseBrace => {
                let r = Value::Array(values);
                proof {
                    lemma_view_array(r);
                }
                return Ok((r, k + 1));
            },
            Token::Comma => {
                k += 1;
            },
            _ => {
                proof {
                    lemma_parse_advances(ts, k as int, seq![]);
                }
                match parse_value_at(tokens, k) {
                    Ok((v, j)) => {
                        let ghost before = list_view(values@);
                        values.push(v);
                        assert(list_view(values@) =~= before.push(v.view()));
                        k = j;
                    },
                    Err(e) => {
                        return Err(e);
                    },
                }
            },
        }
    }
}

pub open spec fn document_result(r: Result<Vec<Entry>, ParseError>) -> Result<
    Seq<(Seq<char>, Tree)>,
    ParseFault,
> {
    match r {
        Ok(d) => Ok(dict_view(d@)),
        Err(e) => Err(e.view()),
    }
}

/// Parses a token sequence into a document: `key = value` pairs, where a
/// repeated key takes the later value.
pub fn parse_tokens(tokens: &Vec<Token>) -> (r: Result<Vec<Entry>, ParseError>)
    ensures
        document_result(r) == parse(lexemes(tokens@)),
        r matches Ok(d) ==> keys_unique(dict_view(d@)),
{
    let ghost ts = lexemes(tokens@);
    proof {
        lemma_parse_keys_unique(ts, 0, seq![]);
    }
    let mut out: Vec<Entry> = Vec::new();
    let mut i: usize = 0;
    assert(dict_view(out@) =~= seq![]);
    while i < tokens.len()
        invariant
            i <= tokens.len(),
            ts == lexemes(tokens@),
            parse(ts) == parse_pairs(ts, i as int, dict_view(out@)),
        decreases tokens.len() - i,
    {
        assert(ts[i as int] == tokens[i as int].view());
        match &tokens[i] {
            Token::Identifier(key) => {
                if i + 1 >= tokens.len() {
                    return Err(ParseError::UnexpectedEndOfInput);
                }
                assert(ts[i + 1] == tokens[i + 1].view());
                match &tokens[i + 1] {
                    Token::Equal => {},
                    t => {
                        return Err(ParseError::UnexpectedToken(copy_token(t)));
                    },
                }
                proof {
                    lemma_parse_advances(ts, i + 2, seq![]);
                }
                match parse_value_at(tokens, i + 2) {
                    Err(e) => {
                        return Err(e);
                    },
                    Ok((v, j)) => {
                        let ghost before = dict_view(out@);
                        proof {
                            lemma_first_index(before, key@);
                        }
                        let at = find_key(&out, key.as_str());
                        if at < out.len() {
                            out.set(at, Entry { key: key.clone(), value: v });
                        } else {
                            out.push(Entry { key: key.clone(), value: v });
                        }
                        assert(dict_view(out@) =~= insert_entry(before, key@, v.view()));
                        i = j;
                    },
                }
            },
            _ => {
                return Err(ParseError::ExpectedIdentifier);
            },
        }
    }
    Ok(out)
}

} // verus!

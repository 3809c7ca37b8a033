//! A recursive-descent parser from tokens to expression trees.
//!
//! Grammar, one token of lookahead:
//!   expr := Ident '(' [expr (',' expr)*] ')'   a call
//!         | Ident                              a name
//!         | Number                             an integer
//!         | '"' [StringLiteral] '"'            a string
//!   decl := Ident '=' expr ';'
use vstd::prelude::*;
use crate::error::{ErrV, ParseErr};
use crate::text::chars_of;
use crate::tokenizer::{
    flushed, is_digit, is_letter, keyword_of, lex, plain, scan, views, LexError, LexState, Token,
    TokenKind, TokV,
};

verus! {

/// An expression tree.
#[derive(Debug, PartialEq, Eq)]
pub enum Expr {
    Int(i64),
    Ident(String),
    Str(String),
    FnCall(FnCall),
}

/// A call: the function's name and its arguments, in source order.
#[derive(Debug, PartialEq, Eq)]
pub struct FnCall {
    pub name: String,
    pub args: Vec<Expr>,
}

/// A declaration `name = value;`.
#[derive(Debug, PartialEq, Eq)]
pub struct Decl {
    pub name: String,
    pub value: Expr,
}

/// The mathematical value of an [`Expr`].
pub enum ExprV {
    Int(i64),
    Ident(Seq<char>),
    Str(Seq<char>),
    FnCall(Seq<char>, Seq<ExprV>),
}

pub open spec fn expr_view(e: Expr) -> ExprV
    decreases e, 0int,
{
    match e {
        Expr::Int(n) => ExprV::Int(n),
        Expr::Ident(s) => ExprV::Ident(s@),
        Expr::Str(s) => ExprV::Str(s@),
        Expr::FnCall(c) => ExprV::FnCall(c.name@, exprs_view(c.args@)),
    }
}

pub open spec fn exprs_view(es: Seq<Expr>) -> Seq<ExprV>
    decreases es, 1int,
{
    if es.len() == 0 {
        seq![]
    } else {
        exprs_view(es.subrange(0, es.len() - 1)).push(expr_view(es[es.len() - 1]))
    }
}

impl View for Expr {
    type V = ExprV;

    open spec fn view(&self) -> ExprV {
        expr_view(*self)
    }
}

proof fn lemma_exprs_view_push(es: Seq<Expr>, e: Expr)
    ensures
        exprs_view(es.push(e)) == exprs_view(es).push(e@),
{
    assert(es.push(e).subrange(0, es.len() as int) =~= es);
}

/// How a token that carries no text is written in the source.
pub open spec fn spelling(k: TokenKind) -> Seq<char> {
    match k {
        TokenKind::SemiColon => ";"@,
        TokenKind::Ident => "an identifier"@,
        TokenKind::Number => "a number"@,
        TokenKind::AssignOp => "="@,
        TokenKind::LParen => "("@,
        TokenKind::RParen => ")"@,
        TokenKind::Comma => ","@,
        TokenKind::StringLiteral => "a string"@,
        TokenKind::DoubleQuoteStart => "\""@,
        TokenKind::DoubleQuoteEnd => "\""@,
        TokenKind::SqBracketOpen => "["@,
        TokenKind::SqBracketClose => "]"@,
        TokenKind::CuBracketOpen => "{"@,
        TokenKind::CuBracketClose => "}"@,
        TokenKind::Keyword(crate::tokenizer::Keyword::If) => "if"@,
        TokenKind::Keyword(crate::tokenizer::Keyword::Struct) => "struct"@,
        TokenKind::Keyword(crate::tokenizer::Keyword::Interface) => "interface"@,
        TokenKind::Keyword(crate::tokenizer::Keyword::For) => "for"@,
    }
}

/// What an error reports as found at token index `i`.
pub open spec fn found_at(t: Seq<TokV>, i: int) -> Seq<char> {
    if 0 <= i < t.len() {
        match t[i].value {
            Some(v) => v,
            None => spelling(t[i].kind),
        }
    } else {
        "end of input"@
    }
}

pub open spec fn unexpected(expected: Seq<char>, t: Seq<TokV>, i: int) -> ErrV {
    ErrV::UnexpectedToken(expected, found_at(t, i), i as u64)
}

pub open spec fn digit_value(c: char) -> nat {
    ((c as u32) - ('0' as u32)) as nat
}

/// The number that the decimal digits `t` spell.
pub open spec fn digits_value(t: Seq<char>) -> nat
    decreases t.len(),
{
    if t.len() == 0 {
        0
    } else {
        digits_value(t.subrange(0, t.len() - 1)) * 10 + digit_value(t[t.len() - 1])
    }
}

/// The value of a number token's text: present when the text is one or
/// more decimal digits whose value fits in an `i64`.
pub open spec fn number_value(t: Seq<char>) -> Option<i64> {
    if t.len() > 0 && (forall|k: int| 0 <= k < t.len() ==> is_digit(#[trigger] t[k]))
        && digits_value(t) <= i64::MAX {
        Some(digits_value(t) as i64)
    } else {
        None
    }
}

pub open spec fn is_kind(t: Seq<TokV>, i: int, k: TokenKind) -> bool {
    0 <= i < t.len() && t[i].kind == k
}

/// The expression that starts at token `i`, and the index after it.
pub open spec fn expr_at(t: Seq<TokV>, i: int) -> Result<(int, ExprV), ErrV>
    decreases t.len() - i, 0int,
{
    if i < 0 || i >= t.len() {
        Err(unexpected("an expression"@, t, i))
    } else {
        let tok = t[i];
        match tok.kind {
            TokenKind::Ident => match tok.value {
                Some(name) => {
                    if is_kind(t, i + 1, TokenKind::LParen) {
                        match args_at(t, i + 2) {
                            Ok((j, args)) => Ok((j, ExprV::FnCall(name, args))),
                            Err(e) => Err(e),
                        }
                    } else {
                        Ok((i + 1, ExprV::Ident(name)))
                    }
                },
                None => Err(unexpected("an expression"@, t, i)),
            },
            TokenKind::Number => match tok.value {
                Some(v) => match number_value(v) {
                    Some(n) => Ok((i + 1, ExprV::Int(n))),
                    None => Err(unexpected("an integer"@, t, i)),
                },
                None => Err(unexpected("an integer"@, t, i)),
            },
            TokenKind::DoubleQuoteStart => {
                if is_kind(t, i + 1, TokenKind::DoubleQuoteEnd) {
                    Ok((i + 2, ExprV::Str(seq![])))
                } else if is_kind(t, i + 1, TokenKind::StringLiteral) && t[i + 1].value is Some {
                    if is_kind(t, i + 2, TokenKind::DoubleQuoteEnd) {
                        Ok((i + 3, ExprV::Str(t[i + 1].value->0)))
                    } else {
                        Err(unexpected("\""@, t, i + 2))
                    }
                } else {
                    Err(unexpected("a string"@, t, i + 1))
                }
            },
            _ => Err(unexpected("an expression"@, t, i)),
        }
    }
}

/// The arguments of a call whose `(` is just before token `i`, up to and
/// including the closing `)`.
pub open spec fn args_at(t: Seq<TokV>, i: int) -> Result<(int, Seq<ExprV>), ErrV>
    decreases t.len() - i, 2int,
{
    if is_kind(t, i, TokenKind::RParen) {
        Ok((i + 1, seq![]))
    } else {
        list_at(t, i)
    }
}

/// A non-empty list of arguments `expr (',' expr)* ')'` from token `i`.
pub open spec fn list_at(t: Seq<TokV>, i: int) -> Result<(int, Seq<ExprV>), ErrV>
    decreases t.len() - i, 1int,
{
    match expr_at(t, i) {
        Err(e) => Err(e),
        Ok((j, e)) => {
            if !(i < j <= t.len()) {
                Err(ErrV::Unknown(seq![]))
            } else if is_kind(t, j, TokenKind::Comma) {
                match list_at(t, j + 1) {
                    Ok((k, rest)) => Ok((k, seq![e] + rest)),
                    Err(x) => Err(x),
                }
            } else if is_kind(t, j, TokenKind::RParen) {
                Ok((j + 1, seq![e]))
            } else {
                Err(unexpected("',' or ')'"@, t, j))
            }
        },
    }
}

/// The declaration `name = expr ;` that starts at token `i`.
pub open spec fn decl_at(t: Seq<TokV>, i: int) -> Result<(int, (Seq<char>, ExprV)), ErrV> {
    if is_kind(t, i, TokenKind::Ident) && t[i].value is Some {
        if is_kind(t, i + 1, TokenKind::AssignOp) {
            match expr_at(t, i + 2) {
                Ok((j, e)) => {
                    if is_kind(t, j, TokenKind::SemiColon) {
                        Ok((j + 1, (t[i].value->0, e)))
                    } else {
                        Err(unexpected(";"@, t, j))
                    }
                },
                Err(x) => Err(x),
            }
        } else {
            Err(unexpected("="@, t, i + 1))
        }
    } else {
        Err(unexpected("an identifier"@, t, i))
    }
}

fn spelling_of(k: TokenKind) -> (r: String)
    ensures
        r@ == spelling(k),
{
    let s = match k {
        TokenKind::SemiColon => ";",
        TokenKind::Ident => "an identifier",
        TokenKind::Number => "a number",
        TokenKind::AssignOp => "=",
        TokenKind::LParen => "(",
        TokenKind::RParen => ")",
        TokenKind::Comma => ",",
        TokenKind::StringLiteral => "a string",
        TokenKind::DoubleQuoteStart => "\"",
        TokenKind::DoubleQuoteEnd => "\"",
        TokenKind::SqBracketOpen => "[",
        TokenKind::SqBracketClose => "]",
        TokenKind::CuBracketOpen => "{",
        TokenKind::CuBracketClose => "}",
        TokenKind::Keyword(crate::tokenizer::Keyword::If) => "if",
        TokenKind::Keyword(crate::tokenizer::Keyword::Struct) => "struct",
        TokenKind::Keyword(crate::tokenizer::Keyword::Interface) => "interface",
        TokenKind::Keyword(crate::tokenizer::Keyword::For) => "for",
    };
    String::from_str(s)
}

fn unexpected_token(expected: &str, toks: &Vec<Token>, i: usize) -> (r: ParseErr)
    ensures
        r@ == unexpected(expected@, views(toks@), i as int),
{
    let found = if i < toks.len() {
        match &toks[i].value {
            Some(v) => v.clone(),
            None => spelling_of(toks[i].kind),
        }
    } else {
        String::from_str("end of input")
    };
    ParseErr::UnexpectedToken(String::from_str(expected), found, i as u64)
}

pub(crate) proof fn lemma_digits_value_monotone(t: Seq<char>, n: int)
    requires
        0 <= n <= t.len(),
        forall|k: int| 0 <= k < t.len() ==> is_digit(#[trigger] t[k]),
    ensures
        digits_value(t.subrange(0, n)) <= digits_value(t),
    decreases t.len() - n,
{
    if n < t.len() {
        lemma_digits_value_monotone(t, n + 1);
        assert(t.subrange(0, n + 1).subrange(0, n) =~= t.subrange(0, n));
    } else {
        assert(t.subrange(0, n) =~= t);
    }
}

/// The value of a number token's text.
fn number_of(s: &String) -> (r: Option<i64>)
    ensures
        r == number_value(s@),
{
    let cs = chars_of(s.as_str());
    let n = cs.len();
    if n == 0 {
        return None;
    }
    let mut v: i64 = 0;
    let mut k: usize = 0;
    while k < n
        invariant
            cs@ == s@,
            n == cs@.len(),
            0 <= k <= n,
            forall|m: int| 0 <= m < k ==> is_digit(#[trigger] cs@[m]),
            v as int == digits_value(cs@.subrange(0, k as int)),
        decreases n - k,
    {
        let c = cs[k];
        if !('0' <= c && c <= '9') {
            return None;
        }
        let d = (c as u32 - '0' as u32) as i64;
        assert(cs@.subrange(0, k + 1).subrange(0, k as int) =~= cs@.subrange(0, k as int));
        if v > (i64::MAX - d) / 10 {
            proof {
                assert(v * 10 + d > i64::MAX) by (nonlinear_arith)
                    requires
                        v > (i64::MAX - d) / 10,
                        0 <= d <= 9,
                ;
                if forall|m: int| 0 <= m < n ==> is_digit(#[trigger] cs@[m]) {
                    lemma_digits_value_monotone(cs@, k + 1);
                }
            }
            return None;
        }
        assert(v * 10 + d <= i64::MAX) by (nonlinear_arith)
            requires
                v <= (i64::MAX - d) / 10,
                0 <= d <= 9,
        ;
        v = v * 10 + d;
        k += 1;
    }
    assert(cs@.subrange(0, n as int) =~= cs@);
    Some(v)
}

/// Parses the expression that starts at token `i`; on success returns the
/// index after it.
fn parse_expr_at(toks: &Vec<Token>, i: usize) -> (r: Result<(usize, Expr), ParseErr>)
    ensures
        match r {
            Ok((j, e)) => i < j <= toks@.len() && expr_at(views(toks@), i as int) == Ok::<
                (int, ExprV),
                ErrV,
            >((j as int, e@)),
            Err(x) => expr_at(views(toks@), i as int) == Err::<(int, ExprV), ErrV>(x@),
        },
    decreases toks@.len() - i, 0int,
{
    let ghost t = views(toks@);
    if i >= toks.len() {
        return Err(unexpected_token("an expression", toks, i));
    }
    let n = toks.len();
    let tok = &toks[i];
    assert(t[i as int] == tok@);
    match tok.kind {
        TokenKind::Ident => match &tok.value {
            Some(name) => {
                if i + 1 < n && toks[i + 1].kind == TokenKind::LParen {
                    let mut args: Vec<Expr> = Vec::new();
                    match parse_args_into(toks, i + 2, &mut args) {
                        Ok(j) => {
                            assert(exprs_view(args@) == seq![] + exprs_view(args@));
                            let e = Expr::FnCall(FnCall { name: name.clone(), args });
                            Ok((j, e))
                        },
                        Err(x) => Err(x),
                    }
                } else {
                    Ok((i + 1, Expr::Ident(name.clone())))
                }
            },
            None => Err(unexpected_token("an expression", toks, i)),
        },
        TokenKind::Number => match &tok.value {
            Some(v) => match number_of(v) {
                Some(k) => Ok((i + 1, Expr::Int(k))),
                None => Err(unexpected_token("an integer", toks, i)),
            },
            None => Err(unexpected_token("an integer", toks, i)),
        },
        TokenKind::DoubleQuoteStart => {
            if i + 1 < n && toks[i + 1].kind == TokenKind::DoubleQuoteEnd {
                Ok((i + 2, Expr::Str(String::new())))
            } else if i + 1 < n && toks[i + 1].kind == TokenKind::StringLiteral
                && toks[i + 1].value.is_some() {
                if i + 2 < n && toks[i + 2].kind == TokenKind::DoubleQuoteEnd {
                    let text = toks[i + 1].value.as_ref().unwrap().clone();
                    Ok((i + 3, Expr::Str(text)))
                } else {
                    Err(unexpected_token("\"", toks, i + 2))
                }
            } else {
                Err(unexpected_token("a string", toks, i + 1))
            }
        },
        _ => Err(unexpected_token("an expression", toks, i)),
    }
}

/// Parses the arguments of a call whose `(` is just before token `i`,
/// appending them to `acc`; on success returns the index after the `)`.
fn parse_args_into(toks: &Vec<Token>, i: usize, acc: &mut Vec<Expr>) -> (r: Result<usize, ParseErr>)
    requires
        i <= toks@.len(),
    ensures
        match args_at(views(toks@), i as int) {
            Ok((k, es)) => r == Ok::<usize, ParseErr>(k as usize) && i < k <= toks@.len()
                && exprs_view(final(acc)@) == exprs_view(old(acc)@) + es,
            Err(x) => r is Err && r->Err_0@ == x,
        },
    decreases toks@.len() - i, 2int,
{
    if i < toks.len() && toks[i].kind == TokenKind::RParen {
        assert(views(toks@)[i as int] == toks@[i as int]@);
        assert(exprs_view(acc@) + seq![] =~= exprs_view(acc@));
        return Ok(i + 1);
    }
    assert(i < toks@.len() ==> views(toks@)[i as int] == toks@[i as int]@);
    parse_list_into(toks, i, acc)
}

/// Parses `expr (',' expr)* ')'` from token `i`, appending the expressions
/// to `acc`; on success returns the index after the `)`.
fn parse_list_into(toks: &Vec<Token>, i: usize, acc: &mut Vec<Expr>) -> (r: Result<usize, ParseErr>)
    requires
        i <= toks@.len(),
    ensures
        match list_at(views(toks@), i as int) {
            Ok((k, es)) => r == Ok::<usize, ParseErr>(k as usize) && i < k <= toks@.len()
                && exprs_view(final(acc)@) == exprs_view(old(acc)@) + es,
            Err(x) => r is Err && r->Err_0@ == x,
        },
    decreases toks@.len() - i, 1int,
{
    let ghost t = views(toks@);
    match parse_expr_at(toks, i) {
        Err(x) => Err(x),
        Ok((j, e)) => {
            let ghost ev = e@;
            proof {
                lemma_exprs_view_push(acc@, e);
            }
            acc.push(e);
            if j < toks.len() && toks[j].kind == TokenKind::Comma {
                assert(t[j as int] == toks@[j as int]@);
                let r = parse_list_into(toks, j + 1, acc);
                proof {
                    match list_at(t, j + 1) {
                        Ok((k, rest)) => {
                            assert(exprs_view(old(acc)@) + seq![ev] + rest =~= exprs_view(
                                old(acc)@,
                            ) + (seq![ev] + rest));
                        },
                        Err(_) => {},
                    }
                }
                r
            } else if j < toks.len() && toks[j].kind == TokenKind::RParen {
                assert(t[j as int] == toks@[j as int]@);
                assert(exprs_view(old(acc)@).push(ev) =~= exprs_view(old(acc)@) + seq![ev]);
                Ok(j + 1)
            } else {
                assert(j < toks@.len() ==> t[j as int] == toks@[j as int]@);
                Err(unexpected_token("',' or ')'", toks, j))
            }
        },
    }
}

/// A cursor over a token sequence.
pub struct Parser {
    pub tokens: Vec<Token>,
    pub pos: usize,
}

impl Parser {
    /// A parser at the first of `tokens`.
    pub fn new(tokens: Vec<Token>) -> (r: Parser)
        ensures
            r.tokens@ == tokens@,
            r.pos == 0,
    {
        Parser { tokens, pos: 0 }
    }

    /// Parses the expression at the cursor and moves the cursor past it; on
    /// failure the cursor stays where it was.
    pub fn parse_next_expr(&mut self) -> (r: Result<Expr, ParseErr>)
        ensures
            final(self).tokens@ == old(self).tokens@,
            match expr_at(views(old(self).tokens@), old(self).pos as int) {
                Ok((j, e)) => r is Ok && r->Ok_0@ == e && final(self).pos == j,
                Err(x) => r is Err && r->Err_0@ == x && final(self).pos == old(self).pos,
            },
    {
        match parse_expr_at(&self.tokens, self.pos) {
            Ok((j, e)) => {
                self.pos = j;
                Ok(e)
            },
            Err(x) => Err(x),
        }
    }

    /// Parses the declaration `name = expr ;` at the cursor and moves the
    /// cursor past it; on failure the cursor stays where it was.
    pub fn parse_decl(&mut self) -> (r: Result<Decl, ParseErr>)
        ensures
            final(self).tokens@ == old(self).tokens@,
            match decl_at(views(old(self).tokens@), old(self).pos as int) {
                Ok((j, (name, e))) => r is Ok && r->Ok_0.name@ == name && r->Ok_0.value@ == e
                    && final(self).pos == j,
                Err(x) => r is Err && r->Err_0@ == x && final(self).pos == old(self).pos,
            },
    {
        let toks = &self.tokens;
        let i = self.pos;
        let n = toks.len();
        let ghost t = views(toks@);
        if !(i < n && toks[i].kind == TokenKind::Ident && toks[i].value.is_some()) {
            assert(i < n ==> t[i as int] == toks@[i as int]@);
            return Err(unexpected_token("an identifier", toks, i));
        }
        assert(t[i as int] == toks@[i as int]@);
        if !(i + 1 < n && toks[i + 1].kind == TokenKind::AssignOp) {
            assert(i + 1 < n ==> t[i + 1] == toks@[i + 1]@);
            return Err(unexpected_token("=", toks, i + 1));
        }
        assert(t[i + 1] == toks@[i + 1]@);
        match parse_expr_at(toks, i + 2) {
            Ok((j, e)) => {
                if j < n && toks[j].kind == TokenKind::SemiColon {
                    assert(t[j as int] == toks@[j as int]@);
                    let name = toks[i].value.as_ref().unwrap().clone();
                    self.pos = j + 1;
                    Ok(Decl { name, value: e })
                } else {
                    assert(j < n ==> t[j as int] == toks@[j as int]@);
                    Err(unexpected_token(";", toks, j))
                }
            },
            Err(x) => Err(x),
        }
    }
}

/// The tokens of `names[0](names[1](...names[k-1](num)...))`.
pub open spec fn nested_call_tokens(names: Seq<Seq<char>>, num: Seq<char>) -> Seq<TokV>
    decreases names.len(),
{
    if names.len() == 0 {
        seq![TokV { kind: TokenKind::Number, value: Some(num) }]
    } else {
        seq![
            TokV { kind: TokenKind::Ident, value: Some(names[0]) },
            TokV { kind: TokenKind::LParen, value: None },
        ] + nested_call_tokens(names.subrange(1, names.len() as int), num) + seq![
            TokV { kind: TokenKind::RParen, value: None },
        ]
    }
}

/// The call tree `names[0](names[1](...names[k-1](n)...))`.
pub open spec fn nested_call_expr(names: Seq<Seq<char>>, n: i64) -> ExprV
    decreases names.len(),
{
    if names.len() == 0 {
        ExprV::Int(n)
    } else {
        ExprV::FnCall(names[0], seq![nested_call_expr(names.subrange(1, names.len() as int), n)])
    }
}

/// Calls nested to any depth, each with one argument and an integer at the
/// bottom, parse to the right-nested call tree, and the parse ends right
/// after the last `)`.
pub proof fn lemma_nested_calls_parse(names: Seq<Seq<char>>, num: Seq<char>, n: i64)
    requires
        number_value(num) == Some(n),
    ensures
        expr_at(nested_call_tokens(names, num), 0) == Ok::<(int, ExprV), ErrV>(
            (nested_call_tokens(names, num).len() as int, nested_call_expr(names, n)),
        ),
{
    let t = nested_call_tokens(names, num);
    assert(t.subrange(0, t.len() as int) =~= t);
    lemma_nested_calls_parse_within(names, num, n, t, 0);
}

proof fn lemma_nested_calls_parse_within(
    names: Seq<Seq<char>>,
    num: Seq<char>,
    n: i64,
    t: Seq<TokV>,
    i: int,
)
    requires
        number_value(num) == Some(n),
        0 <= i,
        i + nested_call_tokens(names, num).len() <= t.len(),
        t.subrange(i, i + nested_call_tokens(names, num).len()) == nested_call_tokens(names, num),
    ensures
        expr_at(t, i) == Ok::<(int, ExprV), ErrV>(
            (i + nested_call_tokens(names, num).len(), nested_call_expr(names, n)),
        ),
    decreases names.len(),
{
    let w = nested_call_tokens(names, num);
    assert(t[i] == w[0]);
    if names.len() > 0 {
        let rest = names.subrange(1, names.len() as int);
        let inner = nested_call_tokens(rest, num);
        let l = inner.len() as int;
        assert(t[i + 1] == w[1]);
        assert(t.subrange(i + 2, i + 2 + l) =~= inner) by {
            assert forall|k: int| 0 <= k < l implies t.subrange(i + 2, i + 2 + l)[k] == inner[k] by {
                assert(t[i + 2 + k] == w[2 + k]);
            }
        }
        lemma_nested_calls_parse_within(rest, num, n, t, i + 2);
        assert(t[i + 2] == inner[0]);
        if rest.len() > 0 {
            assert(inner[0].kind == TokenKind::Ident);
        }
        assert(t[i + 2 + l] == w[2 + l]);
        assert(list_at(t, i + 2) == Ok::<(int, Seq<ExprV>), ErrV>(
            (i + 3 + l, seq![nested_call_expr(rest, n)]),
        ));
    }
}

/// Whether `w` is a name that the tokenizer reads as one identifier: a
/// letter or `_`, then letters, digits or `_`, and no reserved word.
pub open spec fn is_plain_name(w: Seq<char>) -> bool {
    &&& w.len() > 0
    &&& is_letter(w[0])
    &&& forall|k: int| 0 <= k < w.len() ==> is_letter(#[trigger] w[k]) || is_digit(w[k])
    &&& keyword_of(w) is None
}

/// The text `names[0](names[1](...names[k-1](num)...))`.
pub open spec fn nested_call_text(names: Seq<Seq<char>>, num: Seq<char>) -> Seq<char>
    decreases names.len(),
{
    if names.len() == 0 {
        num
    } else {
        names[0] + seq!['('] + nested_call_text(names.subrange(1, names.len() as int), num) + seq![
            ')',
        ]
    }
}

pub open spec fn clean(d: Seq<TokV>) -> LexState {
    LexState { done: d, pending: None, in_string: false, failed: None }
}

pub open spec fn reading(d: Seq<TokV>, kind: TokenKind, w: Seq<char>) -> LexState {
    LexState { done: d, pending: Some((kind, w)), in_string: false, failed: None }
}

proof fn lemma_scan_word(s: Seq<char>, p: int, w: Seq<char>, kind: TokenKind, d: Seq<TokV>, k: int)
    requires
        0 <= p,
        1 <= k <= w.len(),
        p + w.len() <= s.len(),
        s.subrange(p, p + w.len()) == w,
        scan(s, p) == clean(d),
        kind == TokenKind::Ident ==> is_plain_name(w),
        kind == TokenKind::Number ==> forall|j: int| 0 <= j < w.len() ==> is_digit(#[trigger] w[j]),
        kind == TokenKind::Ident || kind == TokenKind::Number,
    ensures
        scan(s, p + k) == reading(d, kind, w.subrange(0, k)),
    decreases k,
{
    let c = w[k - 1];
    assert(s[p + k - 1] == c);
    if kind == TokenKind::Ident {
        assert(is_letter(c) || is_digit(c));
    } else {
        assert(is_digit(c));
    }
    if k == 1 {
        assert(w.subrange(0, 1) =~= seq![c]);
        assert(d + flushed(None) =~= d);
    } else {
        lemma_scan_word(s, p, w, kind, d, k - 1);
        assert(w.subrange(0, k) =~= w.subrange(0, k - 1).push(c));
    }
}

proof fn lemma_scan_nested(s: Seq<char>, p: int, names: Seq<Seq<char>>, num: Seq<char>, d: Seq<TokV>)
    requires
        0 <= p,
        p + nested_call_text(names, num).len() <= s.len(),
        s.subrange(p, p + nested_call_text(names, num).len()) == nested_call_text(names, num),
        scan(s, p) == clean(d),
        forall|k: int| 0 <= k < names.len() ==> is_plain_name(#[trigger] names[k]),
        num.len() > 0,
        forall|j: int| 0 <= j < num.len() ==> is_digit(#[trigger] num[j]),
    ensures
        scan(s, p + nested_call_text(names, num).len()) == if names.len() == 0 {
            reading(d, TokenKind::Number, num)
        } else {
            clean(d + nested_call_tokens(names, num))
        },
    decreases names.len(),
{
    let text = nested_call_text(names, num);
    if names.len() == 0 {
        lemma_scan_word(s, p, num, TokenKind::Number, d, num.len() as int);
        assert(num.subrange(0, num.len() as int) =~= num);
    } else {
        let w = names[0];
        let m = w.len() as int;
        let rest = names.subrange(1, names.len() as int);
        let inner = nested_call_text(rest, num);
        let l = inner.len() as int;
        assert(is_plain_name(w));
        assert(text.len() == m + 1 + l + 1);
        assert(s.subrange(p, p + m) =~= w) by {
            assert forall|j: int| 0 <= j < m implies s.subrange(p, p + m)[j] == w[j] by {
                assert(s[p + j] == text[j]);
            }
        }
        lemma_scan_word(s, p, w, TokenKind::Ident, d, m);
        assert(w.subrange(0, m) =~= w);
        assert(s[p + m] == text[m]);
        let d1 = d + seq![
            TokV { kind: TokenKind::Ident, value: Some(w) },
            TokV { kind: TokenKind::LParen, value: None },
        ];
        assert(scan(s, p + m + 1) == clean(d1)) by {
            assert(d + flushed(Some((TokenKind::Ident, w))) + seq![plain(TokenKind::LParen)] =~= d1);
        }
        assert(s.subrange(p + m + 1, p + m + 1 + l) =~= inner) by {
            assert forall|j: int| 0 <= j < l implies s.subrange(p + m + 1, p + m + 1 + l)[j]
                == inner[j] by {
                assert(s[p + m + 1 + j] == text[m + 1 + j]);
            }
        }
        assert forall|k: int| 0 <= k < rest.len() implies is_plain_name(#[trigger] rest[k]) by {
            assert(rest[k] == names[k + 1]);
        }
        lemma_scan_nested(s, p + m + 1, rest, num, d1);
        assert(s[p + m + 1 + l] == text[m + 1 + l]);
        let toks = nested_call_tokens(names, num);
        let inner_toks = nested_call_tokens(rest, num);
        if rest.len() == 0 {
            assert(d1 + flushed(Some((TokenKind::Number, num))) + seq![plain(TokenKind::RParen)]
                =~= d + toks);
        } else {
            assert(d1 + inner_toks + flushed(None) + seq![plain(TokenKind::RParen)] =~= d + toks);
        }
    }
}

/// Calls nested to any depth, written as text, each with one argument and
/// a number at the bottom: the text tokenizes and parses to the
/// right-nested call tree, and the parse takes every token.
pub proof fn lemma_nested_call_text_parses(names: Seq<Seq<char>>, num: Seq<char>, n: i64)
    requires
        forall|k: int| 0 <= k < names.len() ==> is_plain_name(#[trigger] names[k]),
        number_value(num) == Some(n),
    ensures
        lex(nested_call_text(names, num)) == Ok::<Seq<TokV>, LexError>(
            nested_call_tokens(names, num),
        ),
        expr_at(nested_call_tokens(names, num), 0) == Ok::<(int, ExprV), ErrV>(
            (nested_call_tokens(names, num).len() as int, nested_call_expr(names, n)),
        ),
{
    let s = nested_call_text(names, num);
    assert(s.subrange(0, s.len() as int) =~= s);
    assert(seq![] + nested_call_tokens(names, num) =~= nested_call_tokens(names, num));
    lemma_scan_nested(s, 0, names, num, seq![]);
    let toks = nested_call_tokens(names, num);
    if names.len() == 0 {
        assert(seq![] + flushed(Some((TokenKind::Number, num))) =~= toks);
    } else {
        assert(toks + flushed(None) =~= toks);
    }
    lemma_nested_calls_parse(names, num, n);
}

} // verus!

//! A single left-to-right scan that turns source text into tokens.
//!
//! The scan keeps one pending token (an identifier, a number or the text of
//! a string literal) that grows character by character and is flushed when
//! white space (blank, tab, newline, carriage return), a punctuation mark, a
//! quote or the end of input is reached. A flushed identifier whose whole
//! text is a reserved word becomes a keyword token, so `structure` stays one
//! identifier. Between two quotes every character belongs to the string
//! literal. A quote met while an identifier or a number is pending, a
//! string left open at the end, and a character that starts no token are
//! errors.
use vstd::prelude::*;
use crate::text::{chars_of, string_of};

verus! {

/// The reserved words of the language.
#[derive(Clone, Copy, Debug, PartialEq, Eq, Structural)]
pub enum Keyword {
    If,
    Struct,
    Interface,
    For,
}

/// What a token is.
#[derive(Clone, Copy, Debug, PartialEq, Eq, Structural)]
pub enum TokenKind {
    SemiColon,
    Ident,
    Number,
    AssignOp,
    LParen,
    RParen,
    Comma,
    StringLiteral,
    DoubleQuoteStart,
    DoubleQuoteEnd,
    SqBracketOpen,
    SqBracketClose,
    CuBracketOpen,
    CuBracketClose,
    Keyword(Keyword),
}

/// A token: its kind and, for identifiers, numbers and string literals, its text.
#[derive(Clone, Debug, PartialEq, Eq)]
pub struct Token {
    pub kind: TokenKind,
    pub value: Option<String>,
}

/// The mathematical value of a token.
pub struct TokV {
    pub kind: TokenKind,
    pub value: Option<Seq<char>>,
}

impl View for Token {
    type V = TokV;

    open spec fn view(&self) -> TokV {
        TokV {
            kind: self.kind,
            value: match self.value {
                Some(s) => Some(s@),
                None => None,
            },
        }
    }
}

/// Why a text could not be tokenized; each carries the character offset.
#[derive(Clone, Copy, Debug, PartialEq, Eq, Structural)]
pub enum LexError {
    /// A `"` met while an identifier or a number was being read.
    CannotStartStringInOtherToken(usize),
    /// The input ended inside a string literal (offset: the input's length).
    UnterminatedString(usize),
    /// A character that starts no token.
    UnexpectedChar(char, usize),
}

pub open spec fn is_space(c: char) -> bool {
    c == ' ' || c == '\t' || c == '\n' || c == '\r'
}

pub open spec fn is_letter(c: char) -> bool {
    ('a' <= c && c <= 'z') || ('A' <= c && c <= 'Z') || c == '_'
}

pub open spec fn is_digit(c: char) -> bool {
    '0' <= c && c <= '9'
}

/// The token kind of a one-character punctuation mark.
pub open spec fn punct_kind(c: char) -> Option<TokenKind> {
    if c == ';' {
        Some(TokenKind::SemiColon)
    } else if c == '=' {
        Some(TokenKind::AssignOp)
    } else if c == '(' {
        Some(TokenKind::LParen)
    } else if c == ')' {
        Some(TokenKind::RParen)
    } else if c == ',' {
        Some(TokenKind::Comma)
    } else if c == '[' {
        Some(TokenKind::SqBracketOpen)
    } else if c == ']' {
        Some(TokenKind::SqBracketClose)
    } else if c == '{' {
        Some(TokenKind::CuBracketOpen)
    } else if c == '}' {
        Some(TokenKind::CuBracketClose)
    } else {
        None
    }
}

/// The reserved word spelled by `t`, if any.
pub open spec fn keyword_of(t: Seq<char>) -> Option<Keyword> {
    if t == seq!['i', 'f'] {
        Some(Keyword::If)
    } else if t == seq!['s', 't', 'r', 'u', 'c', 't'] {
        Some(Keyword::Struct)
    } else if t == seq!['i', 'n', 't', 'e', 'r', 'f', 'a', 'c', 'e'] {
        Some(Keyword::Interface)
    } else if t == seq!['f', 'o', 'r'] {
        Some(Keyword::For)
    } else {
        None
    }
}

/// The state of the scan after some prefix of the input.
pub struct LexState {
    /// Tokens emitted so far.
    pub done: Seq<TokV>,
    /// The token being read, with its text so far.
    pub pending: Option<(TokenKind, Seq<char>)>,
    /// Whether the scan is between a `"` and its closing `"`.
    pub in_string: bool,
    /// The error met, after which the scan stops.
    pub failed: Option<LexError>,
}

/// The tokens that a pending token turns into when flushed.
pub open spec fn flushed(pending: Option<(TokenKind, Seq<char>)>) -> Seq<TokV> {
    match pending {
        None => seq![],
        Some((kind, t)) => {
            if kind == TokenKind::Ident && keyword_of(t) is Some {
                seq![TokV { kind: TokenKind::Keyword(keyword_of(t)->0), value: None }]
            } else {
                seq![TokV { kind, value: Some(t) }]
            }
        },
    }
}

pub open spec fn plain(kind: TokenKind) -> TokV {
    TokV { kind, value: None }
}

/// One step of the scan: character `c`, at offset `i`.
pub open spec fn step(st: LexState, c: char, i: int) -> LexState {
    if st.failed is Some {
        st
    } else if st.in_string {
        if c == '"' {
            LexState {
                done: st.done + flushed(st.pending) + seq![plain(TokenKind::DoubleQuoteEnd)],
                pending: None,
                in_string: false,
                failed: None,
            }
        } else {
            let t = match st.pending {
                Some((_, t)) => t,
                None => seq![],
            };
            LexState { pending: Some((TokenKind::StringLiteral, t.push(c))), ..st }
        }
    } else if c == '"' {
        if st.pending is Some {
            LexState {
                failed: Some(LexError::CannotStartStringInOtherToken(i as usize)),
                ..st
            }
        } else {
            LexState {
                done: st.done.push(plain(TokenKind::DoubleQuoteStart)),
                in_string: true,
                ..st
            }
        }
    } else if is_space(c) {
        LexState { done: st.done + flushed(st.pending), pending: None, ..st }
    } else if punct_kind(c) is Some {
        LexState {
            done: st.done + flushed(st.pending) + seq![plain(punct_kind(c)->0)],
            pending: None,
            ..st
        }
    } else if is_letter(c) {
        match st.pending {
            Some((TokenKind::Ident, t)) => LexState {
                pending: Some((TokenKind::Ident, t.push(c))),
                ..st
            },
            _ => LexState {
                done: st.done + flushed(st.pending),
                pending: Some((TokenKind::Ident, seq![c])),
                ..st
            },
        }
    } else if is_digit(c) {
        match st.pending {
            Some((kind, t)) => LexState { pending: Some((kind, t.push(c))), ..st },
            None => LexState { pending: Some((TokenKind::Number, seq![c])), ..st },
        }
    } else {
        LexState { failed: Some(LexError::UnexpectedChar(c, i as usize)), ..st }
    }
}

pub open spec fn initial() -> LexState {
    LexState { done: seq![], pending: None, in_string: false, failed: None }
}

/// The state of the scan after the first `n` characters of `s`.
pub open spec fn scan(s: Seq<char>, n: int) -> LexState
    decreases n,
{
    if n <= 0 {
        initial()
    } else {
        step(scan(s, n - 1), s[n - 1], n - 1)
    }
}

/// What tokenizing `s` gives.
pub open spec fn lex(s: Seq<char>) -> Result<Seq<TokV>, LexError> {
    let st = scan(s, s.len() as int);
    if st.failed is Some {
        Err(st.failed->0)
    } else if st.in_string {
        Err(LexError::UnterminatedString(s.len() as usize))
    } else {
        Ok(st.done + flushed(st.pending))
    }
}

pub open spec fn views(ts: Seq<Token>) -> Seq<TokV> {
    ts.map_values(|t: Token| t@)
}


/// Once the scan has failed it stays failed with the same error.
proof fn lemma_failure_sticks(s: Seq<char>, n: int, m: int)
    requires
        0 <= n <= m,
        scan(s, n).failed is Some,
    ensures
        scan(s, m).failed == scan(s, n).failed,
    decreases m - n,
{
    if m > n {
        lemma_failure_sticks(s, n, m - 1);
    }
}

proof fn lemma_views_push(ts: Seq<Token>, t: Token)
    ensures
        views(ts.push(t)) == views(ts).push(t@),
{
    assert(views(ts.push(t)) =~= views(ts).push(t@));
}

/// Whether `chars[from..to]` spells `w`.
fn spells(chars: &Vec<char>, from: usize, to: usize, w: &[char]) -> (r: bool)
    requires
        from <= to <= chars@.len(),
    ensures
        r == (chars@.subrange(from as int, to as int) == w@),
{
    if to - from != w.len() {
        return false;
    }
    let mut k: usize = 0;
    while k < w.len()
        invariant
            from <= to <= chars@.len(),
            to - from == w@.len(),
            0 <= k <= w@.len(),
            forall|j: int| 0 <= j < k ==> chars@[from + j] == w@[j],
        decreases w@.len() - k,
    {
        if chars[from + k] != w[k] {
            assert(chars@.subrange(from as int, to as int)[k as int] != w@[k as int]);
            return false;
        }
        k += 1;
    }
    assert(chars@.subrange(from as int, to as int) =~= w@);
    true
}

/// The reserved word spelled by `chars[from..to]`, if any.
fn keyword_at(chars: &Vec<char>, from: usize, to: usize) -> (r: Option<Keyword>)
    requires
        from <= to <= chars@.len(),
    ensures
        r == keyword_of(chars@.subrange(from as int, to as int)),
{
    let w_if = ['i', 'f'];
    let w_struct = ['s', 't', 'r', 'u', 'c', 't'];
    let w_interface = ['i', 'n', 't', 'e', 'r', 'f', 'a', 'c', 'e'];
    let w_for = ['f', 'o', 'r'];
    assert(w_if@ =~= seq!['i', 'f']);
    assert(w_struct@ =~= seq!['s', 't', 'r', 'u', 'c', 't']);
    assert(w_interface@ =~= seq!['i', 'n', 't', 'e', 'r', 'f', 'a', 'c', 'e']);
    assert(w_for@ =~= seq!['f', 'o', 'r']);
    if spells(chars, from, to, &w_if) {
        Some(Keyword::If)
    } else if spells(chars, from, to, &w_struct) {
        Some(Keyword::Struct)
    } else if spells(chars, from, to, &w_interface) {
        Some(Keyword::Interface)
    } else if spells(chars, from, to, &w_for) {
        Some(Keyword::For)
    } else {
        None
    }
}

pub open spec fn pending_of(kind: Option<TokenKind>, t: Seq<char>) -> Option<(TokenKind, Seq<char>)> {
    match kind {
        Some(k) => Some((k, t)),
        None => None,
    }
}

/// Appends to `out` what the pending token `chars[start..end]` of kind `kind` becomes.
fn flush(chars: &Vec<char>, kind: Option<TokenKind>, start: usize, end: usize, out: &mut Vec<Token>)
    requires
        start <= end <= chars@.len(),
    ensures
        views(final(out)@) == views(old(out)@) + flushed(
            pending_of(kind, chars@.subrange(start as int, end as int)),
        ),
{
    let ghost t = chars@.subrange(start as int, end as int);
    match kind {
        None => {
            assert(views(out@) + flushed(pending_of(kind, t)) =~= views(out@));
        },
        Some(k) => {
            let kw = if k == TokenKind::Ident {
                keyword_at(chars, start, end)
            } else {
                None
            };
            let tok = match kw {
                Some(w) => Token { kind: TokenKind::Keyword(w), value: None },
                None => Token { kind: k, value: Some(string_of(chars.as_slice(), start, end)) },
            };
            proof {
                lemma_views_push(old(out)@, tok);
            }
            out.push(tok);
            assert(views(out@) =~= views(old(out)@) + flushed(pending_of(kind, t)));
        },
    }
}

fn punct_token(c: char) -> (r: Option<TokenKind>)
    ensures
        r == punct_kind(c),
{
    if c == ';' {
        Some(TokenKind::SemiColon)
    } else if c == '=' {
        Some(TokenKind::AssignOp)
    } else if c == '(' {
        Some(TokenKind::LParen)
    } else if c == ')' {
        Some(TokenKind::RParen)
    } else if c == ',' {
        Some(TokenKind::Comma)
    } else if c == '[' {
        Some(TokenKind::SqBracketOpen)
    } else if c == ']' {
        Some(TokenKind::SqBracketClose)
    } else if c == '{' {
        Some(TokenKind::CuBracketOpen)
    } else if c == '}' {
        Some(TokenKind::CuBracketClose)
    } else {
        None
    }
}

/// Splits `code` into tokens, in source order.
pub fn tokenize(code: &str) -> (r: Result<Vec<Token>, LexError>)
    ensures
        match r {
            Ok(ts) => lex(code@) == Ok::<Seq<TokV>, LexError>(views(ts@)),
            Err(e) => lex(code@) == Err::<Seq<TokV>, LexError>(e),
        },
{
    let chars = chars_of(code);
    let ghost s = code@;
    let n = chars.len();
    let mut done: Vec<Token> = Vec::new();
    let mut kind: Option<TokenKind> = None;
    let mut start: usize = 0;
    let mut in_string = false;
    let mut i: usize = 0;
    assert(views(done@) =~= seq![]);
    while i < n
        invariant
            s == code@,
            chars@ == s,
            n == s.len(),
            0 <= start <= i <= n,
            scan(s, i as int).failed is None,
            scan(s, i as int).done == views(done@),
            scan(s, i as int).in_string == in_string,
            scan(s, i as int).pending == pending_of(kind, s.subrange(start as int, i as int)),
        decreases n - i,
    {
        let c = chars[i];
        let ghost st = scan(s, i as int);
        assert(scan(s, i + 1) == step(st, c, i as int));
        let ghost t = s.subrange(start as int, i as int);
        assert(s.subrange(start as int, i + 1) == t.push(c));
        let p = punct_token(c);
        if in_string {
            if c == '"' {
                flush(&chars, kind, start, i, &mut done);
                let tok = Token { kind: TokenKind::DoubleQuoteEnd, value: None };
                proof {
                    lemma_views_push(done@, tok);
                }
                done.push(tok);
                kind = None;
                in_string = false;
                assert(views(done@) =~= st.done + flushed(st.pending) + seq![plain(TokenKind::DoubleQuoteEnd)]);
            } else {
                if kind.is_none() {
                    start = i;
                    assert(s.subrange(i as int, i + 1) =~= seq![].push(c));
                }
                kind = Some(TokenKind::StringLiteral);
            }
        } else if c == '"' {
            if kind.is_some() {
                proof {
                    lemma_failure_sticks(s, i + 1, s.len() as int);
                }
                return Err(LexError::CannotStartStringInOtherToken(i));
            }
            let tok = Token { kind: TokenKind::DoubleQuoteStart, value: None };
            proof {
                lemma_views_push(done@, tok);
            }
            done.push(tok);
            in_string = true;
        } else if c == ' ' || c == '\t' || c == '\n' || c == '\r' {
            flush(&chars, kind, start, i, &mut done);
            kind = None;
        } else if p.is_some() {
            flush(&chars, kind, start, i, &mut done);
            let tok = Token { kind: p.unwrap(), value: None };
            proof {
                lemma_views_push(done@, tok);
            }
            done.push(tok);
            kind = None;
            assert(views(done@) =~= st.done + flushed(st.pending) + seq![plain(punct_kind(c)->0)]);
        } else if ('a' <= c && c <= 'z') || ('A' <= c && c <= 'Z') || c == '_' {
            if kind != Some(TokenKind::Ident) {
                flush(&chars, kind, start, i, &mut done);
                kind = Some(TokenKind::Ident);
                start = i;
                assert(s.subrange(i as int, i + 1) =~= seq![c]);
            }
        } else if '0' <= c && c <= '9' {
            if kind.is_none() {
                kind = Some(TokenKind::Number);
                start = i;
                assert(s.subrange(i as int, i + 1) =~= seq![c]);
            }
        } else {
            proof {
                lemma_failure_sticks(s, i + 1, s.len() as int);
            }
            return Err(LexError::UnexpectedChar(c, i));
        }
        i += 1;
    }
    if in_string {
        return Err(LexError::UnterminatedString(n));
    }
    flush(&chars, kind, start, n, &mut done);
    Ok(done)
}

/// A text made of digits alone is one number token whose text is the whole input.
pub proof fn lemma_digits_are_one_number(s: Seq<char>)
    requires
        s.len() > 0,
        forall|k: int| 0 <= k < s.len() ==> is_digit(#[trigger] s[k]),
    ensures
        lex(s) == Ok::<Seq<TokV>, LexError>(
            seq![TokV { kind: TokenKind::Number, value: Some(s) }],
        ),
{
    lemma_digit_prefix(s, s.len() as int);
    assert(s.subrange(0, s.len() as int) =~= s);
    assert(seq![] + flushed(scan(s, s.len() as int).pending) =~= seq![
        TokV { kind: TokenKind::Number, value: Some(s) },
    ]);
}

proof fn lemma_digit_prefix(s: Seq<char>, n: int)
    requires
        0 < n <= s.len(),
        forall|k: int| 0 <= k < s.len() ==> is_digit(#[trigger] s[k]),
    ensures
        scan(s, n) == (LexState {
            done: seq![],
            pending: Some((TokenKind::Number, s.subrange(0, n))),
            in_string: false,
            failed: None,
        }),
    decreases n,
{
    let c = s[n - 1];
    assert(is_digit(c));
    if n == 1 {
        assert(s.subrange(0, 1) =~= seq![c]);
    } else {
        lemma_digit_prefix(s, n - 1);
        assert(s.subrange(0, n) =~= s.subrange(0, n - 1).push(c));
    }
}

} // verus!

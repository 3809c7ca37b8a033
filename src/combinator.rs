//! Parser combinators over text.
//!
//! A [`Rule`] describes a parser as a value: a single character, a choice
//! among alternatives, a repetition or an exact word. [`Rule::parse`] runs it
//! on a text and returns the rest of the text with what was recognised.
//! Every alternative of a choice starts from the same position, and the
//! first one that succeeds wins. A repetition stops at the first failure,
//! or at a match that consumes nothing.
//!
//! The primitive parsers ([`digit`], [`unsigned_int`], [`signed_int`],
//! [`float`], [`ident`], [`bool`], [`expr`], [`decl`]) run such rules and
//! turn what was recognised into a value.
use vstd::prelude::*;
use crate::error::{ErrV, ParseErr};
use crate::parser::{digits_value, lemma_digits_value_monotone};
use crate::text::{chars_of, push_char, string_of};
use crate::tokenizer::is_digit;

verus! {

/// A parser, described as a value.
#[derive(Debug)]
pub enum Rule {
    /// Exactly this character.
    Char(char),
    /// The first alternative that succeeds, each tried from the same position.
    AnyOf(Vec<Rule>),
    /// As many matches as there are, possibly none.
    ZeroOrMore(Box<Rule>),
    /// At least one match, then as many as there are.
    OneOrMore(Box<Rule>),
    /// One match, or nothing.
    ZeroOrOne(Box<Rule>),
    /// Exactly this word.
    Keyword(String),
}

/// What a parser recognised.
#[derive(Debug, PartialEq, Eq)]
pub enum ParseObj {
    Char(char),
    Uint(usize),
    Int(isize),
    /// A decimal number: the first field divided by ten to the power of the
    /// second (`4.2` is `Float(42, 1)`).
    Float(isize, usize),
    Keyword(String),
    Ident(String),
    Bool(bool),
    List(Vec<ParseObj>),
    /// A declaration: its name, its type if one was given, and its value.
    Decl(String, Box<Option<ParseObj>>, Box<ParseObj>),
    Empty,
}

/// The mathematical value of a [`ParseObj`].
pub enum ObjV {
    Char(char),
    Uint(usize),
    Int(isize),
    Float(isize, usize),
    Keyword(Seq<char>),
    Ident(Seq<char>),
    Bool(bool),
    List(Seq<ObjV>),
    Decl(Seq<char>, Option<Box<ObjV>>, Box<ObjV>),
    Empty,
}

pub open spec fn obj_view(o: ParseObj) -> ObjV
    decreases o, 0int,
{
    match o {
        ParseObj::Char(c) => ObjV::Char(c),
        ParseObj::Uint(n) => ObjV::Uint(n),
        ParseObj::Int(n) => ObjV::Int(n),
        ParseObj::Float(m, s) => ObjV::Float(m, s),
        ParseObj::Keyword(w) => ObjV::Keyword(w@),
        ParseObj::Ident(w) => ObjV::Ident(w@),
        ParseObj::Bool(b) => ObjV::Bool(b),
        ParseObj::List(v) => ObjV::List(objs_view(v@)),
        ParseObj::Decl(n, ty, v) => ObjV::Decl(
            n@,
            match *ty {
                Some(x) => Some(Box::new(obj_view(x))),
                None => None,
            },
            Box::new(obj_view(*v)),
        ),
        ParseObj::Empty => ObjV::Empty,
    }
}

pub open spec fn objs_view(os: Seq<ParseObj>) -> Seq<ObjV>
    decreases os, 1int,
{
    if os.len() == 0 {
        seq![]
    } else {
        objs_view(os.subrange(0, os.len() - 1)).push(obj_view(os[os.len() - 1]))
    }
}

impl View for ParseObj {
    type V = ObjV;

    open spec fn view(&self) -> ObjV {
        obj_view(*self)
    }
}

proof fn lemma_objs_view_push(os: Seq<ParseObj>, o: ParseObj)
    ensures
        objs_view(os.push(o)) == objs_view(os).push(o@),
{
    assert(os.push(o).subrange(0, os.len() as int) =~= os);
}

/// What an error reports as found at offset `i`.
pub open spec fn found(t: Seq<char>, i: int) -> Seq<char> {
    if 0 <= i < t.len() {
        seq![t[i]]
    } else {
        "nothing"@
    }
}

/// The error of a choice none of whose alternatives matched at `i`.
pub open spec fn no_alternative(t: Seq<char>, i: int) -> ErrV {
    ErrV::Unexpected("one of the alternatives"@, found(t, i), i as u64)
}

/// The outcome of running `r` on `t` from offset `i`: the offset after
/// what was recognised, and its value.
pub open spec fn run(r: Rule, t: Seq<char>, i: int) -> Result<(int, ObjV), ErrV>
    decreases r, t.len() - i, 0int,
{
    match r {
        Rule::Char(c) => {
            if 0 <= i < t.len() && t[i] == c {
                Ok((i + 1, ObjV::Char(c)))
            } else {
                Err(ErrV::Unexpected(seq![c], found(t, i), i as u64))
            }
        },
        Rule::AnyOf(rs) => any_from(rs@, t, i, 0),
        Rule::ZeroOrMore(q) => {
            let (j, vs) = many(*q, t, i);
            Ok((j, ObjV::List(vs)))
        },
        Rule::OneOrMore(q) => match run(*q, t, i) {
            Err(e) => Err(e),
            Ok((j, v)) => {
                if i < j <= t.len() {
                    let (k, vs) = many(*q, t, j);
                    Ok((k, ObjV::List(seq![v] + vs)))
                } else {
                    Ok((j, ObjV::List(seq![v])))
                }
            },
        },
        Rule::ZeroOrOne(q) => match run(*q, t, i) {
            Ok((j, v)) => Ok((j, v)),
            Err(_) => Ok((i, ObjV::Empty)),
        },
        Rule::Keyword(w) => word_from(w@, t, i, 0),
    }
}

/// The first alternative from `rs[k]` on that succeeds at `i`.
pub open spec fn any_from(rs: Seq<Rule>, t: Seq<char>, i: int, k: int) -> Result<(int, ObjV), ErrV>
    decreases rs, 0int, rs.len() - k,
{
    if 0 <= k < rs.len() {
        match run(rs[k], t, i) {
            Ok(x) => Ok(x),
            Err(_) => any_from(rs, t, i, k + 1),
        }
    } else {
        Err(no_alternative(t, i))
    }
}

/// Repeated matches of `q` from `i`, up to the first failure or the first
/// match that consumes nothing.
pub open spec fn many(q: Rule, t: Seq<char>, i: int) -> (int, Seq<ObjV>)
    decreases q, t.len() - i, 1int,
{
    match run(q, t, i) {
        Ok((j, v)) => {
            if i < j <= t.len() {
                let (k, vs) = many(q, t, j);
                (k, seq![v] + vs)
            } else {
                (i, seq![])
            }
        },
        Err(_) => (i, seq![]),
    }
}

/// Matching the word `w` at `i`, its first `k` characters being matched.
pub open spec fn word_from(w: Seq<char>, t: Seq<char>, i: int, k: int) -> Result<(int, ObjV), ErrV>
    decreases w.len() - k,
{
    if k < 0 || k >= w.len() {
        Ok((i + w.len(), ObjV::Keyword(w)))
    } else if 0 <= i + k < t.len() && t[i + k] == w[k] {
        word_from(w, t, i, k + 1)
    } else {
        Err(ErrV::Unexpected(seq![w[k]], found(t, i + k), (i + k) as u64))
    }
}

/// The one-character string `c`.
fn char_string(c: char) -> (r: String)
    ensures
        r@ == seq![c],
{
    let mut s = String::new();
    push_char(&mut s, c);
    s
}

fn found_text(t: &Vec<char>, i: usize) -> (r: String)
    ensures
        r@ == found(t@, i as int),
{
    if i < t.len() {
        char_string(t[i])
    } else {
        String::from_str("nothing")
    }
}

fn no_alternative_err(t: &Vec<char>, i: usize) -> (r: ParseErr)
    ensures
        r@ == no_alternative(t@, i as int),
{
    ParseErr::Unexpected(String::from_str("one of the alternatives"), found_text(t, i), i as u64)
}

/// Runs `r` on `t` from offset `i`.
fn run_at(r: &Rule, t: &Vec<char>, i: usize) -> (res: Result<(usize, ParseObj), ParseErr>)
    requires
        i <= t@.len(),
    ensures
        match res {
            Ok((j, o)) => i <= j <= t@.len() && run(*r, t@, i as int) == Ok::<(int, ObjV), ErrV>(
                (j as int, o@),
            ),
            Err(e) => run(*r, t@, i as int) == Err::<(int, ObjV), ErrV>(e@),
        },
    decreases r, t@.len() - i, 0int,
{
    match r {
        Rule::Char(c) => {
            if i < t.len() && t[i] == *c {
                Ok((i + 1, ParseObj::Char(*c)))
            } else {
                Err(ParseErr::Unexpected(char_string(*c), found_text(t, i), i as u64))
            }
        },
        Rule::AnyOf(rs) => any_at(rs, t, i),
        Rule::ZeroOrMore(q) => {
            let mut vs: Vec<ParseObj> = Vec::new();
            let j = many_into(q, t, i, &mut vs);
            assert(objs_view(vs@) =~= seq![] + many(**q, t@, i as int).1);
            Ok((j, ParseObj::List(vs)))
        },
        Rule::OneOrMore(q) => match run_at(q, t, i) {
            Err(e) => Err(e),
            Ok((j, v)) => {
                let mut first: Vec<ParseObj> = Vec::new();
                proof {
                    lemma_objs_view_push(first@, v);
                    assert(objs_view(first@) =~= seq![]);
                }
                first.push(v);
                if i < j {
                    let k = many_into(q, t, j, &mut first);
                    assert(seq![v@] + many(**q, t@, j as int).1 =~= objs_view(first@));
                    Ok((k, ParseObj::List(first)))
                } else {
                    Ok((j, ParseObj::List(first)))
                }
            },
        },
        Rule::ZeroOrOne(q) => match run_at(q, t, i) {
            Ok((j, v)) => Ok((j, v)),
            Err(_) => Ok((i, ParseObj::Empty)),
        },
        Rule::Keyword(w) => word_at(w, t, i),
    }
}

/// Tries the alternatives `rs` in order from offset `i`, as [`any_from`] says.
fn any_at(rs: &Vec<Rule>, t: &Vec<char>, i: usize) -> (res: Result<(usize, ParseObj), ParseErr>)
    requires
        i <= t@.len(),
    ensures
        match res {
            Ok((j, o)) => i <= j <= t@.len() && any_from(rs@, t@, i as int, 0) == Ok::<
                (int, ObjV),
                ErrV,
            >((j as int, o@)),
            Err(e) => any_from(rs@, t@, i as int, 0) == Err::<(int, ObjV), ErrV>(e@),
        },
    decreases rs, 0int, 0int,
{
    let mut k: usize = 0;
    while k < rs.len()
        invariant
            i <= t@.len(),
            0 <= k <= rs@.len(),
            any_from(rs@, t@, i as int, 0) == any_from(rs@, t@, i as int, k as int),
        decreases rs@.len() - k,
    {
        assert(decreases_to!(rs => rs[k as int]));
        match run_at(&rs[k], t, i) {
            Ok(x) => {
                return Ok(x);
            },
            Err(_) => {},
        }
        k += 1;
    }
    Err(no_alternative_err(t, i))
}

/// Matches the word `w` at offset `i`, as [`word_from`] says.
fn word_at(w: &String, t: &Vec<char>, i: usize) -> (res: Result<(usize, ParseObj), ParseErr>)
    requires
        i <= t@.len(),
    ensures
        match res {
            Ok((j, o)) => i <= j <= t@.len() && word_from(w@, t@, i as int, 0) == Ok::<
                (int, ObjV),
                ErrV,
            >((j as int, o@)),
            Err(e) => word_from(w@, t@, i as int, 0) == Err::<(int, ObjV), ErrV>(e@),
        },
{
    let wc = chars_of(w.as_str());
    let n = t.len();
    let mut k: usize = 0;
    while k < wc.len()
        invariant
            n == t@.len(),
            i <= t@.len(),
            wc@ == w@,
            0 <= k <= wc@.len(),
            i + k <= t@.len(),
            word_from(w@, t@, i as int, 0) == word_from(w@, t@, i as int, k as int),
        decreases wc@.len() - k,
    {
        if i + k < n && t[i + k] == wc[k] {
            k += 1;
        } else {
            return Err(
                ParseErr::Unexpected(char_string(wc[k]), found_text(t, i + k), (i + k) as u64),
            );
        }
    }
    Ok((i + k, ParseObj::Keyword(w.clone())))
}

/// Runs `q` repeatedly from `i`, as [`many`] says, appending what it
/// recognises to `acc`; returns the offset where it stopped.
fn many_into(q: &Rule, t: &Vec<char>, i: usize, acc: &mut Vec<ParseObj>) -> (res: usize)
    requires
        i <= t@.len(),
    ensures
        i <= res <= t@.len(),
        many(*q, t@, i as int).0 == res as int,
        objs_view(final(acc)@) == objs_view(old(acc)@) + many(*q, t@, i as int).1,
    decreases q, t@.len() - i, 1int,
{
    let mut p = i;
    assert(objs_view(acc@) =~= objs_view(old(acc)@) + seq![]);
    loop
        invariant
            i <= p <= t@.len(),
            many(*q, t@, i as int).0 == many(*q, t@, p as int).0,
            objs_view(old(acc)@) + many(*q, t@, i as int).1 == objs_view(acc@) + many(
                *q,
                t@,
                p as int,
            ).1,
        decreases t@.len() - p,
    {
        match run_at(q, t, p) {
            Ok((j, v)) => {
                if p < j {
                    let ghost before = objs_view(acc@);
                    proof {
                        lemma_objs_view_push(acc@, v);
                        assert(before + (seq![v@] + many(*q, t@, j as int).1) =~= before.push(v@)
                            + many(*q, t@, j as int).1);
                    }
                    acc.push(v);
                    p = j;
                } else {
                    assert(objs_view(acc@) + seq![] =~= objs_view(acc@));
                    return p;
                }
            },
            Err(_) => {
                assert(objs_view(acc@) + seq![] =~= objs_view(acc@));
                return p;
            },
        }
    }
}

/// The rule for exactly the character `c`.
pub fn parse_char(c: char) -> (r: Rule)
    ensures
        r == Rule::Char(c),
{
    Rule::Char(c)
}

/// The rule that tries `parsers` in order, each from the same position.
pub fn any_of(parsers: Vec<Rule>) -> (r: Rule)
    ensures
        r == Rule::AnyOf(parsers),
{
    Rule::AnyOf(parsers)
}

/// The rule that repeats `parser` as often as it matches, possibly never.
pub fn zero_or_more(parser: Rule) -> (r: Rule)
    ensures
        r == Rule::ZeroOrMore(Box::new(parser)),
{
    Rule::ZeroOrMore(Box::new(parser))
}

/// The rule that repeats `parser` as often as it matches, at least once.
pub fn one_or_more(parser: Rule) -> (r: Rule)
    ensures
        r == Rule::OneOrMore(Box::new(parser)),
{
    Rule::OneOrMore(Box::new(parser))
}

/// The rule that matches `parser` once or not at all.
pub fn zero_or_one(parser: Rule) -> (r: Rule)
    ensures
        r == Rule::ZeroOrOne(Box::new(parser)),
{
    Rule::ZeroOrOne(Box::new(parser))
}

/// The rule for exactly the word `word`.
pub fn keyword(word: &str) -> (r: Rule)
    ensures
        r is Keyword,
        r->Keyword_0@ == word@,
{
    Rule::Keyword(String::from_str(word))
}

/// Whether `r` is a choice among the single characters `cs`, in that order.
pub open spec fn is_class_rule(r: Rule, cs: Seq<char>) -> bool {
    &&& r is AnyOf
    &&& r->AnyOf_0@.len() == cs.len()
    &&& forall|k: int| 0 <= k < cs.len() ==> r->AnyOf_0@[k] == Rule::Char(#[trigger] cs[k])
}

fn same_char(c: char) -> (r: char)
    ensures
        r == c,
{
    c
}

/// The rule for any one of the characters of `chars`.
pub fn parse_chars(chars: &str) -> (r: Rule)
    ensures
        is_class_rule(r, chars@),
{
    let cs = chars_of(chars);
    let mut rs: Vec<Rule> = Vec::new();
    let mut k: usize = 0;
    while k < cs.len()
        invariant
            cs@ == chars@,
            0 <= k <= cs@.len(),
            rs@.len() == k,
            forall|m: int| 0 <= m < k ==> rs@[m] == Rule::Char(#[trigger] cs@[m]),
        decreases cs@.len() - k,
    {
        let c = same_char(cs[k]);
        rs.push(Rule::Char(c));
        k += 1;
    }
    Rule::AnyOf(rs)
}

/// The characters that count as white space.
pub open spec fn space_chars() -> Seq<char> {
    " \t\n"@
}

/// The rule for one white-space character.
pub fn any_whitespace() -> (r: Rule)
    ensures
        is_class_rule(r, space_chars()),
{
    parse_chars(" \t\n")
}

/// The rule for a run of white space, possibly empty.
pub fn whitespace() -> (r: Rule)
    ensures
        r is ZeroOrMore,
        is_class_rule(*r->ZeroOrMore_0, space_chars()),
{
    zero_or_more(any_whitespace())
}

/// Whether `res` is what a text-level parser returns on `t` when the
/// outcome from offset 0 is `out`: the rest of the text and the value, or
/// the error.
pub open spec fn answers(
    res: Result<(String, ParseObj), ParseErr>,
    t: Seq<char>,
    out: Result<(int, ObjV), ErrV>,
) -> bool {
    match out {
        Ok((j, v)) => res is Ok && res->Ok_0.0@ == t.subrange(j, t.len() as int) && res->Ok_0.1@
            == v,
        Err(e) => res is Err && res->Err_0@ == e,
    }
}

/// Turns an outcome at an offset of `t` into the rest of the text and the value.
fn answer(t: &Vec<char>, out: Result<(usize, ParseObj), ParseErr>) -> (res: Result<
    (String, ParseObj),
    ParseErr,
>)
    requires
        out is Ok ==> out->Ok_0.0 <= t@.len(),
    ensures
        match out {
            Ok((j, v)) => res is Ok && res->Ok_0.0@ == t@.subrange(j as int, t@.len() as int)
                && res->Ok_0.1@ == v@,
            Err(e) => res is Err && res->Err_0@ == e@,
        },
{
    match out {
        Ok((j, v)) => Ok((string_of(t.as_slice(), j, t.len()), v)),
        Err(e) => Err(e),
    }
}

impl Rule {
    /// Runs the rule on `input`; on success returns the rest of the input
    /// and what was recognised.
    pub fn parse(&self, input: &str) -> (r: Result<(String, ParseObj), ParseErr>)
        ensures
            answers(r, input@, run(*self, input@, 0)),
    {
        let t = chars_of(input);
        answer(&t, run_at(self, &t, 0))
    }
}

/// The length of the run of characters of `cs` that starts at `i`.
pub open spec fn class_len(t: Seq<char>, i: int, cs: Seq<char>) -> nat
    decreases t.len() - i,
{
    if 0 <= i < t.len() && cs.contains(t[i]) {
        1 + class_len(t, i + 1, cs)
    } else {
        0
    }
}

/// One `Char` value for each of `s`.
pub open spec fn char_objs(s: Seq<char>) -> Seq<ObjV>
    decreases s.len(),
{
    if s.len() == 0 {
        seq![]
    } else {
        seq![ObjV::Char(s[0])] + char_objs(s.subrange(1, s.len() as int))
    }
}

proof fn lemma_class_any_from(r: Rule, cs: Seq<char>, t: Seq<char>, i: int, k: int)
    requires
        is_class_rule(r, cs),
        0 <= k <= cs.len(),
    ensures
        any_from(r->AnyOf_0@, t, i, k) == (if 0 <= i < t.len() && cs.subrange(k, cs.len() as int).contains(
            t[i],
        ) {
            Ok::<(int, ObjV), ErrV>((i + 1, ObjV::Char(t[i])))
        } else {
            Err(no_alternative(t, i))
        }),
    decreases cs.len() - k,
{
    let rs = r->AnyOf_0@;
    let tail = cs.subrange(k, cs.len() as int);
    if k < cs.len() {
        assert(rs[k] == Rule::Char(cs[k]));
        lemma_class_any_from(r, cs, t, i, k + 1);
        let tail2 = cs.subrange(k + 1, cs.len() as int);
        assert(tail =~= seq![cs[k]] + tail2);
        if 0 <= i < t.len() {
            if t[i] == cs[k] {
                assert(tail[0] == t[i]);
                assert(run(rs[k], t, i) == Ok::<(int, ObjV), ErrV>((i + 1, ObjV::Char(t[i]))));
                assert(any_from(rs, t, i, k) == Ok::<(int, ObjV), ErrV>((i + 1, ObjV::Char(t[i]))));
            } else {
                assert(run(rs[k], t, i) is Err);
                assert(any_from(rs, t, i, k) == any_from(rs, t, i, k + 1));
                if tail.contains(t[i]) {
                    let m = choose|m: int| 0 <= m < tail.len() && tail[m] == t[i];
                    assert(m > 0);
                    assert(tail2[m - 1] == t[i]);
                }
                if tail2.contains(t[i]) {
                    let m = choose|m: int| 0 <= m < tail2.len() && tail2[m] == t[i];
                    assert(tail[m + 1] == t[i]);
                }
            }
        } else {
            assert(run(rs[k], t, i) is Err);
        }
    } else {
        assert(!tail.contains(t[i]));
    }
}

/// A choice among single characters matches one character exactly when it
/// is one of them.
proof fn lemma_class_run(r: Rule, cs: Seq<char>, t: Seq<char>, i: int)
    requires
        is_class_rule(r, cs),
    ensures
        run(r, t, i) == (if 0 <= i < t.len() && cs.contains(t[i]) {
            Ok::<(int, ObjV), ErrV>((i + 1, ObjV::Char(t[i])))
        } else {
            Err(no_alternative(t, i))
        }),
{
    lemma_class_any_from(r, cs, t, i, 0);
    assert(cs.subrange(0, cs.len() as int) =~= cs);
}

/// Repeating a choice among single characters takes the whole run of them.
proof fn lemma_class_many(r: Rule, cs: Seq<char>, t: Seq<char>, i: int)
    requires
        is_class_rule(r, cs),
        0 <= i <= t.len(),
    ensures
        i + class_len(t, i, cs) <= t.len(),
        many(r, t, i) == (i + class_len(t, i, cs), char_objs(
            t.subrange(i, i + class_len(t, i, cs)),
        )),
    decreases t.len() - i,
{
    lemma_class_run(r, cs, t, i);
    if i < t.len() && cs.contains(t[i]) {
        lemma_class_many(r, cs, t, i + 1);
        let m = class_len(t, i + 1, cs) as int;
        assert(t.subrange(i, i + 1 + m).subrange(1, 1 + m) =~= t.subrange(i + 1, i + 1 + m));
    } else {
        assert(char_objs(t.subrange(i, i)) =~= seq![]);
    }
}

/// One or more of a choice among single characters takes the whole run of
/// them, which must not be empty.
proof fn lemma_class_one_or_more(q: Rule, cs: Seq<char>, t: Seq<char>, i: int)
    requires
        is_class_rule(q, cs),
        0 <= i <= t.len(),
    ensures
        i + class_len(t, i, cs) <= t.len(),
        run(Rule::OneOrMore(Box::new(q)), t, i) == (if class_len(t, i, cs) == 0 {
            Err(no_alternative(t, i))
        } else {
            Ok::<(int, ObjV), ErrV>(
                (
                    i + class_len(t, i, cs),
                    ObjV::List(char_objs(t.subrange(i, i + class_len(t, i, cs)))),
                ),
            )
        }),
{
    lemma_class_run(q, cs, t, i);
    lemma_class_many(q, cs, t, i);
    if class_len(t, i, cs) > 0 {
        lemma_class_many(q, cs, t, i + 1);
        let m = class_len(t, i + 1, cs) as int;
        assert(t.subrange(i, i + 1 + m).subrange(1, 1 + m) =~= t.subrange(i + 1, i + 1 + m));
    }
}

/// The decimal digits.
pub open spec fn digit_chars() -> Seq<char> {
    "0123456789"@
}

/// The characters of an identifier.
pub open spec fn ident_chars() -> Seq<char> {
    "abcdefghijklmnopqrstuvwxyzABCDEFGHIJKLMNOPQRSTUVWXYZ_"@
}

/// The error of a number that does not fit its type.
pub open spec fn too_large() -> ErrV {
    ErrV::Unknown("number too large"@)
}

/// Whether `res` carries the outcome `out`, offsets included.
pub open spec fn outcome(
    res: Result<(usize, ParseObj), ParseErr>,
    out: Result<(int, ObjV), ErrV>,
) -> bool {
    match out {
        Ok((j, v)) => res is Ok && res->Ok_0.0 == j && res->Ok_0.1@ == v,
        Err(e) => res is Err && res->Err_0@ == e,
    }
}

/// One decimal digit at `i`.
pub open spec fn digit_at(t: Seq<char>, i: int) -> Result<(int, ObjV), ErrV> {
    if 0 <= i < t.len() && digit_chars().contains(t[i]) {
        Ok((i + 1, ObjV::Char(t[i])))
    } else {
        Err(no_alternative(t, i))
    }
}

/// The run of digits at `i` as an unsigned number.
pub open spec fn unsigned_at(t: Seq<char>, i: int) -> Result<(int, ObjV), ErrV> {
    let m = class_len(t, i, digit_chars());
    let v = digits_value(t.subrange(i, i + m));
    if m == 0 {
        Err(no_alternative(t, i))
    } else if v > usize::MAX {
        Err(too_large())
    } else {
        Ok((i + m, ObjV::Uint(v as usize)))
    }
}

/// Whether a `-` stands at `i`.
pub open spec fn minus_at(t: Seq<char>, i: int) -> bool {
    0 <= i < t.len() && t[i] == '-'
}

/// The magnitude `v` with the sign, when it fits in an `isize`.
pub open spec fn signed_value(neg: bool, v: nat) -> Option<isize> {
    if neg && v <= isize::MAX + 1 {
        Some((-v) as isize)
    } else if !neg && v <= isize::MAX {
        Some(v as isize)
    } else {
        None
    }
}

/// An optional `-` and a run of digits at `i`, as a signed number.
pub open spec fn signed_at(t: Seq<char>, i: int) -> Result<(int, ObjV), ErrV> {
    let s = if minus_at(t, i) { i + 1 } else { i };
    let m = class_len(t, s, digit_chars());
    if m == 0 {
        Err(no_alternative(t, s))
    } else {
        match signed_value(minus_at(t, i), digits_value(t.subrange(s, s + m))) {
            Some(n) => Ok((s + m, ObjV::Int(n))),
            None => Err(too_large()),
        }
    }
}

/// An optional `-`, digits, `.` and digits at `i`, as a decimal number.
pub open spec fn float_at(t: Seq<char>, i: int) -> Result<(int, ObjV), ErrV> {
    let s = if minus_at(t, i) { i + 1 } else { i };
    let m1 = class_len(t, s, digit_chars());
    let p = s + m1;
    let m2 = class_len(t, p + 1, digit_chars());
    if m1 == 0 {
        Err(no_alternative(t, s))
    } else if !(p < t.len() && t[p] == '.') {
        Err(ErrV::Unexpected(seq!['.'], found(t, p), p as u64))
    } else if m2 == 0 {
        Err(no_alternative(t, p + 1))
    } else {
        let digits = t.subrange(s, p) + t.subrange(p + 1, p + 1 + m2);
        match signed_value(minus_at(t, i), digits_value(digits)) {
            Some(n) => Ok((p + 1 + m2, ObjV::Float(n, m2 as usize))),
            None => Err(too_large()),
        }
    }
}

/// The run of identifier characters at `i`.
pub open spec fn ident_at(t: Seq<char>, i: int) -> Result<(int, ObjV), ErrV> {
    let m = class_len(t, i, ident_chars());
    if m == 0 {
        Err(no_alternative(t, i))
    } else {
        Ok((i + m, ObjV::Ident(t.subrange(i, i + m))))
    }
}

/// Whether `w` is spelled at offset `i` of `t`.
pub open spec fn spelled_at(t: Seq<char>, i: int, w: Seq<char>) -> bool {
    0 <= i && i + w.len() <= t.len() && t.subrange(i, i + w.len()) == w
}

/// `true` or `false` at `i`.
pub open spec fn bool_at(t: Seq<char>, i: int) -> Result<(int, ObjV), ErrV> {
    if spelled_at(t, i, "true"@) {
        Ok((i + "true"@.len(), ObjV::Bool(true)))
    } else if spelled_at(t, i, "false"@) {
        Ok((i + "false"@.len(), ObjV::Bool(false)))
    } else {
        Err(no_alternative(t, i))
    }
}

/// A boolean, else a signed number, else an identifier, at `i`.
pub open spec fn expr_text_at(t: Seq<char>, i: int) -> Result<(int, ObjV), ErrV> {
    match bool_at(t, i) {
        Ok(x) => Ok(x),
        Err(_) => match signed_at(t, i) {
            Ok(x) => Ok(x),
            Err(_) => match ident_at(t, i) {
                Ok(x) => Ok(x),
                Err(_) => Err(no_alternative(t, i)),
            },
        },
    }
}

/// The offset after the white space at `i`.
pub open spec fn skip_space(t: Seq<char>, i: int) -> int {
    i + class_len(t, i, space_chars())
}

/// The declaration `name [: type] = value` at `i`, white space allowed
/// before the name, around the `:` and after the `=`.
pub open spec fn decl_text_at(t: Seq<char>, i: int) -> Result<(int, ObjV), ErrV> {
    let a = skip_space(t, i);
    match ident_at(t, a) {
        Err(e) => Err(e),
        Ok((b, name)) => {
            let c = skip_space(t, b);
            let typed = c < t.len() && t[c] == ':';
            let ty = expr_text_at(t, skip_space(t, c + 1));
            if typed && ty is Err {
                Err(ty->Err_0)
            } else {
                let d = if typed { skip_space(t, ty->Ok_0.0) } else { c };
                if !(0 <= d < t.len() && t[d] == '=') {
                    Err(ErrV::Unexpected(seq!['='], found(t, d), d as u64))
                } else {
                    match expr_text_at(t, skip_space(t, d + 1)) {
                        Err(e) => Err(e),
                        Ok((g, v)) => Ok(
                            (
                                g,
                                ObjV::Decl(
                                    name->Ident_0,
                                    if typed {
                                        Some(Box::new(ty->Ok_0.1))
                                    } else {
                                        None
                                    },
                                    Box::new(v),
                                ),
                            ),
                        ),
                    }
                }
            }
        },
    }
}

proof fn lemma_class_len_bounds(t: Seq<char>, i: int, cs: Seq<char>)
    requires
        0 <= i <= t.len(),
    ensures
        i + class_len(t, i, cs) <= t.len(),
        forall|k: int| i <= k < i + class_len(t, i, cs) ==> cs.contains(#[trigger] t[k]),
        i + class_len(t, i, cs) < t.len() ==> !cs.contains(t[i + class_len(t, i, cs)]),
    decreases t.len() - i,
{
    if i < t.len() && cs.contains(t[i]) {
        lemma_class_len_bounds(t, i + 1, cs);
    }
}

proof fn lemma_digit_chars(c: char)
    requires
        digit_chars().contains(c),
    ensures
        is_digit(c),
{
    reveal_strlit("0123456789");
    let d = digit_chars();
    let m = choose|m: int| 0 <= m < d.len() && d[m] == c;
    assert(d[0] == '0' && d[1] == '1' && d[2] == '2' && d[3] == '3' && d[4] == '4');
    assert(d[5] == '5' && d[6] == '6' && d[7] == '7' && d[8] == '8' && d[9] == '9');
}

proof fn lemma_word_from(w: Seq<char>, t: Seq<char>, i: int, k: int)
    requires
        0 <= i <= t.len(),
        0 <= k <= w.len(),
        forall|j: int| 0 <= j < k ==> i + j < t.len() && #[trigger] t[i + j] == w[j],
    ensures
        word_from(w, t, i, k) is Ok <==> spelled_at(t, i, w),
        spelled_at(t, i, w) ==> word_from(w, t, i, k) == Ok::<(int, ObjV), ErrV>(
            (i + w.len(), ObjV::Keyword(w)),
        ),
    decreases w.len() - k,
{
    if k < w.len() {
        if i + k < t.len() && t[i + k] == w[k] {
            lemma_word_from(w, t, i, k + 1);
        } else {
            if spelled_at(t, i, w) {
                assert(t.subrange(i, i + w.len())[k] == w[k]);
            }
        }
    } else {
        if w.len() > 0 {
            assert(t[i + (w.len() - 1)] == w[w.len() - 1]);
        }
        assert forall|j: int| 0 <= j < w.len() implies t.subrange(i, i + w.len())[j] == w[j] by {
            assert(t[i + j] == w[j]);
        }
        assert(t.subrange(i, i + w.len()) =~= w);
    }
}

/// Runs one or more of the characters of `cs` from `i`; returns where the
/// run ends.
fn class_span(cs: &str, t: &Vec<char>, i: usize) -> (r: Result<usize, ParseErr>)
    requires
        i <= t@.len(),
    ensures
        i + class_len(t@, i as int, cs@) <= t@.len(),
        match r {
            Ok(j) => class_len(t@, i as int, cs@) > 0 && j == i + class_len(t@, i as int, cs@),
            Err(e) => class_len(t@, i as int, cs@) == 0 && e@ == no_alternative(t@, i as int),
        },
{
    let q = parse_chars(cs);
    let rule = one_or_more(q);
    proof {
        lemma_class_one_or_more(q, cs@, t@, i as int);
    }
    match run_at(&rule, t, i) {
        Ok((j, _)) => Ok(j),
        Err(e) => Err(e),
    }
}

/// The value of the digits `t[from..to]`, when it fits in a `usize`.
fn digits_to_usize(t: &Vec<char>, from: usize, to: usize) -> (r: Option<usize>)
    requires
        from <= to <= t@.len(),
        forall|k: int| from <= k < to ==> is_digit(#[trigger] t@[k]),
    ensures
        r == (if digits_value(t@.subrange(from as int, to as int)) <= usize::MAX {
            Some(digits_value(t@.subrange(from as int, to as int)) as usize)
        } else {
            None::<usize>
        }),
{
    let ghost s = t@.subrange(from as int, to as int);
    let mut v: usize = 0;
    let mut k: usize = from;
    while k < to
        invariant
            from <= k <= to <= t@.len(),
            s == t@.subrange(from as int, to as int),
            forall|m: int| from <= m < to ==> is_digit(#[trigger] t@[m]),
            v as int == digits_value(t@.subrange(from as int, k as int)),
        decreases to - k,
    {
        let c = t[k];
        assert(is_digit(t@[k as int]));
        let d = (c as u32 - '0' as u32) as usize;
        assert(t@.subrange(from as int, k + 1).subrange(0, k - from) =~= t@.subrange(
            from as int,
            k as int,
        ));
        if v > (usize::MAX - d) / 10 {
            proof {
                assert(v * 10 + d > usize::MAX) by (nonlinear_arith)
                    requires
                        v > (usize::MAX - d) / 10,
                        0 <= d <= 9,
                ;
                assert forall|m: int| 0 <= m < s.len() implies is_digit(#[trigger] s[m]) by {
                    assert(s[m] == t@[from + m]);
                }
                lemma_digits_value_monotone(s, k + 1 - from);
                assert(s.subrange(0, k + 1 - from) =~= t@.subrange(from as int, k + 1));
            }
            return None;
        }
        assert(v * 10 + d <= usize::MAX) by (nonlinear_arith)
            requires
                v <= (usize::MAX - d) / 10,
                0 <= d <= 9,
        ;
        v = v * 10 + d;
        k += 1;
    }
    Some(v)
}

fn too_large_err() -> (r: ParseErr)
    ensures
        r@ == too_large(),
{
    ParseErr::Unknown(String::from_str("number too large"))
}

/// Reads one decimal digit at `i`.
fn read_digit(t: &Vec<char>, i: usize) -> (r: Result<(usize, ParseObj), ParseErr>)
    requires
        i <= t@.len(),
    ensures
        outcome(r, digit_at(t@, i as int)),
        r is Ok ==> r->Ok_0.0 <= t@.len(),
{
    let rule = parse_chars("0123456789");
    proof {
        lemma_class_run(rule, digit_chars(), t@, i as int);
    }
    run_at(&rule, t, i)
}

/// Reads an unsigned number at `i`.
fn read_unsigned(t: &Vec<char>, i: usize) -> (r: Result<(usize, ParseObj), ParseErr>)
    requires
        i <= t@.len(),
    ensures
        outcome(r, unsigned_at(t@, i as int)),
        r is Ok ==> r->Ok_0.0 <= t@.len(),
{
    let j = match class_span("0123456789", t, i) {
        Ok(j) => j,
        Err(e) => {
            return Err(e);
        },
    };
    proof {
        lemma_class_len_bounds(t@, i as int, digit_chars());
        assert forall|k: int| i <= k < j implies is_digit(#[trigger] t@[k]) by {
            lemma_digit_chars(t@[k]);
        }
    }
    match digits_to_usize(t, i, j) {
        Some(v) => Ok((j, ParseObj::Uint(v))),
        None => Err(too_large_err()),
    }
}

/// The magnitude `v` with the sign, as [`signed_value`] says.
fn apply_sign(neg: bool, v: usize) -> (r: Option<isize>)
    ensures
        r == signed_value(neg, v as nat),
{
    if neg {
        if v <= isize::MAX as usize {
            Some(-(v as isize))
        } else if v == isize::MAX as usize + 1 {
            Some(isize::MIN)
        } else {
            None
        }
    } else if v <= isize::MAX as usize {
        Some(v as isize)
    } else {
        None
    }
}

/// Reads an optional `-` at `i`; returns the offset after it.
fn read_sign(t: &Vec<char>, i: usize) -> (r: usize)
    requires
        i <= t@.len(),
    ensures
        r == if minus_at(t@, i as int) { i + 1 } else { i as int },
{
    let rule = zero_or_one(parse_char('-'));
    proof {
        reveal_with_fuel(run, 2);
    }
    match run_at(&rule, t, i) {
        Ok((j, _)) => j,
        Err(_) => i,
    }
}

/// Reads a signed number at `i`.
fn read_signed(t: &Vec<char>, i: usize) -> (r: Result<(usize, ParseObj), ParseErr>)
    requires
        i <= t@.len(),
    ensures
        outcome(r, signed_at(t@, i as int)),
        r is Ok ==> r->Ok_0.0 <= t@.len(),
{
    let s = read_sign(t, i);
    let neg = s > i;
    let j = match class_span("0123456789", t, s) {
        Ok(j) => j,
        Err(e) => {
            return Err(e);
        },
    };
    proof {
        lemma_class_len_bounds(t@, s as int, digit_chars());
        assert forall|k: int| s <= k < j implies is_digit(#[trigger] t@[k]) by {
            lemma_digit_chars(t@[k]);
        }
    }
    match digits_to_usize(t, s, j) {
        Some(v) => match apply_sign(neg, v) {
            Some(n) => Ok((j, ParseObj::Int(n))),
            None => Err(too_large_err()),
        },
        None => {
            assert(signed_value(neg, digits_value(t@.subrange(s as int, j as int))) is None);
            Err(too_large_err())
        },
    }
}

/// Appends `t[from..to]` to `out`.
fn copy_into(t: &Vec<char>, from: usize, to: usize, out: &mut Vec<char>)
    requires
        from <= to <= t@.len(),
    ensures
        final(out)@ == old(out)@ + t@.subrange(from as int, to as int),
{
    let mut k = from;
    while k < to
        invariant
            from <= k <= to <= t@.len(),
            out@ == old(out)@ + t@.subrange(from as int, k as int),
        decreases to - k,
    {
        out.push(t[k]);
        assert(t@.subrange(from as int, k + 1) =~= t@.subrange(from as int, k as int).push(
            t@[k as int],
        ));
        assert(old(out)@ + t@.subrange(from as int, k + 1) =~= (old(out)@ + t@.subrange(
            from as int,
            k as int,
        )).push(t@[k as int]));
        k += 1;
    }
}

/// Reads a decimal number at `i`.
fn read_float(t: &Vec<char>, i: usize) -> (r: Result<(usize, ParseObj), ParseErr>)
    requires
        i <= t@.len(),
    ensures
        outcome(r, float_at(t@, i as int)),
        r is Ok ==> r->Ok_0.0 <= t@.len(),
{
    let s = read_sign(t, i);
    let neg = s > i;
    let p = match class_span("0123456789", t, s) {
        Ok(j) => j,
        Err(e) => {
            return Err(e);
        },
    };
    match run_at(&parse_char('.'), t, p) {
        Ok(_) => {},
        Err(e) => {
            return Err(e);
        },
    }
    let q = match class_span("0123456789", t, p + 1) {
        Ok(j) => j,
        Err(e) => {
            return Err(e);
        },
    };
    let mut ds: Vec<char> = Vec::new();
    copy_into(t, s, p, &mut ds);
    copy_into(t, p + 1, q, &mut ds);
    let ghost digits = t@.subrange(s as int, p as int) + t@.subrange(p + 1, q as int);
    proof {
        assert(ds@ =~= digits);
        lemma_class_len_bounds(t@, s as int, digit_chars());
        lemma_class_len_bounds(t@, p + 1, digit_chars());
        assert forall|k: int| 0 <= k < ds@.len() implies is_digit(#[trigger] ds@[k]) by {
            if k < p - s {
                assert(ds@[k] == t@[s + k]);
                lemma_digit_chars(t@[s + k]);
            } else {
                assert(ds@[k] == t@[p + 1 + (k - (p - s))]);
                lemma_digit_chars(t@[p + 1 + (k - (p - s))]);
            }
        }
        assert(ds@.subrange(0, ds@.len() as int) =~= digits);
    }
    match digits_to_usize(&ds, 0, ds.len()) {
        Some(v) => match apply_sign(neg, v) {
            Some(n) => Ok((q, ParseObj::Float(n, q - p - 1))),
            None => Err(too_large_err()),
        },
        None => {
            assert(signed_value(neg, digits_value(digits)) is None);
            Err(too_large_err())
        },
    }
}

/// Reads an identifier at `i`.
fn read_ident(t: &Vec<char>, i: usize) -> (r: Result<(usize, ParseObj), ParseErr>)
    requires
        i <= t@.len(),
    ensures
        outcome(r, ident_at(t@, i as int)),
        r is Ok ==> r->Ok_0.0 <= t@.len(),
{
    match class_span("abcdefghijklmnopqrstuvwxyzABCDEFGHIJKLMNOPQRSTUVWXYZ_", t, i) {
        Ok(j) => Ok((j, ParseObj::Ident(string_of(t.as_slice(), i, j)))),
        Err(e) => Err(e),
    }
}

/// Reads `true` or `false` at `i`.
fn read_bool(t: &Vec<char>, i: usize) -> (r: Result<(usize, ParseObj), ParseErr>)
    requires
        i <= t@.len(),
    ensures
        outcome(r, bool_at(t@, i as int)),
        r is Ok ==> r->Ok_0.0 <= t@.len(),
{
    let mut words: Vec<Rule> = Vec::new();
    let kt = keyword("true");
    let kf = keyword("false");
    words.push(kt);
    words.push(kf);
    let rule = any_of(words);
    proof {
        reveal_strlit("true");
        reveal_strlit("false");
        lemma_word_from("true"@, t@, i as int, 0);
        lemma_word_from("false"@, t@, i as int, 0);
        assert(rule->AnyOf_0@[0] == kt);
        assert(rule->AnyOf_0@[1] == kf);
        assert(run(kt, t@, i as int) == word_from("true"@, t@, i as int, 0));
        assert(run(kf, t@, i as int) == word_from("false"@, t@, i as int, 0));
        assert("true"@ != "false"@) by {
            assert("true"@.len() != "false"@.len());
        }
        let rs = rule->AnyOf_0@;
        assert(rs.len() == 2);
        assert(run(rule, t@, i as int) == any_from(rs, t@, i as int, 0));
        assert(any_from(rs, t@, i as int, 2) == Err::<(int, ObjV), ErrV>(no_alternative(t@, i as int)));
        assert(any_from(rs, t@, i as int, 1) == match run(kf, t@, i as int) {
            Ok(x) => Ok(x),
            Err(_) => any_from(rs, t@, i as int, 2),
        });
        assert(any_from(rs, t@, i as int, 0) == match run(kt, t@, i as int) {
            Ok(x) => Ok(x),
            Err(_) => any_from(rs, t@, i as int, 1),
        });
    }
    match run_at(&rule, t, i) {
        Ok((j, ParseObj::Keyword(w))) => {
            let b = w == String::from_str("true");
            Ok((j, ParseObj::Bool(b)))
        },
        Ok(_) => Err(no_alternative_err(t, i)),
        Err(e) => Err(e),
    }
}

/// Reads a boolean, else a signed number, else an identifier, at `i`.
fn read_expr(t: &Vec<char>, i: usize) -> (r: Result<(usize, ParseObj), ParseErr>)
    requires
        i <= t@.len(),
    ensures
        outcome(r, expr_text_at(t@, i as int)),
        r is Ok ==> r->Ok_0.0 <= t@.len(),
{
    if let Ok(x) = read_bool(t, i) {
        return Ok(x);
    }
    if let Ok(x) = read_signed(t, i) {
        return Ok(x);
    }
    if let Ok(x) = read_ident(t, i) {
        return Ok(x);
    }
    Err(no_alternative_err(t, i))
}

/// Skips the white space at `i`.
fn skip_ws(t: &Vec<char>, i: usize) -> (r: usize)
    requires
        i <= t@.len(),
    ensures
        r == skip_space(t@, i as int),
        r <= t@.len(),
{
    let rule = whitespace();
    proof {
        lemma_class_many(*rule->ZeroOrMore_0, space_chars(), t@, i as int);
    }
    match run_at(&rule, t, i) {
        Ok((j, _)) => j,
        Err(_) => i,
    }
}

/// Reads a declaration at `i`, as [`decl_text_at`] says.
fn read_decl(t: &Vec<char>, i: usize) -> (r: Result<(usize, ParseObj), ParseErr>)
    requires
        i <= t@.len(),
    ensures
        outcome(r, decl_text_at(t@, i as int)),
        r is Ok ==> r->Ok_0.0 <= t@.len(),
{
    let a = skip_ws(t, i);
    let (b, name) = match read_ident(t, a) {
        Ok((b, ParseObj::Ident(n))) => (b, n),
        Ok(_) => {
            return Err(no_alternative_err(t, a));
        },
        Err(e) => {
            return Err(e);
        },
    };
    let c = skip_ws(t, b);
    let typed = c < t.len() && t[c] == ':';
    let mut ty: Option<ParseObj> = None;
    let mut d = c;
    if typed {
        let c2 = skip_ws(t, c + 1);
        match read_expr(t, c2) {
            Ok((e2, v)) => {
                ty = Some(v);
                d = skip_ws(t, e2);
            },
            Err(e) => {
                return Err(e);
            },
        }
    }
    if !(d < t.len() && t[d] == '=') {
        return Err(ParseErr::Unexpected(char_string('='), found_text(t, d), d as u64));
    }
    let f = skip_ws(t, d + 1);
    match read_expr(t, f) {
        Ok((g, v)) => Ok((g, ParseObj::Decl(name, Box::new(ty), Box::new(v)))),
        Err(e) => Err(e),
    }
}

/// Parses one decimal digit.
pub fn digit(input: &str) -> (r: Result<(String, ParseObj), ParseErr>)
    ensures
        answers(r, input@, digit_at(input@, 0)),
{
    let t = chars_of(input);
    answer(&t, read_digit(&t, 0))
}

/// Parses an unsigned number: one or more digits.
pub fn unsigned_int(input: &str) -> (r: Result<(String, ParseObj), ParseErr>)
    ensures
        answers(r, input@, unsigned_at(input@, 0)),
{
    let t = chars_of(input);
    answer(&t, read_unsigned(&t, 0))
}

/// Parses a signed number: an optional `-`, then one or more digits.
pub fn signed_int(input: &str) -> (r: Result<(String, ParseObj), ParseErr>)
    ensures
        answers(r, input@, signed_at(input@, 0)),
{
    let t = chars_of(input);
    answer(&t, read_signed(&t, 0))
}

/// Parses a decimal number: a signed number, `.`, and one or more digits.
pub fn float(input: &str) -> (r: Result<(String, ParseObj), ParseErr>)
    ensures
        answers(r, input@, float_at(input@, 0)),
{
    let t = chars_of(input);
    answer(&t, read_float(&t, 0))
}

/// Parses an identifier: one or more letters or underscores.
pub fn ident(input: &str) -> (r: Result<(String, ParseObj), ParseErr>)
    ensures
        answers(r, input@, ident_at(input@, 0)),
{
    let t = chars_of(input);
    answer(&t, read_ident(&t, 0))
}

/// Parses `true` or `false`, tried in that order.
pub fn bool(input: &str) -> (r: Result<(String, ParseObj), ParseErr>)
    ensures
        answers(r, input@, bool_at(input@, 0)),
{
    let t = chars_of(input);
    answer(&t, read_bool(&t, 0))
}

/// Parses a boolean, else a signed number, else an identifier.
pub fn expr(input: &str) -> (r: Result<(String, ParseObj), ParseErr>)
    ensures
        answers(r, input@, expr_text_at(input@, 0)),
{
    let t = chars_of(input);
    answer(&t, read_expr(&t, 0))
}

/// Parses a declaration `name [: type] = value`.
pub fn decl(input: &str) -> (r: Result<(String, ParseObj), ParseErr>)
    ensures
        answers(r, input@, decl_text_at(input@, 0)),
{
    let t = chars_of(input);
    answer(&t, read_decl(&t, 0))
}

} // verus!

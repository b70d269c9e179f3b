//! The parser: tokens to an expression tree, by recursive descent.

use crate::expr::{forms, Form, LispError, LispExpr};
use vstd::prelude::*;
use vstd::slice::slice_subrange;
use vstd::string::*;

verus! {

/// A token as the parser reads it: its text, and the number that the text
/// spells as a floating-point literal, by its bit pattern, if it spells one.
#[derive(Debug, PartialEq)]
pub struct Token {
    pub text: String,
    pub number: Option<u64>,
}

/// The mathematical value of a [`Token`].
pub ghost struct Lexeme {
    pub text: Seq<char>,
    pub number: Option<u64>,
}

impl View for Token {
    type V = Lexeme;

    open spec fn view(&self) -> Lexeme {
        Lexeme { text: self.text@, number: self.number }
    }
}

/// The views of a sequence of tokens, item by item.
pub open spec fn lexemes(tokens: Seq<Token>) -> Seq<Lexeme> {
    Seq::new(tokens.len(), |i: int| tokens[i]@)
}

/// Whether the token is the opening parenthesis.
pub open spec fn is_open(t: Lexeme) -> bool {
    t.text == seq!['(']
}

/// Whether the token is the closing parenthesis.
pub open spec fn is_close(t: Lexeme) -> bool {
    t.text == seq![')']
}

/// What a token that is no parenthesis stands for: the number it spells, or
/// else a symbol with the token's text as it is.
pub open spec fn atom(t: Lexeme) -> Form {
    match t.number {
        Some(n) => Form::Number(n),
        None => Form::Symbol(t.text),
    }
}

/// The reason when there is no token to read.
pub open spec fn no_token() -> Seq<char> {
    "could not get token"@
}

/// The reason when a closing parenthesis stands where an expression should.
pub open spec fn stray_close() -> Seq<char> {
    "unexpected `)`"@
}

/// The reason when the tokens end inside a list.
pub open spec fn no_close() -> Seq<char> {
    "could not find closing `)`"@
}

/// The expression that starts at token `i`, with the position after it.
pub open spec fn parse_at(toks: Seq<Lexeme>, i: int) -> Result<(Form, int), Seq<char>>
    decreases toks.len() - i, 0int,
{
    if i < 0 || i >= toks.len() {
        Err(no_token())
    } else if is_open(toks[i]) {
        seq_at(toks, i + 1, Seq::empty())
    } else if is_close(toks[i]) {
        Err(stray_close())
    } else {
        Ok((atom(toks[i]), i + 1))
    }
}

/// The list whose items so far are `acc` and whose next item, or closing
/// parenthesis, is at token `i`; with the position after the parenthesis.
///
/// An expression always ends after the position it starts at (see
/// [`lemma_parse_advances`]), so the last branch is never taken.
pub open spec fn seq_at(toks: Seq<Lexeme>, i: int, acc: Seq<Form>) -> Result<
    (Form, int),
    Seq<char>,
>
    decreases toks.len() - i, 1int,
{
    if i < 0 || i >= toks.len() {
        Err(no_close())
    } else if is_close(toks[i]) {
        Ok((Form::List(acc), i + 1))
    } else {
        match parse_at(toks, i) {
            Err(e) => Err(e),
            Ok((f, j)) => if i < j <= toks.len() {
                seq_at(toks, j, acc.push(f))
            } else {
                Err(no_close())
            },
        }
    }
}

/// A parsed expression ends after the token it starts at, and within the
/// tokens.
pub proof fn lemma_parse_advances(toks: Seq<Lexeme>, i: int)
    requires
        0 <= i,
    ensures
        parse_at(toks, i) matches Ok((_, j)) ==> i < j <= toks.len(),
    decreases toks.len() - i, 0int,
{
    if i < toks.len() && is_open(toks[i]) {
        lemma_read_advances(toks, i + 1, Seq::empty());
    }
}

/// A list ends after the position its reading starts at, and within the
/// tokens.
pub proof fn lemma_read_advances(toks: Seq<Lexeme>, i: int, acc: Seq<Form>)
    requires
        0 <= i,
    ensures
        seq_at(toks, i, acc) matches Ok((_, j)) ==> i < j <= toks.len(),
    decreases toks.len() - i, 1int,
{
    if i < toks.len() && !is_close(toks[i]) {
        lemma_parse_advances(toks, i);
        if let Ok((f, j)) = parse_at(toks, i) {
            lemma_read_advances(toks, j, acc.push(f));
        }
    }
}

/// What a token adds to the count of lists that are open: one for an
/// opening parenthesis, one less for a closing one.
pub open spec fn weight(t: Lexeme) -> int {
    if is_open(t) {
        1
    } else if is_close(t) {
        -1
    } else {
        0
    }
}

/// By how many the opening parentheses among `toks[i..j]` exceed the closing
/// ones.
pub open spec fn excess(toks: Seq<Lexeme>, i: int, j: int) -> int
    decreases j - i,
{
    if j <= i {
        0
    } else {
        weight(toks[i]) + excess(toks, i + 1, j)
    }
}

proof fn lemma_excess_splits(toks: Seq<Lexeme>, i: int, m: int, j: int)
    requires
        i <= m <= j,
    ensures
        excess(toks, i, j) == excess(toks, i, m) + excess(toks, m, j),
    decreases m - i,
{
    if i < m {
        lemma_excess_splits(toks, i + 1, m, j);
    }
}

/// The tokens of a parsed expression hold as many opening parentheses as
/// closing ones.
pub proof fn lemma_parse_balanced(toks: Seq<Lexeme>, i: int)
    requires
        0 <= i,
    ensures
        parse_at(toks, i) matches Ok((_, j)) ==> excess(toks, i, j) == 0,
    decreases toks.len() - i, 0int,
{
    assert(seq!['('][0] != seq![')'][0]);
    if i < toks.len() {
        lemma_parse_advances(toks, i);
        if let Ok((_, j)) = parse_at(toks, i) {
            assert(excess(toks, i, j) == weight(toks[i]) + excess(toks, i + 1, j));
            if is_open(toks[i]) {
                lemma_seq_balanced(toks, i + 1, Seq::empty());
            } else {
                assert(excess(toks, i + 1, j) == 0);
            }
        }
    }
}

/// The tokens of a list that is read to its end hold one closing
/// parenthesis more than opening ones: the one that closes it.
pub proof fn lemma_seq_balanced(toks: Seq<Lexeme>, i: int, acc: Seq<Form>)
    requires
        0 <= i,
    ensures
        seq_at(toks, i, acc) matches Ok((_, j)) ==> excess(toks, i, j) == -1,
    decreases toks.len() - i, 1int,
{
    assert(seq!['('][0] != seq![')'][0]);
    if i < toks.len() {
        if is_close(toks[i]) {
            assert(excess(toks, i, i + 1) == weight(toks[i]) + excess(toks, i + 1, i + 1));
        } else {
            lemma_parse_advances(toks, i);
            lemma_parse_balanced(toks, i);
            if let Ok((f, m)) = parse_at(toks, i) {
                lemma_read_advances(toks, m, acc.push(f));
                lemma_seq_balanced(toks, m, acc.push(f));
                if let Ok((_, j)) = seq_at(toks, m, acc.push(f)) {
                    lemma_excess_splits(toks, i, m, j);
                }
            }
        }
    }
}

/// Inside a list nothing fails but its end: reading a list, and parsing an
/// expression that does not start with a closing parenthesis, succeeds or
/// fails because a closing parenthesis could not be found.
pub proof fn lemma_only_the_end_fails(toks: Seq<Lexeme>, i: int, acc: Seq<Form>)
    requires
        0 <= i,
    ensures
        seq_at(toks, i, acc) is Ok || seq_at(toks, i, acc) == Err::<(Form, int), Seq<char>>(
            no_close(),
        ),
        i < toks.len() && !is_close(toks[i]) ==> parse_at(toks, i) is Ok || parse_at(toks, i)
            == Err::<(Form, int), Seq<char>>(no_close()),
    decreases toks.len() - i,
{
    if i < toks.len() {
        lemma_only_the_end_fails(toks, i + 1, Seq::empty());
        lemma_parse_advances(toks, i);
        if let Ok((f, j)) = parse_at(toks, i) {
            lemma_only_the_end_fails(toks, j, acc.push(f));
        }
    }
}

/// An opening parenthesis that no closing parenthesis matches fails with the
/// reason that the closing one could not be found: that is, where after it
/// the opening parentheses stay ahead of the closing ones up to the last
/// token.
pub proof fn lemma_unmatched_open(toks: Seq<Lexeme>, i: int)
    requires
        0 <= i < toks.len(),
        is_open(toks[i]),
        forall|j: int| i < j <= toks.len() ==> #[trigger] excess(toks, i, j) > 0,
    ensures
        parse_at(toks, i) == Err::<(Form, int), Seq<char>>(no_close()),
{
    assert(seq!['('][0] != seq![')'][0]);
    lemma_only_the_end_fails(toks, i, Seq::empty());
    lemma_parse_advances(toks, i);
    lemma_parse_balanced(toks, i);
}

/// A closing parenthesis where an expression should start fails as
/// unexpected.
pub proof fn lemma_stray_close(toks: Seq<Lexeme>)
    requires
        toks.len() > 0,
        is_close(toks[0]),
    ensures
        parse_at(toks, 0) == Err::<(Form, int), Seq<char>>(stray_close()),
{
    assert(seq!['('][0] == '(');
    assert(seq![')'][0] == ')');
}

/// What `parse_from` or `read_seq` returns, against the model's answer.
pub open spec fn agrees(
    r: Result<(LispExpr, usize), LispError>,
    m: Result<(Form, int), Seq<char>>,
) -> bool {
    match m {
        Ok((f, j)) => r matches Ok((e, k)) && e@ == f && k == j,
        Err(reason) => r matches Err(e) && e@ == reason,
    }
}

/// Whether the text is the one character `c`.
fn is_single(text: &String, c: char) -> (r: bool)
    ensures
        r == (text@ == seq![c]),
{
    let s = text.as_str();
    if s.unicode_len() == 1 {
        let found = s.get_char(0) == c;
        proof {
            if found {
                assert(text@ =~= seq![c]);
            } else {
                assert(seq![c][0] == c);
            }
        }
        found
    } else {
        proof {
            assert(seq![c].len() == 1);
        }
        false
    }
}

impl Token {
    /// A token with the given text and reading.
    pub fn new(text: String, number: Option<u64>) -> (t: Token)
        ensures
            t@ == (Lexeme { text: text@, number }),
    {
        Token { text, number }
    }
}

/// The atom that a token stands for.
fn parse_atom(tok: &Token) -> (e: LispExpr)
    ensures
        e@ == atom(tok@),
{
    match tok.number {
        Some(n) => LispExpr::Number(n),
        None => LispExpr::Symbol(tok.text.clone()),
    }
}

/// Parses the expression that starts at `tokens[i]`, and returns it with the
/// position after it.
fn parse_from(tokens: &[Token], i: usize) -> (r: Result<(LispExpr, usize), LispError>)
    ensures
        agrees(r, parse_at(lexemes(tokens@), i as int)),
        r matches Ok((_, k)) ==> i < k <= tokens@.len(),
    decreases tokens@.len() - i, 0int,
{
    proof {
        lemma_parse_advances(lexemes(tokens@), i as int);
    }
    if i >= tokens.len() {
        return Err(LispError::new("could not get token"));
    }
    let tok = &tokens[i];
    if is_single(&tok.text, '(') {
        read_seq(tokens, i + 1)
    } else if is_single(&tok.text, ')') {
        Err(LispError::new("unexpected `)`"))
    } else {
        Ok((parse_atom(tok), i + 1))
    }
}

/// Reads expressions from `tokens[start]` on, up to the closing parenthesis,
/// and returns them as a list with the position after the parenthesis.
fn read_seq(tokens: &[Token], start: usize) -> (r: Result<(LispExpr, usize), LispError>)
    requires
        start <= tokens@.len(),
    ensures
        agrees(r, seq_at(lexemes(tokens@), start as int, Seq::empty())),
        r matches Ok((_, k)) ==> start < k <= tokens@.len(),
    decreases tokens@.len() - start, 1int,
{
    let ghost toks = lexemes(tokens@);
    let mut res: Vec<LispExpr> = Vec::new();
    let mut pos: usize = start;
    proof {
        assert(forms(res@) =~= Seq::empty());
    }
    loop
        invariant
            toks == lexemes(tokens@),
            start <= pos <= tokens@.len(),
            seq_at(toks, pos as int, forms(res@)) == seq_at(toks, start as int, Seq::empty()),
        decreases tokens@.len() - pos,
    {
        if pos >= tokens.len() {
            return Err(LispError::new("could not find closing `)`"));
        }
        if is_single(&tokens[pos].text, ')') {
            return Ok((LispExpr::List(res), pos + 1));
        }
        let ghost before = forms(res@);
        match parse_from(tokens, pos) {
            Err(e) => {
                return Err(e);
            },
            Ok((expr, next)) => {
                res.push(expr);
                proof {
                    assert(forms(res@) =~= before.push(expr@));
                }
                pos = next;
            },
        }
    }
}

/// Parses the first expression of `tokens`, and returns it with the tokens
/// that follow it.
///
/// Fails where there is no token, where a closing parenthesis stands in
/// place of an expression, and where a list is not closed.
pub fn parse<'a>(tokens: &'a [Token]) -> (r: Result<(LispExpr, &'a [Token]), LispError>)
    ensures
        match parse_at(lexemes(tokens@), 0) {
            Ok((f, j)) => r matches Ok((e, rest)) && e@ == f && 0 < j <= tokens@.len() && rest@
                == tokens@.subrange(j, tokens@.len() as int),
            Err(reason) => r matches Err(e) && e@ == reason,
        },
{
    match parse_from(tokens, 0) {
        Ok((expr, next)) => Ok((expr, slice_subrange(tokens, next, tokens.len()))),
        Err(e) => Err(e),
    }
}

} // verus!

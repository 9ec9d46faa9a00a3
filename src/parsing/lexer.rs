//! The lexer: source text to a flat sequence of tokens with byte-offset spans.

use vstd::prelude::*;
use crate::data::{LMeta, Lexeme, LexemeView, lexeme_text, lexeme_texts, lexeme_views, push_char};

verus! {

/// Why a text could not be lexed.
#[derive(Debug, Clone, Copy, PartialEq, Eq, Structural)]
pub enum LexError {
    EncounteredEndInString,
    UnexpectedEscapeInString(usize, char),
}

/// Number of bytes that UTF-8 takes for a character.
pub open spec fn utf8_len(c: char) -> nat {
    if (c as u32) < 0x80 {
        1
    } else if (c as u32) < 0x800 {
        2
    } else if (c as u32) < 0x10000 {
        3
    } else {
        4
    }
}

/// Byte offset of the `i`-th character of a text.
pub open spec fn byte_offset(s: Seq<char>, i: int) -> nat
    decreases i,
{
    if i <= 0 {
        0
    } else {
        byte_offset(s, i - 1) + utf8_len(s[i - 1])
    }
}

/// Each character of a text with its byte offset.
pub open spec fn indexed_chars(s: Seq<char>) -> Seq<(usize, char)> {
    Seq::new(s.len(), |i: int| (byte_offset(s, i) as usize, s[i]))
}

/// Relies on `str::char_indices`: each character with the byte offset where it starts.
#[verifier::external_body]
fn char_indices(s: &str) -> (r: Vec<(usize, char)>)
    ensures
        r@ == indexed_chars(s@),
{
    s.char_indices().collect()
}

/// Characters with the Unicode `White_Space` property.
pub open spec fn white_space(c: char) -> bool {
    let u = c as u32;
    (0x09 <= u && u <= 0x0d) || u == 0x20 || u == 0x85 || u == 0xa0 || u == 0x1680 || (0x2000 <= u
        && u <= 0x200a) || u == 0x2028 || u == 0x2029 || u == 0x202f || u == 0x205f || u == 0x3000
}

/// Relies on `char::is_whitespace`: true exactly for the `White_Space` property.
#[verifier::external_body]
fn is_whitespace(c: char) -> (r: bool)
    ensures
        r == white_space(c),
{
    c.is_whitespace()
}

/// Whether a character has the Unicode `Alphabetic` property.
pub uninterp spec fn alphabetic(c: char) -> bool;

/// Whether a character is alphabetic or numeric in Unicode's sense.
pub uninterp spec fn alphanumeric(c: char) -> bool;

/// Whether a character has a Unicode numeric general category.
pub uninterp spec fn numeric(c: char) -> bool;

/// Relies on `char::is_alphabetic`.
#[verifier::external_body]
fn is_alphabetic(c: char) -> (r: bool)
    ensures
        r == alphabetic(c),
{
    c.is_alphabetic()
}

/// Relies on `char::is_alphanumeric`.
#[verifier::external_body]
fn is_alphanumeric(c: char) -> (r: bool)
    ensures
        r == alphanumeric(c),
{
    c.is_alphanumeric()
}

/// Relies on `char::is_numeric`.
#[verifier::external_body]
fn is_numeric(c: char) -> (r: bool)
    ensures
        r == numeric(c),
{
    c.is_numeric()
}

pub open spec fn symbol_start_char(c: char) -> bool {
    alphabetic(c) || c == '_'
}

pub open spec fn symbol_body_char(c: char) -> bool {
    alphanumeric(c) || c == '_'
}

/// The characters that continue a symbol (`symbol`) or a number run.
pub open spec fn run_char(c: char, symbol: bool) -> bool {
    if symbol {
        symbol_body_char(c)
    } else {
        numeric(c)
    }
}

fn symbol_start(c: char) -> (r: bool)
    ensures
        r == symbol_start_char(c),
{
    is_alphabetic(c) || c == '_'
}

fn symbol_char(c: char) -> (r: bool)
    ensures
        r == symbol_body_char(c),
{
    is_alphanumeric(c) || c == '_'
}

fn num_char(c: char) -> (r: bool)
    ensures
        r == numeric(c),
{
    is_numeric(c)
}

/// The first index at or after `j` where the run of `run_char`s stops.
pub open spec fn run_end(ps: Seq<(usize, char)>, j: int, symbol: bool) -> int
    decreases ps.len() - j,
{
    if j < 0 || j >= ps.len() || !run_char(ps[j].1, symbol) {
        j
    } else {
        run_end(ps, j + 1, symbol)
    }
}

/// The first index at or after `j` holding a line break, or the end.
pub open spec fn line_end(ps: Seq<(usize, char)>, j: int) -> int
    decreases ps.len() - j,
{
    if j < 0 || j >= ps.len() || ps[j].1 == '\n' || ps[j].1 == '\r' {
        j
    } else {
        line_end(ps, j + 1)
    }
}

/// The characters of positions `i..j`.
pub open spec fn chars_between(ps: Seq<(usize, char)>, i: int, j: int) -> Seq<char> {
    ps.subrange(i, j).map_values(|p: (usize, char)| p.1)
}

/// What an escape code in a string literal stands for.
pub open spec fn escape_of(c: char) -> Option<char> {
    if c == 't' {
        Some('\t')
    } else if c == 'n' {
        Some('\n')
    } else if c == 'r' {
        Some('\r')
    } else if c == '0' {
        Some('\0')
    } else if c == '\\' {
        Some('\\')
    } else if c == '"' {
        Some('"')
    } else {
        None
    }
}

/// The decoded body of a string literal whose body starts at `j`, with the index of the
/// closing quote.
pub open spec fn scan_string(ps: Seq<(usize, char)>, j: int) -> Result<(Seq<char>, int), LexError>
    decreases ps.len() - j,
{
    if j < 0 || j >= ps.len() {
        Err(LexError::EncounteredEndInString)
    } else if ps[j].1 == '"' {
        Ok((Seq::empty(), j))
    } else if ps[j].1 == '\\' && j + 1 < ps.len() {
        match escape_of(ps[j + 1].1) {
            Some(d) => prefix_text(seq![d], scan_string(ps, j + 2)),
            None => Err(LexError::UnexpectedEscapeInString(ps[j + 1].0, ps[j + 1].1)),
        }
    } else {
        prefix_text(seq![ps[j].1], scan_string(ps, j + 1))
    }
}

pub open spec fn prefix_text(pre: Seq<char>, r: Result<(Seq<char>, int), LexError>) -> Result<
    (Seq<char>, int),
    LexError,
> {
    match r {
        Ok((t, k)) => Ok((pre + t, k)),
        Err(e) => Err(e),
    }
}

/// The token of a bracket character.
pub open spec fn bracket_token(c: char, m: LMeta) -> Option<LexemeView> {
    if c == ')' {
        Some(LexemeView::RParen(m))
    } else if c == '(' {
        Some(LexemeView::LParen(m))
    } else if c == '>' {
        Some(LexemeView::RAngle(m))
    } else if c == '<' {
        Some(LexemeView::LAngle(m))
    } else if c == '}' {
        Some(LexemeView::RCurl(m))
    } else if c == '{' {
        Some(LexemeView::LCurl(m))
    } else if c == ']' {
        Some(LexemeView::RSquare(m))
    } else if c == '[' {
        Some(LexemeView::LSquare(m))
    } else {
        None
    }
}

/// One move of the lexer at position `i` with comment depth `depth`.
pub enum LexStep {
    Skip(int, nat),
    Token(LexemeView, int),
    Fail(LexError),
}

pub open spec fn next_is(ps: Seq<(usize, char)>, i: int, c: char) -> bool {
    i + 1 < ps.len() && ps[i + 1].1 == c
}

pub open spec fn lex_step(ps: Seq<(usize, char)>, i: int, depth: nat) -> LexStep {
    let (off, c) = ps[i];
    if depth > 0 {
        if c == '/' && next_is(ps, i, '*') {
            LexStep::Skip(i + 2, depth + 1)
        } else if c == '*' && next_is(ps, i, '/') {
            LexStep::Skip(i + 2, (depth - 1) as nat)
        } else {
            LexStep::Skip(i + 1, depth)
        }
    } else if white_space(c) {
        LexStep::Skip(i + 1, 0)
    } else if c == '/' && next_is(ps, i, '*') {
        LexStep::Skip(i + 2, 1)
    } else if c == '/' && next_is(ps, i, '/') {
        LexStep::Skip(line_end(ps, i + 2), 0)
    } else if bracket_token(c, LMeta { start: off, end: off }) is Some {
        LexStep::Token(bracket_token(c, LMeta { start: off, end: off })->0, i + 1)
    } else if numeric(c) {
        let e = run_end(ps, i + 1, false);
        LexStep::Token(
            LexemeView::Number(LMeta { start: off, end: ps[e - 1].0 }, chars_between(ps, i, e)),
            e,
        )
    } else if symbol_start_char(c) {
        let e = run_end(ps, i + 1, true);
        LexStep::Token(
            LexemeView::Symbol(LMeta { start: off, end: ps[e - 1].0 }, chars_between(ps, i, e)),
            e,
        )
    } else if c == '"' {
        match scan_string(ps, i + 1) {
            Ok((t, k)) => LexStep::Token(LexemeView::Text(LMeta { start: off, end: ps[k].0 }, t), k + 1),
            Err(e) => LexStep::Fail(e),
        }
    } else {
        LexStep::Token(LexemeView::Punct(LMeta { start: off, end: off }, c), i + 1)
    }
}

pub proof fn lemma_run_end(ps: Seq<(usize, char)>, j: int, symbol: bool)
    ensures
        run_end(ps, j, symbol) >= j,
        0 <= j <= ps.len() ==> run_end(ps, j, symbol) <= ps.len(),
        forall|k: int| j <= k < run_end(ps, j, symbol) ==> run_char(#[trigger] ps[k].1, symbol),
    decreases ps.len() - j,
{
    if 0 <= j < ps.len() && run_char(ps[j].1, symbol) {
        lemma_run_end(ps, j + 1, symbol);
    }
}

pub proof fn lemma_line_end(ps: Seq<(usize, char)>, j: int)
    ensures
        line_end(ps, j) >= j,
        0 <= j <= ps.len() ==> line_end(ps, j) <= ps.len(),
    decreases ps.len() - j,
{
    if 0 <= j < ps.len() && ps[j].1 != '\n' && ps[j].1 != '\r' {
        lemma_line_end(ps, j + 1);
    }
}

pub proof fn lemma_scan_string(ps: Seq<(usize, char)>, j: int)
    ensures
        scan_string(ps, j) matches Ok((_, k)) ==> j <= k < ps.len(),
    decreases ps.len() - j,
{
    if 0 <= j < ps.len() && ps[j].1 != '"' {
        if ps[j].1 == '\\' && j + 1 < ps.len() {
            lemma_scan_string(ps, j + 2);
        } else {
            lemma_scan_string(ps, j + 1);
        }
    }
}

/// Each move of the lexer goes forward.
pub proof fn lemma_step_progress(ps: Seq<(usize, char)>, i: int, depth: nat)
    requires
        0 <= i < ps.len(),
    ensures
        lex_step(ps, i, depth) matches LexStep::Skip(j, _) ==> i < j <= ps.len(),
        lex_step(ps, i, depth) matches LexStep::Token(_, j) ==> i < j <= ps.len(),
{
    lemma_line_end(ps, i + 2);
    lemma_run_end(ps, i + 1, false);
    lemma_run_end(ps, i + 1, true);
    lemma_scan_string(ps, i + 1);
}

pub open spec fn prefix_tokens(pre: Seq<LexemeView>, r: Result<Seq<LexemeView>, LexError>) -> Result<
    Seq<LexemeView>,
    LexError,
> {
    match r {
        Ok(t) => Ok(pre + t),
        Err(e) => Err(e),
    }
}

/// The tokens of the text from position `i` on, at comment depth `depth`.
pub open spec fn lex_from(ps: Seq<(usize, char)>, i: int, depth: nat) -> Result<
    Seq<LexemeView>,
    LexError,
>
    decreases ps.len() - i,
    via lex_from_decreases
{
    if i < 0 || i >= ps.len() {
        Ok(Seq::empty())
    } else {
        match lex_step(ps, i, depth) {
            LexStep::Skip(j, d) => lex_from(ps, j, d),
            LexStep::Token(t, j) => prefix_tokens(seq![t], lex_from(ps, j, 0)),
            LexStep::Fail(e) => Err(e),
        }
    }
}

#[via_fn]
proof fn lex_from_decreases(ps: Seq<(usize, char)>, i: int, depth: nat) {
    if 0 <= i < ps.len() {
        lemma_step_progress(ps, i, depth);
    }
}

/// The tokens of a text, or the error that stops the lexer.
pub open spec fn lex_text(s: Seq<char>) -> Result<Seq<LexemeView>, LexError> {
    lex_from(indexed_chars(s), 0, 0)
}


/// Whether the text from position `i` on, at comment depth `depth`, holds only whitespace,
/// line comments and block comments, with every block comment closed.
pub open spec fn blank_from(ps: Seq<(usize, char)>, i: int, depth: nat) -> bool
    decreases ps.len() - i,
    via blank_from_decreases
{
    if i < 0 || i >= ps.len() {
        depth == 0
    } else {
        let c = ps[i].1;
        if depth > 0 {
            if c == '/' && next_is(ps, i, '*') {
                blank_from(ps, i + 2, depth + 1)
            } else if c == '*' && next_is(ps, i, '/') {
                blank_from(ps, i + 2, (depth - 1) as nat)
            } else {
                blank_from(ps, i + 1, depth)
            }
        } else if white_space(c) {
            blank_from(ps, i + 1, 0)
        } else if c == '/' && next_is(ps, i, '*') {
            blank_from(ps, i + 2, 1)
        } else if c == '/' && next_is(ps, i, '/') {
            blank_from(ps, line_end(ps, i + 2), 0)
        } else {
            false
        }
    }
}

#[via_fn]
proof fn blank_from_decreases(ps: Seq<(usize, char)>, i: int, depth: nat) {
    if 0 <= i < ps.len() {
        lemma_line_end(ps, i + 2);
    }
}

/// Whether a text holds only whitespace and comments.
pub open spec fn blank_text(s: Seq<char>) -> bool {
    blank_from(indexed_chars(s), 0, 0)
}

proof fn lemma_blank_from(ps: Seq<(usize, char)>, i: int, depth: nat)
    requires
        blank_from(ps, i, depth),
    ensures
        lex_from(ps, i, depth) == Ok::<Seq<LexemeView>, LexError>(seq![]),
    decreases ps.len() - i,
{
    if 0 <= i < ps.len() {
        lemma_step_progress(ps, i, depth);
        lemma_line_end(ps, i + 2);
        match lex_step(ps, i, depth) {
            LexStep::Skip(j, d) => {
                lemma_blank_from(ps, j, d);
            },
            _ => {},
        }
    }
}

/// A text of whitespace and comments alone lexes to no tokens.
pub proof fn lemma_blank_text_lexes_empty(s: Seq<char>)
    requires
        blank_text(s),
    ensures
        lex_text(s) == Ok::<Seq<LexemeView>, LexError>(seq![]),
{
    lemma_blank_from(indexed_chars(s), 0, 0);
}

/// What a token read from positions `i..j` stands for: the decoded body of a string literal,
/// or else the source characters.
pub open spec fn token_source(ps: Seq<(usize, char)>, i: int, j: int, t: LexemeView) -> Seq<char> {
    match t {
        LexemeView::Text(_, body) => body,
        _ => chars_between(ps, i, j),
    }
}

/// The characters that the text from position `i` on stands for: nothing for whitespace and
/// comments, the decoded body of each string literal, and the source characters of every other
/// token.
pub open spec fn significant_from(ps: Seq<(usize, char)>, i: int, depth: nat) -> Seq<char>
    decreases ps.len() - i,
    via significant_from_decreases
{
    if i < 0 || i >= ps.len() {
        seq![]
    } else {
        match lex_step(ps, i, depth) {
            LexStep::Skip(j, d) => significant_from(ps, j, d),
            LexStep::Token(t, j) => token_source(ps, i, j, t) + significant_from(ps, j, 0),
            LexStep::Fail(_) => seq![],
        }
    }
}

#[via_fn]
proof fn significant_from_decreases(ps: Seq<(usize, char)>, i: int, depth: nat) {
    if 0 <= i < ps.len() {
        lemma_step_progress(ps, i, depth);
    }
}

/// The characters that a text stands for once whitespace and comments are gone and string
/// literals are decoded.
pub open spec fn significant_text(s: Seq<char>) -> Seq<char> {
    significant_from(indexed_chars(s), 0, 0)
}

proof fn lemma_texts_prepend(t: LexemeView, r: Seq<LexemeView>)
    ensures
        lexeme_texts(seq![t] + r) == lexeme_text(t) + lexeme_texts(r),
    decreases r.len(),
{
    if r.len() == 0 {
        assert(seq![t] + r =~= seq![t]);
        assert(seq![t].drop_last() =~= Seq::<LexemeView>::empty());
        assert(lexeme_texts(seq![t]) == lexeme_texts(seq![t].drop_last()) + lexeme_text(t));
        assert(lexeme_text(t) + lexeme_texts(r) =~= lexeme_text(t));
        assert(Seq::<char>::empty() + lexeme_text(t) =~= lexeme_text(t));
    } else {
        lemma_texts_prepend(t, r.drop_last());
        assert((seq![t] + r).drop_last() =~= seq![t] + r.drop_last());
        assert((seq![t] + r).last() == r.last());
        assert(lexeme_text(t) + lexeme_texts(r.drop_last()) + lexeme_text(r.last()) =~= lexeme_text(t)
            + (lexeme_texts(r.drop_last()) + lexeme_text(r.last())));
    }
}

/// The text of a token that the lexer reads is the source characters it covers, but for a
/// string literal, whose text is its decoded body.
proof fn lemma_token_text(ps: Seq<(usize, char)>, i: int, depth: nat)
    requires
        0 <= i < ps.len(),
        lex_step(ps, i, depth) is Token,
    ensures
        ({
            let (t, j) = (lex_step(ps, i, depth)->Token_0, lex_step(ps, i, depth)->Token_1);
            lexeme_text(t) == token_source(ps, i, j, t)
        }),
{
    let c = ps[i].1;
    assert(chars_between(ps, i, i + 1) =~= seq![c]);
}

proof fn lemma_significant_from(ps: Seq<(usize, char)>, i: int, depth: nat)
    requires
        lex_from(ps, i, depth) is Ok,
    ensures
        lexeme_texts(lex_from(ps, i, depth)->Ok_0) == significant_from(ps, i, depth),
    decreases ps.len() - i,
{
    if 0 <= i < ps.len() {
        lemma_step_progress(ps, i, depth);
        match lex_step(ps, i, depth) {
            LexStep::Skip(j, d) => {
                lemma_significant_from(ps, j, d);
            },
            LexStep::Token(t, j) => {
                lemma_significant_from(ps, j, 0);
                lemma_token_text(ps, i, depth);
                lemma_texts_prepend(t, lex_from(ps, j, 0)->Ok_0);
            },
            LexStep::Fail(_) => {},
        }
    } else {
        assert(lexeme_texts(Seq::<LexemeView>::empty()) =~= seq![]);
    }
}

/// When a text lexes, the values of its tokens, concatenated in order, are its significant
/// characters.
pub proof fn lemma_values_rebuild_text(s: Seq<char>)
    requires
        lex_text(s) is Ok,
    ensures
        lexeme_texts(lex_text(s)->Ok_0) == significant_text(s),
{
    lemma_significant_from(indexed_chars(s), 0, 0);
}

proof fn lemma_prefix_push(
    pre: Seq<LexemeView>,
    t: LexemeView,
    r: Result<Seq<LexemeView>, LexError>,
)
    ensures
        prefix_tokens(pre, prefix_tokens(seq![t], r)) == prefix_tokens(pre.push(t), r),
{
    if let Ok(x) = r {
        assert(pre + (seq![t] + x) =~= pre.push(t) + x);
    }
}

proof fn lemma_views_push(v: Seq<Lexeme>, l: Lexeme)
    ensures
        lexeme_views(v.push(l)) == lexeme_views(v).push(l@),
{
    assert(v.push(l).drop_last() =~= v);
}

fn skip_line(ps: &Vec<(usize, char)>, j: usize) -> (r: usize)
    requires
        j <= ps.len(),
    ensures
        r == line_end(ps@, j as int),
        j <= r <= ps.len(),
{
    let mut k = j;
    while k < ps.len() && ps[k].1 != '\n' && ps[k].1 != '\r'
        invariant
            j <= k <= ps.len(),
            line_end(ps@, j as int) == line_end(ps@, k as int),
        decreases ps.len() - k,
    {
        k = k + 1;
    }
    k
}

fn is_run_char(c: char, symbol: bool) -> (r: bool)
    ensures
        r == run_char(c, symbol),
{
    if symbol {
        symbol_char(c)
    } else {
        num_char(c)
    }
}

/// Reads the run that starts at `start`: its span, its text, and where it stops.
fn lex_item(ps: &Vec<(usize, char)>, start: usize, symbol: bool) -> (r: (LMeta, String, usize))
    requires
        start < ps.len(),
    ensures
        r.2 == run_end(ps@, start + 1, symbol),
        start < r.2 <= ps.len(),
        r.1@ == chars_between(ps@, start as int, r.2 as int),
        r.0 == (LMeta { start: ps@[start as int].0, end: ps@[r.2 - 1].0 }),
{
    let mut text = String::new();
    push_char(&mut text, ps[start].1);
    let mut j = start + 1;
    assert(text@ =~= chars_between(ps@, start as int, j as int));
    while j < ps.len() && is_run_char(ps[j].1, symbol)
        invariant
            start < j <= ps.len(),
            run_end(ps@, start + 1, symbol) == run_end(ps@, j as int, symbol),
            text@ == chars_between(ps@, start as int, j as int),
        decreases ps.len() - j,
    {
        push_char(&mut text, ps[j].1);
        j = j + 1;
        assert(text@ =~= chars_between(ps@, start as int, j as int));
    }
    (LMeta::multi(ps[start].0, ps[j - 1].0), text, j)
}

fn lex_number(ps: &Vec<(usize, char)>, start: usize) -> (r: (Lexeme, usize))
    requires
        start < ps.len(),
    ensures
        r.1 == run_end(ps@, start + 1, false),
        start < r.1 <= ps.len(),
        r.0@ == LexemeView::Number(
            LMeta { start: ps@[start as int].0, end: ps@[r.1 - 1].0 },
            chars_between(ps@, start as int, r.1 as int),
        ),
{
    let (meta, text, next) = lex_item(ps, start, false);
    (Lexeme::Number(meta, text), next)
}

fn lex_symbol(ps: &Vec<(usize, char)>, start: usize) -> (r: (Lexeme, usize))
    requires
        start < ps.len(),
    ensures
        r.1 == run_end(ps@, start + 1, true),
        start < r.1 <= ps.len(),
        r.0@ == LexemeView::Symbol(
            LMeta { start: ps@[start as int].0, end: ps@[r.1 - 1].0 },
            chars_between(ps@, start as int, r.1 as int),
        ),
{
    let (meta, text, next) = lex_item(ps, start, true);
    (Lexeme::Symbol(meta, text), next)
}

fn bracket_lexeme(c: char, off: usize) -> (r: Option<Lexeme>)
    ensures
        r is Some <==> bracket_token(c, LMeta { start: off, end: off }) is Some,
        r matches Some(t) ==> t@ == bracket_token(c, LMeta { start: off, end: off })->0,
{
    let m = LMeta::single(off);
    if c == ')' {
        Some(Lexeme::RParen(m))
    } else if c == '(' {
        Some(Lexeme::LParen(m))
    } else if c == '>' {
        Some(Lexeme::RAngle(m))
    } else if c == '<' {
        Some(Lexeme::LAngle(m))
    } else if c == '}' {
        Some(Lexeme::RCurl(m))
    } else if c == '{' {
        Some(Lexeme::LCurl(m))
    } else if c == ']' {
        Some(Lexeme::RSquare(m))
    } else if c == '[' {
        Some(Lexeme::LSquare(m))
    } else {
        None
    }
}

fn punct_lexeme(c: char, off: usize) -> (r: Lexeme)
    ensures
        r@ == LexemeView::Punct(LMeta { start: off, end: off }, c),
{
    Lexeme::Punct(LMeta::single(off), c)
}

fn escape_char(c: char) -> (r: Option<char>)
    ensures
        r == escape_of(c),
{
    if c == 't' {
        Some('\t')
    } else if c == 'n' {
        Some('\n')
    } else if c == 'r' {
        Some('\r')
    } else if c == '0' {
        Some('\0')
    } else if c == '\\' {
        Some('\\')
    } else if c == '"' {
        Some('"')
    } else {
        None
    }
}

/// Reads the string literal whose opening quote is at `start`.
fn lex_string(ps: &Vec<(usize, char)>, start: usize) -> (r: Result<(Lexeme, usize), LexError>)
    requires
        start < ps.len(),
    ensures
        match scan_string(ps@, start + 1) {
            Ok((t, k)) => r matches Ok((l, next)) && next == k + 1 && l@ == LexemeView::Text(
                LMeta { start: ps@[start as int].0, end: ps@[k].0 },
                t,
            ),
            Err(e) => r == Err::<(Lexeme, usize), LexError>(e),
        },
{
    let mut text = String::new();
    let mut j = start + 1;
    assert(prefix_text(text@, scan_string(ps@, j as int)) == scan_string(ps@, j as int)) by {
        if let Ok((t, k)) = scan_string(ps@, j as int) {
            assert(text@ + t =~= t);
        }
    }
    loop
        invariant
            start < j <= ps.len() + 1,
            scan_string(ps@, start + 1) == prefix_text(text@, scan_string(ps@, j as int)),
        decreases ps.len() + 1 - j,
    {
        if j >= ps.len() {
            return Err(LexError::EncounteredEndInString);
        }
        let c = ps[j].1;
        if c == '"' {
            assert(text@ + Seq::<char>::empty() =~= text@);
            return Ok((Lexeme::String(LMeta::multi(ps[start].0, ps[j].0), text), j + 1));
        }
        let old_text = Ghost(text@);
        if c == '\\' && j + 1 < ps.len() {
            let code = ps[j + 1].1;
            match escape_char(code) {
                Some(d) => {
                    push_char(&mut text, d);
                    proof {
                        if let Ok((t, k)) = scan_string(ps@, j + 2) {
                            assert(old_text@ + (seq![d] + t) =~= text@ + t);
                        }
                    }
                    j = j + 2;
                },
                None => {
                    return Err(LexError::UnexpectedEscapeInString(ps[j + 1].0, code));
                },
            }
        } else {
            push_char(&mut text, c);
            proof {
                if let Ok((t, k)) = scan_string(ps@, j + 1) {
                    assert(old_text@ + (seq![c] + t) =~= text@ + t);
                }
            }
            j = j + 1;
        }
    }
}

/// Splits source text into tokens with their byte-offset spans.
pub fn lex(input: &str) -> (r: Result<Vec<Lexeme>, LexError>)
    ensures
        match r {
            Ok(v) => lex_text(input@) == Ok::<Seq<LexemeView>, LexError>(lexeme_views(v@)),
            Err(e) => lex_text(input@) == Err::<Seq<LexemeView>, LexError>(e),
        },
{
    let ps = char_indices(input);
    let n = ps.len();
    let mut ret: Vec<Lexeme> = Vec::new();
    let mut i: usize = 0;
    let mut depth: usize = 0;
    assert(lexeme_views(ret@) =~= Seq::<LexemeView>::empty());
    assert(prefix_tokens(lexeme_views(ret@), lex_from(ps@, 0, 0)) == lex_from(ps@, 0, 0)) by {
        if let Ok(x) = lex_from(ps@, 0, 0) {
            assert(Seq::<LexemeView>::empty() + x =~= x);
        }
    }
    while i < n
        invariant
            n == ps.len(),
            ps@ == indexed_chars(input@),
            i <= n,
            depth <= i,
            lex_text(input@) == prefix_tokens(
                lexeme_views(ret@),
                lex_from(ps@, i as int, depth as nat),
            ),
        decreases n - i,
    {
        let c = ps[i].1;
        let next_star = i + 1 < n && ps[i + 1].1 == '*';
        let next_slash = i + 1 < n && ps[i + 1].1 == '/';
        if depth > 0 {
            if c == '/' && next_star {
                depth = depth + 1;
                i = i + 2;
            } else if c == '*' && next_slash {
                depth = depth - 1;
                i = i + 2;
            } else {
                i = i + 1;
            }
        } else if is_whitespace(c) {
            i = i + 1;
        } else if c == '/' && next_star {
            depth = 1;
            i = i + 2;
        } else if c == '/' && next_slash {
            i = skip_line(&ps, i + 2);
        } else {
            let off = ps[i].0;
            let (tok, next) = if let Some(t) = bracket_lexeme(c, off) {
                (t, i + 1)
            } else if num_char(c) {
                lex_number(&ps, i)
            } else if symbol_start(c) {
                lex_symbol(&ps, i)
            } else if c == '"' {
                proof {
                    lemma_scan_string(ps@, i + 1);
                }
                match lex_string(&ps, i) {
                    Ok(x) => x,
                    Err(e) => {
                        return Err(e);
                    },
                }
            } else {
                (punct_lexeme(c, off), i + 1)
            };
            proof {
                assert(lex_step(ps@, i as int, 0) == LexStep::Token(tok@, next as int));
                lemma_prefix_push(lexeme_views(ret@), tok@, lex_from(ps@, next as int, 0));
                lemma_views_push(ret@, tok);
            }
            ret.push(tok);
            i = next;
        }
    }
    proof {
        assert(lexeme_views(ret@) + Seq::<LexemeView>::empty() =~= lexeme_views(ret@));
    }
    Ok(ret)
}

} // verus!

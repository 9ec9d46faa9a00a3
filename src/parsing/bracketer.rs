//! The bracket structurer: nests paired bracket tokens into a tree.

use vstd::prelude::*;
use crate::data::{
    Bracket, BracketView, LMeta, Lexeme, LexemeView, bracket_views, lexeme_views, reversed,
};

verus! {

/// Why a token sequence could not be nested.
#[derive(Debug, Clone, Copy, PartialEq, Eq, Structural)]
pub enum BracketError {
    MissingEndBracket { initial: usize, terminal: usize, found: char, expected: char },
    EofInsteadOfEndBracket { initial: usize, expected: char },
    NotAllInputConsumed(usize),
}

/// The four kinds of delimiter pairs.
#[derive(Debug, Clone, Copy, PartialEq, Eq, Structural)]
pub enum Kind {
    Paren,
    Angle,
    Curl,
    Square,
}

pub open spec fn opener_kind(t: LexemeView) -> Option<Kind> {
    match t {
        LexemeView::LParen(_) => Some(Kind::Paren),
        LexemeView::LAngle(_) => Some(Kind::Angle),
        LexemeView::LCurl(_) => Some(Kind::Curl),
        LexemeView::LSquare(_) => Some(Kind::Square),
        _ => None,
    }
}

pub open spec fn closer_kind(t: LexemeView) -> Option<Kind> {
    match t {
        LexemeView::RParen(_) => Some(Kind::Paren),
        LexemeView::RAngle(_) => Some(Kind::Angle),
        LexemeView::RCurl(_) => Some(Kind::Curl),
        LexemeView::RSquare(_) => Some(Kind::Square),
        _ => None,
    }
}

pub open spec fn closing_char(k: Kind) -> char {
    match k {
        Kind::Paren => ')',
        Kind::Angle => '>',
        Kind::Curl => '}',
        Kind::Square => ']',
    }
}

pub open spec fn node_of(k: Kind, m: LMeta, children: Seq<BracketView>) -> BracketView {
    match k {
        Kind::Paren => BracketView::Paren(m, children),
        Kind::Angle => BracketView::Angle(m, children),
        Kind::Curl => BracketView::Curl(m, children),
        Kind::Square => BracketView::Square(m, children),
    }
}

/// An opened bracket still waiting for its closer, with what it holds so far.
pub struct OpenBracket {
    pub kind: Kind,
    pub initial: usize,
    pub children: Seq<BracketView>,
}

/// The finished top-level nodes, and the brackets still open (innermost last).
pub type Nesting = (Seq<BracketView>, Seq<OpenBracket>);

/// Adds a finished node to the innermost open bracket, or to the top level.
pub open spec fn attach(st: Nesting, n: BracketView) -> Nesting {
    let (top, open) = st;
    if open.len() == 0 {
        (top.push(n), open)
    } else {
        let f = open.last();
        (top, open.drop_last().push(OpenBracket { children: f.children.push(n), ..f }))
    }
}

/// The nesting after one more token.
pub open spec fn feed(st: Nesting, t: LexemeView) -> Result<Nesting, BracketError> {
    let (top, open) = st;
    if let Some(k) = opener_kind(t) {
        Ok((top, open.push(OpenBracket { kind: k, initial: t.span().start, children: seq![] })))
    } else if let Some(k) = closer_kind(t) {
        if open.len() == 0 {
            Err(BracketError::NotAllInputConsumed(t.span().start))
        } else {
            let f = open.last();
            if f.kind == k {
                Ok(
                    attach(
                        (top, open.drop_last()),
                        node_of(k, LMeta { start: f.initial, end: t.span().end }, f.children),
                    ),
                )
            } else {
                Err(
                    BracketError::MissingEndBracket {
                        initial: f.initial,
                        terminal: t.span().start,
                        found: closing_char(k),
                        expected: closing_char(f.kind),
                    },
                )
            }
        }
    } else {
        Ok(attach(st, BracketView::Lex(t)))
    }
}

/// The nesting after the first `k` tokens.
pub open spec fn nesting(toks: Seq<LexemeView>, k: int) -> Result<Nesting, BracketError>
    decreases k,
{
    if k <= 0 {
        Ok((seq![], seq![]))
    } else {
        match nesting(toks, k - 1) {
            Ok(st) => feed(st, toks[k - 1]),
            Err(e) => Err(e),
        }
    }
}

/// The bracket forest of a token sequence, or the first structural error.
pub open spec fn bracket_spec(toks: Seq<LexemeView>) -> Result<Seq<BracketView>, BracketError> {
    match nesting(toks, toks.len() as int) {
        Ok((top, open)) => if open.len() == 0 {
            Ok(top)
        } else {
            Err(
                BracketError::EofInsteadOfEndBracket {
                    initial: open.last().initial,
                    expected: closing_char(open.last().kind),
                },
            )
        },
        Err(e) => Err(e),
    }
}

struct Frame {
    kind: Kind,
    initial: usize,
    children: Vec<Bracket>,
}

impl View for Frame {
    type V = OpenBracket;

    closed spec fn view(&self) -> OpenBracket {
        OpenBracket { kind: self.kind, initial: self.initial, children: bracket_views(self.children@) }
    }
}

spec fn frames_view(s: Seq<Frame>) -> Seq<OpenBracket> {
    s.map_values(|f: Frame| f@)
}

proof fn lemma_views_push(v: Seq<Bracket>, b: Bracket)
    ensures
        bracket_views(v.push(b)) == bracket_views(v).push(b@),
{
    assert(v.push(b).drop_last() =~= v);
}

fn make_node(k: Kind, m: LMeta, children: Vec<Bracket>) -> (r: Bracket)
    ensures
        r@ == node_of(k, m, bracket_views(children@)),
{
    match k {
        Kind::Paren => Bracket::Paren(m, children),
        Kind::Angle => Bracket::Angle(m, children),
        Kind::Curl => Bracket::Curl(m, children),
        Kind::Square => Bracket::Square(m, children),
    }
}

fn to_expected(k: Kind) -> (r: char)
    ensures
        r == closing_char(k),
{
    match k {
        Kind::Paren => ')',
        Kind::Angle => '>',
        Kind::Curl => '}',
        Kind::Square => ']',
    }
}

fn attach_node(top: &mut Vec<Bracket>, stack: &mut Vec<Frame>, n: Bracket)
    ensures
        (bracket_views(final(top)@), frames_view(final(stack)@)) == attach(
            (bracket_views(old(top)@), frames_view(old(stack)@)),
            n@,
        ),
{
    let ghost open = frames_view(stack@);
    if stack.len() == 0 {
        proof {
            lemma_views_push(top@, n);
        }
        top.push(n);
        assert(frames_view(stack@) =~= open);
    } else {
        let mut f = stack.pop().unwrap();
        proof {
            lemma_views_push(f.children@, n);
        }
        f.children.push(n);
        stack.push(f);
        assert(frames_view(stack@) =~= open.drop_last().push(
            OpenBracket { children: open.last().children.push(n@), ..open.last() },
        ));
    }
}

/// Closes the innermost open bracket with a closer of kind `k`.
fn parse_bracket(
    top: &mut Vec<Bracket>,
    stack: &mut Vec<Frame>,
    k: Kind,
    closer: LMeta,
    t: Ghost<LexemeView>,
) -> (r: Result<(), BracketError>)
    requires
        closer_kind(t@) == Some(k),
        t@.span() == closer,
    ensures
        match feed((bracket_views(old(top)@), frames_view(old(stack)@)), t@) {
            Ok(st) => r is Ok && st == (bracket_views(final(top)@), frames_view(final(stack)@)),
            Err(e) => r == Err::<(), BracketError>(e),
        },
{
    let ghost open = frames_view(stack@);
    if stack.len() == 0 {
        return Err(BracketError::NotAllInputConsumed(closer.start));
    }
    let f = stack.pop().unwrap();
    assert(frames_view(stack@) =~= open.drop_last());
    if f.kind == k {
        let n = make_node(k, LMeta::multi(f.initial, closer.end), f.children);
        attach_node(top, stack, n);
        Ok(())
    } else {
        Err(
            BracketError::MissingEndBracket {
                initial: f.initial,
                terminal: closer.start,
                found: to_expected(k),
                expected: to_expected(f.kind),
            },
        )
    }
}

/// Takes one token into the nesting.
fn parse_ast(top: &mut Vec<Bracket>, stack: &mut Vec<Frame>, t: Lexeme) -> (r: Result<
    (),
    BracketError,
>)
    ensures
        match feed((bracket_views(old(top)@), frames_view(old(stack)@)), t@) {
            Ok(st) => r is Ok && st == (bracket_views(final(top)@), frames_view(final(stack)@)),
            Err(e) => r == Err::<(), BracketError>(e),
        },
{
    let ghost tv = t@;
    let ghost open = frames_view(stack@);
    let opened = match t {
        Lexeme::LParen(m) => Some((Kind::Paren, m)),
        Lexeme::LAngle(m) => Some((Kind::Angle, m)),
        Lexeme::LCurl(m) => Some((Kind::Curl, m)),
        Lexeme::LSquare(m) => Some((Kind::Square, m)),
        _ => None,
    };
    if let Some((k, m)) = opened {
        stack.push(Frame { kind: k, initial: m.start, children: Vec::new() });
        assert(bracket_views(Seq::<Bracket>::empty()) =~= seq![]);
        assert(frames_view(stack@) =~= open.push(
            OpenBracket { kind: k, initial: m.start, children: seq![] },
        ));
        return Ok(());
    }
    let closed = match t {
        Lexeme::RParen(m) => Some((Kind::Paren, m)),
        Lexeme::RAngle(m) => Some((Kind::Angle, m)),
        Lexeme::RCurl(m) => Some((Kind::Curl, m)),
        Lexeme::RSquare(m) => Some((Kind::Square, m)),
        _ => None,
    };
    if let Some((k, m)) = closed {
        return parse_bracket(top, stack, k, m, Ghost(tv));
    }
    attach_node(top, stack, Bracket::Lex(t));
    Ok(())
}

/// Nests the bracket tokens of a token sequence into a tree.
pub fn bracket(input: Vec<Lexeme>) -> (r: Result<Vec<Bracket>, BracketError>)
    ensures
        match r {
            Ok(v) => bracket_spec(lexeme_views(input@)) == Ok::<Seq<BracketView>, BracketError>(
                bracket_views(v@),
            ),
            Err(e) => bracket_spec(lexeme_views(input@)) == Err::<Seq<BracketView>, BracketError>(e),
        },
{
    let ghost toks = lexeme_views(input@);
    proof {
        crate::data::lemma_lexeme_views(input@);
    }
    let ghost orig = input@;
    let n = input.len();
    let mut rest = reversed(input);
    let mut top: Vec<Bracket> = Vec::new();
    let mut stack: Vec<Frame> = Vec::new();
    let mut i: usize = 0;
    assert(bracket_views(top@) =~= seq![]);
    assert(frames_view(stack@) =~= seq![]);
    while i < n
        invariant
            n == orig.len(),
            orig == input@,
            toks == lexeme_views(orig),
            toks.len() == n,
            forall|j: int| 0 <= j < n ==> #[trigger] toks[j] == orig[j]@,
            i <= n,
            rest.len() == n - i,
            forall|j: int| 0 <= j < rest.len() ==> #[trigger] rest@[j] == orig[n - 1 - j],
            nesting(toks, i as int) == Ok::<Nesting, BracketError>(
                (bracket_views(top@), frames_view(stack@)),
            ),
        decreases n - i,
    {
        let t = rest.pop().unwrap();
        assert(t == orig[i as int]);
        let ghost before = (bracket_views(top@), frames_view(stack@));
        assert(nesting(toks, i + 1) == feed(before, t@));
        match parse_ast(&mut top, &mut stack, t) {
            Ok(()) => {},
            Err(e) => {
                proof {
                    lemma_nesting_err(toks, i as int + 1, e);
                }
                return Err(e);
            },
        }
        i = i + 1;
    }
    if stack.len() > 0 {
        let f = stack.pop().unwrap();
        return Err(BracketError::EofInsteadOfEndBracket { initial: f.initial, expected: to_expected(f.kind) });
    }
    Ok(top)
}

/// Once the nesting fails, it stays failed with the same error.
proof fn lemma_nesting_err(toks: Seq<LexemeView>, k: int, e: BracketError)
    requires
        0 <= k <= toks.len(),
        nesting(toks, k) == Err::<Nesting, BracketError>(e),
    ensures
        nesting(toks, toks.len() as int) == Err::<Nesting, BracketError>(e),
    decreases toks.len() - k,
{
    if k < toks.len() {
        lemma_nesting_err(toks, k + 1, e);
    }
}

} // verus!

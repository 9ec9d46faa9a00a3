//! Tokens, bracket trees, and their position-blind comparison.

use vstd::prelude::*;

verus! {

broadcast use vstd::std_specs::vec::group_vec_axioms;

/// An inclusive byte-offset range into the source text.
#[derive(Debug, Clone, Copy, PartialEq, Eq, Structural)]
pub struct LMeta {
    pub start: usize,
    pub end: usize,
}

impl LMeta {
    /// The empty span at offset 0, for tokens made by hand.
    pub fn new() -> (r: LMeta)
        ensures
            r == (LMeta { start: 0, end: 0 }),
    {
        LMeta { start: 0, end: 0 }
    }

    /// The span of a one-character token.
    pub fn single(loc: usize) -> (r: LMeta)
        ensures
            r == (LMeta { start: loc, end: loc }),
    {
        LMeta { start: loc, end: loc }
    }

    /// The span from `start` to `end`, both included.
    pub fn multi(start: usize, end: usize) -> (r: LMeta)
        ensures
            r == (LMeta { start, end }),
    {
        LMeta { start, end }
    }
}

/// A classified token, or a group of tokens made by a pattern pass.
#[derive(Debug, PartialEq)]
pub enum Lexeme {
    RParen(LMeta),
    LParen(LMeta),
    RAngle(LMeta),
    LAngle(LMeta),
    RCurl(LMeta),
    LCurl(LMeta),
    RSquare(LMeta),
    LSquare(LMeta),
    Punct(LMeta, char),
    Group(LMeta, String, Vec<Lexeme>),
    String(LMeta, String),
    Number(LMeta, String),
    Symbol(LMeta, String),
}

/// The mathematical value of a `Lexeme`: text as character sequences.
pub enum LexemeView {
    RParen(LMeta),
    LParen(LMeta),
    RAngle(LMeta),
    LAngle(LMeta),
    RCurl(LMeta),
    LCurl(LMeta),
    RSquare(LMeta),
    LSquare(LMeta),
    Punct(LMeta, char),
    Group(LMeta, Seq<char>, Seq<LexemeView>),
    Text(LMeta, Seq<char>),
    Number(LMeta, Seq<char>),
    Symbol(LMeta, Seq<char>),
}

pub open spec fn lexeme_view(l: Lexeme) -> LexemeView
    decreases l,
{
    match l {
        Lexeme::RParen(m) => LexemeView::RParen(m),
        Lexeme::LParen(m) => LexemeView::LParen(m),
        Lexeme::RAngle(m) => LexemeView::RAngle(m),
        Lexeme::LAngle(m) => LexemeView::LAngle(m),
        Lexeme::RCurl(m) => LexemeView::RCurl(m),
        Lexeme::LCurl(m) => LexemeView::LCurl(m),
        Lexeme::RSquare(m) => LexemeView::RSquare(m),
        Lexeme::LSquare(m) => LexemeView::LSquare(m),
        Lexeme::Punct(m, c) => LexemeView::Punct(m, c),
        Lexeme::Group(m, label, g) => LexemeView::Group(m, label@, lexeme_views(g@)),
        Lexeme::String(m, s) => LexemeView::Text(m, s@),
        Lexeme::Number(m, s) => LexemeView::Number(m, s@),
        Lexeme::Symbol(m, s) => LexemeView::Symbol(m, s@),
    }
}

pub open spec fn lexeme_views(s: Seq<Lexeme>) -> Seq<LexemeView>
    decreases s,
{
    if s.len() == 0 {
        Seq::empty()
    } else {
        lexeme_views(s.drop_last()).push(lexeme_view(s.last()))
    }
}

impl View for Lexeme {
    type V = LexemeView;

    open spec fn view(&self) -> LexemeView {
        lexeme_view(*self)
    }
}


impl LexemeView {
    /// The span carried by a token.
    pub open spec fn span(self) -> LMeta {
        match self {
            LexemeView::RParen(m) => m,
            LexemeView::LParen(m) => m,
            LexemeView::RAngle(m) => m,
            LexemeView::LAngle(m) => m,
            LexemeView::RCurl(m) => m,
            LexemeView::LCurl(m) => m,
            LexemeView::RSquare(m) => m,
            LexemeView::LSquare(m) => m,
            LexemeView::Punct(m, _) => m,
            LexemeView::Group(m, _, _) => m,
            LexemeView::Text(m, _) => m,
            LexemeView::Number(m, _) => m,
            LexemeView::Symbol(m, _) => m,
        }
    }

    /// The same token carrying another span.
    pub open spec fn with_span(self, m: LMeta) -> LexemeView {
        match self {
            LexemeView::RParen(_) => LexemeView::RParen(m),
            LexemeView::LParen(_) => LexemeView::LParen(m),
            LexemeView::RAngle(_) => LexemeView::RAngle(m),
            LexemeView::LAngle(_) => LexemeView::LAngle(m),
            LexemeView::RCurl(_) => LexemeView::RCurl(m),
            LexemeView::LCurl(_) => LexemeView::LCurl(m),
            LexemeView::RSquare(_) => LexemeView::RSquare(m),
            LexemeView::LSquare(_) => LexemeView::LSquare(m),
            LexemeView::Punct(_, c) => LexemeView::Punct(m, c),
            LexemeView::Group(_, l, g) => LexemeView::Group(m, l, g),
            LexemeView::Text(_, s) => LexemeView::Text(m, s),
            LexemeView::Number(_, s) => LexemeView::Number(m, s),
            LexemeView::Symbol(_, s) => LexemeView::Symbol(m, s),
        }
    }
}

/// Position-blind structural equality of tokens.
pub open spec fn lexeme_matches(a: LexemeView, b: LexemeView) -> bool
    decreases a,
{
    match a {
        LexemeView::RParen(_) => b is RParen,
        LexemeView::LParen(_) => b is LParen,
        LexemeView::RAngle(_) => b is RAngle,
        LexemeView::LAngle(_) => b is LAngle,
        LexemeView::RCurl(_) => b is RCurl,
        LexemeView::LCurl(_) => b is LCurl,
        LexemeView::RSquare(_) => b is RSquare,
        LexemeView::LSquare(_) => b is LSquare,
        LexemeView::Punct(_, c) => b matches LexemeView::Punct(_, d) && c == d,
        LexemeView::Group(_, l, g) => match b {
            LexemeView::Group(_, l2, g2) => {
                &&& l == l2
                &&& g.len() == g2.len()
                &&& forall|i: int| 0 <= i < g.len() ==> lexeme_matches(#[trigger] g[i], g2[i])
            },
            _ => false,
        },
        LexemeView::Text(_, s) => b matches LexemeView::Text(_, t) && s == t,
        LexemeView::Number(_, s) => b matches LexemeView::Number(_, t) && s == t,
        LexemeView::Symbol(_, s) => b matches LexemeView::Symbol(_, t) && s == t,
    }
}

/// The canonical text of a token.
pub open spec fn lexeme_text(a: LexemeView) -> Seq<char>
    decreases a,
{
    match a {
        LexemeView::RParen(_) => seq![')'],
        LexemeView::LParen(_) => seq!['('],
        LexemeView::RAngle(_) => seq!['>'],
        LexemeView::LAngle(_) => seq!['<'],
        LexemeView::RCurl(_) => seq!['}'],
        LexemeView::LCurl(_) => seq!['{'],
        LexemeView::RSquare(_) => seq![']'],
        LexemeView::LSquare(_) => seq!['['],
        LexemeView::Punct(_, c) => seq![c],
        LexemeView::Group(_, _, g) => lexeme_texts(g),
        LexemeView::Text(_, s) => s,
        LexemeView::Number(_, s) => s,
        LexemeView::Symbol(_, s) => s,
    }
}

/// The texts of a token sequence, concatenated in order.
pub open spec fn lexeme_texts(s: Seq<LexemeView>) -> Seq<char>
    decreases s,
{
    if s.len() == 0 {
        Seq::empty()
    } else {
        lexeme_texts(s.drop_last()) + lexeme_text(s.last())
    }
}

pub proof fn lemma_lexeme_views(s: Seq<Lexeme>)
    ensures
        lexeme_views(s).len() == s.len(),
        forall|i: int| 0 <= i < s.len() ==> #[trigger] lexeme_views(s)[i] == s[i]@,
    decreases s.len(),
{
    if s.len() > 0 {
        lemma_lexeme_views(s.drop_last());
    }
}

/// Relies on `String::push`: appends one character.
#[verifier::external_body]
pub(crate) fn push_char(s: &mut String, c: char)
    ensures
        final(s)@ == old(s)@.push(c),
{
    s.push(c)
}

fn text_of_char(c: char) -> (r: String)
    ensures
        r@ == seq![c],
{
    let mut r = String::new();
    push_char(&mut r, c);
    r
}

impl Lexeme {
    /// Whether two tokens are equal but for their spans.
    pub fn lmatch(&self, other: &Lexeme) -> (r: bool)
        ensures
            r == lexeme_matches(self@, other@),
        decreases self,
    {
        if let Lexeme::Group(m1, l1, g1) = self {
            let (m2, l2, g2) = match other {
                Lexeme::Group(m2, l2, g2) => (m2, l2, g2),
                _ => { return false; },
            };
            proof {
                lemma_lexeme_views(g1@);
                lemma_lexeme_views(g2@);
            }
            if *l1 != *l2 || g1.len() != g2.len() {
                return false;
            }
            let mut i: usize = 0;
            while i < g1.len()
                invariant
                    *self == Lexeme::Group(*m1, *l1, *g1),
                    *other == Lexeme::Group(*m2, *l2, *g2),
                    l1@ == l2@,
                    g1.len() == g2.len(),
                    0 <= i <= g1.len(),
                    forall|j: int| 0 <= j < i ==> lexeme_matches(#[trigger] g1@[j]@, g2@[j]@),
                decreases g1.len() - i,
            {
                assert(decreases_to!(*self => self->Group_2));
                assert(decreases_to!(*g1 => g1[i as int]));
                if !g1[i].lmatch(&g2[i]) {
                    proof {
                        lemma_lexeme_views(g1@);
                        lemma_lexeme_views(g2@);
                    }
                    assert(!lexeme_matches(
                        lexeme_views(g1@)[i as int],
                        lexeme_views(g2@)[i as int],
                    ));
                    return false;
                }
                i = i + 1;
            }
            proof {
                lemma_lexeme_views(g1@);
                lemma_lexeme_views(g2@);
            }
            return true;
        }
        match (self, other) {
            (Lexeme::RParen(_), Lexeme::RParen(_)) => true,
            (Lexeme::LParen(_), Lexeme::LParen(_)) => true,
            (Lexeme::RAngle(_), Lexeme::RAngle(_)) => true,
            (Lexeme::LAngle(_), Lexeme::LAngle(_)) => true,
            (Lexeme::RCurl(_), Lexeme::RCurl(_)) => true,
            (Lexeme::LCurl(_), Lexeme::LCurl(_)) => true,
            (Lexeme::RSquare(_), Lexeme::RSquare(_)) => true,
            (Lexeme::LSquare(_), Lexeme::LSquare(_)) => true,
            (Lexeme::Punct(_, c1), Lexeme::Punct(_, c2)) => *c1 == *c2,
            (Lexeme::String(_, s1), Lexeme::String(_, s2)) => *s1 == *s2,
            (Lexeme::Number(_, s1), Lexeme::Number(_, s2)) => *s1 == *s2,
            (Lexeme::Symbol(_, s1), Lexeme::Symbol(_, s2)) => *s1 == *s2,
            _ => false,
        }
    }
}


impl Lexeme {
    /// The span of the token.
    pub fn meta(&self) -> (r: LMeta)
        ensures
            r == self@.span(),
    {
        match self {
            Lexeme::RParen(m) => *m,
            Lexeme::LParen(m) => *m,
            Lexeme::RAngle(m) => *m,
            Lexeme::LAngle(m) => *m,
            Lexeme::RCurl(m) => *m,
            Lexeme::LCurl(m) => *m,
            Lexeme::RSquare(m) => *m,
            Lexeme::LSquare(m) => *m,
            Lexeme::Punct(m, _) => *m,
            Lexeme::Group(m, _, _) => *m,
            Lexeme::String(m, _) => *m,
            Lexeme::Number(m, _) => *m,
            Lexeme::Symbol(m, _) => *m,
        }
    }

    /// The text of the token: its fixed character, its decoded or raw text, or the values of
    /// a group's members one after the other.
    pub fn value(&self) -> (r: String)
        ensures
            r@ == lexeme_text(self@),
        decreases self,
    {
        match self {
            Lexeme::RParen(_) => text_of_char(')'),
            Lexeme::LParen(_) => text_of_char('('),
            Lexeme::RAngle(_) => text_of_char('>'),
            Lexeme::LAngle(_) => text_of_char('<'),
            Lexeme::RCurl(_) => text_of_char('}'),
            Lexeme::LCurl(_) => text_of_char('{'),
            Lexeme::RSquare(_) => text_of_char(']'),
            Lexeme::LSquare(_) => text_of_char('['),
            Lexeme::Punct(_, c) => text_of_char(*c),
            Lexeme::Group(m, l, g) => {
                let mut r = String::new();
                let mut i: usize = 0;
                while i < g.len()
                    invariant
                        *self == Lexeme::Group(*m, *l, *g),
                        0 <= i <= g.len(),
                        r@ == lexeme_texts(lexeme_views(g@.subrange(0, i as int))),
                    decreases g.len() - i,
                {
                    assert(decreases_to!(*self => self->Group_2));
                    assert(decreases_to!(*g => g[i as int]));
                    let v = g[i].value();
                    r.append(v.as_str());
                    proof {
                        let pre = g@.subrange(0, i as int);
                        let next = g@.subrange(0, i + 1);
                        assert(next.drop_last() =~= pre);
                        assert(lexeme_views(next) == lexeme_views(pre).push(g@[i as int]@));
                        assert(lexeme_views(next).drop_last() =~= lexeme_views(pre));
                    }
                    i = i + 1;
                }
                assert(g@.subrange(0, g.len() as int) =~= g@);
                r
            },
            Lexeme::String(_, s) => s.clone(),
            Lexeme::Number(_, s) => s.clone(),
            Lexeme::Symbol(_, s) => s.clone(),
        }
    }
}

/// A node of the bracket tree: a delimited run of nodes, or one token.
#[derive(Debug, PartialEq)]
pub enum Bracket {
    Paren(LMeta, Vec<Bracket>),
    Angle(LMeta, Vec<Bracket>),
    Curl(LMeta, Vec<Bracket>),
    Square(LMeta, Vec<Bracket>),
    Lex(Lexeme),
}

/// The mathematical value of a `Bracket`.
pub enum BracketView {
    Paren(LMeta, Seq<BracketView>),
    Angle(LMeta, Seq<BracketView>),
    Curl(LMeta, Seq<BracketView>),
    Square(LMeta, Seq<BracketView>),
    Lex(LexemeView),
}

pub open spec fn bracket_view(b: Bracket) -> BracketView
    decreases b,
{
    match b {
        Bracket::Paren(m, xs) => BracketView::Paren(m, bracket_views(xs@)),
        Bracket::Angle(m, xs) => BracketView::Angle(m, bracket_views(xs@)),
        Bracket::Curl(m, xs) => BracketView::Curl(m, bracket_views(xs@)),
        Bracket::Square(m, xs) => BracketView::Square(m, bracket_views(xs@)),
        Bracket::Lex(l) => BracketView::Lex(l@),
    }
}

pub open spec fn bracket_views(s: Seq<Bracket>) -> Seq<BracketView>
    decreases s,
{
    if s.len() == 0 {
        Seq::empty()
    } else {
        bracket_views(s.drop_last()).push(bracket_view(s.last()))
    }
}

impl View for Bracket {
    type V = BracketView;

    open spec fn view(&self) -> BracketView {
        bracket_view(*self)
    }
}

pub proof fn lemma_bracket_views(s: Seq<Bracket>)
    ensures
        bracket_views(s).len() == s.len(),
        forall|i: int| 0 <= i < s.len() ==> #[trigger] bracket_views(s)[i] == s[i]@,
    decreases s.len(),
{
    if s.len() > 0 {
        lemma_bracket_views(s.drop_last());
    }
}

impl BracketView {
    /// The span of a node, delimiters included.
    pub open spec fn span(self) -> LMeta {
        match self {
            BracketView::Paren(m, _) => m,
            BracketView::Angle(m, _) => m,
            BracketView::Curl(m, _) => m,
            BracketView::Square(m, _) => m,
            BracketView::Lex(l) => l.span(),
        }
    }
}

/// Position-blind structural equality of bracket nodes.
pub open spec fn bracket_matches(a: BracketView, b: BracketView) -> bool
    decreases a,
{
    match a {
        BracketView::Paren(_, xs) => b matches BracketView::Paren(_, ys) && xs.len() == ys.len()
            && forall|i: int| 0 <= i < xs.len() ==> bracket_matches(#[trigger] xs[i], ys[i]),
        BracketView::Angle(_, xs) => b matches BracketView::Angle(_, ys) && xs.len() == ys.len()
            && forall|i: int| 0 <= i < xs.len() ==> bracket_matches(#[trigger] xs[i], ys[i]),
        BracketView::Curl(_, xs) => b matches BracketView::Curl(_, ys) && xs.len() == ys.len()
            && forall|i: int| 0 <= i < xs.len() ==> bracket_matches(#[trigger] xs[i], ys[i]),
        BracketView::Square(_, xs) => b matches BracketView::Square(_, ys) && xs.len() == ys.len()
            && forall|i: int| 0 <= i < xs.len() ==> bracket_matches(#[trigger] xs[i], ys[i]),
        BracketView::Lex(x) => b matches BracketView::Lex(y) && lexeme_matches(x, y),
    }
}

/// Whether two child sequences have equal length and match pairwise.
pub open spec fn children_match(xs: Seq<BracketView>, ys: Seq<BracketView>) -> bool {
    &&& xs.len() == ys.len()
    &&& forall|i: int| 0 <= i < xs.len() ==> bracket_matches(#[trigger] xs[i], ys[i])
}

impl Bracket {
    /// Whether two nodes are equal but for their spans.
    pub fn lmatch(&self, other: &Bracket) -> (r: bool)
        ensures
            r == bracket_matches(self@, other@),
        decreases self,
    {
        match (self, other) {
            (Bracket::Paren(_, xs), Bracket::Paren(_, ys)) => {
                assert(decreases_to!(*self => self->Paren_1));
                lmatch_children(xs, ys)
            },
            (Bracket::Angle(_, xs), Bracket::Angle(_, ys)) => {
                assert(decreases_to!(*self => self->Angle_1));
                lmatch_children(xs, ys)
            },
            (Bracket::Curl(_, xs), Bracket::Curl(_, ys)) => {
                assert(decreases_to!(*self => self->Curl_1));
                lmatch_children(xs, ys)
            },
            (Bracket::Square(_, xs), Bracket::Square(_, ys)) => {
                assert(decreases_to!(*self => self->Square_1));
                lmatch_children(xs, ys)
            },
            (Bracket::Lex(x), Bracket::Lex(y)) => x.lmatch(y),
            _ => false,
        }
    }

    /// The span of the node, delimiters included.
    pub fn meta(&self) -> (r: LMeta)
        ensures
            r == self@.span(),
    {
        match self {
            Bracket::Paren(m, _) => *m,
            Bracket::Angle(m, _) => *m,
            Bracket::Curl(m, _) => *m,
            Bracket::Square(m, _) => *m,
            Bracket::Lex(l) => l.meta(),
        }
    }
}

fn lmatch_children(xs: &Vec<Bracket>, ys: &Vec<Bracket>) -> (r: bool)
    ensures
        r == children_match(bracket_views(xs@), bracket_views(ys@)),
    decreases xs,
{
    proof {
        lemma_bracket_views(xs@);
        lemma_bracket_views(ys@);
    }
    if xs.len() != ys.len() {
        return false;
    }
    let mut i: usize = 0;
    while i < xs.len()
        invariant
            xs.len() == ys.len(),
            0 <= i <= xs.len(),
            forall|j: int| 0 <= j < i ==> bracket_matches(#[trigger] xs@[j]@, ys@[j]@),
        decreases xs.len() - i,
    {
        assert(decreases_to!(*xs => xs[i as int]));
        if !xs[i].lmatch(&ys[i]) {
            proof {
                lemma_bracket_views(xs@);
                lemma_bracket_views(ys@);
            }
            assert(!bracket_matches(bracket_views(xs@)[i as int], bracket_views(ys@)[i as int]));
            return false;
        }
        i = i + 1;
    }
    proof {
        lemma_bracket_views(xs@);
        lemma_bracket_views(ys@);
    }
    true
}


/// Every token matches itself.
pub proof fn lemma_lmatch_reflexive(t: LexemeView)
    ensures
        lexeme_matches(t, t),
    decreases t,
{
    if let LexemeView::Group(_, _, g) = t {
        assert forall|i: int| 0 <= i < g.len() implies lexeme_matches(#[trigger] g[i], g[i]) by {
            lemma_lmatch_reflexive(g[i]);
        }
    }
}

/// Matching ignores spans: a token matches itself carrying any other span, either way round.
pub proof fn lemma_lmatch_ignores_span(t: LexemeView, m: LMeta)
    ensures
        lexeme_matches(t, t.with_span(m)),
        lexeme_matches(t.with_span(m), t),
{
    lemma_lmatch_reflexive(t);
}

/// Every bracket node matches itself.
pub proof fn lemma_bracket_lmatch_reflexive(b: BracketView)
    ensures
        bracket_matches(b, b),
    decreases b,
{
    match b {
        BracketView::Paren(_, xs) | BracketView::Angle(_, xs) | BracketView::Curl(_, xs)
        | BracketView::Square(_, xs) => {
            assert forall|i: int| 0 <= i < xs.len() implies bracket_matches(#[trigger] xs[i], xs[i]) by {
                lemma_bracket_lmatch_reflexive(xs[i]);
            }
        },
        BracketView::Lex(l) => {
            lemma_lmatch_reflexive(l);
        },
    }
}

/// The elements of a vector in reverse order, so that `pop` hands them out front first.
pub(crate) fn reversed<T>(v: Vec<T>) -> (r: Vec<T>)
    ensures
        r.len() == v.len(),
        forall|j: int| 0 <= j < v.len() ==> #[trigger] r@[j] == v@[v.len() - 1 - j],
{
    let ghost orig = v@;
    let mut v = v;
    let mut r: Vec<T> = Vec::new();
    while v.len() > 0
        invariant
            v.len() + r.len() == orig.len(),
            v@ == orig.subrange(0, v.len() as int),
            forall|j: int| 0 <= j < r.len() ==> #[trigger] r@[j] == orig[orig.len() - 1 - j],
        decreases v.len(),
    {
        let x = v.pop().unwrap();
        r.push(x);
    }
    r
}

} // verus!

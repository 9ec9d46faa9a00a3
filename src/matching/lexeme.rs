//! The lexeme pattern engine: a buffered scan that replaces runs a pattern accepts.

use vstd::prelude::*;
use crate::data::{LMeta, Lexeme, LexemeView, lexeme_matches, lexeme_views, lemma_lexeme_views, reversed};

verus! {

/// One position of a pattern.
pub enum PatternOf<P> {
    Wild,
    Exact(Lexeme),
    Pred(P),
}

/// A pattern position whose predicate is a plain function.
pub type Pattern = PatternOf<fn(&Lexeme) -> bool>;

/// A predicate that accepts every token and answers the same for the same token.
pub open spec fn pred_ok<P: Fn(&Lexeme) -> bool>(f: P) -> bool {
    &&& forall|d: &Lexeme| #[trigger] f.requires((d,))
    &&& forall|d: &Lexeme, a: bool, b: bool|
        #[trigger] f.ensures((d,), a) && #[trigger] f.ensures((d,), b) ==> a == b
}

pub open spec fn patterns_ok<P: Fn(&Lexeme) -> bool>(pat: Seq<PatternOf<P>>) -> bool {
    forall|i: int| 0 <= i < pat.len() ==> (#[trigger] pat[i] matches PatternOf::Pred(f) ==> pred_ok(f))
}

/// Whether one pattern position accepts a token.
pub open spec fn pattern_holds<P: Fn(&Lexeme) -> bool>(p: PatternOf<P>, d: Lexeme) -> bool {
    match p {
        PatternOf::Wild => true,
        PatternOf::Exact(l) => lexeme_matches(l@, d@),
        PatternOf::Pred(f) => f.ensures((&d,), true),
    }
}

/// Whether a pattern accepts a run of tokens, position by position.
pub open spec fn pattern_matches<P: Fn(&Lexeme) -> bool>(
    pat: Seq<PatternOf<P>>,
    data: Seq<Lexeme>,
) -> bool {
    &&& pat.len() == data.len()
    &&& forall|i: int| 0 <= i < pat.len() ==> pattern_holds(#[trigger] pat[i], data[i])
}

fn pattern_match<P: Fn(&Lexeme) -> bool>(pattern: &Vec<PatternOf<P>>, data: &Vec<Lexeme>) -> (r:
    bool)
    requires
        pattern.len() == data.len(),
        patterns_ok(pattern@),
    ensures
        r == pattern_matches(pattern@, data@),
{
    let mut i: usize = 0;
    while i < pattern.len()
        invariant
            pattern.len() == data.len(),
            patterns_ok(pattern@),
            0 <= i <= pattern.len(),
            forall|j: int| 0 <= j < i ==> pattern_holds(#[trigger] pattern@[j], data@[j]),
        decreases pattern.len() - i,
    {
        let ok = match &pattern[i] {
            PatternOf::Wild => true,
            PatternOf::Pred(f) => {
                assert(pred_ok(*f)) by {
                    assert(pattern@[i as int] matches PatternOf::Pred(g) ==> pred_ok(g));
                }
                let b = f(&data[i]);
                assert(b == pattern_holds(pattern@[i as int], data@[i as int]));
                b
            },
            PatternOf::Exact(l) => l.lmatch(&data[i]),
        };
        if !ok {
            return false;
        }
        i = i + 1;
    }
    true
}

/// What the engine hands out: a token passed through, or a run the pattern accepted.
pub enum Event {
    Pass(Lexeme),
    Match(Seq<Lexeme>),
}

/// The events of the engine from buffer `buf`, with `rest` still to be pulled.
pub open spec fn events<P: Fn(&Lexeme) -> bool>(
    pat: Seq<PatternOf<P>>,
    buf: Seq<Lexeme>,
    rest: Seq<Lexeme>,
) -> Seq<Event>
    decreases rest.len(), buf.len(),
{
    let n = pat.len();
    if n == 0 {
        if rest.len() == 0 {
            seq![]
        } else {
            seq![Event::Pass(rest[0])] + events(pat, buf, rest.drop_first())
        }
    } else if buf.len() == n && pattern_matches(pat, buf) {
        seq![Event::Match(buf)] + events(pat, seq![], rest)
    } else if rest.len() == 0 {
        if buf.len() == 0 {
            seq![]
        } else {
            seq![Event::Pass(buf[0])] + events(pat, buf.drop_first(), rest)
        }
    } else {
        let b = buf.push(rest[0]);
        if b.len() > n {
            seq![Event::Pass(b[0])] + events(pat, b.drop_first(), rest.drop_first())
        } else {
            events(pat, b, rest.drop_first())
        }
    }
}

/// The tokens an event carries, in order.
pub open spec fn event_tokens(e: Event) -> Seq<Lexeme> {
    match e {
        Event::Pass(l) => seq![l],
        Event::Match(run) => run,
    }
}

/// The tokens of a sequence of events, in order.
pub open spec fn events_tokens(evs: Seq<Event>) -> Seq<Lexeme>
    decreases evs.len(),
{
    if evs.len() == 0 {
        seq![]
    } else {
        event_tokens(evs[0]) + events_tokens(evs.drop_first())
    }
}

/// The streaming engine: a pattern, a reducer for accepted runs, the tokens not yet pulled,
/// and the buffer of tokens pulled but not yet handed out.
pub struct LexProcessor<P, F> {
    input: Vec<Lexeme>,
    f: F,
    pattern: Vec<PatternOf<P>>,
    match_buffer: Vec<Lexeme>,
}

/// Whether `v` is what the engine hands out for event `e` with reducer `f`.
pub open spec fn emits<F: Fn(Vec<Lexeme>) -> Vec<Lexeme>>(f: F, e: Event, v: Vec<Lexeme>) -> bool {
    match e {
        Event::Pass(l) => v@ == seq![l],
        Event::Match(run) => exists|x: Vec<Lexeme>| x@ == run && #[trigger] f.ensures((x,), v),
    }
}

impl<P: Fn(&Lexeme) -> bool, F: Fn(Vec<Lexeme>) -> Vec<Lexeme>> LexProcessor<P, F> {
    pub closed spec fn pattern_view(&self) -> Seq<PatternOf<P>> {
        self.pattern@
    }

    pub closed spec fn reducer(&self) -> F {
        self.f
    }

    /// The tokens not yet pulled, next first.
    pub closed spec fn pending(&self) -> Seq<Lexeme> {
        Seq::new(self.input.len() as nat, |j: int| self.input@[self.input.len() - 1 - j])
    }

    /// The tokens pulled but not yet handed out, oldest first.
    pub closed spec fn buffer(&self) -> Seq<Lexeme> {
        self.match_buffer@
    }

    /// The events still to come.
    pub open spec fn remaining(&self) -> Seq<Event> {
        events(self.pattern_view(), self.buffer(), self.pending())
    }

    pub open spec fn wf(&self) -> bool {
        &&& patterns_ok(self.pattern_view())
        &&& forall|x: Vec<Lexeme>|
            x@.len() == self.pattern_view().len() && x@.len() > 0 ==> #[trigger] self.reducer().requires((x,))
        &&& self.buffer().len() <= self.pattern_view().len()
    }

    /// Hands out the next event: a token passed through, or the reducer's output for a run.
    pub fn next(&mut self) -> (r: Option<Vec<Lexeme>>)
        requires
            old(self).wf(),
        ensures
            final(self).wf(),
            final(self).pattern_view() == old(self).pattern_view(),
            final(self).reducer() == old(self).reducer(),
            old(self).remaining().len() == 0 ==> r is None && final(self).remaining().len() == 0,
            old(self).remaining().len() > 0 ==> (r matches Some(v) && emits(
                old(self).reducer(),
                old(self).remaining()[0],
                v,
            ) && final(self).remaining() == old(self).remaining().drop_first()),
    {
        let ghost ev = self.remaining();
        assert(ev == old(self).remaining());
        let n = self.pattern.len();
        if n == 0 {
            let ghost p = self.pending();
            match self.input.pop() {
                None => {
                    assert(p.len() == 0);
                    return None;
                },
                Some(l) => {
                    assert(p[0] == l);
                    assert(self.pending() =~= p.drop_first());
                    assert(ev == seq![Event::Pass(l)] + self.remaining());
                    assert(ev.drop_first() =~= self.remaining());
                    let v = vec![l];
                    assert(v@ == seq![l]);
                    return Some(v);
                },
            }
        }
        loop
            invariant
                self.wf(),
                self.pattern_view() == old(self).pattern_view(),
                self.reducer() == old(self).reducer(),
                n == self.pattern_view().len(),
                n > 0,
                self.remaining() == ev,
                ev == old(self).remaining(),
            decreases self.input.len(),
        {
            let ghost p = self.pending();
            let ghost b = self.buffer();
            if self.match_buffer.len() == n && pattern_match(&self.pattern, &self.match_buffer) {
                let mut run: Vec<Lexeme> = Vec::new();
                std::mem::swap(&mut run, &mut self.match_buffer);
                assert(ev == seq![Event::Match(b)] + self.remaining());
                assert(ev.drop_first() =~= self.remaining());
                let v = (self.f)(run);
                assert(run@ == b && self.f.ensures((run,), v));
                return Some(v);
            }
            match self.input.pop() {
                None => {
                    assert(p.len() == 0);
                    if self.match_buffer.len() == 0 {
                        assert(ev =~= seq![]);
                        return None;
                    }
                    let l = self.match_buffer.remove(0);
                    assert(self.buffer() =~= b.drop_first());
                    assert(ev == seq![Event::Pass(l)] + self.remaining());
                    assert(ev.drop_first() =~= self.remaining());
                    let v = vec![l];
                    assert(v@ == seq![l]);
                    return Some(v);
                },
                Some(l) => {
                    assert(p[0] == l);
                    assert(self.pending() =~= p.drop_first());
                    self.match_buffer.push(l);
                    assert(self.buffer() == b.push(p[0]));
                    if self.match_buffer.len() > n {
                        let first = self.match_buffer.remove(0);
                        assert(self.buffer() =~= b.push(p[0]).drop_first());
                        assert(ev == seq![Event::Pass(first)] + self.remaining());
                        assert(ev.drop_first() =~= self.remaining());
                        let v = vec![first];
                        assert(v@ == seq![first]);
                        return Some(v);
                    }
                },
            }
        }
    }
}

/// Starts the engine over `input`; nothing is pulled until `next` is called.
pub fn process<P: Fn(&Lexeme) -> bool, F: Fn(Vec<Lexeme>) -> Vec<Lexeme>>(
    pattern: Vec<PatternOf<P>>,
    f: F,
    input: Vec<Lexeme>,
) -> (r: LexProcessor<P, F>)
    requires
        patterns_ok(pattern@),
        forall|x: Vec<Lexeme>| x@.len() == pattern@.len() && x@.len() > 0 ==> #[trigger] f.requires((x,)),
    ensures
        r.wf(),
        r.pattern_view() == pattern@,
        r.reducer() == f,
        r.remaining() == events(pattern@, seq![], input@),
{
    let ghost orig = input@;
    let input = reversed(input);
    let r = LexProcessor { input, f, pattern, match_buffer: Vec::new() };
    assert(r.pending() =~= orig);
    assert(r.buffer() =~= seq![]);
    r
}


/// The group token that wraps an accepted run under a label.
pub open spec fn group_view(label: Seq<char>, run: Seq<Lexeme>) -> LexemeView {
    LexemeView::Group(
        LMeta { start: run[0]@.span().start, end: run.last()@.span().end },
        label,
        lexeme_views(run),
    )
}

/// The tokens that grouping makes of one event.
pub open spec fn rendered(label: Seq<char>, e: Event) -> Seq<LexemeView> {
    match e {
        Event::Pass(l) => seq![l@],
        Event::Match(run) => seq![group_view(label, run)],
    }
}

/// The tokens that grouping makes of a sequence of events.
pub open spec fn grouped(label: Seq<char>, evs: Seq<Event>) -> Seq<LexemeView>
    decreases evs.len(),
{
    if evs.len() == 0 {
        seq![]
    } else {
        rendered(label, evs[0]) + grouped(label, evs.drop_first())
    }
}

proof fn lemma_views_concat(a: Seq<Lexeme>, b: Seq<Lexeme>)
    ensures
        lexeme_views(a + b) == lexeme_views(a) + lexeme_views(b),
{
    lemma_lexeme_views(a);
    lemma_lexeme_views(b);
    lemma_lexeme_views(a + b);
    assert(lexeme_views(a + b) =~= lexeme_views(a) + lexeme_views(b));
}

/// Every token the engine pulls comes out exactly once, alone or inside one accepted run,
/// and in the order of the input.
pub proof fn lemma_events_keep_tokens<P: Fn(&Lexeme) -> bool>(
    pat: Seq<PatternOf<P>>,
    buf: Seq<Lexeme>,
    rest: Seq<Lexeme>,
)
    requires
        buf.len() <= pat.len(),
    ensures
        events_tokens(events(pat, buf, rest)) == buf + rest,
    decreases rest.len(), buf.len(),
{
    let n = pat.len();
    if n == 0 {
        if rest.len() > 0 {
            lemma_events_keep_tokens(pat, buf, rest.drop_first());
            let evs = events(pat, buf, rest);
            assert(evs.drop_first() =~= events(pat, buf, rest.drop_first()));
        }
        assert(buf + rest =~= rest);
        if rest.len() > 0 {
            assert(seq![rest[0]] + rest.drop_first() =~= rest);
        }
    } else if buf.len() == n && pattern_matches(pat, buf) {
        lemma_events_keep_tokens(pat, seq![], rest);
        let evs = events(pat, buf, rest);
        assert(evs.drop_first() =~= events(pat, seq![], rest));
        assert(seq![] + rest =~= rest);
    } else if rest.len() == 0 {
        if buf.len() > 0 {
            lemma_events_keep_tokens(pat, buf.drop_first(), rest);
            let evs = events(pat, buf, rest);
            assert(evs.drop_first() =~= events(pat, buf.drop_first(), rest));
            assert(seq![buf[0]] + (buf.drop_first() + rest) =~= buf + rest);
        } else {
            assert(buf + rest =~= seq![]);
        }
    } else {
        let b = buf.push(rest[0]);
        lemma_events_keep_tokens(pat, if b.len() > n { b.drop_first() } else { b }, rest.drop_first());
        if b.len() > n {
            let evs = events(pat, buf, rest);
            assert(evs.drop_first() =~= events(pat, b.drop_first(), rest.drop_first()));
            assert(seq![b[0]] + (b.drop_first() + rest.drop_first()) =~= buf + rest);
        } else {
            assert(b + rest.drop_first() =~= buf + rest);
        }
    }
}

/// With the zero-length pattern no run is ever accepted: grouping gives back its input.
pub proof fn lemma_empty_pattern_identity<P: Fn(&Lexeme) -> bool>(
    label: Seq<char>,
    pat: Seq<PatternOf<P>>,
    input: Seq<Lexeme>,
)
    requires
        pat.len() == 0,
    ensures
        grouped(label, events(pat, seq![], input)) == lexeme_views(input),
    decreases input.len(),
{
    if input.len() > 0 {
        lemma_empty_pattern_identity(label, pat, input.drop_first());
        let evs = events(pat, seq![], input);
        assert(evs.drop_first() =~= events(pat, seq![], input.drop_first()));
        lemma_views_concat(seq![input[0]], input.drop_first());
        assert(seq![input[0]] + input.drop_first() =~= input);
        assert(lexeme_views(seq![input[0]]) =~= seq![input[0]@]) by {
            lemma_lexeme_views(seq![input[0]]);
        }
    } else {
        assert(lexeme_views(input) =~= seq![]) by {
            lemma_lexeme_views(input);
        }
    }
}

/// Groups every run that the pattern accepts into one `Group` token under `label`; all other
/// tokens pass through.
pub fn grouper<P: Fn(&Lexeme) -> bool>(pattern: Vec<PatternOf<P>>, label: &str, input: Vec<Lexeme>) -> (r:
    Vec<Lexeme>)
    requires
        patterns_ok(pattern@),
    ensures
        lexeme_views(r@) == grouped(label@, events(pattern@, seq![], input@)),
        pattern@.len() == 0 ==> lexeme_views(r@) == lexeme_views(input@),
{
    let text: String = label.to_owned();
    let ghost lab = text@;
    let ghost ev0 = events(pattern@, seq![], input@);
    proof {
        if pattern@.len() == 0 {
            lemma_empty_pattern_identity(lab, pattern@, input@);
        }
    }
    let f = move |ls: Vec<Lexeme>| -> (r: Vec<Lexeme>)
        requires
            ls@.len() > 0,
        ensures
            lexeme_views(r@) == seq![group_view(text@, ls@)],
        {
            let start = ls[0].meta().start;
            let end = ls[ls.len() - 1].meta().end;
            let g = Lexeme::Group(LMeta::multi(start, end), text.clone(), ls);
            let v = vec![g];
            proof {
                lemma_lexeme_views(v@);
            }
            assert(lexeme_views(v@) =~= seq![group_view(text@, ls@)]);
            v
        };
    assert(forall|x: Vec<Lexeme>, v: Vec<Lexeme>|
        #[trigger] f.ensures((x,), v) ==> lexeme_views(v@) == seq![group_view(lab, x@)]);
    let mut p = process(pattern, f, input);
    let mut out: Vec<Lexeme> = Vec::new();
    assert(lexeme_views(out@) + grouped(lab, p.remaining()) =~= grouped(lab, ev0)) by {
        lemma_lexeme_views(out@);
    }
    loop
        invariant
            p.wf(),
            p.reducer() == f,
            lab == label@,
            forall|x: Vec<Lexeme>, v: Vec<Lexeme>|
                #[trigger] f.ensures((x,), v) ==> lexeme_views(v@) == seq![group_view(lab, x@)],
            ev0 == events(pattern@, seq![], input@),
            pattern@.len() == 0 ==> grouped(lab, ev0) == lexeme_views(input@),
            lexeme_views(out@) + grouped(lab, p.remaining()) == grouped(lab, ev0),
        decreases p.remaining().len(),
    {
        let ghost rem = p.remaining();
        match p.next() {
            None => {
                assert(lexeme_views(out@) + grouped(lab, rem) =~= lexeme_views(out@));
                return out;
            },
            Some(v) => {
                proof {
                    assert(lexeme_views(v@) == rendered(lab, rem[0])) by {
                        match rem[0] {
                            Event::Pass(l) => {
                                lemma_lexeme_views(v@);
                                assert(lexeme_views(v@) =~= seq![l@]);
                            },
                            Event::Match(run) => {
                                assert(emits(f, rem[0], v));
                                let x = choose|x: Vec<Lexeme>| x@ == run && #[trigger] f.ensures((x,), v);
                                assert(lexeme_views(v@) == seq![group_view(lab, x@)]);
                            },
                        }
                    }
                    lemma_views_concat(out@, v@);
                    assert(lexeme_views(out@) + lexeme_views(v@) + grouped(lab, rem.drop_first())
                        =~= lexeme_views(out@) + grouped(lab, rem));
                }
                let mut v = v;
                out.append(&mut v);
            },
        }
    }
}

/// A `)` token with an empty span, for patterns.
pub fn r_paren() -> (r: Lexeme)
    ensures
        r@ == LexemeView::RParen(LMeta { start: 0, end: 0 }),
{
    Lexeme::RParen(LMeta::new())
}

/// A `(` token with an empty span, for patterns.
pub fn l_paren() -> (r: Lexeme)
    ensures
        r@ == LexemeView::LParen(LMeta { start: 0, end: 0 }),
{
    Lexeme::LParen(LMeta::new())
}

/// A `>` token with an empty span, for patterns.
pub fn r_angle() -> (r: Lexeme)
    ensures
        r@ == LexemeView::RAngle(LMeta { start: 0, end: 0 }),
{
    Lexeme::RAngle(LMeta::new())
}

/// A `<` token with an empty span, for patterns.
pub fn l_angle() -> (r: Lexeme)
    ensures
        r@ == LexemeView::LAngle(LMeta { start: 0, end: 0 }),
{
    Lexeme::LAngle(LMeta::new())
}

/// A `}` token with an empty span, for patterns.
pub fn r_curl() -> (r: Lexeme)
    ensures
        r@ == LexemeView::RCurl(LMeta { start: 0, end: 0 }),
{
    Lexeme::RCurl(LMeta::new())
}

/// A `{` token with an empty span, for patterns.
pub fn l_curl() -> (r: Lexeme)
    ensures
        r@ == LexemeView::LCurl(LMeta { start: 0, end: 0 }),
{
    Lexeme::LCurl(LMeta::new())
}

/// A `]` token with an empty span, for patterns.
pub fn r_square() -> (r: Lexeme)
    ensures
        r@ == LexemeView::RSquare(LMeta { start: 0, end: 0 }),
{
    Lexeme::RSquare(LMeta::new())
}

/// A `[` token with an empty span, for patterns.
pub fn l_square() -> (r: Lexeme)
    ensures
        r@ == LexemeView::LSquare(LMeta { start: 0, end: 0 }),
{
    Lexeme::LSquare(LMeta::new())
}

/// A punctuation token with an empty span, for patterns.
pub fn punct(c: char) -> (r: Lexeme)
    ensures
        r@ == LexemeView::Punct(LMeta { start: 0, end: 0 }, c),
{
    Lexeme::Punct(LMeta::new(), c)
}

/// A group token with an empty span, for patterns.
pub fn group(label: &str, ls: Vec<Lexeme>) -> (r: Lexeme)
    ensures
        r@ == LexemeView::Group(LMeta { start: 0, end: 0 }, label@, lexeme_views(ls@)),
{
    Lexeme::Group(LMeta::new(), label.to_owned(), ls)
}

/// A string token with an empty span, for patterns.
pub fn string(s: &str) -> (r: Lexeme)
    ensures
        r@ == LexemeView::Text(LMeta { start: 0, end: 0 }, s@),
{
    Lexeme::String(LMeta::new(), s.to_owned())
}

/// A number token with an empty span, for patterns.
pub fn number(s: &str) -> (r: Lexeme)
    ensures
        r@ == LexemeView::Number(LMeta { start: 0, end: 0 }, s@),
{
    Lexeme::Number(LMeta::new(), s.to_owned())
}

/// A symbol token with an empty span, for patterns.
pub fn symbol(s: &str) -> (r: Lexeme)
    ensures
        r@ == LexemeView::Symbol(LMeta { start: 0, end: 0 }, s@),
{
    Lexeme::Symbol(LMeta::new(), s.to_owned())
}

} // verus!

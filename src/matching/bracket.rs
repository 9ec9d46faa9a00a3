//! The bracket rule engine: reduces a bracket sequence by labelled fixed-length rules.

use vstd::prelude::*;
use crate::data::{Bracket, bracket_matches, reversed};

verus! {

/// One position of a rule's pattern.
pub enum PatternOf<P> {
    Wild,
    Exact(Bracket),
    Pred(P),
}

/// A pattern position whose predicate is a plain function.
pub type Pattern = PatternOf<fn(&Bracket) -> bool>;

/// A predicate that accepts every node and answers the same for the same node.
pub open spec fn pred_ok<P: Fn(&Bracket) -> bool>(f: P) -> bool {
    &&& forall|d: &Bracket| #[trigger] f.requires((d,))
    &&& forall|d: &Bracket, a: bool, b: bool|
        #[trigger] f.ensures((d,), a) && #[trigger] f.ensures((d,), b) ==> a == b
}

pub open spec fn patterns_ok<P: Fn(&Bracket) -> bool>(pat: Seq<PatternOf<P>>) -> bool {
    forall|i: int| 0 <= i < pat.len() ==> (#[trigger] pat[i] matches PatternOf::Pred(f) ==> pred_ok(f))
}

/// Whether one pattern position accepts a node.
pub open spec fn pattern_holds<P: Fn(&Bracket) -> bool>(p: PatternOf<P>, d: Bracket) -> bool {
    match p {
        PatternOf::Wild => true,
        PatternOf::Exact(b) => bracket_matches(b@, d@),
        PatternOf::Pred(f) => f.ensures((&d,), true),
    }
}

/// Whether a pattern accepts a run of nodes, position by position.
pub open spec fn pattern_matches<P: Fn(&Bracket) -> bool>(
    pat: Seq<PatternOf<P>>,
    data: Seq<Bracket>,
) -> bool {
    &&& pat.len() == data.len()
    &&& forall|i: int| 0 <= i < pat.len() ==> pattern_holds(#[trigger] pat[i], data[i])
}

fn pattern_match<P: Fn(&Bracket) -> bool>(pattern: &Vec<PatternOf<P>>, data: &Vec<Bracket>) -> (r:
    bool)
    requires
        pattern.len() == data.len(),
        patterns_ok(pattern@),
    ensures
        r == pattern_matches(pattern@, data@),
{
    let mut i: usize = 0;
    while i < pattern.len()
        invariant
            pattern.len() == data.len(),
            patterns_ok(pattern@),
            0 <= i <= pattern.len(),
            forall|j: int| 0 <= j < i ==> pattern_holds(#[trigger] pattern@[j], data@[j]),
        decreases pattern.len() - i,
    {
        let ok = match &pattern[i] {
            PatternOf::Wild => true,
            PatternOf::Pred(f) => {
                assert(pred_ok(*f)) by {
                    assert(pattern@[i as int] matches PatternOf::Pred(g) ==> pred_ok(g));
                }
                let b = f(&data[i]);
                assert(b == pattern_holds(pattern@[i as int], data@[i as int]));
                b
            },
            PatternOf::Exact(l) => l.lmatch(&data[i]),
        };
        if !ok {
            return false;
        }
        i = i + 1;
    }
    true
}

/// A pattern with the function that reduces a run it accepts.
pub struct RuleOf<P, F> {
    pub pattern: Vec<PatternOf<P>>,
    pub f: F,
}

/// A rule whose predicates and reducer are plain functions.
pub type Rule<T> = RuleOf<fn(&Bracket) -> bool, fn(Vec<Bracket>) -> T>;

impl<P, F> RuleOf<P, F> {
    /// The rule that reduces each run `pattern` accepts with `f`.
    pub fn new(pattern: Vec<PatternOf<P>>, f: F) -> (r: RuleOf<P, F>)
        ensures
            r.pattern@ == pattern@,
            r.f == f,
    {
        RuleOf { pattern, f }
    }
}

impl<P, F> From<(Vec<PatternOf<P>>, F)> for RuleOf<P, F> {
    fn from(value: (Vec<PatternOf<P>>, F)) -> RuleOf<P, F> {
        RuleOf { pattern: value.0, f: value.1 }
    }
}

impl<P, F> vstd::std_specs::convert::FromSpecImpl<(Vec<PatternOf<P>>, F)> for RuleOf<P, F> {
    open spec fn obeys_from_spec() -> bool {
        true
    }

    open spec fn from_spec(v: (Vec<PatternOf<P>>, F)) -> RuleOf<P, F> {
        RuleOf { pattern: v.0, f: v.1 }
    }
}

/// Why a bracket sequence could not be reduced.
#[derive(Debug)]
pub enum BracketProcessError {
    CurrentBufferExceedsAllPatterns(Vec<Bracket>),
    CurrentBufferCannotBeMatchedAgainstAnyPattern(Vec<Bracket>),
}

/// The failure of a reduction, with the pending buffer.
pub enum ProcessFailure {
    Exceeds(Seq<Bracket>),
    Unmatched(Seq<Bracket>),
}

impl BracketProcessError {
    /// The failure, with the buffer as a sequence.
    pub open spec fn failure(&self) -> ProcessFailure {
        match self {
            BracketProcessError::CurrentBufferExceedsAllPatterns(b) => ProcessFailure::Exceeds(b@),
            BracketProcessError::CurrentBufferCannotBeMatchedAgainstAnyPattern(b) => ProcessFailure::Unmatched(b@),
        }
    }
}

/// Whether every rule's predicates and reducer can be called as the engine calls them.
pub open spec fn rules_ok<T, P: Fn(&Bracket) -> bool, F: Fn(Vec<Bracket>) -> T>(
    rules: Seq<RuleOf<P, F>>,
) -> bool {
    forall|k: int|
        0 <= k < rules.len() ==> {
            &&& patterns_ok((#[trigger] rules[k]).pattern@)
            &&& forall|x: Vec<Bracket>| x@.len() == rules[k].pattern@.len() ==> rules[k].f.requires((x,))
        }
}

/// The longest pattern length among the first `k` rules.
pub open spec fn max_len<P, F>(rules: Seq<RuleOf<P, F>>, k: int) -> nat
    decreases k,
{
    if k <= 0 {
        0
    } else {
        let m = max_len(rules, k - 1);
        let l = rules[k - 1].pattern@.len();
        if l > m {
            l
        } else {
            m
        }
    }
}

/// A rule firing: the index of the rule and the run it reduced.
pub type Firing = (int, Seq<Bracket>);

/// One pass over the rules from rule `k` on: each rule whose pattern accepts the current
/// buffer fires on it and empties it. Gives the firings and the buffer after the pass.
pub open spec fn fire<P: Fn(&Bracket) -> bool, F>(
    rules: Seq<RuleOf<P, F>>,
    k: int,
    buf: Seq<Bracket>,
) -> (Seq<Firing>, Seq<Bracket>)
    decreases rules.len() - k,
{
    if k < 0 || k >= rules.len() {
        (seq![], buf)
    } else if pattern_matches(rules[k].pattern@, buf) {
        let (fs, b) = fire(rules, k + 1, seq![]);
        (seq![(k, buf)] + fs, b)
    } else {
        fire(rules, k + 1, buf)
    }
}

/// The firings of the engine from buffer `buf` with input `rest` still to come.
pub open spec fn run<P: Fn(&Bracket) -> bool, F>(
    rules: Seq<RuleOf<P, F>>,
    buf: Seq<Bracket>,
    rest: Seq<Bracket>,
) -> Result<Seq<Firing>, ProcessFailure>
    decreases rest.len(),
{
    if buf.len() > max_len(rules, rules.len() as int) {
        Err(ProcessFailure::Exceeds(buf))
    } else {
        let (fs, b) = fire(rules, 0, buf);
        if rest.len() == 0 {
            if b.len() > 0 {
                Err(ProcessFailure::Unmatched(b))
            } else {
                Ok(fs)
            }
        } else {
            match run(rules, b.push(rest[0]), rest.drop_first()) {
                Ok(t) => Ok(fs + t),
                Err(e) => Err(e),
            }
        }
    }
}

/// The firings of the engine over a whole input.
pub open spec fn process_spec<P: Fn(&Bracket) -> bool, F>(
    rules: Seq<RuleOf<P, F>>,
    input: Seq<Bracket>,
) -> Result<Seq<Firing>, ProcessFailure> {
    run(rules, seq![], input)
}

/// Whether `out` holds, in order, what the reducers gave for each firing.
pub open spec fn reduced<T, P, F: Fn(Vec<Bracket>) -> T>(
    rules: Seq<RuleOf<P, F>>,
    fs: Seq<Firing>,
    out: Seq<T>,
) -> bool {
    &&& out.len() == fs.len()
    &&& forall|i: int| 0 <= i < fs.len() ==> reduced_one(rules, fs[i], #[trigger] out[i])
}

/// Whether `o` is what the reducer of the firing's rule gave for its run.
pub open spec fn reduced_one<T, P, F: Fn(Vec<Bracket>) -> T>(
    rules: Seq<RuleOf<P, F>>,
    firing: Firing,
    o: T,
) -> bool {
    exists|x: Vec<Bracket>| x@ == firing.1 && rules[firing.0].f.ensures((x,), o)
}

fn max_pattern_len<P, F>(rules: &[RuleOf<P, F>]) -> (r: usize)
    ensures
        r == max_len(rules@, rules@.len() as int),
{
    let mut m: usize = 0;
    let mut k: usize = 0;
    while k < rules.len()
        invariant
            0 <= k <= rules.len(),
            m == max_len(rules@, k as int),
        decreases rules.len() - k,
    {
        let l = rules[k].pattern.len();
        if l > m {
            m = l;
        }
        k = k + 1;
    }
    m
}

/// Reduces a bracket sequence by the rules, or fails with the pending buffer.
pub fn process<T, P: Fn(&Bracket) -> bool, F: Fn(Vec<Bracket>) -> T>(
    rules: &[RuleOf<P, F>],
    input: Vec<Bracket>,
) -> (r: Result<Vec<T>, BracketProcessError>)
    requires
        rules_ok(rules@),
    ensures
        match process_spec(rules@, input@) {
            Ok(fs) => r matches Ok(out) && reduced(rules@, fs, out@),
            Err(e) => r matches Err(err) && err.failure() == e,
        },
{
    let ghost rs = rules@;
    let ghost orig = input@;
    let max = max_pattern_len(rules);
    let n = input.len();
    let mut rest = reversed(input);
    let mut buf: Vec<Bracket> = Vec::new();
    let mut ret: Vec<T> = Vec::new();
    let ghost mut done: Seq<Firing> = seq![];
    let ghost mut consumed: int = 0;
    assert(orig.subrange(0, n as int) =~= orig);
    loop
        invariant
            rs == rules@,
            rules_ok(rs),
            max == max_len(rs, rs.len() as int),
            n == orig.len(),
            orig == input@,
            0 <= consumed <= n,
            rest.len() == n - consumed,
            forall|j: int| 0 <= j < rest.len() ==> #[trigger] rest@[j] == orig[n - 1 - j],
            reduced(rs, done, ret@),
            process_spec(rs, orig) == match run(rs, buf@, orig.subrange(consumed, n as int)) {
                Ok(t) => Ok(done + t),
                Err(e) => Err(e),
            },
        decreases n - consumed,
    {
        let ghost tail = orig.subrange(consumed, n as int);
        if buf.len() > max {
            assert(run(rs, buf@, tail) == Err::<Seq<Firing>, ProcessFailure>(ProcessFailure::Exceeds(buf@)));
            return Err(BracketProcessError::CurrentBufferExceedsAllPatterns(buf));
        }
        let ghost buf0 = buf@;
        let ghost done0 = done;
        let mut k: usize = 0;
        while k < rules.len()
            invariant
                rs == rules@,
                rules_ok(rs),
                0 <= k <= rs.len(),
                reduced(rs, done, ret@),
                ({
                    let (fs, b) = fire(rs, k as int, buf@);
                    let (fs0, b0) = fire(rs, 0, buf0);
                    done0 + fs0 == done + fs && b0 == b
                }),
            decreases rs.len() - k,
        {
            let rule = &rules[k];
            if rule.pattern.len() == buf.len() && pattern_match(&rule.pattern, &buf) {
                let run_buf = buf;
                buf = Vec::new();
                let out = (rule.f)(run_buf);
                proof {
                    let (fs, b) = fire(rs, k as int + 1, seq![]);
                    assert(buf@ =~= seq![]);
                    assert(done + (seq![(k as int, run_buf@)] + fs) =~= done.push((k as int, run_buf@)) + fs);
                    let old_done = done;
                    done = done.push((k as int, run_buf@));
                    assert forall|i: int| 0 <= i < done.len() implies reduced_one(
                        rs,
                        done[i],
                        #[trigger] ret@.push(out)[i],
                    ) by {
                        if i < old_done.len() {
                            assert(ret@.push(out)[i] == ret@[i]);
                            assert(reduced_one(rs, old_done[i], ret@[i]));
                        } else {
                            assert(ret@.push(out)[i] == out);
                            assert(run_buf@ == done[i].1 && rs[done[i].0].f.ensures((run_buf,), out));
                        }
                    }
                }
                ret.push(out);
            }
            k = k + 1;
        }
        match rest.pop() {
            None => {
                assert(tail.len() == 0);
                if buf.len() > 0 {
                    assert(run(rs, buf0, tail) == Err::<Seq<Firing>, ProcessFailure>(ProcessFailure::Unmatched(buf@)));
                    return Err(BracketProcessError::CurrentBufferCannotBeMatchedAgainstAnyPattern(buf));
                }
                assert(done0 + fire(rs, 0, buf0).0 == done);
                assert(done + Seq::<Firing>::empty() =~= done);
                return Ok(ret);
            },
            Some(x) => {
                proof {
                    assert(x == tail[0]);
                    assert(tail.drop_first() =~= orig.subrange(consumed + 1, n as int));
                    let (fs0, b0) = fire(rs, 0, buf0);
                    match run(rs, b0.push(x), tail.drop_first()) {
                        Ok(t) => {
                            assert(done0 + (fs0 + t) =~= done + t);
                        },
                        Err(e) => {},
                    }
                    consumed = consumed + 1;
                }
                buf.push(x);
            },
        }
    }
}

} // verus!

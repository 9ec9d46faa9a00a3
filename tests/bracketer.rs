use lexbrack::data::{Bracket, LMeta, Lexeme};
use lexbrack::parsing::bracketer::{bracket, BracketError};
use lexbrack::parsing::lexer::lex;

#[test]
fn should_bracket_paren() {
    let input = "( 1 2 3 )";
    let tokens = lex(input).unwrap();
    let ast = bracket(tokens).unwrap();
    assert_eq!(ast.len(), 1);
    assert!(matches!(ast[0], Bracket::Paren(_, _)));
}

#[test]
fn should_bracket_angle() {
    let input = "< 1 2 3 >";
    let tokens = lex(input).unwrap();
    let ast = bracket(tokens).unwrap();
    assert_eq!(ast.len(), 1);
    assert!(matches!(ast[0], Bracket::Angle(_, _)));
}

#[test]
fn should_bracket_curl() {
    let input = "{ 1 2 3 }";
    let tokens = lex(input).unwrap();
    let ast = bracket(tokens).unwrap();
    assert_eq!(ast.len(), 1);
    assert!(matches!(ast[0], Bracket::Curl(_, _)));
}

#[test]
fn should_bracket_square() {
    let input = "[ 1 2 3 ]";
    let tokens = lex(input).unwrap();
    let ast = bracket(tokens).unwrap();
    assert_eq!(ast.len(), 1);
    assert!(matches!(ast[0], Bracket::Square(_, _)));
}

#[test]
fn should_bracket_paren_in_paren() {
    let input = "( 1 ( 2 3 ) )";
    let tokens = lex(input).unwrap();
    let ast = bracket(tokens).unwrap();
    assert_eq!(ast.len(), 1);
    assert!(matches!(ast[0], Bracket::Paren(_, _)));
    let items = match &ast[0] {
        Bracket::Paren(_, items) => items,
        _ => unreachable!(),
    };
    assert_eq!(items.len(), 2);
    assert!(matches!(items[0], Bracket::Lex(Lexeme::Number(_, _))));
    assert!(matches!(items[1], Bracket::Paren(_, _)));
}

#[test]
fn nested_round_trip_keeps_contents_and_spans() {
    let ast = bracket(lex("( 1 ( 2 3 ) )").unwrap()).unwrap();
    assert_eq!(ast.len(), 1);
    assert_eq!(ast[0].meta(), LMeta::multi(0, 12));
    let items = match &ast[0] {
        Bracket::Paren(_, items) => items,
        _ => unreachable!(),
    };
    match &items[0] {
        Bracket::Lex(Lexeme::Number(_, n)) => assert_eq!(n, "1"),
        _ => panic!("expected a number"),
    }
    let inner = match &items[1] {
        Bracket::Paren(m, inner) => {
            assert_eq!(*m, LMeta::multi(4, 10));
            inner
        },
        _ => panic!("expected a paren"),
    };
    assert_eq!(inner.len(), 2);
    match (&inner[0], &inner[1]) {
        (Bracket::Lex(Lexeme::Number(_, a)), Bracket::Lex(Lexeme::Number(_, b))) => {
            assert_eq!(a, "2");
            assert_eq!(b, "3");
        },
        _ => panic!("expected two numbers"),
    }
}

#[test]
fn mismatched_closer_is_reported() {
    let r = bracket(lex("( 1 ]").unwrap());
    assert_eq!(
        r.unwrap_err(),
        BracketError::MissingEndBracket { initial: 0, terminal: 4, found: ']', expected: ')' }
    );
}

#[test]
fn missing_closer_at_end_is_reported() {
    let r = bracket(lex("{ ( 1 )").unwrap());
    assert_eq!(r.unwrap_err(), BracketError::EofInsteadOfEndBracket { initial: 0, expected: '}' });
}

#[test]
fn innermost_open_bracket_is_reported_at_end() {
    let r = bracket(lex("{ < 1").unwrap());
    assert_eq!(r.unwrap_err(), BracketError::EofInsteadOfEndBracket { initial: 2, expected: '>' });
}

#[test]
fn stray_closer_is_reported() {
    let r = bracket(lex("1 ] 2").unwrap());
    assert_eq!(r.unwrap_err(), BracketError::NotAllInputConsumed(2));
}

#[test]
fn flat_tokens_stay_in_order() {
    let ast = bracket(lex("a , 7").unwrap()).unwrap();
    assert_eq!(ast.len(), 3);
    assert!(matches!(ast[0], Bracket::Lex(Lexeme::Symbol(_, _))));
    assert!(matches!(ast[1], Bracket::Lex(Lexeme::Punct(_, ','))));
    assert!(matches!(ast[2], Bracket::Lex(Lexeme::Number(_, _))));
    assert_eq!(ast[2].meta(), LMeta::single(4));
}

#[test]
fn empty_input_gives_empty_forest() {
    let ast = bracket(Vec::new()).unwrap();
    assert_eq!(ast.len(), 0);
}

#[test]
fn bracket_lmatch_ignores_spans() {
    let a = bracket(lex("( 1 [ x ] )").unwrap()).unwrap();
    let b = bracket(lex("(1[x])").unwrap()).unwrap();
    let c = bracket(lex("( 1 [ y ] )").unwrap()).unwrap();
    let d = bracket(lex("( 1 [ x ] 2 )").unwrap()).unwrap();
    assert!(a[0].lmatch(&a[0]));
    assert!(a[0].lmatch(&b[0]));
    assert!(!a[0].lmatch(&c[0]));
    assert!(!a[0].lmatch(&d[0]));
    assert!(!d[0].lmatch(&a[0]));
}

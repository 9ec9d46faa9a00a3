use lexbrack::data::{LMeta, Lexeme};
use lexbrack::matching::lexeme::{
    group, grouper, l_angle, l_curl, l_paren, l_square, number, process, punct, r_angle, r_curl,
    r_paren, r_square, string, symbol, Pattern,
};
use lexbrack::parsing::lexer::lex;

#[test]
fn should_process() {
    let input = "1 2 3";
    let tokens = lex(input).unwrap();
    let mut p = process(vec![Pattern::Wild], |mut ls: Vec<Lexeme>| { ls.push(number("0")); ls }, tokens);
    let mut output = vec![];
    while let Some(v) = p.next() {
        output.extend(v);
    }
    assert_eq!(output.len(), 6);
    assert!(matches!(output[0], Lexeme::Number(_, _)));
    assert!(matches!(output[1], Lexeme::Number(_, _)));
    assert!(matches!(output[2], Lexeme::Number(_, _)));
    assert!(matches!(output[3], Lexeme::Number(_, _)));
    assert!(matches!(output[4], Lexeme::Number(_, _)));
    assert!(matches!(output[5], Lexeme::Number(_, _)));

    if let Lexeme::Number(_, n) = &output[0] {
        assert_eq!(n, "1");
    }
    if let Lexeme::Number(_, n) = &output[1] {
        assert_eq!(n, "0");
    }
    if let Lexeme::Number(_, n) = &output[2] {
        assert_eq!(n, "2");
    }
    if let Lexeme::Number(_, n) = &output[3] {
        assert_eq!(n, "0");
    }
    if let Lexeme::Number(_, n) = &output[4] {
        assert_eq!(n, "3");
    }
    if let Lexeme::Number(_, n) = &output[5] {
        assert_eq!(n, "0");
    }
}

#[test]
fn should_group_with_zero_length_input() {
    let input = "";
    let tokens = lex(input).unwrap();
    let output = grouper(vec![Pattern::Wild], "label", tokens);
    assert_eq!(output.len(), 0);
}

#[test]
fn should_group_with_zero_length_pattern() {
    let input = "1 2 3";
    let tokens = lex(input).unwrap();
    let pattern: Vec<Pattern> = vec![];
    let output = grouper(pattern, "label", tokens);
    assert_eq!(output.len(), 3);
    assert!(matches!(output[0], Lexeme::Number(_, _)));
    assert!(matches!(output[1], Lexeme::Number(_, _)));
    assert!(matches!(output[2], Lexeme::Number(_, _)));
}

#[test]
fn should_group_with_wild_pattern() {
    let input = "1 2 3";
    let tokens = lex(input).unwrap();
    let output = grouper(vec![Pattern::Wild, Pattern::Wild], "label", tokens);
    assert_eq!(output.len(), 2);
    assert!(matches!(output[0], Lexeme::Group(_, _, _)));
    assert!(matches!(output[1], Lexeme::Number(_, _)));

    if let Lexeme::Group(meta, label, ls) = &output[0] {
        assert_eq!(meta.start, 0);
        assert_eq!(meta.end, 2);
        assert_eq!(label, "label");
        assert_eq!(ls.len(), 2);
    }

    if let Lexeme::Number(_, n) = &output[1] {
        assert_eq!(n, "3");
    }
}

#[test]
fn should_group_with_exact_pattern() {
    let input = "1 2 3 4";
    let tokens = lex(input).unwrap();
    let output = grouper(vec![Pattern::Exact(number("1")), Pattern::Wild], "label", tokens);
    assert_eq!(output.len(), 3);
    assert!(matches!(output[0], Lexeme::Group(_, _, _)));
    assert!(matches!(output[1], Lexeme::Number(_, _)));
    assert!(matches!(output[2], Lexeme::Number(_, _)));

    if let Lexeme::Group(meta, label, ls) = &output[0] {
        assert_eq!(meta.start, 0);
        assert_eq!(meta.end, 2);
        assert_eq!(label, "label");
        assert_eq!(ls.len(), 2);
    }

    if let Lexeme::Number(_, n) = &output[1] {
        assert_eq!(n, "3");
    }

    if let Lexeme::Number(_, n) = &output[2] {
        assert_eq!(n, "4");
    }
}

#[test]
fn should_group_with_pred_pattern() {
    fn odd(l: &Lexeme) -> bool {
        match l {
            Lexeme::Number(_, x) => x.parse::<u8>().unwrap() % 2 == 1,
            _ => false,
        }
    }

    let input = "1 2 3";
    let tokens = lex(input).unwrap();
    let output = grouper(vec![Pattern::Pred(odd), Pattern::Wild], "label", tokens);
    assert_eq!(output.len(), 2);
    assert!(matches!(output[0], Lexeme::Group(_, _, _)));
    assert!(matches!(output[1], Lexeme::Number(_, _)));

    if let Lexeme::Group(meta, label, ls) = &output[0] {
        assert_eq!(meta.start, 0);
        assert_eq!(meta.end, 2);
        assert_eq!(label, "label");
        assert_eq!(ls.len(), 2);
    }

    if let Lexeme::Number(_, n) = &output[1] {
        assert_eq!(n, "3");
    }
}

#[test]
fn should_group_float_like_structure() {
    fn any_num() -> Pattern {
        Pattern::Pred(|x| matches!(x, Lexeme::Number(_, _)))
    }

    let input = "1.2 0 12.34 5 3.4";
    let tokens = lex(input).unwrap();
    let output = grouper(vec![any_num(), Pattern::Exact(punct('.')), any_num()], "float", tokens);
    assert_eq!(output.len(), 5);
    assert!(matches!(output[0], Lexeme::Group(_, _, _)));
    assert!(matches!(output[1], Lexeme::Number(_, _)));
    assert!(matches!(output[2], Lexeme::Group(_, _, _)));
    assert!(matches!(output[3], Lexeme::Number(_, _)));
    assert!(matches!(output[4], Lexeme::Group(_, _, _)));

    if let Lexeme::Group(meta, label, ls) = &output[0] {
        assert_eq!(meta.start, 0);
        assert_eq!(meta.end, 2);
        assert_eq!(label, "float");
        assert_eq!(ls.len(), 3);
        assert!(matches!(ls[0], Lexeme::Number(_, _)));
        assert!(matches!(ls[1], Lexeme::Punct(_, _)));
        assert!(matches!(ls[2], Lexeme::Number(_, _)));
    }

    if let Lexeme::Number(_, n) = &output[1] {
        assert_eq!(n, "0");
    }

    if let Lexeme::Group(meta, label, ls) = &output[2] {
        assert_eq!(meta.start, 6);
        assert_eq!(meta.end, 10);
        assert_eq!(label, "float");
        assert_eq!(ls.len(), 3);
        assert!(matches!(ls[0], Lexeme::Number(_, _)));
        assert!(matches!(ls[1], Lexeme::Punct(_, _)));
        assert!(matches!(ls[2], Lexeme::Number(_, _)));
    }

    if let Lexeme::Number(_, n) = &output[3] {
        assert_eq!(n, "5");
    }

    if let Lexeme::Group(meta, label, ls) = &output[4] {
        assert_eq!(meta.start, 14);
        assert_eq!(meta.end, 16);
        assert_eq!(label, "float");
        assert_eq!(ls.len(), 3);
        assert!(matches!(ls[0], Lexeme::Number(_, _)));
        assert!(matches!(ls[1], Lexeme::Punct(_, _)));
        assert!(matches!(ls[2], Lexeme::Number(_, _)));
    }
}

#[test]
fn zero_length_pattern_is_identity() {
    let tokens = lex("1 2 3").unwrap();
    let pattern: Vec<Pattern> = vec![];
    let output = grouper(pattern, "label", tokens);
    let values: Vec<String> = output.iter().map(|t| t.value()).collect();
    assert_eq!(values, vec!["1", "2", "3"]);
    assert_eq!(output[0].meta(), LMeta::single(0));
    assert_eq!(output[1].meta(), LMeta::single(2));
    assert_eq!(output[2].meta(), LMeta::single(4));
}

#[test]
fn two_wildcards_do_not_overlap() {
    let output = grouper(vec![Pattern::Wild, Pattern::Wild], "pair", lex("1 2 3").unwrap());
    assert_eq!(output.len(), 2);
    match &output[0] {
        Lexeme::Group(meta, label, ls) => {
            assert_eq!(*meta, LMeta::multi(0, 2));
            assert_eq!(label, "pair");
            assert_eq!(ls.len(), 2);
            assert_eq!(ls[0].value(), "1");
            assert_eq!(ls[1].value(), "2");
        },
        _ => panic!("expected a group"),
    }
    assert_eq!(output[1].value(), "3");
    assert_eq!(output[1].meta(), LMeta::single(4));
}

#[test]
fn failed_test_shifts_by_one_token() {
    let output = grouper(vec![Pattern::Exact(symbol("a")), Pattern::Exact(symbol("b"))], "ab", lex("a a b b").unwrap());
    assert_eq!(output.len(), 3);
    assert_eq!(output[0].value(), "a");
    assert!(matches!(output[1], Lexeme::Group(_, _, _)));
    assert_eq!(output[1].meta(), LMeta::multi(2, 4));
    assert_eq!(output[1].value(), "ab");
    assert_eq!(output[2].value(), "b");
}

#[test]
fn partial_match_at_end_passes_through() {
    let output = grouper(vec![Pattern::Wild, Pattern::Wild, Pattern::Wild], "t", lex("x y").unwrap());
    assert_eq!(output.len(), 2);
    assert_eq!(output[0].value(), "x");
    assert_eq!(output[1].value(), "y");
}

#[test]
fn processor_drains_leftovers_one_at_a_time() {
    let mut p = process(vec![Pattern::Wild, Pattern::Wild, Pattern::Wild], |ls: Vec<Lexeme>| ls, lex("x y").unwrap());
    let first = p.next().unwrap();
    assert_eq!(first.len(), 1);
    assert_eq!(first[0].value(), "x");
    let second = p.next().unwrap();
    assert_eq!(second.len(), 1);
    assert_eq!(second[0].value(), "y");
    assert!(p.next().is_none());
    assert!(p.next().is_none());
}

#[test]
fn groups_are_matched_structurally() {
    let a = group("g", vec![number("1"), punct('.')]);
    let b = group("g", vec![number("1"), punct('.')]);
    let c = group("g", vec![number("1")]);
    let d = group("h", vec![number("1"), punct('.')]);
    assert!(a.lmatch(&b));
    assert!(!a.lmatch(&c));
    assert!(!c.lmatch(&a));
    assert!(!a.lmatch(&d));
    assert_eq!(a.value(), "1.");
}

#[test]
fn lmatch_is_reflexive_and_ignores_spans() {
    let tokens = lex("( ) < > { } [ ] ; \"s\" 12 ab").unwrap();
    let blank = vec![
        l_paren(), r_paren(), l_angle(), r_angle(), l_curl(), r_curl(), l_square(), r_square(),
        punct(';'), string("s"), number("12"), symbol("ab"),
    ];
    assert_eq!(tokens.len(), blank.len());
    for i in 0..tokens.len() {
        assert!(tokens[i].lmatch(&tokens[i]));
        assert!(tokens[i].lmatch(&blank[i]));
        assert!(blank[i].lmatch(&tokens[i]));
        assert_eq!(blank[i].meta(), LMeta::new());
    }
    assert!(!number("12").lmatch(&symbol("12")));
    assert!(!punct(';').lmatch(&punct(',')));
    assert!(!string("s").lmatch(&string("t")));
}

#[test]
fn constructors_render_their_text() {
    assert_eq!(r_paren().value(), ")");
    assert_eq!(l_paren().value(), "(");
    assert_eq!(r_angle().value(), ">");
    assert_eq!(l_angle().value(), "<");
    assert_eq!(r_curl().value(), "}");
    assert_eq!(l_curl().value(), "{");
    assert_eq!(r_square().value(), "]");
    assert_eq!(l_square().value(), "[");
    assert_eq!(punct('%').value(), "%");
    assert_eq!(string("a b").value(), "a b");
    assert_eq!(number("42").value(), "42");
    assert_eq!(symbol("xy").value(), "xy");
    assert_eq!(group("g", vec![symbol("x"), punct('+'), number("1")]).value(), "x+1");
}

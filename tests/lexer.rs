use lexbrack::data::{LMeta, Lexeme};
use lexbrack::parsing::lexer::{lex, LexError};

#[test]
fn should_handle_whitespace() {
    let output = lex(" \t \r \n ").unwrap();
    assert_eq!(output.len(), 0);
}

#[test]
fn should_handle_comment() {
    let output = lex(" // comment $ ").unwrap();
    assert_eq!(output.len(), 0);
}

#[test]
fn should_handle_block_comment() {
    let input = "

    /*
        block comment $

    */

";
    let output = lex(input).unwrap();
    assert_eq!(output.len(), 0);
}

#[test]
fn should_handle_nested_block_comment() {
    let input = "

    /*
        block comment $
        /* %%% */
        /* %%% */
        /* /* */ */
    */

";
    let output = lex(input).unwrap();
    assert_eq!(output.len(), 0);
}

#[test]
fn should_handle_nested_block_with_termination_in_comment() {
    let input = "

    /*
    // */

    77

";
    let output = lex(input).unwrap();
    assert_eq!(output.len(), 1);
    assert_eq!(output[0].meta(), LMeta::multi(24, 25));
    assert_eq!(output[0].value(), "77");
}

#[test]
fn should_lex_single_digit_and_nothing_else() {
    let input = "7";
    let output = lex(input).unwrap();
    assert_eq!(output.len(), 1);
    assert!(matches!(output[0], Lexeme::Number(_, _)));
    assert_eq!(output[0].meta(), LMeta::single(0));
    assert_eq!(output[0].value(), "7");
}

#[test]
fn should_lex_numbers() {
    let input = "1234 5678 1 2";
    let output = lex(input).unwrap();
    assert_eq!(output.len(), 4);
    assert!(matches!(output[0], Lexeme::Number(_, _)));
    assert_eq!(output[0].meta(), LMeta::multi(0, 3));
    assert_eq!(output[0].value(), "1234");

    assert!(matches!(output[1], Lexeme::Number(_, _)));
    assert_eq!(output[1].meta(), LMeta::multi(5, 8));
    assert_eq!(output[1].value(), "5678");

    assert!(matches!(output[2], Lexeme::Number(_, _)));
    assert_eq!(output[2].meta(), LMeta::multi(10, 10));
    assert_eq!(output[2].value(), "1");

    assert!(matches!(output[3], Lexeme::Number(_, _)));
    assert_eq!(output[3].meta(), LMeta::multi(12, 12));
    assert_eq!(output[3].value(), "2");
}

#[test]
fn should_lex_digit_followed_by_comma() {
    let input = "1,";
    let output = lex(input).unwrap();
    assert_eq!(output.len(), 2);
    assert!(matches!(output[0], Lexeme::Number(_, _)));
    assert!(matches!(output[1], Lexeme::Punct(_, ',')));
}

#[test]
fn should_lex_single_symbol_followed_by_comma() {
    let input = "x,";
    let output = lex(input).unwrap();
    assert_eq!(output.len(), 2);
    assert!(matches!(output[0], Lexeme::Symbol(_, _)));
    assert!(matches!(output[1], Lexeme::Punct(_, ',')));
}

#[test]
fn should_lex_single_letter_and_nothing_else() {
    let input = "a";
    let output = lex(input).unwrap();
    assert_eq!(output.len(), 1);
    assert!(matches!(output[0], Lexeme::Symbol(_, _)));
    assert_eq!(output[0].meta(), LMeta::single(0));
    assert_eq!(output[0].value(), "a");
}

#[test]
fn should_lex_symbols() {
    let input = "Symbol symb0l _sym_bol8 _1symboL";
    let output = lex(input).unwrap();
    assert_eq!(output.len(), 4);
    assert!(matches!(output[0], Lexeme::Symbol(_, _)));
    assert_eq!(output[0].meta(), LMeta::multi(0, 5));
    assert_eq!(output[0].value(), "Symbol");

    assert!(matches!(output[1], Lexeme::Symbol(_, _)));
    assert_eq!(output[1].meta(), LMeta::multi(7, 12));
    assert_eq!(output[1].value(), "symb0l");

    assert!(matches!(output[2], Lexeme::Symbol(_, _)));
    assert_eq!(output[2].meta(), LMeta::multi(14, 22));
    assert_eq!(output[2].value(), "_sym_bol8");

    assert!(matches!(output[3], Lexeme::Symbol(_, _)));
    assert_eq!(output[3].meta(), LMeta::multi(24, 31));
    assert_eq!(output[3].value(), "_1symboL");
}

#[test]
fn should_lex_string() {
    let input = " \"string \\t \\n \\r \\0 \\\\ \\\" \"";
    let output = lex(input).unwrap();
    assert_eq!(output.len(), 1);
    assert!(matches!(output[0], Lexeme::String(_, _)));
    assert_eq!(output[0].meta(), LMeta::multi(1, 27));
    assert_eq!(output[0].value(), "string \t \n \r \0 \\ \" ");
}

#[test]
fn should_lex_punctuation() {
    let input = " = - () <> {} [] . , ; : = $ ^";
    let output = lex(input).unwrap();
    assert_eq!(output.len(), 17);
    assert!(matches!(output[0], Lexeme::Punct(_, '=')));
    assert!(matches!(output[1], Lexeme::Punct(_, '-')));
    assert!(matches!(output[2], Lexeme::LParen(_)));
    assert!(matches!(output[3], Lexeme::RParen(_)));
    assert!(matches!(output[4], Lexeme::LAngle(_)));
    assert!(matches!(output[5], Lexeme::RAngle(_)));
    assert!(matches!(output[6], Lexeme::LCurl(_)));
    assert!(matches!(output[7], Lexeme::RCurl(_)));
    assert!(matches!(output[8], Lexeme::LSquare(_)));
    assert!(matches!(output[9], Lexeme::RSquare(_)));
    assert!(matches!(output[10], Lexeme::Punct(_, '.')));
    assert!(matches!(output[11], Lexeme::Punct(_, ',')));
    assert!(matches!(output[12], Lexeme::Punct(_, ';')));
    assert!(matches!(output[13], Lexeme::Punct(_, ':')));
    assert!(matches!(output[14], Lexeme::Punct(_, '=')));
    assert!(matches!(output[15], Lexeme::Punct(_, '$')));
    assert!(matches!(output[16], Lexeme::Punct(_, '^')));
}

#[test]
fn blank_text_of_mixed_comments_lexes_empty() {
    let output = lex("  // line\n /* a /* b */ c */\t\r\n// end").unwrap();
    assert_eq!(output.len(), 0);
}

#[test]
fn unclosed_block_comment_swallows_the_rest() {
    let output = lex("1 /* 2 3").unwrap();
    assert_eq!(output.len(), 1);
    assert_eq!(output[0].value(), "1");
}

#[test]
fn values_rebuild_significant_characters() {
    let output = lex("foo(12, \"a\\tb\") /* x */ [y] // z").unwrap();
    let mut text = String::new();
    for t in &output {
        text.push_str(&t.value());
    }
    assert_eq!(text, "foo(12,a\tb)[y]");
}

#[test]
fn unterminated_string_is_an_error() {
    let r = lex("1 \"abc");
    assert_eq!(r.unwrap_err(), LexError::EncounteredEndInString);
}

#[test]
fn backslash_at_end_is_an_unterminated_string() {
    let r = lex("\"ab\\");
    assert_eq!(r.unwrap_err(), LexError::EncounteredEndInString);
}

#[test]
fn unknown_escape_is_an_error() {
    let r = lex("\"a\\q\"");
    assert_eq!(r.unwrap_err(), LexError::UnexpectedEscapeInString(3, 'q'));
}

#[test]
fn spans_are_byte_offsets() {
    let output = lex("é 1 ü2").unwrap();
    assert_eq!(output.len(), 3);
    assert!(matches!(output[0], Lexeme::Symbol(_, _)));
    assert_eq!(output[0].meta(), LMeta::multi(0, 0));
    assert_eq!(output[1].meta(), LMeta::single(3));
    assert!(matches!(output[2], Lexeme::Symbol(_, _)));
    assert_eq!(output[2].meta(), LMeta::multi(5, 7));
    assert_eq!(output[2].value(), "ü2");
}

#[test]
fn unicode_whitespace_and_digits() {
    let output = lex("\u{3000}٣\u{a0}x").unwrap();
    assert_eq!(output.len(), 2);
    assert!(matches!(output[0], Lexeme::Number(_, _)));
    assert_eq!(output[0].value(), "٣");
    assert_eq!(output[0].meta(), LMeta::single(3));
    assert!(matches!(output[1], Lexeme::Symbol(_, _)));
}

#[test]
fn slash_alone_is_punctuation() {
    let output = lex("a / b").unwrap();
    assert_eq!(output.len(), 3);
    assert!(matches!(output[1], Lexeme::Punct(_, '/')));
    assert_eq!(output[1].meta(), LMeta::single(2));
}

#[test]
fn digits_then_letters_split() {
    let output = lex("12ab").unwrap();
    assert_eq!(output.len(), 2);
    assert_eq!(output[0].value(), "12");
    assert_eq!(output[1].value(), "ab");
    assert_eq!(output[1].meta(), LMeta::multi(2, 3));
}

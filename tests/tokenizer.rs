use rusty_turtle::number::Number;
use rusty_turtle::token::{Token, TokenType};
use rusty_turtle::tokenizer::{tokenize, Tokenizer};
use rusty_turtle::errors::InterpreterError;

fn num(value: u64, scale: usize) -> Number {
    Number { digits: value.to_string().bytes().map(|b| b - b'0').collect(), scale }
}


fn value(n: &Number) -> f64 {
    let whole = n.digits.iter().fold(0.0_f64, |acc, d| acc * 10.0 + *d as f64);
    whole / 10f64.powi(n.scale as i32)
}

fn number_value(t: &Token) -> f64 {
    match t {
        Token::NumberToken(_, n) => value(n),
        other => panic!("not a number token: {:?}", other),
    }
}

#[test]
fn tokenizer_use_tokenizers_next() {
    let mut tokenizer = Tokenizer::new("left 10");
    let first_token = tokenizer.next();
    assert_eq!(first_token, Some(Token::TurnLeftCommandToken(1)));
    let second_token = tokenizer.next();
    assert_eq!(second_token, Some(Token::NumberToken(1, num(10, 0))));
    assert_eq!(number_value(&second_token.unwrap()), 10.0_f64);
    assert_eq!(tokenizer.next(), None);
}

#[test]
fn consuming_number() {
    let mut tokenizer = Tokenizer::new("0 10 55.5");
    let r = tokenizer.read_tokens();
    assert_eq!(r.len(), 3);
    assert_eq!(r[0].clone(), Token::NumberToken(1, num(0, 0)));
    assert_eq!(r[1].clone(), Token::NumberToken(1, num(10, 0)));
    assert_eq!(r[2].clone(), Token::NumberToken(1, num(555, 1)));
    assert_eq!(number_value(&r[0]), 0.0_f64);
    assert_eq!(number_value(&r[1]), 10.0_f64);
    assert_eq!(number_value(&r[2]), 55.5_f64);
}

#[test]
fn consuming_command() {
    let mut tokenizer = Tokenizer::new(" rt 10 ");
    let r = tokenizer.read_tokens();
    assert_eq!(r[0].clone(), Token::TurnRightCommandToken(1));
    assert_eq!(r[1].clone(), Token::NumberToken(1, num(10, 0)));
    assert_eq!(number_value(&r[1]), 10.0_f64);
}

#[test]
fn commands_are_case_insensitive() {
    let mut tokenizer = Tokenizer::new(" RT left FoRwArD");
    let r = tokenizer.read_tokens();
    assert_eq!(r[0].clone(), Token::TurnRightCommandToken(1));
    assert_eq!(r[1].clone(), Token::TurnLeftCommandToken(1));
    assert_eq!(r[2].clone(), Token::ForwardCommandToken(1));
}

#[test]
fn mixed_commands_and_numbers_are_case_insensitive() {
    let r = tokenize("RT 10 left FoRwArD").unwrap();
    let types: Vec<TokenType> = r.iter().map(|t| t.get_type()).collect();
    assert_eq!(
        types,
        vec![
            TokenType::TurnRightCommandToken,
            TokenType::NumberToken,
            TokenType::TurnLeftCommandToken,
            TokenType::ForwardCommandToken,
        ]
    );
}

#[test]
fn consuming_color() {
    let mut tokenizer = Tokenizer::new("COLOR #004355 RT 50");
    let r = tokenizer.read_tokens();
    assert_eq!(r[1].clone(), Token::ColorToken(1, "#004355".into()));
    assert_eq!(r[1].lexeme(), "#004355");
}

#[test]
fn every_alias_is_a_keyword() {
    let r = tokenize("repeat COLOR forward FD back bk LEFT lt Right rt").unwrap();
    assert_eq!(
        r,
        vec![
            Token::RepeatLoopToken(1),
            Token::SetColorCommandToken(1),
            Token::ForwardCommandToken(1),
            Token::ForwardCommandToken(1),
            Token::BackwardCommandToken(1),
            Token::BackwardCommandToken(1),
            Token::TurnLeftCommandToken(1),
            Token::TurnLeftCommandToken(1),
            Token::TurnRightCommandToken(1),
            Token::TurnRightCommandToken(1),
        ]
    );
}

#[test]
fn short_colors_are_accepted_and_long_ones_cut_at_six_digits() {
    let r = tokenize("#12 #aBcDeF7 #").unwrap();
    assert_eq!(
        r,
        vec![
            Token::ColorToken(1, "#12".into()),
            Token::ColorToken(1, "#aBcDeF".into()),
            Token::NumberToken(1, num(7, 0)),
            Token::ColorToken(1, "#".into()),
        ]
    );
}

#[test]
fn a_trailing_dot_is_not_part_of_a_number() {
    let mut tokenizer = Tokenizer::new("12. 3.25");
    assert_eq!(tokenizer.next(), Some(Token::NumberToken(1, num(12, 0))));
    assert_eq!(tokenizer.next(), Some(Token::IllegalToken(1, ".".into())));
    assert_eq!(tokenizer.next(), Some(Token::NumberToken(1, num(325, 2))));
    assert_eq!(tokenizer.next(), None);
}

#[test]
fn newlines_count_lines_and_other_blanks_do_not() {
    let r = tokenize("FD 1\n\tRT 2\r\n\nBK 3").unwrap();
    let lines: Vec<usize> = r.iter().map(|t| t.line()).collect();
    assert_eq!(lines, vec![1, 1, 2, 2, 4, 4]);
}

#[test]
fn unknown_words_become_illegal_tokens_without_lexical_error() {
    let r = tokenize("jump fd1 _x").unwrap();
    assert_eq!(r, vec![unknown("jump"), unknown("fd1"), unknown("_x")]);
}

fn unknown(word: &str) -> Token {
    Token::IllegalToken(
        1,
        format!(
            "The token is expected to be identifier. Identifier must be a keyword (functions, classes, and variables are not supported). Token `{}` does not match any keyword.",
            word
        ),
    )
}

#[test]
fn consume_color_takes_at_most_six_hex_digits_at_the_cursor() {
    let mut tokenizer = Tokenizer::new("1234567");
    assert_eq!(tokenizer.consume_color('#'), Token::ColorToken(1, "#123456".into()));
    assert_eq!(tokenizer.next(), Some(Token::NumberToken(1, num(7, 0))));
    let mut tokenizer = Tokenizer::new(" FD");
    assert_eq!(tokenizer.consume_color('#'), Token::ColorToken(1, "#".into()));
    assert_eq!(tokenizer.next(), Some(Token::ForwardCommandToken(1)));
}

#[test]
fn identifiers_run_over_unicode_letters() {
    let r = tokenize("fdé").unwrap();
    assert_eq!(r, vec![unknown("fdé")]);
}

#[test]
fn unexpected_character_is_a_lexical_error() {
    match tokenize("FD 10\nRT $") {
        Err(InterpreterError::Tokenize { line, message }) => {
            assert_eq!(line, 2);
            assert_eq!(message, "Unexpected character: $");
        }
        other => panic!("expected a lexical error, got {:?}", other),
    }
}

#[test]
fn long_numbers_are_held_exactly() {
    let r = tokenize("FD 123456789012345678901234567890.000000000000000000000001").unwrap();
    assert_eq!(r.len(), 2);
    assert_eq!(r[1].lexeme(), "123456789012345678901234567890.000000000000000000000001");
    let r = tokenize("007.50").unwrap();
    assert_eq!(r, vec![Token::NumberToken(1, Number { digits: vec![0, 0, 7, 5, 0], scale: 2 })]);
    assert_eq!(r[0].lexeme(), "007.50");
}

#[test]
fn largest_number_that_fits() {
    let r = tokenize("18446744073709551615").unwrap();
    assert_eq!(r, vec![Token::NumberToken(1, num(u64::MAX, 0))]);
}

#[test]
fn empty_and_blank_texts_have_no_tokens() {
    assert_eq!(tokenize("").unwrap(), vec![]);
    assert_eq!(tokenize(" \t\r\n ").unwrap(), vec![]);
}

#[test]
fn lexemes() {
    assert_eq!(Token::TurnLeftCommandToken(1).lexeme(), "LT");
    assert_eq!(Token::TurnRightCommandToken(1).lexeme(), "RT");
    assert_eq!(Token::ForwardCommandToken(1).lexeme(), "FD");
    assert_eq!(Token::BackwardCommandToken(1).lexeme(), "BK");
    assert_eq!(Token::SetColorCommandToken(1).lexeme(), "COLOR");
    assert_eq!(Token::RepeatLoopToken(1).lexeme(), "REPEAT");
    assert_eq!(Token::LeftBracketToken(1).lexeme(), "[");
    assert_eq!(Token::RightBracketToken(1).lexeme(), "]");
    assert_eq!(Token::NumberToken(1, num(1050, 2)).lexeme(), "10.50");
    assert_eq!(Token::NumberToken(1, num(5, 2)).lexeme(), "0.05");
    assert_eq!(Token::NumberToken(1, num(0, 0)).lexeme(), "0");
    assert_eq!(Token::NumberToken(1, num(3, 1)).lexeme(), "0.3");
    assert!(Token::ColorToken(3, "#fff".into()).is_type(TokenType::ColorToken));
    assert!(!Token::ColorToken(3, "#fff".into()).is_type(TokenType::NumberToken));
    assert_eq!(Token::ColorToken(3, "#fff".into()).line(), 3);
}

#[test]
fn rounding_is_half_away_from_zero() {
    assert_eq!(num(37, 1).round(), 4);
    assert_eq!(num(25, 1).round(), 3);
    assert_eq!(num(5, 1).round(), 1);
    assert_eq!(num(49, 2).round(), 0);
    assert_eq!(num(7, 0).round(), 7);
    assert_eq!(num(u64::MAX, 0).round(), u64::MAX);
    assert_eq!(num(u64::MAX, 25).round(), 0);
    assert_eq!(num(15, 19).round(), 0);
    let huge = Number { digits: vec![9; 25], scale: 0 };
    assert_eq!(huge.round(), u64::MAX);
    let just_below = Number { digits: vec![9; 25], scale: 6 };
    assert_eq!(just_below.round(), 10_000_000_000_000_000_000);
    assert_eq!(Number { digits: vec![1, 4, 9, 9], scale: 3 }.round(), 1);
}

use rusty_turtle::errors::InterpreterError;
use rusty_turtle::number::Number;
use rusty_turtle::parser::Parser;
use rusty_turtle::statements::{
    Expr, Literal, MoveBackwardStmt, MoveForwardStmt, RepeatStmt, RotateLeftStmt, RotateRightStmt,
    SetColorStmt, Stmt,
};
use rusty_turtle::token::Token;

fn num(value: u64, scale: usize) -> Number {
    Number { digits: value.to_string().bytes().map(|b| b - b'0').collect(), scale }
}


fn n(digits: u64) -> Number {
    num(digits, 0)
}

fn parser_error(source: &str) -> (usize, String) {
    match Parser::new_from_str(source).parse() {
        Err(InterpreterError::Parser { line, message }) => (line, message),
        other => panic!("expected a parser error, got {:?}", other),
    }
}

#[test]
fn parser_use_tokenizers_next() {
    let result = Parser::new_from_str("REPEAT 30 [ FD 40 FD 50 ] BK 40").parse();
    assert_eq!(
        result.unwrap(),
        vec![
            Stmt::Repeat(RepeatStmt {
                count: 30,
                body: Box::new(Stmt::Block(vec![
                    Stmt::MoveForward(MoveForwardStmt { distance: n(40) }),
                    Stmt::MoveForward(MoveForwardStmt { distance: n(50) }),
                ])),
            }),
            Stmt::MoveBack(MoveBackwardStmt { distance: n(40) }),
        ]
    );
}

#[test]
fn every_statement_kind() {
    let result = Parser::new_from_str("COLOR #663399 RT 60 LT 30 FD 1.5 7 #abc").parse();
    assert_eq!(
        result.unwrap(),
        vec![
            Stmt::SetColor(SetColorStmt { color: "#663399".into() }),
            Stmt::RotateRight(RotateRightStmt { angular_distance: n(60) }),
            Stmt::RotateLeft(RotateLeftStmt { angular_distance: n(30) }),
            Stmt::MoveForward(MoveForwardStmt { distance: num(15, 1) }),
            Stmt::Expression(Expr::Literal(Literal::Number(n(7)))),
            Stmt::Expression(Expr::Literal(Literal::Color("#abc".into()))),
        ]
    );
}

#[test]
fn nested_repeat_keeps_numbers_exact() {
    let result = Parser::new_from_str("REPEAT 2 [ REPEAT 3 [ FD 0.30 ] ]").parse();
    assert_eq!(
        result.unwrap(),
        vec![Stmt::Repeat(RepeatStmt {
            count: 2,
            body: Box::new(Stmt::Block(vec![Stmt::Repeat(RepeatStmt {
                count: 3,
                body: Box::new(Stmt::Block(vec![Stmt::MoveForward(MoveForwardStmt {
                    distance: Number { digits: vec![0, 3, 0], scale: 2 },
                })])),
            })])),
        })]
    );
}

#[test]
fn fractional_repeat_count_is_rounded() {
    let result = Parser::new_from_str("REPEAT 3.7 [ FD 1 ]").parse().unwrap();
    match &result[0] {
        Stmt::Repeat(r) => assert_eq!(r.count, 4),
        other => panic!("expected a repeat, got {:?}", other),
    }
}

#[test]
fn bare_blocks_are_statements() {
    let result = Parser::new_from_str("REPEAT 2 [ FD 1 [ FD 2 ] ]").parse().unwrap();
    assert_eq!(
        result,
        vec![Stmt::Repeat(RepeatStmt {
            count: 2,
            body: Box::new(Stmt::Block(vec![
                Stmt::MoveForward(MoveForwardStmt { distance: n(1) }),
                Stmt::Block(vec![Stmt::MoveForward(MoveForwardStmt { distance: n(2) })]),
            ])),
        })]
    );
    let (line, message) = parser_error("FD 1 [ FD 2");
    assert_eq!(line, 1);
    assert_eq!(
        message,
        "Expected block. Block has to end with closing bracket `]`. Closing bracket is missing."
    );
}

#[test]
fn empty_script_and_empty_block() {
    assert_eq!(Parser::new_from_str("").parse().unwrap(), vec![]);
    let result = Parser::new_from_str("REPEAT 4 [ ]").parse().unwrap();
    assert_eq!(
        result,
        vec![Stmt::Repeat(RepeatStmt { count: 4, body: Box::new(Stmt::Block(vec![])) })]
    );
}

#[test]
fn unmatched_closing_bracket_is_a_parser_error() {
    let (line, message) = parser_error("FD 10\n]");
    assert_eq!(line, 2);
    assert_eq!(
        message,
        "Invalid number of closing brackets. There are more closing brackets than expected."
    );
    let (line, _) = parser_error("]");
    assert_eq!(line, 1);
}

#[test]
fn missing_closing_bracket_is_a_parser_error() {
    let (line, message) = parser_error("REPEAT 2 [ FD 1\nRT 5");
    assert_eq!(line, 2);
    assert_eq!(
        message,
        "Expected block. Block has to end with closing bracket `]`. Closing bracket is missing."
    );
}

#[test]
fn missing_opening_bracket_is_a_parser_error() {
    let (line, message) = parser_error("REPEAT 2 FD 1 ]");
    assert_eq!(line, 1);
    assert_eq!(
        message,
        "Expected block. Block has to start with opening bracket `[`. Opening bracket is missing."
    );
    let (line, _) = parser_error("FD 1\nREPEAT 2");
    assert_eq!(line, 2);
}

#[test]
fn missing_arguments_are_parser_errors() {
    assert_eq!(parser_error("FD").1, "Expecting number after forward command.");
    assert_eq!(parser_error("BK #fff").1, "Expecting number after back command.");
    assert_eq!(parser_error("RT").1, "Expecting number after turn right command.");
    assert_eq!(parser_error("LT [").1, "Expecting number after turn left command.");
    assert_eq!(parser_error("COLOR 5").1, "Expecting HEX color after COLOR command.");
    assert_eq!(
        parser_error("REPEAT [ FD 1 ]").1,
        "Repeat statement must define a number of repeats. Parser didn't find number."
    );
    assert_eq!(parser_error("jump").1, "Expected an expression while parsing primary.");
    assert_eq!(parser_error("REPEAT 2 [ FD ]\n").0, 1);
}

#[test]
fn errors_inside_a_block_abort_the_whole_parse() {
    let (line, message) = parser_error("FD 1\nREPEAT 2 [\nFD 1\nRT\n]");
    assert_eq!(line, 4);
    assert_eq!(message, "Expecting number after turn right command.");
}

#[test]
fn lexical_errors_come_first() {
    match Parser::new_from_str("FD\n? ]").parse() {
        Err(InterpreterError::Tokenize { line, .. }) => assert_eq!(line, 2),
        other => panic!("expected a lexical error, got {:?}", other),
    }
}

#[test]
fn consume_block_returns_the_inner_tokens() {
    let mut parser = Parser::new_from_str("[ FD [ 1 ] ] RT");
    let block = parser.consume_block().unwrap();
    assert_eq!(
        block,
        vec![
            Token::ForwardCommandToken(1),
            Token::LeftBracketToken(1),
            Token::NumberToken(1, n(1)),
            Token::RightBracketToken(1),
        ]
    );
    assert!(parser.peek_is(rusty_turtle::token::TokenType::TurnRightCommandToken));
    assert!(!parser.has_reached_end());
}

#[test]
fn error_text_names_kind_line_and_message() {
    let e = Parser::new_from_str("FD 1\nFD").parse().unwrap_err();
    assert_eq!(e.to_text(), "Parser Error at line 2: Expecting number after forward command.");
    let e = Parser::new_from_str("\n\n%").parse().unwrap_err();
    assert_eq!(e.to_text(), "Tokenizer Error at line 3: Unexpected character: %");
    assert_eq!(e.line(), 3);
}

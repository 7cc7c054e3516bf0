use rusty_turtle::errors::InterpreterError;
use rusty_turtle::interpreter::{run_script, Effect, Interpreter, Obj};
use rusty_turtle::number::Number;
use rusty_turtle::parser::Parser;
use rusty_turtle::statements::{Expr, Literal};

fn num(value: u64, scale: usize) -> Number {
    Number { digits: value.to_string().bytes().map(|b| b - b'0').collect(), scale }
}


fn n(digits: u64) -> Number {
    num(digits, 0)
}

fn lines(effects: &[Effect]) -> Vec<(bool, Number, String)> {
    effects
        .iter()
        .filter_map(|e| match e {
            Effect::DrawLine { backward, distance, color } => {
                Some((*backward, distance.clone(), color.clone()))
            }
            _ => None,
        })
        .collect()
}

#[test]
fn nested_repeats_multiply() {
    let effects = run_script("REPEAT 2 [ FD 1 REPEAT 1 [ FD 2 ] ]").unwrap();
    assert_eq!(lines(&effects).len(), 4);
    let effects = run_script("REPEAT 3 [ REPEAT 4 [ FD 1 RT 90 ] ]").unwrap();
    assert_eq!(lines(&effects).len(), 12);
}

#[test]
fn nested_bare_block_expands_in_each_repeat() {
    let effects = run_script("REPEAT 2 [ FD 1 [ FD 2 ] ]").unwrap();
    assert_eq!(
        lines(&effects),
        vec![
            (false, n(1), "#000000".to_string()),
            (false, n(2), "#000000".to_string()),
            (false, n(1), "#000000".to_string()),
            (false, n(2), "#000000".to_string()),
        ]
    );
}

#[test]
fn forward_then_backward_share_distance_and_heading() {
    let effects = run_script("FORWARD 10 BACK 10").unwrap();
    assert_eq!(
        effects,
        vec![
            Effect::ClearSurface,
            Effect::DrawLine { backward: false, distance: n(10), color: "#000000".into() },
            Effect::DrawLine { backward: true, distance: n(10), color: "#000000".into() },
            Effect::RenderCursor,
        ]
    );
}

#[test]
fn color_applies_only_to_later_moves() {
    let effects = run_script("COLOR #ff0000 FD 10 COLOR #00ff00 FD 10").unwrap();
    assert_eq!(
        lines(&effects),
        vec![(false, n(10), "#ff0000".to_string()), (false, n(10), "#00ff00".to_string())]
    );
}

#[test]
fn fractional_repeat_runs_rounded_count() {
    let effects = run_script("REPEAT 3.7 [ FD 1 ]").unwrap();
    assert_eq!(lines(&effects).len(), 4);
    let effects = run_script("REPEAT 0.4 [ FD 1 ]").unwrap();
    assert_eq!(lines(&effects).len(), 0);
}

#[test]
fn negative_repeat_count_is_rejected_by_the_lexer() {
    match run_script("REPEAT -1 [ FD 1 ]") {
        Err(InterpreterError::Tokenize { line, message }) => {
            assert_eq!(line, 1);
            assert_eq!(message, "Unexpected character: -");
        }
        other => panic!("expected a lexical error, got {:?}", other),
    }
}

#[test]
fn unmatched_brackets_produce_no_effects() {
    assert!(matches!(run_script("FD 10 ]"), Err(InterpreterError::Parser { .. })));
    assert!(matches!(run_script("REPEAT 2 [ FD 10"), Err(InterpreterError::Parser { .. })));
}

#[test]
fn turns_and_script_framing() {
    let effects = run_script("RT 90 LEFT 45.5").unwrap();
    assert_eq!(
        effects,
        vec![
            Effect::ClearSurface,
            Effect::Turn { left: false, angle: n(90) },
            Effect::Turn { left: true, angle: num(455, 1) },
            Effect::RenderCursor,
        ]
    );
    assert_eq!(run_script("").unwrap(), vec![Effect::ClearSurface, Effect::RenderCursor]);
}

#[test]
fn interpreter_keeps_pen_between_calls() {
    let mut interpreter = Interpreter::new();
    assert_eq!(interpreter.color(), "#000000");
    let first = Parser::new_from_str("COLOR #123456").parse().unwrap();
    interpreter.interpret_statements(&first).unwrap();
    assert_eq!(interpreter.color(), "#123456");
    let second = Parser::new_from_str("BK 2 7").parse().unwrap();
    interpreter.interpret_statements(&second).unwrap();
    assert_eq!(
        interpreter.effects(),
        &vec![Effect::DrawLine { backward: true, distance: n(2), color: "#123456".into() }]
    );
}

#[test]
fn literals_evaluate_to_their_value() {
    let interpreter = Interpreter::new();
    assert_eq!(interpreter.evaluate(&Expr::Literal(Literal::Number(n(5)))), Obj::Num(n(5)));
    assert_eq!(
        interpreter.evaluate(&Expr::Literal(Literal::Color("#abc".into()))),
        Obj::Color("#abc".into())
    );
}

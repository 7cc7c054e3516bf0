//! The two terminal errors of a run: lexical and syntactic.

use vstd::prelude::*;
use vstd::string::*;
use crate::number::{decimal_digits, push_decimal_digits};

verus! {

#[derive(Debug)]
pub enum InterpreterError {
    Tokenize { line: usize, message: String },
    Parser { line: usize, message: String },
}

pub enum ErrorView {
    Tokenize { line: nat, message: Seq<char> },
    Parser { line: nat, message: Seq<char> },
}

impl View for InterpreterError {
    type V = ErrorView;

    open spec fn view(&self) -> ErrorView {
        match self {
            InterpreterError::Tokenize { line, message } => ErrorView::Tokenize {
                line: *line as nat,
                message: message@,
            },
            InterpreterError::Parser { line, message } => ErrorView::Parser {
                line: *line as nat,
                message: message@,
            },
        }
    }
}

/// The one line that a caller shows for an error: its kind, its line and its message.
pub open spec fn error_text(e: ErrorView) -> Seq<char> {
    match e {
        ErrorView::Tokenize { line, message } => "Tokenizer Error at line "@ + decimal_digits(line) + ": "@ + message,
        ErrorView::Parser { line, message } => "Parser Error at line "@ + decimal_digits(line) + ": "@ + message,
    }
}

impl InterpreterError {
    pub fn line(&self) -> (r: usize)
        ensures
            r as nat == match self@ {
                ErrorView::Tokenize { line, .. } => line,
                ErrorView::Parser { line, .. } => line,
            },
    {
        match self {
            InterpreterError::Tokenize { line, .. } => *line,
            InterpreterError::Parser { line, .. } => *line,
        }
    }

    /// The error as one human-readable line.
    pub fn to_text(&self) -> (r: String)
        ensures
            r@ == error_text(self@),
    {
        let (mut out, line, message) = match self {
            InterpreterError::Tokenize { line, message } => (
                String::from_str("Tokenizer Error at line "),
                *line,
                message,
            ),
            InterpreterError::Parser { line, message } => (
                String::from_str("Parser Error at line "),
                *line,
                message,
            ),
        };
        let mut line_chars: Vec<char> = Vec::new();
        push_decimal_digits(line as u64, &mut line_chars);
        let digits = crate::text::string_of(&line_chars);
        out.append(digits.as_str());
        out.append(": ");
        out.append(message.as_str());
        out
    }
}

} // verus!

//! The token vocabulary of the language.

use vstd::prelude::*;
use vstd::string::*;
use crate::number::{Number, NumberView, decimal_text};

verus! {

#[derive(PartialEq, Eq, Structural, Clone, Copy, Debug)]
pub enum TokenType {
    LeftBracketToken,
    RightBracketToken,
    NumberToken,
    ColorToken,
    SetColorCommandToken,
    ForwardCommandToken,
    BackwardCommandToken,
    TurnRightCommandToken,
    TurnLeftCommandToken,
    RepeatLoopToken,
    IllegalToken,
}

/// A token with the 1-based line on which it began.
#[derive(PartialEq, Clone, Debug)]
pub enum Token {
    LeftBracketToken(usize),
    RightBracketToken(usize),
    NumberToken(usize, Number),
    ColorToken(usize, String),
    SetColorCommandToken(usize),
    ForwardCommandToken(usize),
    BackwardCommandToken(usize),
    TurnRightCommandToken(usize),
    TurnLeftCommandToken(usize),
    RepeatLoopToken(usize),
    IllegalToken(usize, String),
}

pub enum TokenView {
    LeftBracket(nat),
    RightBracket(nat),
    Number(nat, NumberView),
    Color(nat, Seq<char>),
    SetColor(nat),
    Forward(nat),
    Backward(nat),
    TurnRight(nat),
    TurnLeft(nat),
    Repeat(nat),
    Illegal(nat, Seq<char>),
}

impl View for Token {
    type V = TokenView;

    open spec fn view(&self) -> TokenView {
        match self {
            Token::LeftBracketToken(l) => TokenView::LeftBracket(*l as nat),
            Token::RightBracketToken(l) => TokenView::RightBracket(*l as nat),
            Token::NumberToken(l, n) => TokenView::Number(*l as nat, n@),
            Token::ColorToken(l, c) => TokenView::Color(*l as nat, c@),
            Token::SetColorCommandToken(l) => TokenView::SetColor(*l as nat),
            Token::ForwardCommandToken(l) => TokenView::Forward(*l as nat),
            Token::BackwardCommandToken(l) => TokenView::Backward(*l as nat),
            Token::TurnRightCommandToken(l) => TokenView::TurnRight(*l as nat),
            Token::TurnLeftCommandToken(l) => TokenView::TurnLeft(*l as nat),
            Token::RepeatLoopToken(l) => TokenView::Repeat(*l as nat),
            Token::IllegalToken(l, s) => TokenView::Illegal(*l as nat, s@),
        }
    }
}

pub open spec fn token_line(t: TokenView) -> nat {
    match t {
        TokenView::LeftBracket(l) => l,
        TokenView::RightBracket(l) => l,
        TokenView::Number(l, _) => l,
        TokenView::Color(l, _) => l,
        TokenView::SetColor(l) => l,
        TokenView::Forward(l) => l,
        TokenView::Backward(l) => l,
        TokenView::TurnRight(l) => l,
        TokenView::TurnLeft(l) => l,
        TokenView::Repeat(l) => l,
        TokenView::Illegal(l, _) => l,
    }
}

pub open spec fn token_type(t: TokenView) -> TokenType {
    match t {
        TokenView::LeftBracket(_) => TokenType::LeftBracketToken,
        TokenView::RightBracket(_) => TokenType::RightBracketToken,
        TokenView::Number(_, _) => TokenType::NumberToken,
        TokenView::Color(_, _) => TokenType::ColorToken,
        TokenView::SetColor(_) => TokenType::SetColorCommandToken,
        TokenView::Forward(_) => TokenType::ForwardCommandToken,
        TokenView::Backward(_) => TokenType::BackwardCommandToken,
        TokenView::TurnRight(_) => TokenType::TurnRightCommandToken,
        TokenView::TurnLeft(_) => TokenType::TurnLeftCommandToken,
        TokenView::Repeat(_) => TokenType::RepeatLoopToken,
        TokenView::Illegal(_, _) => TokenType::IllegalToken,
    }
}

/// The text a token stands for.
pub open spec fn token_lexeme(t: TokenView) -> Seq<char> {
    match t {
        TokenView::LeftBracket(_) => "["@,
        TokenView::RightBracket(_) => "]"@,
        TokenView::Number(_, n) => decimal_text(n),
        TokenView::Color(_, c) => c,
        TokenView::SetColor(_) => "COLOR"@,
        TokenView::Forward(_) => "FD"@,
        TokenView::Backward(_) => "BK"@,
        TokenView::TurnRight(_) => "RT"@,
        TokenView::TurnLeft(_) => "LT"@,
        TokenView::Repeat(_) => "REPEAT"@,
        TokenView::Illegal(_, s) => s,
    }
}

impl Token {
    pub fn line(&self) -> (r: usize)
        ensures
            r as nat == token_line(self@),
    {
        match self {
            Token::LeftBracketToken(l) => *l,
            Token::RightBracketToken(l) => *l,
            Token::NumberToken(l, _) => *l,
            Token::ColorToken(l, _) => *l,
            Token::SetColorCommandToken(l) => *l,
            Token::ForwardCommandToken(l) => *l,
            Token::BackwardCommandToken(l) => *l,
            Token::TurnRightCommandToken(l) => *l,
            Token::TurnLeftCommandToken(l) => *l,
            Token::RepeatLoopToken(l) => *l,
            Token::IllegalToken(l, _) => *l,
        }
    }

    pub fn lexeme(&self) -> (r: String)
        ensures
            r@ == token_lexeme(self@),
    {
        match self {
            Token::LeftBracketToken(_) => String::from_str("["),
            Token::RightBracketToken(_) => String::from_str("]"),
            Token::NumberToken(_, n) => crate::text::string_of(&n.to_chars()),
            Token::ColorToken(_, c) => c.clone(),
            Token::SetColorCommandToken(_) => String::from_str("COLOR"),
            Token::ForwardCommandToken(_) => String::from_str("FD"),
            Token::BackwardCommandToken(_) => String::from_str("BK"),
            Token::TurnRightCommandToken(_) => String::from_str("RT"),
            Token::TurnLeftCommandToken(_) => String::from_str("LT"),
            Token::RepeatLoopToken(_) => String::from_str("REPEAT"),
            Token::IllegalToken(_, s) => s.clone(),
        }
    }

    pub fn get_type(&self) -> (r: TokenType)
        ensures
            r == token_type(self@),
    {
        match self {
            Token::LeftBracketToken(_) => TokenType::LeftBracketToken,
            Token::RightBracketToken(_) => TokenType::RightBracketToken,
            Token::NumberToken(_, _) => TokenType::NumberToken,
            Token::ColorToken(_, _) => TokenType::ColorToken,
            Token::SetColorCommandToken(_) => TokenType::SetColorCommandToken,
            Token::ForwardCommandToken(_) => TokenType::ForwardCommandToken,
            Token::BackwardCommandToken(_) => TokenType::BackwardCommandToken,
            Token::TurnRightCommandToken(_) => TokenType::TurnRightCommandToken,
            Token::TurnLeftCommandToken(_) => TokenType::TurnLeftCommandToken,
            Token::RepeatLoopToken(_) => TokenType::RepeatLoopToken,
            Token::IllegalToken(_, _) => TokenType::IllegalToken,
        }
    }

    pub fn is_type(&self, token_type: TokenType) -> (r: bool)
        ensures
            r == (crate::token::token_type(self@) == token_type),
    {
        self.get_type() == token_type
    }

    /// A copy of the token.
    pub fn duplicate(&self) -> (r: Token)
        ensures
            r@ == self@,
    {
        match self {
            Token::LeftBracketToken(l) => Token::LeftBracketToken(*l),
            Token::RightBracketToken(l) => Token::RightBracketToken(*l),
            Token::NumberToken(l, n) => Token::NumberToken(*l, n.duplicate()),
            Token::ColorToken(l, c) => Token::ColorToken(*l, c.clone()),
            Token::SetColorCommandToken(l) => Token::SetColorCommandToken(*l),
            Token::ForwardCommandToken(l) => Token::ForwardCommandToken(*l),
            Token::BackwardCommandToken(l) => Token::BackwardCommandToken(*l),
            Token::TurnRightCommandToken(l) => Token::TurnRightCommandToken(*l),
            Token::TurnLeftCommandToken(l) => Token::TurnLeftCommandToken(*l),
            Token::RepeatLoopToken(l) => Token::RepeatLoopToken(*l),
            Token::IllegalToken(l, s) => Token::IllegalToken(*l, s.clone()),
        }
    }
}

} // verus!

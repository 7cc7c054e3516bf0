//! The recursive-descent parser: tokens to statements, or the first error.

use vstd::prelude::*;
use vstd::string::*;
use crate::errors::{ErrorView, InterpreterError};
use crate::number::{NumberView, repeat_count};
use crate::statements::{
    Expr,
    Literal,
    LiteralView,
    MoveBackwardStmt,
    MoveForwardStmt,
    RepeatStmt,
    RotateLeftStmt,
    RotateRightStmt,
    SetColorStmt,
    Stmt,
    StmtView,
    lemma_stmts_view_push,
    stmt_view,
    stmts_view,
};
use crate::token::{Token, TokenType, TokenView, token_line, token_type};
use crate::tokenizer::{lex, token_views, tokenize};

verus! {

/// The line of the last token, or 0 where there is none.
pub open spec fn last_line(t: Seq<TokenView>) -> nat {
    if t.len() > 0 {
        token_line(t.last())
    } else {
        0
    }
}

/// The line of the token at `i`; past the end, the line of the last token.
pub open spec fn line_at(t: Seq<TokenView>, i: int) -> nat {
    if 0 <= i < t.len() {
        token_line(t[i])
    } else {
        last_line(t)
    }
}

pub open spec fn error_at(t: Seq<TokenView>, i: int, message: Seq<char>) -> ErrorView {
    ErrorView::Parser { line: line_at(t, i), message }
}

pub open spec fn repeat_count_message() -> Seq<char> {
    "Repeat statement must define a number of repeats. Parser didn't find number."@
}

pub open spec fn block_open_message() -> Seq<char> {
    "Expected block. Block has to start with opening bracket `[`. Opening bracket is missing."@
}

pub open spec fn block_close_message() -> Seq<char> {
    "Expected block. Block has to end with closing bracket `]`. Closing bracket is missing."@
}

pub open spec fn excess_close_message() -> Seq<char> {
    "Invalid number of closing brackets. There are more closing brackets than expected."@
}

pub open spec fn color_message() -> Seq<char> {
    "Expecting HEX color after COLOR command."@
}

pub open spec fn forward_message() -> Seq<char> {
    "Expecting number after forward command."@
}

pub open spec fn back_message() -> Seq<char> {
    "Expecting number after back command."@
}

pub open spec fn right_message() -> Seq<char> {
    "Expecting number after turn right command."@
}

pub open spec fn left_message() -> Seq<char> {
    "Expecting number after turn left command."@
}

pub open spec fn primary_message() -> Seq<char> {
    "Expected an expression while parsing primary."@
}

pub open spec fn number_at(t: Seq<TokenView>, i: int) -> Option<NumberView> {
    if 0 <= i < t.len() {
        match t[i] {
            TokenView::Number(_, n) => Some(n),
            _ => None,
        }
    } else {
        None
    }
}

pub open spec fn color_at(t: Seq<TokenView>, i: int) -> Option<Seq<char>> {
    if 0 <= i < t.len() {
        match t[i] {
            TokenView::Color(_, c) => Some(c),
            _ => None,
        }
    } else {
        None
    }
}

/// The index of the `]` that brings the bracket depth from `depth` to zero,
/// scanning from `i` on.
pub open spec fn block_close(t: Seq<TokenView>, i: int, depth: nat) -> Option<int>
    decreases t.len() - i,
{
    if i < 0 || i >= t.len() {
        None
    } else {
        match t[i] {
            TokenView::LeftBracket(_) => block_close(t, i + 1, depth + 1),
            TokenView::RightBracket(_) => if depth <= 1 {
                Some(i)
            } else {
                block_close(t, i + 1, (depth - 1) as nat)
            },
            _ => block_close(t, i + 1, depth),
        }
    }
}

pub proof fn lemma_block_close_bound(t: Seq<TokenView>, i: int, depth: nat)
    ensures
        block_close(t, i, depth) matches Some(j) ==> i <= j < t.len(),
    decreases t.len() - i,
{
    if 0 <= i < t.len() {
        match t[i] {
            TokenView::LeftBracket(_) => lemma_block_close_bound(t, i + 1, depth + 1),
            TokenView::RightBracket(_) => if depth > 1 {
                lemma_block_close_bound(t, i + 1, (depth - 1) as nat);
            },
            _ => lemma_block_close_bound(t, i + 1, depth),
        }
    }
}

/// The statement at the start of `t` and how many tokens it takes.
pub open spec fn parse_stmt(t: Seq<TokenView>) -> Result<(StmtView, int), ErrorView>
    decreases t.len(), 0nat via parse_stmt_decreases
{
    if t.len() == 0 {
        Err(error_at(t, 0, primary_message()))
    } else {
        match t[0] {
            TokenView::Repeat(_) => match number_at(t, 1) {
                None => Err(error_at(t, 1, repeat_count_message())),
                Some(n) => if !(t.len() > 2 && t[2] is LeftBracket) {
                    Err(error_at(t, 2, block_open_message()))
                } else {
                    match block_close(t, 3, 1) {
                        None => Err(ErrorView::Parser { line: last_line(t), message: block_close_message() }),
                        Some(j) => match parse_stmts(t.subrange(3, j)) {
                            Err(e) => Err(e),
                            Ok(body) => Ok(
                                (StmtView::Repeat(repeat_count(n), Box::new(StmtView::Block(body))), j + 1),
                            ),
                        },
                    }
                },
            },
            TokenView::SetColor(_) => match color_at(t, 1) {
                Some(c) => Ok((StmtView::SetColor(c), 2)),
                None => Err(error_at(t, 1, color_message())),
            },
            TokenView::Forward(_) => match number_at(t, 1) {
                Some(n) => Ok((StmtView::MoveForward(n), 2)),
                None => Err(error_at(t, 1, forward_message())),
            },
            TokenView::Backward(_) => match number_at(t, 1) {
                Some(n) => Ok((StmtView::MoveBack(n), 2)),
                None => Err(error_at(t, 1, back_message())),
            },
            TokenView::TurnRight(_) => match number_at(t, 1) {
                Some(n) => Ok((StmtView::RotateRight(n), 2)),
                None => Err(error_at(t, 1, right_message())),
            },
            TokenView::TurnLeft(_) => match number_at(t, 1) {
                Some(n) => Ok((StmtView::RotateLeft(n), 2)),
                None => Err(error_at(t, 1, left_message())),
            },
            TokenView::LeftBracket(_) => match block_close(t, 1, 1) {
                None => Err(ErrorView::Parser { line: last_line(t), message: block_close_message() }),
                Some(j) => match parse_stmts(t.subrange(1, j)) {
                    Err(e) => Err(e),
                    Ok(body) => Ok((StmtView::Block(body), j + 1)),
                },
            },
            TokenView::RightBracket(l) => Err(ErrorView::Parser { line: l, message: excess_close_message() }),
            TokenView::Number(_, n) => Ok((StmtView::Expression(LiteralView::Number(n)), 1)),
            TokenView::Color(_, c) => Ok((StmtView::Expression(LiteralView::Color(c)), 1)),
            _ => Err(error_at(t, 0, primary_message())),
        }
    }
}

/// All the statements of `t`, or the first error.
pub open spec fn parse_stmts(t: Seq<TokenView>) -> Result<Seq<StmtView>, ErrorView>
    decreases t.len(), 1nat
{
    if t.len() == 0 {
        Ok(Seq::empty())
    } else {
        match parse_stmt(t) {
            Err(e) => Err(e),
            // A statement never takes less than one token (`lemma_parse_stmt_consumes`):
            // the test only makes that visible to the termination check.
            Ok((st, n)) => if 1 <= n <= t.len() {
                match parse_stmts(t.subrange(n, t.len() as int)) {
                    Err(e) => Err(e),
                    Ok(rest) => Ok(seq![st] + rest),
                }
            } else {
                Err(error_at(t, 0, primary_message()))
            },
        }
    }
}

/// A statement takes at least one token and no more than there are.
pub proof fn lemma_parse_stmt_consumes(t: Seq<TokenView>)
    ensures
        parse_stmt(t) matches Ok((_, n)) ==> 1 <= n <= t.len(),
{
    if t.len() > 0 {
        lemma_block_close_bound(t, 3, 1);
        lemma_block_close_bound(t, 1, 1);
    }
}

#[via_fn]
proof fn parse_stmt_decreases(t: Seq<TokenView>) {
    lemma_block_close_bound(t, 3, 1);
    lemma_block_close_bound(t, 1, 1);
}

/// What a whole script parses to: its first lexical error, else its
/// statements or the first syntax error.
pub open spec fn parse_program(s: Seq<char>) -> Result<Seq<StmtView>, ErrorView> {
    if lex(s).1.len() > 0 {
        Err(lex(s).1[0])
    } else {
        parse_stmts(lex(s).0)
    }
}

pub open spec fn bracket_delta(t: TokenView) -> int {
    match t {
        TokenView::LeftBracket(_) => 1,
        TokenView::RightBracket(_) => -1,
        _ => 0,
    }
}

/// Opening brackets less closing brackets.
pub open spec fn depth(t: Seq<TokenView>) -> int
    decreases t.len(),
{
    if t.len() == 0 {
        0
    } else {
        depth(t.drop_last()) + bracket_delta(t.last())
    }
}

/// Every `]` closes an earlier `[`, and every `[` is closed.
pub open spec fn balanced(t: Seq<TokenView>) -> bool {
    &&& depth(t) == 0
    &&& forall|k: int| 0 <= k <= t.len() ==> #[trigger] depth(t.subrange(0, k)) >= 0
}

proof fn lemma_depth_append(a: Seq<TokenView>, b: Seq<TokenView>)
    ensures
        depth(a + b) == depth(a) + depth(b),
    decreases b.len(),
{
    if b.len() == 0 {
        assert(a + b =~= a);
    } else {
        lemma_depth_append(a, b.drop_last());
        assert((a + b).drop_last() =~= a + b.drop_last());
    }
}

proof fn lemma_depth_step(t: Seq<TokenView>, i: int, k: int)
    requires
        0 <= i <= k < t.len(),
    ensures
        depth(t.subrange(i, k + 1)) == depth(t.subrange(i, k)) + bracket_delta(t[k]),
{
    assert(t.subrange(i, k + 1).drop_last() =~= t.subrange(i, k));
}

proof fn lemma_depth_split(t: Seq<TokenView>, i: int, m: int, k: int)
    requires
        0 <= i <= m <= k <= t.len(),
    ensures
        depth(t.subrange(i, k)) == depth(t.subrange(i, m)) + depth(t.subrange(m, k)),
{
    lemma_depth_append(t.subrange(i, m), t.subrange(m, k));
    assert(t.subrange(i, m) + t.subrange(m, k) =~= t.subrange(i, k));
}

proof fn lemma_balanced_append(a: Seq<TokenView>, b: Seq<TokenView>)
    requires
        balanced(a),
        balanced(b),
    ensures
        balanced(a + b),
{
    lemma_depth_append(a, b);
    assert forall|k: int| 0 <= k <= (a + b).len() implies #[trigger] depth(
        (a + b).subrange(0, k),
    ) >= 0 by {
        if k <= a.len() {
            assert((a + b).subrange(0, k) =~= a.subrange(0, k));
        } else {
            assert((a + b).subrange(0, k) =~= a + b.subrange(0, k - a.len()));
            assert(a.subrange(0, a.len() as int) =~= a);
            lemma_depth_append(a, b.subrange(0, k - a.len()));
        }
    }
}

proof fn lemma_block_close_depth(t: Seq<TokenView>, i: int, d: nat)
    requires
        1 <= d,
        0 <= i,
        block_close(t, i, d) is Some,
    ensures
        ({
            let j = block_close(t, i, d)->Some_0;
            &&& i <= j < t.len()
            &&& t[j] is RightBracket
            &&& d + depth(t.subrange(i, j)) == 1
            &&& forall|k: int| i <= k <= j ==> d + #[trigger] depth(t.subrange(i, k)) >= 1
        }),
    decreases t.len() - i,
{
    let j = block_close(t, i, d)->Some_0;
    lemma_block_close_bound(t, i, d);
    assert(t.subrange(i, i) =~= Seq::<TokenView>::empty());
    match t[i] {
        TokenView::RightBracket(_) if d <= 1 => {},
        _ => {
            let d2: nat = match t[i] {
                TokenView::LeftBracket(_) => d + 1,
                TokenView::RightBracket(_) => (d - 1) as nat,
                _ => d,
            };
            assert(block_close(t, i, d) == block_close(t, i + 1, d2));
            lemma_block_close_depth(t, i + 1, d2);
            assert forall|k: int| i + 1 <= k <= j implies depth(t.subrange(i, k)) == bracket_delta(t[i])
                + depth(t.subrange(i + 1, k)) by {
                lemma_depth_split(t, i, i + 1, k);
                lemma_depth_step(t, i, i);
            }
            assert forall|k: int| i <= k <= j implies d + #[trigger] depth(t.subrange(i, k)) >= 1 by {
                if k > i {
                    assert(depth(t.subrange(i + 1, k)) + d2 >= 1);
                }
            }
        },
    }
}

proof fn lemma_short_balanced(t: Seq<TokenView>, n: int)
    requires
        0 <= n <= t.len(),
        forall|k: int| 0 <= k < n ==> bracket_delta(#[trigger] t[k]) == 0,
    ensures
        balanced(t.subrange(0, n)),
        forall|k: int| 0 <= k <= n ==> depth(#[trigger] t.subrange(0, k)) == 0,
    decreases n,
{
    if n > 0 {
        lemma_short_balanced(t, n - 1);
        lemma_depth_step(t, 0, n - 1);
    }
    assert forall|k: int| 0 <= k <= n implies #[trigger] depth(t.subrange(0, n).subrange(0, k))
        >= 0 by {
        assert(t.subrange(0, n).subrange(0, k) =~= t.subrange(0, k));
    }
    assert(t.subrange(0, n).subrange(0, n) =~= t.subrange(0, n));
}

proof fn lemma_parse_stmt_balanced(t: Seq<TokenView>)
    ensures
        match parse_stmt(t) {
            Ok((_, n)) => 1 <= n <= t.len() && balanced(t.subrange(0, n)),
            Err(e) => e is Parser,
        },
    decreases t.len(), 0nat,
{
    lemma_parse_stmt_consumes(t);
    if t.len() == 0 {
        return;
    }
    match parse_stmt(t) {
        Err(e) => {
            if t[0] is Repeat && number_at(t, 1) is Some && t.len() > 2 && t[2] is LeftBracket {
                lemma_block_close_bound(t, 3, 1);
                if let Some(j) = block_close(t, 3, 1) {
                    lemma_parse_stmts_balanced(t.subrange(3, j));
                }
            } else if t[0] is LeftBracket {
                lemma_block_close_bound(t, 1, 1);
                if let Some(j) = block_close(t, 1, 1) {
                    lemma_parse_stmts_balanced(t.subrange(1, j));
                }
            }
        },
        Ok((_, n)) => {
            if t[0] is Repeat || t[0] is LeftBracket {
                // The block's `[` stands at `o - 1`; what precedes it has no brackets.
                let o: int = if t[0] is Repeat { 3 } else { 1 };
                let j = block_close(t, o, 1)->Some_0;
                lemma_block_close_depth(t, o, 1);
                lemma_short_balanced(t, o - 1);
                lemma_depth_step(t, 0, o - 1);
                let seg = t.subrange(0, n);
                assert(n == j + 1);
                assert forall|k: int| 0 <= k <= n implies #[trigger] depth(seg.subrange(0, k))
                    >= 0 by {
                    assert(seg.subrange(0, k) =~= t.subrange(0, k));
                    if o <= k <= j {
                        lemma_depth_split(t, 0, o, k);
                    } else if k == j + 1 {
                        lemma_depth_split(t, 0, o, j);
                        lemma_depth_step(t, 0, j);
                    }
                }
                lemma_depth_split(t, 0, o, j);
                lemma_depth_step(t, 0, j);
                assert(seg.subrange(0, n) =~= seg);
                assert(t.subrange(0, n) =~= seg);
            } else {
                lemma_short_balanced(t, n);
            }
        },
    }
}

proof fn lemma_parse_stmts_balanced(t: Seq<TokenView>)
    ensures
        match parse_stmts(t) {
            Ok(_) => balanced(t),
            Err(e) => e is Parser,
        },
    decreases t.len(), 1nat,
{
    if t.len() == 0 {
        assert(t.subrange(0, 0) =~= t);
        return;
    }
    lemma_parse_stmt_balanced(t);
    if let Ok((_, n)) = parse_stmt(t) {
        let rest = t.subrange(n, t.len() as int);
        lemma_parse_stmts_balanced(rest);
        if parse_stmts(rest) is Ok {
            lemma_balanced_append(t.subrange(0, n), rest);
            assert(t.subrange(0, n) + rest =~= t);
        }
    }
}

/// A script free of lexical errors whose tokens have a `]` that closes no
/// earlier `[`, or a `[` that is never closed, fails with a parser error:
/// whatever parses has balanced brackets, and every syntax error is a parser
/// error.
pub proof fn lemma_unbalanced_brackets_fail(s: Seq<char>)
    requires
        lex(s).1.len() == 0,
        !balanced(lex(s).0),
    ensures
        parse_program(s) matches Err(ErrorView::Parser { .. }),
{
    lemma_parse_stmts_balanced(lex(s).0);
}

/// Seen from `s` on, lines are those of the whole sequence.
pub proof fn lemma_line_at_rest(t: Seq<TokenView>, s: int, k: int)
    requires
        0 <= s < t.len(),
        0 <= k,
    ensures
        line_at(t.subrange(s, t.len() as int), k) == line_at(t, s + k),
        number_at(t.subrange(s, t.len() as int), k) == number_at(t, s + k),
        color_at(t.subrange(s, t.len() as int), k) == color_at(t, s + k),
{
}

/// Bracket matching does not depend on what stands before `s`.
pub proof fn lemma_block_close_rest(t: Seq<TokenView>, s: int, i: int, depth: nat)
    requires
        0 <= s <= i,
        s <= t.len(),
    ensures
        block_close(t.subrange(s, t.len() as int), i - s, depth) == (match block_close(t, i, depth) {
            Some(j) => Some(j - s),
            None => None,
        }),
    decreases t.len() - i,
{
    let r = t.subrange(s, t.len() as int);
    if i < t.len() {
        assert(r[i - s] == t[i]);
        match t[i] {
            TokenView::LeftBracket(_) => lemma_block_close_rest(t, s, i + 1, depth + 1),
            TokenView::RightBracket(_) => if depth > 1 {
                lemma_block_close_rest(t, s, i + 1, (depth - 1) as nat);
            },
            _ => lemma_block_close_rest(t, s, i + 1, depth),
        }
    }
}

/// A parser over a sequence of tokens, with a cursor; one made from text also
/// holds the first lexical error of that text.
pub struct Parser {
    tokens: Vec<Token>,
    current: usize,
    lex_error: Option<InterpreterError>,
}

impl Parser {
    pub closed spec fn all(&self) -> Seq<TokenView> {
        token_views(self.tokens@)
    }

    pub closed spec fn position(&self) -> int {
        self.current as int
    }

    /// The tokens not yet consumed.
    pub closed spec fn rest(&self) -> Seq<TokenView> {
        self.all().subrange(self.current as int, self.tokens@.len() as int)
    }

    pub closed spec fn wf(&self) -> bool {
        self.current <= self.tokens@.len()
    }

    /// What `parse` returns from this state.
    pub closed spec fn outcome(&self) -> Result<Seq<StmtView>, ErrorView> {
        match self.lex_error {
            Some(e) => Err(e@),
            None => parse_stmts(self.rest()),
        }
    }

    pub fn new_from_str(source: &str) -> (r: Parser)
        requires
            source@.len() < usize::MAX,
        ensures
            r.wf(),
            r.outcome() == parse_program(source@),
    {
        match tokenize(source) {
            Ok(tokens) => {
                let r = Parser { tokens, current: 0, lex_error: None };
                assert(r.rest() =~= lex(source@).0);
                r
            },
            Err(e) => Parser { tokens: Vec::new(), current: 0, lex_error: Some(e) },
        }
    }

    /// A parser over tokens already read, such as the inside of a block.
    pub fn new_from_tokens(tokens: Vec<Token>) -> (r: Parser)
        ensures
            r.wf(),
            r.outcome() == parse_stmts(token_views(tokens@)),
            r.all().len() == tokens@.len(),
    {
        let r = Parser { tokens, current: 0, lex_error: None };
        assert(r.rest() =~= token_views(r.tokens@));
        r
    }

    fn last_line(&self) -> (r: usize)
        ensures
            r as nat == last_line(self.all()),
    {
        if self.tokens.len() > 0 {
            self.tokens[self.tokens.len() - 1].line()
        } else {
            0
        }
    }

    pub fn make_error(&self, message: String) -> (r: InterpreterError)
        requires
            self.wf(),
        ensures
            r@ == error_at(self.all(), self.position(), message@),
    {
        let line = if self.current < self.tokens.len() {
            self.tokens[self.current].line()
        } else {
            self.last_line()
        };
        InterpreterError::Parser { line, message }
    }

    pub fn peek_is(&self, token_type: TokenType) -> (r: bool)
        requires
            self.wf(),
        ensures
            r == (self.position() < self.all().len() && crate::token::token_type(
                self.all()[self.position()],
            ) == token_type),
    {
        if self.current < self.tokens.len() {
            self.tokens[self.current].is_type(token_type)
        } else {
            false
        }
    }

    pub fn has_reached_end(&self) -> (r: bool)
        requires
            self.wf(),
        ensures
            r == (self.position() >= self.all().len()),
    {
        self.current >= self.tokens.len()
    }

    /// Consumes the next token, whatever it is.
    fn consume(&mut self) -> (r: Option<Token>)
        requires
            old(self).wf(),
        ensures
            final(self).wf(),
            final(self).tokens == old(self).tokens,
            final(self).lex_error == old(self).lex_error,
            old(self).current < old(self).tokens@.len() ==> (r matches Some(t) && t@ == old(self).all()[old(self).position()] && final(self).current == old(self).current + 1),
            old(self).current >= old(self).tokens@.len() ==> r is None && final(self).current
                == old(self).current,
    {
        if self.current < self.tokens.len() {
            let t = self.tokens[self.current].duplicate();
            self.current = self.current + 1;
            Some(t)
        } else {
            None
        }
    }

    fn consume_if(&mut self, token_type: TokenType) -> (r: Option<Token>)
        requires
            old(self).wf(),
        ensures
            final(self).wf(),
            final(self).tokens == old(self).tokens,
            final(self).lex_error == old(self).lex_error,
            old(self).peek_is_spec(token_type) ==> (r matches Some(t) && t@ == old(self).all()[old(self).position()] && final(self).current == old(self).current + 1),
            !old(self).peek_is_spec(token_type) ==> r is None && final(self).current == old(self).current,
    {
        if self.peek_is(token_type) {
            self.consume()
        } else {
            None
        }
    }

    /// Both parsers read the same tokens and carry the same lexical error.
    pub closed spec fn same_input(&self, other: Parser) -> bool {
        self.tokens == other.tokens && self.lex_error == other.lex_error
    }

    pub closed spec fn peek_is_spec(&self, token_type: TokenType) -> bool {
        self.position() < self.all().len() && crate::token::token_type(self.all()[self.position()])
            == token_type
    }

    fn consume_expecting(&mut self, token_type: TokenType, message: &str) -> (r: Result<
        Token,
        InterpreterError,
    >)
        requires
            old(self).wf(),
        ensures
            final(self).wf(),
            final(self).tokens == old(self).tokens,
            final(self).lex_error == old(self).lex_error,
            old(self).peek_is_spec(token_type) ==> (r matches Ok(t) && t@ == old(self).all()[old(self).position()] && final(self).current == old(self).current + 1),
            !old(self).peek_is_spec(token_type) ==> (r matches Err(e) && e@ == error_at(
                old(self).all(),
                old(self).position(),
                message@,
            ) && final(self).current == old(self).current),
    {
        match self.consume_if(token_type) {
            Some(t) => Ok(t),
            None => Err(self.make_error(String::from_str(message))),
        }
    }

    /// Consumes a bracketed block and returns the tokens between its outermost
    /// brackets.
    pub fn consume_block(&mut self) -> (r: Result<Vec<Token>, InterpreterError>)
        requires
            old(self).wf(),
        ensures
            final(self).wf(),
            final(self).same_input(*old(self)),
            !old(self).peek_is_spec(TokenType::LeftBracketToken) ==> (r matches Err(e) && e@
                == error_at(old(self).all(), old(self).position(), block_open_message())),
            old(self).peek_is_spec(TokenType::LeftBracketToken) ==> match block_close(
                old(self).all(),
                old(self).position() + 1,
                1,
            ) {
                Some(j) => r matches Ok(b) && token_views(b@) == old(self).all().subrange(
                    old(self).position() + 1,
                    j,
                ) && final(self).position() == j + 1,
                None => r matches Err(e) && e@ == (ErrorView::Parser {
                    line: last_line(old(self).all()),
                    message: block_close_message(),
                }),
            },
    {
        if !self.peek_is(TokenType::LeftBracketToken) {
            return Err(
                self.make_error(
                    String::from_str(
                        "Expected block. Block has to start with opening bracket `[`. Opening bracket is missing.",
                    ),
                ),
            );
        }
        let total = self.tokens.len();
        self.current = self.current + 1;
        let ghost start = self.current as int;
        let ghost all = self.all();
        let mut open_brackets_count: usize = 1;
        let mut block_tokens: Vec<Token> = Vec::new();
        while self.current < total
            invariant
                self.wf(),
                total == self.tokens@.len(),
                self.tokens == old(self).tokens,
                self.lex_error == old(self).lex_error,
                all == self.all(),
                start == old(self).current + 1,
                start <= self.current,
                old(self).peek_is_spec(TokenType::LeftBracketToken),
                1 <= open_brackets_count <= self.current,
                block_close(all, start, 1) == block_close(
                    all,
                    self.current as int,
                    open_brackets_count as nat,
                ),
                token_views(block_tokens@) == all.subrange(start, self.current as int),
            decreases self.tokens@.len() - self.current,
        {
            let token_type = self.tokens[self.current].get_type();
            if token_type == TokenType::RightBracketToken && open_brackets_count == 1 {
                self.current = self.current + 1;
                return Ok(block_tokens);
            }
            if token_type == TokenType::LeftBracketToken {
                open_brackets_count = open_brackets_count + 1;
            } else if token_type == TokenType::RightBracketToken {
                open_brackets_count = open_brackets_count - 1;
            }
            let ghost before = block_tokens@;
            block_tokens.push(self.tokens[self.current].duplicate());
            self.current = self.current + 1;
            proof {
                assert(token_views(block_tokens@) =~= token_views(before).push(
                    all[self.current - 1],
                ));
                assert(all.subrange(start, self.current as int) =~= all.subrange(
                    start,
                    self.current - 1,
                ).push(all[self.current - 1]));
            }
        }
        Err(
            InterpreterError::Parser {
                line: self.last_line(),
                message: String::from_str(
                    "Expected block. Block has to end with closing bracket `]`. Closing bracket is missing.",
                ),
            },
        )
    }

    fn parse_forward_command_stmt(&mut self) -> (r: Result<Stmt, InterpreterError>)
        requires
            old(self).wf(),
        ensures
            final(self).wf(),
            final(self).same_input(*old(self)),
            match number_at(old(self).all(), old(self).position()) {
                Some(n) => r matches Ok(st) && stmt_view(st) == StmtView::MoveForward(n)
                    && final(self).position() == old(self).position() + 1,
                None => r matches Err(e) && e@ == error_at(
                    old(self).all(),
                    old(self).position(),
                    forward_message(),
                ),
            },
    {
        match self.consume_expecting(TokenType::NumberToken, "Expecting number after forward command.") {
            Ok(Token::NumberToken(_, value)) => Ok(Stmt::MoveForward(MoveForwardStmt { distance: value })),
            Ok(_) => Err(self.make_error(String::from_str("Expected number."))),
            Err(e) => Err(e),
        }
    }

    fn parse_back_command_stmt(&mut self) -> (r: Result<Stmt, InterpreterError>)
        requires
            old(self).wf(),
        ensures
            final(self).wf(),
            final(self).same_input(*old(self)),
            match number_at(old(self).all(), old(self).position()) {
                Some(n) => r matches Ok(st) && stmt_view(st) == StmtView::MoveBack(n)
                    && final(self).position() == old(self).position() + 1,
                None => r matches Err(e) && e@ == error_at(
                    old(self).all(),
                    old(self).position(),
                    back_message(),
                ),
            },
    {
        match self.consume_expecting(TokenType::NumberToken, "Expecting number after back command.") {
            Ok(Token::NumberToken(_, value)) => Ok(Stmt::MoveBack(MoveBackwardStmt { distance: value })),
            Ok(_) => Err(self.make_error(String::from_str("Expected number."))),
            Err(e) => Err(e),
        }
    }

    fn parse_right_command_stmt(&mut self) -> (r: Result<Stmt, InterpreterError>)
        requires
            old(self).wf(),
        ensures
            final(self).wf(),
            final(self).same_input(*old(self)),
            match number_at(old(self).all(), old(self).position()) {
                Some(n) => r matches Ok(st) && stmt_view(st) == StmtView::RotateRight(n)
                    && final(self).position() == old(self).position() + 1,
                None => r matches Err(e) && e@ == error_at(
                    old(self).all(),
                    old(self).position(),
                    right_message(),
                ),
            },
    {
        match self.consume_expecting(TokenType::NumberToken, "Expecting number after turn right command.") {
            Ok(Token::NumberToken(_, value)) => Ok(Stmt::RotateRight(RotateRightStmt { angular_distance: value })),
            Ok(_) => Err(self.make_error(String::from_str("Expected number."))),
            Err(e) => Err(e),
        }
    }

    fn parse_left_command_stmt(&mut self) -> (r: Result<Stmt, InterpreterError>)
        requires
            old(self).wf(),
        ensures
            final(self).wf(),
            final(self).same_input(*old(self)),
            match number_at(old(self).all(), old(self).position()) {
                Some(n) => r matches Ok(st) && stmt_view(st) == StmtView::RotateLeft(n)
                    && final(self).position() == old(self).position() + 1,
                None => r matches Err(e) && e@ == error_at(
                    old(self).all(),
                    old(self).position(),
                    left_message(),
                ),
            },
    {
        match self.consume_expecting(TokenType::NumberToken, "Expecting number after turn left command.") {
            Ok(Token::NumberToken(_, value)) => Ok(Stmt::RotateLeft(RotateLeftStmt { angular_distance: value })),
            Ok(_) => Err(self.make_error(String::from_str("Expected number."))),
            Err(e) => Err(e),
        }
    }

    fn parse_set_color_command_stmt(&mut self) -> (r: Result<Stmt, InterpreterError>)
        requires
            old(self).wf(),
        ensures
            final(self).wf(),
            final(self).same_input(*old(self)),
            match color_at(old(self).all(), old(self).position()) {
                Some(c) => r matches Ok(st) && stmt_view(st) == StmtView::SetColor(c)
                    && final(self).position() == old(self).position() + 1,
                None => r matches Err(e) && e@ == error_at(
                    old(self).all(),
                    old(self).position(),
                    color_message(),
                ),
            },
    {
        match self.consume_expecting(TokenType::ColorToken, "Expecting HEX color after COLOR command.") {
            Ok(Token::ColorToken(_, color)) => Ok(Stmt::SetColor(SetColorStmt { color })),
            Ok(_) => Err(self.make_error(String::from_str("Expected color."))),
            Err(e) => Err(e),
        }
    }

    fn parse_primary(&mut self) -> (r: Result<Expr, InterpreterError>)
        requires
            old(self).wf(),
        ensures
            final(self).wf(),
            final(self).same_input(*old(self)),
            number_at(old(self).all(), old(self).position()) matches Some(n) ==> (r matches Ok(
                Expr::Literal(Literal::Number(m)),
            ) && m@ == n && final(self).position() == old(self).position() + 1),
            color_at(old(self).all(), old(self).position()) matches Some(c) ==> (r matches Ok(
                Expr::Literal(Literal::Color(k)),
            ) && k@ == c && final(self).position() == old(self).position() + 1),
            number_at(old(self).all(), old(self).position()) is None && color_at(
                old(self).all(),
                old(self).position(),
            ) is None ==> (r matches Err(e) && e@ == error_at(
                old(self).all(),
                old(self).position(),
                primary_message(),
            )),
    {
        match self.consume_if(TokenType::NumberToken) {
            Some(Token::NumberToken(_, value)) => {
                return Ok(Expr::Literal(Literal::Number(value)));
            },
            Some(_) => {
                return Err(self.make_error(String::from_str("Expected number.")));
            },
            None => {},
        }
        match self.consume_if(TokenType::ColorToken) {
            Some(Token::ColorToken(_, value)) => {
                return Ok(Expr::Literal(Literal::Color(value)));
            },
            Some(_) => {
                return Err(self.make_error(String::from_str("Expected color.")));
            },
            None => {},
        }
        Err(self.make_error(String::from_str("Expected an expression while parsing primary.")))
    }

    fn parse_expression_stmt(&mut self) -> (r: Result<Stmt, InterpreterError>)
        requires
            old(self).wf(),
        ensures
            final(self).wf(),
            final(self).same_input(*old(self)),
            number_at(old(self).all(), old(self).position()) matches Some(n) ==> (r matches Ok(st)
                && stmt_view(st) == StmtView::Expression(LiteralView::Number(n)) && final(self).position() == old(self).position() + 1),
            color_at(old(self).all(), old(self).position()) matches Some(c) ==> (r matches Ok(st)
                && stmt_view(st) == StmtView::Expression(LiteralView::Color(c)) && final(self).position() == old(self).position() + 1),
            number_at(old(self).all(), old(self).position()) is None && color_at(
                old(self).all(),
                old(self).position(),
            ) is None ==> (r matches Err(e) && e@ == error_at(
                old(self).all(),
                old(self).position(),
                primary_message(),
            )),
    {
        match self.parse_primary() {
            Ok(expr) => Ok(Stmt::Expression(expr)),
            Err(e) => Err(e),
        }
    }

    /// Parses the statement that starts at the cursor.
    fn parse_statement(&mut self) -> (r: Result<Stmt, InterpreterError>)
        requires
            old(self).wf(),
            old(self).position() < old(self).all().len(),
        ensures
            final(self).wf(),
            final(self).same_input(*old(self)),
            match parse_stmt(old(self).rest()) {
                Ok((sv, n)) => r matches Ok(st) && stmt_view(st) == sv && final(self).position()
                    == old(self).position() + n,
                Err(e) => r matches Err(x) && x@ == e,
            },
        decreases old(self).all().len(), 1nat,
    {
        let ghost all = self.all();
        let ghost p = self.position();
        proof {
            lemma_line_at_rest(all, p, 0);
            lemma_line_at_rest(all, p, 1);
            lemma_line_at_rest(all, p, 2);
            assert(self.rest()[0] == all[p]);
        }
        if self.consume_if(TokenType::RepeatLoopToken).is_some() {
            self.parse_repeat_loop()
        } else if self.consume_if(TokenType::SetColorCommandToken).is_some() {
            self.parse_set_color_command_stmt()
        } else if self.consume_if(TokenType::ForwardCommandToken).is_some() {
            self.parse_forward_command_stmt()
        } else if self.consume_if(TokenType::BackwardCommandToken).is_some() {
            self.parse_back_command_stmt()
        } else if self.consume_if(TokenType::TurnRightCommandToken).is_some() {
            self.parse_right_command_stmt()
        } else if self.consume_if(TokenType::TurnLeftCommandToken).is_some() {
            self.parse_left_command_stmt()
        } else if self.peek_is(TokenType::LeftBracketToken) {
            self.parse_block_stmt()
        } else if self.peek_is(TokenType::RightBracketToken) {
            Err(
                self.make_error(
                    String::from_str(
                        "Invalid number of closing brackets. There are more closing brackets than expected.",
                    ),
                ),
            )
        } else {
            self.parse_expression_stmt()
        }
    }

    /// Parses a bracketed block that stands as a statement of its own.
    fn parse_block_stmt(&mut self) -> (r: Result<Stmt, InterpreterError>)
        requires
            old(self).wf(),
            old(self).position() < old(self).all().len(),
            old(self).all()[old(self).position()] is LeftBracket,
        ensures
            final(self).wf(),
            final(self).same_input(*old(self)),
            match parse_stmt(old(self).rest()) {
                Ok((sv, n)) => r matches Ok(st) && stmt_view(st) == sv && final(self).position()
                    == old(self).position() + n,
                Err(e) => r matches Err(x) && x@ == e,
            },
        decreases old(self).all().len(), 0nat,
    {
        let ghost all = self.all();
        let ghost s0 = self.position();
        let ghost t = self.rest();
        proof {
            assert(t[0] == all[s0]);
            lemma_block_close_rest(all, s0, s0 + 1, 1);
            lemma_block_close_bound(all, s0 + 1, 1);
        }
        let block_tokens = match self.consume_block() {
            Ok(b) => b,
            Err(e) => {
                return Err(e);
            },
        };
        let ghost j = self.position() - 1;
        proof {
            assert(token_views(block_tokens@) =~= t.subrange(1, j - s0));
        }
        let mut block_parser = Parser::new_from_tokens(block_tokens);
        let block_statements = match block_parser.parse() {
            Ok(stmts) => stmts,
            Err(e) => {
                return Err(e);
            },
        };
        let block = Stmt::Block(block_statements);
        assert(stmt_view(block) == StmtView::Block(stmts_view(block_statements@)));
        Ok(block)
    }

    /// Parses `REPEAT <number> [ ... ]` once `REPEAT` has been consumed.
    fn parse_repeat_loop(&mut self) -> (r: Result<Stmt, InterpreterError>)
        requires
            old(self).wf(),
            1 <= old(self).position() <= old(self).all().len(),
            old(self).all()[old(self).position() - 1] is Repeat,
        ensures
            final(self).wf(),
            final(self).same_input(*old(self)),
            match parse_stmt(
                old(self).all().subrange(old(self).position() - 1, old(self).all().len() as int),
            ) {
                Ok((sv, n)) => r matches Ok(st) && stmt_view(st) == sv && final(self).position()
                    == old(self).position() - 1 + n,
                Err(e) => r matches Err(x) && x@ == e,
            },
        decreases old(self).all().len(), 0nat,
    {
        let ghost all = self.all();
        let ghost s0 = self.position() - 1;
        let ghost t = all.subrange(s0, all.len() as int);
        proof {
            lemma_line_at_rest(all, s0, 1);
            lemma_line_at_rest(all, s0, 2);
            lemma_block_close_rest(all, s0, s0 + 3, 1);
            lemma_block_close_bound(all, s0 + 3, 1);
        }
        let number_of_repeats = match self.consume_expecting(
            TokenType::NumberToken,
            "Repeat statement must define a number of repeats. Parser didn't find number.",
        ) {
            Ok(Token::NumberToken(_, value)) => value.round(),
            Ok(_) => {
                return Err(self.make_error(String::from_str("Expected number.")));
            },
            Err(e) => {
                return Err(e);
            },
        };
        let block_tokens = match self.consume_block() {
            Ok(b) => b,
            Err(e) => {
                return Err(e);
            },
        };
        let ghost j = self.position() - 1;
        proof {
            assert(token_views(block_tokens@) =~= t.subrange(3, j - s0));
        }
        let mut block_parser = Parser::new_from_tokens(block_tokens);
        let block_statements = match block_parser.parse() {
            Ok(stmts) => stmts,
            Err(e) => {
                return Err(e);
            },
        };
        let body = Stmt::Block(block_statements);
        assert(stmt_view(body) == StmtView::Block(stmts_view(block_statements@)));
        Ok(Stmt::Repeat(RepeatStmt { count: number_of_repeats, body: Box::new(body) }))
    }

    /// All the statements, or the first error: lexical errors come first.
    pub fn parse(&mut self) -> (r: Result<Vec<Stmt>, InterpreterError>)
        requires
            old(self).wf(),
        ensures
            final(self).wf(),
            match r {
                Ok(v) => old(self).outcome() == Ok::<Seq<StmtView>, ErrorView>(stmts_view(v@)),
                Err(e) => old(self).outcome() == Err::<Seq<StmtView>, ErrorView>(e@),
            },
        decreases old(self).all().len(), 2nat,
    {
        if self.lex_error.is_some() {
            let e = self.lex_error.take();
            return Err(e.unwrap());
        }
        let mut statements: Vec<Stmt> = Vec::new();
        proof {
            if let Ok(rr) = parse_stmts(self.rest()) {
                assert(stmts_view(statements@) + rr =~= rr);
            }
        }
        while !self.has_reached_end()
            invariant
                self.wf(),
                self.tokens == old(self).tokens,
                self.lex_error is None,
                old(self).lex_error is None,
                old(self).outcome() == match parse_stmts(self.rest()) {
                    Ok(r) => Ok(stmts_view(statements@) + r),
                    Err(e) => Err(e),
                },
            decreases self.tokens@.len() - self.current,
        {
            let ghost r0 = self.rest();
            let ghost before = statements@;
            proof {
                lemma_parse_stmt_consumes(r0);
            }
            match self.parse_statement() {
                Ok(st) => {
                    statements.push(st);
                    proof {
                        let (sv, n) = parse_stmt(r0)->Ok_0;
                        assert(r0.subrange(n, r0.len() as int) =~= self.rest());
                        lemma_stmts_view_push(before, st);
                        assert(statements@ == before.push(st));
                        match parse_stmts(self.rest()) {
                            Ok(rr) => {
                                assert(stmts_view(before) + (seq![sv] + rr) =~= stmts_view(
                                    before,
                                ).push(sv) + rr);
                            },
                            Err(_) => {},
                        }
                    }
                },
                Err(e) => {
                    return Err(e);
                },
            }
        }
        proof {
            assert(self.rest().len() == 0);
            assert(stmts_view(statements@) + Seq::<StmtView>::empty() =~= stmts_view(statements@));
        }
        Ok(statements)
    }
}

} // verus!

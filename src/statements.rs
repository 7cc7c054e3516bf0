//! The syntax tree: statements and the literal expression.

use vstd::prelude::*;
use crate::number::{Number, NumberView};

verus! {

#[derive(Debug, PartialEq, Clone)]
pub enum Literal {
    Number(Number),
    Color(String),
}

/// An expression yields a value and has no other effect.
#[derive(Debug, PartialEq, Clone)]
pub enum Expr {
    Literal(Literal),
}

#[derive(Debug, PartialEq)]
pub struct RepeatStmt {
    pub count: u64,
    /// Always a `Stmt::Block`.
    pub body: Box<Stmt>,
}

#[derive(Debug, PartialEq, Clone)]
pub struct SetColorStmt {
    pub color: String,
}

#[derive(Debug, PartialEq, Clone)]
pub struct MoveForwardStmt {
    pub distance: Number,
}

#[derive(Debug, PartialEq, Clone)]
pub struct MoveBackwardStmt {
    pub distance: Number,
}

#[derive(Debug, PartialEq, Clone)]
pub struct RotateRightStmt {
    pub angular_distance: Number,
}

#[derive(Debug, PartialEq, Clone)]
pub struct RotateLeftStmt {
    pub angular_distance: Number,
}

/// Statements yield no value: they are carried out.
#[derive(Debug, PartialEq)]
pub enum Stmt {
    Block(Vec<Stmt>),
    Expression(Expr),
    Repeat(RepeatStmt),
    SetColor(SetColorStmt),
    MoveForward(MoveForwardStmt),
    MoveBack(MoveBackwardStmt),
    RotateRight(RotateRightStmt),
    RotateLeft(RotateLeftStmt),
}

pub enum LiteralView {
    Number(NumberView),
    Color(Seq<char>),
}

/// A statement as a mathematical value.
pub enum StmtView {
    Block(Seq<StmtView>),
    Expression(LiteralView),
    Repeat(nat, Box<StmtView>),
    SetColor(Seq<char>),
    MoveForward(NumberView),
    MoveBack(NumberView),
    RotateRight(NumberView),
    RotateLeft(NumberView),
}

pub open spec fn literal_view(l: Literal) -> LiteralView {
    match l {
        Literal::Number(n) => LiteralView::Number(n@),
        Literal::Color(c) => LiteralView::Color(c@),
    }
}

pub open spec fn stmt_view(s: Stmt) -> StmtView
    decreases s,
{
    match s {
        Stmt::Block(v) => StmtView::Block(stmts_view(v@)),
        Stmt::Expression(Expr::Literal(l)) => StmtView::Expression(literal_view(l)),
        Stmt::Repeat(r) => StmtView::Repeat(r.count as nat, Box::new(stmt_view(*r.body))),
        Stmt::SetColor(c) => StmtView::SetColor(c.color@),
        Stmt::MoveForward(m) => StmtView::MoveForward(m.distance@),
        Stmt::MoveBack(m) => StmtView::MoveBack(m.distance@),
        Stmt::RotateRight(m) => StmtView::RotateRight(m.angular_distance@),
        Stmt::RotateLeft(m) => StmtView::RotateLeft(m.angular_distance@),
    }
}

pub open spec fn stmts_view(ss: Seq<Stmt>) -> Seq<StmtView>
    decreases ss,
{
    if ss.len() == 0 {
        Seq::empty()
    } else {
        stmts_view(ss.drop_last()).push(stmt_view(ss.last()))
    }
}

pub proof fn lemma_stmts_view(ss: Seq<Stmt>)
    ensures
        stmts_view(ss).len() == ss.len(),
        forall|i: int| 0 <= i < ss.len() ==> #[trigger] stmts_view(ss)[i] == stmt_view(ss[i]),
    decreases ss.len(),
{
    if ss.len() > 0 {
        lemma_stmts_view(ss.drop_last());
    }
}

pub proof fn lemma_stmts_view_push(ss: Seq<Stmt>, s: Stmt)
    ensures
        stmts_view(ss.push(s)) == stmts_view(ss).push(stmt_view(s)),
{
    assert(ss.push(s).drop_last() =~= ss);
}

} // verus!

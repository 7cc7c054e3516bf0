//! The evaluator: walks the statements and emits the turtle's effects in order.

use vstd::prelude::*;
use vstd::string::*;
use crate::errors::{ErrorView, InterpreterError};
use crate::number::{Number, NumberView, repeat_count};
use crate::parser::{Parser, block_close, number_at, parse_program, parse_stmt, parse_stmts};
use crate::token::TokenView;
use crate::statements::{
    Expr,
    Literal,
    RepeatStmt,
    Stmt,
    StmtView,
    lemma_stmts_view,
    stmt_view,
    stmts_view,
};

verus! {

/// The value of an expression.
#[derive(Debug, PartialEq, Clone)]
pub enum Obj {
    Num(Number),
    Color(String),
}

/// What the renderer is asked to do, in order. Poses are the renderer's own:
/// it starts the turtle centred, heading up, and applies each move and turn.
#[derive(Debug, PartialEq, Clone)]
pub enum Effect {
    ClearSurface,
    /// A line from the turtle's position, `distance` ahead (or back) along its
    /// heading, drawn in `color`; the turtle ends at the far end.
    DrawLine { backward: bool, distance: Number, color: String },
    /// A turn by `angle` degrees, to the left (counter-clockwise) or to the right.
    Turn { left: bool, angle: Number },
    RenderCursor,
}

pub enum EffectView {
    ClearSurface,
    DrawLine { backward: bool, distance: NumberView, color: Seq<char> },
    Turn { left: bool, angle: NumberView },
    RenderCursor,
}

impl View for Effect {
    type V = EffectView;

    open spec fn view(&self) -> EffectView {
        match self {
            Effect::ClearSurface => EffectView::ClearSurface,
            Effect::DrawLine { backward, distance, color } => EffectView::DrawLine {
                backward: *backward,
                distance: distance@,
                color: color@,
            },
            Effect::Turn { left, angle } => EffectView::Turn { left: *left, angle: angle@ },
            Effect::RenderCursor => EffectView::RenderCursor,
        }
    }
}

pub open spec fn effect_views(es: Seq<Effect>) -> Seq<EffectView> {
    es.map_values(|e: Effect| e@)
}

pub open spec fn initial_color() -> Seq<char> {
    "#000000"@
}

/// The effects of one statement run with pen colour `color`, and the colour after it.
pub open spec fn run(st: StmtView, color: Seq<char>) -> (Seq<EffectView>, Seq<char>)
    decreases st, 0nat,
{
    match st {
        StmtView::Block(ss) => run_seq(ss, color),
        StmtView::Expression(_) => (Seq::empty(), color),
        StmtView::Repeat(n, body) => run_times(n, *body, color),
        StmtView::SetColor(c) => (Seq::empty(), c),
        StmtView::MoveForward(d) => (
            seq![EffectView::DrawLine { backward: false, distance: d, color }],
            color,
        ),
        StmtView::MoveBack(d) => (
            seq![EffectView::DrawLine { backward: true, distance: d, color }],
            color,
        ),
        StmtView::RotateRight(a) => (seq![EffectView::Turn { left: false, angle: a }], color),
        StmtView::RotateLeft(a) => (seq![EffectView::Turn { left: true, angle: a }], color),
    }
}

/// The effects of statements run one after another.
pub open spec fn run_seq(ss: Seq<StmtView>, color: Seq<char>) -> (Seq<EffectView>, Seq<char>)
    decreases ss, 0nat,
{
    if ss.len() == 0 {
        (Seq::empty(), color)
    } else {
        let first = run_seq(ss.drop_last(), color);
        let last = run(ss.last(), first.1);
        (first.0 + last.0, last.1)
    }
}

/// The effects of a body run `n` times.
pub open spec fn run_times(n: nat, body: StmtView, color: Seq<char>) -> (
    Seq<EffectView>,
    Seq<char>,
)
    decreases body, n,
{
    if n == 0 {
        (Seq::empty(), color)
    } else {
        let first = run_times((n - 1) as nat, body, color);
        let last = run(body, first.1);
        (first.0 + last.0, last.1)
    }
}

/// A whole script run: clear the surface, run the statements from the initial
/// colour, draw the cursor.
pub open spec fn script_effects(ss: Seq<StmtView>) -> Seq<EffectView> {
    seq![EffectView::ClearSurface] + run_seq(ss, initial_color()).0 + seq![EffectView::RenderCursor]
}

/// What running a script's text yields.
pub open spec fn run_program(s: Seq<char>) -> Result<Seq<EffectView>, ErrorView> {
    match parse_program(s) {
        Ok(ss) => Ok(script_effects(ss)),
        Err(e) => Err(e),
    }
}

/// How many lines a sequence of effects draws.
pub open spec fn line_count(es: Seq<EffectView>) -> nat
    decreases es.len(),
{
    if es.len() == 0 {
        0
    } else {
        line_count(es.drop_last()) + if es.last() is DrawLine {
            1nat
        } else {
            0nat
        }
    }
}

proof fn lemma_line_count_append(a: Seq<EffectView>, b: Seq<EffectView>)
    ensures
        line_count(a + b) == line_count(a) + line_count(b),
    decreases b.len(),
{
    if b.len() == 0 {
        assert(a + b =~= a);
    } else {
        lemma_line_count_append(a, b.drop_last());
        assert((a + b).drop_last() =~= a + b.drop_last());
    }
}

/// Running statements one after another is running the first part, then the
/// second from the pen the first left.
pub proof fn lemma_run_seq_append(a: Seq<StmtView>, b: Seq<StmtView>, pen: Seq<char>)
    ensures
        run_seq(a + b, pen) == (
            run_seq(a, pen).0 + run_seq(b, run_seq(a, pen).1).0,
            run_seq(b, run_seq(a, pen).1).1,
        ),
    decreases b.len(),
{
    let mid = run_seq(a, pen).1;
    if b.len() == 0 {
        assert(a + b =~= a);
        assert(run_seq(a, pen).0 + Seq::<EffectView>::empty() =~= run_seq(a, pen).0);
    } else {
        lemma_run_seq_append(a, b.drop_last(), pen);
        assert((a + b).drop_last() =~= a + b.drop_last());
        assert((a + b).last() == b.last());
        let x = run_seq(b.drop_last(), mid);
        let y = run(b.last(), x.1);
        assert(run_seq(a, pen).0 + x.0 + y.0 =~= run_seq(a, pen).0 + (x.0 + y.0));
    }
}

/// A colour change reaches only what runs after it: running `before`, then
/// `COLOR c`, then `after` emits what `before` emits from the starting pen,
/// followed by what `after` emits with pen `c`.
pub proof fn lemma_color_affects_only_later(
    before: Seq<StmtView>,
    c: Seq<char>,
    after: Seq<StmtView>,
    pen: Seq<char>,
)
    ensures
        run_seq(before + seq![StmtView::SetColor(c)] + after, pen) == (
            run_seq(before, pen).0 + run_seq(after, c).0,
            run_seq(after, c).1,
        ),
{
    let one = seq![StmtView::SetColor(c)];
    lemma_run_seq_append(before, one, pen);
    lemma_run_seq_append(before + one, after, pen);
    let p = run_seq(before, pen).1;
    assert(one.drop_last() =~= Seq::<StmtView>::empty());
    assert(one.last() == StmtView::SetColor(c));
    assert(run_seq(Seq::<StmtView>::empty(), p) == (Seq::<EffectView>::empty(), p));
    assert(run(StmtView::SetColor(c), p) == (Seq::<EffectView>::empty(), c));
    assert(run_seq(one, p) == (Seq::<EffectView>::empty() + Seq::<EffectView>::empty(), c));
    assert(run_seq(before, pen).0 + (Seq::<EffectView>::empty() + Seq::<EffectView>::empty())
        =~= run_seq(before, pen).0);
}

proof fn lemma_run_lines(st: StmtView, c1: Seq<char>, c2: Seq<char>)
    ensures
        line_count(run(st, c1).0) == line_count(run(st, c2).0),
    decreases st, 0nat,
{
    match st {
        StmtView::Block(ss) => {
            assert(run(st, c1) == run_seq(ss, c1));
            assert(run(st, c2) == run_seq(ss, c2));
            lemma_run_seq_lines(ss, c1, c2);
        },
        StmtView::Repeat(n, body) => {
            assert(run(st, c1) == run_times(n, *body, c1));
            assert(run(st, c2) == run_times(n, *body, c2));
            lemma_run_times_lines(n, *body, c1, c2);
        },
        _ => {
            let a = run(st, c1).0;
            let b = run(st, c2).0;
            assert(a.len() == b.len() && a.len() <= 1);
            if a.len() == 1 {
                assert(a.drop_last() =~= Seq::<EffectView>::empty());
                assert(b.drop_last() =~= Seq::<EffectView>::empty());
                assert((a.last() is DrawLine) == (b.last() is DrawLine));
            }
        },
    }
}

proof fn lemma_run_seq_lines(ss: Seq<StmtView>, c1: Seq<char>, c2: Seq<char>)
    ensures
        line_count(run_seq(ss, c1).0) == line_count(run_seq(ss, c2).0),
    decreases ss, 0nat,
{
    if ss.len() > 0 {
        lemma_run_seq_lines(ss.drop_last(), c1, c2);
        let f1 = run_seq(ss.drop_last(), c1);
        let f2 = run_seq(ss.drop_last(), c2);
        lemma_run_lines(ss.last(), f1.1, f2.1);
        lemma_line_count_append(f1.0, run(ss.last(), f1.1).0);
        lemma_line_count_append(f2.0, run(ss.last(), f2.1).0);
    }
}

proof fn lemma_run_times_lines(n: nat, body: StmtView, c1: Seq<char>, c2: Seq<char>)
    ensures
        line_count(run_times(n, body, c1).0) == line_count(run_times(n, body, c2).0),
    decreases body, n,
{
    if n > 0 {
        lemma_run_times_lines((n - 1) as nat, body, c1, c2);
        let f1 = run_times((n - 1) as nat, body, c1);
        let f2 = run_times((n - 1) as nat, body, c2);
        lemma_run_lines(body, f1.1, f2.1);
        lemma_line_count_append(f1.0, run(body, f1.1).0);
        lemma_line_count_append(f2.0, run(body, f2.1).0);
    }
}

proof fn lemma_run_times_multiplies(n: nat, body: StmtView, pen: Seq<char>)
    ensures
        line_count(run_times(n, body, pen).0) == n * line_count(run(body, pen).0),
    decreases n,
{
    if n > 0 {
        lemma_run_times_multiplies((n - 1) as nat, body, pen);
        let f = run_times((n - 1) as nat, body, pen);
        lemma_run_lines(body, f.1, pen);
        lemma_line_count_append(f.0, run(body, f.1).0);
        let k = line_count(run(body, pen).0);
        assert((n - 1) * k + k == n * k) by (nonlinear_arith);
    } else {
        assert(line_count(Seq::<EffectView>::empty()) == 0);
    }
}

/// Repeating a body `n` times draws `n` times the lines that the body draws,
/// whatever colours it sets.
pub proof fn lemma_repeat_multiplies_lines(n: nat, body: StmtView, pen: Seq<char>)
    ensures
        line_count(run(StmtView::Repeat(n, Box::new(body)), pen).0) == n * line_count(
            run(body, pen).0,
        ),
{
    assert(run(StmtView::Repeat(n, Box::new(body)), pen) == run_times(n, body, pen));
    lemma_run_times_multiplies(n, body, pen);
}

/// Moving forward by `d` and then back by `d` hands the renderer two lines of
/// the same length, in the same colour, with no turn between them: the second
/// retraces the first back to where it started.
pub proof fn lemma_forward_then_back(d: NumberView, pen: Seq<char>)
    ensures
        run_seq(seq![StmtView::MoveForward(d), StmtView::MoveBack(d)], pen) == (
            seq![
                EffectView::DrawLine { backward: false, distance: d, color: pen },
                EffectView::DrawLine { backward: true, distance: d, color: pen },
            ],
            pen,
        ),
{
    let ss = seq![StmtView::MoveForward(d), StmtView::MoveBack(d)];
    let one = seq![StmtView::MoveForward(d)];
    let fwd = EffectView::DrawLine { backward: false, distance: d, color: pen };
    let back = EffectView::DrawLine { backward: true, distance: d, color: pen };
    assert(one.drop_last() =~= Seq::<StmtView>::empty());
    assert(one.last() == StmtView::MoveForward(d));
    assert(run_seq(Seq::<StmtView>::empty(), pen) == (Seq::<EffectView>::empty(), pen));
    assert(run(StmtView::MoveForward(d), pen) == (seq![fwd], pen));
    assert(Seq::<EffectView>::empty() + seq![fwd] =~= seq![fwd]);
    assert(run_seq(one, pen) == (seq![fwd], pen));
    assert(ss.drop_last() =~= one);
    assert(ss.last() == StmtView::MoveBack(d));
    assert(run(StmtView::MoveBack(d), pen) == (seq![back], pen));
    assert(seq![fwd] + seq![back] =~= seq![fwd, back]);
}

/// The colour of the last `COLOR` in a sequence, or `c` where there is none.
pub open spec fn last_color(ss: Seq<StmtView>, c: Seq<char>) -> Seq<char>
    decreases ss.len(),
{
    if ss.len() == 0 {
        c
    } else {
        match ss.last() {
            StmtView::SetColor(k) => k,
            _ => last_color(ss.drop_last(), c),
        }
    }
}

/// A statement with no statements inside it.
pub open spec fn is_simple(st: StmtView) -> bool {
    !(st is Block) && !(st is Repeat)
}

proof fn lemma_simple_pen(ss: Seq<StmtView>, c: Seq<char>)
    requires
        forall|k: int| 0 <= k < ss.len() ==> is_simple(#[trigger] ss[k]),
    ensures
        run_seq(ss, c).1 == last_color(ss, c),
    decreases ss.len(),
{
    if ss.len() > 0 {
        let init = ss.drop_last();
        assert forall|k: int| 0 <= k < init.len() implies is_simple(#[trigger] init[k]) by {
            assert(init[k] == ss[k]);
        }
        lemma_simple_pen(init, c);
        let x = ss.last();
        assert(is_simple(ss[ss.len() - 1]));
        let p = run_seq(init, c).1;
        assert(run_seq(ss, c).1 == run(x, p).1);
        match x {
            StmtView::SetColor(k) => assert(run(x, p).1 == k),
            _ => assert(run(x, p).1 == p),
        }
    }
}

/// In a sequence of simple statements, every line is drawn in the colour of
/// the last `COLOR` before its move, or in the starting colour where there is
/// none: the effects of the move at `i` start right after those of the
/// statements before it, with that colour as pen.
pub proof fn lemma_line_has_last_color(ss: Seq<StmtView>, c: Seq<char>, i: int)
    requires
        0 <= i < ss.len(),
        forall|k: int| 0 <= k < ss.len() ==> is_simple(#[trigger] ss[k]),
        ss[i] is MoveForward || ss[i] is MoveBack,
    ensures
        ({
            let pre = ss.subrange(0, i);
            let at = run_seq(pre, c).0.len();
            &&& at < run_seq(ss, c).0.len()
            &&& run_seq(ss, c).0[at as int] == run(ss[i], last_color(pre, c)).0[0]
            &&& run(ss[i], last_color(pre, c)).0 =~= seq![
                EffectView::DrawLine {
                    backward: ss[i] is MoveBack,
                    distance: match ss[i] {
                        StmtView::MoveForward(d) => d,
                        StmtView::MoveBack(d) => d,
                        _ => arbitrary(),
                    },
                    color: last_color(pre, c),
                },
            ]
        }),
{
    let pre = ss.subrange(0, i);
    let one = seq![ss[i]];
    let post = ss.subrange(i + 1, ss.len() as int);
    assert(ss =~= pre + one + post);
    lemma_simple_pen(pre, c);
    let p = run_seq(pre, c).1;
    lemma_run_seq_append(pre, one, c);
    lemma_run_seq_append(pre + one, post, c);
    assert(one.drop_last() =~= Seq::<StmtView>::empty());
    assert(run_seq(Seq::<StmtView>::empty(), p) == (Seq::<EffectView>::empty(), p));
    assert(run_seq(one, p).0 =~= run(ss[i], p).0);
}

/// `REPEAT x [ body ]` runs its block `repeat_count(x)` times: `x` rounded to
/// the nearest integer, halves away from zero (held at `u64::MAX`).
pub proof fn lemma_repeat_runs_rounded_count(
    t: Seq<TokenView>,
    x: NumberView,
    j: int,
    body: Seq<StmtView>,
    pen: Seq<char>,
)
    requires
        t.len() > 2,
        t[0] is Repeat,
        number_at(t, 1) == Some(x),
        t[2] is LeftBracket,
        block_close(t, 3, 1) == Some(j),
        parse_stmts(t.subrange(3, j)) == Ok::<Seq<StmtView>, ErrorView>(body),
    ensures
        parse_stmt(t) == Ok::<(StmtView, int), ErrorView>(
            (StmtView::Repeat(repeat_count(x), Box::new(StmtView::Block(body))), j + 1),
        ),
        run(StmtView::Repeat(repeat_count(x), Box::new(StmtView::Block(body))), pen)
            == run_times(repeat_count(x), StmtView::Block(body), pen),
{
}

/// The evaluator's state: the pen colour and the effects emitted so far.
pub struct Interpreter {
    color: String,
    effects: Vec<Effect>,
}

impl Interpreter {
    pub closed spec fn pen(&self) -> Seq<char> {
        self.color@
    }

    pub closed spec fn emitted(&self) -> Seq<EffectView> {
        effect_views(self.effects@)
    }

    /// A fresh evaluator: black pen, nothing emitted.
    pub fn new() -> (r: Interpreter)
        ensures
            r.pen() == initial_color(),
            r.emitted().len() == 0,
    {
        Interpreter { color: String::from_str("#000000"), effects: Vec::new() }
    }

    pub fn color(&self) -> (r: &String)
        ensures
            r@ == self.pen(),
    {
        &self.color
    }

    pub fn effects(&self) -> (r: &Vec<Effect>)
        ensures
            effect_views(r@) == self.emitted(),
    {
        &self.effects
    }

    fn emit(&mut self, e: Effect)
        ensures
            final(self).emitted() == old(self).emitted() + seq![e@],
            final(self).pen() == old(self).pen(),
    {
        self.effects.push(e);
        assert(final(self).emitted() =~= old(self).emitted() + seq![e@]);
    }

    /// Runs the statements in order.
    pub fn interpret_statements(&mut self, statements: &Vec<Stmt>) -> (r: Result<
        (),
        InterpreterError,
    >)
        ensures
            r is Ok,
            final(self).emitted() == old(self).emitted() + run_seq(
                stmts_view(statements@),
                old(self).pen(),
            ).0,
            final(self).pen() == run_seq(stmts_view(statements@), old(self).pen()).1,
        decreases statements, 0nat,
    {
        let ghost sv = stmts_view(statements@);
        proof {
            lemma_stmts_view(statements@);
            assert(sv.subrange(0, 0) =~= Seq::<StmtView>::empty());
            assert(self.emitted() =~= old(self).emitted() + Seq::<EffectView>::empty());
        }
        let mut i: usize = 0;
        while i < statements.len()
            invariant
                i <= statements@.len(),
                sv == stmts_view(statements@),
                sv.len() == statements@.len(),
                forall|k: int| 0 <= k < statements@.len() ==> #[trigger] sv[k] == stmt_view(
                    statements@[k],
                ),
                self.emitted() == old(self).emitted() + run_seq(
                    sv.subrange(0, i as int),
                    old(self).pen(),
                ).0,
                self.pen() == run_seq(sv.subrange(0, i as int), old(self).pen()).1,
            decreases statements@.len() - i,
        {
            let ghost before = self.emitted();
            self.execute(&statements[i]);
            proof {
                let pre = sv.subrange(0, i as int);
                let next = sv.subrange(0, i + 1);
                assert(next.drop_last() =~= pre);
                assert(next.last() == stmt_view(statements@[i as int]));
                assert(self.emitted() =~= old(self).emitted() + run_seq(next, old(self).pen()).0);
            }
            i = i + 1;
        }
        proof {
            assert(sv.subrange(0, i as int) =~= sv);
        }
        Ok(())
    }

    /// Runs one statement.
    pub fn execute(&mut self, stmt: &Stmt)
        ensures
            final(self).emitted() == old(self).emitted() + run(stmt_view(*stmt), old(self).pen()).0,
            final(self).pen() == run(stmt_view(*stmt), old(self).pen()).1,
        decreases stmt, 1nat,
    {
        match stmt {
            Stmt::Block(stmts) => {
                let _ = self.interpret_statements(stmts);
            },
            Stmt::Expression(expr) => {
                let _ = self.evaluate(expr);
                assert(self.emitted() =~= old(self).emitted() + Seq::<EffectView>::empty());
            },
            Stmt::Repeat(repeat_stmt) => {
                self.visit_repeat(repeat_stmt);
            },
            Stmt::SetColor(s) => {
                self.color = s.color.clone();
                assert(self.emitted() =~= old(self).emitted() + Seq::<EffectView>::empty());
            },
            Stmt::MoveForward(s) => {
                let color = self.color.clone();
                self.emit(Effect::DrawLine { backward: false, distance: s.distance.duplicate(), color });
            },
            Stmt::MoveBack(s) => {
                let color = self.color.clone();
                self.emit(Effect::DrawLine { backward: true, distance: s.distance.duplicate(), color });
            },
            Stmt::RotateRight(s) => {
                self.emit(Effect::Turn { left: false, angle: s.angular_distance.duplicate() });
            },
            Stmt::RotateLeft(s) => {
                self.emit(Effect::Turn { left: true, angle: s.angular_distance.duplicate() });
            },
        }
    }

    /// Runs the body `count` times, the same body each time.
    fn visit_repeat(&mut self, repeat_stmt: &RepeatStmt)
        ensures
            final(self).emitted() == old(self).emitted() + run_times(
                repeat_stmt.count as nat,
                stmt_view(*repeat_stmt.body),
                old(self).pen(),
            ).0,
            final(self).pen() == run_times(
                repeat_stmt.count as nat,
                stmt_view(*repeat_stmt.body),
                old(self).pen(),
            ).1,
        decreases repeat_stmt, 0nat,
    {
        let ghost body = stmt_view(*repeat_stmt.body);
        let mut i: u64 = 0;
        proof {
            assert(self.emitted() =~= old(self).emitted() + Seq::<EffectView>::empty());
        }
        while i < repeat_stmt.count
            invariant
                i <= repeat_stmt.count,
                body == stmt_view(*repeat_stmt.body),
                self.emitted() == old(self).emitted() + run_times(i as nat, body, old(self).pen()).0,
                self.pen() == run_times(i as nat, body, old(self).pen()).1,
            decreases repeat_stmt.count - i,
        {
            self.execute(&repeat_stmt.body);
            proof {
                assert(self.emitted() =~= old(self).emitted() + run_times(
                    (i + 1) as nat,
                    body,
                    old(self).pen(),
                ).0);
            }
            i = i + 1;
        }
    }

    /// The value of an expression; it has no other effect.
    pub fn evaluate(&self, expr: &Expr) -> (r: Obj)
        ensures
            match expr {
                Expr::Literal(Literal::Number(n)) => r matches Obj::Num(m) && m@ == n@,
                Expr::Literal(Literal::Color(c)) => r matches Obj::Color(k) && k@ == c@,
            },
    {
        match expr {
            Expr::Literal(Literal::Number(n)) => Obj::Num(n.duplicate()),
            Expr::Literal(Literal::Color(c)) => Obj::Color(c.clone()),
        }
    }

    /// Runs a whole script once: clear the surface, run the statements, draw
    /// the cursor.
    pub fn interpret_script(&mut self, block: &Vec<Stmt>) -> (r: Result<(), InterpreterError>)
        ensures
            r is Ok,
            final(self).emitted() == old(self).emitted() + seq![EffectView::ClearSurface]
                + run_seq(stmts_view(block@), old(self).pen()).0 + seq![EffectView::RenderCursor],
            final(self).pen() == run_seq(stmts_view(block@), old(self).pen()).1,
    {
        self.emit(Effect::ClearSurface);
        let _ = self.interpret_statements(block);
        self.emit(Effect::RenderCursor);
        assert(final(self).emitted() =~= old(self).emitted() + seq![EffectView::ClearSurface]
            + run_seq(stmts_view(block@), old(self).pen()).0 + seq![EffectView::RenderCursor]);
        Ok(())
    }

    pub fn into_effects(self) -> (r: Vec<Effect>)
        ensures
            effect_views(r@) == self.emitted(),
    {
        self.effects
    }
}

/// Parses and runs a script: its effects, or the first lexical or syntax error.
pub fn run_script(source: &str) -> (r: Result<Vec<Effect>, InterpreterError>)
    requires
        source@.len() < usize::MAX,
    ensures
        match r {
            Ok(es) => run_program(source@) == Ok::<Seq<EffectView>, ErrorView>(effect_views(es@)),
            Err(e) => run_program(source@) == Err::<Seq<EffectView>, ErrorView>(e@),
        },
{
    let mut parser = Parser::new_from_str(source);
    match parser.parse() {
        Ok(statements) => {
            let mut interpreter = Interpreter::new();
            let _ = interpreter.interpret_script(&statements);
            let effects = interpreter.into_effects();
            assert(effect_views(effects@) =~= script_effects(stmts_view(statements@)));
            Ok(effects)
        },
        Err(e) => Err(e),
    }
}

} // verus!

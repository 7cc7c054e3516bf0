//! The lexer: script text to tokens, each with the line on which it began.

use vstd::prelude::*;
use vstd::string::*;
use crate::errors::{ErrorView, InterpreterError};
use crate::number::{Number, digits_of, is_digit, number_of};
use crate::text::{alphanumeric, chars_of, is_alphanumeric, string_of};
use crate::token::{Token, TokenView, token_line};

verus! {

pub open spec fn is_blank(c: char) -> bool {
    c == ' ' || c == '\t' || c == '\r'
}

/// A character that may begin an identifier.
pub open spec fn is_alpha_char(c: char) -> bool {
    ('a' <= c && c <= 'z') || ('A' <= c && c <= 'Z') || c == '_'
}

pub open spec fn is_hex_digit(c: char) -> bool {
    is_digit(c) || ('a' <= c && c <= 'f') || ('A' <= c && c <= 'F')
}

/// The kinds of character that the lexer looks ahead for.
#[derive(PartialEq, Eq, Structural, Clone, Copy, Debug)]
pub enum CharClass {
    Digit,
    Dot,
    HexDigit,
    Alphanumeric,
}

pub open spec fn in_class(c: char, class: CharClass) -> bool {
    match class {
        CharClass::Digit => is_digit(c),
        CharClass::Dot => c == '.',
        CharClass::HexDigit => is_hex_digit(c),
        CharClass::Alphanumeric => alphanumeric(c),
    }
}

/// How many characters of `class` follow one another from index `i` on.
pub open spec fn run_len(s: Seq<char>, i: int, class: CharClass) -> nat
    decreases s.len() - i,
{
    if 0 <= i < s.len() && in_class(s[i], class) {
        1 + run_len(s, i + 1, class)
    } else {
        0
    }
}

/// How many of at most `k` hex digits follow one another from index `i` on.
pub open spec fn hex_run(s: Seq<char>, i: int, k: nat) -> nat
    decreases k,
{
    if k > 0 && 0 <= i < s.len() && is_hex_digit(s[i]) {
        1 + hex_run(s, i + 1, (k - 1) as nat)
    } else {
        0
    }
}

/// Where the integer digits of a number that starts at `pos` end, and where the
/// whole literal ends: a dot is taken only when a digit follows it.
pub open spec fn number_bounds(s: Seq<char>, pos: int) -> (int, int) {
    let e = pos + 1 + run_len(s, pos + 1, CharClass::Digit);
    if e + 1 < s.len() && s[e] == '.' && is_digit(s[e + 1]) {
        (e, e + 1 + run_len(s, e + 1, CharClass::Digit))
    } else {
        (e, e)
    }
}

/// Equal letters up to ASCII case, the second being lower case.
pub open spec fn same_letter(c: char, k: char) -> bool {
    c == k || (c as u32) + 32 == (k as u32)
}

pub open spec fn matches_keyword(w: Seq<char>, kw: Seq<char>) -> bool {
    w.len() == kw.len() && forall|i: int| 0 <= i < w.len() ==> same_letter(#[trigger] w[i], kw[i])
}

/// The command an identifier names, whatever the case of its letters.
pub open spec fn keyword_token(w: Seq<char>, line: nat) -> Option<TokenView> {
    if matches_keyword(w, seq!['r', 'e', 'p', 'e', 'a', 't']) {
        Some(TokenView::Repeat(line))
    } else if matches_keyword(w, seq!['c', 'o', 'l', 'o', 'r']) {
        Some(TokenView::SetColor(line))
    } else if matches_keyword(w, seq!['f', 'o', 'r', 'w', 'a', 'r', 'd']) || matches_keyword(
        w,
        seq!['f', 'd'],
    ) {
        Some(TokenView::Forward(line))
    } else if matches_keyword(w, seq!['b', 'a', 'c', 'k']) || matches_keyword(w, seq!['b', 'k']) {
        Some(TokenView::Backward(line))
    } else if matches_keyword(w, seq!['l', 'e', 'f', 't']) || matches_keyword(w, seq!['l', 't']) {
        Some(TokenView::TurnLeft(line))
    } else if matches_keyword(w, seq!['r', 'i', 'g', 'h', 't']) || matches_keyword(
        w,
        seq!['r', 't'],
    ) {
        Some(TokenView::TurnRight(line))
    } else {
        None
    }
}

/// The text an illegal token carries for a word that names no command.
pub open spec fn unknown_word_message(w: Seq<char>) -> Seq<char> {
    "The token is expected to be identifier. Identifier must be a keyword (functions, classes, and variables are not supported). Token `"@
        + w + "` does not match any keyword."@
}

pub open spec fn unexpected_character_message(c: char) -> Seq<char> {
    "Unexpected character: "@ + seq![c]
}

/// One step of the lexer at `pos` on line `line`: the token it yields (none
/// for white space), the lexical error it records, and where it goes on.
pub open spec fn step(s: Seq<char>, pos: int, line: nat) -> (
    Option<TokenView>,
    Option<ErrorView>,
    int,
    nat,
) {
    let c = s[pos];
    if is_blank(c) {
        (None, None, pos + 1, line)
    } else if c == '\n' {
        (None, None, pos + 1, line + 1)
    } else if c == '[' {
        (Some(TokenView::LeftBracket(line)), None, pos + 1, line)
    } else if c == ']' {
        (Some(TokenView::RightBracket(line)), None, pos + 1, line)
    } else if c == '#' {
        let e = pos + 1 + hex_run(s, pos + 1, 6);
        (Some(TokenView::Color(line, s.subrange(pos, e))), None, e, line)
    } else if is_digit(c) {
        let (ie, e) = number_bounds(s, pos);
        let frac = if e > ie { s.subrange(ie + 1, e) } else { Seq::empty() };
        (Some(TokenView::Number(line, number_of(s.subrange(pos, ie), frac))), None, e, line)
    } else if is_alpha_char(c) {
        let e = pos + 1 + run_len(s, pos + 1, CharClass::Alphanumeric);
        let w = s.subrange(pos, e);
        match keyword_token(w, line) {
            Some(t) => (Some(t), None, e, line),
            None => (Some(TokenView::Illegal(line, unknown_word_message(w))), None, e, line),
        }
    } else {
        (
            Some(TokenView::Illegal(line, seq![c])),
            Some(ErrorView::Tokenize { line, message: unexpected_character_message(c) }),
            pos + 1,
            line,
        )
    }
}

pub open spec fn opt_seq<A>(o: Option<A>) -> Seq<A> {
    match o {
        Some(a) => seq![a],
        None => Seq::empty(),
    }
}

/// The tokens and the lexical errors of `s` from index `pos` on, starting on line `line`.
pub open spec fn lex_from(s: Seq<char>, pos: int, line: nat) -> (Seq<TokenView>, Seq<ErrorView>)
    decreases s.len() - pos via lex_from_decreases
{
    if pos < 0 || pos >= s.len() {
        (Seq::empty(), Seq::empty())
    } else {
        let (t, e, p, l) = step(s, pos, line);
        let rest = lex_from(s, p, l);
        (opt_seq(t) + rest.0, opt_seq(e) + rest.1)
    }
}

/// Each step moves on by at least one character.
pub proof fn lemma_step_advances(s: Seq<char>, pos: int, line: nat)
    requires
        0 <= pos < s.len(),
    ensures
        step(s, pos, line).2 > pos,
        step(s, pos, line).2 <= s.len(),
{
    let c = s[pos];
    if is_digit(c) {
        lemma_run_len_bound(s, pos + 1, CharClass::Digit);
        let e = pos + 1 + run_len(s, pos + 1, CharClass::Digit);
        if e + 1 < s.len() {
            lemma_run_len_bound(s, e + 1, CharClass::Digit);
        }
    } else if c == '#' {
        lemma_hex_run_bound(s, pos + 1, 6);
    } else if is_alpha_char(c) {
        lemma_run_len_bound(s, pos + 1, CharClass::Alphanumeric);
    }
}

pub proof fn lemma_run_len_bound(s: Seq<char>, i: int, class: CharClass)
    requires
        0 <= i <= s.len(),
    ensures
        i + run_len(s, i, class) <= s.len(),
    decreases s.len() - i,
{
    if i < s.len() && in_class(s[i], class) {
        lemma_run_len_bound(s, i + 1, class);
    }
}

pub proof fn lemma_hex_run_bound(s: Seq<char>, i: int, k: nat)
    requires
        0 <= i <= s.len(),
    ensures
        i + hex_run(s, i, k) <= s.len(),
        hex_run(s, i, k) <= k,
    decreases k,
{
    if k > 0 && i < s.len() && is_hex_digit(s[i]) {
        lemma_hex_run_bound(s, i + 1, (k - 1) as nat);
    }
}

#[via_fn]
proof fn lex_from_decreases(s: Seq<char>, pos: int, line: nat) {
    if 0 <= pos < s.len() {
        lemma_step_advances(s, pos, line);
    }
}

/// The tokens and the lexical errors of a whole script.
pub open spec fn lex(s: Seq<char>) -> (Seq<TokenView>, Seq<ErrorView>) {
    lex_from(s, 0, 1)
}

proof fn lemma_lex_from_counts(s: Seq<char>, pos: int, line: nat)
    requires
        0 <= pos <= s.len(),
    ensures
        lex_from(s, pos, line).0.len() <= s.len() - pos,
        lex_from(s, pos, line).1.len() <= lex_from(s, pos, line).0.len(),
        forall|i: int|
            0 <= i < lex_from(s, pos, line).0.len() ==> token_line(
                #[trigger] lex_from(s, pos, line).0[i],
            ) >= line,
    decreases s.len() - pos,
{
    if pos < s.len() {
        lemma_step_advances(s, pos, line);
        let st = step(s, pos, line);
        lemma_lex_from_counts(s, st.2, st.3);
        assert(st.1 is Some ==> st.0 is Some);
        assert(st.3 >= line);
        assert(st.0 matches Some(t) ==> token_line(t) == line);
        let rest = lex_from(s, st.2, st.3);
        assert(lex_from(s, pos, line).0 == opt_seq(st.0) + rest.0);
        assert forall|i: int| 0 <= i < lex_from(s, pos, line).0.len() implies token_line(
            #[trigger] lex_from(s, pos, line).0[i],
        ) >= line by {
            if st.0 is Some && i > 0 {
                assert(lex_from(s, pos, line).0[i] == rest.0[i - 1]);
            } else if st.0 is None {
                assert(lex_from(s, pos, line).0[i] == rest.0[i]);
            }
        }
    }
}

/// Lexing is total: it ends on every text, with at most one token per
/// character, no more lexical errors than tokens, and every token on line one
/// or later. (It is a function of the text alone: `tokenize`
/// returns exactly `lex` of it.)
pub proof fn lemma_lex_total(s: Seq<char>)
    ensures
        lex(s).0.len() <= s.len(),
        lex(s).1.len() <= lex(s).0.len(),
        forall|i: int| 0 <= i < lex(s).0.len() ==> token_line(#[trigger] lex(s).0[i]) >= 1,
{
    lemma_lex_from_counts(s, 0, 1);
}

/// White space: what the lexer skips.
pub open spec fn is_space(c: char) -> bool {
    is_blank(c) || c == '\n'
}

/// How many characters from `pos` on are not white space.
pub open spec fn visible_count(s: Seq<char>, pos: int) -> nat
    decreases s.len() - pos,
{
    if pos < 0 || pos >= s.len() {
        0
    } else {
        visible_count(s, pos + 1) + if is_space(s[pos]) {
            0nat
        } else {
            1nat
        }
    }
}

proof fn lemma_visible_monotone(s: Seq<char>, i: int, j: int)
    requires
        0 <= i <= j,
    ensures
        visible_count(s, j) <= visible_count(s, i),
    decreases j - i,
{
    if i < j {
        lemma_visible_monotone(s, i + 1, j);
    }
}

proof fn lemma_lex_from_visible(s: Seq<char>, pos: int, line: nat)
    requires
        0 <= pos <= s.len(),
    ensures
        lex_from(s, pos, line).0.len() <= visible_count(s, pos),
        lex_from(s, pos, line).0.len() == 0 <==> visible_count(s, pos) == 0,
    decreases s.len() - pos,
{
    if pos < s.len() {
        lemma_step_advances(s, pos, line);
        let st = step(s, pos, line);
        lemma_lex_from_visible(s, st.2, st.3);
        lemma_visible_monotone(s, pos + 1, st.2);
        assert(is_space(s[pos]) <==> st.0 is None);
        assert(is_space(s[pos]) ==> st.2 == pos + 1);
    }
}

/// Every token takes at least one character that is not white space, and the
/// lexer yields no token exactly when nothing but white space is left.
pub proof fn lemma_tokens_need_visible_characters(s: Seq<char>)
    ensures
        lex(s).0.len() <= visible_count(s, 0),
        lex(s).0.len() == 0 <==> visible_count(s, 0) == 0,
{
    lemma_lex_from_visible(s, 0, 1);
}

/// The two words differ at most in the case of ASCII letters.
pub open spec fn same_up_to_case(a: Seq<char>, b: Seq<char>) -> bool {
    &&& a.len() == b.len()
    &&& forall|i: int|
        0 <= i < a.len() ==> {
            let (x, y) = (#[trigger] a[i], b[i]);
            ||| x == y
            ||| 'A' <= x && x <= 'Z' && (x as u32) + 32 == (y as u32)
            ||| 'A' <= y && y <= 'Z' && (y as u32) + 32 == (x as u32)
        }
}

proof fn lemma_matches_keyword_case(a: Seq<char>, b: Seq<char>, kw: Seq<char>)
    requires
        same_up_to_case(a, b),
        forall|i: int| 0 <= i < kw.len() ==> 'a' <= #[trigger] kw[i] && kw[i] <= 'z',
    ensures
        matches_keyword(a, kw) == matches_keyword(b, kw),
{
    if a.len() == kw.len() {
        assert forall|i: int| 0 <= i < a.len() implies same_letter(#[trigger] a[i], kw[i])
            == same_letter(b[i], kw[i]) by {
            let (x, y, k) = (a[i], b[i], kw[i]);
            assert('a' <= k && k <= 'z');
            assert(x == y || 'A' <= x && x <= 'Z' && (x as u32) + 32 == (y as u32) || 'A' <= y && y
                <= 'Z' && (y as u32) + 32 == (x as u32));
            vstd::utf8::char_u32_cast(x, x as u32);
            vstd::utf8::char_u32_cast(y, y as u32);
            vstd::utf8::char_u32_cast(k, k as u32);
        }
        if matches_keyword(a, kw) {
            assert forall|i: int| 0 <= i < b.len() implies same_letter(#[trigger] b[i], kw[i]) by {
                assert(same_letter(a[i], kw[i]));
            }
        }
        if matches_keyword(b, kw) {
            assert forall|i: int| 0 <= i < a.len() implies same_letter(#[trigger] a[i], kw[i]) by {
                assert(same_letter(b[i], kw[i]));
            }
        }
    }
}

/// Commands are named whatever the case of their letters: two words that
/// differ only in ASCII case give the same token.
pub proof fn lemma_keywords_ignore_case(a: Seq<char>, b: Seq<char>, line: nat)
    requires
        same_up_to_case(a, b),
    ensures
        keyword_token(a, line) == keyword_token(b, line),
{
    lemma_matches_keyword_case(a, b, seq!['r', 'e', 'p', 'e', 'a', 't']);
    lemma_matches_keyword_case(a, b, seq!['c', 'o', 'l', 'o', 'r']);
    lemma_matches_keyword_case(a, b, seq!['f', 'o', 'r', 'w', 'a', 'r', 'd']);
    lemma_matches_keyword_case(a, b, seq!['f', 'd']);
    lemma_matches_keyword_case(a, b, seq!['b', 'a', 'c', 'k']);
    lemma_matches_keyword_case(a, b, seq!['b', 'k']);
    lemma_matches_keyword_case(a, b, seq!['l', 'e', 'f', 't']);
    lemma_matches_keyword_case(a, b, seq!['l', 't']);
    lemma_matches_keyword_case(a, b, seq!['r', 'i', 'g', 'h', 't']);
    lemma_matches_keyword_case(a, b, seq!['r', 't']);
}

pub open spec fn token_views(ts: Seq<Token>) -> Seq<TokenView> {
    ts.map_values(|t: Token| t@)
}

pub open spec fn error_views(es: Seq<InterpreterError>) -> Seq<ErrorView> {
    es.map_values(|e: InterpreterError| e@)
}

/// A lexer over one script text: a cursor, the current line and the lexical
/// errors met so far.
pub struct Tokenizer {
    source: Vec<char>,
    current: usize,
    line: usize,
    errors: Vec<InterpreterError>,
}

impl Tokenizer {
    pub closed spec fn text(&self) -> Seq<char> {
        self.source@
    }

    pub closed spec fn wf(&self) -> bool {
        &&& self.current <= self.source@.len()
        &&& self.source@.len() < usize::MAX
        &&& 1 <= self.line <= self.current + 1
    }

    /// What is left to lex: its tokens and its lexical errors.
    pub closed spec fn remaining(&self) -> (Seq<TokenView>, Seq<ErrorView>) {
        lex_from(self.source@, self.current as int, self.line as nat)
    }

    /// The lexical errors recorded so far.
    pub closed spec fn recorded(&self) -> Seq<ErrorView> {
        error_views(self.errors@)
    }

    pub fn new(source: &str) -> (r: Tokenizer)
        requires
            source@.len() < usize::MAX,
        ensures
            r.wf(),
            r.text() == source@,
            r.remaining() == lex(source@),
            r.recorded().len() == 0,
    {
        Tokenizer { source: chars_of(source), current: 0, line: 1, errors: Vec::new() }
    }

    fn peek_satisfies(&self, class: CharClass) -> (r: bool)
        requires
            self.wf(),
        ensures
            r == (self.current < self.source@.len() && in_class(
                self.source@[self.current as int],
                class,
            )),
    {
        self.current < self.source.len() && char_in_class(self.source[self.current], class)
    }

    fn peek_of_peek_satisfies(&self, class: CharClass) -> (r: bool)
        requires
            self.wf(),
        ensures
            r == (self.current + 1 < self.source@.len() && in_class(
                self.source@[self.current + 1],
                class,
            )),
    {
        self.current + 1 < self.source.len() && char_in_class(self.source[self.current + 1], class)
    }

    fn advance(&mut self) -> (r: Option<char>)
        requires
            old(self).wf(),
        ensures
            final(self).wf(),
            final(self).source == old(self).source,
            final(self).line == old(self).line,
            final(self).errors == old(self).errors,
            old(self).current < old(self).source@.len() ==> r == Some(
                old(self).source@[old(self).current as int],
            ) && final(self).current == old(self).current + 1,
            old(self).current >= old(self).source@.len() ==> r is None && final(self).current
                == old(self).current,
    {
        if self.current < self.source.len() {
            let c = self.source[self.current];
            self.current = self.current + 1;
            Some(c)
        } else {
            None
        }
    }

    pub closed spec fn line_number(&self) -> nat {
        self.line as nat
    }

    pub closed spec fn position(&self) -> int {
        self.current as int
    }

    /// The next token, skipping white space; `None` once the text is used up.
    pub fn next(&mut self) -> (r: Option<Token>)
        requires
            old(self).wf(),
        ensures
            final(self).wf(),
            final(self).text() == old(self).text(),
            match r {
                Some(t) => old(self).remaining().0 == seq![t@] + final(self).remaining().0
                    && final(self).position() > old(self).position(),
                None => old(self).remaining().0.len() == 0 && final(self).remaining().0.len() == 0
                    && final(self).remaining().1.len() == 0,
            },
            final(self).recorded() + final(self).remaining().1 == old(self).recorded() + old(self).remaining().1,
            final(self).position() <= final(self).text().len(),
    {
        while self.current < self.source.len() && (self.source[self.current] == ' '
            || self.source[self.current] == '\t' || self.source[self.current] == '\r'
            || self.source[self.current] == '\n')
            invariant
                self.wf(),
                self.source == old(self).source,
                self.errors == old(self).errors,
                self.remaining() == old(self).remaining(),
                self.current >= old(self).current,
            decreases self.source@.len() - self.current,
        {
            if self.source[self.current] == '\n' {
                self.line = self.line + 1;
            }
            self.current = self.current + 1;
        }
        let ghost pos = self.current as int;
        let ghost line = self.line as nat;
        let ghost s = self.source@;
        let character = match self.advance() {
            Some(c) => c,
            None => {
                return None;
            },
        };
        proof {
            lemma_step_advances(s, pos, line);
        }
        let token = if character == '[' {
            assert(error_views(self.errors@) =~= error_views(old(self).errors@) + opt_seq(
                step(s, pos, line).1,
            ));
            Token::LeftBracketToken(self.line)
        } else if character == ']' {
            assert(error_views(self.errors@) =~= error_views(old(self).errors@) + opt_seq(
                step(s, pos, line).1,
            ));
            Token::RightBracketToken(self.line)
        } else if character == '#' {
            let t = self.consume_color(character);
            proof {
                assert(seq!['#'] + s.subrange(pos + 1, self.current as int) =~= s.subrange(
                    pos,
                    self.current as int,
                ));
                assert(error_views(self.errors@) =~= error_views(old(self).errors@) + opt_seq(
                    step(s, pos, line).1,
                ));
            }
            t
        } else if '0' <= character && character <= '9' {
            self.consume_number(character)
        } else if is_alpha(&character) {
            self.consume_identifier(character)
        } else {
            let mut one: Vec<char> = Vec::new();
            one.push(character);
            assert(one@ =~= seq![character]);
            let text = string_of(&one);
            let mut message = String::from_str("Unexpected character: ");
            message.append(text.as_str());
            let ghost before = self.errors@;
            let err = InterpreterError::Tokenize { line: self.line, message };
            assert(err@ == step(s, pos, line).1.unwrap());
            self.errors.push(err);
            proof {
                assert(self.errors@ == before.push(err));
                assert(error_views(self.errors@) =~= error_views(old(self).errors@) + opt_seq(
                    step(s, pos, line).1,
                ));
            }
            Token::IllegalToken(self.line, text)
        };
        proof {
            let st = step(s, pos, line);
            assert(self.current == st.2 && self.line == st.3);
            assert(st.0 == Some(token@));
            assert(self.recorded() == old(self).recorded() + opt_seq(st.1));
            assert(old(self).remaining() == lex_from(s, pos, line));
            assert(lex_from(s, pos, line) == (
                opt_seq(st.0) + lex_from(s, st.2, st.3).0,
                opt_seq(st.1) + lex_from(s, st.2, st.3).1,
            ));
            assert(opt_seq(st.0) =~= seq![token@]);
            assert(self.recorded() + self.remaining().1 =~= old(self).recorded() + (opt_seq(st.1)
                + self.remaining().1));
        }
        Some(token)
    }

    /// Consumes the hex digits at the cursor, at most six of them (fewer, even
    /// none, are accepted), and returns the colour token that `first_character`
    /// and they form.
    pub fn consume_color(&mut self, first_character: char) -> (r: Token)
        requires
            old(self).wf(),
        ensures
            ({
                let s = old(self).text();
                let p = old(self).position();
                let k = hex_run(s, p, 6);
                &&& final(self).wf()
                &&& final(self).text() == s
                &&& final(self).line_number() == old(self).line_number()
                &&& final(self).position() == p + k
                &&& r@ == TokenView::Color(
                    old(self).line_number(),
                    seq![first_character] + s.subrange(p, p + k),
                )
                &&& final(self).recorded() == old(self).recorded()
            }),
    {
        let ghost s = self.source@;
        let ghost p0: int = self.current as int;
        let ghost e0: int = self.current + hex_run(s, self.current as int, 6);
        let mut parts: Vec<char> = vec![first_character];
        let mut i: usize = 0;
        proof {
            assert(parts@ =~= seq![first_character] + s.subrange(p0, self.current as int));
        }
        while i < 6 && self.peek_satisfies(CharClass::HexDigit)
            invariant
                self.wf(),
                self.source@ == s,
                self.source == old(self).source,
                self.line == old(self).line,
                self.errors == old(self).errors,
                self.current >= old(self).current,
                p0 == old(self).current,
                i <= 6,
                e0 == old(self).current + hex_run(s, old(self).current as int, 6),
                self.current + hex_run(s, self.current as int, (6 - i) as nat) == e0,
                parts@ == seq![first_character] + s.subrange(p0, self.current as int),
            decreases 6 - i,
        {
            let c = self.advance();
            parts.push(c.unwrap());
            i = i + 1;
            proof {
                assert(parts@ =~= seq![first_character] + s.subrange(p0, self.current as int));
            }
        }
        proof {
            lemma_hex_run_bound(s, old(self).current as int, 6);
        }
        Token::ColorToken(self.line, string_of(&parts))
    }

    fn consume_number(&mut self, first_character: char) -> (r: Token)
        requires
            old(self).wf(),
            1 <= old(self).current,
            old(self).source@[old(self).current - 1] == first_character,
            is_digit(first_character),
        ensures
            ({
                let st = step(old(self).source@, old(self).current - 1, old(self).line as nat);
                &&& final(self).wf()
                &&& final(self).source == old(self).source
                &&& final(self).line == old(self).line
                &&& final(self).current == st.2
                &&& st.0 == Some(r@)
                &&& final(self).recorded() == old(self).recorded() + opt_seq(st.1)
            }),
    {
        let ghost s = self.source@;
        let ghost start: int = self.current - 1;
        let ghost bounds = number_bounds(s, start);
        let mut digits: Vec<char> = vec![first_character];
        proof {
            assert(digits@ =~= s.subrange(start, self.current as int));
            lemma_run_len_bound(s, self.current as int, CharClass::Digit);
        }
        while self.peek_satisfies(CharClass::Digit)
            invariant
                self.wf(),
                self.source@ == s,
                self.source == old(self).source,
                self.line == old(self).line,
                self.errors == old(self).errors,
                self.current >= old(self).current,
                start == old(self).current - 1,
                start >= 0,
                self.current + run_len(s, self.current as int, CharClass::Digit) == bounds.0,
                bounds == number_bounds(s, start),
                digits@ == s.subrange(start, self.current as int),
                forall|j: int| 0 <= j < digits@.len() ==> is_digit(#[trigger] digits@[j]),
            decreases s.len() - self.current,
        {
            let c = self.advance().unwrap();
            digits.push(c);
            proof {
                assert(digits@ =~= s.subrange(start, self.current as int));
            }
        }
        let ghost int_end = self.current as int;
        let mut scale: usize = 0;
        if self.peek_satisfies(CharClass::Dot) && self.peek_of_peek_satisfies(CharClass::Digit) {
            let dot = self.advance().unwrap();
            proof {
                assert(digits@ =~= s.subrange(start, int_end) + s.subrange(int_end + 1, self.current as int));
                lemma_run_len_bound(s, self.current as int, CharClass::Digit);
            }
            while self.peek_satisfies(CharClass::Digit)
                invariant
                    self.wf(),
                    self.source@ == s,
                    self.source == old(self).source,
                    self.line == old(self).line,
                    self.errors == old(self).errors,
                    int_end + 1 <= self.current,
                    start == old(self).current - 1,
                start >= 0,
                    start < int_end,
                    self.current + run_len(s, self.current as int, CharClass::Digit) == bounds.1,
                    bounds == number_bounds(s, start),
                    int_end == bounds.0,
                    digits@ == s.subrange(start, int_end) + s.subrange(int_end + 1, self.current as int),
                    scale == self.current - int_end - 1,
                    forall|j: int| 0 <= j < digits@.len() ==> is_digit(#[trigger] digits@[j]),
                decreases s.len() - self.current,
            {
                let c = self.advance().unwrap();
                digits.push(c);
                scale = scale + 1;
                proof {
                    assert(digits@ =~= s.subrange(start, int_end) + s.subrange(int_end + 1, self.current as int));
                }
            }
        } else {
            proof {
                assert(digits@ =~= s.subrange(start, int_end) + Seq::<char>::empty());
            }
        }
        proof {
            let st = step(s, start, old(self).line as nat);
            assert(self.current == st.2);
        }
        let token = Token::NumberToken(self.line, Number { digits: digits_of(&digits), scale });
        proof {
            let st = step(s, start, old(self).line as nat);
            assert(st.0 == Some(token@));
            assert(self.recorded() =~= old(self).recorded() + opt_seq(st.1));
        }
        token
    }

    fn consume_identifier(&mut self, first_character: char) -> (r: Token)
        requires
            old(self).wf(),
            1 <= old(self).current,
            old(self).source@[old(self).current - 1] == first_character,
            is_alpha_char(first_character),
        ensures
            ({
                let st = step(old(self).source@, old(self).current - 1, old(self).line as nat);
                &&& final(self).wf()
                &&& final(self).source == old(self).source
                &&& final(self).line == old(self).line
                &&& final(self).current == st.2
                &&& st.0 == Some(r@)
                &&& final(self).recorded() == old(self).recorded() + opt_seq(st.1)
            }),
    {
        let ghost s = self.source@;
        let ghost start: int = self.current - 1;
        let ghost e0: int = self.current + run_len(s, self.current as int, CharClass::Alphanumeric);
        let mut word: Vec<char> = vec![first_character];
        proof {
            assert(word@ =~= s.subrange(start, self.current as int));
        }
        while self.peek_satisfies(CharClass::Alphanumeric)
            invariant
                self.wf(),
                self.source@ == s,
                self.source == old(self).source,
                self.line == old(self).line,
                self.errors == old(self).errors,
                self.current >= old(self).current,
                start == old(self).current - 1,
                start >= 0,
                self.current + run_len(s, self.current as int, CharClass::Alphanumeric) == e0,
                e0 == old(self).current + run_len(s, old(self).current as int, CharClass::Alphanumeric),
                word@ == s.subrange(start, self.current as int),
            decreases s.len() - self.current,
        {
            let c = self.advance().unwrap();
            word.push(c);
            proof {
                assert(word@ =~= s.subrange(start, self.current as int));
            }
        }
        let token = match keyword_lookup(&word, self.line) {
            Some(t) => t,
            None => {
                let text = string_of(&word);
                let mut message = String::from_str(
                    "The token is expected to be identifier. Identifier must be a keyword (functions, classes, and variables are not supported). Token `",
                );
                message.append(text.as_str());
                message.append("` does not match any keyword.");
                Token::IllegalToken(self.line, message)
            },
        };
        proof {
            lemma_run_len_bound(s, old(self).current as int, CharClass::Alphanumeric);
            let st = step(s, start, old(self).line as nat);
            assert(self.current == st.2);
            assert(st.0 == Some(token@));
            assert(self.recorded() =~= old(self).recorded() + opt_seq(st.1));
        }
        token
    }

    /// All the tokens that are left, in order.
    pub fn read_tokens(&mut self) -> (r: Vec<Token>)
        requires
            old(self).wf(),
        ensures
            final(self).wf(),
            token_views(r@) == old(self).remaining().0,
            final(self).remaining().0.len() == 0,
            final(self).recorded() == old(self).recorded() + old(self).remaining().1,
    {
        let mut out: Vec<Token> = Vec::new();
        loop
            invariant
                self.wf(),
                self.text() == old(self).text(),
                token_views(out@) + self.remaining().0 == old(self).remaining().0,
                self.recorded() + self.remaining().1 == old(self).recorded() + old(self).remaining().1,
            decreases self.text().len() - self.position(),
        {
            match self.next() {
                Some(t) => {
                    let ghost before = out@;
                    out.push(t);
                    proof {
                        assert(token_views(out@) =~= token_views(before) + seq![t@]);
                    }
                },
                None => {
                    proof {
                        assert(self.remaining().1 =~= Seq::<ErrorView>::empty());
                        assert(self.recorded() + self.remaining().1 =~= self.recorded());
                        assert(token_views(out@) + self.remaining().0 =~= token_views(out@));
                    }
                    return out;
                },
            }
        }
    }
}

fn char_in_class(c: char, class: CharClass) -> (r: bool)
    ensures
        r == in_class(c, class),
{
    match class {
        CharClass::Digit => '0' <= c && c <= '9',
        CharClass::Dot => c == '.',
        CharClass::HexDigit => ('0' <= c && c <= '9') || ('a' <= c && c <= 'f') || ('A' <= c && c
            <= 'F'),
        CharClass::Alphanumeric => is_alphanumeric(c),
    }
}

/// The tokens of a whole script, or the first lexical error in it.
pub fn tokenize(source: &str) -> (r: Result<Vec<Token>, InterpreterError>)
    requires
        source@.len() < usize::MAX,
    ensures
        match r {
            Ok(ts) => lex(source@).1.len() == 0 && token_views(ts@) == lex(source@).0,
            Err(e) => lex(source@).1.len() > 0 && e@ == lex(source@).1[0],
        },
{
    let mut tokenizer = Tokenizer::new(source);
    let tokens = tokenizer.read_tokens();
    proof {
        assert(tokenizer.recorded() =~= lex(source@).1);
    }
    if tokenizer.errors.len() > 0 {
        let mut errors = tokenizer.errors;
        let first = errors.remove(0);
        proof {
            assert(first@ == error_views(tokenizer.errors@)[0]);
        }
        Err(first)
    } else {
        Ok(tokens)
    }
}

fn matches_word(w: &Vec<char>, kw: &[char]) -> (r: bool)
    ensures
        r == matches_keyword(w@, kw@),
{
    if w.len() != kw.len() {
        return false;
    }
    let mut i: usize = 0;
    while i < w.len()
        invariant
            i <= w@.len() == kw@.len(),
            forall|j: int| 0 <= j < i ==> same_letter(#[trigger] w@[j], kw@[j]),
        decreases w@.len() - i,
    {
        let c = w[i];
        let k = kw[i];
        if !(c == k || ((k as u32) >= 32 && (c as u32) == (k as u32) - 32)) {
            return false;
        }
        i = i + 1;
    }
    true
}

/// The command token that a word names, whatever the case of its letters.
fn keyword_lookup(word: &Vec<char>, line: usize) -> (r: Option<Token>)
    ensures
        match r {
            Some(t) => keyword_token(word@, line as nat) == Some(t@),
            None => keyword_token(word@, line as nat) is None,
        },
{
    let repeat_kw = ['r', 'e', 'p', 'e', 'a', 't'];
    let color_kw = ['c', 'o', 'l', 'o', 'r'];
    let forward_kw = ['f', 'o', 'r', 'w', 'a', 'r', 'd'];
    let fd_kw = ['f', 'd'];
    let back_kw = ['b', 'a', 'c', 'k'];
    let bk_kw = ['b', 'k'];
    let left_kw = ['l', 'e', 'f', 't'];
    let lt_kw = ['l', 't'];
    let right_kw = ['r', 'i', 'g', 'h', 't'];
    let rt_kw = ['r', 't'];
    assert(repeat_kw@ =~= seq!['r', 'e', 'p', 'e', 'a', 't']);
    assert(color_kw@ =~= seq!['c', 'o', 'l', 'o', 'r']);
    assert(forward_kw@ =~= seq!['f', 'o', 'r', 'w', 'a', 'r', 'd']);
    assert(fd_kw@ =~= seq!['f', 'd']);
    assert(back_kw@ =~= seq!['b', 'a', 'c', 'k']);
    assert(bk_kw@ =~= seq!['b', 'k']);
    assert(left_kw@ =~= seq!['l', 'e', 'f', 't']);
    assert(lt_kw@ =~= seq!['l', 't']);
    assert(right_kw@ =~= seq!['r', 'i', 'g', 'h', 't']);
    assert(rt_kw@ =~= seq!['r', 't']);
    if matches_word(word, &repeat_kw) {
        Some(Token::RepeatLoopToken(line))
    } else if matches_word(word, &color_kw) {
        Some(Token::SetColorCommandToken(line))
    } else if matches_word(word, &forward_kw) || matches_word(word, &fd_kw) {
        Some(Token::ForwardCommandToken(line))
    } else if matches_word(word, &back_kw) || matches_word(word, &bk_kw) {
        Some(Token::BackwardCommandToken(line))
    } else if matches_word(word, &left_kw) || matches_word(word, &lt_kw) {
        Some(Token::TurnLeftCommandToken(line))
    } else if matches_word(word, &right_kw) || matches_word(word, &rt_kw) {
        Some(Token::TurnRightCommandToken(line))
    } else {
        None
    }
}

/// Whether `c` may begin an identifier: an ASCII letter or `_`.
pub fn is_alpha(c: &char) -> (r: bool)
    ensures
        r == is_alpha_char(*c),
{
    ('a' <= *c && *c <= 'z') || ('A' <= *c && *c <= 'Z') || *c == '_'
}

} // verus!

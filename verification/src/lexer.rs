//! The formula lexer: a stateful, single-pass scanner over formula text that
//! produces tokens strictly left to right while tracking parenthesis depth.
//!
//! Scanning rules, longest match first: a run of decimal digits becomes a
//! `Number` token; whitespace is skipped; `+ - * /` and parentheses are
//! single-character tokens; a run of ASCII letters becomes an `Identifier`.
//! A closing parenthesis while the running depth is zero fails with an
//! unbalanced-parenthesis error. Any other character ends the token sequence
//! silently, exactly like end of input. Unclosed parentheses at end of input
//! are not an error.

use crate::scan;
use vstd::prelude::*;
use vstd::string::StrSliceExecFns;

verus! {

/// One lexical unit of a formula.
#[derive(Debug, Clone, PartialEq, Eq)]
pub enum ExpressionToken {
    /// An unsigned run of decimal digits, read as an integer.
    Number(i64),
    Plus,
    Minus,
    Multiply,
    Divide,
    LeftParenthesis,
    RightParenthesis,
    /// A run of ASCII letters, intended to denote a cell reference.
    Identifier(String),
}

/// The mathematical value of a token: the number as an unbounded integer, the
/// identifier as a character sequence.
pub enum SpecToken {
    Number(int),
    Plus,
    Minus,
    Multiply,
    Divide,
    LeftParenthesis,
    RightParenthesis,
    Identifier(Seq<char>),
}

impl View for ExpressionToken {
    type V = SpecToken;

    open spec fn view(&self) -> SpecToken {
        match self {
            ExpressionToken::Number(n) => SpecToken::Number(*n as int),
            ExpressionToken::Plus => SpecToken::Plus,
            ExpressionToken::Minus => SpecToken::Minus,
            ExpressionToken::Multiply => SpecToken::Multiply,
            ExpressionToken::Divide => SpecToken::Divide,
            ExpressionToken::LeftParenthesis => SpecToken::LeftParenthesis,
            ExpressionToken::RightParenthesis => SpecToken::RightParenthesis,
            ExpressionToken::Identifier(s) => SpecToken::Identifier(s@),
        }
    }
}

impl DeepView for ExpressionToken {
    type V = SpecToken;

    open spec fn deep_view(&self) -> SpecToken {
        self.view()
    }
}

/// A lexing failure, carrying the character offset within the formula text of
/// the character that caused it.
#[derive(Debug, Clone, Copy, PartialEq, Eq)]
pub enum LexError {
    /// A closing parenthesis was scanned while the running depth was zero.
    UnbalancedParenthesis { offset: usize },
    /// A digit run too large for a `Number` token.
    NumberTooLarge { offset: usize },
}

/// A lexing failure with the offset as an unbounded integer.
pub enum SpecLexError {
    UnbalancedParenthesis { offset: int },
    NumberTooLarge { offset: int },
}

impl View for LexError {
    type V = SpecLexError;

    open spec fn view(&self) -> SpecLexError {
        match self {
            LexError::UnbalancedParenthesis { offset } => SpecLexError::UnbalancedParenthesis {
                offset: *offset as int,
            },
            LexError::NumberTooLarge { offset } => SpecLexError::NumberTooLarge {
                offset: *offset as int,
            },
        }
    }
}

impl DeepView for LexError {
    type V = SpecLexError;

    open spec fn deep_view(&self) -> SpecLexError {
        self.view()
    }
}

/// What one scanning step does at position `i` with parenthesis depth `d`:
/// emit a token and move on, end the sequence, or fail.
pub enum LexStep {
    Emit { token: SpecToken, next: int, depth: int },
    End,
    Fail { error: SpecLexError },
}

/// One scanning step of the lexer over `s` at position `i` with parenthesis
/// depth `d`, skipping whitespace first.
pub open spec fn spec_step(s: Seq<char>, i: int, d: int) -> LexStep
    decreases s.len() - i,
{
    if !(0 <= i < s.len()) {
        LexStep::End
    } else {
        let c = s[i];
        if scan::is_space(c) {
            spec_step(s, i + 1, d)
        } else if scan::is_digit(c) {
            let e = scan::digit_run_end(s, i);
            let v = scan::digits_val(s, i, e);
            if v > i64::MAX {
                LexStep::Fail { error: SpecLexError::NumberTooLarge { offset: i } }
            } else {
                LexStep::Emit { token: SpecToken::Number(v), next: e, depth: d }
            }
        } else if c == '+' {
            LexStep::Emit { token: SpecToken::Plus, next: i + 1, depth: d }
        } else if c == '-' {
            LexStep::Emit { token: SpecToken::Minus, next: i + 1, depth: d }
        } else if c == '*' {
            LexStep::Emit { token: SpecToken::Multiply, next: i + 1, depth: d }
        } else if c == '/' {
            LexStep::Emit { token: SpecToken::Divide, next: i + 1, depth: d }
        } else if c == '(' {
            LexStep::Emit { token: SpecToken::LeftParenthesis, next: i + 1, depth: d + 1 }
        } else if c == ')' {
            if d <= 0 {
                LexStep::Fail { error: SpecLexError::UnbalancedParenthesis { offset: i } }
            } else {
                LexStep::Emit { token: SpecToken::RightParenthesis, next: i + 1, depth: d - 1 }
            }
        } else if scan::is_alpha(c) {
            let e = scan::alpha_run_end(s, i);
            LexStep::Emit { token: SpecToken::Identifier(s.subrange(i, e)), next: e, depth: d }
        } else {
            LexStep::End
        }
    }
}

/// A step that emits a token always advances, and never past the end.
pub proof fn lemma_step_bounds(s: Seq<char>, i: int, d: int)
    requires
        0 <= i,
    ensures
        (match spec_step(s, i, d) {
            LexStep::Emit { token, next, depth } => i < next <= s.len() && depth >= d - 1,
            LexStep::End => true,
            LexStep::Fail { error } => true,
        }),
    decreases s.len() - i,
{
    if 0 <= i < s.len() {
        let c = s[i];
        if scan::is_space(c) {
            lemma_step_bounds(s, i + 1, d);
        } else if scan::is_digit(c) {
            scan::lemma_digit_run_end(s, i + 1);
        } else if scan::is_alpha(c) {
            scan::lemma_alpha_run_end(s, i + 1);
        }
    }
}

/// A step ignores leading whitespace: it is the same step from the end of
/// the whitespace run.
pub proof fn lemma_step_skips_space(s: Seq<char>, i: int, d: int)
    requires
        0 <= i <= s.len(),
    ensures
        spec_step(s, i, d) == spec_step(s, scan::space_run_end(s, i), d),
    decreases s.len() - i,
{
    if i < s.len() && scan::is_space(s[i]) {
        lemma_step_skips_space(s, i + 1, d);
    }
}

/// The full token sequence from position `i` with depth `d`: all tokens that
/// the steps emit until the sequence ends, or the first failure.
pub open spec fn spec_lex(s: Seq<char>, i: int, d: int) -> Result<Seq<SpecToken>, SpecLexError>
    decreases s.len() - i,
{
    match spec_step(s, i, d) {
        LexStep::End => Ok(Seq::empty()),
        LexStep::Fail { error } => Err(error),
        LexStep::Emit { token, next, depth } => {
            proof {
                lemma_step_bounds(s, i, d);
            }
            match spec_lex(s, next, depth) {
                Ok(ts) => Ok(seq![token] + ts),
                Err(e) => Err(e),
            }
        },
    }
}

/// The formula lexer. It borrows nothing: it owns the formula text (the cell
/// text after the `=` marker) and scans it exactly once.
pub struct Lexer {
    input: String,
    position: usize,
    depth: usize,
}

impl Lexer {
    /// The text being scanned.
    pub closed spec fn text(self) -> Seq<char> {
        self.input@
    }

    /// The cursor: the index of the next character to look at.
    pub closed spec fn pos(self) -> int {
        self.position as int
    }

    /// The running parenthesis depth: opened and not yet closed parentheses
    /// to the left of the cursor.
    pub closed spec fn paren_depth(self) -> int {
        self.depth as int
    }

    pub closed spec fn wf(self) -> bool {
        self.position <= self.input@.len() && self.depth <= self.position
    }

    pub fn new(input: String) -> (lexer: Lexer)
        ensures
            lexer.wf(),
            lexer.text() == input@,
            lexer.pos() == 0,
            lexer.paren_depth() == 0,
    {
        Lexer { input, position: 0, depth: 0 }
    }

    /// Scans the next token: `None` at the end of the sequence (end of input
    /// or an unrecognized character), `Some(Ok(..))` for a token,
    /// `Some(Err(..))` for the first failure.
    #[verifier::loop_isolation(false)]
    pub fn next_token(&mut self) -> (r: Option<Result<ExpressionToken, LexError>>)
        requires
            old(self).wf(),
        ensures
            final(self).wf(),
            final(self).text() == old(self).text(),
            (match r {
                None => spec_step(old(self).text(), old(self).pos(), old(self).paren_depth())
                    is End,
                Some(step) => match step {
                    Ok(t) => spec_step(old(self).text(), old(self).pos(), old(self).paren_depth())
                        == (LexStep::Emit {
                        token: t@,
                        next: final(self).pos(),
                        depth: final(self).paren_depth(),
                    }),
                    Err(e) => spec_step(
                        old(self).text(),
                        old(self).pos(),
                        old(self).paren_depth(),
                    ) == (LexStep::Fail { error: e@ }),
                },
            }),
            r is Some ==> final(self).pos() >= old(self).pos(),
    {
        let ghost s0 = self.input@;
        let ghost p0 = self.position as int;
        let ghost d0 = self.depth as int;
        let n = self.input.as_str().unicode_len();
        let skipped = scan::scan_space_run(self.input.as_str(), self.position, n);
        proof {
            lemma_step_skips_space(s0, p0, d0);
            scan::lemma_space_run_end(s0, p0);
        }
        self.position = skipped;
        if self.position >= n {
            return None;
        }
        let i = self.position;
        let c = self.input.as_str().get_char(i);
        if scan::check_digit(c) {
            let e = scan::scan_digit_run(self.input.as_str(), i, n);
            proof {
                scan::lemma_digit_run_end(s0, i as int);
            }
            let mut j = i;
            let mut val: i64 = 0;
            let mut too_large: bool = false;
            while j < e
                invariant
                    i <= j <= e,
                    !too_large ==> val == scan::digits_val(s0, i as int, j as int),
                    !too_large ==> 0 <= val,
                    too_large ==> scan::digits_val(s0, i as int, e as int) > i64::MAX,
                decreases e - j,
            {
                let c2 = self.input.as_str().get_char(j);
                let dv = digit_value(c2);
                if !too_large {
                    match val.checked_mul(10) {
                        Some(v10) => match v10.checked_add(dv) {
                            Some(v) => {
                                val = v;
                            },
                            None => {
                                proof {
                                    assert(scan::digits_val(s0, i as int, j + 1) == val * 10
                                        + scan::digit_val(s0[j as int]));
                                    scan::lemma_digits_val_monotone(s0, i as int, j + 1, e as int);
                                }
                                too_large = true;
                            },
                        },
                        None => {
                            proof {
                                assert(scan::digits_val(s0, i as int, j + 1) == val * 10
                                    + scan::digit_val(s0[j as int]));
                                scan::lemma_digits_val_monotone(s0, i as int, j + 1, e as int);
                            }
                            too_large = true;
                        },
                    }
                }
                j = j + 1;
            }
            if too_large {
                return Some(Err(LexError::NumberTooLarge { offset: i }));
            }
            self.position = e;
            return Some(Ok(ExpressionToken::Number(val)));
        } else if c == '+' {
            self.position = i + 1;
            return Some(Ok(ExpressionToken::Plus));
        } else if c == '-' {
            self.position = i + 1;
            return Some(Ok(ExpressionToken::Minus));
        } else if c == '*' {
            self.position = i + 1;
            return Some(Ok(ExpressionToken::Multiply));
        } else if c == '/' {
            self.position = i + 1;
            return Some(Ok(ExpressionToken::Divide));
        } else if c == '(' {
            self.depth = self.depth + 1;
            self.position = i + 1;
            return Some(Ok(ExpressionToken::LeftParenthesis));
        } else if c == ')' {
            if self.depth == 0 {
                return Some(Err(LexError::UnbalancedParenthesis { offset: i }));
            }
            self.depth = self.depth - 1;
            self.position = i + 1;
            return Some(Ok(ExpressionToken::RightParenthesis));
        } else if scan::check_alpha(c) {
            let e = scan::scan_alpha_run(self.input.as_str(), i, n);
            proof {
                scan::lemma_alpha_run_end(s0, i as int);
            }
            let text = self.input.as_str().substring_char(i, e).to_owned();
            self.position = e;
            return Some(Ok(ExpressionToken::Identifier(text)));
        } else {
            return None;
        }
    }

    /// Scans the whole remaining text: the full token sequence on success,
    /// the first failure otherwise. The lexer is consumed: the sequence is
    /// not restartable.
    #[verifier::loop_isolation(false)]
    pub fn lex_all(self) -> (r: Result<Vec<ExpressionToken>, LexError>)
        requires
            self.wf(),
        ensures
            (match r {
                Ok(v) => spec_lex(self.text(), self.pos(), self.paren_depth()) == Ok::<
                    Seq<SpecToken>,
                    SpecLexError,
                >(v.deep_view()),
                Err(e) => spec_lex(self.text(), self.pos(), self.paren_depth()) == Err::<
                    Seq<SpecToken>,
                    SpecLexError,
                >(e@),
            }),
    {
        let ghost s0 = self.text();
        let ghost i0 = self.pos();
        let ghost d0 = self.paren_depth();
        let mut lexer = self;
        let mut tokens: Vec<ExpressionToken> = Vec::new();
        proof {
            assert(tokens.deep_view() =~= Seq::<SpecToken>::empty());
        }
        loop
            invariant
                lexer.wf(),
                lexer.text() == s0,
                i0 <= lexer.pos(),
                0 <= lexer.pos() <= s0.len(),
                spec_lex(s0, i0, d0) == (match spec_lex(s0, lexer.pos(), lexer.paren_depth()) {
                    Ok(ts) => Ok::<Seq<SpecToken>, SpecLexError>(tokens.deep_view() + ts),
                    Err(e) => Err::<Seq<SpecToken>, SpecLexError>(e),
                }),
            decreases s0.len() - lexer.pos(),
        {
            let ghost ip = lexer.pos();
            let ghost dp = lexer.paren_depth();
            let step = lexer.next_token();
            match step {
                None => {
                    proof {
                        assert(spec_lex(s0, ip, dp) == Ok::<Seq<SpecToken>, SpecLexError>(
                            Seq::empty(),
                        ));
                        assert(tokens.deep_view() + Seq::<SpecToken>::empty()
                            =~= tokens.deep_view());
                    }
                    return Ok(tokens);
                },
                Some(res) => match res {
                    Ok(t) => {
                        let ghost prev = tokens.deep_view();
                        let ghost tv = t@;
                        tokens.push(t);
                        proof {
                            lemma_step_bounds(s0, ip, dp);
                            assert(tokens.deep_view() =~= prev.push(tv));
                            let inner = spec_lex(s0, lexer.pos(), lexer.paren_depth());
                            if inner is Ok {
                                let ts = inner->Ok_0;
                                assert(prev + (seq![tv] + ts) =~= tokens.deep_view() + ts);
                            }
                        }
                    },
                    Err(e) => {
                        proof {
                            assert(spec_lex(s0, ip, dp) == Err::<Seq<SpecToken>, SpecLexError>(
                                e@,
                            ));
                        }
                        return Err(e);
                    },
                },
            }
        }
    }
}

/// The numeric value of one digit character.
fn digit_value(c: char) -> (v: i64)
    requires
        scan::is_digit(c),
    ensures
        v == scan::digit_val(c),
        0 <= v <= 9,
{
    (c as u32) as i64 - 48
}

} // verus!

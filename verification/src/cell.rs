//! The cell classifier: one delimited field's trimmed text becomes exactly
//! one typed cell, and never fails for plain text or numeric input.

use crate::lexer::spec_lex;
use crate::lexer::ExpressionToken;
use crate::lexer::LexError;
use crate::lexer::Lexer;
use crate::lexer::SpecLexError;
use crate::lexer::SpecToken;
use crate::number;
use vstd::prelude::*;
use vstd::string::StrSliceExecFns;

verus! {

/// A typed cell value.
///
/// Policy for formula cells: the lexer runs to completion before the cell is
/// classified, and its outcome — the full token sequence or the first lexing
/// error — is stored inside the `Formula` cell. Classification itself fails
/// only for an input-level problem: a formula marker with nothing after it.
#[derive(Debug, PartialEq)]
pub enum Cell {
    /// The field's text when it is neither numeric nor formula-marked.
    Text(String),
    /// The field's text when the whole of it is a floating-point literal,
    /// kept verbatim.
    Number(String),
    /// The lexer's outcome for a field that begins with the formula marker.
    Formula(Result<Vec<ExpressionToken>, LexError>),
}

/// The mathematical value of a cell, over character sequences.
pub enum SpecCell {
    Text(Seq<char>),
    Number(Seq<char>),
    Formula(Result<Seq<SpecToken>, SpecLexError>),
}

impl View for Cell {
    type V = SpecCell;

    open spec fn view(&self) -> SpecCell {
        match self {
            Cell::Text(s) => SpecCell::Text(s@),
            Cell::Number(s) => SpecCell::Number(s@),
            Cell::Formula(outcome) => SpecCell::Formula(
                match outcome {
                    Ok(tokens) => Ok(tokens.deep_view()),
                    Err(e) => Err(e@),
                },
            ),
        }
    }
}

impl DeepView for Cell {
    type V = SpecCell;

    open spec fn deep_view(&self) -> SpecCell {
        self.view()
    }
}

/// A classification failure.
#[derive(Debug, Clone, Copy, PartialEq, Eq)]
pub enum CellError {
    /// The field begins with the formula marker but nothing follows it.
    EmptyExpression,
}

/// What classifying the trimmed field text `s` yields: a numeric literal
/// becomes `Number`, text after the formula marker is lexed into `Formula`,
/// anything else is `Text`; the marker alone is the one failure.
pub open spec fn spec_classify(s: Seq<char>) -> Result<SpecCell, CellError> {
    if number::is_float_literal(s) {
        Ok(SpecCell::Number(s))
    } else if s.len() > 0 && s[0] == '=' {
        if s.len() == 1 {
            Err(CellError::EmptyExpression)
        } else {
            Ok(SpecCell::Formula(spec_lex(s.subrange(1, s.len() as int), 0, 0)))
        }
    } else {
        Ok(SpecCell::Text(s))
    }
}

impl Cell {
    /// Classifies one trimmed field.
    pub fn from_str(s: &str) -> (r: Result<Cell, CellError>)
        ensures
            (match r {
                Ok(cell) => spec_classify(s@) == Ok::<SpecCell, CellError>(cell@),
                Err(e) => spec_classify(s@) == Err::<SpecCell, CellError>(e),
            }),
    {
        if number::is_float_text(s) {
            return Ok(Cell::Number(s.to_owned()));
        }
        let n = s.unicode_len();
        if n > 0 && s.get_char(0) == '=' {
            if n == 1 {
                return Err(CellError::EmptyExpression);
            }
            let rest = s.substring_char(1, n).to_owned();
            let lexer = Lexer::new(rest);
            let outcome = lexer.lex_all();
            Ok(Cell::Formula(outcome))
        } else {
            Ok(Cell::Text(s.to_owned()))
        }
    }
}

/// Law: a `Number` cell holds the classified text itself, and classifying
/// that text again yields the same `Number` cell.
pub proof fn lemma_number_round_trip(s: Seq<char>)
    ensures
        (match spec_classify(s) {
            Ok(cell) => match cell {
                SpecCell::Number(t) => t == s && spec_classify(t) == Ok::<SpecCell, CellError>(
                    SpecCell::Number(t),
                ),
                _ => true,
            },
            Err(e) => true,
        }),
{
}

} // verus!

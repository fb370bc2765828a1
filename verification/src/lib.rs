//! A two-stage ingestion pipeline for a grid-based data sheet: a grid parser
//! that turns a delimited text blob into an addressable table of typed cells,
//! and a formula lexer that turns the text of a cell beginning with `=` into a
//! sequence of tokens.

pub mod cell;
pub mod lexer;
pub mod number;
pub mod sheet;
pub mod scan;

pub use cell::Cell;
pub use cell::CellError;
pub use lexer::ExpressionToken;
pub use lexer::LexError;
pub use lexer::Lexer;
pub use sheet::Pos;
pub use sheet::Sheet;
pub use sheet::SheetError;

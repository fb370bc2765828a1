//! The grid builder: the whole input split into rows on line breaks and into
//! fields on `;`, each field trimmed and classified, the cells assembled into
//! an addressable table with derived dimensions.
//!
//! Policy for rows: rows are separated by `\n`, and one final line terminator
//! does not create an extra row; a `\r` before a line break is whitespace and
//! is removed by field trimming. One field that fails to classify fails the
//! whole build; a build that yields no cells at all fails rather than
//! reporting zero-by-zero dimensions.

use crate::cell::spec_classify;
use crate::cell::Cell;
use crate::cell::SpecCell;
use crate::scan;
use vstd::prelude::*;
use vstd::string::StrSliceExecFns;

verus! {

/// A zero-based (column, row) coordinate identifying one cell in the grid.
#[derive(Debug, Clone, Copy, PartialEq, Eq, Hash, Structural)]
pub struct Pos(pub usize, pub usize);

/// A grid-build failure.
#[derive(Debug, Clone, Copy, PartialEq, Eq)]
pub enum SheetError {
    /// The field at this position failed to classify: it begins with the
    /// formula marker and has nothing after it.
    EmptyExpression { column: usize, row: usize },
    /// The input produced no cells at all, so no dimensions can be derived.
    EmptyInput,
}

/// The input with one final line terminator removed.
pub open spec fn chomp(s: Seq<char>) -> Seq<char> {
    if s.len() > 0 && s[s.len() - 1] == '\n' {
        s.drop_last()
    } else {
        s
    }
}

/// The rows of the input: an empty input makes no rows, any other input is
/// split on `\n` after dropping one final line terminator.
pub open spec fn spec_lines(s: Seq<char>) -> Seq<Seq<char>> {
    if s.len() == 0 {
        Seq::empty()
    } else {
        scan::split_at_seps(chomp(s), '\n')
    }
}

/// The trimmed fields of one row: the row split on `;`, each segment trimmed.
pub open spec fn spec_fields(line: Seq<char>) -> Seq<Seq<char>> {
    scan::split_at_seps(line, ';').map_values(|f: Seq<char>| scan::spec_trim(f))
}

/// The trimmed fields of every row of the input.
pub open spec fn spec_grid(s: Seq<char>) -> Seq<Seq<Seq<char>>> {
    spec_lines(s).map_values(|l: Seq<char>| spec_fields(l))
}

/// Every field of the grid classifies successfully.
pub open spec fn all_fields_classify(g: Seq<Seq<Seq<char>>>) -> bool {
    forall|r: int, c: int|
        0 <= r < g.len() && 0 <= c < g[r].len() ==> (#[trigger] spec_classify(g[r][c])) is Ok
}

/// The cells of one row of fields.
pub open spec fn classified_row(fields: Seq<Seq<char>>) -> Seq<SpecCell> {
    fields.map_values(|f: Seq<char>| spec_classify(f)->Ok_0)
}

/// The cells of the whole grid.
pub open spec fn classified(g: Seq<Seq<Seq<char>>>) -> Seq<Seq<SpecCell>> {
    g.map_values(|fields: Seq<Seq<char>>| classified_row(fields))
}

/// The length of the longest row, zero when there are none.
pub open spec fn max_seq_len<A>(rows: Seq<Seq<A>>) -> nat
    decreases rows.len(),
{
    if rows.len() == 0 {
        0
    } else {
        let m = max_seq_len(rows.drop_last());
        if rows.last().len() > m {
            rows.last().len()
        } else {
            m
        }
    }
}

/// The longest row length bounds every row, and some row reaches it.
pub proof fn lemma_max_seq_len<A>(rows: Seq<Seq<A>>)
    ensures
        forall|r: int| 0 <= r < rows.len() ==> (#[trigger] rows[r].len()) <= max_seq_len(rows),
        rows.len() > 0 ==> exists|r: int|
            0 <= r < rows.len() && (#[trigger] rows[r].len()) == max_seq_len(rows),
    decreases rows.len(),
{
    if rows.len() > 0 {
        let prefix = rows.drop_last();
        lemma_max_seq_len(prefix);
        let m = max_seq_len(prefix);
        assert forall|r: int| 0 <= r < rows.len() implies (#[trigger] rows[r].len())
            <= max_seq_len(rows) by {
            if r < rows.len() - 1 {
                assert(prefix[r] == rows[r]);
                assert(prefix[r].len() <= m);
            } else {
                assert(rows[r] == rows.last());
            }
        }
        if rows.last().len() > m {
            assert(rows[rows.len() - 1].len() == max_seq_len(rows));
        } else if prefix.len() > 0 {
            let r0 = choose|r: int| 0 <= r < prefix.len() && (#[trigger] prefix[r].len()) == m;
            assert(rows[r0] == prefix[r0]);
            assert(rows[r0].len() == max_seq_len(rows));
        } else {
            assert(rows[0] == rows.last());
            assert(rows[0].len() == max_seq_len(rows));
        }
    }
}

/// Row-major order: the position `(c1, r1)` comes before `(c2, r2)`.
pub open spec fn row_major_before(r1: int, c1: int, r2: int, c2: int) -> bool {
    r1 < r2 || (r1 == r2 && c1 < c2)
}

/// The grid: a table of cells with its derived dimensions. Built once from a
/// complete input string and immutable afterwards.
#[derive(Debug, PartialEq)]
pub struct Sheet {
    /// The cells, row by row: the cell at `Pos(c, r)` is `table[r][c]`.
    pub table: Vec<Vec<Cell>>,
    /// One more than the greatest column index present.
    pub width: usize,
    /// One more than the greatest row index present.
    pub height: usize,
}

impl View for Sheet {
    type V = Seq<Seq<SpecCell>>;

    open spec fn view(&self) -> Seq<Seq<SpecCell>> {
        self.table.deep_view()
    }
}

impl Sheet {
    /// The dimensions are derived from the cells present: the height is the
    /// number of rows, every row has at least one cell and at most `width`
    /// of them, and some row has exactly `width`.
    pub open spec fn wf(self) -> bool {
        &&& self@.len() == self.height
        &&& self@.len() >= 1
        &&& forall|r: int| 0 <= r < self@.len() ==> 1 <= (#[trigger] self@[r].len()) <= self.width
        &&& exists|r: int| 0 <= r < self@.len() && (#[trigger] self@[r].len()) == self.width
    }

    /// What building a grid from `s` yields: the distinct empty-input error
    /// for an input with no rows; the classified cells with their dimensions
    /// when every field classifies; else the position of the first field (in
    /// row-major order) that fails.
    pub open spec fn build_post(s: Seq<char>, result: Result<Sheet, SheetError>) -> bool {
        let g = spec_grid(s);
        if g.len() == 0 {
            result == Err::<Sheet, SheetError>(SheetError::EmptyInput)
        } else if all_fields_classify(g) {
            match result {
                Ok(sheet) => {
                    &&& sheet.wf()
                    &&& sheet@ == classified(g)
                    &&& sheet.height == g.len()
                    &&& sheet.width == max_seq_len(g)
                },
                Err(_) => false,
            }
        } else {
            match result {
                Ok(_) => false,
                Err(e) => match e {
                    SheetError::EmptyExpression { column, row } => {
                        &&& row < g.len()
                        &&& column < g[row as int].len()
                        &&& !(spec_classify(g[row as int][column as int]) is Ok)
                        &&& forall|r: int, c: int|
                            0 <= r < g.len() && 0 <= c < g[r].len() && row_major_before(
                                r,
                                c,
                                row as int,
                                column as int,
                            ) ==> (#[trigger] spec_classify(g[r][c])) is Ok
                    },
                    SheetError::EmptyInput => false,
                },
            }
        }
    }

    /// Builds the grid from the complete input text.
    #[verifier::loop_isolation(false)]
    pub fn from_str(s: &str) -> (result: Result<Sheet, SheetError>)
        ensures
            Self::build_post(s@, result),
    {
        let ghost g = spec_grid(s@);
        let n = s.unicode_len();
        if n == 0 {
            return Err(SheetError::EmptyInput);
        }
        let last = s.get_char(n - 1);
        let body: &str = if last == '\n' {
            s.substring_char(0, n - 1)
        } else {
            s
        };
        proof {
            assert(s@.subrange(0, n - 1) =~= s@.drop_last());
            assert(body@ == chomp(s@));
        }
        let lines = scan::split_on(body, '\n');
        proof {
            assert(g.len() == lines@.len());
        }
        let mut table: Vec<Vec<Cell>> = Vec::new();
        let mut width: usize = 0;
        let mut row: usize = 0;
        proof {
            assert(table.deep_view() =~= classified(g).take(0));
            assert(g.take(0) =~= Seq::<Seq<Seq<char>>>::empty());
        }
        while row < lines.len()
            invariant
                row <= lines.len(),
                table.deep_view() == classified(g).take(row as int),
                width == max_seq_len(g.take(row as int)),
                forall|r: int, c: int|
                    0 <= r < row && 0 <= c < g[r].len() ==> (#[trigger] spec_classify(
                        g[r][c],
                    )) is Ok,
            decreases lines.len() - row,
        {
            let line: &String = &lines[row];
            let fields = scan::split_on(line.as_str(), ';');
            proof {
                assert(g[row as int] == spec_fields(line@));
                assert(g[row as int].len() == fields@.len());
            }
            let mut cells: Vec<Cell> = Vec::new();
            let mut col: usize = 0;
            proof {
                assert(cells.deep_view() =~= classified_row(g[row as int]).take(0));
            }
            while col < fields.len()
                invariant
                    col <= fields.len(),
                    cells.deep_view() == classified_row(g[row as int]).take(col as int),
                    forall|c: int|
                        0 <= c < col ==> (#[trigger] spec_classify(g[row as int][c])) is Ok,
                decreases fields.len() - col,
            {
                let trimmed = scan::trim_text(fields[col].as_str());
                proof {
                    assert(trimmed@ == g[row as int][col as int]);
                }
                match Cell::from_str(trimmed.as_str()) {
                    Ok(cell) => {
                        let ghost prev = cells.deep_view();
                        cells.push(cell);
                        proof {
                            assert(cells.deep_view() =~= prev.push(cell@));
                            assert(cells.deep_view() =~= classified_row(g[row as int]).take(
                                col + 1,
                            ));
                        }
                    },
                    Err(_) => {
                        proof {
                            assert(!(spec_classify(g[row as int][col as int]) is Ok));
                            assert(!all_fields_classify(g));
                            assert forall|r: int, c: int|
                                0 <= r < g.len() && 0 <= c < g[r].len() && row_major_before(
                                    r,
                                    c,
                                    row as int,
                                    col as int,
                                ) implies (#[trigger] spec_classify(g[r][c])) is Ok by {
                                if r < row {
                                } else {
                                    assert(r == row && c < col);
                                }
                            }
                        }
                        return Err(SheetError::EmptyExpression { column: col, row });
                    },
                }
                col = col + 1;
            }
            if cells.len() > width {
                width = cells.len();
            }
            let ghost prev_table = table.deep_view();
            let ghost prev_width = max_seq_len(g.take(row as int));
            table.push(cells);
            proof {
                assert(cells.deep_view() =~= classified_row(g[row as int]));
                assert(table.deep_view() =~= prev_table.push(cells.deep_view()));
                assert(table.deep_view() =~= classified(g).take(row + 1));
                let taken = g.take(row + 1);
                assert(taken.drop_last() =~= g.take(row as int));
                assert(taken.last() == g[row as int]);
                lemma_max_seq_len(g.take(row as int));
                assert(width == max_seq_len(g.take(row + 1)));
            }
            row = row + 1;
        }
        let sheet = Sheet { table, width, height: row };
        proof {
            assert(g.take(row as int) =~= g);
            assert(classified(g).take(row as int) =~= classified(g));
            assert(sheet@ == classified(g));
            assert(sheet.height == g.len());
            assert(sheet.width == max_seq_len(g));
            assert(all_fields_classify(g));
            scan::lemma_split_at_seps_len(chomp(s@), '\n');
            lemma_max_seq_len(g);
            assert forall|r: int| 0 <= r < sheet@.len() implies 1 <= (#[trigger] sheet@[r].len())
                <= sheet.width by {
                assert(sheet@[r] == classified(g)[r]);
                assert(g[r] == spec_fields(spec_lines(s@)[r]));
                scan::lemma_split_at_seps_len(spec_lines(s@)[r], ';');
                assert(g[r].len() <= max_seq_len(g));
            }
            let r0 = choose|r: int|
                0 <= r < g.len() && (#[trigger] g[r].len()) == max_seq_len(g);
            assert(sheet@[r0] == classified(g)[r0]);
            assert(sheet@[r0].len() == sheet.width);
        }
        Ok(sheet)
    }

    /// Looks a cell up by its position: present exactly when the row exists
    /// and is long enough.
    pub fn get(&self, pos: &Pos) -> (cell: Option<&Cell>)
        ensures
            (pos.1 < self@.len() && pos.0 < self@[pos.1 as int].len()) ==> (match cell {
                Some(c) => c@ == self@[pos.1 as int][pos.0 as int],
                None => false,
            }),
            !(pos.1 < self@.len() && pos.0 < self@[pos.1 as int].len()) ==> cell is None,
    {
        if pos.1 < self.table.len() {
            let cells: &Vec<Cell> = &self.table[pos.1];
            if pos.0 < cells.len() {
                Some(&cells[pos.0])
            } else {
                None
            }
        } else {
            None
        }
    }
}

/// Law: building twice from the same input yields the same outcome: the same
/// cells and dimensions, or the same error.
pub proof fn lemma_build_deterministic(
    s: Seq<char>,
    first: Result<Sheet, SheetError>,
    second: Result<Sheet, SheetError>,
)
    requires
        Sheet::build_post(s, first),
        Sheet::build_post(s, second),
    ensures
        (match (first, second) {
            (Ok(a), Ok(b)) => a@ == b@ && a.width == b.width && a.height == b.height,
            (Err(a), Err(b)) => a == b,
            _ => false,
        }),
{
    let g = spec_grid(s);
    if g.len() != 0 && !all_fields_classify(g) {
        match (first, second) {
            (
                Err(SheetError::EmptyExpression { column: c1, row: r1 }),
                Err(SheetError::EmptyExpression { column: c2, row: r2 }),
            ) => {
                if row_major_before(r1 as int, c1 as int, r2 as int, c2 as int) {
                    assert(spec_classify(g[r1 as int][c1 as int]) is Ok);
                } else if row_major_before(r2 as int, c2 as int, r1 as int, c1 as int) {
                    assert(spec_classify(g[r2 as int][c2 as int]) is Ok);
                } else {
                    assert(r1 == r2 && c1 == c2);
                }
            },
            _ => {},
        }
    }
}

/// Law: one line of `n - 1` separators alone is `n` empty fields: the grid
/// built from it has one row and `n` columns.
pub proof fn lemma_one_row_of_empty_fields(s: Seq<char>, result: Result<Sheet, SheetError>)
    requires
        s.len() >= 1,
        forall|i: int| 0 <= i < s.len() ==> s[i] == ';',
        Sheet::build_post(s, result),
    ensures
        result matches Ok(sheet) && sheet.height == 1 && sheet.width == s.len() + 1,
{
    let g = spec_grid(s);
    scan::lemma_find_from(s, 0, '\n');
    assert(chomp(s) == s);
    assert(scan::find_from(s, 0, '\n') == s.len());
    assert(spec_lines(s) =~= seq![s]);
    lemma_split_all_seps(s, ';');
    assert(g.len() == 1);
    assert(g[0] == spec_fields(s));
    assert(g[0].len() == s.len() + 1);
    assert forall|c: int| 0 <= c < g[0].len() implies (#[trigger] spec_classify(
        g[0][c],
    )) is Ok by {
        lemma_empty_field_classifies(g[0][c]);
    }
    assert(all_fields_classify(g));
    assert(g.drop_last() =~= Seq::<Seq<Seq<char>>>::empty());
    assert(max_seq_len(g) == s.len() + 1);
}

/// Law: `n` line terminators alone are `n` rows of one empty field each: the
/// grid built from them has `n` rows and one column.
pub proof fn lemma_one_column_of_empty_fields(s: Seq<char>, result: Result<Sheet, SheetError>)
    requires
        s.len() >= 1,
        forall|i: int| 0 <= i < s.len() ==> s[i] == '\n',
        Sheet::build_post(s, result),
    ensures
        result matches Ok(sheet) && sheet.height == s.len() && sheet.width == 1,
{
    let g = spec_grid(s);
    let body = chomp(s);
    assert(body == s.drop_last());
    lemma_split_all_seps(body, '\n');
    assert(g.len() == s.len());
    assert forall|r: int, c: int| 0 <= r < g.len() && 0 <= c < g[r].len() implies (
    #[trigger] spec_classify(g[r][c])) is Ok by {
        lemma_fields_of_empty_line(spec_lines(s)[r]);
        lemma_empty_field_classifies(g[r][c]);
    }
    assert forall|r: int| 0 <= r < g.len() implies (#[trigger] g[r].len()) == 1 by {
        lemma_fields_of_empty_line(spec_lines(s)[r]);
    }
    lemma_max_seq_len(g);
    assert(max_seq_len(g) == 1);
}

/// In a string made of separators only, every one of the `n + 1` segments is
/// empty.
proof fn lemma_split_all_seps(s: Seq<char>, sep: char)
    requires
        forall|i: int| 0 <= i < s.len() ==> s[i] == sep,
    ensures
        scan::split_at_seps(s, sep).len() == s.len() + 1,
        forall|k: int|
            0 <= k <= s.len() ==> (#[trigger] scan::split_at_seps(s, sep)[k]).len() == 0,
    decreases s.len(),
{
    scan::lemma_find_from(s, 0, sep);
    if s.len() > 0 {
        let rest = s.subrange(1, s.len() as int);
        lemma_split_all_seps(rest, sep);
        assert(scan::find_from(s, 0, sep) == 0);
        assert(scan::split_at_seps(s, sep) == seq![s.subrange(0, 0)] + scan::split_at_seps(
            rest,
            sep,
        ));
    }
}

/// A line with no separator in it makes exactly one field of itself.
proof fn lemma_fields_of_empty_line(line: Seq<char>)
    requires
        line.len() == 0,
    ensures
        spec_fields(line).len() == 1,
        spec_fields(line)[0].len() == 0,
{
    assert(scan::find_from(line, 0, ';') == 0);
    assert(scan::split_at_seps(line, ';') =~= seq![line]);
    assert(scan::spec_trim(line) =~= line);
}

/// The empty field classifies as empty text.
proof fn lemma_empty_field_classifies(f: Seq<char>)
    requires
        f.len() == 0,
    ensures
        spec_classify(f) == Ok::<SpecCell, crate::cell::CellError>(SpecCell::Text(f)),
{
    assert(!crate::number::is_float_literal(f));
}

} // verus!

use rex_cell::Cell;
use rex_cell::Pos;
use rex_cell::Sheet;
use rex_cell::SheetError;

#[test]
fn input_with_6_width() {
    let input = ";;;;;".to_owned();
    let sheet: Sheet = Sheet::from_str(&input).expect("Not possible to parse!");

    assert_eq!(sheet.width, 6)
}

#[test]
fn input_with_6_height() {
    let input = ";\n;\n;\n;\n;\n;".to_owned();
    let sheet: Sheet = Sheet::from_str(&input).expect("Not possible to parse!");

    assert_eq!(sheet.height, 6)
}

#[test]
fn five_delimiters_one_line_is_six_by_one() {
    let sheet = Sheet::from_str(";;;;;").unwrap();
    assert_eq!(sheet.width, 6);
    assert_eq!(sheet.height, 1);
}

#[test]
fn newline_only_input_is_one_wide() {
    let sheet = Sheet::from_str("\n\n\n").unwrap();
    assert_eq!(sheet.height, 3);
    assert_eq!(sheet.width, 1);
}

#[test]
fn one_delimiter_per_line_makes_two_columns() {
    let sheet = Sheet::from_str(";\n;\n;\n;\n;\n;").unwrap();
    assert_eq!(sheet.height, 6);
    assert_eq!(sheet.width, 2);
}

#[test]
fn empty_input_fails_distinctly() {
    assert_eq!(Sheet::from_str(""), Err(SheetError::EmptyInput));
}

#[test]
fn fields_are_trimmed_before_classification() {
    let sheet = Sheet::from_str(" 10 ; x \t").unwrap();
    assert_eq!(sheet.width, 2);
    assert_eq!(sheet.height, 1);
    assert_eq!(
        sheet.get(&Pos(0, 0)),
        Some(&Cell::Number("10".to_string()))
    );
    assert_eq!(sheet.get(&Pos(1, 0)), Some(&Cell::Text("x".to_string())));
}

#[test]
fn lookup_outside_the_grid_is_none() {
    let sheet = Sheet::from_str("a;b\nc").unwrap();
    assert_eq!(sheet.width, 2);
    assert_eq!(sheet.height, 2);
    assert_eq!(sheet.get(&Pos(1, 0)), Some(&Cell::Text("b".to_string())));
    assert_eq!(sheet.get(&Pos(1, 1)), None);
    assert_eq!(sheet.get(&Pos(0, 2)), None);
}

#[test]
fn empty_formula_field_fails_the_whole_build() {
    let outcome = Sheet::from_str("a;b\nc;=;d");
    assert_eq!(
        outcome,
        Err(SheetError::EmptyExpression { column: 1, row: 1 })
    );
}

#[test]
fn reparsing_yields_an_identical_grid() {
    let input = "1; two\n=3*(x+4);\n nan ;=";
    let first = Sheet::from_str(input);
    let second = Sheet::from_str(input);
    assert_eq!(first, second);

    let input = "1; two\n=3*(x+4);y";
    let first = Sheet::from_str(input).unwrap();
    let second = Sheet::from_str(input).unwrap();
    assert_eq!(first.table, second.table);
    assert_eq!(first.width, second.width);
    assert_eq!(first.height, second.height);
}

#[test]
fn carriage_returns_are_trimmed_from_fields() {
    let sheet = Sheet::from_str("a\r\nb\n").unwrap();
    assert_eq!(sheet.height, 2);
    assert_eq!(sheet.width, 1);
    assert_eq!(sheet.get(&Pos(0, 0)), Some(&Cell::Text("a".to_string())));
    assert_eq!(sheet.get(&Pos(0, 1)), Some(&Cell::Text("b".to_string())));
}

#[test]
fn a_final_newline_adds_no_row() {
    let sheet = Sheet::from_str("a;b\n").unwrap();
    assert_eq!(sheet.height, 1);
    assert_eq!(sheet.width, 2);
}

#[test]
fn shorter_rows_stay_short() {
    let sheet = Sheet::from_str("a;b;c\nd").unwrap();
    assert_eq!(sheet.width, 3);
    assert_eq!(sheet.height, 2);
    assert_eq!(sheet.get(&Pos(2, 0)), Some(&Cell::Text("c".to_string())));
    assert_eq!(sheet.get(&Pos(1, 1)), None);
}

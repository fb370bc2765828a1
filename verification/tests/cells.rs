use rex_cell::Cell;
use rex_cell::CellError;
use rex_cell::ExpressionToken;
use rex_cell::LexError;

#[test]
fn cell_number_from_str() {
    let cell: Cell = Cell::from_str("10").expect("Not possible to convert to a cell.");

    match cell {
        Cell::Text(_) => panic!("Not a text"),
        Cell::Number(x) => assert_eq!(x.parse::<f64>().unwrap(), 10.0),
        Cell::Formula(_) => panic!("Not a Expression"),
    }
}

#[test]
fn cell_text_from_str() {
    let cell: Cell = Cell::from_str("Suarez").expect("Not possible to convert to a cell.");

    match cell {
        Cell::Text(s) => assert_eq!("Suarez", s),
        Cell::Number(_) => panic!("Not a text"),
        Cell::Formula(_) => panic!("Not a Expression"),
    }
}

#[test]
fn number_cell_text_round_trips() {
    let first = Cell::from_str("2.5e3").unwrap();
    let text = match first {
        Cell::Number(ref t) => t.clone(),
        _ => panic!("expected a number cell"),
    };
    let again = Cell::from_str(&text).unwrap();
    assert_eq!(first, again);
}

#[test]
fn numeric_spellings_classify_as_numbers() {
    for s in ["10", "-1.5", "+3.", ".5", "2e10", "1E-3", "inf", "Infinity", "NaN", "5.e2"] {
        match Cell::from_str(s).unwrap() {
            Cell::Number(t) => assert_eq!(t, s),
            other => panic!("{s:?} classified as {other:?}"),
        }
    }
}

#[test]
fn non_numeric_spellings_classify_as_text() {
    for s in ["", ".", "1.2.3", "e3", "+e3", "5e", "10 ", "abc", "infx", "1,5"] {
        match Cell::from_str(s).unwrap() {
            Cell::Text(t) => assert_eq!(t, s),
            other => panic!("{s:?} classified as {other:?}"),
        }
    }
}

#[test]
fn formula_cell_collects_all_tokens() {
    let cell = Cell::from_str("=1+a").unwrap();
    assert_eq!(
        cell,
        Cell::Formula(Ok(vec![
            ExpressionToken::Number(1),
            ExpressionToken::Plus,
            ExpressionToken::Identifier("a".to_string()),
        ]))
    );
}

#[test]
fn formula_error_is_captured_in_the_cell() {
    let cell = Cell::from_str("=)").unwrap();
    assert_eq!(
        cell,
        Cell::Formula(Err(LexError::UnbalancedParenthesis { offset: 0 }))
    );
}

#[test]
fn bare_formula_marker_fails_classification() {
    assert_eq!(Cell::from_str("="), Err(CellError::EmptyExpression));
}

#[test]
fn oversized_formula_number_is_an_error() {
    let cell = Cell::from_str("=99999999999999999999").unwrap();
    assert_eq!(
        cell,
        Cell::Formula(Err(LexError::NumberTooLarge { offset: 0 }))
    );
}

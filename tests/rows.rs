use sheet_import::cell_id::CellId;
use sheet_import::import::{import, row_values, Cell, Data, ImportError, Number};

fn text(s: &str) -> Cell {
    Cell::Text { text: String::from(s), shown: format!("String({:?})", s) }
}

fn float(x: f64) -> Cell {
    Cell::Float { bits: x.to_bits(), shown: format!("Float({:?})", x) }
}

fn header() -> Vec<Cell> {
    vec![text("nick"), text("a"), text("b")]
}

#[test]
fn import_happy_path() {
    let rows = vec![
        header(),
        vec![text("alice"), Cell::Int(1), Cell::Int(2)],
        vec![text("bob"), Cell::Empty, Cell::Int(3)],
    ];
    let recs = import(2, &rows).unwrap();
    assert_eq!(
        recs,
        vec![
            Data { nick: String::from("alice"), data: vec![Some(Number::Int(1)), Some(Number::Int(2))] },
            Data { nick: String::from("bob"), data: vec![None, Some(Number::Int(3))] },
        ]
    );
}

#[test]
fn import_floats() {
    let rows = vec![header(), vec![text("carol"), float(1.5), Cell::Int(-4)]];
    let recs = import(2, &rows).unwrap();
    assert_eq!(recs.len(), 1);
    assert_eq!(recs[0].data, vec![Some(Number::Float(1.5f64.to_bits())), Some(Number::Int(-4))]);
}

#[test]
fn blank_trailer_tolerated() {
    let rows = vec![
        header(),
        vec![text("alice"), Cell::Int(1), Cell::Int(2)],
        vec![Cell::Empty, Cell::Empty, Cell::Empty],
    ];
    let recs = import(2, &rows).unwrap();
    assert_eq!(recs.len(), 1);
    assert_eq!(recs[0].nick, "alice");
}

#[test]
fn blank_rows_after_blank_rows() {
    let rows = vec![
        header(),
        vec![text("alice"), Cell::Int(1), Cell::Int(2)],
        vec![Cell::Empty, Cell::Empty, Cell::Empty],
        vec![],
        vec![Cell::Empty, text("ignored"), Cell::Int(9)],
    ];
    assert_eq!(import(2, &rows).unwrap().len(), 1);
}

#[test]
fn trailing_data_rejected() {
    let rows = vec![
        header(),
        vec![text("alice"), Cell::Int(1), Cell::Int(2)],
        vec![Cell::Empty, Cell::Empty, Cell::Empty],
        vec![text("bob"), Cell::Int(3), Cell::Int(4)],
    ];
    assert_eq!(import(2, &rows), Err(ImportError::TrailingData { pos: CellId(0, 4) }));
}

#[test]
fn trailing_number_rejected() {
    let rows = vec![header(), vec![Cell::Empty], vec![Cell::Int(7)]];
    assert_eq!(import(2, &rows), Err(ImportError::TrailingData { pos: CellId(0, 3) }));
}

#[test]
fn invalid_nickname_type() {
    let rows = vec![header(), vec![Cell::Int(5), Cell::Int(1), Cell::Int(2)]];
    assert_eq!(
        import(2, &rows),
        Err(ImportError::InvalidData {
            pos: CellId(0, 2),
            name: "nickname",
            expected: "string",
            found: String::from("Int(5)"),
        })
    );
}

#[test]
fn invalid_nickname_other() {
    let rows = vec![header(), vec![text("alice"), Cell::Int(1), Cell::Int(2)], vec![Cell::Other(String::from("Bool(true)"))]];
    assert_eq!(
        import(2, &rows),
        Err(ImportError::InvalidData {
            pos: CellId(0, 3),
            name: "nickname",
            expected: "string",
            found: String::from("Bool(true)"),
        })
    );
}

#[test]
fn invalid_value_type() {
    let rows = vec![
        header(),
        vec![text("alice"), Cell::Int(1), Cell::Int(2)],
        vec![text("bob"), Cell::Int(1), text("x")],
    ];
    assert_eq!(
        import(2, &rows),
        Err(ImportError::InvalidData {
            pos: CellId(2, 3),
            name: "value",
            expected: "number",
            found: String::from("String(\"x\")"),
        })
    );
}

#[test]
fn first_error_wins() {
    let rows = vec![
        header(),
        vec![text("alice"), text("y"), text("z")],
        vec![Cell::Int(3)],
    ];
    match import(2, &rows) {
        Err(ImportError::InvalidData { pos, name, .. }) => {
            assert_eq!(pos, CellId(1, 2));
            assert_eq!(name, "value");
        }
        other => panic!("unexpected {:?}", other),
    }
}

#[test]
fn column_boundary() {
    let rows = vec![
        header(),
        vec![text("alice"), Cell::Int(1), Cell::Int(2), text("extra"), Cell::Int(9)],
    ];
    let recs = import(2, &rows).unwrap();
    assert_eq!(recs[0].data, vec![Some(Number::Int(1)), Some(Number::Int(2))]);
    let wide = import(3, &rows);
    assert!(matches!(wide, Err(ImportError::InvalidData { pos: CellId(3, 2), .. })));
}

#[test]
fn short_rows_padded() {
    let rows = vec![header(), vec![text("alice"), Cell::Int(1)]];
    let recs = import(3, &rows).unwrap();
    assert_eq!(recs[0].data, vec![Some(Number::Int(1)), None, None]);
}

#[test]
fn zero_columns() {
    let rows = vec![header(), vec![text("alice"), text("ignored")]];
    let recs = import(0, &rows).unwrap();
    assert_eq!(recs, vec![Data { nick: String::from("alice"), data: vec![] }]);
}

#[test]
fn header_only_and_empty() {
    assert_eq!(import(2, &vec![]), Ok(vec![]));
    assert_eq!(import(2, &vec![header()]), Ok(vec![]));
    assert_eq!(import(2, &vec![vec![Cell::Int(1)]]), Ok(vec![]));
}

#[test]
fn row_values_reports_column() {
    let row = vec![text("n"), Cell::Empty, Cell::Other(String::from("Error(Div0)"))];
    assert_eq!(
        row_values(2, &row, 7),
        Err(ImportError::InvalidData {
            pos: CellId(2, 7),
            name: "value",
            expected: "number",
            found: String::from("Error(Div0)"),
        })
    );
    assert_eq!(row_values(1, &row, 7), Ok(vec![None]));
}

#[test]
fn describe_cells() {
    assert_eq!(Cell::Empty.describe(), "Empty");
    assert_eq!(Cell::Int(42).describe(), "Int(42)");
    assert_eq!(Cell::Int(-7).describe(), "Int(-7)");
    assert_eq!(Cell::Int(0).describe(), "Int(0)");
    assert_eq!(Cell::Int(i64::MIN).describe(), "Int(-9223372036854775808)");
    assert_eq!(float(1.0).describe(), "Float(1.0)");
    assert_eq!(text("hi").describe(), "String(\"hi\")");
    assert_eq!(Cell::Other(String::from("Bool(false)")).describe(), "Bool(false)");
}

#[test]
fn cell_values() {
    assert_eq!(Cell::Empty.value(), Some(None));
    assert_eq!(Cell::Int(3).value(), Some(Some(Number::Int(3))));
    assert_eq!(float(2.5).value(), Some(Some(Number::Float(2.5f64.to_bits()))));
    assert_eq!(text("x").value(), None);
    assert_eq!(Cell::Other(String::from("Bool(true)")).value(), None);
}

#[test]
fn invalid_nickname_float() {
    let rows = vec![header(), vec![float(1.5), Cell::Int(1), Cell::Int(2)]];
    assert_eq!(
        import(2, &rows),
        Err(ImportError::InvalidData {
            pos: CellId(0, 2),
            name: "nickname",
            expected: "string",
            found: String::from("Float(1.5)"),
        })
    );
}

#[test]
fn invalid_value_quoted_text() {
    let rows = vec![header(), vec![text("alice"), text("a\"b"), Cell::Int(2)]];
    assert_eq!(
        import(2, &rows),
        Err(ImportError::InvalidData {
            pos: CellId(1, 2),
            name: "value",
            expected: "number",
            found: String::from("String(\"a\\\"b\")"),
        })
    );
}

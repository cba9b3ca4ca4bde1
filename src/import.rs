use vstd::prelude::*;
use vstd::string::*;

use crate::cell_id::{decimal, decimal_text, CellId};

verus! {

/// A number read from a cell: an integer, or a float held by its IEEE-754 bit pattern.
#[derive(Debug, Clone, Copy, PartialEq, Eq, Structural)]
pub enum Number {
    Int(i64),
    Float(u64),
}

/// A worksheet cell as the worksheet reader hands it over.
#[derive(Debug, PartialEq, Eq)]
pub enum Cell {
    Empty,
    Int(i64),
    /// A float, by its IEEE-754 bit pattern, with the reader's textual form
    /// of the cell.
    Float { bits: u64, shown: String },
    /// A text, with the reader's textual form of the cell (quoted and escaped
    /// as the reader shows it).
    Text { text: String, shown: String },
    /// Any other kind of cell, by the reader's own textual form of it.
    Other(String),
}

/// One validated data row: a nickname and one optional number per data column.
#[derive(Debug, PartialEq)]
pub struct Data {
    pub nick: String,
    pub data: Vec<Option<Number>>,
}

/// Why an import pass stopped.
#[derive(Debug, PartialEq, Eq)]
pub enum ImportError {
    /// The cell at `pos` is of the wrong kind for `name`.
    InvalidData { pos: CellId, name: &'static str, expected: &'static str, found: String },
    /// A non-blank row follows the first blank one.
    TrailingData { pos: CellId },
}

/// Where the scan of the rows stands.
#[derive(Debug, Clone, Copy, PartialEq, Eq, Structural)]
pub enum ScanState {
    /// Still inside the block of data rows.
    Collecting,
    /// A row with a blank first cell has been seen: only such rows may follow.
    TrailingOnly,
}

/// What a `Data` value says.
pub struct Record {
    pub nick: Seq<char>,
    pub data: Seq<Option<Number>>,
}

/// What an `ImportError` says.
pub enum ImportFault {
    InvalidData { pos: CellId, name: Seq<char>, expected: Seq<char>, found: Seq<char> },
    TrailingData { pos: CellId },
}

impl Data {
    pub open spec fn view(self) -> Record {
        Record { nick: self.nick@, data: self.data@ }
    }
}

impl ImportError {
    pub open spec fn view(self) -> ImportFault {
        match self {
            ImportError::InvalidData { pos, name, expected, found } => ImportFault::InvalidData {
                pos,
                name: name@,
                expected: expected@,
                found: found@,
            },
            ImportError::TrailingData { pos } => ImportFault::TrailingData { pos },
        }
    }
}

/// The cell at `i` of a row; a cell past the end of the row is empty.
pub open spec fn cell_at(row: Seq<Cell>, i: int) -> Cell {
    if 0 <= i < row.len() {
        row[i]
    } else {
        Cell::Empty
    }
}

/// The value that a cell gives in a data column, or `None` where the cell
/// cannot stand there.
pub open spec fn cell_value(c: Cell) -> Option<Option<Number>> {
    match c {
        Cell::Empty => Some(None),
        Cell::Int(n) => Some(Some(Number::Int(n))),
        Cell::Float { bits, .. } => Some(Some(Number::Float(bits))),
        _ => None,
    }
}

/// The decimal numeral of a signed integer.
pub open spec fn signed_decimal(n: int) -> Seq<char> {
    if n < 0 {
        "-"@ + decimal((-n) as nat)
    } else {
        decimal(n as nat)
    }
}

/// The textual form of a cell, as an error reports what it found: the
/// reader's own form where the cell carries one, and `Empty` or `Int(n)`,
/// as the reader writes them, for the others.
pub open spec fn cell_text(c: Cell) -> Seq<char> {
    match c {
        Cell::Empty => "Empty"@,
        Cell::Int(n) => "Int("@ + signed_decimal(n as int) + ")"@,
        Cell::Float { shown, .. } => shown@,
        Cell::Text { shown, .. } => shown@,
        Cell::Other(raw) => raw@,
    }
}

/// The values of data columns `i..columns` of a row (data column `j` is cell
/// `j + 1`), or the first data column whose cell is not a number or empty.
pub open spec fn values_from(row: Seq<Cell>, columns: nat, i: nat) -> Result<Seq<Option<Number>>, nat>
    decreases columns - i,
{
    if i >= columns {
        Ok(Seq::empty())
    } else {
        match cell_value(cell_at(row, i + 1 as int)) {
            None => Err(i),
            Some(v) => match values_from(row, columns, i + 1) {
                Ok(rest) => Ok(seq![v] + rest),
                Err(j) => Err(j),
            },
        }
    }
}

/// The error for the cell of data column `j` of a row, reported at sheet row `r`.
pub open spec fn value_fault(row: Seq<Cell>, j: nat, r: nat) -> ImportFault {
    ImportFault::InvalidData {
        pos: CellId((j + 1) as u32, r as u32),
        name: "value"@,
        expected: "number"@,
        found: cell_text(cell_at(row, j + 1 as int)),
    }
}

/// The outcome of scanning rows `k..` in state `state`. Row `k` is reported
/// at sheet row `k + 1`.
pub open spec fn rows_from(columns: nat, rows: Seq<Seq<Cell>>, k: nat, state: ScanState) -> Result<Seq<Record>, ImportFault>
    decreases rows.len() - k,
{
    if k >= rows.len() {
        Ok(Seq::empty())
    } else {
        let row = rows[k as int];
        let first = cell_at(row, 0);
        if first is Empty {
            rows_from(columns, rows, k + 1, ScanState::TrailingOnly)
        } else if state is TrailingOnly {
            Err(ImportFault::TrailingData { pos: CellId(0, (k + 1) as u32) })
        } else if first is Text {
            match values_from(row, columns, 0) {
                Err(j) => Err(value_fault(row, j, k + 1)),
                Ok(vals) => prefix_ok(
                    seq![Record { nick: first->text@, data: vals }],
                    rows_from(columns, rows, k + 1, ScanState::Collecting),
                ),
            }
        } else {
            Err(ImportFault::InvalidData {
                pos: CellId(0, (k + 1) as u32),
                name: "nickname"@,
                expected: "string"@,
                found: cell_text(first),
            })
        }
    }
}

/// `r` with `s` put in front of its records, where it holds records.
pub open spec fn prefix_ok<A, E>(s: Seq<A>, r: Result<Seq<A>, E>) -> Result<Seq<A>, E> {
    match r {
        Ok(rest) => Ok(s + rest),
        Err(e) => Err(e),
    }
}

/// The outcome of importing `rows`: the first row is a header and is skipped.
pub open spec fn import_rows(columns: nat, rows: Seq<Seq<Cell>>) -> Result<Seq<Record>, ImportFault> {
    rows_from(columns, rows, 1, ScanState::Collecting)
}

/// What the result of an import says.
pub open spec fn import_view(r: Result<Vec<Data>, ImportError>) -> Result<Seq<Record>, ImportFault> {
    match r {
        Ok(v) => Ok(v@.map_values(|d: Data| d.view())),
        Err(e) => Err(e.view()),
    }
}

/// The rows of a worksheet as sequences of cells.
pub open spec fn rows_view(rows: Seq<Vec<Cell>>) -> Seq<Seq<Cell>> {
    rows.map_values(|row: Vec<Cell>| row@)
}


/// The decimal numeral of a signed integer.
fn signed_decimal_text(n: i64) -> (s: String)
    ensures
        s@ == signed_decimal(n as int),
{
    if n < 0 {
        let m: u64 = (-(n + 1)) as u64 + 1;
        let digits = decimal_text(m);
        let mut s = String::from_str("-");
        s.append(digits.as_str());
        s
    } else {
        decimal_text(n as u64)
    }
}

impl Cell {
    /// The textual form of this cell, as an error reports what it found.
    pub fn describe(&self) -> (s: String)
        ensures
            s@ == cell_text(*self),
    {
        match self {
            Cell::Empty => String::from_str("Empty"),
            Cell::Int(n) => {
                let mut s = String::from_str("Int(");
                let digits = signed_decimal_text(*n);
                s.append(digits.as_str());
                s.append(")");
                s
            },
            Cell::Float { shown, .. } => shown.clone(),
            Cell::Text { shown, .. } => shown.clone(),
            Cell::Other(raw) => raw.clone(),
        }
    }

    /// The value this cell gives in a data column, or `None` where it cannot stand there.
    pub fn value(&self) -> (r: Option<Option<Number>>)
        ensures
            r == cell_value(*self),
    {
        match self {
            Cell::Empty => Some(None),
            Cell::Int(n) => Some(Some(Number::Int(*n))),
            Cell::Float { bits, .. } => Some(Some(Number::Float(*bits))),
            _ => None,
        }
    }
}

proof fn lemma_prefix_ok_join<A, E>(s: Seq<A>, t: Seq<A>, r: Result<Seq<A>, E>)
    ensures
        prefix_ok(s, prefix_ok(t, r)) == prefix_ok(s + t, r),
{
    if let Ok(rest) = r {
        assert(s + (t + rest) =~= (s + t) + rest);
    }
}

proof fn lemma_prefix_ok_empty<A, E>(r: Result<Seq<A>, E>)
    ensures
        prefix_ok(Seq::<A>::empty(), r) == r,
{
    if let Ok(rest) = r {
        assert(Seq::<A>::empty() + rest =~= rest);
    }
}

/// The values of the data columns of `row`, or the error for the first cell
/// among them that is neither a number nor empty, reported at sheet row `r`.
/// Exactly `columns` cells after the nickname are read; a cell past the end
/// of the row counts as empty.
pub fn row_values(columns: u32, row: &Vec<Cell>, r: u32) -> (res: Result<Vec<Option<Number>>, ImportError>)
    ensures
        match values_from(row@, columns as nat, 0) {
            Ok(v) => res is Ok && res->Ok_0@ == v,
            Err(j) => res is Err && res->Err_0.view() == value_fault(row@, j, r as nat),
        },
{
    let mut vals: Vec<Option<Number>> = Vec::new();
    let mut j: u32 = 0;
    proof {
        lemma_prefix_ok_empty(values_from(row@, columns as nat, 0));
    }
    while j < columns
        invariant
            j <= columns,
            values_from(row@, columns as nat, 0) == prefix_ok(vals@, values_from(row@, columns as nat, j as nat)),
        decreases columns - j,
    {
        let i: usize = j as usize + 1;
        let v = if i < row.len() {
            row[i].value()
        } else {
            Some(None)
        };
        match v {
            None => {
                let found = row[i].describe();
                return Err(ImportError::InvalidData { pos: CellId(j + 1, r), name: "value", expected: "number", found });
            },
            Some(x) => {
                proof {
                    lemma_prefix_ok_join(vals@, seq![x], values_from(row@, columns as nat, (j + 1) as nat));
                }
                let ghost before = vals@;
                vals.push(x);
                assert(vals@ =~= before + seq![x]);
            },
        }
        j = j + 1;
    }
    Ok(vals)
}


/// Validates the rows of a worksheet into records. The first row is a header
/// and is skipped. Each following row either starts with a nickname and
/// gives exactly `columns` values, or starts with a blank cell and ends the
/// data; after that only rows with a blank first cell may follow. The first
/// cell of the wrong kind, or the first non-blank row after the end of the
/// data, stops the whole pass with an error.
pub fn import(columns: u32, rows: &Vec<Vec<Cell>>) -> (r: Result<Vec<Data>, ImportError>)
    requires
        rows@.len() <= u32::MAX,
    ensures
        import_view(r) == import_rows(columns as nat, rows_view(rows@)),
{
    let ghost rs = rows_view(rows@);
    let mut res: Vec<Data> = Vec::new();
    let mut state = ScanState::Collecting;
    let mut k: usize = 1;
    proof {
        lemma_prefix_ok_empty(rows_from(columns as nat, rs, 1, state));
        assert(res@.map_values(|d: Data| d.view()) =~= Seq::<Record>::empty());
    }
    while k < rows.len()
        invariant
            rows@.len() <= u32::MAX,
            rs == rows_view(rows@),
            1 <= k,
            import_rows(columns as nat, rs) == prefix_ok(
                res@.map_values(|d: Data| d.view()),
                rows_from(columns as nat, rs, k as nat, state),
            ),
        decreases rows.len() - k,
    {
        let row = &rows[k];
        assert(rs[k as int] == row@);
        let pos_row: u32 = (k + 1) as u32;
        if row.len() == 0 || matches!(row[0], Cell::Empty) {
            state = ScanState::TrailingOnly;
        } else {
            match state {
                ScanState::TrailingOnly => {
                    return Err(ImportError::TrailingData { pos: CellId(0, pos_row) });
                },
                ScanState::Collecting => {
                    match &row[0] {
                        Cell::Text { text: nick, .. } => {
                            match row_values(columns, row, pos_row) {
                                Err(e) => {
                                    return Err(e);
                                },
                                Ok(data) => {
                                    let ghost before = res@.map_values(|d: Data| d.view());
                                    let rec = Data { nick: nick.clone(), data };
                                    proof {
                                        lemma_prefix_ok_join(
                                            before,
                                            seq![rec.view()],
                                            rows_from(columns as nat, rs, (k + 1) as nat, ScanState::Collecting),
                                        );
                                    }
                                    res.push(rec);
                                    assert(res@.map_values(|d: Data| d.view()) =~= before + seq![rec.view()]);
                                },
                            }
                        },
                        _ => {
                            let found = row[0].describe();
                            return Err(ImportError::InvalidData { pos: CellId(0, pos_row), name: "nickname", expected: "string", found });
                        },
                    }
                },
            }
        }
        k = k + 1;
    }
    proof {
        assert(res@.map_values(|d: Data| d.view()) + Seq::<Record>::empty() =~= res@.map_values(|d: Data| d.view()));
    }
    Ok(res)
}


proof fn lemma_values_width(row: Seq<Cell>, columns: nat, i: nat)
    requires
        i <= columns,
    ensures
        values_from(row, columns, i) matches Ok(v) ==> v.len() == columns - i,
    decreases columns - i,
{
    if i < columns {
        lemma_values_width(row, columns, i + 1);
    }
}

proof fn lemma_values_same_cells(a: Seq<Cell>, b: Seq<Cell>, columns: nat, i: nat)
    requires
        forall|c: int| 0 <= c <= columns ==> cell_at(a, c) == cell_at(b, c),
    ensures
        values_from(a, columns, i) == values_from(b, columns, i),
    decreases columns - i,
{
    if i < columns {
        assert(cell_at(a, i + 1 as int) == cell_at(b, i + 1 as int));
        lemma_values_same_cells(a, b, columns, i + 1);
    }
}

proof fn lemma_rows_width(columns: nat, rows: Seq<Seq<Cell>>, k: nat, state: ScanState)
    ensures
        rows_from(columns, rows, k, state) matches Ok(recs) ==> forall|i: int| 0 <= i < recs.len() ==> (#[trigger] recs[i]).data.len() == columns,
    decreases rows.len() - k,
{
    if k < rows.len() {
        lemma_rows_width(columns, rows, k + 1, ScanState::TrailingOnly);
        lemma_rows_width(columns, rows, k + 1, ScanState::Collecting);
        lemma_values_width(rows[k as int], columns, 0);
        if let Ok(recs) = rows_from(columns, rows, k, state) {
            let row = rows[k as int];
            let first = cell_at(row, 0);
            if !(first is Empty) {
                let vals = values_from(row, columns, 0)->Ok_0;
                let rest = rows_from(columns, rows, k + 1, ScanState::Collecting)->Ok_0;
                assert(recs == seq![Record { nick: first->text@, data: vals }] + rest);
                assert forall|i: int| 0 <= i < recs.len() implies (#[trigger] recs[i]).data.len() == columns by {
                    if i > 0 {
                        assert(recs[i] == rest[i - 1]);
                    }
                }
            }
        }
    }
}

proof fn lemma_rows_same_cells(columns: nat, a: Seq<Seq<Cell>>, b: Seq<Seq<Cell>>, k: nat, state: ScanState)
    requires
        a.len() == b.len(),
        forall|r: int, c: int| 0 <= r < a.len() && 0 <= c <= columns ==> #[trigger] cell_at(a[r], c) == cell_at(b[r], c),
    ensures
        rows_from(columns, a, k, state) == rows_from(columns, b, k, state),
    decreases a.len() - k,
{
    if k < a.len() {
        lemma_rows_same_cells(columns, a, b, k + 1, ScanState::TrailingOnly);
        lemma_rows_same_cells(columns, a, b, k + 1, ScanState::Collecting);
        let ra = a[k as int];
        let rb = b[k as int];
        assert(cell_at(ra, 0) == cell_at(rb, 0));
        lemma_values_same_cells(ra, rb, columns, 0);
        lemma_values_err_bound(ra, columns, 0);
        if let Err(j) = values_from(ra, columns, 0) {
            assert(cell_at(ra, j + 1 as int) == cell_at(rb, j + 1 as int));
        }
    }
}

proof fn lemma_values_err_bound(row: Seq<Cell>, columns: nat, i: nat)
    ensures
        values_from(row, columns, i) matches Err(j) ==> i <= j < columns,
    decreases columns - i,
{
    if i < columns {
        lemma_values_err_bound(row, columns, i + 1);
    }
}

/// Every record of a successful import holds exactly `columns` values, and
/// the cells of a row past data column `columns` are never read: two
/// worksheets that agree on the first `columns + 1` cells of each row import
/// alike, whatever else their rows hold.
pub proof fn lemma_column_boundary(columns: nat, rows: Seq<Seq<Cell>>, other: Seq<Seq<Cell>>)
    requires
        rows.len() == other.len(),
        forall|r: int, c: int| 0 <= r < rows.len() && 0 <= c <= columns ==> #[trigger] cell_at(rows[r], c) == cell_at(other[r], c),
    ensures
        import_rows(columns, rows) matches Ok(recs) ==> forall|i: int| 0 <= i < recs.len() ==> (#[trigger] recs[i]).data.len() == columns,
        import_rows(columns, rows) == import_rows(columns, other),
{
    lemma_rows_width(columns, rows, 1, ScanState::Collecting);
    lemma_rows_same_cells(columns, rows, other, 1, ScanState::Collecting);
}

} // verus!

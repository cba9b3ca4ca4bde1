//! Spreadsheet cell addresses and the validation of worksheet rows into records.
//!
//! `cell_id` converts between zero-based (column, row) positions and address
//! texts such as `AB12`; `import` checks the rows of a worksheet and turns
//! them into records or a precisely placed error; `export` computes the range
//! that the records fill on the target sheet.
pub mod cell_id;
pub mod export;
pub mod import;

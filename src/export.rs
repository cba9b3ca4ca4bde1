use vstd::prelude::*;
use vstd::string::*;

use crate::cell_id::{address_text, CellId};

verus! {

/// Where records are written: a spreadsheet, the corner cell of the block,
/// and the number of value columns of each record.
pub struct GSheets {
    pub sheet_id: String,
    pub start: CellId,
    pub columns: u32,
}

/// The end position of the range that is sent with `records` records written
/// from `start`: `columns + 1` columns to the right of `start` and `records`
/// rows below it, where that position fits a `CellId`. It lies one column to
/// the right of and one row below the last cell that the records fill.
pub open spec fn block_end(start: CellId, columns: nat, records: nat) -> Option<CellId> {
    if start.0 + columns + 1 <= u32::MAX && start.1 + records <= u32::MAX {
        Some(CellId((start.0 + columns + 1) as u32, (start.1 + records) as u32))
    } else {
        None
    }
}

impl GSheets {
    /// The end position of the range sent for `records` records, `start`
    /// moved `columns + 1` columns right and `records` rows down, or `None`
    /// where it lies beyond the positions a `CellId` holds.
    pub fn end(&self, records: u32) -> (r: Option<CellId>)
        ensures
            r == block_end(self.start, self.columns as nat, records as nat),
    {
        let width = self.columns as u64 + 1;
        if self.start.0 as u64 + width > u32::MAX as u64 || self.start.1 as u64 + records as u64 > u32::MAX as u64 {
            return None;
        }
        Some(self.start.add_x(self.columns + 1).add_y(records))
    }

    /// The range text `start:end` sent for `records` records, with `end` as
    /// `end` gives it, such as `B2:E4` for two records of two values from `B2`, or `None` where its end lies beyond the positions a
    /// `CellId` holds.
    pub fn range(&self, records: u32) -> (r: Option<String>)
        ensures
            match block_end(self.start, self.columns as nat, records as nat) {
                Some(e) => r is Some && r->Some_0@ == address_text(self.start.0 as nat, self.start.1 as nat) + ":"@
                    + address_text(e.0 as nat, e.1 as nat),
                None => r is None,
            },
    {
        match self.end(records) {
            None => None,
            Some(e) => {
                let mut s = self.start.to_string();
                s.append(":");
                let tail = e.to_string();
                s.append(tail.as_str());
                Some(s)
            },
        }
    }
}

} // verus!

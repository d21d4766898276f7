//! The schema model: an immutable description of the expected columns and
//! of the dialect of the input.

use vstd::prelude::*;

verus! {

/// The semantic type of a column's values.
#[derive(Clone, Copy, Debug, PartialEq, Eq, Structural)]
pub enum ColumnType {
    String,
    Int,
    Decimal,
    Date,
}

/// The accepted layouts of a date field. The first separates the groups
/// with `-`, the two others with `/`.
#[derive(Clone, Copy, Debug, PartialEq, Eq, Structural)]
pub enum DateFormat {
    YmdDash,
    DmySlash,
    MdySlash,
}

/// One expected column: its header name, whether a value must be present,
/// its type, and the optional per-type constraints.
#[derive(Clone, Debug)]
pub struct ColumnSpec {
    /// Header name, as UTF-8 bytes; matched exactly against the trimmed
    /// header fields of the input.
    pub name: Vec<u8>,
    /// A required column must be present in the header, and its fields must
    /// not be empty after trimming.
    pub required: bool,
    pub col_type: ColumnType,
    /// Maximum length in bytes, checked after trimming.
    pub max_len: Option<usize>,
    /// Exact allow-list for the trimmed value; empty means unrestricted.
    pub allowed: Vec<Vec<u8>>,
    /// Fractional digits kept by decimal canonicalization; the default is 2.
    pub precision: Option<u32>,
    /// Layout of date fields; the default is `YmdDash`.
    pub date_format: Option<DateFormat>,
}

/// The whole schema: ordered columns plus the dialect switches.
#[derive(Clone, Debug)]
pub struct Schema {
    pub has_headers: bool,
    pub delimiter: u8,
    pub columns: Vec<ColumnSpec>,
    pub fail_on_extra_columns: bool,
}

/// The delimiter used when a schema document names none.
pub fn default_delimiter() -> (r: u8)
    ensures
        r == 44u8,
{
    44u8
}

/// What one ingestion call did: data rows completed, errors newly
/// recorded, and whether the call was the terminating one.
#[derive(Clone, Copy, Debug, PartialEq, Eq, Structural)]
pub struct Progress {
    pub rows_processed: u32,
    pub errors_added: u32,
    pub done: bool,
}

} // verus!

//! Validation findings and their dense two-word binary encoding.

use vstd::prelude::*;

verus! {

/// The closed set of finding kinds.
#[derive(Clone, Copy, Debug, PartialEq, Eq, Structural)]
pub enum ErrorCode {
    MissingRequired,
    InvalidType,
    MaxLengthExceeded,
    NotAllowed,
    InvalidUtf8,
    MissingRequiredColumn,
    ExtraColumn,
}

/// Which column space `PackedError::col` indexes: the schema's columns, or
/// the input's columns (used by `ExtraColumn`, which has no schema column).
#[derive(Clone, Copy, Debug, PartialEq, Eq, Structural)]
pub enum ColKind {
    Schema,
    Input,
}

/// The numeric value of a finding kind in the packed encoding.
pub open spec fn code_num(code: ErrorCode) -> u8 {
    match code {
        ErrorCode::MissingRequired => 1,
        ErrorCode::InvalidType => 2,
        ErrorCode::MaxLengthExceeded => 3,
        ErrorCode::NotAllowed => 4,
        ErrorCode::InvalidUtf8 => 5,
        ErrorCode::MissingRequiredColumn => 6,
        ErrorCode::ExtraColumn => 7,
    }
}

/// The stable name of a finding kind, given its numeric value.
pub open spec fn spec_code_name(code: u8) -> Seq<char> {
    if code == 1 {
        "MissingRequired"@
    } else if code == 2 {
        "InvalidType"@
    } else if code == 3 {
        "MaxLengthExceeded"@
    } else if code == 4 {
        "NotAllowed"@
    } else if code == 5 {
        "InvalidUtf8"@
    } else if code == 6 {
        "MissingRequiredColumn"@
    } else if code == 7 {
        "ExtraColumn"@
    } else {
        "Unknown"@
    }
}

impl ErrorCode {
    /// The numeric value used in the packed encoding.
    pub fn as_u8(&self) -> (r: u8)
        ensures
            r == code_num(*self),
    {
        match self {
            ErrorCode::MissingRequired => 1,
            ErrorCode::InvalidType => 2,
            ErrorCode::MaxLengthExceeded => 3,
            ErrorCode::NotAllowed => 4,
            ErrorCode::InvalidUtf8 => 5,
            ErrorCode::MissingRequiredColumn => 6,
            ErrorCode::ExtraColumn => 7,
        }
    }

    /// The stable name of this finding kind.
    pub fn as_str(&self) -> (r: &'static str)
        ensures
            r@ == spec_code_name(code_num(*self)),
    {
        match self {
            ErrorCode::MissingRequired => "MissingRequired",
            ErrorCode::InvalidType => "InvalidType",
            ErrorCode::MaxLengthExceeded => "MaxLengthExceeded",
            ErrorCode::NotAllowed => "NotAllowed",
            ErrorCode::InvalidUtf8 => "InvalidUtf8",
            ErrorCode::MissingRequiredColumn => "MissingRequiredColumn",
            ErrorCode::ExtraColumn => "ExtraColumn",
        }
    }
}

/// The largest column index the packed encoding can carry: `col` occupies
/// 23 bits of the second word.
pub const MAX_PACKED_COL: u32 = 0x7FFFFF;

/// One finding. `row` is 0 for header-level findings and the 1-based data
/// row index otherwise; `col` indexes the space named by `kind`.
#[derive(Clone, Copy, Debug, PartialEq, Eq, Structural)]
pub struct PackedError {
    pub row: u32,
    pub col: u32,
    pub code: ErrorCode,
    pub kind: ColKind,
}

/// The second word of the packed form: the kind tag in the top bit, the
/// column index in the next 23 bits, the code in the low 8 bits.
pub open spec fn spec_word1(e: PackedError) -> u32 {
    (if e.kind is Input {
        0x8000_0000u32
    } else {
        0u32
    }) | ((e.col << 8) as u32) | (code_num(e.code) as u32)
}

impl PackedError {
    /// True of every finding the engine records: the column index fits in
    /// the 23 bits the packed form gives it.
    pub open spec fn fits(self) -> bool {
        self.col <= MAX_PACKED_COL
    }

    /// The packed binary form: word 0 is the row, word 1 packs kind,
    /// column and code.
    pub fn to_words(&self) -> (r: [u32; 2])
        requires
            self.fits(),
        ensures
            r[0] == self.row,
            r[1] == spec_word1(*self),
    {
        let kind_bit: u32 = match self.kind {
            ColKind::Schema => 0,
            ColKind::Input => 0x8000_0000,
        };
        let w1: u32 = kind_bit | (self.col << 8u32) | (self.code.as_u8() as u32);
        [self.row, w1]
    }
}

/// The packed form is lossless: each field of the finding can be read back
/// out of word 1 by shifting and masking.
pub proof fn lemma_packed_words_lossless(e: PackedError)
    requires
        e.fits(),
    ensures
        (spec_word1(e) >> 31) == (if e.kind is Input { 1u32 } else { 0u32 }),
        ((spec_word1(e) >> 8) & 0x7FFFFF) == e.col,
        (spec_word1(e) & 0xFF) == code_num(e.code) as u32,
{
    let kb: u32 = if e.kind is Input { 0x8000_0000u32 } else { 0u32 };
    let c: u32 = e.col;
    let n: u32 = code_num(e.code) as u32;
    assert(n <= 7 && (kb == 0 || kb == 0x8000_0000u32));
    assert((kb | ((c << 8) as u32) | n) >> 31 == (if kb == 0x8000_0000u32 { 1u32 } else { 0u32 })) by (bit_vector)
        requires
            c <= 0x7FFFFFu32,
            n <= 7u32,
            kb == 0u32 || kb == 0x8000_0000u32,
    ;
    assert((((kb | ((c << 8) as u32) | n) >> 8) & 0x7FFFFF) == c) by (bit_vector)
        requires
            c <= 0x7FFFFFu32,
            n <= 7u32,
            kb == 0u32 || kb == 0x8000_0000u32,
    ;
    assert(((kb | ((c << 8) as u32) | n) & 0xFF) == n) by (bit_vector)
        requires
            c <= 0x7FFFFFu32,
            n <= 7u32,
            kb == 0u32 || kb == 0x8000_0000u32,
    ;
}

} // verus!

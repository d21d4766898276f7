//! Per-field semantic checks and canonical-form rendering.
//!
//! The checks run in a fixed short-circuit order, so at most one finding
//! arises per field: required, length, UTF-8, allow-list, then the
//! type-specific syntax check. Canonicalization is independent of the
//! checks: a value that cannot be decoded or parsed renders as the empty
//! string.

use vstd::prelude::*;
use crate::schema::{ColumnSpec, ColumnType, DateFormat};
use crate::errors::ErrorCode;
use crate::fields::{spec_trim, trim_ascii, spec_is_int, is_valid_int, spec_in_list, in_list, is_utf8};
use crate::decimal::{spec_dec_valid, spec_dec_canon, dec_parse, dec_canonicalize};
use crate::date::{spec_date_valid, spec_date_canon, is_valid_date, normalize_date};

verus! {

/// The precision a decimal column rounds to; two digits when unset.
pub open spec fn spec_precision_of(c: ColumnSpec) -> u32 {
    match c.precision {
        Some(p) => p,
        None => 2,
    }
}

/// The layout a date column expects; `YmdDash` when unset.
pub open spec fn spec_format_of(c: ColumnSpec) -> DateFormat {
    match c.date_format {
        Some(f) => f,
        None => DateFormat::YmdDash,
    }
}

/// The finding one raw field raises under one column, if any: the checks
/// run in order and stop at the first failure.
pub open spec fn spec_field_error(c: ColumnSpec, raw: Seq<u8>) -> Option<ErrorCode> {
    let t = spec_trim(raw);
    if c.required && t.len() == 0 {
        Some(ErrorCode::MissingRequired)
    } else if match c.max_len {
        Some(m) => t.len() > m,
        None => false,
    } {
        Some(ErrorCode::MaxLengthExceeded)
    } else if !vstd::utf8::valid_utf8(t) {
        Some(ErrorCode::InvalidUtf8)
    } else if c.allowed@.len() > 0 && !spec_in_list(c.allowed@, t) {
        Some(ErrorCode::NotAllowed)
    } else {
        match c.col_type {
            ColumnType::String => None,
            ColumnType::Int => if spec_is_int(t) {
                None
            } else {
                Some(ErrorCode::InvalidType)
            },
            ColumnType::Decimal => if spec_dec_valid(t) {
                None
            } else {
                Some(ErrorCode::InvalidType)
            },
            ColumnType::Date => if spec_date_valid(t, spec_format_of(c)) {
                None
            } else {
                Some(ErrorCode::InvalidType)
            },
        }
    }
}

/// Checks one raw field against one column.
pub fn field_error(c: &ColumnSpec, raw: &[u8]) -> (r: Option<ErrorCode>)
    ensures
        r == spec_field_error(*c, raw@),
{
    let t = trim_ascii(raw);
    if c.required && t.len() == 0 {
        return Some(ErrorCode::MissingRequired);
    }
    match c.max_len {
        Some(m) => {
            if t.len() > m {
                return Some(ErrorCode::MaxLengthExceeded);
            }
        },
        None => {},
    }
    if !is_utf8(t.as_slice()) {
        return Some(ErrorCode::InvalidUtf8);
    }
    if c.allowed.len() > 0 && !in_list(&c.allowed, t.as_slice()) {
        return Some(ErrorCode::NotAllowed);
    }
    match c.col_type {
        ColumnType::String => None,
        ColumnType::Int => {
            if is_valid_int(t.as_slice()) {
                None
            } else {
                Some(ErrorCode::InvalidType)
            }
        },
        ColumnType::Decimal => {
            match dec_parse(t.as_slice()) {
                Some(_) => None,
                None => Some(ErrorCode::InvalidType),
            }
        },
        ColumnType::Date => {
            let fmt = match c.date_format {
                Some(f) => f,
                None => DateFormat::YmdDash,
            };
            if is_valid_date(t.as_slice(), fmt) {
                None
            } else {
                Some(ErrorCode::InvalidType)
            }
        },
    }
}

/// The canonical bytes of one raw field under one column: trimmed text
/// for strings and integers, the fixed-scale form for decimals, the
/// `YYYY-MM-DD` form for dates, and empty when decoding or parsing fails.
pub open spec fn spec_canon_field(c: ColumnSpec, raw: Seq<u8>) -> Seq<u8> {
    let t = spec_trim(raw);
    if !vstd::utf8::valid_utf8(t) {
        Seq::empty()
    } else {
        match c.col_type {
            ColumnType::String => t,
            ColumnType::Int => t,
            ColumnType::Decimal => match spec_dec_canon(t, spec_precision_of(c) as nat) {
                Some(v) => v,
                None => Seq::empty(),
            },
            ColumnType::Date => match spec_date_canon(t, spec_format_of(c)) {
                Some(v) => v,
                None => Seq::empty(),
            },
        }
    }
}

/// Renders the canonical bytes of one raw field under one column.
pub fn canon_field(c: &ColumnSpec, raw: &[u8]) -> (r: Vec<u8>)
    ensures
        r@ == spec_canon_field(*c, raw@),
{
    let t = trim_ascii(raw);
    if !is_utf8(t.as_slice()) {
        return Vec::new();
    }
    match c.col_type {
        ColumnType::String => t,
        ColumnType::Int => t,
        ColumnType::Decimal => {
            let p = match c.precision {
                Some(p) => p,
                None => 2,
            };
            match dec_canonicalize(t.as_slice(), p) {
                Some(v) => v,
                None => Vec::new(),
            }
        },
        ColumnType::Date => {
            let fmt = match c.date_format {
                Some(f) => f,
                None => DateFormat::YmdDash,
            };
            match normalize_date(t.as_slice(), fmt) {
                Some(v) => v,
                None => Vec::new(),
            }
        },
    }
}

} // verus!

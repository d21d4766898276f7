//! The trusted boundary to the external CSV tokenizer.
//!
//! The tokenizer owns quoting, escaping and record splitting; the engine
//! only consumes the records it yields. Nothing downstream depends on
//! more than the bounds stated here: the engine clamps every field range
//! before reading it.

use vstd::prelude::*;

verus! {

#[verifier::external_type_specification]
#[verifier::external_body]
pub struct ExReader(csv_core::Reader);

/// One step outcome of the tokenizer, as the engine consumes it.
#[derive(Clone, Copy, Debug, PartialEq, Eq, Structural)]
pub enum ReadStep {
    /// The input was consumed without completing a record.
    InputEmpty,
    /// The field-content buffer is too small for the current record.
    OutputFull,
    /// The field-boundary buffer is too small for the current record.
    OutputEndsFull,
    /// A complete record was copied out.
    Record,
    /// No data is left after the final flush.
    End,
}

/// Relies on csv_core::ReaderBuilder: `build` returns a reader that
/// splits records on the given delimiter with CRLF or LF termination.
#[verifier::external_body]
pub(crate) fn new_reader(delimiter: u8) -> csv_core::Reader {
    let mut rb = csv_core::ReaderBuilder::new();
    rb.delimiter(delimiter);
    rb.terminator(csv_core::Terminator::CRLF);
    rb.build()
}

/// Relies on csv_core::Reader::read_record: it consumes at most the given
/// input, writes field bytes into `out` from `out_from` on and field end
/// positions into `ends` from `ends_from` on without resizing either, and
/// reports how much input and how much of each buffer it used; the counts
/// never exceed the space it was given.
#[verifier::external_body]
pub(crate) fn read_record_step(
    rdr: &mut csv_core::Reader,
    input: &[u8],
    out: &mut Vec<u8>,
    out_from: usize,
    ends: &mut Vec<usize>,
    ends_from: usize,
) -> (r: (ReadStep, usize, usize, usize))
    requires
        out_from <= old(out)@.len(),
        ends_from <= old(ends)@.len(),
    ensures
        final(out)@.len() == old(out)@.len(),
        final(ends)@.len() == old(ends)@.len(),
        r.1 <= input@.len(),
        out_from + r.2 <= final(out)@.len(),
        ends_from + r.3 <= final(ends)@.len(),
{
    let (res, nin, nout, nend) = rdr.read_record(
        input,
        &mut out.as_mut_slice()[out_from..],
        &mut ends.as_mut_slice()[ends_from..],
    );
    let step = match res {
        csv_core::ReadRecordResult::InputEmpty => ReadStep::InputEmpty,
        csv_core::ReadRecordResult::OutputFull => ReadStep::OutputFull,
        csv_core::ReadRecordResult::OutputEndsFull => ReadStep::OutputEndsFull,
        csv_core::ReadRecordResult::Record => ReadStep::Record,
        csv_core::ReadRecordResult::End => ReadStep::End,
    };
    (step, nin, nout, nend)
}

} // verus!

//! The streaming validation engine: chunked ingestion, header
//! reconciliation, per-row validation, the bounded error queue and the
//! bounded normalized output buffer.

use vstd::prelude::*;
use crate::schema::{ColumnSpec, Schema, Progress};
use crate::errors::{ColKind, ErrorCode, PackedError, spec_code_name, spec_word1, MAX_PACKED_COL};
use crate::fields::{views_of, copy_bytes};
use crate::validate::{spec_field_error, field_error};
use crate::writer::{spec_row_append, append_norm_row};
use crate::tok::{new_reader, read_record_step, ReadStep};

verus! {

/// How many bytes the field-content scratch buffer starts with.
pub const INITIAL_OUT_LEN: usize = 65536;

/// How many entries the field-boundary scratch buffer starts with.
pub const INITIAL_ENDS_LEN: usize = 256;

/// How many bytes of normalized output are buffered before rows stop
/// being written until the host drains.
pub const NORMALIZED_LIMIT: usize = 2097152;

/// The engine. The host feeds it byte chunks and drains packed errors
/// and normalized bytes; everything else is internal state.
pub struct ValidatorEngine {
    pub schema: Schema,
    pub rdr: csv_core::Reader,
    /// Scratch buffer the tokenizer copies field bytes into.
    pub out: Vec<u8>,
    /// Scratch buffer the tokenizer writes field end positions into.
    pub ends: Vec<usize>,
    /// How much of `out` the current, still incomplete record has filled.
    pub outpos: usize,
    /// How many entries of `ends` the current record has filled.
    pub endpos: usize,
    /// Whether the header row (if the schema has one) was consumed.
    pub header_parsed: bool,
    /// Input column to schema column, from the header row.
    pub input_to_schema: Vec<Option<usize>>,
    /// Schema column to input column; the exact inverse where defined.
    pub schema_to_input: Vec<Option<usize>>,
    /// 1-based counter of data rows seen so far.
    pub data_row: u32,
    /// Findings not yet drained, oldest first.
    pub errors: Vec<PackedError>,
    /// Findings ever recorded; the budget caps this, not the queue.
    pub recorded: u32,
    /// Findings already handed out by draining.
    pub drained: Ghost<nat>,
    /// The error budget.
    pub max_errors: u32,
    pub emit_normalized: bool,
    /// Canonicalized output not yet drained.
    pub normalized: Vec<u8>,
    pub normalized_limit: usize,
}

impl ValidatorEngine {
    /// The engine's internal invariant: the budget bounds the findings
    /// ever recorded, the queue plus the drained count accounts for all
    /// of them, every queued finding packs, the header mapping stays
    /// within the schema, the scratch buffers can grow by doubling, and
    /// the partial-record offsets stay inside them.
    pub open spec fn wf(self) -> bool {
        &&& self.recorded <= self.max_errors
        &&& self.drained@ + self.errors@.len() == self.recorded as nat
        &&& forall|i: int| 0 <= i < self.errors@.len() ==> (#[trigger] self.errors@[i]).fits()
        &&& forall|j: int|
            0 <= j < self.input_to_schema@.len() ==> match #[trigger] self.input_to_schema@[j] {
                Some(k) => k < self.schema.columns@.len(),
                None => true,
            }
        &&& self.out@.len() >= 1
        &&& self.ends@.len() >= 1
        &&& self.outpos <= self.out@.len()
        &&& self.endpos <= self.ends@.len()
    }

    /// Builds an engine over a schema. Until the first record arrives, a
    /// headered schema has an empty mapping; a headerless schema maps
    /// each column to the same input position.
    pub fn new(schema: Schema, max_errors: u32, emit_normalized: bool) -> (r: ValidatorEngine)
        ensures
            r.wf(),
            r.schema == schema,
            r.max_errors == max_errors,
            r.emit_normalized == emit_normalized,
            r.header_parsed == !schema.has_headers,
            r.data_row == 0,
            r.errors@.len() == 0,
            r.recorded == 0,
            r.drained@ == 0,
            r.normalized@.len() == 0,
            r.normalized_limit == NORMALIZED_LIMIT,
            !schema.has_headers ==> r.schema_to_input@ == Seq::new(
                schema.columns@.len(),
                |k: int| Some(k as usize),
            ),
    {
        let delim = schema.delimiter;
        let headerless = !schema.has_headers;
        let rdr = new_reader(delim);
        let mut out: Vec<u8> = Vec::new();
        out.resize(INITIAL_OUT_LEN, 0);
        let mut ends: Vec<usize> = Vec::new();
        ends.resize(INITIAL_ENDS_LEN, 0);
        let mut schema_to_input: Vec<Option<usize>> = Vec::new();
        if !schema.has_headers {
            let ncols = schema.columns.len();
            let mut k: usize = 0;
            while k < ncols
                invariant
                    0 <= k <= ncols,
                    schema_to_input@.len() == k,
                    forall|j: int| 0 <= j < k ==> schema_to_input@[j] == Some(j as usize),
                decreases ncols - k,
            {
                schema_to_input.push(Some(k));
                k = k + 1;
            }
            proof {
                assert(schema_to_input@ =~= Seq::new(
                    schema.columns@.len(),
                    |k: int| Some(k as usize),
                ));
            }
        }
        ValidatorEngine {
            schema,
            rdr,
            out,
            ends,
            outpos: 0,
            endpos: 0,
            header_parsed: headerless,
            input_to_schema: Vec::new(),
            schema_to_input,
            data_row: 0,
            errors: Vec::new(),
            recorded: 0,
            drained: Ghost(0nat),
            max_errors,
            emit_normalized,
            normalized: Vec::new(),
            normalized_limit: NORMALIZED_LIMIT,
        }
    }

    /// Whether the error budget is exhausted.
    pub fn hit_error_limit(&self) -> (r: bool)
        ensures
            r == (self.recorded >= self.max_errors),
    {
        self.recorded >= self.max_errors
    }

    /// Drains up to `max` findings, oldest first, two words each.
    pub fn take_errors_packed(&mut self, max: u32) -> (r: Vec<u32>)
        requires
            old(self).wf(),
        ensures
            final(self).wf(),
            r@.len() == 2 * spec_min(max as int, old(self).errors@.len() as int),
            forall|i: int|
                0 <= i < spec_min(max as int, old(self).errors@.len() as int) ==> r@[2 * i]
                    == old(self).errors@[i].row && r@[2 * i + 1] == spec_word1(
                    old(self).errors@[i],
                ),
            final(self).errors@ == old(self).errors@.skip(
                spec_min(max as int, old(self).errors@.len() as int),
            ),
            final(self).drained@ == old(self).drained@ + spec_min(
                max as int,
                old(self).errors@.len() as int,
            ),
            final(self).recorded == old(self).recorded,
            final(self).max_errors == old(self).max_errors,
            final(self).schema == old(self).schema,
            final(self).data_row == old(self).data_row,
            final(self).normalized == old(self).normalized,
            final(self).header_parsed == old(self).header_parsed,
    {
        let len = self.errors.len();
        let n: usize = if (max as usize) < len {
            max as usize
        } else {
            len
        };
        let mut r: Vec<u32> = Vec::new();
        let mut i: usize = 0;
        while i < n
            invariant
                0 <= i <= n <= self.errors@.len(),
                r@.len() == 2 * i,
                forall|t: int|
                    0 <= t < i ==> r@[2 * t] == self.errors@[t].row && r@[2 * t + 1] == spec_word1(
                        self.errors@[t],
                    ),
                forall|t: int|
                    0 <= t < self.errors@.len() ==> (#[trigger] self.errors@[t]).fits(),
                self.errors@ == old(self).errors@,
            decreases n - i,
        {
            let w = self.errors[i].to_words();
            r.push(w[0]);
            r.push(w[1]);
            i = i + 1;
        }
        let mut rest: Vec<PackedError> = Vec::new();
        let mut j: usize = n;
        while j < len
            invariant
                n <= j <= len,
                len == self.errors@.len(),
                rest@ == self.errors@.subrange(n as int, j as int),
                self.errors@ == old(self).errors@,
            decreases len - j,
        {
            rest.push(self.errors[j]);
            proof {
                assert(self.errors@.subrange(n as int, j + 1 as int) =~= self.errors@.subrange(
                    n as int,
                    j as int,
                ).push(self.errors@[j as int]));
            }
            j = j + 1;
        }
        self.errors = rest;
        proof {
            assert(self.errors@ =~= old(self).errors@.skip(n as int));
        }
        self.drained = Ghost(self.drained@ + n as nat);
        r
    }

    /// Drains all buffered normalized bytes, leaving the buffer empty.
    pub fn take_normalized(&mut self) -> (r: Vec<u8>)
        requires
            old(self).wf(),
        ensures
            final(self).wf(),
            r@ == old(self).normalized@,
            final(self).normalized@.len() == 0,
            final(self).errors == old(self).errors,
            final(self).recorded == old(self).recorded,
            final(self).drained@ == old(self).drained@,
            final(self).max_errors == old(self).max_errors,
            final(self).schema == old(self).schema,
            final(self).data_row == old(self).data_row,
            final(self).header_parsed == old(self).header_parsed,
    {
        let mut v: Vec<u8> = Vec::new();
        core::mem::swap(&mut self.normalized, &mut v);
        v
    }

    /// The schema's column names, in schema order.
    pub fn schema_column_names(&self) -> (r: Vec<Vec<u8>>)
        ensures
            r@.len() == self.schema.columns@.len(),
            forall|k: int|
                0 <= k < r@.len() ==> r@[k]@ == self.schema.columns@[k].name@,
    {
        let n = self.schema.columns.len();
        let mut r: Vec<Vec<u8>> = Vec::new();
        let mut k: usize = 0;
        while k < n
            invariant
                0 <= k <= n,
                n == self.schema.columns@.len(),
                r@.len() == k,
                forall|t: int| 0 <= t < k ==> r@[t]@ == self.schema.columns@[t].name@,
            decreases n - k,
        {
            r.push(copy_bytes(self.schema.columns[k].name.as_slice()));
            k = k + 1;
        }
        r
    }

    /// The stable name of a packed error code; `Unknown` for values
    /// outside the encoding.
    pub fn error_code_to_string(code: u8) -> (r: String)
        ensures
            r@ == spec_code_name(code),
    {
        if code == 1 {
            "MissingRequired".to_owned()
        } else if code == 2 {
            "InvalidType".to_owned()
        } else if code == 3 {
            "MaxLengthExceeded".to_owned()
        } else if code == 4 {
            "NotAllowed".to_owned()
        } else if code == 5 {
            "InvalidUtf8".to_owned()
        } else if code == 6 {
            "MissingRequiredColumn".to_owned()
        } else if code == 7 {
            "ExtraColumn".to_owned()
        } else {
            "Unknown".to_owned()
        }
    }
}

/// The smaller of two values.
pub open spec fn spec_min(a: int, b: int) -> int {
    if a < b {
        a
    } else {
        b
    }
}

/// The first `budget` entries of a finding sequence: what a bounded
/// error sink keeps of it.
pub open spec fn take_cap(s: Seq<PackedError>, budget: int) -> Seq<PackedError> {
    s.take(spec_min(budget, s.len() as int))
}

/// A finding, its column clamped into the packable 23-bit range.
pub open spec fn mk_err(row: u32, col: int, code: ErrorCode, kind: ColKind) -> PackedError {
    PackedError {
        row,
        col: if 0 <= col <= MAX_PACKED_COL as int {
            col as u32
        } else {
            MAX_PACKED_COL
        },
        code,
        kind,
    }
}

proof fn lemma_take_cap_push(s: Seq<PackedError>, e: PackedError, b: int)
    requires
        b >= 0,
    ensures
        s.len() < b ==> take_cap(s.push(e), b) == take_cap(s, b).push(e),
        s.len() >= b ==> take_cap(s.push(e), b) == take_cap(s, b),
{
    if s.len() < b {
        assert(take_cap(s.push(e), b) =~= take_cap(s, b).push(e));
    } else {
        assert(take_cap(s.push(e), b) =~= take_cap(s, b));
    }
}

proof fn lemma_take_cap_prefix(done: Seq<PackedError>, rest: Seq<PackedError>, b: int)
    requires
        0 <= b <= done.len(),
    ensures
        take_cap(done + rest, b) == take_cap(done, b),
{
    assert(take_cap(done + rest, b) =~= take_cap(done, b));
}

/// One data row saturates the 1-based row counter at its maximum.
pub open spec fn sat_inc(x: u32) -> u32 {
    if x == 0xFFFF_FFFFu32 {
        x
    } else {
        (x + 1) as u32
    }
}

/// The schema column fed by input column `j` of a data row, if any.
pub open spec fn spec_col_of_input(schema: Schema, i2s: Seq<Option<usize>>, j: int) -> Option<
    int,
> {
    if schema.has_headers {
        if 0 <= j < i2s.len() {
            match i2s[j] {
                Some(k) => Some(k as int),
                None => None,
            }
        } else {
            None
        }
    } else {
        if 0 <= j < schema.columns@.len() {
            Some(j)
        } else {
            None
        }
    }
}

/// The findings the fields of one data row raise, in input order, from
/// field `j` on: each mapped field's check, and an extra-column finding
/// for unmapped fields when the schema demands it.
pub open spec fn spec_field_findings(
    schema: Schema,
    i2s: Seq<Option<usize>>,
    fields: Seq<Seq<u8>>,
    row: u32,
    j: int,
) -> Seq<PackedError>
    decreases fields.len() - j,
{
    if j < 0 || j >= fields.len() {
        Seq::empty()
    } else {
        let head: Seq<PackedError> = match spec_col_of_input(schema, i2s, j) {
            Some(k) => match spec_field_error(schema.columns@[k], fields[j]) {
                Some(code) => seq![mk_err(row, k, code, ColKind::Schema)],
                None => Seq::empty(),
            },
            None => if schema.fail_on_extra_columns {
                seq![mk_err(row, j, ErrorCode::ExtraColumn, ColKind::Input)]
            } else {
                Seq::empty()
            },
        };
        head + spec_field_findings(schema, i2s, fields, row, j + 1)
    }
}

/// The findings a short headerless row raises for the required columns
/// it does not reach, in schema order from column `k` on.
pub open spec fn spec_missing_findings(schema: Schema, nfields: int, row: u32, k: int) -> Seq<
    PackedError,
>
    decreases schema.columns@.len() - k,
{
    if schema.has_headers || k < 0 || k >= schema.columns@.len() {
        Seq::empty()
    } else {
        let head: Seq<PackedError> = if k >= nfields && schema.columns@[k].required {
            seq![mk_err(row, k, ErrorCode::MissingRequired, ColKind::Schema)]
        } else {
            Seq::empty()
        };
        head + spec_missing_findings(schema, nfields, row, k + 1)
    }
}

/// Every finding one data row raises, in discovery order, before the
/// error budget is applied.
pub open spec fn spec_row_findings(
    schema: Schema,
    i2s: Seq<Option<usize>>,
    fields: Seq<Seq<u8>>,
    row: u32,
) -> Seq<PackedError> {
    spec_field_findings(schema, i2s, fields, row, 0) + spec_missing_findings(
        schema,
        fields.len() as int,
        row,
        fields.len() as int,
    )
}

impl ValidatorEngine {
    /// Records one finding unless the budget is spent; the column index
    /// is clamped into the packable range.
    fn push_err(&mut self, row: u32, col: usize, code: ErrorCode, kind: ColKind)
        requires
            old(self).wf(),
        ensures
            final(self).wf(),
            same_but_errors(*old(self), *final(self)),
            old(self).recorded < old(self).max_errors ==> final(self).errors@ == old(
                self,
            ).errors@.push(mk_err(row, col as int, code, kind)) && final(self).recorded == old(
                self,
            ).recorded + 1,
            old(self).recorded >= old(self).max_errors ==> final(self).errors@ == old(
                self,
            ).errors@ && final(self).recorded == old(self).recorded,
    {
        if self.recorded >= self.max_errors {
            return ;
        }
        let c: u32 = if col > 0x7FFFFFusize {
            0x7FFFFFu32
        } else {
            col as u32
        };
        self.errors.push(PackedError { row, col: c, code, kind });
        self.recorded = self.recorded + 1;
    }
}

/// Everything except the error queue and its counter is the same.
pub open spec fn same_but_errors(a: ValidatorEngine, b: ValidatorEngine) -> bool {
    &&& b.schema == a.schema
    &&& b.header_parsed == a.header_parsed
    &&& b.input_to_schema == a.input_to_schema
    &&& b.schema_to_input == a.schema_to_input
    &&& b.data_row == a.data_row
    &&& b.drained == a.drained
    &&& b.max_errors == a.max_errors
    &&& b.emit_normalized == a.emit_normalized
    &&& b.normalized == a.normalized
    &&& b.normalized_limit == a.normalized_limit
    &&& b.out == a.out
    &&& b.ends == a.ends
    &&& b.rdr == a.rdr
}

/// The first header field without a UTF-8 byte-order mark.
pub open spec fn spec_strip_bom(f: Seq<u8>) -> Seq<u8> {
    if f.len() >= 3 && f[0] == 0xEF && f[1] == 0xBB && f[2] == 0xBF {
        f.subrange(3, f.len() as int)
    } else {
        f
    }
}

/// The decoded name of header field `j`: byte-order mark stripped on the
/// first field, trimmed, and `None` when the bytes are not UTF-8. An
/// undecodable field keeps its position, so later columns stay aligned.
pub open spec fn spec_header_name(fields: Seq<Seq<u8>>, j: int) -> Option<Seq<u8>> {
    if 0 <= j < fields.len() {
        let raw = if j == 0 {
            spec_strip_bom(fields[0])
        } else {
            fields[j]
        };
        let t = crate::fields::spec_trim(raw);
        if vstd::utf8::valid_utf8(t) {
            Some(t)
        } else {
            None
        }
    } else {
        None
    }
}

/// The first schema column named `nm`, from column `k` on.
pub open spec fn spec_first_col_named(cols: Seq<ColumnSpec>, nm: Seq<u8>, k: int) -> Option<int>
    decreases cols.len() - k,
{
    if k < 0 || k >= cols.len() {
        None
    } else if cols[k].name@ == nm {
        Some(k)
    } else {
        spec_first_col_named(cols, nm, k + 1)
    }
}

/// The first header field whose decoded name is `nm`, from field `j` on.
pub open spec fn spec_first_input_named(fields: Seq<Seq<u8>>, nm: Seq<u8>, j: int) -> Option<int>
    decreases fields.len() - j,
{
    if j < 0 || j >= fields.len() {
        None
    } else if spec_header_name(fields, j) == Some(nm) {
        Some(j)
    } else {
        spec_first_input_named(fields, nm, j + 1)
    }
}

/// Where input column `j` maps: to the first schema column of its name,
/// and only for the first input column bearing that name, so that the
/// two mappings stay exact inverses of each other.
pub open spec fn spec_i2s_at(cols: Seq<ColumnSpec>, fields: Seq<Seq<u8>>, j: int) -> Option<
    usize,
> {
    match spec_header_name(fields, j) {
        None => None,
        Some(nm) => match spec_first_col_named(cols, nm, 0) {
            None => None,
            Some(k) => if spec_first_input_named(fields, nm, 0) == Some(j) {
                Some(k as usize)
            } else {
                None
            },
        },
    }
}

/// Where schema column `k` reads from: the first input column bearing
/// its name, and only when `k` is the first schema column of that name.
pub open spec fn spec_s2i_at(cols: Seq<ColumnSpec>, fields: Seq<Seq<u8>>, k: int) -> Option<
    usize,
> {
    if 0 <= k < cols.len() && spec_first_col_named(cols, cols[k].name@, 0) == Some(k) {
        match spec_first_input_named(fields, cols[k].name@, 0) {
            Some(j) => Some(j as usize),
            None => None,
        }
    } else {
        None
    }
}

/// The header findings for fields that do not decode as UTF-8, in input
/// order from field `j` on.
pub open spec fn spec_utf8_findings(fields: Seq<Seq<u8>>, j: int) -> Seq<PackedError>
    decreases fields.len() - j,
{
    if j < 0 || j >= fields.len() {
        Seq::empty()
    } else {
        let head: Seq<PackedError> = if spec_header_name(fields, j) is None {
            seq![mk_err(0, 0, ErrorCode::InvalidUtf8, ColKind::Schema)]
        } else {
            Seq::empty()
        };
        head + spec_utf8_findings(fields, j + 1)
    }
}

/// The header findings for required columns whose name no header field
/// bears, in schema order from column `k` on.
pub open spec fn spec_missing_col_findings(
    cols: Seq<ColumnSpec>,
    fields: Seq<Seq<u8>>,
    k: int,
) -> Seq<PackedError>
    decreases cols.len() - k,
{
    if k < 0 || k >= cols.len() {
        Seq::empty()
    } else {
        let head: Seq<PackedError> = if cols[k].required && spec_first_input_named(
            fields,
            cols[k].name@,
            0,
        ) is None {
            seq![mk_err(0, k, ErrorCode::MissingRequiredColumn, ColKind::Schema)]
        } else {
            Seq::empty()
        };
        head + spec_missing_col_findings(cols, fields, k + 1)
    }
}

/// Every finding the header row raises, in discovery order: undecodable
/// fields first, then missing required columns.
pub open spec fn spec_header_findings(cols: Seq<ColumnSpec>, fields: Seq<Seq<u8>>) -> Seq<
    PackedError,
> {
    spec_utf8_findings(fields, 0) + spec_missing_col_findings(cols, fields, 0)
}

proof fn lemma_first_col_named_from(cols: Seq<ColumnSpec>, nm: Seq<u8>, s: int, k: int)
    requires
        0 <= s <= k < cols.len(),
        cols[k].name@ == nm,
        forall|t: int| s <= t < k ==> cols[t].name@ != nm,
    ensures
        spec_first_col_named(cols, nm, s) == Some(k),
    decreases k - s,
{
    if s < k {
        lemma_first_col_named_from(cols, nm, s + 1, k);
    }
}

proof fn lemma_first_col_named_none_from(cols: Seq<ColumnSpec>, nm: Seq<u8>, s: int)
    requires
        forall|t: int| s <= t < cols.len() ==> cols[t].name@ != nm,
    ensures
        spec_first_col_named(cols, nm, s) is None,
    decreases cols.len() - s,
{
    if 0 <= s < cols.len() {
        lemma_first_col_named_none_from(cols, nm, s + 1);
    }
}

proof fn lemma_first_input_named_from(fields: Seq<Seq<u8>>, nm: Seq<u8>, s: int, j: int)
    requires
        0 <= s <= j < fields.len(),
        spec_header_name(fields, j) == Some(nm),
        forall|t: int| s <= t < j ==> spec_header_name(fields, t) != Some(nm),
    ensures
        spec_first_input_named(fields, nm, s) == Some(j),
    decreases j - s,
{
    if s < j {
        lemma_first_input_named_from(fields, nm, s + 1, j);
    }
}

proof fn lemma_first_input_named_none_from(fields: Seq<Seq<u8>>, nm: Seq<u8>, s: int)
    requires
        forall|t: int| s <= t < fields.len() ==> spec_header_name(fields, t) != Some(nm),
    ensures
        spec_first_input_named(fields, nm, s) is None,
    decreases fields.len() - s,
{
    if 0 <= s < fields.len() {
        lemma_first_input_named_none_from(fields, nm, s + 1);
    }
}

/// The error sink's state after recording the findings in `done`, one by
/// one, against the budget that was left at the start.
pub open spec fn sink_state(
    old_errors: Seq<PackedError>,
    old_recorded: u32,
    max: u32,
    done: Seq<PackedError>,
    errors: Seq<PackedError>,
    recorded: u32,
) -> bool {
    &&& errors == old_errors + take_cap(done, max - old_recorded)
    &&& recorded == old_recorded + spec_min(done.len() as int, max - old_recorded)
}

proof fn lemma_sink_push(
    old_errors: Seq<PackedError>,
    old_recorded: u32,
    max: u32,
    done: Seq<PackedError>,
    errors: Seq<PackedError>,
    recorded: u32,
    e: PackedError,
)
    requires
        old_recorded <= max,
        sink_state(old_errors, old_recorded, max, done, errors, recorded),
    ensures
        recorded < max ==> sink_state(
            old_errors,
            old_recorded,
            max,
            done.push(e),
            errors.push(e),
            (recorded + 1) as u32,
        ),
        recorded >= max ==> sink_state(old_errors, old_recorded, max, done.push(e), errors, recorded),
{
    let b = max - old_recorded;
    lemma_take_cap_push(done, e, b);
    if recorded < max {
        assert(done.len() < b);
        assert(old_errors + take_cap(done, b).push(e) =~= (old_errors + take_cap(done, b)).push(e));
    }
}

proof fn lemma_first_col_named_range(cols: Seq<ColumnSpec>, nm: Seq<u8>, s: int)
    ensures
        match spec_first_col_named(cols, nm, s) {
            Some(k) => s <= k < cols.len(),
            None => true,
        },
    decreases cols.len() - s,
{
    if 0 <= s < cols.len() {
        lemma_first_col_named_range(cols, nm, s + 1);
    }
}

/// The first decoded header name equal to `colname`, if any.
fn find_named(names: &Vec<Option<Vec<u8>>>, colname: &[u8], Ghost(gf): Ghost<Seq<Seq<u8>>>) -> (r:
    Option<usize>)
    requires
        names@.len() == gf.len(),
        forall|t: int|
            0 <= t < names@.len() ==> match #[trigger] names@[t] {
                Some(v) => spec_header_name(gf, t) == Some(v@),
                None => spec_header_name(gf, t) is None,
            },
    ensures
        match r {
            Some(t0) => {
                &&& (t0 as int) < gf.len()
                &&& spec_header_name(gf, t0 as int) == Some(colname@)
                &&& forall|q: int| 0 <= q < t0 as int ==> spec_header_name(gf, q) != Some(colname@)
            },
            None => forall|q: int| 0 <= q < gf.len() ==> spec_header_name(gf, q) != Some(colname@),
        },
{
    let nf = names.len();
    let mut t0: usize = 0;
    while t0 < nf
        invariant
            0 <= t0 <= nf,
            nf == names@.len(),
            names@.len() == gf.len(),
            forall|t: int|
                0 <= t < names@.len() ==> match #[trigger] names@[t] {
                    Some(v) => spec_header_name(gf, t) == Some(v@),
                    None => spec_header_name(gf, t) is None,
                },
            forall|q: int| 0 <= q < t0 ==> spec_header_name(gf, q) != Some(colname@),
        decreases nf - t0,
    {
        let hit: bool = match &names[t0] {
            Some(nm) => crate::fields::bytes_eq(nm.as_slice(), colname),
            None => false,
        };
        if hit {
            return Some(t0);
        }
        t0 = t0 + 1;
    }
    None
}

impl ValidatorEngine {
    /// Reconciles the header record with the schema: decodes the header
    /// names, builds the two column mappings as exact inverses, and
    /// records the header findings against the budget.
    #[verifier::rlimit(100)]
    fn parse_header(&mut self, fields: &Vec<Vec<u8>>)
        requires
            old(self).wf(),
        ensures
            final(self).wf(),
            final(self).errors@ == old(self).errors@ + take_cap(
                spec_header_findings(old(self).schema.columns@, views_of(fields@)),
                old(self).max_errors - old(self).recorded,
            ),
            final(self).recorded == old(self).recorded + spec_min(
                spec_header_findings(old(self).schema.columns@, views_of(fields@)).len() as int,
                old(self).max_errors - old(self).recorded,
            ),
            final(self).input_to_schema@.len() == fields@.len(),
            forall|j: int|
                0 <= j < fields@.len() ==> final(self).input_to_schema@[j] == spec_i2s_at(
                    old(self).schema.columns@,
                    views_of(fields@),
                    j,
                ),
            final(self).schema_to_input@.len() == old(self).schema.columns@.len(),
            forall|k: int|
                0 <= k < old(self).schema.columns@.len() ==> final(self).schema_to_input@[k]
                    == spec_s2i_at(old(self).schema.columns@, views_of(fields@), k),
            final(self).schema == old(self).schema,
            final(self).data_row == old(self).data_row,
            final(self).normalized == old(self).normalized,
            final(self).header_parsed == old(self).header_parsed,
            final(self).drained == old(self).drained,
            final(self).max_errors == old(self).max_errors,
            final(self).emit_normalized == old(self).emit_normalized,
            final(self).normalized_limit == old(self).normalized_limit,
            final(self).out == old(self).out,
            final(self).ends == old(self).ends,
            final(self).rdr == old(self).rdr,
    {
        let ghost gf = views_of(fields@);
        let ghost cols = old(self).schema.columns@;
        let ghost oe = old(self).errors@;
        let ghost orec = old(self).recorded;
        let nf = fields.len();
        let ncols = self.schema.columns.len();
        // Decode the header names; an undecodable field keeps its slot.
        let mut names: Vec<Option<Vec<u8>>> = Vec::new();
        let ghost mut done: Seq<PackedError> = Seq::empty();
        proof {
            assert(oe + take_cap(done, self.max_errors - orec) =~= oe);
        }
        let mut j: usize = 0;
        while j < nf
            invariant
                0 <= j <= nf,
                nf == fields@.len(),
                gf == views_of(fields@),
                cols == self.schema.columns@,
                old(self).wf(),
                self.wf(),
                orec == old(self).recorded,
                oe == old(self).errors@,
                same_but_errors(*old(self), *self),
                names@.len() == j,
                forall|t: int|
                    0 <= t < j ==> match #[trigger] names@[t] {
                        Some(v) => spec_header_name(gf, t) == Some(v@),
                        None => spec_header_name(gf, t) is None,
                    },
                done + spec_utf8_findings(gf, j as int) == spec_utf8_findings(gf, 0),
                sink_state(oe, orec, self.max_errors, done, self.errors@, self.recorded),
            decreases nf - j,
        {
            let field_slice: &[u8] = fields[j].as_slice();
            let raw: &[u8] = if j == 0 && field_slice.len() >= 3 && field_slice[0] == 0xEF
                && field_slice[1] == 0xBB && field_slice[2] == 0xBF {
                &field_slice[3..field_slice.len()]
            } else {
                field_slice
            };
            proof {
                assert(field_slice@ == gf[j as int]);
                if j == 0 {
                    assert(raw@ =~= spec_strip_bom(gf[0]));
                }
            }
            let t = crate::fields::trim_ascii(raw);
            let ghost head: Seq<PackedError> = if spec_header_name(gf, j as int) is None {
                seq![mk_err(0, 0, ErrorCode::InvalidUtf8, ColKind::Schema)]
            } else {
                Seq::<PackedError>::empty()
            };
            proof {
                assert(spec_utf8_findings(gf, j as int) == head + spec_utf8_findings(
                    gf,
                    j + 1 as int,
                ));
                assert((done + head) + spec_utf8_findings(gf, j + 1 as int) =~= done + (head
                    + spec_utf8_findings(gf, j + 1 as int)));
            }
            if crate::fields::is_utf8(t.as_slice()) {
                names.push(Some(t));
                proof {
                    assert(done + head =~= done);
                }
            } else {
                proof {
                    lemma_sink_push(
                        oe,
                        orec,
                        self.max_errors,
                        done,
                        self.errors@,
                        self.recorded,
                        mk_err(0, 0, ErrorCode::InvalidUtf8, ColKind::Schema),
                    );
                }
                self.push_err(0, 0, ErrorCode::InvalidUtf8, ColKind::Schema);
                proof {
                    done = done.push(mk_err(0, 0, ErrorCode::InvalidUtf8, ColKind::Schema));
                    assert(done =~= done.drop_last() + head);
                }
                names.push(None);
            }
            j = j + 1;
        }
        proof {
            assert(done == spec_utf8_findings(gf, 0));
        }
        // Build the two mappings as exact inverses: an input column maps
        // only when it is the first of its name, to the first schema
        // column of that name.
        let mut s2i: Vec<Option<usize>> = Vec::new();
        let mut k: usize = 0;
        while k < ncols
            invariant
                0 <= k <= ncols,
                s2i@.len() == k,
                forall|t: int| 0 <= t < k ==> s2i@[t] is None,
            decreases ncols - k,
        {
            s2i.push(None);
            k = k + 1;
        }
        let mut i2s: Vec<Option<usize>> = Vec::new();
        let mut j2: usize = 0;
        while j2 < nf
            invariant
                0 <= j2 <= nf,
                nf == fields@.len(),
                gf == views_of(fields@),
                cols == self.schema.columns@,
                ncols == cols.len(),
                names@.len() == nf,
                forall|t: int|
                    0 <= t < nf ==> match #[trigger] names@[t] {
                        Some(v) => spec_header_name(gf, t) == Some(v@),
                        None => spec_header_name(gf, t) is None,
                    },
                i2s@.len() == j2,
                s2i@.len() == ncols,
                forall|t: int| 0 <= t < j2 ==> i2s@[t] == spec_i2s_at(cols, gf, t),
                forall|t: int|
                    0 <= t < j2 ==> match #[trigger] i2s@[t] {
                        Some(k) => k < ncols,
                        None => true,
                    },
                forall|q: int|
                    0 <= q < ncols ==> match #[trigger] s2i@[q] {
                        Some(j0) => {
                            &&& (j0 as int) < j2
                            &&& spec_header_name(gf, j0 as int) == Some(cols[q].name@)
                            &&& spec_first_col_named(cols, cols[q].name@, 0) == Some(q)
                            &&& forall|t: int|
                                0 <= t < j0 as int ==> spec_header_name(gf, t) != Some(
                                    cols[q].name@,
                                )
                        },
                        None => spec_first_col_named(cols, cols[q].name@, 0) != Some(q) || forall|
                            t: int,
                        | 0 <= t < j2 ==> spec_header_name(gf, t) != Some(cols[q].name@),
                    },
            decreases nf - j2,
        {
            let mut mapped: Option<usize> = None;
            match &names[j2] {
                Some(nm) => {
                    let mut k0: usize = 0;
                    while k0 < ncols && !crate::fields::bytes_eq(
                        self.schema.columns[k0].name.as_slice(),
                        nm.as_slice(),
                    )
                        invariant
                            0 <= k0 <= ncols,
                            cols == self.schema.columns@,
                            ncols == cols.len(),
                            forall|t: int| 0 <= t < k0 ==> cols[t].name@ != nm@,
                        decreases ncols - k0,
                    {
                        k0 = k0 + 1;
                    }
                    if k0 < ncols {
                        proof {
                            lemma_first_col_named_from(cols, nm@, 0, k0 as int);
                        }
                        let taken: bool = match s2i[k0] {
                            Some(_) => true,
                            None => false,
                        };
                        if !taken {
                            proof {
                                assert(forall|t: int|
                                    0 <= t < j2 ==> spec_header_name(gf, t) != Some(nm@));
                                lemma_first_input_named_from(gf, nm@, 0, j2 as int);
                            }
                            mapped = Some(k0);
                            s2i.set(k0, Some(j2));
                        } else {
                            proof {
                                let j0 = s2i@[k0 as int]->Some_0;
                                lemma_first_input_named_from(gf, nm@, 0, j0 as int);
                            }
                        }
                    } else {
                        proof {
                            lemma_first_col_named_none_from(cols, nm@, 0);
                        }
                    }
                },
                None => {},
            }
            i2s.push(mapped);
            j2 = j2 + 1;
        }
        self.input_to_schema = i2s;
        self.schema_to_input = s2i;
        proof {
            assert forall|q: int| 0 <= q < ncols implies self.schema_to_input@[q] == spec_s2i_at(
                cols,
                gf,
                q,
            ) by {
                match self.schema_to_input@[q] {
                    Some(j0) => {
                        lemma_first_input_named_from(gf, cols[q].name@, 0, j0 as int);
                    },
                    None => {
                        if spec_first_col_named(cols, cols[q].name@, 0) == Some(q) {
                            lemma_first_input_named_none_from(gf, cols[q].name@, 0);
                        }
                    },
                }
            }
        }
        // Report required columns whose name no header field bears.
        let ghost fnds = spec_header_findings(cols, gf);
        proof {
            assert(done + spec_missing_col_findings(cols, gf, 0) == fnds);
        }
        let mut k2: usize = 0;
        while k2 < ncols
            invariant
                0 <= k2 <= ncols,
                nf == fields@.len(),
                gf == views_of(fields@),
                cols == self.schema.columns@,
                ncols == cols.len(),
                old(self).wf(),
                self.wf(),
                orec == old(self).recorded,
                oe == old(self).errors@,
                fnds == spec_header_findings(cols, gf),
                names@.len() == nf,
                forall|t: int|
                    0 <= t < nf ==> match #[trigger] names@[t] {
                        Some(v) => spec_header_name(gf, t) == Some(v@),
                        None => spec_header_name(gf, t) is None,
                    },
                self.schema == old(self).schema,
                self.data_row == old(self).data_row,
                self.normalized == old(self).normalized,
                self.header_parsed == old(self).header_parsed,
                self.drained == old(self).drained,
                self.max_errors == old(self).max_errors,
                self.emit_normalized == old(self).emit_normalized,
                self.normalized_limit == old(self).normalized_limit,
                self.out == old(self).out,
                self.ends == old(self).ends,
                self.rdr == old(self).rdr,
                self.input_to_schema@.len() == fields@.len(),
                forall|t: int|
                    0 <= t < fields@.len() ==> self.input_to_schema@[t] == spec_i2s_at(
                        cols,
                        gf,
                        t,
                    ),
                self.schema_to_input@.len() == ncols,
                forall|q: int|
                    0 <= q < ncols ==> self.schema_to_input@[q] == spec_s2i_at(cols, gf, q),
                done + spec_missing_col_findings(cols, gf, k2 as int) == fnds,
                sink_state(oe, orec, self.max_errors, done, self.errors@, self.recorded),
            decreases ncols - k2,
        {
            let ghost head: Seq<PackedError> = if cols[k2 as int].required
                && spec_first_input_named(gf, cols[k2 as int].name@, 0) is None {
                seq![mk_err(0, k2 as int, ErrorCode::MissingRequiredColumn, ColKind::Schema)]
            } else {
                Seq::<PackedError>::empty()
            };
            proof {
                assert(spec_missing_col_findings(cols, gf, k2 as int) == head
                    + spec_missing_col_findings(cols, gf, k2 + 1 as int));
                assert((done + head) + spec_missing_col_findings(cols, gf, k2 + 1 as int) =~= done
                    + (head + spec_missing_col_findings(cols, gf, k2 + 1 as int)));
            }
            if self.schema.columns[k2].required {
                let colname = &self.schema.columns[k2].name;
                let found = find_named(&names, colname.as_slice(), Ghost(gf));
                if found.is_none() {
                    proof {
                        lemma_first_input_named_none_from(gf, cols[k2 as int].name@, 0);
                        lemma_sink_push(
                            oe,
                            orec,
                            self.max_errors,
                            done,
                            self.errors@,
                            self.recorded,
                            mk_err(0, k2 as int, ErrorCode::MissingRequiredColumn, ColKind::Schema),
                        );
                    }
                    self.push_err(0, k2, ErrorCode::MissingRequiredColumn, ColKind::Schema);
                    proof {
                        done = done.push(
                            mk_err(0, k2 as int, ErrorCode::MissingRequiredColumn, ColKind::Schema),
                        );
                        assert(done =~= done.drop_last() + head);
                    }
                } else {
                    proof {
                        let t0 = found->Some_0;
                        lemma_first_input_named_from(gf, cols[k2 as int].name@, 0, t0 as int);
                        assert(done + head =~= done);
                    }
                }
            } else {
                proof {
                    assert(done + head =~= done);
                }
            }
            k2 = k2 + 1;
        }
        proof {
            assert(done == fnds);
        }
    }
}

/// Whether one data row reaches the normalized writer: the field pass
/// and the short-row pass must finish without exhausting the budget at a
/// checkpoint, emission must be on, and the buffer must be under its
/// limit.
pub open spec fn spec_norm_ok(e: ValidatorEngine, fields: Seq<Seq<u8>>) -> bool {
    let row = sat_inc(e.data_row);
    let ff = spec_field_findings(e.schema, e.input_to_schema@, fields, row, 0);
    let all = spec_row_findings(e.schema, e.input_to_schema@, fields, row);
    &&& (fields.len() == 0 || e.recorded as int + ff.len() < e.max_errors as int)
    &&& (all.len() == ff.len() || e.recorded as int + all.len() < e.max_errors as int)
    &&& e.emit_normalized
    &&& e.normalized@.len() < e.normalized_limit
}

/// The normalized buffer after one data row: the rendered row when the
/// row reaches the writer, the old buffer otherwise.
pub open spec fn spec_norm_result(e: ValidatorEngine, fields: Seq<Seq<u8>>) -> Seq<u8> {
    if spec_norm_ok(e, fields) {
        spec_row_append(
            e.normalized@,
            e.normalized_limit as nat,
            e.schema.columns@,
            e.schema.has_headers,
            e.schema_to_input@,
            fields,
            e.schema.delimiter,
            0,
        )
    } else {
        e.normalized@
    }
}

impl ValidatorEngine {
    /// Dispatches one record from the tokenizer: the first record of a
    /// headered schema reconciles the header; every other record is a
    /// data row, which is counted, validated field by field against the
    /// budget, checked for missing required columns when headerless and
    /// short, and then rendered into the normalized buffer if nothing
    /// cut the row short.
    #[verifier::rlimit(100)]
    fn handle_record(&mut self, fields: &Vec<Vec<u8>>)
        requires
            old(self).wf(),
        ensures
            final(self).wf(),
            final(self).schema == old(self).schema,
            final(self).drained == old(self).drained,
            final(self).max_errors == old(self).max_errors,
            final(self).emit_normalized == old(self).emit_normalized,
            final(self).normalized_limit == old(self).normalized_limit,
            final(self).out == old(self).out,
            final(self).ends == old(self).ends,
            final(self).rdr == old(self).rdr,
            (old(self).schema.has_headers && !old(self).header_parsed) ==> {
                &&& final(self).header_parsed
                &&& final(self).data_row == old(self).data_row
                &&& final(self).normalized == old(self).normalized
                &&& final(self).errors@ == old(self).errors@ + take_cap(
                    spec_header_findings(old(self).schema.columns@, views_of(fields@)),
                    old(self).max_errors - old(self).recorded,
                )
                &&& final(self).recorded == old(self).recorded + spec_min(
                    spec_header_findings(old(self).schema.columns@, views_of(fields@)).len() as int,
                    old(self).max_errors - old(self).recorded,
                )
                &&& final(self).input_to_schema@.len() == fields@.len()
                &&& forall|j: int|
                    0 <= j < fields@.len() ==> final(self).input_to_schema@[j] == spec_i2s_at(
                        old(self).schema.columns@,
                        views_of(fields@),
                        j,
                    )
                &&& final(self).schema_to_input@.len() == old(self).schema.columns@.len()
                &&& forall|k: int|
                    0 <= k < old(self).schema.columns@.len() ==> final(self).schema_to_input@[k]
                        == spec_s2i_at(old(self).schema.columns@, views_of(fields@), k)
            },
            !(old(self).schema.has_headers && !old(self).header_parsed) ==> {
                &&& final(self).header_parsed == old(self).header_parsed
                &&& final(self).input_to_schema == old(self).input_to_schema
                &&& final(self).schema_to_input == old(self).schema_to_input
                &&& final(self).data_row == sat_inc(old(self).data_row)
                &&& final(self).errors@ == old(self).errors@ + take_cap(
                    spec_row_findings(
                        old(self).schema,
                        old(self).input_to_schema@,
                        views_of(fields@),
                        sat_inc(old(self).data_row),
                    ),
                    old(self).max_errors - old(self).recorded,
                )
                &&& final(self).recorded == old(self).recorded + spec_min(
                    spec_row_findings(
                        old(self).schema,
                        old(self).input_to_schema@,
                        views_of(fields@),
                        sat_inc(old(self).data_row),
                    ).len() as int,
                    old(self).max_errors - old(self).recorded,
                )
                &&& final(self).normalized@ == spec_norm_result(*old(self), views_of(fields@))
            },
    {
        if self.schema.has_headers && !self.header_parsed {
            self.parse_header(fields);
            self.header_parsed = true;
            return ;
        }
        let ghost gf = views_of(fields@);
        let ghost oe = old(self).errors@;
        let ghost orec = old(self).recorded;
        let row: u32 = if self.data_row == 0xFFFF_FFFFu32 {
            self.data_row
        } else {
            self.data_row + 1
        };
        self.data_row = row;
        let nf = fields.len();
        let ncols = self.schema.columns.len();
        let ghost sch = old(self).schema;
        let ghost i2s = old(self).input_to_schema@;
        let ghost full = spec_row_findings(sch, i2s, gf, row);
        let ghost ff = spec_field_findings(sch, i2s, gf, row, 0);
        let ghost mx = old(self).max_errors;
        let ghost mut done: Seq<PackedError> = Seq::empty();
        proof {
            assert(oe + take_cap(done, mx - orec) =~= oe);
        }
        let mut j: usize = 0;
        while j < nf
            invariant
                0 <= j <= nf,
                nf == fields@.len(),
                gf == views_of(fields@),
                old(self).wf(),
                self.wf(),
                sch == self.schema,
                sch == old(self).schema,
                i2s == self.input_to_schema@,
                orec == old(self).recorded,
                oe == old(self).errors@,
                mx == self.max_errors,
                mx == old(self).max_errors,
                ncols == sch.columns@.len(),
                self.header_parsed == old(self).header_parsed,
                self.input_to_schema == old(self).input_to_schema,
                self.schema_to_input == old(self).schema_to_input,
                self.data_row == row,
                self.normalized == old(self).normalized,
                self.drained == old(self).drained,
                self.emit_normalized == old(self).emit_normalized,
                self.normalized_limit == old(self).normalized_limit,
                self.out == old(self).out,
                self.ends == old(self).ends,
                self.rdr == old(self).rdr,
                row == sat_inc(old(self).data_row),
                !(sch.has_headers && !old(self).header_parsed),
                ff == spec_field_findings(sch, i2s, gf, row, 0),
                full == spec_row_findings(sch, i2s, gf, row),
                done + spec_field_findings(sch, i2s, gf, row, j as int) == ff,
                j > 0 ==> self.recorded < mx,
                sink_state(oe, orec, mx, done, self.errors@, self.recorded),
            decreases nf - j,
        {
            let ghost head: Seq<PackedError> = match spec_col_of_input(sch, i2s, j as int) {
                Some(k) => match spec_field_error(sch.columns@[k], gf[j as int]) {
                    Some(code) => seq![mk_err(row, k, code, ColKind::Schema)],
                    None => Seq::<PackedError>::empty(),
                },
                None => if sch.fail_on_extra_columns {
                    seq![mk_err(row, j as int, ErrorCode::ExtraColumn, ColKind::Input)]
                } else {
                    Seq::<PackedError>::empty()
                },
            };
            proof {
                assert(spec_field_findings(sch, i2s, gf, row, j as int) == head
                    + spec_field_findings(sch, i2s, gf, row, j + 1 as int));
                assert((done + head) + spec_field_findings(sch, i2s, gf, row, j + 1 as int) =~= done
                    + (head + spec_field_findings(sch, i2s, gf, row, j + 1 as int)));
            }
            let schema_idx: Option<usize> = if self.schema.has_headers {
                if j < self.input_to_schema.len() {
                    self.input_to_schema[j]
                } else {
                    None
                }
            } else {
                if j < ncols {
                    Some(j)
                } else {
                    None
                }
            };
            match schema_idx {
                Some(k) => {
                    proof {
                        assert(spec_col_of_input(sch, i2s, j as int) == Some(k as int));
                    }
                    let fe = field_error(&self.schema.columns[k], fields[j].as_slice());
                    match fe {
                        Some(code) => {
                            proof {
                                lemma_sink_push(
                                    oe,
                                    orec,
                                    mx,
                                    done,
                                    self.errors@,
                                    self.recorded,
                                    mk_err(row, k as int, code, ColKind::Schema),
                                );
                            }
                            self.push_err(row, k, code, ColKind::Schema);
                            proof {
                                done = done.push(mk_err(row, k as int, code, ColKind::Schema));
                                assert(done.drop_last() + head =~= done);
                            }
                        },
                        None => {
                            proof {
                                assert(done + head =~= done);
                            }
                        },
                    }
                },
                None => {
                    proof {
                        assert(spec_col_of_input(sch, i2s, j as int) is None);
                    }
                    if self.schema.fail_on_extra_columns {
                        proof {
                            lemma_sink_push(
                                oe,
                                orec,
                                mx,
                                done,
                                self.errors@,
                                self.recorded,
                                mk_err(row, j as int, ErrorCode::ExtraColumn, ColKind::Input),
                            );
                        }
                        self.push_err(row, j, ErrorCode::ExtraColumn, ColKind::Input);
                        proof {
                            done = done.push(
                                mk_err(row, j as int, ErrorCode::ExtraColumn, ColKind::Input),
                            );
                            assert(done.drop_last() + head =~= done);
                        }
                    } else {
                        proof {
                            assert(done + head =~= done);
                        }
                    }
                },
            }
            if self.hit_error_limit() {
                proof {
                    let b = mx - orec;
                    assert(done + spec_field_findings(sch, i2s, gf, row, j + 1 as int) =~= ff);
                    let rest = spec_field_findings(sch, i2s, gf, row, j + 1 as int)
                        + spec_missing_findings(sch, nf as int, row, nf as int);
                    assert(full =~= done + rest);
                    assert(done.len() >= b);
                    lemma_take_cap_prefix(done, rest, b);
                    assert(ff.len() >= done.len());
                    assert(!spec_norm_ok(*old(self), gf));
                }
                return ;
            }
            j = j + 1;
        }
        proof {
            assert(done == ff);
        }
        let ghost after_fields_ok: bool = nf == 0 || orec as int + ff.len() < mx as int;
        proof {
            if nf > 0 {
                assert(self.recorded < mx);
                assert(spec_min(done.len() as int, mx - orec) < mx - orec);
                assert(orec as int + ff.len() < mx as int);
            }
        }
        if !self.schema.has_headers && nf < ncols {
            let mut k: usize = nf;
            while k < ncols
                invariant
                    nf <= k <= ncols,
                    nf == fields@.len(),
                    gf == views_of(fields@),
                    old(self).wf(),
                    self.wf(),
                    sch == self.schema,
                    sch == old(self).schema,
                    i2s == self.input_to_schema@,
                    orec == old(self).recorded,
                    oe == old(self).errors@,
                    mx == self.max_errors,
                    mx == old(self).max_errors,
                    ncols == sch.columns@.len(),
                    !sch.has_headers,
                    self.header_parsed == old(self).header_parsed,
                    self.input_to_schema == old(self).input_to_schema,
                    self.schema_to_input == old(self).schema_to_input,
                    self.data_row == row,
                    self.normalized == old(self).normalized,
                    self.drained == old(self).drained,
                    self.emit_normalized == old(self).emit_normalized,
                    self.normalized_limit == old(self).normalized_limit,
                    self.out == old(self).out,
                    self.ends == old(self).ends,
                    self.rdr == old(self).rdr,
                    row == sat_inc(old(self).data_row),
                    !(sch.has_headers && !old(self).header_parsed),
                    ff == spec_field_findings(sch, i2s, gf, row, 0),
                    full == spec_row_findings(sch, i2s, gf, row),
                    after_fields_ok == (nf == 0 || orec as int + ff.len() < mx as int),
                    after_fields_ok,
                    done + spec_missing_findings(sch, nf as int, row, k as int) == full,
                    done.len() >= ff.len(),
                    done.len() > ff.len() ==> orec as int + done.len() < mx as int,
                    sink_state(oe, orec, mx, done, self.errors@, self.recorded),
                decreases ncols - k,
            {
                let ghost head: Seq<PackedError> = if sch.columns@[k as int].required {
                    seq![mk_err(row, k as int, ErrorCode::MissingRequired, ColKind::Schema)]
                } else {
                    Seq::<PackedError>::empty()
                };
                proof {
                    assert(spec_missing_findings(sch, nf as int, row, k as int) == head
                        + spec_missing_findings(sch, nf as int, row, k + 1 as int));
                    assert((done + head) + spec_missing_findings(sch, nf as int, row, k + 1 as int)
                        =~= done + (head + spec_missing_findings(sch, nf as int, row, k
                        + 1 as int)));
                }
                if self.schema.columns[k].required {
                    proof {
                        lemma_sink_push(
                            oe,
                            orec,
                            mx,
                            done,
                            self.errors@,
                            self.recorded,
                            mk_err(row, k as int, ErrorCode::MissingRequired, ColKind::Schema),
                        );
                    }
                    self.push_err(row, k, ErrorCode::MissingRequired, ColKind::Schema);
                    proof {
                        done = done.push(
                            mk_err(row, k as int, ErrorCode::MissingRequired, ColKind::Schema),
                        );
                        assert(done.drop_last() + head =~= done);
                    }
                    if self.hit_error_limit() {
                        proof {
                            let b = mx - orec;
                            assert(done + spec_missing_findings(sch, nf as int, row, k + 1 as int)
                                =~= full);
                            let rest = spec_missing_findings(sch, nf as int, row, k + 1 as int);
                            assert(full =~= done + rest);
                            assert(done.len() >= b);
                            lemma_take_cap_prefix(done, rest, b);
                            assert(full.len() > ff.len());
                            assert(orec as int + full.len() >= mx as int);
                            assert(!spec_norm_ok(*old(self), gf));
                        }
                        return ;
                    }
                } else {
                    proof {
                        assert(done + head =~= done);
                    }
                }
                k = k + 1;
            }
        } else {
            proof {
                assert(spec_missing_findings(sch, nf as int, row, nf as int) =~= Seq::<
                    PackedError,
                >::empty());
                assert(done + spec_missing_findings(sch, nf as int, row, nf as int) =~= done);
            }
        }
        proof {
            assert(done == full);
            if full.len() > ff.len() {
                assert(orec as int + full.len() < mx as int);
            }
        }
        if self.emit_normalized && self.normalized.len() < self.normalized_limit {
            proof {
                assert(spec_norm_ok(*old(self), gf));
            }
            let mut buf: Vec<u8> = Vec::new();
            core::mem::swap(&mut self.normalized, &mut buf);
            append_norm_row(
                &mut buf,
                self.normalized_limit,
                &self.schema.columns,
                self.schema.has_headers,
                &self.schema_to_input,
                fields,
                self.schema.delimiter,
            );
            core::mem::swap(&mut self.normalized, &mut buf);
            proof {
                assert(self.normalized@ == spec_norm_result(*old(self), gf));
            }
        } else {
            proof {
                assert(!spec_norm_ok(*old(self), gf));
            }
        }
    }
}

/// Field `i` of a tokenized record: the bytes between the previous end
/// position and this one, both clamped into the record, so that no value
/// the tokenizer reports can reach outside it.
pub open spec fn spec_field_at(record: Seq<u8>, ends: Seq<usize>, i: int) -> Seq<u8> {
    let lo = if i == 0 {
        0int
    } else {
        spec_min(ends[i - 1] as int, record.len() as int)
    };
    let hi = spec_min(ends[i] as int, record.len() as int);
    if lo <= hi {
        record.subrange(lo, hi)
    } else {
        Seq::empty()
    }
}

/// Copies the fields of one tokenized record out of the scratch buffers.
fn extract_fields(record: &Vec<u8>, nout: usize, ends: &Vec<usize>, nend: usize) -> (r: Vec<
    Vec<u8>,
>)
    requires
        nout <= record@.len(),
        nend <= ends@.len(),
    ensures
        r@.len() == nend,
        forall|i: int|
            0 <= i < nend ==> #[trigger] r@[i]@ == spec_field_at(
                record@.subrange(0, nout as int),
                ends@.subrange(0, nend as int),
                i,
            ),
{
    let ghost grec = record@.subrange(0, nout as int);
    let ghost gends = ends@.subrange(0, nend as int);
    let mut r: Vec<Vec<u8>> = Vec::new();
    let mut i: usize = 0;
    while i < nend
        invariant
            0 <= i <= nend,
            nend <= ends@.len(),
            nout <= record@.len(),
            grec == record@.subrange(0, nout as int),
            gends == ends@.subrange(0, nend as int),
            r@.len() == i,
            forall|t: int| 0 <= t < i ==> #[trigger] r@[t]@ == spec_field_at(grec, gends, t),
        decreases nend - i,
    {
        let e = ends[i];
        let hi: usize = if e < nout {
            e
        } else {
            nout
        };
        let lo: usize = if i == 0 {
            0
        } else {
            let p = ends[i - 1];
            if p < nout {
                p
            } else {
                nout
            }
        };
        if lo <= hi {
            let piece = copy_bytes(&record.as_slice()[lo..hi]);
            proof {
                assert(record@.subrange(lo as int, hi as int) =~= grec.subrange(
                    lo as int,
                    hi as int,
                ));
            }
            r.push(piece);
        } else {
            r.push(Vec::new());
        }
        i = i + 1;
    }
    r
}

proof fn lemma_prefix_append(a: Seq<PackedError>, b: Seq<PackedError>, c: Seq<PackedError>)
    requires
        a.is_prefix_of(b),
    ensures
        a.is_prefix_of(b + c),
{
    assert((b + c).subrange(0, a.len() as int) =~= b.subrange(0, a.len() as int));
}

impl ValidatorEngine {
    /// Feeds one chunk of input through the tokenizer, dispatching every
    /// complete record, growing the scratch buffers on demand, and
    /// stopping once the chunk is consumed or the budget is exhausted.
    fn parse_slice(&mut self, input: &[u8])
        requires
            old(self).wf(),
        ensures
            final(self).wf(),
            final(self).schema == old(self).schema,
            final(self).max_errors == old(self).max_errors,
            final(self).emit_normalized == old(self).emit_normalized,
            final(self).normalized_limit == old(self).normalized_limit,
            final(self).drained == old(self).drained,
            old(self).data_row <= final(self).data_row,
            old(self).recorded <= final(self).recorded,
            old(self).errors@.is_prefix_of(final(self).errors@),
    {
        let n = input.len();
        let mut pos: usize = 0;
        // The tokenizer always makes progress in practice; the fuel only
        // gives the loop a decreasing measure.
        let mut fuel: u64 = 0xFFFF_FFFF_FFFF_FFFFu64;
        while pos < n && fuel > 0
            invariant
                0 <= pos <= n,
                n == input@.len(),
                old(self).wf(),
                self.wf(),
                self.schema == old(self).schema,
                self.max_errors == old(self).max_errors,
                self.emit_normalized == old(self).emit_normalized,
                self.normalized_limit == old(self).normalized_limit,
                self.drained == old(self).drained,
                old(self).data_row <= self.data_row,
                old(self).recorded <= self.recorded,
                old(self).errors@.is_prefix_of(self.errors@),
            decreases fuel,
        {
            fuel = fuel - 1;
            let op = self.outpos;
            let ep = self.endpos;
            let (step, nin, nout, nend) = read_record_step(
                &mut self.rdr,
                &input[pos..n],
                &mut self.out,
                op,
                &mut self.ends,
                ep,
            );
            let out_cap = self.out.len();
            let ends_cap = self.ends.len();
            proof {
                assert(op + nout <= out_cap && ep + nend <= ends_cap);
            }
            pos = pos + nin;
            self.outpos = op + nout;
            self.endpos = ep + nend;
            match step {
                ReadStep::Record => {
                    let fields = extract_fields(&self.out, self.outpos, &self.ends, self.endpos);
                    self.outpos = 0;
                    self.endpos = 0;
                    let ghost pre = self.errors@;
                    self.handle_record(&fields);
                    proof {
                        assert(pre.is_prefix_of(self.errors@)) by {
                            assert(self.errors@.subrange(0, pre.len() as int) =~= pre);
                        }
                    }
                    if self.hit_error_limit() {
                        return ;
                    }
                },
                ReadStep::InputEmpty => {
                    return ;
                },
                ReadStep::End => {
                    return ;
                },
                ReadStep::OutputFull => {
                    let len = self.out.len();
                    let nl: usize = if len <= usize::MAX / 2 {
                        len * 2
                    } else {
                        usize::MAX
                    };
                    self.out.resize(nl, 0);
                },
                ReadStep::OutputEndsFull => {
                    let len = self.ends.len();
                    let nl: usize = if len <= usize::MAX / 2 {
                        len * 2
                    } else {
                        usize::MAX
                    };
                    self.ends.resize(nl, 0);
                },
            }
        }
    }

    /// Flushes the tokenizer at end of input, forcing out a final record
    /// that lacks a trailing terminator.
    fn flush_end(&mut self)
        requires
            old(self).wf(),
        ensures
            final(self).wf(),
            final(self).schema == old(self).schema,
            final(self).max_errors == old(self).max_errors,
            final(self).emit_normalized == old(self).emit_normalized,
            final(self).normalized_limit == old(self).normalized_limit,
            final(self).drained == old(self).drained,
            old(self).data_row <= final(self).data_row,
            old(self).recorded <= final(self).recorded,
            old(self).errors@.is_prefix_of(final(self).errors@),
    {
        let empty_input: Vec<u8> = Vec::new();
        // The tokenizer reaches its end state in a bounded number of
        // steps in practice; the fuel gives the loop a decreasing measure.
        let mut fuel: u64 = 0xFFFF_FFFF_FFFF_FFFFu64;
        while fuel > 0
            invariant
                old(self).wf(),
                self.wf(),
                self.schema == old(self).schema,
                self.max_errors == old(self).max_errors,
                self.emit_normalized == old(self).emit_normalized,
                self.normalized_limit == old(self).normalized_limit,
                self.drained == old(self).drained,
                old(self).data_row <= self.data_row,
                old(self).recorded <= self.recorded,
                old(self).errors@.is_prefix_of(self.errors@),
            decreases fuel,
        {
            fuel = fuel - 1;
            let op = self.outpos;
            let ep = self.endpos;
            let (step, _nin, nout, nend) = read_record_step(
                &mut self.rdr,
                empty_input.as_slice(),
                &mut self.out,
                op,
                &mut self.ends,
                ep,
            );
            let out_cap = self.out.len();
            let ends_cap = self.ends.len();
            proof {
                assert(op + nout <= out_cap && ep + nend <= ends_cap);
            }
            self.outpos = op + nout;
            self.endpos = ep + nend;
            match step {
                ReadStep::Record => {
                    let fields = extract_fields(&self.out, self.outpos, &self.ends, self.endpos);
                    self.outpos = 0;
                    self.endpos = 0;
                    let ghost pre = self.errors@;
                    self.handle_record(&fields);
                    proof {
                        assert(pre.is_prefix_of(self.errors@)) by {
                            assert(self.errors@.subrange(0, pre.len() as int) =~= pre);
                        }
                    }
                    if self.hit_error_limit() {
                        return ;
                    }
                },
                ReadStep::InputEmpty => {},
                ReadStep::End => {
                    return ;
                },
                ReadStep::OutputFull => {
                    let len = self.out.len();
                    let nl: usize = if len <= usize::MAX / 2 {
                        len * 2
                    } else {
                        usize::MAX
                    };
                    self.out.resize(nl, 0);
                },
                ReadStep::OutputEndsFull => {
                    let len = self.ends.len();
                    let nl: usize = if len <= usize::MAX / 2 {
                        len * 2
                    } else {
                        usize::MAX
                    };
                    self.ends.resize(nl, 0);
                },
            }
        }
    }

    /// Feeds one chunk into the engine; on the terminating call the
    /// tokenizer is flushed. The returned progress counts the data rows
    /// and findings of this call alone and echoes the terminating flag.
    pub fn push_chunk(&mut self, chunk: &[u8], final_chunk: bool) -> (r: Progress)
        requires
            old(self).wf(),
        ensures
            final(self).wf(),
            final(self).schema == old(self).schema,
            final(self).max_errors == old(self).max_errors,
            final(self).emit_normalized == old(self).emit_normalized,
            final(self).drained == old(self).drained,
            old(self).data_row <= final(self).data_row,
            old(self).recorded <= final(self).recorded,
            old(self).errors@.is_prefix_of(final(self).errors@),
            r.done == final_chunk,
            r.rows_processed == final(self).data_row - old(self).data_row,
            r.errors_added == final(self).recorded - old(self).recorded,
    {
        let before_rows = self.data_row;
        let before_errs = self.recorded;
        if chunk.len() > 0 {
            self.parse_slice(chunk);
        }
        if final_chunk {
            self.flush_end();
        }
        Progress {
            rows_processed: self.data_row - before_rows,
            errors_added: self.recorded - before_errs,
            done: final_chunk,
        }
    }
}

proof fn lemma_clean_fields(
    schema: Schema,
    i2s: Seq<Option<usize>>,
    fields: Seq<Seq<u8>>,
    row: u32,
    j: int,
)
    requires
        !schema.has_headers,
        fields.len() == schema.columns@.len(),
        forall|t: int|
            0 <= t < fields.len() ==> spec_field_error(schema.columns@[t], fields[t]) is None,
        j >= 0,
    ensures
        spec_field_findings(schema, i2s, fields, row, j) == Seq::<PackedError>::empty(),
    decreases fields.len() - j,
{
    if j < fields.len() {
        lemma_clean_fields(schema, i2s, fields, row, j + 1);
        assert(spec_col_of_input(schema, i2s, j) == Some(j));
        assert(Seq::<PackedError>::empty() + Seq::<PackedError>::empty() =~= Seq::<
            PackedError,
        >::empty());
    }
}

/// A well-formed headerless row is clean: when a row brings one field
/// per schema column and every field passes its column's checks, the row
/// raises no finding at all, whatever the mapping holds. Together with
/// the ingestion contract this means such rows only advance the row
/// counter and never touch the error queue.
pub proof fn law_well_formed_row_clean(
    schema: Schema,
    i2s: Seq<Option<usize>>,
    fields: Seq<Seq<u8>>,
    row: u32,
)
    requires
        !schema.has_headers,
        fields.len() == schema.columns@.len(),
        forall|t: int|
            0 <= t < fields.len() ==> spec_field_error(schema.columns@[t], fields[t]) is None,
    ensures
        spec_row_findings(schema, i2s, fields, row) == Seq::<PackedError>::empty(),
{
    lemma_clean_fields(schema, i2s, fields, row, 0);
    assert(spec_missing_findings(schema, fields.len() as int, row, fields.len() as int) == Seq::<
        PackedError,
    >::empty());
    assert(Seq::<PackedError>::empty() + Seq::<PackedError>::empty() =~= Seq::<
        PackedError,
    >::empty());
}

/// The error budget is a hard cap: in every reachable engine state, the
/// findings ever retrievable by draining — those already handed out plus
/// those still queued — never exceed the budget. Every engine operation
/// preserves the invariant this rests on, and draining advances the
/// drained count by exactly the findings it returns.
pub proof fn law_error_budget(e: &ValidatorEngine)
    requires
        e.wf(),
    ensures
        e.drained@ + e.errors@.len() <= e.max_errors,
{
}

} // verus!

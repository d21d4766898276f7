use csv_validator::{ColumnSpec, ColumnType, DateFormat, Schema, ValidatorEngine};

fn col(name: &str, col_type: ColumnType) -> ColumnSpec {
    ColumnSpec {
        name: name.as_bytes().to_vec(),
        required: false,
        col_type,
        max_len: None,
        allowed: vec![],
        precision: None,
        date_format: None,
    }
}

fn req(mut c: ColumnSpec) -> ColumnSpec {
    c.required = true;
    c
}

fn schema(has_headers: bool, columns: Vec<ColumnSpec>) -> Schema {
    Schema { has_headers, delimiter: b',', columns, fail_on_extra_columns: false }
}

fn drain(engine: &mut ValidatorEngine) -> Vec<(u32, u32)> {
    let words = engine.take_errors_packed(u32::MAX);
    words.chunks(2).map(|w| (w[0], w[1])).collect()
}

fn word1(kind_input: bool, col: u32, code: u32) -> u32 {
    (if kind_input { 1u32 << 31 } else { 0 }) | (col << 8) | code
}

#[test]
fn well_formed_rows_count_and_stay_clean() {
    let s = schema(false, vec![req(col("id", ColumnType::Int)), col("name", ColumnType::String)]);
    let mut e = ValidatorEngine::new(s, 100, false);
    let p = e.push_chunk(b"1,alice\n2,bob\n3,carol\n", true);
    assert_eq!(p.rows_processed, 3);
    assert_eq!(p.errors_added, 0);
    assert!(p.done);
    assert!(drain(&mut e).is_empty());
}

#[test]
fn chunking_at_every_offset_gives_identical_results() {
    let input: &[u8] = "id,w\u{00e9}rd\n1,\"a,b\"\nx,caf\u{00e9}\n7,ok\n".as_bytes();
    let make = || {
        let s = Schema {
            has_headers: true,
            delimiter: b',',
            columns: vec![req(col("id", ColumnType::Int)), col("w\u{00e9}rd", ColumnType::String)],
            fail_on_extra_columns: true,
        };
        ValidatorEngine::new(s, 100, true)
    };
    let mut whole = make();
    whole.push_chunk(input, true);
    let expected_errors = drain(&mut whole);
    let expected_norm = whole.take_normalized();
    assert!(!expected_errors.is_empty());
    for split in 0..=input.len() {
        let mut e = make();
        e.push_chunk(&input[..split], false);
        e.push_chunk(&input[split..], true);
        assert_eq!(drain(&mut e), expected_errors, "split at {split}");
        assert_eq!(e.take_normalized(), expected_norm, "split at {split}");
    }
}

#[test]
fn error_cap_bounds_all_draining() {
    let s = schema(false, vec![req(col("id", ColumnType::Int))]);
    let mut e = ValidatorEngine::new(s, 3, false);
    let mut total = 0;
    for _ in 0..10 {
        let p = e.push_chunk(b"bad\n", false);
        total += p.errors_added;
    }
    e.push_chunk(b"", true);
    let drained = drain(&mut e);
    assert!(drained.len() <= 3);
    assert_eq!(drained.len(), 3);
    assert_eq!(total, 3);
    // Once the cap is reached no further draining yields anything, even
    // after more invalid rows.
    e.push_chunk(b"worse\n", false);
    assert!(drain(&mut e).is_empty());
}

#[test]
fn decimal_canonicalization_is_idempotent() {
    let mut c = col("amount", ColumnType::Decimal);
    c.precision = Some(2);
    let s = schema(false, vec![c]);
    let mut e = ValidatorEngine::new(s, 10, true);
    let p = e.push_chunk(b"3\n", true);
    assert_eq!(p.errors_added, 0);
    assert_eq!(e.take_normalized(), b"3.00\n");

    let mut c2 = col("amount", ColumnType::Decimal);
    c2.precision = Some(2);
    let mut e2 = ValidatorEngine::new(schema(false, vec![c2]), 10, true);
    e2.push_chunk(b"3.00\n", true);
    assert_eq!(e2.take_normalized(), b"3.00\n");
}

#[test]
fn decimal_rounds_half_away_from_zero() {
    let mut c = col("v", ColumnType::Decimal);
    c.precision = Some(2);
    let s = schema(false, vec![c]);
    let mut e = ValidatorEngine::new(s, 10, true);
    e.push_chunk(b"2.345\n-0.005\n1.994\n9.999\n", true);
    assert_eq!(e.take_normalized(), b"2.35\n-0.01\n1.99\n10.00\n");
}

#[test]
fn decimal_validity_and_precision_independence() {
    let mut c = col("v", ColumnType::Decimal);
    c.precision = Some(1);
    let s = schema(false, vec![c]);
    let mut e = ValidatorEngine::new(s, 10, false);
    // A decimal with more fractional digits than the precision is still
    // valid; only canonicalization rounds it.
    let p = e.push_chunk(b"1.23456\n", true);
    assert_eq!(p.errors_added, 0);

    let mut c2 = col("v", ColumnType::Decimal);
    c2.precision = Some(1);
    let mut e2 = ValidatorEngine::new(schema(false, vec![c2]), 10, false);
    e2.push_chunk(b"1.2.3\nabc\n1,5\n", true);
    let errs = drain(&mut e2);
    // "1,5" splits into two fields; the extra one is ignored here, and
    // "1" is a valid decimal, so only the first two rows err.
    assert_eq!(errs[0], (1, word1(false, 0, 2)));
    assert_eq!(errs[1], (2, word1(false, 0, 2)));
    assert_eq!(errs.len(), 2);
}

#[test]
fn date_round_trip_and_leap_years() {
    let mut c = col("d", ColumnType::Date);
    c.date_format = Some(DateFormat::DmySlash);
    let s = schema(false, vec![c]);
    let mut e = ValidatorEngine::new(s, 10, true);
    let p = e.push_chunk(b"31/01/2024\n", true);
    assert_eq!(p.errors_added, 0);
    assert_eq!(e.take_normalized(), b"2024-01-31\n");

    let mut c2 = col("d", ColumnType::Date);
    c2.date_format = Some(DateFormat::MdySlash);
    let mut e2 = ValidatorEngine::new(schema(false, vec![c2]), 10, true);
    let p2 = e2.push_chunk(b"02/29/2023\n", false);
    assert_eq!(p2.errors_added, 1);
    let p3 = e2.push_chunk(b"02/29/2024\n", true);
    assert_eq!(p3.errors_added, 0);
    let errs = drain(&mut e2);
    assert_eq!(errs, vec![(1, word1(false, 0, 2))]);
    // Normalization is best-effort: the invalid row still emitted an
    // (empty) canonical field and its terminator.
    assert_eq!(e2.take_normalized(), b"\n2024-02-29\n");
}

#[test]
fn date_default_format_is_ymd_dash() {
    let c = col("d", ColumnType::Date);
    let s = schema(false, vec![c]);
    let mut e = ValidatorEngine::new(s, 10, true);
    let p = e.push_chunk(b"2024-02-29\n2023-02-29\n", true);
    assert_eq!(p.errors_added, 1);
    assert_eq!(e.take_normalized(), b"2024-02-29\n\n");
}

#[test]
fn header_reconciliation_maps_by_name() {
    let s = Schema {
        has_headers: true,
        delimiter: b',',
        columns: vec![req(col("id", ColumnType::Int))],
        fail_on_extra_columns: false,
    };
    let mut e = ValidatorEngine::new(s, 10, false);
    let p = e.push_chunk(b"name,id\nx,42\n", true);
    assert_eq!(p.rows_processed, 1);
    assert_eq!(p.errors_added, 0);
    assert!(drain(&mut e).is_empty());
}

#[test]
fn missing_required_column_is_reported_at_row_zero() {
    let s = Schema {
        has_headers: true,
        delimiter: b',',
        columns: vec![req(col("id", ColumnType::Int))],
        fail_on_extra_columns: false,
    };
    let mut e = ValidatorEngine::new(s, 10, false);
    e.push_chunk(b"name\nx\n", true);
    let errs = drain(&mut e);
    assert_eq!(errs, vec![(0, word1(false, 0, 6))]);
}

#[test]
fn extra_column_reports_input_position_with_kind_tag() {
    let s = Schema {
        has_headers: true,
        delimiter: b',',
        columns: vec![col("a", ColumnType::String)],
        fail_on_extra_columns: true,
    };
    let mut e = ValidatorEngine::new(s, 10, false);
    e.push_chunk(b"a,b\n1,2\n", true);
    let errs = drain(&mut e);
    assert_eq!(errs, vec![(1, word1(true, 1, 7))]);
    // The top bit distinguishes input-space from schema-space columns.
    assert_eq!(errs[0].1 >> 31, 1);
    assert_eq!((errs[0].1 >> 8) & 0x7F_FFFF, 1);
    assert_eq!(errs[0].1 & 0xFF, 7);
}

#[test]
fn short_headerless_row_reports_missing_required() {
    let s = schema(
        false,
        vec![col("a", ColumnType::String), req(col("b", ColumnType::String))],
    );
    let mut e = ValidatorEngine::new(s, 10, false);
    e.push_chunk(b"only\n", true);
    let errs = drain(&mut e);
    assert_eq!(errs, vec![(1, word1(false, 1, 1))]);
}

#[test]
fn field_checks_stop_at_first_failure_in_order() {
    let mut c = col("v", ColumnType::Int);
    c.required = true;
    c.max_len = Some(3);
    c.allowed = vec![b"1".to_vec(), b"22".to_vec()];
    let s = schema(false, vec![c]);
    let mut e = ValidatorEngine::new(s, 10, false);
    e.push_chunk(b"  \n12345\n\xff\xfe\n7\n22\n", true);
    let errs = drain(&mut e);
    assert_eq!(
        errs,
        vec![
            (1, word1(false, 0, 1)), // empty after trimming: MissingRequired
            (2, word1(false, 0, 3)), // too long: MaxLengthExceeded
            (3, word1(false, 0, 5)), // bad bytes: InvalidUtf8
            (4, word1(false, 0, 4)), // not in the allow-list: NotAllowed
        ]
    );
}

#[test]
fn normalized_rows_are_quoted_and_joined() {
    let s = schema(
        false,
        vec![col("a", ColumnType::String), col("b", ColumnType::String)],
    );
    let mut e = ValidatorEngine::new(s, 10, true);
    e.push_chunk(b"  plain  ,\"has,comma\"\n\"say \"\"hi\"\"\",x\n", true);
    assert_eq!(
        e.take_normalized(),
        b"plain,\"has,comma\"\n\"say \"\"hi\"\"\",x\n"
    );
}

#[test]
fn normalization_skipped_for_row_that_hits_the_cap() {
    let s = schema(false, vec![col("a", ColumnType::Int), col("b", ColumnType::Int)]);
    let mut e = ValidatorEngine::new(s, 1, true);
    let p = e.push_chunk(b"x,y\n", true);
    assert_eq!(p.rows_processed, 1);
    assert_eq!(p.errors_added, 1);
    assert_eq!(e.take_normalized(), b"");
}

#[test]
fn take_normalized_empties_the_buffer() {
    let s = schema(false, vec![col("a", ColumnType::String)]);
    let mut e = ValidatorEngine::new(s, 10, true);
    e.push_chunk(b"one\n", false);
    assert_eq!(e.take_normalized(), b"one\n");
    assert_eq!(e.take_normalized(), b"");
    e.push_chunk(b"two\n", true);
    assert_eq!(e.take_normalized(), b"two\n");
}

#[test]
fn emit_normalized_off_buffers_nothing() {
    let s = schema(false, vec![col("a", ColumnType::String)]);
    let mut e = ValidatorEngine::new(s, 10, false);
    e.push_chunk(b"one\n", true);
    assert_eq!(e.take_normalized(), b"");
}

#[test]
fn final_row_without_terminator_is_flushed() {
    let s = schema(false, vec![col("a", ColumnType::Int)]);
    let mut e = ValidatorEngine::new(s, 10, false);
    let p1 = e.push_chunk(b"1\n2", false);
    assert_eq!(p1.rows_processed, 1);
    assert!(!p1.done);
    let p2 = e.push_chunk(b"", true);
    assert_eq!(p2.rows_processed, 1);
    assert!(p2.done);
}

#[test]
fn take_errors_packed_respects_max_and_order() {
    let s = schema(false, vec![req(col("v", ColumnType::Int))]);
    let mut e = ValidatorEngine::new(s, 10, false);
    e.push_chunk(b"a\nb\nc\n", true);
    let first = e.take_errors_packed(2);
    assert_eq!(first.len(), 4);
    assert_eq!(first[0], 1);
    assert_eq!(first[2], 2);
    let rest = e.take_errors_packed(2);
    assert_eq!(rest.len(), 2);
    assert_eq!(rest[0], 3);
    assert!(e.take_errors_packed(2).is_empty());
}

#[test]
fn schema_column_names_keep_schema_order() {
    let s = schema(
        true,
        vec![col("alpha", ColumnType::String), col("beta", ColumnType::Int)],
    );
    let e = ValidatorEngine::new(s, 10, false);
    let names = e.schema_column_names();
    assert_eq!(names, vec![b"alpha".to_vec(), b"beta".to_vec()]);
}

#[test]
fn undecodable_header_field_keeps_column_alignment() {
    let s = Schema {
        has_headers: true,
        delimiter: b',',
        columns: vec![req(col("id", ColumnType::Int))],
        fail_on_extra_columns: false,
    };
    let mut e = ValidatorEngine::new(s, 10, false);
    // The first header field is not UTF-8; the second still maps `id`
    // to input position 1.
    e.push_chunk(b"\xff\xfe,id\nx,42\n", true);
    let errs = drain(&mut e);
    assert_eq!(errs, vec![(0, word1(false, 0, 5))]);
}

#[test]
fn custom_delimiter_is_honored_in_both_directions() {
    let s = Schema {
        has_headers: false,
        delimiter: b';',
        columns: vec![col("a", ColumnType::Int), col("b", ColumnType::String)],
        fail_on_extra_columns: false,
    };
    let mut e = ValidatorEngine::new(s, 10, true);
    let p = e.push_chunk(b"1;x,y\n", true);
    assert_eq!(p.rows_processed, 1);
    assert_eq!(p.errors_added, 0);
    // The second field contains no semicolon, so it needs no quoting.
    assert_eq!(e.take_normalized(), b"1;x,y\n");
}

#[test]
fn leading_byte_order_mark_is_ignored() {
    let s = Schema {
        has_headers: true,
        delimiter: b',',
        columns: vec![req(col("id", ColumnType::Int))],
        fail_on_extra_columns: false,
    };
    let mut e = ValidatorEngine::new(s, 10, false);
    let p = e.push_chunk(b"\xef\xbb\xbfid\n42\n", true);
    assert_eq!(p.rows_processed, 1);
    assert!(drain(&mut e).is_empty());
}

#[test]
fn take_errors_packed_with_zero_max_yields_nothing() {
    let s = schema(false, vec![req(col("v", ColumnType::Int))]);
    let mut e = ValidatorEngine::new(s, 10, false);
    e.push_chunk(b"bad\n", true);
    assert!(e.take_errors_packed(0).is_empty());
    assert_eq!(e.take_errors_packed(10).len(), 2);
}

#[test]
fn zero_error_budget_drops_all_findings_and_all_normalization() {
    let s = schema(false, vec![col("v", ColumnType::Int)]);
    let mut e = ValidatorEngine::new(s, 0, true);
    // With no budget the cap short-circuit stops each call after one
    // record, so feed the rows one call apiece.
    let p1 = e.push_chunk(b"1\n", false);
    let p2 = e.push_chunk(b"2\n", true);
    // Rows are still counted, but every per-field checkpoint trips at
    // once, so nothing is validated or rendered.
    assert_eq!(p1.rows_processed + p2.rows_processed, 2);
    assert_eq!(p1.errors_added + p2.errors_added, 0);
    assert!(drain(&mut e).is_empty());
    assert_eq!(e.take_normalized(), b"");
}

#[test]
fn normalized_buffer_stops_at_its_byte_limit_until_drained() {
    let s = schema(false, vec![col("v", ColumnType::String)]);
    let mut e = ValidatorEngine::new(s, 10, true);
    let row = [vec![b'a'; 99], vec![b'\n']].concat();
    let chunk = row.repeat(25000);
    let p = e.push_chunk(&chunk, true);
    assert_eq!(p.rows_processed, 25000);
    let norm = e.take_normalized();
    // Writing stops once the buffer reaches its limit; at most the row
    // that crossed it sticks out.
    assert!(norm.len() >= 2 * 1024 * 1024);
    assert!(norm.len() < 2 * 1024 * 1024 + 100);
    // After draining, later rows are written again.
    let p2 = e.push_chunk(&row, false);
    assert_eq!(p2.rows_processed, 1);
    assert_eq!(e.take_normalized(), row);
}

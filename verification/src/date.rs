//! Calendar date validation and canonicalization.
//!
//! A date field is three digit groups joined by the format's separator.
//! The groups remap to year, month and day per the format; digit groups
//! accumulate with saturation so that pathological inputs cannot overflow.
//! A valid date must name a real day of the proleptic Gregorian calendar
//! with a year of at most four digits, and canonicalization always renders
//! it as `YYYY-MM-DD`.

use vstd::prelude::*;
use crate::fields::{find_byte, is_digit, lemma_find_byte_at, lemma_find_byte_none};
use crate::schema::DateFormat;
use crate::decimal::all_digit_seq;

verus! {

/// The separator byte of a date format: `-` or `/`.
pub open spec fn spec_sep_of(fmt: DateFormat) -> u8 {
    match fmt {
        DateFormat::YmdDash => 45,
        DateFormat::DmySlash => 47,
        DateFormat::MdySlash => 47,
    }
}

/// The value of a digit string, saturating at the largest 32-bit value.
pub open spec fn sat_val(d: Seq<u8>) -> u32
    decreases d.len(),
{
    if d.len() == 0 {
        0
    } else {
        let prev = sat_val(d.drop_last()) as int;
        let v = prev * 10 + (d.last() - 48);
        if v > 0xFFFF_FFFF {
            0xFFFF_FFFFu32
        } else {
            v as u32
        }
    }
}

/// The three digit groups of a date field, split at the two separators,
/// when the field has exactly that shape.
pub open spec fn spec_parse3(s: Seq<u8>, sep: u8) -> Option<(u32, u32, u32)> {
    let k1 = find_byte(s, sep);
    if k1 < 0 {
        None
    } else {
        let rest = s.subrange(k1 + 1, s.len() as int);
        let k2r = find_byte(rest, sep);
        if k2r < 0 {
            None
        } else {
            let g1 = s.subrange(0, k1);
            let g2 = rest.subrange(0, k2r);
            let g3 = rest.subrange(k2r + 1, rest.len() as int);
            if g1.len() > 0 && g2.len() > 0 && g3.len() > 0 && all_digit_seq(g1) && all_digit_seq(
                g2,
            ) && all_digit_seq(g3) {
                Some((sat_val(g1), sat_val(g2), sat_val(g3)))
            } else {
                None
            }
        }
    }
}

/// Remaps the three parsed groups to (year, month, day) per the format.
pub open spec fn spec_to_ymd(fmt: DateFormat, p: (u32, u32, u32)) -> (u32, u32, u32) {
    match fmt {
        DateFormat::YmdDash => (p.0, p.1, p.2),
        DateFormat::DmySlash => (p.2, p.1, p.0),
        DateFormat::MdySlash => (p.2, p.0, p.1),
    }
}

/// Gregorian leap year.
pub open spec fn spec_is_leap(y: u32) -> bool {
    y % 4 == 0 && (y % 100 != 0 || y % 400 == 0)
}

/// Days in the given month of the given year; zero outside 1..=12.
pub open spec fn spec_days_in_month(y: u32, m: u32) -> u32 {
    if m == 1 || m == 3 || m == 5 || m == 7 || m == 8 || m == 10 || m == 12 {
        31
    } else if m == 4 || m == 6 || m == 9 || m == 11 {
        30
    } else if m == 2 {
        if spec_is_leap(y) {
            29
        } else {
            28
        }
    } else {
        0
    }
}

/// A real calendar day with a four-digit year.
pub open spec fn spec_ymd_valid(y: u32, m: u32, d: u32) -> bool {
    y <= 9999 && 1 <= m <= 12 && 1 <= d && d <= spec_days_in_month(y, m)
}

/// Whether the field is a valid date in the given format.
pub open spec fn spec_date_valid(s: Seq<u8>, fmt: DateFormat) -> bool {
    match spec_parse3(s, spec_sep_of(fmt)) {
        Some(p) => {
            let ymd = spec_to_ymd(fmt, p);
            spec_ymd_valid(ymd.0, ymd.1, ymd.2)
        },
        None => false,
    }
}

/// The canonical `YYYY-MM-DD` text of a date.
pub open spec fn spec_render_date(y: u32, m: u32, d: u32) -> Seq<u8> {
    seq![
        (48 + (y / 1000) % 10) as u8,
        (48 + (y / 100) % 10) as u8,
        (48 + (y / 10) % 10) as u8,
        (48 + y % 10) as u8,
        45u8,
        (48 + (m / 10) % 10) as u8,
        (48 + m % 10) as u8,
        45u8,
        (48 + (d / 10) % 10) as u8,
        (48 + d % 10) as u8,
    ]
}

/// The canonical form of a date field, or `None` when it is not a valid
/// date in the given format.
pub open spec fn spec_date_canon(s: Seq<u8>, fmt: DateFormat) -> Option<Seq<u8>> {
    match spec_parse3(s, spec_sep_of(fmt)) {
        Some(p) => {
            let ymd = spec_to_ymd(fmt, p);
            if spec_ymd_valid(ymd.0, ymd.1, ymd.2) {
                Some(spec_render_date(ymd.0, ymd.1, ymd.2))
            } else {
                None
            }
        },
        None => None,
    }
}

/// The separator byte the format uses.
pub fn sep_of(fmt: DateFormat) -> (r: u8)
    ensures
        r == spec_sep_of(fmt),
{
    match fmt {
        DateFormat::YmdDash => 45,
        DateFormat::DmySlash => 47,
        DateFormat::MdySlash => 47,
    }
}

/// The saturating value of a digit group.
fn sat_val_exec(s: &[u8], lo: usize, hi: usize) -> (r: u32)
    requires
        0 <= lo <= hi <= s@.len(),
        all_digit_seq(s@.subrange(lo as int, hi as int)),
    ensures
        r == sat_val(s@.subrange(lo as int, hi as int)),
{
    let mut acc: u32 = 0;
    let mut i: usize = lo;
    proof {
        assert(s@.subrange(lo as int, lo as int) =~= Seq::<u8>::empty());
    }
    while i < hi
        invariant
            lo <= i <= hi <= s@.len(),
            all_digit_seq(s@.subrange(lo as int, hi as int)),
            acc == sat_val(s@.subrange(lo as int, i as int)),
        decreases hi - i,
    {
        let c = s[i];
        proof {
            assert(s@.subrange(lo as int, hi as int)[i - lo] == s@[i as int]);
            assert(is_digit(c));
        }
        let wide: u64 = (acc as u64) * 10 + ((c - 48) as u64);
        let next: u32 = if wide > 0xFFFF_FFFF {
            0xFFFF_FFFFu32
        } else {
            wide as u32
        };
        proof {
            let sub = s@.subrange(lo as int, i + 1 as int);
            assert(sub.drop_last() =~= s@.subrange(lo as int, i as int));
            assert(sub.last() == s@[i as int]);
        }
        acc = next;
        i = i + 1;
    }
    acc
}

/// Splits a date field at the format's separator into its three groups
/// and evaluates each, saturating.
pub fn parse3(s: &[u8], sep: u8) -> (r: Option<(u32, u32, u32)>)
    requires
        sep == 45 || sep == 47,
    ensures
        r == spec_parse3(s@, sep),
{
    let n: usize = s.len();
    // First separator.
    let mut k1: usize = 0;
    while k1 < n && s[k1] != sep
        invariant
            0 <= k1 <= n,
            n == s@.len(),
            forall|j: int| 0 <= j < k1 ==> s@[j] != sep,
        decreases n - k1,
    {
        k1 = k1 + 1;
    }
    if k1 >= n {
        proof {
            lemma_find_byte_none(s@, sep);
        }
        return None;
    }
    proof {
        lemma_find_byte_at(s@, sep, k1 as int);
    }
    let ghost rest = s@.subrange(k1 + 1, n as int);
    // Second separator.
    let mut k2: usize = k1 + 1;
    while k2 < n && s[k2] != sep
        invariant
            k1 + 1 <= k2 <= n,
            n == s@.len(),
            forall|j: int| k1 + 1 <= j < k2 ==> s@[j] != sep,
        decreases n - k2,
    {
        k2 = k2 + 1;
    }
    if k2 >= n {
        proof {
            assert(forall|j: int|
                0 <= j < rest.len() ==> rest[j] == s@[k1 + 1 + j] && s@[k1 + 1 + j] != sep);
            lemma_find_byte_none(rest, sep);
        }
        return None;
    }
    proof {
        assert(forall|j: int|
            0 <= j < k2 - k1 - 1 ==> rest[j] == s@[k1 + 1 + j] && s@[k1 + 1 + j] != sep);
        assert(rest[k2 - k1 - 1] == s@[k2 as int]);
        lemma_find_byte_at(rest, sep, k2 - k1 - 1);
    }
    let ghost g1 = s@.subrange(0, k1 as int);
    let ghost g2 = rest.subrange(0, k2 - k1 - 1);
    let ghost g3 = rest.subrange(k2 - k1, rest.len() as int);
    proof {
        assert(g2 =~= s@.subrange(k1 + 1, k2 as int));
        assert(g3 =~= s@.subrange(k2 + 1, n as int));
    }
    if k1 == 0 || k2 == k1 + 1 || k2 + 1 == n {
        // An empty group.
        return None;
    }
    // All three groups must be digits.
    let mut i: usize = 0;
    while i < n
        invariant
            0 <= i <= n,
            n == s@.len(),
            k1 < k2 < n,
            s@[k1 as int] == sep && s@[k2 as int] == sep,
            g1 == s@.subrange(0, k1 as int),
            g2 == s@.subrange(k1 + 1, k2 as int),
            g3 == s@.subrange(k2 + 1, n as int),
            find_byte(s@, sep) == k1 as int,
            find_byte(s@.subrange(k1 + 1, n as int), sep) == k2 - k1 - 1,
            forall|j: int| 0 <= j < i && j != k1 && j != k2 ==> is_digit(s@[j]),
        decreases n - i,
    {
        if i != k1 && i != k2 {
            let c = s[i];
            if !(48 <= c && c <= 57) {
                proof {
                    let rest2 = s@.subrange(k1 + 1, n as int);
                    assert(g2 =~= rest2.subrange(0, k2 - k1 - 1));
                    assert(g3 =~= rest2.subrange(k2 - k1, rest2.len() as int));
                    if i < k1 {
                        assert(g1[i as int] == s@[i as int]);
                        assert(!all_digit_seq(g1));
                    } else if i < k2 {
                        assert(g2[i - k1 - 1] == s@[i as int]);
                        assert(!all_digit_seq(g2));
                    } else {
                        assert(g3[i - k2 - 1] == s@[i as int]);
                        assert(!all_digit_seq(g3));
                    }
                }
                return None;
            }
        }
        i = i + 1;
    }
    proof {
        assert(forall|j: int| 0 <= j < g1.len() ==> #[trigger] g1[j] == s@[j]);
        assert(forall|j: int| 0 <= j < g2.len() ==> #[trigger] g2[j] == s@[k1 + 1 + j]);
        assert(forall|j: int| 0 <= j < g3.len() ==> #[trigger] g3[j] == s@[k2 + 1 + j]);
        assert(all_digit_seq(g1) && all_digit_seq(g2) && all_digit_seq(g3));
    }
    let v1 = sat_val_exec(s, 0, k1);
    let v2 = sat_val_exec(s, k1 + 1, k2);
    let v3 = sat_val_exec(s, k2 + 1, n);
    Some((v1, v2, v3))
}

/// Days in the given month of the given year; zero outside 1..=12.
pub fn days_in_month(y: u32, m: u32) -> (r: u32)
    ensures
        r == spec_days_in_month(y, m),
{
    if m == 1 || m == 3 || m == 5 || m == 7 || m == 8 || m == 10 || m == 12 {
        31
    } else if m == 4 || m == 6 || m == 9 || m == 11 {
        30
    } else if m == 2 {
        if y % 4 == 0 && (y % 100 != 0 || y % 400 == 0) {
            29
        } else {
            28
        }
    } else {
        0
    }
}

/// Checks that the field is a valid date in the given format.
pub fn is_valid_date(s: &[u8], fmt: DateFormat) -> (r: bool)
    ensures
        r == spec_date_valid(s@, fmt),
{
    let sep = sep_of(fmt);
    match parse3(s, sep) {
        None => false,
        Some((p1, p2, p3)) => {
            let (y, m, d) = match fmt {
                DateFormat::YmdDash => (p1, p2, p3),
                DateFormat::DmySlash => (p3, p2, p1),
                DateFormat::MdySlash => (p3, p1, p2),
            };
            y <= 9999 && 1 <= m && m <= 12 && 1 <= d && d <= days_in_month(y, m)
        },
    }
}

/// The canonical `YYYY-MM-DD` bytes of a date.
fn render_date(y: u32, m: u32, d: u32) -> (r: Vec<u8>)
    requires
        y <= 9999,
        m <= 99,
        d <= 99,
    ensures
        r@ == spec_render_date(y, m, d),
{
    let mut r: Vec<u8> = Vec::new();
    r.push((48 + (y / 1000) % 10) as u8);
    r.push((48 + (y / 100) % 10) as u8);
    r.push((48 + (y / 10) % 10) as u8);
    r.push((48 + y % 10) as u8);
    r.push(45);
    r.push((48 + (m / 10) % 10) as u8);
    r.push((48 + m % 10) as u8);
    r.push(45);
    r.push((48 + (d / 10) % 10) as u8);
    r.push((48 + d % 10) as u8);
    proof {
        assert(r@ =~= spec_render_date(y, m, d));
    }
    r
}

/// The canonical form of a date field, or `None` when it is not a valid
/// date in the given format.
pub fn normalize_date(s: &[u8], fmt: DateFormat) -> (r: Option<Vec<u8>>)
    ensures
        match r {
            Option::Some(v) => spec_date_canon(s@, fmt) == Option::Some(v@),
            Option::None => spec_date_canon(s@, fmt) is None,
        },
{
    let sep = sep_of(fmt);
    match parse3(s, sep) {
        None => None,
        Some((p1, p2, p3)) => {
            let (y, m, d) = match fmt {
                DateFormat::YmdDash => (p1, p2, p3),
                DateFormat::DmySlash => (p3, p2, p1),
                DateFormat::MdySlash => (p3, p1, p2),
            };
            if y <= 9999 && 1 <= m && m <= 12 && 1 <= d && d <= days_in_month(y, m) {
                Some(render_date(y, m, d))
            } else {
                None
            }
        },
    }
}

/// Canonicalization is a round trip on the canonical form: the rendered
/// `YYYY-MM-DD` text of any real calendar day is itself a valid date in
/// the dash format, and canonicalizing it gives it back unchanged.
pub proof fn lemma_date_canon_round_trip(y: u32, m: u32, d: u32)
    requires
        spec_ymd_valid(y, m, d),
    ensures
        spec_date_valid(spec_render_date(y, m, d), DateFormat::YmdDash),
        spec_date_canon(spec_render_date(y, m, d), DateFormat::YmdDash) == Some(
            spec_render_date(y, m, d),
        ),
{
    let s = spec_render_date(y, m, d);
    let b0: u8 = (48 + (y / 1000) % 10) as u8;
    let b1: u8 = (48 + (y / 100) % 10) as u8;
    let b2: u8 = (48 + (y / 10) % 10) as u8;
    let b3: u8 = (48 + y % 10) as u8;
    let b5: u8 = (48 + (m / 10) % 10) as u8;
    let b6: u8 = (48 + m % 10) as u8;
    let b8: u8 = (48 + (d / 10) % 10) as u8;
    let b9: u8 = (48 + d % 10) as u8;
    lemma_find_byte_at(s, 45, 4);
    let rest = s.subrange(5, 10);
    lemma_find_byte_at(rest, 45, 2);
    let g1 = s.subrange(0, 4);
    let g2 = rest.subrange(0, 2);
    let g3 = rest.subrange(3, 5);
    assert(g1 =~= seq![b0, b1, b2, b3]);
    assert(g2 =~= seq![b5, b6]);
    assert(g3 =~= seq![b8, b9]);
    lemma_sat_val_4(y);
    lemma_sat_val_2(m);
    lemma_sat_val_2(d);
    assert(spec_parse3(s, 45) == Some((y, m, d)));
}

proof fn lemma_sat_val_2(v: u32)
    requires
        v <= 99,
    ensures
        sat_val(seq![(48 + (v / 10) % 10) as u8, (48 + v % 10) as u8]) == v,
{
    let hi: u8 = (48 + (v / 10) % 10) as u8;
    let lo: u8 = (48 + v % 10) as u8;
    let s2 = seq![hi, lo];
    let s1 = seq![hi];
    assert(s2.drop_last() =~= s1);
    assert(s1.drop_last() =~= Seq::<u8>::empty());
    assert(sat_val(Seq::<u8>::empty()) == 0);
    assert(sat_val(s1) == (v / 10) % 10);
    assert((v / 10) % 10 == v / 10);
    assert(v / 10 * 10 + v % 10 == v);
    assert(sat_val(s2) == v);
}

proof fn lemma_sat_val_4(v: u32)
    requires
        v <= 9999,
    ensures
        sat_val(
            seq![
                (48 + (v / 1000) % 10) as u8,
                (48 + (v / 100) % 10) as u8,
                (48 + (v / 10) % 10) as u8,
                (48 + v % 10) as u8,
            ],
        ) == v,
{
    let a: u8 = (48 + (v / 1000) % 10) as u8;
    let b: u8 = (48 + (v / 100) % 10) as u8;
    let c: u8 = (48 + (v / 10) % 10) as u8;
    let e: u8 = (48 + v % 10) as u8;
    let s4 = seq![a, b, c, e];
    let s3 = seq![a, b, c];
    let s2 = seq![a, b];
    let s1 = seq![a];
    assert(s4.drop_last() =~= s3);
    assert(s3.drop_last() =~= s2);
    assert(s2.drop_last() =~= s1);
    assert(s1.drop_last() =~= Seq::<u8>::empty());
    assert(sat_val(Seq::<u8>::empty()) == 0);
    assert((v / 1000) % 10 == v / 1000);
    assert(sat_val(s1) == v / 1000);
    assert(v / 100 / 10 == v / 1000) by (nonlinear_arith)
        requires
            v <= 9999,
    ;
    assert(v / 100 == v / 1000 * 10 + (v / 100) % 10);
    assert(sat_val(s2) == v / 100);
    assert(v / 10 / 10 == v / 100) by (nonlinear_arith)
        requires
            v <= 9999,
    ;
    assert(v / 10 == v / 100 * 10 + (v / 10) % 10);
    assert(sat_val(s3) == v / 10);
    assert(v == v / 10 * 10 + v % 10);
    assert(sat_val(s4) == v);
}

} // verus!

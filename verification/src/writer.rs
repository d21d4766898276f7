//! The normalized-row writer: CSV field quoting and bounded row output.
//!
//! A field is wrapped in double quotes, its inner quotes doubled, when it
//! contains the delimiter, a quote, a line feed or a carriage return.
//! Fields are joined with the schema's delimiter; a row ends in a single
//! line feed. Writing stops, mid-row if need be, once the buffer has
//! reached its byte limit.

use vstd::prelude::*;
use crate::schema::ColumnSpec;
use crate::validate::spec_canon_field;
use crate::validate::canon_field;

verus! {

/// Whether a rendered field must be quoted.
pub open spec fn spec_needs_quote(f: Seq<u8>, delim: u8) -> bool {
    exists|i: int| 0 <= i < f.len() && (f[i] == delim || f[i] == 34 || f[i] == 10 || f[i] == 13)
}

/// The field's bytes with every double quote doubled.
pub open spec fn spec_double_quotes(f: Seq<u8>) -> Seq<u8>
    decreases f.len(),
{
    if f.len() == 0 {
        Seq::empty()
    } else if f.last() == 34 {
        spec_double_quotes(f.drop_last()) + seq![34u8, 34u8]
    } else {
        spec_double_quotes(f.drop_last()) + seq![f.last()]
    }
}

/// The field as written into the output: quoted and escaped only when
/// needed.
pub open spec fn spec_csv_field(f: Seq<u8>, delim: u8) -> Seq<u8> {
    if spec_needs_quote(f, delim) {
        seq![34u8] + spec_double_quotes(f) + seq![34u8]
    } else {
        f
    }
}

/// Appends one rendered field to the output with CSV quoting.
pub fn write_csv_field(out: &mut Vec<u8>, f: &[u8], delim: u8)
    ensures
        final(out)@ == old(out)@ + spec_csv_field(f@, delim),
{
    let n: usize = f.len();
    let mut needs: bool = false;
    let mut i: usize = 0;
    while i < n
        invariant
            0 <= i <= n,
            n == f@.len(),
            needs == exists|j: int|
                0 <= j < i && (f@[j] == delim || f@[j] == 34 || f@[j] == 10 || f@[j] == 13),
            out@ == old(out)@,
        decreases n - i,
    {
        let b = f[i];
        if b == delim || b == 34 || b == 10 || b == 13 {
            needs = true;
        }
        i = i + 1;
    }
    if !needs {
        let mut k: usize = 0;
        while k < n
            invariant
                0 <= k <= n,
                n == f@.len(),
                out@ == old(out)@ + f@.subrange(0, k as int),
            decreases n - k,
        {
            out.push(f[k]);
            proof {
                assert(old(out)@ + f@.subrange(0, k + 1 as int) =~= (old(out)@ + f@.subrange(
                    0,
                    k as int,
                )).push(f@[k as int]));
            }
            k = k + 1;
        }
        proof {
            assert(f@.subrange(0, n as int) =~= f@);
        }
        return ;
    }
    out.push(34);
    let mut k: usize = 0;
    while k < n
        invariant
            0 <= k <= n,
            n == f@.len(),
            out@ == old(out)@ + seq![34u8] + spec_double_quotes(f@.subrange(0, k as int)),
        decreases n - k,
    {
        let b = f[k];
        proof {
            let sub1 = f@.subrange(0, k + 1 as int);
            assert(sub1.drop_last() =~= f@.subrange(0, k as int));
            assert(sub1.last() == f@[k as int]);
        }
        if b == 34 {
            out.push(34);
            out.push(34);
            proof {
                assert(old(out)@ + seq![34u8] + spec_double_quotes(f@.subrange(0, k + 1 as int))
                    =~= ((old(out)@ + seq![34u8] + spec_double_quotes(
                    f@.subrange(0, k as int),
                )).push(34u8)).push(34u8));
            }
        } else {
            out.push(b);
            proof {
                assert(old(out)@ + seq![34u8] + spec_double_quotes(f@.subrange(0, k + 1 as int))
                    =~= (old(out)@ + seq![34u8] + spec_double_quotes(
                    f@.subrange(0, k as int),
                )).push(f@[k as int]));
            }
        }
        k = k + 1;
    }
    out.push(34);
    proof {
        assert(f@.subrange(0, n as int) =~= f@);
        assert(old(out)@ + seq![34u8] + spec_double_quotes(f@) + seq![34u8] =~= (old(out)@ + seq![
            34u8,
        ] + spec_double_quotes(f@)).push(34u8));
        assert(out@ =~= old(out)@ + spec_csv_field(f@, delim));
    }
}

/// The input column whose bytes feed schema column `k`: the inverse
/// mapping under headers, the same position otherwise.
pub open spec fn spec_src_of(has_headers: bool, s2i: Seq<Option<usize>>, k: int) -> Option<int> {
    if has_headers {
        if 0 <= k < s2i.len() {
            match s2i[k] {
                Some(j) => Some(j as int),
                None => None,
            }
        } else {
            None
        }
    } else {
        Some(k)
    }
}

/// The raw bytes feeding schema column `k` of a row; empty when the row
/// has no such field.
pub open spec fn spec_row_src(
    has_headers: bool,
    s2i: Seq<Option<usize>>,
    fields: Seq<Seq<u8>>,
    k: int,
) -> Seq<u8> {
    match spec_src_of(has_headers, s2i, k) {
        Some(j) => if 0 <= j < fields.len() {
            fields[j]
        } else {
            Seq::empty()
        },
        None => Seq::empty(),
    }
}

/// The buffer after writing the row's columns from `k` on: each column's
/// canonical field then its separator, stopping once the buffer has
/// reached the limit.
pub open spec fn spec_row_append(
    buf: Seq<u8>,
    limit: nat,
    cols: Seq<ColumnSpec>,
    has_headers: bool,
    s2i: Seq<Option<usize>>,
    fields: Seq<Seq<u8>>,
    delim: u8,
    k: int,
) -> Seq<u8>
    decreases cols.len() - k,
{
    if k < 0 || k >= cols.len() {
        buf
    } else {
        let cell = spec_csv_field(
            spec_canon_field(cols[k], spec_row_src(has_headers, s2i, fields, k)),
            delim,
        );
        let sep: u8 = if k + 1 < cols.len() {
            delim
        } else {
            10
        };
        let b2 = buf + cell + seq![sep];
        if b2.len() >= limit {
            b2
        } else {
            spec_row_append(b2, limit, cols, has_headers, s2i, fields, delim, k + 1)
        }
    }
}

/// Appends one canonicalized row to the output, joined by the delimiter
/// and ended by a line feed, stopping once the buffer is at its limit.
pub fn append_norm_row(
    out: &mut Vec<u8>,
    limit: usize,
    cols: &Vec<ColumnSpec>,
    has_headers: bool,
    s2i: &Vec<Option<usize>>,
    fields: &Vec<Vec<u8>>,
    delim: u8,
)
    ensures
        final(out)@ == spec_row_append(
            old(out)@,
            limit as nat,
            cols@,
            has_headers,
            s2i@,
            crate::fields::views_of(fields@),
            delim,
            0,
        ),
{
    let ncols: usize = cols.len();
    let ghost gf = crate::fields::views_of(fields@);
    let mut k: usize = 0;
    while k < ncols
        invariant
            0 <= k <= ncols,
            ncols == cols@.len(),
            gf == crate::fields::views_of(fields@),
            spec_row_append(old(out)@, limit as nat, cols@, has_headers, s2i@, gf, delim, 0)
                == spec_row_append(out@, limit as nat, cols@, has_headers, s2i@, gf, delim, k as int),
            k > 0 ==> out@.len() < limit,
        decreases ncols - k,
    {
        let src: Option<usize> = if has_headers {
            if k < s2i.len() {
                s2i[k]
            } else {
                None
            }
        } else {
            Some(k)
        };
        let empty_field: Vec<u8> = Vec::new();
        let field: &Vec<u8> = match src {
            Some(j) => {
                if j < fields.len() {
                    &fields[j]
                } else {
                    &empty_field
                }
            },
            None => &empty_field,
        };
        proof {
            assert(field@ == spec_row_src(has_headers, s2i@, gf, k as int));
        }
        let ghost b0 = out@;
        let cell = canon_field(&cols[k], field.as_slice());
        write_csv_field(out, cell.as_slice(), delim);
        let sep: u8 = if k + 1 < ncols {
            delim
        } else {
            10
        };
        out.push(sep);
        proof {
            let gcell = spec_csv_field(
                spec_canon_field(cols@[k as int], spec_row_src(has_headers, s2i@, gf, k as int)),
                delim,
            );
            assert(out@ =~= b0 + gcell + seq![sep]);
        }
        if out.len() >= limit {
            return ;
        }
        k = k + 1;
    }
}

} // verus!

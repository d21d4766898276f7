//! Exact base-10 decimal validation and canonicalization.
//!
//! A decimal literal is an optional sign, then digits with at most one
//! point and at least one digit overall. Canonicalization rounds the value
//! to a fixed number of fractional digits with round-half-away-from-zero
//! and renders it with exactly that many fractional digits.

use vstd::prelude::*;
use crate::fields::{find_byte, is_digit, lemma_find_byte_at, lemma_find_byte_none};

verus! {

/// Every byte is an ASCII digit.
pub open spec fn all_digit_seq(d: Seq<u8>) -> bool {
    forall|i: int| 0 <= i < d.len() ==> is_digit(d[i])
}

/// Every byte is the digit zero.
pub open spec fn all_zeros(d: Seq<u8>) -> bool {
    forall|i: int| 0 <= i < d.len() ==> d[i] == 48
}

/// Whether the literal starts with a sign byte.
pub open spec fn has_sign(s: Seq<u8>) -> bool {
    s.len() > 0 && (s[0] == 43 || s[0] == 45)
}

/// The literal without its sign.
pub open spec fn body_of(s: Seq<u8>) -> Seq<u8> {
    if has_sign(s) {
        s.drop_first()
    } else {
        s
    }
}

/// The parsed shape of a decimal literal: its sign and its digit groups.
pub ghost struct DecParts {
    pub neg: bool,
    pub int_digits: Seq<u8>,
    pub frac_digits: Seq<u8>,
}

/// The integer digits of the body, given the first dot's index.
pub open spec fn int_part(b: Seq<u8>) -> Seq<u8> {
    if find_byte(b, 46) < 0 {
        b
    } else {
        b.subrange(0, find_byte(b, 46))
    }
}

/// The fractional digits of the body, given the first dot's index.
pub open spec fn frac_part(b: Seq<u8>) -> Seq<u8> {
    if find_byte(b, 46) < 0 {
        Seq::empty()
    } else {
        b.subrange(find_byte(b, 46) + 1, b.len() as int)
    }
}

/// Whether the literal is a well-formed decimal, and its parts if so.
pub open spec fn spec_dec_parse(s: Seq<u8>) -> Option<DecParts> {
    let b = body_of(s);
    if all_digit_seq(int_part(b)) && all_digit_seq(frac_part(b)) && int_part(b).len() + frac_part(
        b,
    ).len() > 0 {
        Some(
            DecParts {
                neg: s.len() > 0 && s[0] == 45,
                int_digits: int_part(b),
                frac_digits: frac_part(b),
            },
        )
    } else {
        None
    }
}

/// A run of zero digits.
pub open spec fn zeros(n: nat) -> Seq<u8> {
    Seq::new(n, |i: int| 48u8)
}

/// The digit string plus one, with carry; an all-nines string grows by one
/// digit.
pub open spec fn inc_digits(d: Seq<u8>) -> Seq<u8>
    decreases d.len(),
{
    if d.len() == 0 {
        seq![49u8]
    } else if d.last() < 57 {
        d.update(d.len() - 1, (d.last() + 1) as u8)
    } else {
        inc_digits(d.drop_last()).push(48)
    }
}

/// Rounds the magnitude `int_digits . frac_digits` to exactly `p`
/// fractional digits, half away from zero.
pub open spec fn round_parts(i: Seq<u8>, f: Seq<u8>, p: nat) -> (Seq<u8>, Seq<u8>) {
    if f.len() <= p {
        (i, f + zeros((p - f.len()) as nat))
    } else if f[p as int] >= 53 {
        let c = inc_digits(i + f.subrange(0, p as int));
        (c.subrange(0, c.len() - p), c.subrange(c.len() - p, c.len() as int))
    } else {
        (i, f.subrange(0, p as int))
    }
}

/// The digit string without leading zeros, keeping at least one digit.
pub open spec fn strip_zeros(d: Seq<u8>) -> Seq<u8>
    decreases d.len(),
{
    if d.len() > 1 && d[0] == 48 {
        strip_zeros(d.drop_first())
    } else {
        d
    }
}

/// The integer digits as rendered: stripped, and `0` when empty.
pub open spec fn norm_int(d: Seq<u8>) -> Seq<u8> {
    if strip_zeros(d).len() == 0 {
        seq![48u8]
    } else {
        strip_zeros(d)
    }
}

/// The canonical text of a rounded decimal: a sign only on a nonzero
/// value, the integer digits without leading zeros, and the fractional
/// digits after a point only when there are any.
pub open spec fn dec_render(neg: bool, i: Seq<u8>, f: Seq<u8>) -> Seq<u8> {
    let sign: Seq<u8> = if neg && !(all_zeros(i) && all_zeros(f)) {
        seq![45u8]
    } else {
        Seq::empty()
    };
    let tail: Seq<u8> = if f.len() > 0 {
        seq![46u8] + f
    } else {
        Seq::empty()
    };
    sign + norm_int(i) + tail
}

/// The canonical form of a decimal literal at precision `p`, or `None`
/// when the literal does not parse.
pub open spec fn spec_dec_canon(s: Seq<u8>, p: nat) -> Option<Seq<u8>> {
    match spec_dec_parse(s) {
        Option::Some(parts) => {
            let rounded = round_parts(parts.int_digits, parts.frac_digits, p);
            Option::Some(dec_render(parts.neg, rounded.0, rounded.1))
        },
        Option::None => Option::None,
    }
}

/// Whether the literal is a well-formed decimal. Rounding never fails, so
/// validity is exactly parseability.
pub open spec fn spec_dec_valid(s: Seq<u8>) -> bool {
    spec_dec_parse(s) is Some
}

/// Parses a decimal literal into its sign, integer digits and fractional
/// digits, or reports that it is not well formed.
#[verifier::rlimit(50)]
pub fn dec_parse(s: &[u8]) -> (r: Option<(bool, Vec<u8>, Vec<u8>)>)
    ensures
        match r {
            Option::Some(t) => {
                &&& spec_dec_parse(s@) matches Option::Some(parts)
                &&& parts.neg == t.0
                &&& parts.int_digits == t.1@
                &&& parts.frac_digits == t.2@
            },
            Option::None => spec_dec_parse(s@) is None,
        },
{
    let n: usize = s.len();
    let neg: bool = n > 0 && s[0] == 45;
    let start: usize = if n > 0 && (s[0] == 43 || s[0] == 45) {
        1
    } else {
        0
    };
    proof {
        if start == 1 {
            assert(body_of(s@) =~= s@.subrange(1, n as int));
        } else {
            assert(body_of(s@) =~= s@.subrange(0, n as int));
        }
    }
    let ghost b = body_of(s@);
    // Find the first dot, if any, within the body.
    let mut k: usize = start;
    while k < n && s[k] != 46
        invariant
            start <= k <= n,
            n == s@.len(),
            forall|j: int| start <= j < k ==> s@[j] != 46,
        decreases n - k,
    {
        k = k + 1;
    }
    let dot: usize = k;
    proof {
        if dot < n {
            lemma_find_byte_at(b, 46, dot - start);
        } else {
            lemma_find_byte_none(b, 46);
        }
    }
    let int_end: usize = dot;
    let ghost ip = int_part(b);
    let ghost fp = frac_part(b);
    proof {
        assert(ip =~= s@.subrange(start as int, int_end as int));
        if dot < n {
            assert(fp =~= s@.subrange(dot + 1 as int, n as int));
        } else {
            assert(fp =~= Seq::<u8>::empty());
        }
    }
    if int_end == start && dot >= n {
        // Empty body: no digits at all.
        return None;
    }
    if int_end == start && dot + 1 >= n {
        // A lone dot with nothing after it.
        return None;
    }
    let mut int_digits: Vec<u8> = Vec::new();
    let mut i: usize = start;
    while i < int_end
        invariant
            start <= i <= int_end <= n,
            n == s@.len(),
            ip == s@.subrange(start as int, int_end as int),
            ip == int_part(body_of(s@)),
            int_digits@ == s@.subrange(start as int, i as int),
            forall|j: int| start <= j < i ==> is_digit(s@[j]),
        decreases int_end - i,
    {
        let c = s[i];
        if !(48 <= c && c <= 57) {
            proof {
                assert(ip[i - start] == s@[i as int]);
                assert(!is_digit(ip[i - start]));
                assert(!all_digit_seq(int_part(body_of(s@))));
            }
            return None;
        }
        int_digits.push(c);
        proof {
            assert(s@.subrange(start as int, i + 1 as int) =~= s@.subrange(
                start as int,
                i as int,
            ).push(s@[i as int]));
        }
        i = i + 1;
    }
    proof {
        assert(forall|j: int| 0 <= j < ip.len() ==> is_digit(#[trigger] ip[j])) by {
            assert(forall|j: int| 0 <= j < ip.len() ==> #[trigger] ip[j] == s@[start + j]);
        }
    }
    let mut frac_digits: Vec<u8> = Vec::new();
    if dot < n {
        let mut j: usize = dot + 1;
        while j < n
            invariant
                dot + 1 <= j <= n,
                n == s@.len(),
                fp == s@.subrange(dot + 1 as int, n as int),
                fp == frac_part(body_of(s@)),
                frac_digits@ == s@.subrange(dot + 1 as int, j as int),
                forall|t: int| dot + 1 <= t < j ==> is_digit(s@[t]),
            decreases n - j,
        {
            let c = s[j];
            if !(48 <= c && c <= 57) {
                proof {
                    assert(fp[j - dot - 1] == s@[j as int]);
                    assert(!is_digit(fp[j - dot - 1]));
                    assert(!all_digit_seq(frac_part(body_of(s@))));
                }
                return None;
            }
            frac_digits.push(c);
            proof {
                assert(s@.subrange(dot + 1 as int, j + 1 as int) =~= s@.subrange(
                    dot + 1 as int,
                    j as int,
                ).push(s@[j as int]));
            }
            j = j + 1;
        }
        proof {
            assert(forall|t: int| 0 <= t < fp.len() ==> is_digit(#[trigger] fp[t])) by {
                assert(forall|t: int| 0 <= t < fp.len() ==> #[trigger] fp[t] == s@[dot + 1 + t]);
            }
        }
    }
    Some((neg, int_digits, frac_digits))
}

proof fn lemma_inc_digits_at(d: Seq<u8>, j: int)
    requires
        0 <= j < d.len(),
        d[j] < 57,
        forall|t: int| j < t < d.len() ==> d[t] == 57,
    ensures
        inc_digits(d) =~= d.subrange(0, j) + seq![(d[j] + 1) as u8] + zeros((d.len() - j - 1) as nat),
    decreases d.len() - j,
{
    if j == d.len() - 1 {
        assert(inc_digits(d) == d.update(d.len() - 1, (d.last() + 1) as u8));
    } else {
        lemma_inc_digits_at(d.drop_last(), j);
        assert(d.drop_last().subrange(0, j) =~= d.subrange(0, j));
        assert(d.drop_last()[j] == d[j]);
    }
}

proof fn lemma_inc_digits_all_nines(d: Seq<u8>)
    requires
        forall|t: int| 0 <= t < d.len() ==> d[t] == 57,
    ensures
        inc_digits(d) =~= seq![49u8] + zeros(d.len()),
    decreases d.len(),
{
    if d.len() > 0 {
        lemma_inc_digits_all_nines(d.drop_last());
    }
}

/// Adds one to the number written in `d`, carrying through nines; an
/// all-nines string grows by one digit.
fn inc_digits_exec(d: &mut Vec<u8>)
    requires
        all_digit_seq(old(d)@),
    ensures
        final(d)@ == inc_digits(old(d)@),
{
    let n: usize = d.len();
    let mut j: usize = n;
    while j > 0 && d[j - 1] == 57
        invariant
            0 <= j <= n,
            n == d@.len(),
            d@ == old(d)@,
            forall|t: int| j <= t < n ==> d@[t] == 57,
        decreases j,
    {
        j = j - 1;
    }
    let mut t: usize = j;
    while t < n
        invariant
            j <= t <= n,
            n == d@.len(),
            forall|q: int| 0 <= q < j ==> d@[q] == old(d)@[q],
            forall|q: int| j <= q < t ==> d@[q] == 48,
            forall|q: int| t <= q < n ==> d@[q] == old(d)@[q],
        decreases n - t,
    {
        d.set(t, 48);
        t = t + 1;
    }
    if j == 0 {
        d.insert(0, 49);
        proof {
            lemma_inc_digits_all_nines(old(d)@);
            assert(d@ =~= seq![49u8] + zeros(n as nat));
        }
    } else {
        let v = d[j - 1];
        proof {
            assert(old(d)@[j - 1] < 57);
        }
        d.set(j - 1, v + 1);
        proof {
            lemma_inc_digits_at(old(d)@, j - 1);
            assert(d@ =~= old(d)@.subrange(0, j - 1) + seq![(old(d)@[j - 1] + 1) as u8] + zeros(
                (n - j) as nat,
            ));
        }
    }
}

proof fn lemma_strip_zeros_at(d: Seq<u8>, st: int)
    requires
        0 <= st < d.len(),
        forall|j: int| 0 <= j < st ==> d[j] == 48,
        d[st] != 48 || st == d.len() - 1,
    ensures
        strip_zeros(d) == d.subrange(st, d.len() as int),
    decreases st,
{
    if st == 0 {
        assert(d.subrange(0, d.len() as int) =~= d);
    } else {
        lemma_strip_zeros_at(d.drop_first(), st - 1);
        assert(d.drop_first().subrange(st - 1, d.drop_first().len() as int) =~= d.subrange(
            st,
            d.len() as int,
        ));
    }
}

/// Renders a rounded decimal: optional sign, integer digits without
/// leading zeros, and the fractional digits after a point when any.
fn dec_render_exec(neg: bool, ints: &Vec<u8>, fracs: &Vec<u8>) -> (r: Vec<u8>)
    ensures
        r@ == dec_render(neg, ints@, fracs@),
{
    let ni: usize = ints.len();
    let nf: usize = fracs.len();
    // Is the whole value zero?
    let mut zero: bool = true;
    let mut i: usize = 0;
    while i < ni
        invariant
            0 <= i <= ni,
            ni == ints@.len(),
            zero == (forall|j: int| 0 <= j < i ==> ints@[j] == 48),
        decreases ni - i,
    {
        if ints[i] != 48 {
            zero = false;
        }
        i = i + 1;
    }
    let mut k: usize = 0;
    let iz: bool = zero;
    while k < nf
        invariant
            0 <= k <= nf,
            nf == fracs@.len(),
            zero == (iz && forall|j: int| 0 <= j < k ==> fracs@[j] == 48),
        decreases nf - k,
    {
        if fracs[k] != 48 {
            zero = false;
        }
        k = k + 1;
    }
    proof {
        assert(zero == (all_zeros(ints@) && all_zeros(fracs@)));
    }
    // Strip the integer digits, keeping at least one.
    let mut st: usize = 0;
    while st + 1 < ni && ints[st] == 48
        invariant
            0 <= st <= ni,
            ni == ints@.len(),
            ni > 0 ==> st < ni,
            forall|j: int| 0 <= j < st ==> ints@[j] == 48,
        decreases ni - st,
    {
        st = st + 1;
    }
    let mut r: Vec<u8> = Vec::new();
    if neg && !zero {
        r.push(45);
    }
    let ghost sign: Seq<u8> = if neg && !zero {
        seq![45u8]
    } else {
        Seq::<u8>::empty()
    };
    proof {
        assert(r@ =~= sign);
        if ni > 0 {
            lemma_strip_zeros_at(ints@, st as int);
        }
    }
    if ni == 0 {
        r.push(48);
    } else {
        let mut q: usize = st;
        while q < ni
            invariant
                st <= q <= ni,
                ni == ints@.len(),
                r@ == sign + ints@.subrange(st as int, q as int),
            decreases ni - q,
        {
            r.push(ints[q]);
            proof {
                assert(sign + ints@.subrange(st as int, q + 1 as int) =~= (sign + ints@.subrange(
                    st as int,
                    q as int,
                )).push(ints@[q as int]));
            }
            q = q + 1;
        }
    }
    proof {
        assert(r@ =~= sign + norm_int(ints@));
    }
    if nf > 0 {
        r.push(46);
        let mut q: usize = 0;
        while q < nf
            invariant
                0 <= q <= nf,
                nf == fracs@.len(),
                r@ == sign + norm_int(ints@) + seq![46u8] + fracs@.subrange(0, q as int),
            decreases nf - q,
        {
            r.push(fracs[q]);
            proof {
                assert(sign + norm_int(ints@) + seq![46u8] + fracs@.subrange(0, q + 1 as int) =~= (
                sign + norm_int(ints@) + seq![46u8] + fracs@.subrange(0, q as int)).push(
                    fracs@[q as int],
                ));
            }
            q = q + 1;
        }
        proof {
            assert(fracs@.subrange(0, nf as int) =~= fracs@);
            assert(r@ =~= dec_render(neg, ints@, fracs@));
        }
    } else {
        proof {
            assert(r@ =~= dec_render(neg, ints@, fracs@));
        }
    }
    r
}

/// The canonical form of a decimal literal at the given precision, or
/// `None` when the literal is not a well-formed decimal.
pub fn dec_canonicalize(s: &[u8], precision: u32) -> (r: Option<Vec<u8>>)
    ensures
        match r {
            Option::Some(v) => spec_dec_canon(s@, precision as nat) == Option::Some(v@),
            Option::None => spec_dec_canon(s@, precision as nat) is None,
        },
{
    let parsed = dec_parse(s);
    match parsed {
        Option::None => Option::None,
        Option::Some((neg, ints, fracs)) => {
            let p: usize = precision as usize;
            let ghost gi = ints@;
            let ghost gf = fracs@;
            let mut ints2 = ints;
            let mut fracs2 = fracs;
            if fracs2.len() <= p {
                let mut t: usize = fracs2.len();
                while t < p
                    invariant
                        gf.len() <= t <= p,
                        fracs2@.len() == t,
                        fracs2@ == gf + zeros((t - gf.len()) as nat),
                    decreases p - t,
                {
                    fracs2.push(48);
                    proof {
                        assert(gf + zeros((t + 1 - gf.len()) as nat) =~= (gf + zeros(
                            (t - gf.len()) as nat,
                        )).push(48u8));
                    }
                    t = t + 1;
                }
                proof {
                    assert(fracs2@ =~= gf + zeros((p - gf.len()) as nat));
                }
            } else {
                // Too many fractional digits: keep p, round half away
                // from zero on the first dropped digit.
                let up: bool = fracs2[p] >= 53;
                fracs2.truncate(p);
                proof {
                    assert(fracs2@ =~= gf.subrange(0, p as int));
                }
                if up {
                    let mut combined = ints2;
                    let mut rest = fracs2;
                    let ghost gc = gi + gf.subrange(0, p as int);
                    combined.append(&mut rest);
                    proof {
                        assert(combined@ =~= gc);
                        assert(all_digit_seq(gc));
                    }
                    inc_digits_exec(&mut combined);
                    let total: usize = combined.len();
                    proof {
                        lemma_inc_digits_len(gc, p as nat);
                    }
                    let mut f2 = combined.split_off(total - p);
                    proof {
                        assert(combined@ =~= inc_digits(gc).subrange(
                            0,
                            inc_digits(gc).len() - p,
                        ));
                        assert(f2@ =~= inc_digits(gc).subrange(
                            inc_digits(gc).len() - p,
                            inc_digits(gc).len() as int,
                        ));
                    }
                    ints2 = combined;
                    fracs2 = f2;
                } else {
                    // Low first dropped digit: the kept digits stand.
                }
            }
            Option::Some(dec_render_exec(neg, &ints2, &fracs2))
        },
    }
}

proof fn lemma_inc_digits_len(d: Seq<u8>, p: nat)
    requires
        p <= d.len(),
    ensures
        inc_digits(d).len() == d.len() || inc_digits(d).len() == d.len() + 1,
        inc_digits(d).len() >= p,
        inc_digits(d).len() >= 1,
    decreases d.len(),
{
    if d.len() == 0 {
    } else if d.last() < 57 {
    } else {
        lemma_inc_digits_len(d.drop_last(), 0);
    }
}

proof fn lemma_inc_digits_digits(d: Seq<u8>)
    requires
        all_digit_seq(d),
    ensures
        all_digit_seq(inc_digits(d)),
    decreases d.len(),
{
    if d.len() == 0 {
        assert(all_digit_seq(seq![49u8])) by {
            assert(seq![49u8][0] == 49);
        }
    } else if d.last() < 57 {
    } else {
        assert(all_digit_seq(d.drop_last()));
        lemma_inc_digits_digits(d.drop_last());
    }
}

proof fn lemma_strip_zeros_props(d: Seq<u8>)
    ensures
        d.len() > 0 ==> strip_zeros(d).len() >= 1,
        strip_zeros(d).len() > 1 ==> strip_zeros(d)[0] != 48,
        all_zeros(strip_zeros(d)) == all_zeros(d),
        all_digit_seq(d) ==> all_digit_seq(strip_zeros(d)),
    decreases d.len(),
{
    if d.len() > 1 && d[0] == 48 {
        lemma_strip_zeros_props(d.drop_first());
        assert(all_zeros(d) == all_zeros(d.drop_first())) by {
            if all_zeros(d.drop_first()) {
                assert(forall|i: int| 0 <= i < d.len() ==> d[i] == 48) by {
                    assert(forall|i: int| 1 <= i < d.len() ==> d[i] == d.drop_first()[i - 1]);
                }
            }
        }
        if all_digit_seq(d) {
            assert(all_digit_seq(d.drop_first()));
        }
    }
}

/// Decimal canonicalization is idempotent: the canonical form of any
/// well-formed decimal literal is itself a well-formed literal, and
/// canonicalizing it again at the same precision gives it back
/// unchanged.
pub proof fn lemma_dec_canon_idempotent(s: Seq<u8>, p: nat)
    requires
        spec_dec_valid(s),
    ensures
        spec_dec_canon(s, p) is Some,
        spec_dec_canon(spec_dec_canon(s, p)->Some_0, p) == spec_dec_canon(s, p),
{
    let parts = spec_dec_parse(s)->Some_0;
    let rounded = round_parts(parts.int_digits, parts.frac_digits, p);
    let i2 = rounded.0;
    let f2 = rounded.1;
    let c = dec_render(parts.neg, i2, f2);
    // The rounded parts are digit strings and the fraction has width p.
    assert(all_digit_seq(i2) && all_digit_seq(f2) && f2.len() == p) by {
        let i0 = parts.int_digits;
        let f0 = parts.frac_digits;
        if f0.len() <= p {
            let zs = zeros((p - f0.len()) as nat);
            assert(forall|t: int| 0 <= t < zs.len() ==> #[trigger] zs[t] == 48);
            assert(all_digit_seq(f0 + zeros((p - f0.len()) as nat))) by {
                assert(forall|t: int|
                    0 <= t < f0.len() ==> (f0 + zeros((p - f0.len()) as nat))[t] == f0[t]);
            }
        } else if f0[p as int] >= 53 {
            let keep = f0.subrange(0, p as int);
            assert(all_digit_seq(i0 + keep)) by {
                assert(forall|t: int| 0 <= t < i0.len() ==> (i0 + keep)[t] == i0[t]);
            }
            lemma_inc_digits_digits(i0 + keep);
            lemma_inc_digits_len(i0 + keep, p);
            let cc = inc_digits(i0 + keep);
            assert(all_digit_seq(cc.subrange(0, cc.len() - p)));
            assert(all_digit_seq(cc.subrange(cc.len() - p, cc.len() as int)));
        } else {
            assert(all_digit_seq(f0.subrange(0, p as int)));
        }
    }
    lemma_strip_zeros_props(i2);
    let ni = norm_int(i2);
    // The rendered integer part is nonempty, digits, and already
    // stripped; its zeroness matches the rounded integer part's.
    assert(ni.len() >= 1);
    assert(all_digit_seq(ni)) by {
        if strip_zeros(i2).len() == 0 {
            assert(ni == seq![48u8]);
            assert(ni[0] == 48);
        }
    }
    assert(strip_zeros(ni) == ni) by {
        if strip_zeros(i2).len() == 0 {
            assert(ni == seq![48u8]);
        } else {
            assert(ni == strip_zeros(i2));
            if ni.len() > 1 {
                assert(ni[0] != 48);
            }
        }
    }
    assert(all_zeros(ni) == all_zeros(i2)) by {
        if strip_zeros(i2).len() == 0 {
            assert(i2.len() == 0);
            assert(ni == seq![48u8]);
            assert(forall|t: int| 0 <= t < ni.len() ==> ni[t] == 48);
        }
    }
    let zero = all_zeros(i2) && all_zeros(f2);
    let sign: Seq<u8> = if parts.neg && !zero {
        seq![45u8]
    } else {
        Seq::empty()
    };
    let tail: Seq<u8> = if f2.len() > 0 {
        seq![46u8] + f2
    } else {
        Seq::empty()
    };
    assert(c == sign + ni + tail);
    // Parsing the rendering recovers the same sign and digit groups.
    let b = body_of(c);
    assert(b =~= ni + tail) by {
        if parts.neg && !zero {
            assert(c[0] == 45);
            assert(has_sign(c));
            assert(c.drop_first() =~= ni + tail);
        } else {
            assert(c =~= ni + tail);
            assert(is_digit(c[0]));
            assert(!has_sign(c));
        }
    }
    if p > 0 {
        assert(b[ni.len() as int] == 46);
        assert(forall|j: int| 0 <= j < ni.len() ==> b[j] == ni[j] && b[j] != 46);
        lemma_find_byte_at(b, 46, ni.len() as int);
        assert(int_part(b) =~= ni);
        assert(frac_part(b) =~= f2);
    } else {
        assert(b =~= ni);
        assert(forall|j: int| 0 <= j < b.len() ==> b[j] != 46);
        lemma_find_byte_none(b, 46);
        assert(int_part(b) =~= ni);
        assert(frac_part(b) =~= Seq::<u8>::empty());
    }
    assert(spec_dec_parse(c) is Some);
    let parts2 = spec_dec_parse(c)->Some_0;
    assert(parts2.int_digits == ni && parts2.frac_digits == f2);
    assert(parts2.neg == (parts.neg && !zero)) by {
        if parts.neg && !zero {
            assert(c[0] == 45);
        } else {
            assert(is_digit(c[0]));
        }
    }
    // Rounding the canonical parts changes nothing: the fraction already
    // has width p.
    let rounded2 = round_parts(ni, f2, p);
    assert(rounded2.0 == ni && rounded2.1 == f2) by {
        assert(f2 + zeros(0) =~= f2);
    }
    // Rendering again gives the same text.
    let zero2 = all_zeros(ni) && all_zeros(f2);
    assert(zero2 == zero);
    let c2 = dec_render(parts2.neg, ni, f2);
    assert(c2 == c) by {
        assert(norm_int(ni) == ni) by {
            if strip_zeros(ni).len() == 0 {
                assert(ni.len() == 0);
            }
        }
        assert((parts2.neg && !zero2) == (parts.neg && !zero));
    }
}

} // verus!

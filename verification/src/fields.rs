//! Byte-level helpers shared by field validation and canonicalization:
//! ASCII trimming, integer syntax, UTF-8 validity and byte comparison.

use vstd::prelude::*;

verus! {

/// ASCII whitespace: space, tab, line feed, form feed, carriage return.
pub open spec fn is_ws(b: u8) -> bool {
    b == 32 || b == 9 || b == 10 || b == 12 || b == 13
}

/// ASCII decimal digit.
pub open spec fn is_digit(b: u8) -> bool {
    48 <= b && b <= 57
}

/// The sequence without its leading ASCII whitespace.
pub open spec fn spec_trim_start(s: Seq<u8>) -> Seq<u8>
    decreases s.len(),
{
    if s.len() > 0 && is_ws(s[0]) {
        spec_trim_start(s.drop_first())
    } else {
        s
    }
}

/// The sequence without its trailing ASCII whitespace.
pub open spec fn spec_trim_end(s: Seq<u8>) -> Seq<u8>
    decreases s.len(),
{
    if s.len() > 0 && is_ws(s.last()) {
        spec_trim_end(s.drop_last())
    } else {
        s
    }
}

/// The sequence without leading and trailing ASCII whitespace.
pub open spec fn spec_trim(s: Seq<u8>) -> Seq<u8> {
    spec_trim_end(spec_trim_start(s))
}

proof fn lemma_trim_start_at(s: Seq<u8>, lo: int)
    requires
        0 <= lo <= s.len(),
        forall|i: int| 0 <= i < lo ==> is_ws(s[i]),
        lo == s.len() || !is_ws(s[lo]),
    ensures
        spec_trim_start(s) == s.subrange(lo, s.len() as int),
    decreases lo,
{
    if lo == 0 {
        assert(s.subrange(0, s.len() as int) =~= s);
    } else {
        let t = s.drop_first();
        lemma_trim_start_at(t, lo - 1);
        assert(t.subrange(lo - 1, t.len() as int) =~= s.subrange(lo, s.len() as int));
    }
}

proof fn lemma_trim_end_at(s: Seq<u8>, hi: int)
    requires
        0 <= hi <= s.len(),
        forall|i: int| hi <= i < s.len() ==> is_ws(s[i]),
        hi == 0 || !is_ws(s[hi - 1]),
    ensures
        spec_trim_end(s) == s.subrange(0, hi),
    decreases s.len() - hi,
{
    if hi == s.len() {
        assert(s.subrange(0, s.len() as int) =~= s);
    } else {
        let t = s.drop_last();
        lemma_trim_end_at(t, hi);
        assert(t.subrange(0, hi) =~= s.subrange(0, hi));
    }
}

/// Trims ASCII whitespace from both ends, copying the kept bytes out.
pub fn trim_ascii(s: &[u8]) -> (r: Vec<u8>)
    ensures
        r@ == spec_trim(s@),
{
    let n: usize = s.len();
    let mut lo: usize = 0;
    while lo < n && (s[lo] == 32 || s[lo] == 9 || s[lo] == 10 || s[lo] == 12 || s[lo] == 13)
        invariant
            0 <= lo <= n,
            n == s@.len(),
            forall|i: int| 0 <= i < lo ==> is_ws(s@[i]),
        decreases n - lo,
    {
        lo = lo + 1;
    }
    let mut hi: usize = n;
    while hi > lo && (s[hi - 1] == 32 || s[hi - 1] == 9 || s[hi - 1] == 10 || s[hi - 1] == 12
        || s[hi - 1] == 13)
        invariant
            lo <= hi <= n,
            n == s@.len(),
            forall|i: int| hi <= i < n ==> is_ws(s@[i]),
        decreases hi,
    {
        hi = hi - 1;
    }
    proof {
        lemma_trim_start_at(s@, lo as int);
        let t = s@.subrange(lo as int, n as int);
        lemma_trim_end_at(t, hi - lo);
        assert(t.subrange(0, hi - lo) =~= s@.subrange(lo as int, hi as int));
    }
    let mut r: Vec<u8> = Vec::new();
    let mut i: usize = lo;
    while i < hi
        invariant
            lo <= i <= hi <= n,
            n == s@.len(),
            r@ == s@.subrange(lo as int, i as int),
        decreases hi - i,
    {
        r.push(s[i]);
        proof {
            assert(s@.subrange(lo as int, i + 1 as int) =~= s@.subrange(lo as int, i as int).push(
                s@[i as int],
            ));
        }
        i = i + 1;
    }
    r
}

/// One or more ASCII digits and nothing else.
pub open spec fn spec_all_digits(b: Seq<u8>) -> bool {
    b.len() > 0 && forall|i: int| 0 <= i < b.len() ==> is_digit(b[i])
}

/// Integer syntax: an optional leading sign, then one or more ASCII digits
/// and nothing else.
pub open spec fn spec_is_int(s: Seq<u8>) -> bool {
    if s.len() > 0 && (s[0] == 43 || s[0] == 45) {
        spec_all_digits(s.drop_first())
    } else {
        spec_all_digits(s)
    }
}

/// Checks integer syntax on the given bytes.
pub fn is_valid_int(s: &[u8]) -> (r: bool)
    ensures
        r == spec_is_int(s@),
{
    let n: usize = s.len();
    if n == 0 {
        return false;
    }
    let start: usize = if s[0] == 43 || s[0] == 45 {
        1
    } else {
        0
    };
    proof {
        if start == 1 {
            assert(s@.drop_first() =~= s@.subrange(1, n as int));
        } else {
            assert(s@ =~= s@.subrange(0, n as int));
        }
    }
    if start >= n {
        return false;
    }
    let mut i: usize = start;
    while i < n
        invariant
            start <= i <= n,
            n == s@.len(),
            n >= 1,
            start == 0 || start == 1,
            (start == 1) <==> (s@[0] == 43 || s@[0] == 45),
            forall|j: int| start <= j < i ==> is_digit(s@[j]),
        decreases n - i,
    {
        if !(48 <= s[i] && s[i] <= 57) {
            proof {
                if start == 1 {
                    let body = s@.drop_first();
                    assert(!is_digit(body[i - 1]));
                    assert(!spec_all_digits(body));
                } else {
                    assert(!is_digit(s@[i as int]));
                    assert(!spec_all_digits(s@));
                }
            }
            return false;
        }
        i = i + 1;
    }
    proof {
        if start == 1 {
            let body = s@.drop_first();
            assert(forall|j: int| 0 <= j < body.len() ==> is_digit(#[trigger] body[j]));
        }
    }
    true
}

/// Relies on `core::str::from_utf8`: it returns `Ok` exactly when the bytes
/// are valid UTF-8.
#[verifier::external_body]
pub(crate) fn is_utf8(v: &[u8]) -> (r: bool)
    ensures
        r == vstd::utf8::valid_utf8(v@),
{
    core::str::from_utf8(v).is_ok()
}

/// Byte-for-byte equality of two slices.
pub fn bytes_eq(a: &[u8], b: &[u8]) -> (r: bool)
    ensures
        r == (a@ == b@),
{
    let n: usize = a.len();
    if n != b.len() {
        proof {
            assert(a@ != b@);
        }
        return false;
    }
    let mut i: usize = 0;
    while i < n
        invariant
            0 <= i <= n,
            n == a@.len() && n == b@.len(),
            forall|j: int| 0 <= j < i ==> a@[j] == b@[j],
        decreases n - i,
    {
        if a[i] != b[i] {
            return false;
        }
        i = i + 1;
    }
    proof {
        assert(a@ =~= b@);
    }
    true
}

/// Membership of `v` in a list of byte strings.
pub open spec fn spec_in_list(list: Seq<Vec<u8>>, v: Seq<u8>) -> bool {
    exists|i: int| 0 <= i < list.len() && list[i]@ == v
}

/// Looks `v` up in the list by exact byte equality.
pub fn in_list(list: &Vec<Vec<u8>>, v: &[u8]) -> (r: bool)
    ensures
        r == spec_in_list(list@, v@),
{
    let n: usize = list.len();
    let mut i: usize = 0;
    while i < n
        invariant
            0 <= i <= n,
            n == list@.len(),
            forall|j: int| 0 <= j < i ==> list@[j]@ != v@,
        decreases n - i,
    {
        if bytes_eq(list[i].as_slice(), v) {
            return true;
        }
        i = i + 1;
    }
    false
}

/// Index of the first occurrence of `c`, or -1 when there is none.
pub open spec fn find_byte(b: Seq<u8>, c: u8) -> int
    decreases b.len(),
{
    if b.len() == 0 {
        -1
    } else if b[0] == c {
        0
    } else if find_byte(b.drop_first(), c) < 0 {
        -1
    } else {
        find_byte(b.drop_first(), c) + 1
    }
}

pub proof fn lemma_find_byte_at(b: Seq<u8>, c: u8, k: int)
    requires
        0 <= k < b.len(),
        b[k] == c,
        forall|j: int| 0 <= j < k ==> b[j] != c,
    ensures
        find_byte(b, c) == k,
    decreases k,
{
    if k == 0 {
    } else {
        lemma_find_byte_at(b.drop_first(), c, k - 1);
    }
}

pub proof fn lemma_find_byte_none(b: Seq<u8>, c: u8)
    requires
        forall|j: int| 0 <= j < b.len() ==> b[j] != c,
    ensures
        find_byte(b, c) == -1,
    decreases b.len(),
{
    if b.len() > 0 {
        lemma_find_byte_none(b.drop_first(), c);
    }
}

/// The byte sequences a list of byte vectors holds.
pub open spec fn views_of(v: Seq<Vec<u8>>) -> Seq<Seq<u8>> {
    Seq::new(v.len(), |i: int| v[i]@)
}

/// A fresh vector holding the same bytes.
pub fn copy_bytes(v: &[u8]) -> (r: Vec<u8>)
    ensures
        r@ == v@,
{
    let n: usize = v.len();
    let mut r: Vec<u8> = Vec::new();
    let mut i: usize = 0;
    while i < n
        invariant
            0 <= i <= n,
            n == v@.len(),
            r@ == v@.subrange(0, i as int),
        decreases n - i,
    {
        r.push(v[i]);
        proof {
            assert(v@.subrange(0, i + 1 as int) =~= v@.subrange(0, i as int).push(v@[i as int]));
        }
        i = i + 1;
    }
    proof {
        assert(v@.subrange(0, n as int) =~= v@);
    }
    r
}

} // verus!

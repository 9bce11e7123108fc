//! Scalar value parsers.
//!
//! Pure functions over attribute byte slices: decimal integers, booleans,
//! byte ranges, ISO 8601 durations and decimal fractions.  Each parser has a
//! specification twin that pins down exactly which inputs are accepted and
//! which value they denote.

use vstd::prelude::*;

verus! {

use vstd::string::StringExecFns;
use crate::errors::ParsingError;
use crate::values::{AttrNum, Ratio};

/// One ASCII decimal digit.
pub open spec fn is_digit(b: u8) -> bool {
    ('0' as u8) <= b && b <= ('9' as u8)
}

/// Every byte of `s` is an ASCII decimal digit.
pub open spec fn all_digits(s: Seq<u8>) -> bool {
    forall|i: int| 0 <= i < s.len() ==> is_digit(#[trigger] s[i])
}

/// The number denoted by a sequence of ASCII digits, most significant first.
pub open spec fn digits_val(s: Seq<u8>) -> int
    decreases s.len(),
{
    if s.len() == 0 {
        0
    } else {
        digits_val(s.drop_last()) * 10 + s.last() - ('0' as u8)
    }
}

/// A digit string denotes a non-negative number, and extending it on the
/// right never decreases the denoted value.
pub proof fn lemma_digits_val_bounds(s: Seq<u8>)
    requires
        all_digits(s),
    ensures
        digits_val(s) >= 0,
        s.len() > 0 ==> digits_val(s) >= digits_val(s.drop_last()),
    decreases s.len(),
{
    if s.len() > 0 {
        assert(all_digits(s.drop_last()));
        lemma_digits_val_bounds(s.drop_last());
        assert(is_digit(s.last()));
    }
}

/// The value of each prefix of a digit string is bounded by the value of any
/// longer prefix.
pub proof fn lemma_digits_val_prefix_le(s: Seq<u8>, i: int, j: int)
    requires
        all_digits(s),
        0 <= i <= j <= s.len(),
    ensures
        digits_val(s.subrange(0, i)) <= digits_val(s.subrange(0, j)),
    decreases j - i,
{
    if i < j {
        lemma_digits_val_prefix_le(s, i, j - 1);
        let p = s.subrange(0, j);
        assert(p.drop_last() =~= s.subrange(0, j - 1));
        assert(all_digits(p)) by {
            assert(forall|k: int| 0 <= k < p.len() ==> p[k] == s[k]);
        }
        lemma_digits_val_bounds(p);
    }
}

/// The slice with one optional leading `+` removed.
pub open spec fn strip_plus(s: Seq<u8>) -> Seq<u8> {
    if s.len() > 0 && s[0] == ('+' as u8) {
        s.skip(1)
    } else {
        s
    }
}

/// Specification of [`parse_u64`]: an optional leading `+`, then at least
/// one ASCII digit, denoting a value that fits in a `u64`.
pub open spec fn spec_parse_u64(s: Seq<u8>) -> Option<u64> {
    let t = strip_plus(s);
    if t.len() > 0 && all_digits(t) && digits_val(t) <= u64::MAX {
        Some(digits_val(t) as u64)
    } else {
        None
    }
}

/// Parse an ASCII decimal `u64`, as found in most numeric MPD attributes.
///
/// Accepts an optional leading `+` followed by one or more digits, exactly
/// when the denoted value fits in a `u64`.
pub fn parse_u64(value: &[u8]) -> (r: Result<u64, ParsingError>)
    ensures
        r is Ok <==> spec_parse_u64(value@) is Some,
        r is Ok ==> r->Ok_0 == spec_parse_u64(value@)->Some_0,
{
    let len = value.len();
    let start: usize = if len > 0 && value[0] == ('+' as u8) {
        1
    } else {
        0
    };
    let ghost t = strip_plus(value@);
    assert(t =~= value@.subrange(start as int, len as int));
    if start == len {
        return Err(ParsingError(String::from_str("empty integer")));
    }
    let mut acc: u64 = 0;
    let mut i: usize = start;
    while i < len
        invariant
            start <= i <= len,
            len == value@.len(),
            t == strip_plus(value@),
            t =~= value@.subrange(start as int, len as int),
            all_digits(t.subrange(0, i - start)),
            acc == digits_val(t.subrange(0, i - start)),
        decreases len - i,
    {
        let b = value[i];
        if b < ('0' as u8) || b > ('9' as u8) {
            assert(!is_digit(t[i - start]));
            return Err(ParsingError(String::from_str("invalid integer")));
        }
        let d = (b - ('0' as u8)) as u64;
        let wide: u128 = acc as u128 * 10 + d as u128;
        proof {
            let p = t.subrange(0, i + 1 - start);
            assert(p.drop_last() =~= t.subrange(0, i - start));
            assert(p.last() == t[i - start]);
            assert(all_digits(p));
            assert(digits_val(p) == wide);
        }
        if wide > u64::MAX as u128 {
            proof {
                if all_digits(t) {
                    lemma_digits_val_prefix_le(t, i + 1 - start, t.len() as int);
                    assert(t.subrange(0, t.len() as int) =~= t);
                }
            }
            return Err(ParsingError(String::from_str("integer overflow")));
        }
        acc = wide as u64;
        i = i + 1;
    }
    proof {
        assert(t.subrange(0, t.len() as int) =~= t);
    }
    Ok(acc)
}

/// Specification of [`parse_i64`]: an optional sign, then at least one
/// digit, denoting a value in `i64`'s range.
pub open spec fn spec_parse_i64(s: Seq<u8>) -> Option<i64> {
    if s.len() > 0 && s[0] == ('-' as u8) {
        let t = s.skip(1);
        if t.len() > 0 && all_digits(t) && digits_val(t) <= i64::MAX + 1 {
            Some((-digits_val(t)) as i64)
        } else {
            None
        }
    } else {
        match spec_parse_u64(s) {
            Some(v) => if v <= i64::MAX {
                Some(v as i64)
            } else {
                None
            },
            None => None,
        }
    }
}

/// Parse an ASCII decimal `i64`: an optional `+` or `-` sign followed by one
/// or more digits, accepted exactly when the value fits in an `i64`.
pub fn parse_i64(value: &[u8]) -> (r: Result<i64, ParsingError>)
    ensures
        r is Ok <==> spec_parse_i64(value@) is Some,
        r is Ok ==> r->Ok_0 == spec_parse_i64(value@)->Some_0,
{
    if value.len() > 0 && value[0] == ('-' as u8) {
        let rest = vstd::slice::slice_subrange(value, 1, value.len());
        assert(rest@ =~= value@.skip(1));
        match parse_u64(rest) {
            Ok(v) => {
                // `parse_u64` also accepts a leading '+', which the i64
                // grammar after a '-' does not; rule it out explicitly.
                if value.len() > 1 && value[1] == ('+' as u8) {
                    return Err(ParsingError(String::from_str("invalid integer")));
                }
                proof {
                    assert(rest@.len() > 0);
                    assert(rest@[0] == value@[1]);
                    assert(rest@[0] != ('+' as u8));
                    lemma_digits_val_bounds(rest@);
                    assert(digits_val(rest@) == v as int);
                    assert(value@.skip(1) == rest@);
                }
                if v <= i64::MAX as u64 {
                    Ok(-(v as i64))
                } else if v == i64::MAX as u64 + 1 {
                    Ok(i64::MIN)
                } else {
                    Err(ParsingError(String::from_str("integer overflow")))
                }
            },
            Err(e) => Err(e),
        }
    } else {
        match parse_u64(value) {
            Ok(v) => if v <= i64::MAX as u64 {
                Ok(v as i64)
            } else {
                Err(ParsingError(String::from_str("integer overflow")))
            },
            Err(e) => Err(e),
        }
    }
}

/// The ASCII bytes of `"true"`.
pub open spec fn true_bytes() -> Seq<u8> {
    seq![('t' as u8), ('r' as u8), ('u' as u8), ('e' as u8)]
}

/// The ASCII bytes of `"false"`.
pub open spec fn false_bytes() -> Seq<u8> {
    seq![('f' as u8), ('a' as u8), ('l' as u8), ('s' as u8), ('e' as u8)]
}

/// Does the slice spell `"true"`?
fn is_true_literal(value: &[u8]) -> (r: bool)
    ensures
        r <==> value@ == true_bytes(),
{
    let r = value.len() == 4 && value[0] == ('t' as u8) && value[1] == ('r' as u8) && value[2] == ('u' as u8)
        && value[3] == ('e' as u8);
    proof {
        if r {
            assert(value@ =~= true_bytes());
        }
    }
    r
}

/// Does the slice spell `"false"`?
fn is_false_literal(value: &[u8]) -> (r: bool)
    ensures
        r <==> value@ == false_bytes(),
{
    let r = value.len() == 5 && value[0] == ('f' as u8) && value[1] == ('a' as u8) && value[2] == ('l' as u8)
        && value[3] == ('s' as u8) && value[4] == ('e' as u8);
    proof {
        if r {
            assert(value@ =~= false_bytes());
        }
    }
    r
}

/// Specification of [`parse_bool`].
pub open spec fn spec_parse_bool(s: Seq<u8>) -> Option<bool> {
    if s == true_bytes() {
        Some(true)
    } else if s == false_bytes() {
        Some(false)
    } else {
        None
    }
}

/// Parse exactly `"true"` or `"false"`; anything else is an error.
pub fn parse_bool(value: &[u8]) -> (r: Result<bool, ParsingError>)
    ensures
        r is Ok <==> spec_parse_bool(value@) is Some,
        r is Ok ==> r->Ok_0 == spec_parse_bool(value@)->Some_0,
{
    if is_true_literal(value) {
        Ok(true)
    } else if is_false_literal(value) {
        Ok(false)
    } else {
        Err(ParsingError(String::from_str("invalid boolean")))
    }
}

/// Specification of [`parse_u64_or_bool`]: `"true"` maps to plus infinity,
/// `"false"` to minus infinity, and anything else is parsed as a decimal
/// `u64`.
pub open spec fn spec_parse_u64_or_bool(s: Seq<u8>) -> Option<AttrNum> {
    if s == true_bytes() {
        Some(AttrNum::PosInf)
    } else if s == false_bytes() {
        Some(AttrNum::NegInf)
    } else {
        match spec_parse_u64(s) {
            Some(v) => Some(AttrNum::Fin(Ratio::spec_from_u64(v))),
            None => None,
        }
    }
}

/// Parse the boolean-or-integer convention used by attributes such as
/// `segmentAlignment`: booleans become the infinity sentinels, and numbers
/// are reported exactly.
pub fn parse_u64_or_bool(value: &[u8]) -> (r: Result<AttrNum, ParsingError>)
    ensures
        r is Ok <==> spec_parse_u64_or_bool(value@) is Some,
        r is Ok ==> r->Ok_0 == spec_parse_u64_or_bool(value@)->Some_0,
{
    if is_true_literal(value) {
        Ok(AttrNum::PosInf)
    } else if is_false_literal(value) {
        Ok(AttrNum::NegInf)
    } else {
        match parse_u64(value) {
            Ok(v) => Ok(AttrNum::Fin(Ratio::from_u64(v))),
            Err(e) => Err(e),
        }
    }
}

/// The smallest index of `b` in `s`, if any.
pub open spec fn find_byte(s: Seq<u8>, b: u8) -> Option<int>
    decreases s.len(),
{
    if s.len() == 0 {
        None
    } else if s[0] == b {
        Some(0)
    } else {
        match find_byte(s.skip(1), b) {
            Some(i) => Some(i + 1),
            None => None,
        }
    }
}

/// Characterisation of [`find_byte`]: it returns the first occurrence.
pub proof fn lemma_find_byte(s: Seq<u8>, b: u8)
    ensures
        match find_byte(s, b) {
            Some(i) => 0 <= i < s.len() && s[i] == b && forall|j: int|
                0 <= j < i ==> s[j] != b,
            None => forall|j: int| 0 <= j < s.len() ==> s[j] != b,
        },
    decreases s.len(),
{
    if s.len() > 0 && s[0] != b {
        lemma_find_byte(s.skip(1), b);
        match find_byte(s.skip(1), b) {
            Some(i) => {
                assert(s.skip(1)[i] == s[i + 1]);
                assert forall|j: int| 0 <= j < i + 1 implies s[j] != b by {
                    if j >= 1 {
                        assert(s.skip(1)[j - 1] == s[j]);
                    }
                }
            },
            None => {
                assert forall|j: int| 0 <= j < s.len() implies s[j] != b by {
                    if j >= 1 {
                        assert(s.skip(1)[j - 1] == s[j]);
                    }
                }
            },
        }
    }
}

/// Find the first occurrence of `b` in `value`.
fn find_byte_exec(value: &[u8], b: u8) -> (r: Option<usize>)
    ensures
        match r {
            Some(i) => find_byte(value@, b) == Some(i as int),
            None => find_byte(value@, b) is None,
        },
{
    proof {
        lemma_find_byte(value@, b);
    }
    let mut i: usize = 0;
    while i < value.len()
        invariant
            0 <= i <= value@.len(),
            forall|j: int| 0 <= j < i ==> value@[j] != b,
            match find_byte(value@, b) {
                Some(k) => 0 <= k < value@.len() && value@[k] == b && forall|j: int|
                    0 <= j < k ==> value@[j] != b,
                None => forall|j: int| 0 <= j < value@.len() ==> value@[j] != b,
            },
        decreases value@.len() - i,
    {
        if value[i] == b {
            return Some(i);
        }
        i = i + 1;
    }
    None
}

/// Specification of [`parse_byte_range`]: two decimal `u64`s separated by
/// the first `-` of the slice.
pub open spec fn spec_parse_byte_range(s: Seq<u8>) -> Option<(u64, u64)> {
    match find_byte(s, ('-' as u8)) {
        None => None,
        Some(i) => match (spec_parse_u64(s.subrange(0, i)), spec_parse_u64(
            s.subrange(i + 1, s.len() as int),
        )) {
            (Some(a), Some(b)) => Some((a, b)),
            _ => None,
        },
    }
}

/// Parse a `"start-end"` byte range into its two bounds.
pub fn parse_byte_range(value: &[u8]) -> (r: Result<(u64, u64), ParsingError>)
    ensures
        r is Ok <==> spec_parse_byte_range(value@) is Some,
        r is Ok ==> r->Ok_0 == spec_parse_byte_range(value@)->Some_0,
{
    match find_byte_exec(value, ('-' as u8)) {
        None => Err(ParsingError(String::from_str("byte-range without separator"))),
        Some(i) => {
            proof {
                lemma_find_byte(value@, ('-' as u8));
            }
            let n = value.len();
            assert(i < n);
            let head = vstd::slice::slice_subrange(value, 0, i);
            let tail = vstd::slice::slice_subrange(value, i + 1, n);
            let a = match parse_u64(head) {
                Ok(a) => a,
                Err(e) => {
                    return Err(e);
                },
            };
            let b = match parse_u64(tail) {
                Ok(b) => b,
                Err(e) => {
                    return Err(e);
                },
            };
            Ok((a, b))
        },
    }
}

/// Ten to the `k`-th power (1 for non-positive `k`).
pub open spec fn pow10(k: int) -> int
    decreases k,
{
    if k <= 0 {
        1
    } else {
        10 * pow10(k - 1)
    }
}

/// Powers of ten are positive and monotone.
pub proof fn lemma_pow10_pos(k: int)
    ensures
        pow10(k) >= 1,
    decreases k,
{
    if k > 0 {
        lemma_pow10_pos(k - 1);
    }
}

/// A digit string of length `n` denotes a value below `pow10(n)`.
pub proof fn lemma_digits_val_upper(s: Seq<u8>)
    requires
        all_digits(s),
    ensures
        0 <= digits_val(s) < pow10(s.len() as int),
    decreases s.len(),
{
    if s.len() > 0 {
        assert(all_digits(s.drop_last()));
        lemma_digits_val_upper(s.drop_last());
        assert(is_digit(s.last()));
    }
}

/// Concatenation law for digit values: appending `b` multiplies the value of
/// `a` by `pow10(b.len())`.
pub proof fn lemma_digits_val_concat(a: Seq<u8>, b: Seq<u8>)
    ensures
        digits_val(a + b) == digits_val(a) * pow10(b.len() as int) + digits_val(b),
    decreases b.len(),
{
    if b.len() == 0 {
        assert(a + b =~= a);
    } else {
        lemma_digits_val_concat(a, b.drop_last());
        assert((a + b).drop_last() =~= a + b.drop_last());
        assert((a + b).last() == b.last());
        assert(digits_val(a + b) == (digits_val(a) * pow10(b.len() - 1) + digits_val(
            b.drop_last(),
        )) * 10 + b.last() - ('0' as u8));
        assert(pow10(b.len() as int) == 10 * pow10(b.len() - 1));
        assert(digits_val(a) * pow10(b.len() - 1) * 10 == digits_val(a) * pow10(
            b.len() as int,
        )) by (nonlinear_arith)
            requires
                pow10(b.len() as int) == 10 * pow10(b.len() - 1),
        ;
    }
}

/// The first index at or after `i` that does not hold an ASCII digit (or the
/// end of the slice).
pub open spec fn digits_end(s: Seq<u8>, i: int) -> int
    decreases s.len() - i when 0 <= i <= s.len()
{
    if i >= s.len() {
        i
    } else if is_digit(s[i]) {
        digits_end(s, i + 1)
    } else {
        i
    }
}

/// Characterisation of [`digits_end`].
pub proof fn lemma_digits_end(s: Seq<u8>, i: int)
    requires
        0 <= i <= s.len(),
    ensures
        i <= digits_end(s, i) <= s.len(),
        forall|j: int| i <= j < digits_end(s, i) ==> is_digit(#[trigger] s[j]),
        digits_end(s, i) < s.len() ==> !is_digit(s[digits_end(s, i)]),
    decreases s.len() - i,
{
    if i < s.len() && is_digit(s[i]) {
        lemma_digits_end(s, i + 1);
    }
}

/// Find the end of the digit run starting at `i`.
fn scan_digits(value: &[u8], i: usize) -> (r: usize)
    requires
        i <= value@.len(),
    ensures
        r == digits_end(value@, i as int),
        i <= r <= value@.len(),
    decreases value@.len() - i,
{
    proof {
        lemma_digits_end(value@, i as int);
    }
    if i < value.len() {
        let b = value[i];
        if ('0' as u8) <= b && b <= ('9' as u8) {
            return scan_digits(value, i + 1);
        }
    }
    i
}

/// The first nine fractional digits of `f`, zero-padded on the right,
/// read as an integer number of nanoseconds.
pub open spec fn frac_nanos(f: Seq<u8>) -> int {
    if f.len() >= 9 {
        digits_val(f.subrange(0, 9))
    } else {
        digits_val(f) * pow10(9 - f.len())
    }
}

/// The fractional part is always below one second's worth of nanoseconds.
pub proof fn lemma_frac_nanos_bound(f: Seq<u8>)
    requires
        all_digits(f),
    ensures
        0 <= frac_nanos(f) < 1000000000,
{
    proof_pow10_constants();
    if f.len() >= 9 {
        let p = f.subrange(0, 9);
        assert(all_digits(p)) by {
            assert(forall|k: int| 0 <= k < p.len() ==> p[k] == f[k]);
        }
        lemma_digits_val_upper(p);
    } else {
        lemma_digits_val_upper(f);
        let n = f.len() as int;
        assert(digits_val(f) * pow10(9 - n) <= (pow10(n) - 1) * pow10(9 - n))
            by (nonlinear_arith)
            requires
                digits_val(f) <= pow10(n) - 1,
                pow10(9 - n) >= 1,
        ;
        assert(pow10(n) * pow10(9 - n) == pow10(9)) by {
            lemma_pow10_mul(n, 9 - n);
        }
        assert((pow10(n) - 1) * pow10(9 - n) == pow10(n) * pow10(9 - n) - pow10(9 - n))
            by (nonlinear_arith);
        lemma_pow10_pos(9 - n);
        lemma_digits_val_bounds(f);
        assert(digits_val(f) * pow10(9 - n) >= 0) by (nonlinear_arith)
            requires
                digits_val(f) >= 0,
                pow10(9 - n) >= 1,
        ;
    }
}

/// `pow10` turns addition of exponents into multiplication.
pub proof fn lemma_pow10_mul(a: int, b: int)
    requires
        a >= 0,
        b >= 0,
    ensures
        pow10(a) * pow10(b) == pow10(a + b),
    decreases b,
{
    if b == 0 {
        assert(pow10(a) * 1 == pow10(a)) by (nonlinear_arith);
    } else {
        lemma_pow10_mul(a, b - 1);
        assert(pow10(a + b) == 10 * pow10(a + b - 1));
        assert(pow10(b) == 10 * pow10(b - 1));
        assert(pow10(a) * (10 * pow10(b - 1)) == 10 * (pow10(a) * pow10(b - 1)))
            by (nonlinear_arith);
    }
}

/// Fixed powers of ten, unfolded once for the proofs that need them.
pub proof fn proof_pow10_constants()
    ensures
        pow10(0) == 1,
        pow10(1) == 10,
        pow10(2) == 100,
        pow10(3) == 1000,
        pow10(4) == 10000,
        pow10(5) == 100000,
        pow10(6) == 1000000,
        pow10(7) == 10000000,
        pow10(8) == 100000000,
        pow10(9) == 1000000000,
{
    reveal_with_fuel(pow10, 11);
}

/// Specification of [`read_next_float`]: a run of digits, optionally
/// followed by a decimal separator (`.` or `,`) and a second run of digits.
/// Yields the integer part, the fractional part in nanoseconds (truncated
/// beyond nine digits), and the index just after the number.
pub open spec fn spec_read_float(s: Seq<u8>, base: int) -> Option<(u64, u32, int)> {
    let i = digits_end(s, base);
    if i == s.len() || (s[i] != ('.' as u8) && s[i] != (',' as u8)) {
        if i == base {
            None
        } else if digits_val(s.subrange(base, i)) <= u64::MAX {
            Some((digits_val(s.subrange(base, i)) as u64, 0u32, i))
        } else {
            None
        }
    } else {
        let j = digits_end(s, i + 1);
        if i == base && j == i + 1 {
            None
        } else if digits_val(s.subrange(base, i)) <= u64::MAX {
            Some(
                (
                    digits_val(s.subrange(base, i)) as u64,
                    frac_nanos(s.subrange(i + 1, j)) as u32,
                    j,
                ),
            )
        } else {
            None
        }
    }
}

/// A successfully read number always ends strictly after `base`.
pub proof fn lemma_read_float_bounds(s: Seq<u8>, base: int)
    requires
        0 <= base <= s.len(),
    ensures
        spec_read_float(s, base) is Some ==> base < spec_read_float(s, base)->Some_0.2
            <= s.len(),
{
    lemma_digits_end(s, base);
    let i = digits_end(s, base);
    if i < s.len() && (s[i] == ('.' as u8) || s[i] == (',' as u8)) {
        lemma_digits_end(s, i + 1);
    }
}

/// Ten to the `k`-th as a `u64`, for `k` up to nine.
fn pow10_u64(k: usize) -> (r: u64)
    requires
        k <= 9,
    ensures
        r == pow10(k as int),
{
    proof {
        proof_pow10_constants();
    }
    if k == 0 {
        1
    } else if k == 1 {
        10
    } else if k == 2 {
        100
    } else if k == 3 {
        1000
    } else if k == 4 {
        10000
    } else if k == 5 {
        100000
    } else if k == 6 {
        1000000
    } else if k == 7 {
        10000000
    } else if k == 8 {
        100000000
    } else {
        1000000000
    }
}

/// Parse a decimal number with an optional fractional part, starting at
/// `base`; the decimal separator may be `.` or `,`.  Returns the integer
/// part, the fraction as nanoseconds, and the offset just after the number.
#[verifier::rlimit(30)]
fn read_next_float(value: &[u8], base: usize) -> (r: Result<(u64, u32, usize), ParsingError>)
    requires
        base <= value@.len(),
    ensures
        r is Ok <==> spec_read_float(value@, base as int) is Some,
        r is Ok ==> r->Ok_0.0 == spec_read_float(value@, base as int)->Some_0.0
            && r->Ok_0.1 == spec_read_float(value@, base as int)->Some_0.1
            && r->Ok_0.2 == spec_read_float(value@, base as int)->Some_0.2,
        r is Ok ==> r->Ok_0.1 < 1000000000,
{
    let len = value.len();
    let i = scan_digits(value, base);
    proof {
        lemma_digits_end(value@, base as int);
    }
    if i == len || (value[i] != ('.' as u8) && value[i] != (',' as u8)) {
        if i == base {
            return Err(ParsingError(String::from_str("expected a number")));
        }
        let sub = vstd::slice::slice_subrange(value, base, i);
        proof {
            assert(all_digits(sub@));
            assert(sub@[0] != ('+' as u8));
            assert(strip_plus(sub@) == sub@);
        }
        match parse_u64(sub) {
            Ok(u) => {
                assert(spec_read_float(value@, base as int) == Some((u, 0u32, i as int)));
                Ok((u, 0u32, i))
            },
            Err(e) => Err(e),
        }
    } else {
        let j = scan_digits(value, i + 1);
        proof {
            lemma_digits_end(value@, i as int + 1);
        }
        if i == base && j == i + 1 {
            return Err(ParsingError(String::from_str("expected a number")));
        }
        let u: u64 = if i == base {
            assert(value@.subrange(base as int, i as int) =~= Seq::<u8>::empty());
            0
        } else {
            let sub = vstd::slice::slice_subrange(value, base, i);
            proof {
                assert(all_digits(sub@));
                assert(sub@[0] != ('+' as u8));
                assert(strip_plus(sub@) == sub@);
            }
            match parse_u64(sub) {
                Ok(u) => u,
                Err(e) => {
                    return Err(e);
                },
            }
        };
        let ghost f = value@.subrange(i as int + 1, j as int);
        proof {
            assert(all_digits(f));
        }
        let flen = j - (i + 1);
        let k: usize = if flen > 9 {
            9
        } else {
            flen
        };
        let nanos: u64 = if k == 0 {
            proof {
                proof_pow10_constants();
                assert(f =~= Seq::<u8>::empty());
            }
            0
        } else {
            let fsub = vstd::slice::slice_subrange(value, i + 1, i + 1 + k);
            proof {
                assert(all_digits(fsub@));
                assert(fsub@[0] != ('+' as u8));
                assert(strip_plus(fsub@) == fsub@);
                lemma_digits_val_upper(fsub@);
                proof_pow10_constants();
                lemma_digits_val_prefix_le(fsub@, 0, 0);
            }
            let fv = match parse_u64(fsub) {
                Ok(fv) => fv,
                Err(e) => {
                    proof {
                        // nine digits always fit in a u64
                        assert(pow10(k as int) <= pow10(9)) by {
                            lemma_pow10_mono(k as int, 9);
                        }
                    }
                    assert(false);
                    return Err(e);
                },
            };
            proof {
                assert(fv < pow10(k as int));
                lemma_pow10_pos(9 - k as int);
                assert(fv * pow10(9 - k as int) <= (pow10(k as int) - 1) * pow10(
                    9 - k as int,
                )) by (nonlinear_arith)
                    requires
                        fv < pow10(k as int),
                        pow10(9 - k as int) >= 1,
                ;
                lemma_pow10_mul(k as int, 9 - k as int);
                assert((pow10(k as int) - 1) * pow10(9 - k as int) == pow10(9) - pow10(
                    9 - k as int,
                )) by (nonlinear_arith)
                    requires
                        pow10(k as int) * pow10(9 - k as int) == pow10(9),
                ;
                proof_pow10_constants();
            }
            let scaled = fv * pow10_u64(9 - k);
            proof {
                assert(fsub@ =~= if f.len() >= 9 {
                    f.subrange(0, 9)
                } else {
                    f
                });
                if f.len() < 9 {
                    assert(frac_nanos(f) == digits_val(f) * pow10(9 - f.len()));
                } else {
                    assert(9 - k == 0);
                    assert(pow10(0) == 1);
                }
                lemma_frac_nanos_bound(f);
                assert(fv * pow10(9 - k as int) == frac_nanos(f)) by (nonlinear_arith)
                    requires
                        k == if f.len() >= 9 { 9int } else { f.len() as int },
                        fv == digits_val(
                            if f.len() >= 9 { f.subrange(0, 9) } else { f },
                        ),
                        frac_nanos(f) == if f.len() >= 9 {
                            digits_val(f.subrange(0, 9))
                        } else {
                            digits_val(f) * pow10(9 - f.len())
                        },
                        pow10(0) == 1,
                ;
            }
            scaled
        };
        proof {
            lemma_frac_nanos_bound(f);
            assert(nanos == frac_nanos(f));
            assert(spec_read_float(value@, base as int) == Some(
                (u, frac_nanos(f) as u32, j as int),
            ));
        }
        Ok((u, nanos as u32, j))
    }
}

/// `pow10` is monotone in its exponent.
pub proof fn lemma_pow10_mono(a: int, b: int)
    requires
        a <= b,
    ensures
        pow10(a) <= pow10(b),
    decreases b - a,
{
    if a < b {
        lemma_pow10_mono(a, b - 1);
        lemma_pow10_pos(b - 1);
        if b > 0 {
            assert(pow10(b) == 10 * pow10(b - 1));
        }
    }
}

/// Nanoseconds-per-second, the fixed denominator of fractional values.
pub open spec fn nanos_per_sec() -> int {
    1000000000
}

/// The date-component factors of an ISO 8601 duration, in seconds: years
/// and months use the approximate lengths of 365 and 30 days.
pub open spec fn date_factor(b: u8) -> Option<int> {
    if b == ('Y' as u8) {
        Some(31536000int)
    } else if b == ('M' as u8) {
        Some(2592000int)
    } else if b == ('D' as u8) {
        Some(86400int)
    } else {
        None
    }
}

/// The time-component factors of an ISO 8601 duration, in seconds.
pub open spec fn time_factor(b: u8) -> Option<int> {
    if b == ('H' as u8) {
        Some(3600int)
    } else if b == ('M' as u8) {
        Some(60int)
    } else if b == ('S' as u8) {
        Some(1int)
    } else {
        None
    }
}

/// One component's contribution to a duration, in nanoseconds.
pub open spec fn component_nanos(u: u64, n: u32, factor: int) -> int {
    (u * nanos_per_sec() + n) * factor
}

/// The date part of an ISO 8601 duration: components read from `base`
/// until the end of the slice or a `T` separator, accumulating nanoseconds
/// onto `acc`.
pub open spec fn spec_date_part(s: Seq<u8>, base: int, acc: int) -> Option<int>
    decreases s.len() - base, 1int
        when 0 <= base <= s.len()
        via spec_date_part_dec
{
    match spec_read_float(s, base) {
        None => None,
        Some((u, n, i)) => {
            if i >= s.len() {
                None
            } else {
                match date_factor(s[i]) {
                    None => None,
                    Some(fa) => {
                        let acc2 = acc + component_nanos(u, n, fa);
                        let b2 = i + 1;
                        if b2 == s.len() {
                            Some(acc2)
                        } else if s[b2] == ('T' as u8) {
                            spec_time_part(s, b2 + 1, acc2)
                        } else {
                            spec_date_part(s, b2, acc2)
                        }
                    },
                }
            }
        },
    }
}

#[via_fn]
proof fn spec_date_part_dec(s: Seq<u8>, base: int, acc: int) {
    lemma_read_float_bounds(s, base);
}

/// The time part of an ISO 8601 duration: components read from `base`
/// until the end of the slice, accumulating nanoseconds onto `acc`.
pub open spec fn spec_time_part(s: Seq<u8>, base: int, acc: int) -> Option<int>
    decreases s.len() - base, 0int
        when 0 <= base <= s.len()
        via spec_time_part_dec
{
    match spec_read_float(s, base) {
        None => None,
        Some((u, n, i)) => {
            if i >= s.len() {
                None
            } else {
                match time_factor(s[i]) {
                    None => None,
                    Some(fa) => {
                        let acc2 = acc + component_nanos(u, n, fa);
                        if i + 1 == s.len() {
                            Some(acc2)
                        } else {
                            spec_time_part(s, i + 1, acc2)
                        }
                    },
                }
            }
        },
    }
}

#[via_fn]
proof fn spec_time_part_dec(s: Seq<u8>, base: int, acc: int) {
    lemma_read_float_bounds(s, base);
}

/// The whole duration grammar `P[date components][T time components]`, as
/// an exact number of nanoseconds.
pub open spec fn spec_parse_iso_nanos(s: Seq<u8>) -> Option<int> {
    if s.len() < 2 || s[0] != ('P' as u8) {
        None
    } else if s[1] != ('T' as u8) {
        spec_date_part(s, 1, 0)
    } else {
        spec_time_part(s, 2, 0)
    }
}

/// A non-negative nanosecond count as a [`Ratio`], reduced to denominator
/// one when it is a whole number of seconds.
pub open spec fn nanos_to_ratio(tot: int) -> Ratio {
    if tot % nanos_per_sec() == 0 {
        Ratio { neg: false, num: (tot / nanos_per_sec()) as u128, den: 1 }
    } else {
        Ratio { neg: false, num: tot as u128, den: 1000000000 }
    }
}

/// Specification of [`parse_iso_8601_duration`]: the grammar above, with
/// the machine-width restriction that the total count of nanoseconds must
/// fit in a `u128`.
pub open spec fn spec_parse_iso(s: Seq<u8>) -> Option<Ratio> {
    match spec_parse_iso_nanos(s) {
        None => None,
        Some(tot) => if tot <= u128::MAX {
            Some(nanos_to_ratio(tot))
        } else {
            None
        },
    }
}

/// Accumulation only grows: a successful parse ends at or above the value
/// accumulated so far.
proof fn lemma_time_part_monotone(s: Seq<u8>, base: int, acc: int)
    requires
        0 <= base <= s.len(),
        spec_time_part(s, base, acc) is Some,
    ensures
        spec_time_part(s, base, acc)->Some_0 >= acc,
    decreases s.len() - base,
{
    lemma_read_float_bounds(s, base);
    match spec_read_float(s, base) {
        None => {},
        Some((u, n, i)) => {
            if i < s.len() {
                match time_factor(s[i]) {
                    None => {},
                    Some(fa) => {
                        assert(component_nanos(u, n, fa) >= 0) by (nonlinear_arith)
                            requires
                                u >= 0,
                                n >= 0,
                                fa >= 1,
                                nanos_per_sec() == 1000000000,
                        ;
                        if i + 1 < s.len() {
                            lemma_time_part_monotone(s, i + 1, acc + component_nanos(u, n, fa));
                        }
                    },
                }
            }
        },
    }
}

/// Accumulation only grows, over both parts of the grammar.
proof fn lemma_date_part_monotone(s: Seq<u8>, base: int, acc: int)
    requires
        0 <= base <= s.len(),
        spec_date_part(s, base, acc) is Some,
    ensures
        spec_date_part(s, base, acc)->Some_0 >= acc,
    decreases s.len() - base,
{
    lemma_read_float_bounds(s, base);
    match spec_read_float(s, base) {
        None => {},
        Some((u, n, i)) => {
            if i < s.len() {
                match date_factor(s[i]) {
                    None => {},
                    Some(fa) => {
                        assert(component_nanos(u, n, fa) >= 0) by (nonlinear_arith)
                            requires
                                u >= 0,
                                n >= 0,
                                fa >= 1,
                                nanos_per_sec() == 1000000000,
                        ;
                        let acc2 = acc + component_nanos(u, n, fa);
                        let b2 = i + 1;
                        if b2 == s.len() {
                        } else if s[b2] == ('T' as u8) {
                            lemma_time_part_monotone(s, b2 + 1, acc2);
                        } else {
                            lemma_date_part_monotone(s, b2, acc2);
                        }
                    },
                }
            }
        },
    }
}

/// One component's contribution, computed exactly in a `u128`.
fn component_nanos_exec(u: u64, n: u32, factor: u64) -> (r: u128)
    requires
        n < 1000000000,
        factor <= 31536000,
    ensures
        r == component_nanos(u, n, factor as int),
        r >= 0,
{
    proof {
        assert((u * 1000000000 + n) * factor <= (0xffffffffffffffffu64 * 1000000000
            + 0x3b9aca00) * 31536000) by (nonlinear_arith)
            requires
                u <= 0xffffffffffffffffu64,
                n <= 0x3b9aca00,
                factor <= 31536000,
        ;
        assert((u * 1000000000 + n) * factor >= 0) by (nonlinear_arith);
    }
    (u as u128 * 1000000000 + n as u128) * (factor as u128)
}

/// Turn an accumulated nanosecond total into the reported ratio.
fn finish_duration(acc: u128) -> (r: Result<Ratio, ParsingError>)
    ensures
        r is Ok,
        r->Ok_0 == nanos_to_ratio(acc as int),
{
    if acc % 1000000000 == 0 {
        Ok(Ratio { neg: false, num: acc / 1000000000, den: 1 })
    } else {
        Ok(Ratio { neg: false, num: acc, den: 1000000000 })
    }
}

/// Parse an ISO 8601 duration such as `P1Y2M3DT4H5M6.7S` into an exact
/// number of seconds.
///
/// Years, months and days use the approximate factors of 365, 30 and 1
/// days; the decimal separator of the seconds component may be `.` or `,`;
/// fractions are kept to nanosecond precision.  The empty string, a missing
/// leading `P`, an unknown unit letter, and a total that overflows the
/// nanosecond accumulator are all rejected.
pub fn parse_iso_8601_duration(value: &[u8]) -> (r: Result<Ratio, ParsingError>)
    ensures
        r is Ok <==> spec_parse_iso(value@) is Some,
        r is Ok ==> r->Ok_0 == spec_parse_iso(value@)->Some_0,
{
    let len = value.len();
    if len < 2 || value[0] != ('P' as u8) {
        return Err(ParsingError(String::from_str("duration must start with P")));
    }
    let mut base: usize;
    let mut acc: u128 = 0;
    if value[1] != ('T' as u8) {
        base = 1;
        loop
            invariant_except_break
                1 <= base < len,
                len == value@.len(),
                spec_parse_iso_nanos(value@) == spec_date_part(value@, base as int, acc as int),
            ensures
                1 <= base <= len,
                len == value@.len(),
                spec_parse_iso_nanos(value@) == spec_time_part(value@, base as int, acc as int),
            decreases len - base,
        {
            let (u, n, i) = match read_next_float(value, base) {
                Ok(t) => t,
                Err(e) => {
                    return Err(e);
                },
            };
            proof {
                lemma_read_float_bounds(value@, base as int);
            }
            if i == len {
                return Err(ParsingError(String::from_str("duration ended too soon")));
            }
            let unit = value[i];
            let factor: u64 = if unit == ('Y' as u8) {
                31536000
            } else if unit == ('M' as u8) {
                2592000
            } else if unit == ('D' as u8) {
                86400
            } else {
                return Err(ParsingError(String::from_str("unknown duration unit")));
            };
            let comp = component_nanos_exec(u, n, factor);
            if acc > u128::MAX - comp {
                proof {
                    let acc2 = acc + component_nanos(u, n, factor as int);
                    let b2 = i as int + 1;
                    if b2 == value@.len() {
                    } else if value@[b2] == ('T' as u8) {
                        if spec_time_part(value@, b2 + 1, acc2) is Some {
                            lemma_time_part_monotone(value@, b2 + 1, acc2);
                        }
                    } else {
                        if spec_date_part(value@, b2, acc2) is Some {
                            lemma_date_part_monotone(value@, b2, acc2);
                        }
                    }
                }
                return Err(ParsingError(String::from_str("duration too large")));
            }
            acc = acc + comp;
            base = i + 1;
            if base == len {
                proof {
                    assert(spec_parse_iso_nanos(value@) == Some(acc as int));
                }
                return finish_duration(acc);
            }
            if value[base] == ('T' as u8) {
                base = base + 1;
                break;
            }
        }
    } else {
        base = 2;
    }
    loop
        invariant
            1 <= base <= len,
            len == value@.len(),
            spec_parse_iso_nanos(value@) == spec_time_part(value@, base as int, acc as int),
        decreases len - base,
    {
        let (u, n, i) = match read_next_float(value, base) {
            Ok(t) => t,
            Err(e) => {
                return Err(e);
            },
        };
        proof {
            lemma_read_float_bounds(value@, base as int);
        }
        if i == len {
            return Err(ParsingError(String::from_str("duration ended too soon")));
        }
        let unit = value[i];
        let factor: u64 = if unit == ('H' as u8) {
            3600
        } else if unit == ('M' as u8) {
            60
        } else if unit == ('S' as u8) {
            1
        } else {
            return Err(ParsingError(String::from_str("unknown duration unit")));
        };
        let comp = component_nanos_exec(u, n, factor);
        if acc > u128::MAX - comp {
            proof {
                let acc2 = acc + component_nanos(u, n, factor as int);
                if i as int + 1 < value@.len() {
                    if spec_time_part(value@, i as int + 1, acc2) is Some {
                        lemma_time_part_monotone(value@, i as int + 1, acc2);
                    }
                }
            }
            return Err(ParsingError(String::from_str("duration too large")));
        }
        acc = acc + comp;
        base = i + 1;
        if base == len {
            proof {
                assert(spec_parse_iso_nanos(value@) == Some(acc as int));
            }
            return finish_duration(acc);
        }
    }
}

/// A sign, whole units and a nanosecond fraction as a normalized [`Ratio`]:
/// denominator one when the fraction is zero, `10^9` otherwise.
pub open spec fn decimal_ratio(neg: bool, units: u64, nanos: u32) -> Ratio {
    if nanos == 0 {
        Ratio { neg, num: units as u128, den: 1 }
    } else {
        Ratio { neg, num: (units * 1000000000 + nanos) as u128, den: 1000000000 }
    }
}

/// Large powers of ten, bracketing the `u128` range.
pub proof fn proof_pow10_big()
    ensures
        pow10(38) <= u128::MAX,
        pow10(39) > u128::MAX,
{
    reveal_with_fuel(pow10, 41);
}

/// Scaling by `p` fits in a `u128` exactly when the factor stays below
/// the quotient.
proof fn lemma_scale_fits(x: int, p: int)
    requires
        x >= 0,
        p >= 1,
    ensures
        x <= u128::MAX as int / p <==> x * p <= u128::MAX,
{
    let m = u128::MAX as int;
    vstd::arithmetic::div_mod::lemma_fundamental_div_mod(m, p);
    vstd::arithmetic::div_mod::lemma_mod_bound(m, p);
    vstd::arithmetic::div_mod::lemma_div_pos_is_pos(m, p);
    let d = m / p;
    if x <= d {
        assert(x * p <= d * p) by (nonlinear_arith)
            requires
                x <= d,
                p >= 1,
                0 <= x,
                0 <= d,
        ;
        assert(d * p == p * d) by (nonlinear_arith);
        assert(p * d == m - (m % p));
        assert(x * p <= m);
    } else {
        assert(x * p >= (d + 1) * p) by (nonlinear_arith)
            requires
                x >= d + 1,
                p >= 1,
                0 <= d,
        ;
        assert((d + 1) * p == d * p + p) by (nonlinear_arith);
        assert(d * p == p * d) by (nonlinear_arith);
        assert(p * d == m - (m % p));
        assert(d * p + p > m);
        assert(x * p > m);
    }
}

/// Ten to the `m`-th as a `u128`, for exponents within the range.
fn pow10_u128(m: u64) -> (r: u128)
    requires
        m <= 38,
    ensures
        r == pow10(m as int),
{
    proof {
        proof_pow10_big();
    }
    let mut acc: u128 = 1;
    let mut i: u64 = 0;
    while i < m
        invariant
            0 <= i <= m <= 38,
            acc == pow10(i as int),
        decreases m - i,
    {
        proof {
            lemma_pow10_mono(i as int + 1, 38);
            proof_pow10_big();
        }
        acc = acc * 10;
        i = i + 1;
    }
    acc
}

/// The exponent suffix `[+|-]digits` starting at `p`, applied to `base`:
/// a positive exponent scales the numerator, a negative one the
/// denominator.  Rejected when the scaled side would leave the `u128`
/// range.
pub open spec fn spec_apply_exponent(base: Ratio, s: Seq<u8>, p: int) -> Option<Ratio>
    recommends
        0 <= p <= s.len(),
{
    let eneg = p < s.len() && s[p] == ('-' as u8);
    let q = if p < s.len() && (s[p] == ('-' as u8) || s[p] == ('+' as u8)) {
        p + 1
    } else {
        p
    };
    let k = digits_end(s, q);
    if k != s.len() || k == q {
        None
    } else {
        let m = digits_val(s.subrange(q, k));
        if eneg {
            if base.den * pow10(m) <= u128::MAX {
                Some(Ratio { neg: base.neg, num: base.num, den: (base.den * pow10(m)) as u128 })
            } else {
                None
            }
        } else {
            if base.num * pow10(m) <= u128::MAX {
                Some(Ratio { neg: base.neg, num: (base.num * pow10(m)) as u128, den: base.den })
            } else {
                None
            }
        }
    }
}

/// Specification of [`parse_f64`]: an optional sign, decimal digits with
/// an optional `.` fraction, and an optional `e`/`E` exponent, consuming
/// the whole slice.  The integer part must fit in a `u64`; fraction
/// digits beyond the ninth are dropped.
pub open spec fn spec_parse_f64(s: Seq<u8>) -> Option<Ratio> {
    let neg = s.len() > 0 && s[0] == ('-' as u8);
    let b = if s.len() > 0 && (s[0] == ('-' as u8) || s[0] == ('+' as u8)) {
        1int
    } else {
        0int
    };
    let i = digits_end(s, b);
    if i == s.len() {
        if i == b {
            None
        } else if digits_val(s.subrange(b, i)) <= u64::MAX {
            Some(decimal_ratio(neg, digits_val(s.subrange(b, i)) as u64, 0))
        } else {
            None
        }
    } else if s[i] == ('.' as u8) {
        let j = digits_end(s, i + 1);
        if i == b && j == i + 1 {
            None
        } else if digits_val(s.subrange(b, i)) > u64::MAX {
            None
        } else {
            let base = decimal_ratio(
                neg,
                digits_val(s.subrange(b, i)) as u64,
                frac_nanos(s.subrange(i + 1, j)) as u32,
            );
            if j == s.len() {
                Some(base)
            } else if s[j] == ('e' as u8) || s[j] == ('E' as u8) {
                spec_apply_exponent(base, s, j + 1)
            } else {
                None
            }
        }
    } else if s[i] == ('e' as u8) || s[i] == ('E' as u8) {
        if i == b {
            None
        } else if digits_val(s.subrange(b, i)) <= u64::MAX {
            spec_apply_exponent(decimal_ratio(neg, digits_val(s.subrange(b, i)) as u64, 0), s, i + 1)
        } else {
            None
        }
    } else {
        None
    }
}

/// Apply an exponent suffix to an already-parsed mantissa.
#[verifier::rlimit(60)]
fn apply_exponent(base: Ratio, value: &[u8], p: usize) -> (r: Result<Ratio, ParsingError>)
    requires
        p <= value@.len(),
        base.den >= 1,
    ensures
        r is Ok <==> spec_apply_exponent(base, value@, p as int) is Some,
        r is Ok ==> r->Ok_0 == spec_apply_exponent(base, value@, p as int)->Some_0,
        r is Ok ==> r->Ok_0.den >= 1,
{
    let len = value.len();
    let eneg = p < len && value[p] == ('-' as u8);
    let q: usize = if p < len && (value[p] == ('-' as u8) || value[p] == ('+' as u8)) {
        p + 1
    } else {
        p
    };
    let k = scan_digits(value, q);
    proof {
        lemma_digits_end(value@, q as int);
    }
    if k != len || k == q {
        return Err(ParsingError(String::from_str("invalid exponent")));
    }
    let sub = vstd::slice::slice_subrange(value, q, k);
    proof {
        assert(all_digits(sub@));
        assert(sub@[0] != ('+' as u8));
        assert(strip_plus(sub@) == sub@);
        lemma_digits_val_bounds(sub@);
        proof_pow10_big();
    }
    let ghost m = digits_val(value@.subrange(q as int, k as int));
    match parse_u64(sub) {
        Ok(mm) => {
            if eneg {
                if mm >= 39 {
                    proof {
                        lemma_pow10_mono(39, mm as int);
                        assert(base.den * pow10(m) > u128::MAX) by (nonlinear_arith)
                            requires
                                base.den >= 1,
                                pow10(m) > u128::MAX,
                        ;
                    }
                    return Err(ParsingError(String::from_str("exponent out of range")));
                }
                let p10 = pow10_u128(mm);
                proof {
                    lemma_pow10_pos(mm as int);
                    lemma_scale_fits(base.den as int, p10 as int);
                }
                if base.den > u128::MAX / p10 {
                    return Err(ParsingError(String::from_str("exponent out of range")));
                }
                proof {
                    assert(base.den * p10 >= 1) by (nonlinear_arith)
                        requires
                            base.den >= 1,
                            p10 >= 1,
                    ;
                }
                Ok(Ratio { neg: base.neg, num: base.num, den: base.den * p10 })
            } else {
                if base.num == 0 {
                    proof {
                        lemma_pow10_pos(m);
                        assert(0 * pow10(m) == 0) by (nonlinear_arith);
                    }
                    return Ok(Ratio { neg: base.neg, num: 0, den: base.den });
                }
                if mm >= 39 {
                    proof {
                        lemma_pow10_mono(39, mm as int);
                        assert(base.num * pow10(m) > u128::MAX) by (nonlinear_arith)
                            requires
                                base.num >= 1,
                                pow10(m) > u128::MAX,
                        ;
                    }
                    return Err(ParsingError(String::from_str("exponent out of range")));
                }
                let p10 = pow10_u128(mm);
                proof {
                    lemma_pow10_pos(mm as int);
                    lemma_scale_fits(base.num as int, p10 as int);
                }
                if base.num > u128::MAX / p10 {
                    return Err(ParsingError(String::from_str("exponent out of range")));
                }
                Ok(Ratio { neg: base.neg, num: base.num * p10, den: base.den })
            }
        },
        Err(_) => {
            // the magnitude alone overflows a u64, so it is at least 39
            proof {
                assert(digits_val(sub@) > u64::MAX);
                lemma_pow10_mono(39, m);
                lemma_pow10_pos(m);
            }
            if !eneg && base.num == 0 {
                proof {
                    assert(0 * pow10(m) == 0) by (nonlinear_arith);
                }
                Ok(Ratio { neg: base.neg, num: 0, den: base.den })
            } else {
                proof {
                    if eneg {
                        assert(base.den * pow10(m) > u128::MAX) by (nonlinear_arith)
                            requires
                                base.den >= 1,
                                pow10(m) > u128::MAX,
                        ;
                    } else {
                        assert(base.num * pow10(m) > u128::MAX) by (nonlinear_arith)
                            requires
                                base.num >= 1,
                                pow10(m) > u128::MAX,
                        ;
                    }
                }
                Err(ParsingError(String::from_str("exponent out of range")))
            }
        },
    }
}

/// Parse a signed decimal number such as `-1.5` or `30e-3` into an exact
/// ratio.
///
/// The whole slice must be consumed: an optional `+` or `-`, digits, an
/// optional fraction after a `.`, and an optional `e`/`E` exponent.  The
/// fraction is kept to nanosecond precision; an exponent scales the ratio
/// exactly within the `u128` range.  The `inf` and `NaN` spellings have
/// no exact representation and are rejected.
pub fn parse_f64(value: &[u8]) -> (r: Result<Ratio, ParsingError>)
    ensures
        r is Ok <==> spec_parse_f64(value@) is Some,
        r is Ok ==> r->Ok_0 == spec_parse_f64(value@)->Some_0,
        r is Ok ==> r->Ok_0.den >= 1,
{
    let len = value.len();
    let neg = len > 0 && value[0] == ('-' as u8);
    let b: usize = if len > 0 && (value[0] == ('-' as u8) || value[0] == ('+' as u8)) {
        1
    } else {
        0
    };
    let i = scan_digits(value, b);
    proof {
        lemma_digits_end(value@, b as int);
    }
    let units: u64;
    let nanos: u32;
    let mut end = i;
    if i == b {
        // the integer part may be empty only when a fraction follows
        if i == len || value[i] != ('.' as u8) {
            return Err(ParsingError(String::from_str("invalid decimal number")));
        }
        units = 0;
        proof {
            assert(value@.subrange(b as int, i as int) =~= Seq::<u8>::empty());
        }
    } else {
        let sub = vstd::slice::slice_subrange(value, b, i);
        proof {
            assert(all_digits(sub@));
            assert(sub@[0] != ('+' as u8));
            assert(strip_plus(sub@) == sub@);
        }
        units = match parse_u64(sub) {
            Ok(u) => u,
            Err(e) => {
                return Err(e);
            },
        };
    }
    if i < len && value[i] == ('.' as u8) {
        let j = scan_digits(value, i + 1);
        proof {
            lemma_digits_end(value@, i as int + 1);
        }
        if i == b && j == i + 1 {
            return Err(ParsingError(String::from_str("invalid decimal number")));
        }
        nanos = read_fraction(value, i + 1, j);
        end = j;
    } else {
        nanos = 0;
    }
    proof {
        proof_pow10_constants();
    }
    let base = if nanos == 0 {
        Ratio { neg, num: units as u128, den: 1 }
    } else {
        Ratio { neg, num: units as u128 * 1000000000 + nanos as u128, den: 1000000000 }
    };
    proof {
        assert(base == decimal_ratio(neg, units, nanos));
    }
    if end == len {
        Ok(base)
    } else {
        let e = value[end];
        if e == ('e' as u8) || e == ('E' as u8) {
            apply_exponent(base, value, end + 1)
        } else {
            Err(ParsingError(String::from_str("invalid decimal number")))
        }
    }
}

/// Read the fraction digits of `value` between `from` and `j` as
/// nanoseconds (the first nine digits, zero-padded on the right).
fn read_fraction(value: &[u8], from: usize, j: usize) -> (r: u32)
    requires
        from <= j <= value@.len(),
        all_digits(value@.subrange(from as int, j as int)),
    ensures
        r == frac_nanos(value@.subrange(from as int, j as int)),
        r < 1000000000,
{
    let ghost f = value@.subrange(from as int, j as int);
    proof {
        lemma_frac_nanos_bound(f);
    }
    let flen = j - from;
    let k: usize = if flen > 9 {
        9
    } else {
        flen
    };
    if k == 0 {
        proof {
            proof_pow10_constants();
            assert(f =~= Seq::<u8>::empty());
        }
        return 0;
    }
    let fsub = vstd::slice::slice_subrange(value, from, from + k);
    proof {
        assert(forall|t: int| 0 <= t < fsub@.len() ==> fsub@[t] == f[t]);
        assert(all_digits(fsub@));
        assert(fsub@[0] != ('+' as u8));
        assert(strip_plus(fsub@) == fsub@);
        lemma_digits_val_upper(fsub@);
        proof_pow10_constants();
        lemma_pow10_mono(k as int, 9);
    }
    let fv = match parse_u64(fsub) {
        Ok(fv) => fv,
        Err(e) => {
            assert(false);
            return 0;
        },
    };
    proof {
        assert(fv < pow10(k as int));
        lemma_pow10_pos(9 - k as int);
        assert(fv * pow10(9 - k as int) <= (pow10(k as int) - 1) * pow10(9 - k as int))
            by (nonlinear_arith)
            requires
                fv < pow10(k as int),
                pow10(9 - k as int) >= 1,
        ;
        lemma_pow10_mul(k as int, 9 - k as int);
        assert((pow10(k as int) - 1) * pow10(9 - k as int) == pow10(9) - pow10(9 - k as int))
            by (nonlinear_arith)
            requires
                pow10(k as int) * pow10(9 - k as int) == pow10(9),
        ;
        assert(fsub@ =~= if f.len() >= 9 {
            f.subrange(0, 9)
        } else {
            f
        });
        assert(fv * pow10(9 - k as int) == frac_nanos(f)) by (nonlinear_arith)
            requires
                k == if f.len() >= 9 { 9int } else { f.len() as int },
                fv == digits_val(
                    if f.len() >= 9 { f.subrange(0, 9) } else { f },
                ),
                frac_nanos(f) == if f.len() >= 9 {
                    digits_val(f.subrange(0, 9))
                } else {
                    digits_val(f) * pow10(9 - f.len())
                },
                pow10(0) == 1,
        ;
    }
    let scaled = fv * pow10_u64(9 - k);
    scaled as u32
}

/// Specification of [`parse_maybe_division`]: either a plain decimal, or
/// two decimals separated by the first `/`, divided exactly.  Division by
/// zero and a quotient whose exact numerator or denominator would leave
/// the `u128` range are rejected.
pub open spec fn spec_maybe_division(s: Seq<u8>) -> Option<Ratio> {
    match find_byte(s, ('/' as u8)) {
        None => spec_parse_f64(s),
        Some(k) => match (
            spec_parse_f64(s.subrange(0, k)),
            spec_parse_f64(s.subrange(k + 1, s.len() as int)),
        ) {
            (Some(a), Some(d)) => if d.num == 0 {
                None
            } else if a.num * d.den > u128::MAX || a.den * d.num > u128::MAX {
                None
            } else {
                Some(
                    Ratio {
                        neg: a.neg != d.neg,
                        num: (a.num * d.den) as u128,
                        den: (a.den * d.num) as u128,
                    },
                )
            },
            _ => None,
        },
    }
}

/// Parse a frame-rate expression: a decimal number, or a fraction such as
/// `30000/1001`, evaluated exactly.
pub fn parse_maybe_division(value: &[u8]) -> (r: Result<Ratio, ParsingError>)
    ensures
        r is Ok <==> spec_maybe_division(value@) is Some,
        r is Ok ==> r->Ok_0 == spec_maybe_division(value@)->Some_0,
{
    match find_byte_exec(value, ('/' as u8)) {
        None => parse_f64(value),
        Some(k) => {
            proof {
                lemma_find_byte(value@, ('/' as u8));
            }
            let n = value.len();
            assert(k < n);
            let head = vstd::slice::slice_subrange(value, 0, k);
            let tail = vstd::slice::slice_subrange(value, k + 1, n);
            let a = match parse_f64(head) {
                Ok(a) => a,
                Err(e) => {
                    return Err(e);
                },
            };
            let d = match parse_f64(tail) {
                Ok(d) => d,
                Err(e) => {
                    return Err(e);
                },
            };
            if d.num == 0 {
                return Err(ParsingError(String::from_str("division by zero")));
            }
            proof {
                lemma_scale_fits(a.num as int, d.den as int);
                lemma_scale_fits(a.den as int, d.num as int);
            }
            if a.num > u128::MAX / d.den || a.den > u128::MAX / d.num {
                return Err(ParsingError(String::from_str("frame rate out of range")));
            }
            proof {
                assert(a.den * d.num >= 1) by (nonlinear_arith)
                    requires
                        a.den >= 1,
                        d.num >= 1,
                ;
            }
            Ok(Ratio { neg: a.neg != d.neg, num: a.num * d.den, den: a.den * d.num })
        },
    }
}

/// The big-endian four-byte encoding of a `u32`, written with quotient and
/// remainder arithmetic.
pub open spec fn spec_u32_be(x: u32) -> Seq<u8> {
    seq![
        (x / 0x1000000) as u8,
        ((x / 0x10000) % 0x100) as u8,
        ((x / 0x100) % 0x100) as u8,
        (x % 0x100) as u8,
    ]
}

/// The value of four big-endian bytes.
pub open spec fn spec_be_val(s: Seq<u8>) -> int
    recommends
        s.len() == 4,
{
    s[0] * 0x1000000 + s[1] * 0x10000 + s[2] * 0x100 + s[3]
}

/// Decoding the four bytes of [`spec_u32_be`] recovers the encoded value.
pub proof fn lemma_u32_be_round_trip(x: u32)
    ensures
        spec_be_val(spec_u32_be(x)) == x,
{
    let d = x as int;
    vstd::arithmetic::div_mod::lemma_fundamental_div_mod(d, 0x100);
    vstd::arithmetic::div_mod::lemma_fundamental_div_mod(d / 0x100, 0x100);
    vstd::arithmetic::div_mod::lemma_fundamental_div_mod(d / 0x100 / 0x100, 0x100);
    vstd::arithmetic::div_mod::lemma_div_denominator(d, 0x100, 0x100);
    vstd::arithmetic::div_mod::lemma_div_denominator(d, 0x10000, 0x100);
    vstd::arithmetic::div_mod::lemma_mod_bound(d, 0x100);
    vstd::arithmetic::div_mod::lemma_mod_bound(d / 0x100, 0x100);
    vstd::arithmetic::div_mod::lemma_mod_bound(d / 0x10000, 0x100);
    vstd::arithmetic::div_mod::lemma_div_pos_is_pos(d, 0x100);
    vstd::arithmetic::div_mod::lemma_div_pos_is_pos(d / 0x100, 0x100);
    vstd::arithmetic::div_mod::lemma_div_pos_is_pos(d / 0x10000, 0x100);
}

/// Emit the big-endian four-byte encoding of `x`, as used by the
/// namespace-framing wire format.
pub fn u32_to_u8_slice_be(x: u32) -> (r: Vec<u8>)
    ensures
        r@ == spec_u32_be(x),
        r@.len() == 4,
{
    proof {
        vstd::arithmetic::div_mod::lemma_mod_bound(x as int, 0x100);
        vstd::arithmetic::div_mod::lemma_mod_bound(x as int / 0x100, 0x100);
        vstd::arithmetic::div_mod::lemma_mod_bound(x as int / 0x10000, 0x100);
        vstd::arithmetic::div_mod::lemma_div_pos_is_pos(x as int, 0x100);
        vstd::arithmetic::div_mod::lemma_div_pos_is_pos(x as int / 0x100, 0x100);
        vstd::arithmetic::div_mod::lemma_div_pos_is_pos(x as int / 0x10000, 0x100);
        vstd::arithmetic::div_mod::lemma_fundamental_div_mod(x as int, 0x1000000);
        vstd::arithmetic::div_mod::lemma_mod_bound(x as int, 0x1000000);
    }
    let mut r: Vec<u8> = Vec::new();
    r.push((x / 0x1000000) as u8);
    r.push(((x / 0x10000) % 0x100) as u8);
    r.push(((x / 0x100) % 0x100) as u8);
    r.push((x % 0x100) as u8);
    proof {
        assert(r@ =~= spec_u32_be(x));
    }
    r
}

/// Read four big-endian bytes as a `u32`.
pub fn be_u32_value(b0: u8, b1: u8, b2: u8, b3: u8) -> (r: u32)
    ensures
        r == spec_be_val(seq![b0, b1, b2, b3]),
{
    b0 as u32 * 0x1000000 + b1 as u32 * 0x10000 + b2 as u32 * 0x100 + b3 as u32
}

/// Append `src` to `dst`.
pub fn push_all(dst: &mut Vec<u8>, src: &[u8])
    ensures
        final(dst)@ == old(dst)@ + src@,
{
    let mut i: usize = 0;
    while i < src.len()
        invariant
            0 <= i <= src@.len(),
            dst@ == old(dst)@ + src@.subrange(0, i as int),
        decreases src@.len() - i,
    {
        dst.push(src[i]);
        proof {
            assert(old(dst)@ + src@.subrange(0, i as int + 1) =~= (old(dst)@ + src@.subrange(
                0,
                i as int,
            )).push(src@[i as int]));
        }
        i = i + 1;
    }
    proof {
        assert(src@.subrange(0, src@.len() as int) =~= src@);
    }
}

/// A digit string of `'0'`s denotes zero.
pub proof fn lemma_zeros_val(s: Seq<u8>)
    requires
        forall|i: int| 0 <= i < s.len() ==> s[i] == ('0' as u8),
    ensures
        digits_val(s) == 0,
        all_digits(s),
    decreases s.len(),
{
    if s.len() > 0 {
        lemma_zeros_val(s.drop_last());
    }
}

/// Inversion of [`digits_end`]: a digit run that stops at `e` has `e` as
/// its end.
pub proof fn lemma_digits_end_at(s: Seq<u8>, a: int, e: int)
    requires
        0 <= a <= e <= s.len(),
        forall|j: int| a <= j < e ==> is_digit(#[trigger] s[j]),
        e < s.len() ==> !is_digit(s[e]),
    ensures
        digits_end(s, a) == e,
    decreases e - a,
{
    if a < e {
        lemma_digits_end_at(s, a + 1, e);
    }
}

/// The leading digit of a digit string bounds its value from below.
pub proof fn lemma_leading_digit_min(s: Seq<u8>)
    requires
        all_digits(s),
        s.len() >= 1,
        s[0] != ('0' as u8),
    ensures
        digits_val(s) >= pow10(s.len() - 1),
{
    let head = seq![s[0]];
    let rest = s.skip(1);
    assert(s =~= head + rest);
    lemma_digits_val_concat(head, rest);
    assert(head.drop_last() =~= Seq::<u8>::empty());
    assert(head.drop_last().len() == 0);
    assert(digits_val(head.drop_last()) == 0);
    assert(digits_val(head) == s[0] - ('0' as u8));
    assert(all_digits(rest)) by {
        assert(forall|j: int| 0 <= j < rest.len() ==> rest[j] == s[j + 1]);
    }
    lemma_digits_val_bounds(rest);
    lemma_pow10_pos(s.len() - 1);
    assert(digits_val(head) * pow10(rest.len() as int) >= pow10(rest.len() as int))
        by (nonlinear_arith)
        requires
            digits_val(head) >= 1,
            pow10(rest.len() as int) >= 1,
    ;
}

/// Render `n` in ASCII decimal, without leading zeroes.
pub fn u64_to_dec(n: u64) -> (r: Vec<u8>)
    ensures
        all_digits(r@),
        r@.len() >= 1,
        digits_val(r@) == n,
        n == 0 ==> r@ =~= seq![('0' as u8)],
        n > 0 ==> r@[0] != ('0' as u8),
{
    let mut digs: Vec<u8> = Vec::new();
    let mut m = n;
    loop
        invariant_except_break
            all_digits(digs@),
            m * pow10(digs@.len() as int) + digits_val(digs@) == n,
            digs@.len() == 0 ==> m == n,
            digs@.len() > 0 ==> m >= 1,
        ensures
            all_digits(digs@),
            digs@.len() >= 1,
            digits_val(digs@) == n,
            n == 0 ==> digs@ =~= seq![('0' as u8)],
            n > 0 ==> digs@[0] != ('0' as u8),
        decreases m, (if digs@.len() == 0 { 1int } else { 0int }),
    {
        let ghost entry_m = m;
        proof {
            vstd::arithmetic::div_mod::lemma_fundamental_div_mod(m as int, 10);
            vstd::arithmetic::div_mod::lemma_mod_bound(m as int, 10);
            vstd::arithmetic::div_mod::lemma_div_pos_is_pos(m as int, 10);
        }
        let d = (m % 10) as u8;
        let dig = d + ('0' as u8);
        let ghost old_digs = digs@;
        proof {
            lemma_digits_val_concat(seq![dig], old_digs);
            assert(seq![dig].drop_last() =~= Seq::<u8>::empty());
            assert(seq![dig].drop_last().len() == 0);
            assert(digits_val(seq![dig].drop_last()) == 0);
            assert(digits_val(seq![dig]) == d);
            assert(pow10(old_digs.len() as int + 1) == 10 * pow10(old_digs.len() as int));
            assert((m / 10) * (10 * pow10(old_digs.len() as int)) + d * pow10(
                old_digs.len() as int,
            ) == (10 * (m / 10) + d) * pow10(old_digs.len() as int)) by (nonlinear_arith);
        }
        digs.insert(0, dig);
        proof {
            assert(digs@ =~= seq![dig] + old_digs);
        }
        m = m / 10;
        if m == 0 {
            proof {
                assert(entry_m == d);
                assert(digits_val(digs@) == n);
                lemma_pow10_pos(old_digs.len() as int);
                lemma_digits_val_bounds(old_digs);
                if n > 0 {
                    if old_digs.len() == 0 {
                        assert(entry_m == n);
                    }
                    assert(entry_m >= 1);
                    assert(dig != ('0' as u8));
                    assert(digs@[0] == dig);
                }
                if n == 0 {
                    if old_digs.len() > 0 {
                        assert(entry_m >= 1);
                        assert(entry_m * pow10(old_digs.len() as int) >= 1)
                            by (nonlinear_arith)
                            requires
                                entry_m >= 1,
                                pow10(old_digs.len() as int) >= 1,
                        ;
                        assert(false);
                    }
                    assert(digs@ =~= seq![('0' as u8)]);
                }
            }
            break;
        }
    }
    digs
}

/// Render the ASCII decimal of `n`, zero-padded on the left to nine
/// digits.
fn u32_to_dec9(n: u32) -> (r: Vec<u8>)
    requires
        n < 1000000000,
    ensures
        all_digits(r@),
        r@.len() == 9,
        digits_val(r@) == n,
{
    let digs = u64_to_dec(n as u64);
    proof {
        proof_pow10_constants();
        if digs@.len() > 9 {
            // more than nine digits without a leading zero would denote at
            // least 10^9, contradicting the bound on `n`
            lemma_leading_digit_min(digs@);
            lemma_pow10_mono(9, digs@.len() - 1);
            assert(false);
        }
    }
    let mut r: Vec<u8> = Vec::new();
    let mut pad = 9 - digs.len();
    while pad > 0
        invariant
            r@.len() + pad + digs@.len() == 9,
            forall|i: int| 0 <= i < r@.len() ==> r@[i] == ('0' as u8),
        decreases pad,
    {
        r.push('0' as u8);
        pad = pad - 1;
    }
    proof {
        lemma_zeros_val(r@);
        lemma_digits_val_concat(r@, digs@);
    }
    push_all(&mut r, digs.as_slice());
    r
}

/// Render a byte range as `start-end`; parsing it back yields exactly the
/// two bounds.  This is the byte-range half of the scalar round-trip law.
pub fn format_byte_range(a: u64, b: u64) -> (r: Vec<u8>)
    ensures
        spec_parse_byte_range(r@) == Some((a, b)),
{
    let da = u64_to_dec(a);
    let db = u64_to_dec(b);
    let mut r: Vec<u8> = Vec::new();
    push_all(&mut r, da.as_slice());
    r.push('-' as u8);
    push_all(&mut r, db.as_slice());
    proof {
        let i = da@.len() as int;
        let s = r@;
        assert(s[i] == ('-' as u8));
        assert(forall|j: int| 0 <= j < i ==> is_digit(#[trigger] s[j]) && s[j] != ('-' as u8));
        lemma_find_byte(s, ('-' as u8));
        match find_byte(s, ('-' as u8)) {
            Some(k) => {
                assert(k == i);
            },
            None => {
                assert(false);
            },
        }
        assert(s.subrange(0, i) =~= da@);
        assert(s.subrange(i + 1, s.len() as int) =~= db@);
        assert(strip_plus(da@) == da@);
        assert(strip_plus(db@) == db@);
    }
    r
}

/// Render `secs` seconds and `nanos` nanoseconds as a canonical ISO 8601
/// duration (`PT...S`); parsing it back yields exactly the same duration.
/// This is the duration half of the scalar round-trip law.
pub fn format_iso_8601(secs: u64, nanos: u32) -> (r: Vec<u8>)
    requires
        nanos < 1000000000,
    ensures
        spec_parse_iso(r@) == Some(decimal_ratio(false, secs, nanos)),
{
    let ds = u64_to_dec(secs);
    let mut r: Vec<u8> = Vec::new();
    r.push('P' as u8);
    r.push('T' as u8);
    push_all(&mut r, ds.as_slice());
    if nanos != 0 {
        r.push('.' as u8);
        let df = u32_to_dec9(nanos);
        push_all(&mut r, df.as_slice());
        r.push('S' as u8);
        proof {
            lemma_format_iso_frac(r@, ds@, df@, secs, nanos);
        }
    } else {
        r.push('S' as u8);
        proof {
            lemma_format_iso_whole(r@, ds@, secs);
        }
    }
    r
}

/// Parsing `PT<digits>S` yields the whole number of seconds it spells.
proof fn lemma_format_iso_whole(s: Seq<u8>, ds: Seq<u8>, secs: u64)
    requires
        all_digits(ds),
        ds.len() >= 1,
        digits_val(ds) == secs,
        s =~= seq![('P' as u8), ('T' as u8)] + ds + seq![('S' as u8)],
    ensures
        spec_parse_iso(s) == Some(decimal_ratio(false, secs, 0)),
{
    let n = s.len() as int;
    assert(s[0] == ('P' as u8));
    assert(s[1] == ('T' as u8));
    assert(forall|j: int| 2 <= j < n - 1 ==> s[j] == ds[j - 2] && is_digit(#[trigger] s[j]));
    assert(s[n - 1] == ('S' as u8));
    assert(!is_digit(('S' as u8)));
    lemma_digits_end_at(s, 2, n - 1);
    assert(s.subrange(2, n - 1) =~= ds);
    // the component: (secs, 0 nanos, ending at n - 1)
    assert(spec_read_float(s, 2) == Some((secs, 0u32, n - 1)));
    assert(time_factor(s[n - 1]) == Some(1int));
    let tot = component_nanos(secs, 0u32, 1);
    assert(spec_time_part(s, 2, 0) == Some(tot));
    assert(tot == secs * 1000000000) by (nonlinear_arith)
        requires
            tot == (secs * 1000000000 + 0) * 1,
    ;
    assert(tot <= 0xffffffffffffffffint * 1000000000) by (nonlinear_arith)
        requires
            tot == secs * 1000000000,
            secs <= 0xffffffffffffffff,
    ;
    vstd::arithmetic::div_mod::lemma_mod_multiples_basic(secs as int, 1000000000);
    assert(tot % nanos_per_sec() == 0);
    vstd::arithmetic::div_mod::lemma_div_multiples_vanish(secs as int, 1000000000);
    assert(tot / nanos_per_sec() == secs);
}

/// Parsing `PT<digits>.<nine digits>S` yields the seconds and nanoseconds
/// they spell.
proof fn lemma_format_iso_frac(s: Seq<u8>, ds: Seq<u8>, df: Seq<u8>, secs: u64, nanos: u32)
    requires
        all_digits(ds),
        ds.len() >= 1,
        digits_val(ds) == secs,
        all_digits(df),
        df.len() == 9,
        digits_val(df) == nanos,
        0 < nanos < 1000000000,
        s =~= seq![('P' as u8), ('T' as u8)] + ds + seq![('.' as u8)] + df + seq![('S' as u8)],
    ensures
        spec_parse_iso(s) == Some(decimal_ratio(false, secs, nanos)),
{
    let n = s.len() as int;
    let i = 2 + ds.len() as int;
    assert(s[0] == ('P' as u8));
    assert(s[1] == ('T' as u8));
    assert(forall|j: int| 2 <= j < i ==> s[j] == ds[j - 2] && is_digit(#[trigger] s[j]));
    assert(s[i] == ('.' as u8));
    assert(forall|j: int| i + 1 <= j < n - 1 ==> s[j] == df[j - i - 1] && is_digit(
        #[trigger] s[j],
    ));
    assert(s[n - 1] == ('S' as u8));
    assert(!is_digit(('.' as u8)));
    assert(!is_digit(('S' as u8)));
    lemma_digits_end_at(s, 2, i);
    lemma_digits_end_at(s, i + 1, n - 1);
    assert(s.subrange(2, i) =~= ds);
    assert(s.subrange(i + 1, n - 1) =~= df);
    assert(frac_nanos(df) == digits_val(df.subrange(0, 9)));
    assert(df.subrange(0, 9) =~= df);
    assert(spec_read_float(s, 2) == Some((secs, nanos, n - 1)));
    assert(time_factor(s[n - 1]) == Some(1int));
    let tot = component_nanos(secs, nanos, 1);
    assert(spec_time_part(s, 2, 0) == Some(tot));
    assert(tot == secs * 1000000000 + nanos) by (nonlinear_arith)
        requires
            tot == (secs * 1000000000 + nanos) * 1,
    ;
    assert(tot <= 0xffffffffffffffffint * 1000000000 + 999999999) by (nonlinear_arith)
        requires
            tot == secs * 1000000000 + nanos,
            secs <= 0xffffffffffffffff,
            nanos <= 999999999,
    ;
    vstd::arithmetic::div_mod::lemma_mod_multiples_vanish(secs as int, nanos as int, 1000000000);
    vstd::arithmetic::div_mod::lemma_small_mod(nanos as nat, 1000000000);
    assert(tot % nanos_per_sec() == nanos as int % 1000000000);
    assert(tot % nanos_per_sec() != 0);
}

/// Compare two byte slices for equality.
pub fn bytes_equal(a: &[u8], b: &[u8]) -> (r: bool)
    ensures
        r <==> a@ == b@,
{
    if a.len() != b.len() {
        return false;
    }
    let mut i: usize = 0;
    while i < a.len()
        invariant
            0 <= i <= a@.len(),
            a@.len() == b@.len(),
            forall|j: int| 0 <= j < i ==> a@[j] == b@[j],
        decreases a@.len() - i,
    {
        if a[i] != b[i] {
            return false;
        }
        i = i + 1;
    }
    proof {
        assert(a@ =~= b@);
    }
    true
}

} // verus!

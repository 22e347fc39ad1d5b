//! Decimal integers: reading them the way `str::parse` does, and writing them.

use vstd::prelude::*;
use vstd::string::StringSliceAdditionalSpecFns;

verus! {

/// Why a decimal integer could not be read (the kinds of std's `ParseIntError`).
#[derive(Clone, Copy, PartialEq, Eq, Debug)]
pub enum IntErrorKind {
    /// The text is empty.
    Empty,
    /// The text holds a byte that is not a digit where a digit is needed.
    InvalidDigit,
    /// The value is above the largest value of the target type.
    PosOverflow,
    /// The value is below the smallest value of the target type.
    NegOverflow,
}

/// `b` is an ASCII decimal digit.
pub open spec fn is_digit(b: u8) -> bool {
    48 <= b <= 57
}

/// Reads the digits `d[i..]` from left to right onto the magnitude `acc`, failing on the
/// first byte that is not a digit or on the first step whose magnitude exceeds `limit`.
pub open spec fn scan_digits(d: Seq<u8>, i: int, acc: int, limit: int, neg: bool) -> Result<
    int,
    IntErrorKind,
>
    decreases d.len() - i,
{
    if i >= d.len() || i < 0 {
        Ok(acc)
    } else if !is_digit(d[i]) {
        Err(IntErrorKind::InvalidDigit)
    } else if acc * 10 + (d[i] - 48) > limit {
        Err(
            if neg {
                IntErrorKind::NegOverflow
            } else {
                IntErrorKind::PosOverflow
            },
        )
    } else {
        scan_digits(d, i + 1, acc * 10 + (d[i] - 48), limit, neg)
    }
}

/// The result of reading the bytes `s` as a decimal integer in `min..=max`, with an
/// optional leading `+`, and a leading `-` where `min` is negative.
pub open spec fn parse_decimal(s: Seq<u8>, min: int, max: int) -> Result<int, IntErrorKind> {
    if s.len() == 0 {
        Err(IntErrorKind::Empty)
    } else if s.len() == 1 && (s[0] == 43 || s[0] == 45) {
        Err(IntErrorKind::InvalidDigit)
    } else if s[0] == 43 {
        scan_digits(s, 1, 0, max, false)
    } else if s[0] == 45 && min < 0 {
        match scan_digits(s, 1, 0, -min, true) {
            Ok(v) => Ok(-v),
            Err(e) => Err(e),
        }
    } else {
        scan_digits(s, 0, 0, max, false)
    }
}

proof fn lemma_scan_bounds(d: Seq<u8>, i: int, acc: int, limit: int, neg: bool)
    requires
        0 <= acc <= limit,
    ensures
        scan_digits(d, i, acc, limit, neg) matches Ok(v) ==> 0 <= v <= limit,
    decreases d.len() - i,
{
    if 0 <= i < d.len() && is_digit(d[i]) && acc * 10 + (d[i] - 48) <= limit {
        lemma_scan_bounds(d, i + 1, acc * 10 + (d[i] - 48), limit, neg);
    }
}

/// Reads `b[start..]` as decimal digits, with magnitude at most `limit`.
fn scan_magnitude(b: &[u8], start: usize, limit: u64, neg: bool) -> (r: Result<u64, IntErrorKind>)
    requires
        start <= b.len(),
        limit >= 9,
    ensures
        match r {
            Ok(v) => scan_digits(b@, start as int, 0, limit as int, neg) == Ok::<int, IntErrorKind>(
                v as int,
            ),
            Err(e) => scan_digits(b@, start as int, 0, limit as int, neg) == Err::<int, IntErrorKind>(
                e,
            ),
        },
{
    let mut acc: u64 = 0;
    let mut i: usize = start;
    while i < b.len()
        invariant
            start <= i <= b.len(),
            limit >= 9,
            acc <= limit,
            scan_digits(b@, start as int, 0, limit as int, neg) == scan_digits(
                b@,
                i as int,
                acc as int,
                limit as int,
                neg,
            ),
        decreases b.len() - i,
    {
        let c = b[i];
        if c < 48 || c > 57 {
            return Err(IntErrorKind::InvalidDigit);
        }
        let d = (c - 48) as u64;
        if acc > (limit - d) / 10 {
            assert(acc * 10 + d > limit) by (nonlinear_arith)
                requires
                    acc > (limit - d) / 10,
                    d <= limit,
            ;
            return Err(
                if neg {
                    IntErrorKind::NegOverflow
                } else {
                    IntErrorKind::PosOverflow
                },
            );
        }
        assert(acc * 10 + d <= limit) by (nonlinear_arith)
            requires
                acc <= (limit - d) / 10,
                d <= limit,
        ;
        acc = acc * 10 + d;
        i += 1;
    }
    Ok(acc)
}

/// Reads `s` as a `usize`, as `s.parse::<usize>()` does.
pub fn parse_usize(s: &str) -> (r: Result<usize, IntErrorKind>)
    ensures
        match r {
            Ok(v) => parse_decimal(s.spec_bytes(), 0, usize::MAX as int) == Ok::<int, IntErrorKind>(
                v as int,
            ),
            Err(e) => parse_decimal(s.spec_bytes(), 0, usize::MAX as int) == Err::<int, IntErrorKind>(
                e,
            ),
        },
{
    let b = s.as_bytes();
    if b.len() == 0 {
        return Err(IntErrorKind::Empty);
    }
    if b.len() == 1 && (b[0] == 43 || b[0] == 45) {
        return Err(IntErrorKind::InvalidDigit);
    }
    let start: usize = if b[0] == 43 {
        1
    } else {
        0
    };
    proof {
        lemma_scan_bounds(b@, start as int, 0, usize::MAX as int, false);
    }
    match scan_magnitude(b, start, usize::MAX as u64, false) {
        Ok(v) => Ok(v as usize),
        Err(e) => Err(e),
    }
}

/// Reads `s` as a `u16`, as `s.parse::<u16>()` does.
pub fn parse_u16(s: &str) -> (r: Result<u16, IntErrorKind>)
    ensures
        match r {
            Ok(v) => parse_decimal(s.spec_bytes(), 0, u16::MAX as int) == Ok::<int, IntErrorKind>(
                v as int,
            ),
            Err(e) => parse_decimal(s.spec_bytes(), 0, u16::MAX as int) == Err::<int, IntErrorKind>(
                e,
            ),
        },
{
    let b = s.as_bytes();
    if b.len() == 0 {
        return Err(IntErrorKind::Empty);
    }
    if b.len() == 1 && (b[0] == 43 || b[0] == 45) {
        return Err(IntErrorKind::InvalidDigit);
    }
    let start: usize = if b[0] == 43 {
        1
    } else {
        0
    };
    proof {
        lemma_scan_bounds(b@, start as int, 0, u16::MAX as int, false);
    }
    match scan_magnitude(b, start, u16::MAX as u64, false) {
        Ok(v) => Ok(v as u16),
        Err(e) => Err(e),
    }
}

/// Reads `s` as an `i32`, as `s.parse::<i32>()` does.
pub fn parse_i32(s: &str) -> (r: Result<i32, IntErrorKind>)
    ensures
        match r {
            Ok(v) => parse_decimal(s.spec_bytes(), i32::MIN as int, i32::MAX as int) == Ok::<
                int,
                IntErrorKind,
            >(v as int),
            Err(e) => parse_decimal(s.spec_bytes(), i32::MIN as int, i32::MAX as int) == Err::<
                int,
                IntErrorKind,
            >(e),
        },
{
    let b = s.as_bytes();
    if b.len() == 0 {
        return Err(IntErrorKind::Empty);
    }
    if b.len() == 1 && (b[0] == 43 || b[0] == 45) {
        return Err(IntErrorKind::InvalidDigit);
    }
    if b[0] == 45 {
        proof {
            lemma_scan_bounds(b@, 1, 0, 0x8000_0000, true);
        }
        match scan_magnitude(b, 1, 0x8000_0000, true) {
            Ok(v) => Ok((0 - (v as i64)) as i32),
            Err(e) => Err(e),
        }
    } else {
        let start: usize = if b[0] == 43 {
            1
        } else {
            0
        };
        proof {
            lemma_scan_bounds(b@, start as int, 0, i32::MAX as int, false);
        }
        match scan_magnitude(b, start, i32::MAX as u64, false) {
            Ok(v) => Ok(v as i32),
            Err(e) => Err(e),
        }
    }
}

/// The decimal digits of `n`, most significant first, without leading zeros.
pub open spec fn decimal_digits(n: nat) -> Seq<u8>
    decreases n,
{
    if n < 10 {
        seq![(48 + n) as u8]
    } else {
        decimal_digits(n / 10).push((48 + n % 10) as u8)
    }
}

/// Appends the decimal digits of `n` to `out`.
pub fn push_decimal(out: &mut Vec<u8>, n: usize)
    ensures
        final(out)@ == old(out)@ + decimal_digits(n as nat),
    decreases n,
{
    if n >= 10 {
        push_decimal(out, n / 10);
    }
    out.push(48 + (n % 10) as u8);
    proof {
        if n >= 10 {
            assert(final(out)@ =~= old(out)@ + decimal_digits(n as nat));
        } else {
            assert(final(out)@ =~= old(out)@ + decimal_digits(n as nat));
        }
    }
}


/// One step of `scan_digits`: reading the digit byte `c` onto the magnitude `a`.
pub open spec fn scan_step(a: int, c: u8, limit: int, neg: bool) -> Result<int, IntErrorKind> {
    if !is_digit(c) {
        Err(IntErrorKind::InvalidDigit)
    } else if a * 10 + (c - 48) > limit {
        Err(
            if neg {
                IntErrorKind::NegOverflow
            } else {
                IntErrorKind::PosOverflow
            },
        )
    } else {
        Ok(a * 10 + (c - 48))
    }
}

proof fn lemma_scan_push(d: Seq<u8>, c: u8, i: int, acc: int, limit: int, neg: bool)
    requires
        0 <= i <= d.len(),
    ensures
        scan_digits(d.push(c), i, acc, limit, neg) == match scan_digits(d, i, acc, limit, neg) {
            Ok(a) => scan_step(a, c, limit, neg),
            Err(e) => Err(e),
        },
    decreases d.len() - i,
{
    let e = d.push(c);
    if i < d.len() {
        assert(e[i] == d[i]);
        if is_digit(d[i]) && acc * 10 + (d[i] - 48) <= limit {
            lemma_scan_push(d, c, i + 1, acc * 10 + (d[i] - 48), limit, neg);
        }
    } else {
        assert(e[i] == c);
        assert(scan_digits(e, i + 1, acc * 10 + (c - 48), limit, neg) == Ok::<int, IntErrorKind>(
            acc * 10 + (c - 48),
        ));
    }
}

proof fn lemma_scan_decimal(n: nat, limit: int)
    requires
        n <= limit,
    ensures
        scan_digits(decimal_digits(n), 0, 0, limit, false) == Ok::<int, IntErrorKind>(n as int),
        decimal_digits(n).len() > 0,
        is_digit(decimal_digits(n)[0]),
    decreases n,
{
    if n < 10 {
        let d = decimal_digits(n);
        assert(scan_digits(d, 1, n as int, limit, false) == Ok::<int, IntErrorKind>(n as int));
    } else {
        let m = n / 10;
        lemma_scan_decimal(m, limit);
        lemma_scan_push(decimal_digits(m), (48 + n % 10) as u8, 0, 0, limit, false);
        assert(m * 10 + n % 10 == n);
    }
}

/// Reading back what `push_decimal` writes: the decimal digits of any `n` in `0..=max`
/// parse, as an integer in `min..=max`, to `n` itself.
pub proof fn lemma_decimal_round_trip(n: nat, min: int, max: int)
    requires
        n <= max,
        min <= 0,
    ensures
        parse_decimal(decimal_digits(n), min, max) == Ok::<int, IntErrorKind>(n as int),
{
    lemma_scan_decimal(n, max);
}


/// A value read as an integer in `min..=max` lies in `min..=max`.
pub proof fn lemma_parse_decimal_in_range(s: Seq<u8>, min: int, max: int)
    requires
        min <= 0 <= max,
    ensures
        parse_decimal(s, min, max) matches Ok(v) ==> min <= v <= max,
{
    if s.len() > 0 {
        lemma_scan_bounds(s, 1, 0, max, false);
        lemma_scan_bounds(s, 0, 0, max, false);
        if min < 0 {
            lemma_scan_bounds(s, 1, 0, -min, true);
        }
    }
}


/// The text std's `ParseIntError` shows for each kind of error.
pub open spec fn int_error_text(kind: IntErrorKind) -> Seq<char> {
    match kind {
        IntErrorKind::Empty => "cannot parse integer from empty string"@,
        IntErrorKind::InvalidDigit => "invalid digit found in string"@,
        IntErrorKind::PosOverflow => "number too large to fit in target type"@,
        IntErrorKind::NegOverflow => "number too small to fit in target type"@,
    }
}

impl IntErrorKind {
    /// The message for this kind of error, as std's `ParseIntError` shows it.
    pub fn text(&self) -> (r: &'static str)
        ensures
            r@ == int_error_text(*self),
    {
        match self {
            IntErrorKind::Empty => "cannot parse integer from empty string",
            IntErrorKind::InvalidDigit => "invalid digit found in string",
            IntErrorKind::PosOverflow => "number too large to fit in target type",
            IntErrorKind::NegOverflow => "number too small to fit in target type",
        }
    }
}

} // verus!

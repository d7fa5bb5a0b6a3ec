//! Exact decimal numbers.
//!
//! Numeric answers and the numeric parameters of a problem (range bounds,
//! expected values, precisions) are decimal literals such as `-3.05`. They
//! are held exactly as an integer mantissa together with a power-of-ten
//! scale: the value of `Decimal { mantissa: m, scale: s }` is the rational
//! number `m / 10^s`. All comparisons are exact comparisons of rationals,
//! carried out on cross-multiplied integers.

use vstd::prelude::*;

verus! {

/// Exclusive bound on the magnitude of a mantissa: 10^18.
pub const MANTISSA_LIMIT: i64 = 1_000_000_000_000_000_000;

/// Inclusive bound on the scale (number of fractional digits).
pub const SCALE_LIMIT: u32 = 9;

/// A decimal number with value `mantissa / 10^scale`.
#[derive(Clone, Copy, Debug, PartialEq, Eq, Structural)]
pub struct Decimal {
    pub mantissa: i64,
    pub scale: u32,
}

/// 10 raised to the power `e`.
pub open spec fn pow10(e: nat) -> int
    decreases e,
{
    if e == 0 {
        1
    } else {
        10 * pow10((e - 1) as nat)
    }
}

pub proof fn lemma_pow10_pos(e: nat)
    ensures
        pow10(e) >= 1,
    decreases e,
{
    if e > 0 {
        lemma_pow10_pos((e - 1) as nat);
    }
}

pub proof fn lemma_pow10_increases(a: nat, b: nat)
    requires
        a <= b,
    ensures
        pow10(a) <= pow10(b),
    decreases b,
{
    if a < b {
        lemma_pow10_increases(a, (b - 1) as nat);
        lemma_pow10_pos((b - 1) as nat);
    }
}

impl Decimal {
    /// A representable decimal: the mantissa and scale are small enough that
    /// every comparison below can cross-multiply up to three scales without
    /// leaving `i128`.
    pub open spec fn wf(self) -> bool {
        &&& -MANTISSA_LIMIT < self.mantissa < MANTISSA_LIMIT
        &&& self.scale <= SCALE_LIMIT
    }

    /// The numerator of the value when written over the denominator `10^scale`.
    pub open spec fn num(self) -> int {
        self.mantissa as int
    }

    /// The denominator of the value: `10^scale`.
    pub open spec fn den(self) -> int {
        pow10(self.scale as nat)
    }

    /// Runtime test for [`Decimal::wf`].
    pub fn is_wf(&self) -> (r: bool)
        ensures
            r == self.wf(),
    {
        -MANTISSA_LIMIT < self.mantissa && self.mantissa < MANTISSA_LIMIT && self.scale
            <= SCALE_LIMIT
    }

    /// Builds a decimal from its parts, refusing out-of-range ones.
    pub fn new(mantissa: i64, scale: u32) -> (r: Option<Decimal>)
        ensures
            match r {
                Some(d) => d.wf() && d.mantissa == mantissa && d.scale == scale,
                None => !(Decimal { mantissa, scale }).wf(),
            },
    {
        if -MANTISSA_LIMIT < mantissa && mantissa < MANTISSA_LIMIT && scale <= SCALE_LIMIT {
            Some(Decimal { mantissa, scale })
        } else {
            None
        }
    }
}

/// `a <= b` as rationals: `a.m / 10^a.s <= b.m / 10^b.s`, cross-multiplied
/// by the (positive) denominators.
pub open spec fn spec_le(a: Decimal, b: Decimal) -> bool {
    a.num() * b.den() <= b.num() * a.den()
}

/// `a < b` as rationals.
pub open spec fn spec_lt(a: Decimal, b: Decimal) -> bool {
    a.num() * b.den() < b.num() * a.den()
}

/// `|x - q| < p` as rationals: both sides multiplied by
/// `10^(x.s + q.s + p.s) > 0`, so the comparison is between integers.
pub open spec fn spec_within(x: Decimal, q: Decimal, p: Decimal) -> bool {
    let diff = x.num() * pow10((q.scale + p.scale) as nat) - q.num() * pow10(
        (x.scale + p.scale) as nat,
    );
    let tol = p.num() * pow10((x.scale + q.scale) as nat);
    -tol < diff && diff < tol
}

/// `|m * p| <= mb * pb` whenever `|m| <= mb` and `0 <= p <= pb`.
proof fn lemma_mul_abs_bound(m: int, p: int, mb: int, pb: int)
    by (nonlinear_arith)
    requires
        -mb <= m <= mb,
        0 <= p <= pb,
    ensures
        -(mb * pb) <= m * p <= mb * pb,
{
}

/// 10 raised to the power `e`, for exponents small enough that the result
/// fits comfortably in `u64`.
pub fn pow10_u64(e: u32) -> (r: u64)
    requires
        e <= 18,
    ensures
        r == pow10(e as nat),
{
    proof {
        lemma_pow10_increases(e as nat, 18);
        assert(pow10(18) == 1_000_000_000_000_000_000) by {
            reveal_with_fuel(pow10, 19);
        }
    }
    let mut r: u64 = 1;
    let mut i: u32 = 0;
    while i < e
        invariant
            i <= e <= 18,
            r == pow10(i as nat),
            pow10(e as nat) <= 1_000_000_000_000_000_000,
        decreases e - i,
    {
        proof {
            lemma_pow10_increases((i + 1) as nat, e as nat);
            lemma_pow10_pos(i as nat);
        }
        r = r * 10;
        i = i + 1;
    }
    r
}

impl Decimal {
    /// Exact `self <= other` over the rational values.
    pub fn le(&self, other: &Decimal) -> (r: bool)
        requires
            self.wf(),
            other.wf(),
        ensures
            r == spec_le(*self, *other),
    {
        proof {
            lemma_pow10_pos(self.scale as nat);
            lemma_pow10_pos(other.scale as nat);
            lemma_pow10_increases(self.scale as nat, 18);
            lemma_pow10_increases(other.scale as nat, 18);
            assert(pow10(18) == 1_000_000_000_000_000_000) by {
                reveal_with_fuel(pow10, 19);
            }
            lemma_mul_abs_bound(
                self.mantissa as int,
                pow10(other.scale as nat),
                MANTISSA_LIMIT as int,
                1_000_000_000_000_000_000,
            );
            lemma_mul_abs_bound(
                other.mantissa as int,
                pow10(self.scale as nat),
                MANTISSA_LIMIT as int,
                1_000_000_000_000_000_000,
            );
        }
        let lhs = (self.mantissa as i128) * (pow10_u64(other.scale) as i128);
        let rhs = (other.mantissa as i128) * (pow10_u64(self.scale) as i128);
        lhs <= rhs
    }

    /// Exact `self < other` over the rational values.
    pub fn lt(&self, other: &Decimal) -> (r: bool)
        requires
            self.wf(),
            other.wf(),
        ensures
            r == spec_lt(*self, *other),
    {
        !other.le(self)
    }

    /// Exact `|self - eq| < precision` over the rational values.
    pub fn within(&self, eq: &Decimal, precision: &Decimal) -> (r: bool)
        requires
            self.wf(),
            eq.wf(),
            precision.wf(),
        ensures
            r == spec_within(*self, *eq, *precision),
    {
        proof {
            lemma_pow10_pos((eq.scale + precision.scale) as nat);
            lemma_pow10_pos((self.scale + precision.scale) as nat);
            lemma_pow10_pos((self.scale + eq.scale) as nat);
            lemma_pow10_increases((eq.scale + precision.scale) as nat, 18);
            lemma_pow10_increases((self.scale + precision.scale) as nat, 18);
            lemma_pow10_increases((self.scale + eq.scale) as nat, 18);
            assert(pow10(18) == 1_000_000_000_000_000_000) by {
                reveal_with_fuel(pow10, 19);
            }
            lemma_mul_abs_bound(
                self.mantissa as int,
                pow10((eq.scale + precision.scale) as nat),
                MANTISSA_LIMIT as int,
                1_000_000_000_000_000_000,
            );
            lemma_mul_abs_bound(
                eq.mantissa as int,
                pow10((self.scale + precision.scale) as nat),
                MANTISSA_LIMIT as int,
                1_000_000_000_000_000_000,
            );
            lemma_mul_abs_bound(
                precision.mantissa as int,
                pow10((self.scale + eq.scale) as nat),
                MANTISSA_LIMIT as int,
                1_000_000_000_000_000_000,
            );
        }
        let diff = (self.mantissa as i128) * (pow10_u64(eq.scale + precision.scale) as i128) - (
        eq.mantissa as i128) * (pow10_u64(self.scale + precision.scale) as i128);
        let tol = (precision.mantissa as i128) * (pow10_u64(self.scale + eq.scale) as i128);
        -tol < diff && diff < tol
    }
}

// ------------------------------------------------------------------
// Decimal numerals: the grammar of accepted inputs and their values.
// ------------------------------------------------------------------
/// `c` is an ASCII digit.
pub open spec fn is_digit(c: char) -> bool {
    48 <= c as int <= 57
}

/// The numeric value of an ASCII digit.
pub open spec fn digit_val(c: char) -> int {
    c as int - 48
}

/// Every character of `s` is an ASCII digit.
pub open spec fn all_digits(s: Seq<char>) -> bool {
    forall|i: int| 0 <= i < s.len() ==> is_digit(s[i])
}

/// The value of a digit string read in base 10. Leading zeros are allowed
/// and do not change the value.
pub open spec fn digits_val(s: Seq<char>) -> int
    decreases s.len(),
{
    if s.len() == 0 {
        0
    } else {
        10 * digits_val(s.drop_last()) + digit_val(s.last())
    }
}

pub proof fn lemma_digits_val_bounds(s: Seq<char>)
    requires
        all_digits(s),
    ensures
        0 <= digits_val(s) < pow10(s.len()),
    decreases s.len(),
{
    if s.len() > 0 {
        lemma_digits_val_bounds(s.drop_last());
        lemma_pow10_pos((s.len() - 1) as nat);
        assert(digits_val(s.drop_last()) <= pow10((s.len() - 1) as nat) - 1);
        assert(10 * digits_val(s.drop_last()) <= 10 * (pow10((s.len() - 1) as nat) - 1))
            by (nonlinear_arith)
            requires
                digits_val(s.drop_last()) <= pow10((s.len() - 1) as nat) - 1,
        ;
        assert(0 <= 10 * digits_val(s.drop_last())) by (nonlinear_arith)
            requires
                0 <= digits_val(s.drop_last()),
        ;
    }
}

pub proof fn lemma_digits_val_concat(a: Seq<char>, b: Seq<char>)
    ensures
        digits_val(a + b) == digits_val(a) * pow10(b.len()) + digits_val(b),
    decreases b.len(),
{
    if b.len() == 0 {
        assert(a + b =~= a);
        assert(pow10(0) == 1);
        assert(digits_val(b) == 0);
        assert(digits_val(a) * 1 == digits_val(a));
    } else {
        lemma_digits_val_concat(a, b.drop_last());
        assert((a + b).drop_last() =~= a + b.drop_last());
        assert((a + b).last() == b.last());
        let v = digits_val(a);
        let p = pow10(b.drop_last().len());
        let dv = digits_val(b.drop_last());
        let dl = digit_val(b.last());
        assert(digits_val(a + b) == 10 * digits_val(a + b.drop_last()) + dl);
        assert(digits_val(a + b.drop_last()) == v * p + dv);
        assert(digits_val(b) == 10 * dv + dl);
        assert(pow10(b.len()) == 10 * p);
        assert(10 * (v * p + dv) + dl == v * (10 * p) + (10 * dv + dl)) by (nonlinear_arith);
    }
}

/// Length of the optional leading sign of a numeral.
pub open spec fn sign_len(s: Seq<char>) -> int {
    if s.len() > 0 && (s[0] == '-' || s[0] == '+') {
        1
    } else {
        0
    }
}

/// The numeral denotes a negative value.
pub open spec fn is_negative(s: Seq<char>) -> bool {
    s.len() > 0 && s[0] == '-'
}

/// The numeral with its optional sign removed.
pub open spec fn numeral_body(s: Seq<char>) -> Seq<char> {
    s.skip(sign_len(s))
}

/// Position `k` of `b` holds the decimal point of a well-formed body:
/// digits on both sides (either side may be empty, but not both).
pub open spec fn dot_splits_at(b: Seq<char>, k: int) -> bool {
    &&& 0 <= k < b.len()
    &&& b.len() >= 2
    &&& b[k] == '.'
    &&& all_digits(b.take(k))
    &&& all_digits(b.skip(k + 1))
}

pub open spec fn has_dot_split(b: Seq<char>) -> bool {
    exists|k: int| dot_splits_at(b, k)
}

pub open spec fn dot_index(b: Seq<char>) -> int {
    choose|k: int| dot_splits_at(b, k)
}

/// The body is a well-formed decimal numeral body: plain digits, or digits
/// around exactly one decimal point, with at least one digit in all.
pub open spec fn body_ok(b: Seq<char>) -> bool {
    (b.len() > 0 && all_digits(b)) || has_dot_split(b)
}

/// The digits of the body with the decimal point removed.
pub open spec fn body_digits(b: Seq<char>) -> Seq<char> {
    if has_dot_split(b) {
        b.take(dot_index(b)) + b.skip(dot_index(b) + 1)
    } else {
        b
    }
}

/// How many digits of the body stand after the decimal point.
pub open spec fn body_scale(b: Seq<char>) -> nat {
    if has_dot_split(b) {
        (b.len() - dot_index(b) - 1) as nat
    } else {
        0
    }
}

/// `s` is a well-formed decimal numeral: optional sign, then a body.
pub open spec fn numeral_ok(s: Seq<char>) -> bool {
    body_ok(numeral_body(s))
}

/// The magnitude of the numeral, read over all its digits: the value of
/// `s` is `numeral_num(s) / 10^numeral_scale(s)`.
pub open spec fn numeral_mag(s: Seq<char>) -> int {
    digits_val(body_digits(numeral_body(s)))
}

pub open spec fn numeral_scale(s: Seq<char>) -> nat {
    body_scale(numeral_body(s))
}

pub open spec fn numeral_num(s: Seq<char>) -> int {
    if is_negative(s) {
        -numeral_mag(s)
    } else {
        numeral_mag(s)
    }
}

/// The numeral `s` parses within capacity: its digits fit the mantissa
/// bound and its fractional part fits the scale bound.
pub open spec fn numeral_fits(s: Seq<char>) -> bool {
    &&& numeral_ok(s)
    &&& numeral_mag(s) < MANTISSA_LIMIT
    &&& numeral_scale(s) <= SCALE_LIMIT
}

/// The value of a fitting numeral as a [`Decimal`]: mantissa and scale
/// read straight off the digit string.
pub open spec fn numeral_decimal(s: Seq<char>) -> Decimal {
    Decimal { mantissa: numeral_num(s) as i64, scale: numeral_scale(s) as u32 }
}

/// `s` is a well-formed plain integer numeral: optional sign, then one or
/// more digits and nothing else.
pub open spec fn int_numeral_ok(s: Seq<char>) -> bool {
    numeral_body(s).len() > 0 && all_digits(numeral_body(s))
}

/// The signed value of a plain integer numeral.
pub open spec fn int_numeral_val(s: Seq<char>) -> int {
    if is_negative(s) {
        -digits_val(numeral_body(s))
    } else {
        digits_val(numeral_body(s))
    }
}

/// `s` parses as an `i32`: integer numeral whose value is in range.
pub open spec fn i32_ok(s: Seq<char>) -> bool {
    int_numeral_ok(s) && -2147483648 <= int_numeral_val(s) <= 2147483647
}

/// `s` parses as a `u32`: unsigned integer numeral (a leading `+` is
/// accepted, a leading `-` is not) whose value is in range.
pub open spec fn u32_ok(s: Seq<char>) -> bool {
    int_numeral_ok(s) && !is_negative(s) && int_numeral_val(s) <= 4294967295
}

/// Reads the characters of `s` in `[from, to)` as a base-10 digit string.
/// Returns its value when every character is a digit and the value is
/// below `cap`; `None` otherwise.
fn parse_digits(s: &str, from: usize, to: usize, cap: u64) -> (r: Option<u64>)
    requires
        from <= to <= s@.len(),
        1 <= cap <= 1_000_000_000_000_000_000,
    ensures
        match r {
            Some(v) => all_digits(s@.subrange(from as int, to as int)) && v == digits_val(
                s@.subrange(from as int, to as int),
            ) && v < cap,
            None => !(all_digits(s@.subrange(from as int, to as int)) && digits_val(
                s@.subrange(from as int, to as int),
            ) < cap),
        },
{
    let mut i: usize = from;
    let mut acc: u64 = 0;
    while i < to
        invariant
            from <= i <= to <= s@.len(),
            1 <= cap <= 1_000_000_000_000_000_000,
            all_digits(s@.subrange(from as int, i as int)),
            acc == digits_val(s@.subrange(from as int, i as int)),
            acc < cap,
        decreases to - i,
    {
        let c = s.get_char(i);
        let cv = c as u32;
        if cv < 48 || cv > 57 {
            proof {
                assert(s@.subrange(from as int, to as int)[i - from] == s@[i as int]);
            }
            return None;
        }
        let d = (cv - 48) as u64;
        let v = acc * 10 + d;
        proof {
            let pre = s@.subrange(from as int, i + 1);
            assert(pre =~= s@.subrange(from as int, i as int).push(s@[i as int]));
            assert(pre.drop_last() =~= s@.subrange(from as int, i as int));
            assert(pre.last() == s@[i as int]);
            assert(digits_val(pre) == v);
            assert(all_digits(pre)) by {
                assert(forall|j: int|
                    0 <= j < pre.len() ==> pre[j] == if j < i - from {
                        s@.subrange(from as int, i as int)[j]
                    } else {
                        s@[i as int]
                    });
            }
        }
        if v >= cap {
            proof {
                let pre = s@.subrange(from as int, i + 1);
                let rest = s@.subrange(i + 1, to as int);
                let whole = s@.subrange(from as int, to as int);
                assert(whole =~= pre + rest);
                if all_digits(whole) {
                    assert forall|j: int| 0 <= j < rest.len() implies is_digit(rest[j]) by {
                        assert(rest[j] == whole[i + 1 - from + j]);
                    }
                    lemma_digits_val_bounds(rest);
                    lemma_digits_val_concat(pre, rest);
                    lemma_pow10_pos(rest.len());
                    assert(digits_val(pre) * pow10(rest.len()) >= digits_val(pre))
                        by (nonlinear_arith)
                        requires
                            digits_val(pre) >= 0,
                            pow10(rest.len()) >= 1,
                    ;
                }
            }
            return None;
        }
        acc = v;
        i = i + 1;
    }
    proof {
        assert(s@.subrange(from as int, i as int) =~= s@.subrange(from as int, to as int));
    }
    Some(acc)
}

/// Parses a decimal numeral such as `-3.05` into an exact [`Decimal`].
/// Succeeds exactly on well-formed numerals whose digits fit the mantissa
/// bound and whose fractional part fits the scale bound.
pub fn parse_decimal(s: &str) -> (r: Option<Decimal>)
    ensures
        r is Some <==> numeral_fits(s@),
        r matches Some(d) ==> d.wf() && d == numeral_decimal(s@),
{
    let len = s.unicode_len();
    let mut start: usize = 0;
    let mut neg: bool = false;
    if len > 0 {
        let c0 = s.get_char(0);
        if c0 == '-' {
            neg = true;
            start = 1;
        } else if c0 == '+' {
            start = 1;
        }
    }
    proof {
        assert(start == sign_len(s@));
        assert(neg == is_negative(s@));
        assert(numeral_body(s@) =~= s@.subrange(start as int, len as int));
    }
    let ghost body = numeral_body(s@);
    if start >= len {
        // sign only, or nothing at all: the body is empty
        return None;
    }
    // find a decimal point, if any
    let mut has_dot: bool = false;
    let mut dot_at: usize = 0;
    let mut j: usize = start;
    while j < len
        invariant
            start <= j <= len == s@.len(),
            !has_dot ==> forall|t: int| start <= t < j ==> s@[t] != '.',
            has_dot ==> start <= dot_at < len && s@[dot_at as int] == '.',
        decreases len - j,
    {
        if !has_dot {
            let c = s.get_char(j);
            if c == '.' {
                has_dot = true;
                dot_at = j;
            }
        }
        j = j + 1;
    }
    if !has_dot {
        // plain digit run
        proof {
            assert forall|k: int| !dot_splits_at(body, k) by {
                if 0 <= k < body.len() {
                    assert(body[k] == s@[start + k]);
                }
            }
            assert(!has_dot_split(body));
        }
        match parse_digits(s, start, len, MANTISSA_LIMIT as u64) {
            Some(v) => {
                let m = if neg {
                    -(v as i64)
                } else {
                    v as i64
                };
                proof {
                    assert(body_digits(body) == body);
                }
                Some(Decimal { mantissa: m, scale: 0 })
            },
            None => None,
        }
    } else {
        let ghost kk = dot_at - start;
        proof {
            assert(body[kk] == s@[dot_at as int]);
            assert(body.take(kk) =~= s@.subrange(start as int, dot_at as int));
            assert(body.skip(kk + 1) =~= s@.subrange(dot_at + 1, len as int));
        }
        let ip = parse_digits(s, start, dot_at, MANTISSA_LIMIT as u64);
        let fp = parse_digits(s, dot_at + 1, len, MANTISSA_LIMIT as u64);
        let int_digits: usize = dot_at - start;
        let frac_len: usize = len - dot_at - 1;
        proof {
            // a split, if any, can stand only at the decimal point we found
            assert forall|k2: int| dot_splits_at(body, k2) implies k2 == kk by {
                if k2 < kk {
                    assert(body.skip(k2 + 1)[kk - k2 - 1] == body[kk]);
                }
                if k2 > kk {
                    assert(body.take(k2)[kk] == body[kk]);
                }
            }
            assert(!(body.len() > 0 && all_digits(body))) by {
                assert(!is_digit(body[kk]));
            }
        }
        let (iv, fv) = match (ip, fp) {
            (Some(iv), Some(fv)) => (iv, fv),
            _ => {
                proof {
                    if numeral_fits(s@) {
                        // both sides of the point are digit runs below the cap
                        assert(dot_splits_at(body, dot_index(body)));
                        assert(dot_index(body) == kk);
                        lemma_digits_val_concat(body.take(kk), body.skip(kk + 1));
                        lemma_digits_val_bounds(body.take(kk));
                        lemma_digits_val_bounds(body.skip(kk + 1));
                        lemma_pow10_pos(body.skip(kk + 1).len());
                        assert(digits_val(body.take(kk)) * pow10(body.skip(kk + 1).len())
                            >= digits_val(body.take(kk))) by (nonlinear_arith)
                            requires
                                digits_val(body.take(kk)) >= 0,
                                pow10(body.skip(kk + 1).len()) >= 1,
                        ;
                    }
                }
                return None;
            },
        };
        if int_digits == 0 && frac_len == 0 {
            // the body is a bare point
            return None;
        }
        if frac_len > SCALE_LIMIT as usize {
            proof {
                if numeral_ok(s@) {
                    assert(dot_splits_at(body, dot_index(body)));
                    assert(dot_index(body) == kk);
                }
            }
            return None;
        }
        proof {
            assert(dot_splits_at(body, kk));
            assert(dot_index(body) == kk);
            assert(body_digits(body) == body.take(kk) + body.skip(kk + 1));
            lemma_digits_val_concat(body.take(kk), body.skip(kk + 1));
        }
        let pow = pow10_u64(frac_len as u32);
        let total = match iv.checked_mul(pow) {
            Some(hi) => match hi.checked_add(fv) {
                Some(t) => t,
                None => {
                    proof {
                        lemma_digits_val_bounds(body.skip(kk + 1));
                    }
                    return None;
                },
            },
            None => {
                proof {
                    lemma_digits_val_bounds(body.skip(kk + 1));
                }
                return None;
            },
        };
        if total >= MANTISSA_LIMIT as u64 {
            return None;
        }
        let m = if neg {
            -(total as i64)
        } else {
            total as i64
        };
        Some(Decimal { mantissa: m, scale: frac_len as u32 })
    }
}

/// Parses `s` as a base-10 `i32`, accepting exactly the numerals whose
/// value is in range: an optional sign followed by one or more digits.
pub fn parse_i32(s: &str) -> (r: Option<i32>)
    ensures
        r is Some <==> i32_ok(s@),
        r matches Some(v) ==> v == int_numeral_val(s@),
{
    let len = s.unicode_len();
    let mut start: usize = 0;
    let mut neg: bool = false;
    if len > 0 {
        let c0 = s.get_char(0);
        if c0 == '-' {
            neg = true;
            start = 1;
        } else if c0 == '+' {
            start = 1;
        }
    }
    proof {
        assert(start == sign_len(s@));
        assert(neg == is_negative(s@));
        assert(numeral_body(s@) =~= s@.subrange(start as int, len as int));
    }
    if start >= len {
        return None;
    }
    match parse_digits(s, start, len, 10_000_000_000) {
        Some(v) => {
            if neg {
                if v <= 2147483648 {
                    Some((-(v as i64)) as i32)
                } else {
                    None
                }
            } else {
                if v <= 2147483647 {
                    Some(v as i32)
                } else {
                    None
                }
            }
        },
        None => None,
    }
}

/// Parses `s` as a base-10 `u32`, accepting exactly the numerals whose
/// value is in range: an optional `+` followed by one or more digits.
pub fn parse_u32(s: &str) -> (r: Option<u32>)
    ensures
        r is Some <==> u32_ok(s@),
        r matches Some(v) ==> v == int_numeral_val(s@),
{
    let len = s.unicode_len();
    let mut start: usize = 0;
    if len > 0 {
        let c0 = s.get_char(0);
        if c0 == '-' {
            return None;
        }
        if c0 == '+' {
            start = 1;
        }
    }
    proof {
        assert(start == sign_len(s@));
        assert(numeral_body(s@) =~= s@.subrange(start as int, len as int));
    }
    if start >= len {
        return None;
    }
    match parse_digits(s, start, len, 10_000_000_000) {
        Some(v) => {
            if v <= 4294967295 {
                Some(v as u32)
            } else {
                None
            }
        },
        None => None,
    }
}

} // verus!

//! Rendering numbers into user-displayable text.
//!
//! The rejection messages of the validator quote the violated parameter:
//! a length limit or a range bound. These helpers build those digit
//! strings, specified character by character.

use vstd::prelude::*;
use crate::decimal::Decimal;
use crate::decimal::pow10;
use crate::decimal::pow10_u64;
use crate::decimal::lemma_pow10_pos;
use crate::decimal::MANTISSA_LIMIT;
use crate::decimal::SCALE_LIMIT;

verus! {

/// The character for one decimal digit.
pub open spec fn digit_char(d: int) -> char {
    if d == 0 {
        '0'
    } else if d == 1 {
        '1'
    } else if d == 2 {
        '2'
    } else if d == 3 {
        '3'
    } else if d == 4 {
        '4'
    } else if d == 5 {
        '5'
    } else if d == 6 {
        '6'
    } else if d == 7 {
        '7'
    } else if d == 8 {
        '8'
    } else {
        '9'
    }
}

/// The shortest base-10 rendering of a non-negative number.
pub open spec fn nat_digits(n: int) -> Seq<char>
    recommends
        n >= 0,
    decreases n,
{
    if n < 10 {
        seq![digit_char(n)]
    } else {
        nat_digits(n / 10).push(digit_char(n % 10))
    }
}

/// The base-10 rendering of a non-negative number padded with leading
/// zeros to exactly `width` characters.
pub open spec fn padded_digits(n: int, width: nat) -> Seq<char>
    recommends
        0 <= n < pow10(width),
    decreases width,
{
    if width == 0 {
        Seq::empty()
    } else {
        padded_digits(n / 10, (width - 1) as nat).push(digit_char(n % 10))
    }
}

/// Appends the character of one decimal digit.
fn push_digit(out: &mut String, d: u64)
    requires
        d < 10,
    ensures
        final(out)@ == old(out)@ + seq![digit_char(d as int)],
{
    if d == 0 {
        out.append("0");
        proof {
            reveal_strlit("0");
            assert(("0")@ =~= seq![digit_char(0)]);
        }
    } else if d == 1 {
        out.append("1");
        proof {
            reveal_strlit("1");
            assert(("1")@ =~= seq![digit_char(1)]);
        }
    } else if d == 2 {
        out.append("2");
        proof {
            reveal_strlit("2");
            assert(("2")@ =~= seq![digit_char(2)]);
        }
    } else if d == 3 {
        out.append("3");
        proof {
            reveal_strlit("3");
            assert(("3")@ =~= seq![digit_char(3)]);
        }
    } else if d == 4 {
        out.append("4");
        proof {
            reveal_strlit("4");
            assert(("4")@ =~= seq![digit_char(4)]);
        }
    } else if d == 5 {
        out.append("5");
        proof {
            reveal_strlit("5");
            assert(("5")@ =~= seq![digit_char(5)]);
        }
    } else if d == 6 {
        out.append("6");
        proof {
            reveal_strlit("6");
            assert(("6")@ =~= seq![digit_char(6)]);
        }
    } else if d == 7 {
        out.append("7");
        proof {
            reveal_strlit("7");
            assert(("7")@ =~= seq![digit_char(7)]);
        }
    } else if d == 8 {
        out.append("8");
        proof {
            reveal_strlit("8");
            assert(("8")@ =~= seq![digit_char(8)]);
        }
    } else {
        out.append("9");
        proof {
            reveal_strlit("9");
            assert(("9")@ =~= seq![digit_char(9)]);
        }
    }
}

/// Appends the shortest base-10 rendering of `n`.
pub fn append_u64(out: &mut String, n: u64)
    ensures
        final(out)@ == old(out)@ + nat_digits(n as int),
    decreases n,
{
    if n < 10 {
        push_digit(out, n);
    } else {
        append_u64(out, n / 10);
        push_digit(out, n % 10);
        proof {
            assert(old(out)@ + nat_digits((n / 10) as int) + seq![digit_char((n % 10) as int)]
                =~= old(out)@ + nat_digits(n as int));
        }
    }
}

/// Appends the base-10 rendering of `n` padded to `width` characters.
fn append_padded(out: &mut String, n: u64, width: u32)
    requires
        n < pow10(width as nat),
    ensures
        final(out)@ == old(out)@ + padded_digits(n as int, width as nat),
    decreases width,
{
    if width > 0 {
        proof {
            lemma_pow10_pos((width - 1) as nat);
            assert(pow10(width as nat) == 10 * pow10((width - 1) as nat));
            assert(n / 10 < pow10((width - 1) as nat));
        }
        append_padded(out, n / 10, width - 1);
        push_digit(out, n % 10);
        proof {
            assert(old(out)@ + padded_digits((n / 10) as int, (width - 1) as nat) + seq![
                digit_char((n % 10) as int),
            ] =~= old(out)@ + padded_digits(n as int, width as nat));
        }
    } else {
        proof {
            assert(old(out)@ + padded_digits(n as int, 0) =~= old(out)@);
        }
    }
}

/// The rendering of a decimal: optional minus sign, the integer part in
/// shortest form, and, for a non-zero scale, a point followed by exactly
/// `scale` fraction digits.
pub open spec fn decimal_chars(d: Decimal) -> Seq<char>
    recommends
        d.wf(),
{
    let mag = if d.mantissa < 0 {
        -(d.mantissa as int)
    } else {
        d.mantissa as int
    };
    let sign: Seq<char> = if d.mantissa < 0 {
        seq!['-']
    } else {
        Seq::empty()
    };
    if d.scale == 0 {
        sign + nat_digits(mag)
    } else {
        sign + nat_digits(mag / pow10(d.scale as nat)) + seq!['.'] + padded_digits(
            mag % pow10(d.scale as nat),
            d.scale as nat,
        )
    }
}

impl Decimal {
    /// Renders the decimal as text, e.g. `-3.05` for mantissa `-305` and
    /// scale `2`.
    pub fn to_text(&self) -> (r: String)
        requires
            self.wf(),
        ensures
            r@ == decimal_chars(*self),
    {
        let mut out = String::new();
        let mag: u64 = if self.mantissa < 0 {
            proof {
                assert(-(self.mantissa as int) < MANTISSA_LIMIT);
            }
            (-self.mantissa) as u64
        } else {
            self.mantissa as u64
        };
        if self.mantissa < 0 {
            out.append("-");
            proof {
                reveal_strlit("-");
                assert(("-")@ =~= seq!['-']);
            }
        }
        if self.scale == 0 {
            append_u64(&mut out, mag);
        } else {
            let p = pow10_u64(self.scale);
            proof {
                lemma_pow10_pos(self.scale as nat);
            }
            append_u64(&mut out, mag / p);
            out.append(".");
            proof {
                reveal_strlit(".");
                assert((".")@ =~= seq!['.']);
            }
            append_padded(&mut out, mag % p, self.scale);
        }
        proof {
            assert(out@ =~= decimal_chars(*self));
        }
        out
    }
}

} // verus!

//! Numbers and vectors as text, for a person to read.
use crate::fixed::{Fixed, SCALE};
use crate::geometry::vector3::Vector3;
use vstd::prelude::*;

verus! {

/// One more than the largest fraction that `decimal_parts` returns: `10^10`,
/// for ten decimal places.
pub const FRACTION_END: u64 = 10000000000;

/// The decimal digit for a number from 0 to 9.
pub open spec fn digit(d: int) -> char {
    if d == 0 {
        '0'
    } else if d == 1 {
        '1'
    } else if d == 2 {
        '2'
    } else if d == 3 {
        '3'
    } else if d == 4 {
        '4'
    } else if d == 5 {
        '5'
    } else if d == 6 {
        '6'
    } else if d == 7 {
        '7'
    } else if d == 8 {
        '8'
    } else {
        '9'
    }
}

/// The decimal digits of a whole number, without leading zeros.
pub open spec fn digits(n: nat) -> Seq<char>
    decreases n,
{
    if n < 10 {
        seq![digit(n as int)]
    } else {
        digits(n / 10).push(digit((n % 10) as int))
    }
}

/// The last `width` decimal digits of a whole number, with leading zeros.
pub open spec fn padded(n: nat, width: nat) -> Seq<char>
    decreases width,
{
    if width == 0 {
        Seq::empty()
    } else {
        padded(n / 10, (width - 1) as nat).push(digit((n % 10) as int))
    }
}

/// A decimal number as text: `sign`, the digits of `whole`, a point, and
/// `fraction` in ten digits with leading zeros.
pub open spec fn decimal_text(sign: Seq<char>, whole: u64, fraction: u64) -> Seq<char> {
    sign + digits(whole as nat) + seq!['.'] + padded(fraction as nat, 10)
}

/// Writes a decimal number with `format!`: the sign as it is given, the
/// whole part in decimal digits, a point and the fraction, which is below
/// `10^10`, in ten digits with leading zeros.
#[verifier::external_body]
fn write_decimal(sign: &str, whole: u64, fraction: u64) -> (r: String)
    requires
        fraction < FRACTION_END,
    ensures
        r@ == decimal_text(sign@, whole, fraction),
{
    format!("{}{}.{:010}", sign, whole, fraction)
}

/// Joins three texts with one space between them, with `format!`.
#[verifier::external_body]
fn write_spaced(x: &String, y: &String, z: &String) -> (r: String)
    ensures
        r@ == x@ + seq![' '] + y@ + seq![' '] + z@,
{
    format!("{} {} {}", x, y, z)
}

impl Fixed {
    /// The number without its sign, in raw units.
    pub open spec fn magnitude(self) -> int {
        if self.raw < 0 {
            -self.raw
        } else {
            self.raw as int
        }
    }

    /// Whether the number is negative, its whole part, and its fraction in
    /// units of `10^-10`, rounded toward zero.
    pub open spec fn spec_decimal_parts(self) -> (bool, u64, u64) {
        (
            self.raw < 0,
            (self.magnitude() / (SCALE as int)) as u64,
            (((self.magnitude() % (SCALE as int)) * FRACTION_END) / (SCALE as int)) as u64,
        )
    }

    /// Whether the number is negative, its whole part, and its fraction in
    /// units of `10^-10`, rounded toward zero. The whole part is below
    /// `2^31 + 1` and the fraction below `10^10`.
    #[verifier::when_used_as_spec(spec_decimal_parts)]
    pub fn decimal_parts(self) -> (r: (bool, u64, u64))
        ensures
            r == self.spec_decimal_parts(),
            r.1 <= 0x8000_0000,
            r.2 < FRACTION_END,
            r.1 * SCALE <= self.magnitude() < (r.1 + 1) * SCALE,
    {
        let size: u64 = if self.raw < 0 {
            (-(self.raw as i128)) as u64
        } else {
            self.raw as u64
        };
        let whole: u64 = size / 4294967296u64;
        let low: u64 = size % 4294967296u64;
        let wide: u128 = low as u128 * 10000000000u128;
        let fraction: u128 = wide / 4294967296u128;
        proof {
            let s = SCALE as int;
            assert(size as int == self.magnitude());
            vstd::arithmetic::div_mod::lemma_fundamental_div_mod(size as int, s);
            assert(s * (size as int / s) == (size as int / s) * s) by (nonlinear_arith);
            assert(fraction < FRACTION_END) by (nonlinear_arith)
                requires
                    fraction as int == (wide as int) / 0x1_0000_0000,
                    wide as int == low as int * 10000000000,
                    0 <= low < 0x1_0000_0000,
                    FRACTION_END == 10000000000,
            ;
        }
        (self.raw < 0, whole, fraction as u64)
    }

    /// The number as text: a minus sign where it is negative, the whole
    /// part, a point and ten decimal places, rounded toward zero.
    pub open spec fn spec_text(self) -> Seq<char> {
        decimal_text(
            if self.raw < 0 {
                seq!['-']
            } else {
                Seq::empty()
            },
            self.spec_decimal_parts().1,
            self.spec_decimal_parts().2,
        )
    }

    /// The number as text: a minus sign where it is negative, the whole
    /// part, a point and ten decimal places, rounded toward zero.
    pub fn to_text(&self) -> (r: String)
        ensures
            r@ == self.spec_text(),
    {
        let parts = self.decimal_parts();
        proof {
            reveal_strlit("-");
            reveal_strlit("");
            assert("-"@ =~= seq!['-']);
            assert(""@ =~= Seq::<char>::empty());
        }
        let sign = if parts.0 {
            "-"
        } else {
            ""
        };
        write_decimal(sign, parts.1, parts.2)
    }
}

impl Vector3 {
    /// The three components as text, with one space between them.
    pub open spec fn spec_text(self) -> Seq<char> {
        self.x.spec_text() + seq![' '] + self.y.spec_text() + seq![' '] + self.z.spec_text()
    }

    /// The three components as text, with one space between them.
    pub fn to_text(&self) -> (r: String)
        ensures
            r@ == self.spec_text(),
    {
        let x = self.x.to_text();
        let y = self.y.to_text();
        let z = self.z.to_text();
        write_spaced(&x, &y, &z)
    }
}

} // verus!

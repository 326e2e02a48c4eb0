//! Signed fixed-point numbers with 32 fractional bits.
//!
//! Every quantity the renderer computes with (coordinates, directions, colour
//! channels, ray parameters) is a [`Fixed`]: an integer `raw` that stands for
//! the rational number `raw / 2^32`. All operations are total. A result that
//! does not fit is clamped to the nearest representable value, products and
//! quotients are rounded toward zero, and the square root is rounded down.
use vstd::prelude::*;

verus! {

/// The raw value of the number one: `2^32`.
pub const SCALE: i64 = 4294967296;

/// The largest raw value an operation returns; the smallest is its negation.
pub const RAW_MAX: i64 = 9223372036854775807;

/// A fixed-point number: `raw / 2^32`.
#[derive(Clone, Copy, Debug, PartialEq, Eq, Structural)]
pub struct Fixed {
    pub raw: i64,
}

/// `x` clamped to the symmetric range `-RAW_MAX ..= RAW_MAX`.
pub open spec fn saturate(x: int) -> int {
    if x > RAW_MAX as int {
        RAW_MAX as int
    } else if x < -(RAW_MAX as int) {
        -(RAW_MAX as int)
    } else {
        x
    }
}

/// The quotient `n / d` rounded toward zero, and 0 where `d` is 0.
pub open spec fn quotient(n: int, d: int) -> int {
    if d > 0 {
        if n >= 0 {
            n / d
        } else {
            -((-n) / d)
        }
    } else if d < 0 {
        if n >= 0 {
            -(n / (-d))
        } else {
            (-n) / (-d)
        }
    } else {
        0
    }
}

/// Whether `r` is the square root of `n` rounded down.
pub open spec fn is_root(n: int, r: int) -> bool {
    0 <= r && r * r <= n < (r + 1) * (r + 1)
}

/// The square root of `n` rounded down, and 0 where `n` is negative.
pub open spec fn root(n: int) -> int {
    if n <= 0 {
        0
    } else {
        choose|r: int| is_root(n, r)
    }
}

/// A number's square root rounded down is the only `r` with
/// `r * r <= n < (r + 1) * (r + 1)`.
pub proof fn lemma_root_unique(n: int, r: int)
    requires
        is_root(n, r),
    ensures
        root(n) == r,
{
    if n <= 0 {
        assert(r == 0) by (nonlinear_arith)
            requires
                0 <= r,
                r * r <= n,
                n <= 0,
        ;
    } else {
        let c = choose|c: int| is_root(n, c);
        assert(is_root(n, c));
        assert(c == r) by (nonlinear_arith)
            requires
                0 <= r,
                0 <= c,
                r * r <= n < (r + 1) * (r + 1),
                c * c <= n < (c + 1) * (c + 1),
        {
            if c < r {
                assert((c + 1) * (c + 1) <= r * r);
            } else if r < c {
                assert((r + 1) * (r + 1) <= c * c);
            }
        }
    }
}

/// Every number that is not negative has a square root rounded down.
pub proof fn lemma_root_exists(n: int)
    requires
        0 <= n,
    ensures
        is_root(n, root(n)),
    decreases n,
{
    if n == 0 {
        assert(is_root(0, 0));
    } else {
        lemma_root_exists(n - 1);
        let r = root(n - 1);
        if n < (r + 1) * (r + 1) {
            assert(is_root(n, r));
        } else {
            assert(is_root(n, r + 1)) by (nonlinear_arith)
                requires
                    0 <= r,
                    n - 1 < (r + 1) * (r + 1),
                    n >= (r + 1) * (r + 1),
            ;
        }
    }
}

/// The rounded square root grows with the number.
pub proof fn lemma_root_monotonic(m: int, n: int)
    requires
        m <= n,
    ensures
        0 <= root(m) <= root(n),
{
    if n <= 0 {
    } else if m <= 0 {
        lemma_root_exists(n);
    } else {
        lemma_root_exists(m);
        lemma_root_exists(n);
        let a = root(m);
        let b = root(n);
        assert(a <= b) by (nonlinear_arith)
            requires
                0 <= a,
                0 <= b,
                a * a <= m,
                m <= n,
                n < (b + 1) * (b + 1),
        {
            if b < a {
                assert((b + 1) * (b + 1) <= a * a);
            }
        }
    }
}

/// Rounding toward zero commutes with negation.
pub proof fn lemma_quotient_odd(n: int, d: int)
    ensures
        quotient(-n, d) == -quotient(n, d),
        quotient(n, -d) == -quotient(n, d),
{
}

/// The quotient has the sign of its numerator, for a positive divisor.
pub proof fn lemma_quotient_sign(n: int, d: int)
    requires
        d > 0,
    ensures
        n >= 0 ==> 0 <= quotient(n, d) <= n,
        n <= 0 ==> n <= quotient(n, d) <= 0,
{
    if n >= 0 {
        assert(0 <= n / d <= n) by (nonlinear_arith)
            requires
                n >= 0,
                d > 0,
        ;
    } else {
        assert(0 <= (-n) / d <= -n) by (nonlinear_arith)
            requires
                n < 0,
                d > 0,
        ;
    }
}

/// The quotient grows with its numerator, for a positive divisor.
pub proof fn lemma_quotient_monotonic(m: int, n: int, d: int)
    requires
        m <= n,
        d > 0,
    ensures
        quotient(m, d) <= quotient(n, d),
{
    lemma_quotient_sign(m, d);
    lemma_quotient_sign(n, d);
    if m >= 0 {
        vstd::arithmetic::div_mod::lemma_div_is_ordered(m, n, d);
    } else if n < 0 {
        vstd::arithmetic::div_mod::lemma_div_is_ordered(-n, -m, d);
    }
}

/// `x` clamped into the range of raw values.
pub(crate) fn clamp(x: i128) -> (r: i64)
    ensures
        r as int == saturate(x as int),
{
    if x > RAW_MAX as i128 {
        RAW_MAX
    } else if x < -(RAW_MAX as i128) {
        -RAW_MAX
    } else {
        x as i64
    }
}

/// `n` times `2^32`.
fn scale_up(n: i64) -> (r: i128)
    ensures
        r as int == n * SCALE,
{
    n as i128 * 4294967296i128
}

/// `n / d` rounded toward zero, for a positive `d`.
pub(crate) fn divide(n: i128, d: i128) -> (q: i128)
    requires
        d > 0,
        -0x4000_0000_0000_0000_0000_0000_0000_0000 <= n <= 0x4000_0000_0000_0000_0000_0000_0000_0000,
    ensures
        q as int == quotient(n as int, d as int),
        -0x4000_0000_0000_0000_0000_0000_0000_0000 <= q <= 0x4000_0000_0000_0000_0000_0000_0000_0000,
{
    if n >= 0 {
        let q: i128 = n / d;
        assert(0 <= q <= n) by (nonlinear_arith)
            requires
                q == (n as int) / (d as int),
                n >= 0,
                d > 0,
        ;
        q
    } else {
        let m: i128 = -n;
        let q: i128 = m / d;
        assert(0 <= q <= m) by (nonlinear_arith)
            requires
                q == (m as int) / (d as int),
                m >= 0,
                d > 0,
        ;
        -q
    }
}

/// The square root of `n` rounded down.
pub(crate) fn integer_root(n: u128) -> (r: u128)
    ensures
        r as int == root(n as int),
        r < 0x1_0000_0000_0000_0000,
{
    let mut lo: u128 = 0;
    let mut hi: u128 = 0x1_0000_0000_0000_0000;
    assert(0x1_0000_0000_0000_0000int * 0x1_0000_0000_0000_0000int
        == 0x1_0000_0000_0000_0000_0000_0000_0000_0000int);
    while hi - lo > 1
        invariant
            lo < hi <= 0x1_0000_0000_0000_0000,
            lo * lo <= n < hi * hi,
        decreases hi - lo,
    {
        let mid: u128 = lo + (hi - lo) / 2;
        assert(mid * mid <= 0xffff_ffff_ffff_ffff_ffff_ffff_ffff_ffff) by (nonlinear_arith)
            requires
                mid <= 0xffff_ffff_ffff_ffff,
        ;
        if mid * mid <= n {
            lo = mid;
        } else {
            hi = mid;
        }
    }
    proof {
        assert(hi == lo + 1);
        lemma_root_unique(n as int, lo as int);
    }
    lo
}

impl Fixed {
    /// The number whose raw value is `x` clamped into range.
    pub open spec fn of(x: int) -> Fixed {
        Fixed { raw: saturate(x) as i64 }
    }

    /// The number 0.
    pub open spec fn spec_zero() -> Fixed {
        Fixed { raw: 0 }
    }

    /// The number 1.
    pub open spec fn spec_one() -> Fixed {
        Fixed { raw: SCALE }
    }

    /// The largest number.
    pub open spec fn spec_max() -> Fixed {
        Fixed { raw: RAW_MAX }
    }

    /// The number `raw / 2^32`.
    pub open spec fn spec_from_raw(raw: i64) -> Fixed {
        Fixed { raw }
    }

    /// The whole number `n`, clamped into range.
    pub open spec fn spec_from_int(n: i64) -> Fixed {
        Self::of(n * SCALE)
    }

    /// The count `n` as a number, clamped into range.
    pub open spec fn spec_from_count(n: usize) -> Fixed {
        Self::of(n * SCALE)
    }

    /// The fraction `num / den`: the quotient of the numbers with the raw
    /// values `num` and `den`.
    pub open spec fn spec_from_ratio(num: i64, den: i64) -> Fixed {
        Fixed { raw: num }.spec_div(Fixed { raw: den })
    }

    /// The sum, clamped into range.
    pub open spec fn spec_add(self, rhs: Fixed) -> Fixed {
        Self::of(self.raw + rhs.raw)
    }

    /// The difference, clamped into range.
    pub open spec fn spec_sub(self, rhs: Fixed) -> Fixed {
        Self::of(self.raw - rhs.raw)
    }

    /// The negation, clamped into range.
    pub open spec fn spec_neg(self) -> Fixed {
        Self::of(-self.raw)
    }

    /// The absolute value, clamped into range.
    pub open spec fn spec_abs(self) -> Fixed {
        if self.raw < 0 {
            Self::of(-self.raw)
        } else {
            self
        }
    }

    /// The product: the product of the raw values over `2^32`, rounded toward
    /// zero and clamped into range.
    #[verifier::opaque]
    pub open spec fn spec_mul(self, rhs: Fixed) -> Fixed {
        Self::of(quotient(self.raw * rhs.raw, SCALE as int))
    }

    /// The quotient: `2^32` times the raw value over the raw value of `rhs`,
    /// rounded toward zero and clamped into range. A division by zero gives
    /// the largest number with the sign of `self`, and 0 for 0.
    #[verifier::opaque]
    pub open spec fn spec_div(self, rhs: Fixed) -> Fixed {
        if rhs.raw != 0 {
            Self::of(quotient(self.raw * SCALE, rhs.raw as int))
        } else if self.raw > 0 {
            Fixed { raw: RAW_MAX }
        } else if self.raw < 0 {
            Fixed { raw: (-RAW_MAX) as i64 }
        } else {
            Fixed { raw: 0 }
        }
    }

    /// The square root: the root of `2^32` times the raw value, rounded down,
    /// and 0 for a negative number.
    #[verifier::opaque]
    pub open spec fn spec_sqrt(self) -> Fixed {
        Self::of(root(self.raw * SCALE))
    }

    /// The power: 1 multiplied by the number `exponent` times, rounded after
    /// every multiplication.
    pub open spec fn spec_powi(self, exponent: u32) -> Fixed
        decreases exponent,
    {
        if exponent == 0 {
            Fixed { raw: SCALE }
        } else {
            self.spec_powi((exponent - 1) as u32).spec_mul(self)
        }
    }

    /// The smaller of two numbers.
    pub open spec fn spec_min(self, rhs: Fixed) -> Fixed {
        if rhs.raw < self.raw {
            rhs
        } else {
            self
        }
    }

    /// The whole part of the number, clamped to `0 ..= 255`.
    pub open spec fn spec_to_byte(self) -> u8 {
        if self.raw < 0 {
            0u8
        } else if self.raw >= 255 * SCALE {
            255u8
        } else {
            (self.raw / SCALE) as u8
        }
    }

    /// The number in `[0, 1)` whose 32 fractional bits are the upper half of
    /// `bits`.
    pub open spec fn spec_from_bits(bits: u64) -> Fixed {
        Fixed { raw: (bits / 0x1_0000_0000) as i64 }
    }

    /// Whether the number lies in `[0, 1)`.
    pub open spec fn in_unit_interval(self) -> bool {
        0 <= self.raw < SCALE
    }

    /// Whether the raw value lies in `-RAW_MAX ..= RAW_MAX`, as that of every
    /// result of an operation does. Only `i64::MIN` lies outside.
    pub open spec fn in_range(self) -> bool {
        -RAW_MAX <= self.raw
    }

    /// The number 0.
    #[verifier::when_used_as_spec(spec_zero)]
    pub fn zero() -> (r: Fixed)
        ensures
            r == Self::spec_zero(),
    {
        Fixed { raw: 0 }
    }

    /// The number 1.
    #[verifier::when_used_as_spec(spec_one)]
    pub fn one() -> (r: Fixed)
        ensures
            r == Self::spec_one(),
    {
        Fixed { raw: SCALE }
    }

    /// The largest number, which stands in for an unbounded value.
    #[verifier::when_used_as_spec(spec_max)]
    pub fn max() -> (r: Fixed)
        ensures
            r == Self::spec_max(),
    {
        Fixed { raw: RAW_MAX }
    }

    /// The number `raw / 2^32`.
    #[verifier::when_used_as_spec(spec_from_raw)]
    pub fn from_raw(raw: i64) -> (r: Fixed)
        ensures
            r == Self::spec_from_raw(raw),
    {
        Fixed { raw }
    }

    /// The whole number `n`, clamped into range.
    #[verifier::when_used_as_spec(spec_from_int)]
    pub fn from_int(n: i64) -> (r: Fixed)
        ensures
            r == Self::spec_from_int(n),
    {
        Fixed { raw: clamp(scale_up(n)) }
    }

    /// The count `n` as a number, clamped into range.
    #[verifier::when_used_as_spec(spec_from_count)]
    pub fn from_count(n: usize) -> (r: Fixed)
        ensures
            r == Self::spec_from_count(n),
    {
        if n >= 2147483648 {
            Fixed { raw: RAW_MAX }
        } else {
            Fixed::from_int(n as i64)
        }
    }

    /// The fraction `num / den` rounded toward zero and clamped into range.
    /// A zero `den` gives the largest number with the sign of `num`.
    #[verifier::when_used_as_spec(spec_from_ratio)]
    pub fn from_ratio(num: i64, den: i64) -> (r: Fixed)
        ensures
            r == Self::spec_from_ratio(num, den),
    {
        Fixed { raw: num }.div(Fixed { raw: den })
    }

    /// The number in `[0, 1)` whose 32 fractional bits are the upper half of
    /// `bits`. Of 64 random bits it keeps the 32 that generators make best.
    #[verifier::when_used_as_spec(spec_from_bits)]
    pub fn from_bits(bits: u64) -> (r: Fixed)
        ensures
            r == Self::spec_from_bits(bits),
            r.in_unit_interval(),
    {
        let upper: u64 = bits >> 32;
        assert(upper == bits / 0x1_0000_0000 && upper < 0x1_0000_0000) by (bit_vector)
            requires
                upper == bits >> 32,
        ;
        Fixed { raw: upper as i64 }
    }

    /// The sum, clamped into range.
    #[verifier::when_used_as_spec(spec_add)]
    pub fn add(self, rhs: Fixed) -> (r: Fixed)
        ensures
            r == self.spec_add(rhs),
    {
        let wide: i128 = self.raw as i128 + rhs.raw as i128;
        Fixed { raw: clamp(wide) }
    }

    /// The difference, clamped into range.
    #[verifier::when_used_as_spec(spec_sub)]
    pub fn sub(self, rhs: Fixed) -> (r: Fixed)
        ensures
            r == self.spec_sub(rhs),
    {
        let wide: i128 = self.raw as i128 - rhs.raw as i128;
        Fixed { raw: clamp(wide) }
    }

    /// The negation, clamped into range.
    #[verifier::when_used_as_spec(spec_neg)]
    pub fn neg(self) -> (r: Fixed)
        ensures
            r == self.spec_neg(),
    {
        let wide: i128 = -(self.raw as i128);
        Fixed { raw: clamp(wide) }
    }

    /// The absolute value, clamped into range.
    #[verifier::when_used_as_spec(spec_abs)]
    pub fn abs(self) -> (r: Fixed)
        ensures
            r == self.spec_abs(),
    {
        if self.raw < 0 {
            self.neg()
        } else {
            self
        }
    }

    /// The product rounded toward zero and clamped into range.
    #[verifier::when_used_as_spec(spec_mul)]
    pub fn mul(self, rhs: Fixed) -> (r: Fixed)
        ensures
            r == self.spec_mul(rhs),
    {
        proof {
            reveal(Fixed::spec_mul);
        }
        let a: i128 = self.raw as i128;
        let b: i128 = rhs.raw as i128;
        assert(-0x4000_0000_0000_0000_0000_0000_0000_0000 <= a * b
            <= 0x4000_0000_0000_0000_0000_0000_0000_0000) by (nonlinear_arith)
            requires
                -0x8000_0000_0000_0000 <= a <= 0x7fff_ffff_ffff_ffff,
                -0x8000_0000_0000_0000 <= b <= 0x7fff_ffff_ffff_ffff,
        ;
        Fixed { raw: clamp(divide(a * b, 4294967296i128)) }
    }

    /// The quotient rounded toward zero and clamped into range. Dividing by
    /// zero gives the largest number with the sign of `self`, and 0 for 0.
    #[verifier::when_used_as_spec(spec_div)]
    pub fn div(self, rhs: Fixed) -> (r: Fixed)
        ensures
            r == self.spec_div(rhs),
    {
        proof {
            reveal(Fixed::spec_div);
        }
        if rhs.raw == 0 {
            if self.raw > 0 {
                Fixed { raw: RAW_MAX }
            } else if self.raw < 0 {
                Fixed { raw: -RAW_MAX }
            } else {
                Fixed { raw: 0 }
            }
        } else {
            let n: i128 = scale_up(self.raw);
            let d: i128 = rhs.raw as i128;
            if d > 0 {
                Fixed { raw: clamp(divide(n, d)) }
            } else {
                let q: i128 = divide(-n, -d);
                Fixed { raw: clamp(q) }
            }
        }
    }

    /// The square root rounded down; 0 for a negative number.
    #[verifier::when_used_as_spec(spec_sqrt)]
    pub fn sqrt(self) -> (r: Fixed)
        ensures
            r == self.spec_sqrt(),
    {
        proof {
            reveal(Fixed::spec_sqrt);
        }
        if self.raw <= 0 {
            Fixed { raw: 0 }
        } else {
            let n: u128 = scale_up(self.raw) as u128;
            let r: u128 = integer_root(n);
            proof {
                lemma_root_exists(n as int);
                assert(r < 0x1_0000_0000_0000) by (nonlinear_arith)
                    requires
                        r * r <= n,
                        n < 0x1_0000_0000_0000_0000_0000_0000,
                {
                    if r >= 0x1_0000_0000_0000 {
                        assert(r * r >= 0x1_0000_0000_0000 * 0x1_0000_0000_0000);
                    }
                }
            }
            Fixed { raw: r as i64 }
        }
    }

    /// The number multiplied `exponent` times into 1, rounded after every
    /// multiplication.
    #[verifier::when_used_as_spec(spec_powi)]
    pub fn powi(self, exponent: u32) -> (r: Fixed)
        ensures
            r == self.spec_powi(exponent),
    {
        let mut power = Fixed { raw: SCALE };
        let mut done: u32 = 0;
        while done < exponent
            invariant
                done <= exponent,
                power == self.spec_powi(done),
            decreases exponent - done,
        {
            power = power.mul(self);
            done = done + 1;
        }
        power
    }

    /// The smaller of two numbers.
    #[verifier::when_used_as_spec(spec_min)]
    pub fn min(self, rhs: Fixed) -> (r: Fixed)
        ensures
            r == self.spec_min(rhs),
    {
        if rhs.raw < self.raw {
            rhs
        } else {
            self
        }
    }

    /// The whole part of the number, clamped to `0 ..= 255`.
    #[verifier::when_used_as_spec(spec_to_byte)]
    pub fn to_byte(self) -> (r: u8)
        ensures
            r == self.spec_to_byte(),
    {
        if self.raw < 0 {
            0
        } else if self.raw >= 1095216660480 {
            255
        } else {
            (self.raw / 4294967296) as u8
        }
    }
}

/// What the operations return lies in the symmetric range.
pub proof fn lemma_results_in_range(a: Fixed, b: Fixed)
    ensures
        a.add(b).in_range(),
        a.sub(b).in_range(),
        a.mul(b).in_range(),
        a.div(b).in_range(),
        a.neg().in_range(),
        a.abs().in_range(),
        a.sqrt().in_range(),
        a.sqrt().raw >= 0,
        a.abs().raw >= 0,
{
    reveal(Fixed::spec_mul);
    reveal(Fixed::spec_div);
    reveal(Fixed::spec_sqrt);
    if a.raw >= 0 {
        lemma_root_monotonic(0, a.raw * SCALE);
    }
}

/// Negating a factor negates the product.
pub proof fn lemma_mul_neg(a: Fixed, b: Fixed)
    requires
        b.in_range(),
    ensures
        a.mul(b.neg()).raw == -a.mul(b).raw,
        b.neg().mul(a).raw == -b.mul(a).raw,
{
    reveal(Fixed::spec_mul);
    assert(a.raw * (-b.raw) == -(a.raw * b.raw)) by (nonlinear_arith);
    assert((-b.raw) * a.raw == -(b.raw * a.raw)) by (nonlinear_arith);
    lemma_quotient_odd(a.raw * b.raw, SCALE as int);
    lemma_quotient_odd(b.raw * a.raw, SCALE as int);
}

/// Negating the divisor negates the quotient.
pub proof fn lemma_div_neg(a: Fixed, b: Fixed)
    requires
        b.in_range(),
        b.raw != 0,
    ensures
        a.div(b.neg()).raw == -a.div(b).raw,
{
    reveal(Fixed::spec_div);
    let n = a.raw * SCALE;
    let d = b.raw as int;
    assert(b.neg().raw == -d);
    assert(quotient(n, -d) == -quotient(n, d));
}

/// A number times itself is not negative.
pub proof fn lemma_square_not_negative(a: Fixed)
    ensures
        a.mul(a).raw >= 0,
{
    reveal(Fixed::spec_mul);
    assert(a.raw * a.raw >= 0) by (nonlinear_arith);
    lemma_quotient_sign(a.raw * a.raw, SCALE as int);
}

/// Division keeps the order of the numerators, for a divisor that is not
/// negative.
pub proof fn lemma_div_monotonic(a: Fixed, b: Fixed, d: Fixed)
    requires
        a.raw <= b.raw,
        d.raw >= 0,
    ensures
        a.div(d).raw <= b.div(d).raw,
{
    reveal(Fixed::spec_div);
    if d.raw > 0 {
        lemma_quotient_monotonic(a.raw * SCALE, b.raw * SCALE, d.raw as int);
    }
}

/// Zero divided by any number is zero, and so is its square root.
pub proof fn lemma_zero_div_sqrt(d: Fixed)
    ensures
        Fixed::zero().div(d).raw == 0,
        Fixed::zero().sqrt().raw == 0,
{
    reveal(Fixed::spec_div);
    reveal(Fixed::spec_sqrt);
    if d.raw > 0 {
        lemma_quotient_sign(0, d.raw as int);
    } else if d.raw < 0 {
        lemma_quotient_sign(0, -d.raw);
    }
}

/// A whole number of units divided by the unit gives that number.
pub proof fn lemma_quotient_of_multiple(x: int, d: int)
    requires
        d > 0,
    ensures
        quotient(x * d, d) == x,
{
    if x >= 0 {
        assert(x * d >= 0) by (nonlinear_arith)
            requires
                x >= 0,
                d > 0,
        ;
        vstd::arithmetic::div_mod::lemma_div_by_multiple(x, d);
    } else {
        assert(x * d < 0 && -(x * d) == (-x) * d) by (nonlinear_arith)
            requires
                x < 0,
                d > 0,
        ;
        vstd::arithmetic::div_mod::lemma_div_by_multiple(-x, d);
    }
}

/// The product of two numbers between 0 and 1 lies between 0 and 1, and is
/// not above either of them.
pub proof fn lemma_mul_of_shares(a: Fixed, b: Fixed)
    requires
        0 <= a.raw <= SCALE,
        0 <= b.raw <= SCALE,
    ensures
        0 <= a.mul(b).raw <= SCALE,
        a.mul(b).raw <= a.raw,
        a.mul(b).raw <= b.raw,
        a.mul(b).raw == (a.raw * b.raw) / (SCALE as int),
{
    reveal(Fixed::spec_mul);
    let p = a.raw * b.raw;
    let s = SCALE as int;
    assert(0 <= p && p <= a.raw * s && p <= b.raw * s) by (nonlinear_arith)
        requires
            p == a.raw * b.raw,
            0 <= a.raw <= s,
            0 <= b.raw <= s,
    ;
    vstd::arithmetic::div_mod::lemma_div_pos_is_pos(p, s);
    vstd::arithmetic::div_mod::lemma_div_is_ordered(p, a.raw * s, s);
    vstd::arithmetic::div_mod::lemma_div_is_ordered(p, b.raw * s, s);
    vstd::arithmetic::div_mod::lemma_div_by_multiple(a.raw as int, s);
    vstd::arithmetic::div_mod::lemma_div_by_multiple(b.raw as int, s);
}

/// Multiplying by a whole number multiplies the raw value by it.
pub proof fn lemma_mul_whole(n: i64, a: Fixed)
    requires
        -2147483648 < n < 2147483648,
    ensures
        Fixed::from_int(n).mul(a) == Fixed::of(n * a.raw),
        a.mul(Fixed::from_int(n)) == Fixed::of(n * a.raw),
{
    reveal(Fixed::spec_mul);
    let whole = Fixed::from_int(n);
    assert(whole.raw == n * SCALE);
    assert(whole.raw * a.raw == (n * a.raw) * SCALE && a.raw * whole.raw == (n * a.raw) * SCALE)
        by (nonlinear_arith)
        requires
            whole.raw == n * SCALE,
    ;
    lemma_quotient_of_multiple(n * a.raw, SCALE as int);
}

} // verus!

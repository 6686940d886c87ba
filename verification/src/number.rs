//! Numbers with a fraction, as the bits of their IEEE 754 double-precision form. They are carried,
//! compared and written here; reckoning with them is left to the caller.

use vstd::arithmetic::power2::{lemma2_to64, lemma_pow2_pos, lemma_pow2_strictly_increases, lemma_pow2_unfold, pow2};
use vstd::prelude::*;

use crate::text::{decimal, decimal_of, padded, padded_of};

verus! {

/// A number by its bits: a sign, eleven bits of exponent and fifty-two of fraction.
#[derive(Debug, Clone, Copy, PartialEq, Eq, Hash, Structural)]
pub struct Real {
    pub bits: u64,
}

/// The bit of the sign.
pub const SIGN: u64 = 0x8000_0000_0000_0000;

/// The bits of the first number that is not finite.
pub const INFINITE: u64 = 0x7ff0_0000_0000_0000;

/// One more than the largest fraction.
pub const WHOLE: u64 = 0x10_0000_0000_0000;

impl Real {
    pub open spec fn negative(self) -> bool {
        self.bits >= SIGN
    }

    /// The bits without the sign. Finite numbers are ordered by size as these are.
    pub open spec fn size(self) -> int {
        if self.negative() {
            self.bits - SIGN
        } else {
            self.bits as int
        }
    }

    pub open spec fn finite(self) -> bool {
        self.size() < INFINITE
    }

    /// Whether it is a number at all.
    pub open spec fn number(self) -> bool {
        self.size() <= INFINITE
    }

    pub open spec fn exponent(self) -> int {
        self.size() / WHOLE as int
    }

    /// A finite number is its mantissa times two to its power, with its sign.
    pub open spec fn mantissa(self) -> nat {
        if self.exponent() == 0 {
            (self.size() % WHOLE as int) as nat
        } else {
            (self.size() % WHOLE as int + WHOLE) as nat
        }
    }

    pub open spec fn power(self) -> int {
        if self.exponent() == 0 {
            -1074
        } else {
            self.exponent() - 1075
        }
    }

    /// Small enough to be written in full: below two to the power of 107.
    pub open spec fn moderate(self) -> bool {
        self.exponent() <= 1129
    }

    /// The two are the same number: zero is zero with either sign.
    pub open spec fn same(self, other: Real) -> bool {
        self.number() && other.number() && (self == other || (self.size() == 0 && other.size()
            == 0))
    }

    /// The number without its sign and its point, so many places behind the point kept: rounded to
    /// the nearest, and to the even one of two as near.
    pub open spec fn rounded(self, places: nat) -> nat {
        let top = self.mantissa() * ten_to(places);
        if self.power() >= 0 {
            top * pow2(self.power() as nat)
        } else {
            let bottom = pow2((-self.power()) as nat);
            let whole = top / bottom;
            let rest = top % bottom;
            if 2 * rest > bottom || (2 * rest == bottom && whole % 2 == 1) {
                whole + 1
            } else {
                whole
            }
        }
    }

    /// The number with so many places behind the point.
    pub open spec fn written(self, places: nat) -> Seq<char> {
        let n = self.rounded(places);
        (if self.negative() {
            "-"@
        } else {
            ""@
        }) + decimal(n / ten_to(places)) + "."@ + padded(n % ten_to(places), places)
    }

    /// Whether it is no further from zero than the number above zero of these bits.
    pub open spec fn within(self, limit: u64) -> bool {
        self.size() <= limit
    }

    /// Its place among all there are: those below zero before those above, and zero below zero
    /// right before zero.
    pub open spec fn order(self) -> int {
        if self.negative() {
            -1 - self.size()
        } else {
            self.size()
        }
    }

    /// Whether it is less than another: what is no number is neither less nor more than any, and
    /// the two zeros are the same.
    pub open spec fn less(self, other: Real) -> bool {
        self.number() && other.number() && self.order() < other.order() && !(self.size() == 0
            && other.size() == 0)
    }

    /// Whether it is no less than the number above zero of these bits.
    pub open spec fn reaches(self, limit: u64) -> bool {
        self.number() && !self.negative() && self.size() >= limit
    }

    /// What it is without its sign and its fraction, where it is finite.
    pub open spec fn steps(self) -> nat {
        if self.power() >= 0 {
            self.mantissa() * pow2(self.power() as nat)
        } else {
            self.mantissa() / pow2((-self.power()) as nat)
        }
    }

    /// The integer it is without its fraction, the nearest there is where it is too large, and
    /// zero where it is no number.
    pub open spec fn truncated(self) -> int {
        let far = self.exponent() >= 1086;
        if !self.number() {
            0
        } else if self.negative() {
            if far {
                i64::MIN as int
            } else {
                -self.steps()
            }
        } else if far {
            i64::MAX as int
        } else {
            self.steps() as int
        }
    }
}

/// A number and a text it is written as.
#[derive(Debug, Clone, PartialEq, Eq)]
pub struct Spelled {
    pub number: Real,
    pub text: String,
}

#[verifier::ext_equal]
pub struct SpelledView {
    pub number: Real,
    pub text: Seq<char>,
}

impl View for Spelled {
    type V = SpelledView;

    open spec fn view(&self) -> SpelledView {
        SpelledView { number: self.number, text: self.text@ }
    }
}

/// Zero.
pub open spec fn zero() -> SpelledView {
    SpelledView { number: Real { bits: 0 }, text: "0.0"@ }
}

impl Spelled {
    pub fn copy(&self) -> (copied: Spelled)
        ensures
            copied@ == self@,
    {
        Spelled { number: self.number, text: self.text.clone() }
    }

    pub fn zero() -> (nothing: Spelled)
        ensures
            nothing@ == zero(),
    {
        Spelled { number: Real { bits: 0 }, text: "0.0".to_owned() }
    }
}

pub open spec fn ten_to(places: nat) -> nat
    decreases places,
{
    if places == 0 {
        1
    } else {
        10 * ten_to((places - 1) as nat)
    }
}

/// The bits of ninety.
pub const NINETY: u64 = 0x4056_8000_0000_0000;

/// The bits of a hundred and eighty.
pub const HALF_TURN: u64 = 0x4066_8000_0000_0000;

impl Real {
    fn unsigned(self) -> (size: u64)
        ensures
            size == self.size(),
    {
        if self.bits >= SIGN {
            self.bits - SIGN
        } else {
            self.bits
        }
    }

    /// Whether it is finite.
    pub fn is_finite(self) -> (yes: bool)
        ensures
            yes == self.finite(),
    {
        self.unsigned() < INFINITE
    }

    /// Whether two numbers are the same.
    pub fn equals(self, other: Real) -> (yes: bool)
        ensures
            yes == self.same(other),
    {
        let a: u64 = self.unsigned();
        let b: u64 = other.unsigned();
        a <= INFINITE && b <= INFINITE && (self == other || (a == 0 && b == 0))
    }

    /// Whether it is no further from zero than the number above zero of these bits.
    pub fn is_within(self, limit: u64) -> (yes: bool)
        ensures
            yes == self.within(limit),
    {
        self.unsigned() <= limit
    }

    /// Whether it comes before another among all there are.
    pub fn is_before(self, other: Real) -> (yes: bool)
        ensures
            yes == (self.order() < other.order()),
    {
        if self.bits >= SIGN {
            other.bits < SIGN || self.bits > other.bits
        } else {
            other.bits < SIGN && self.bits < other.bits
        }
    }

    /// Whether it is less than another.
    pub fn is_less(self, other: Real) -> (yes: bool)
        ensures
            yes == self.less(other),
    {
        let a: u64 = self.unsigned();
        let b: u64 = other.unsigned();
        a <= INFINITE && b <= INFINITE && self.is_before(other) && !(a == 0 && b == 0)
    }

    /// Whether it is no less than the number above zero of these bits.
    pub fn is_at_least(self, limit: u64) -> (yes: bool)
        ensures
            yes == self.reaches(limit),
    {
        self.bits < SIGN && self.bits <= INFINITE && self.bits >= limit
    }

    /// Whether it can be written in full.
    pub fn is_moderate(self) -> (yes: bool)
        ensures
            yes == self.moderate(),
    {
        self.unsigned() / WHOLE <= 1129
    }

    /// The integer it is without its fraction, the nearest there is where it is too large, and
    /// zero where it is no number.
    pub fn truncate(self) -> (n: i64)
        ensures
            n == self.truncated(),
    {
        let size: u64 = self.unsigned();
        let negative: bool = self.bits >= SIGN;
        if size > INFINITE {
            return 0;
        }
        let exponent: u64 = size / WHOLE;
        if exponent >= 1086 {
            return if negative {
                i64::MIN
            } else {
                i64::MAX
            };
        }
        let fraction: u64 = size % WHOLE;
        let mantissa: u64 = if exponent == 0 {
            fraction
        } else {
            fraction + WHOLE
        };
        let steps: u64 = if exponent >= 1075 {
            let up: u128 = two_to((exponent - 1075) as u32);
            proof {
                lemma2_to64();
                if exponent - 1075 < 10 {
                    lemma_pow2_strictly_increases((exponent - 1075) as nat, 10);
                }
                assert(mantissa as int * up as int <= 0x1f_ffff_ffff_ffff * 0x400) by (nonlinear_arith)
                    requires
                        0 <= mantissa <= 0x1f_ffff_ffff_ffff,
                        0 <= up <= 0x400,
                ;
            }
            (mantissa as u128 * up) as u64
        } else {
            let down: u32 = if exponent == 0 {
                1074
            } else {
                (1075 - exponent) as u32
            };
            if down >= 75 {
                proof {
                    lemma_two_to_75();
                    if down > 75 {
                        lemma_pow2_strictly_increases(75, down as nat);
                    }
                    let bottom = pow2(down as nat) as int;
                    assert(mantissa as int / bottom == 0) by (nonlinear_arith)
                        requires
                            0 <= mantissa < bottom,
                    ;
                }
                0
            } else {
                let bottom: u128 = two_to(down);
                proof {
                    lemma_pow2_pos(down as nat);
                    assert(mantissa as int / bottom as int <= mantissa) by (nonlinear_arith)
                        requires
                            bottom > 0,
                            mantissa >= 0,
                    ;
                }
                (mantissa as u128 / bottom) as u64
            }
        };
        assert(steps == self.steps());
        if negative {
            -(steps as i64)
        } else {
            steps as i64
        }
    }

    /// The number with so many places behind the point, rounded to the nearest.
    pub fn fixed(self, places: usize) -> (text: String)
        requires
            self.moderate(),
            1 <= places <= 6,
        ensures
            text@ == self.written(places as nat),
    {
        let size: u64 = self.unsigned();
        let exponent: u64 = size / WHOLE;
        let fraction: u64 = size % WHOLE;
        let mantissa: u64 = if exponent == 0 {
            fraction
        } else {
            fraction + WHOLE
        };
        let mut unit: u128 = 1;
        for i in 0..places
            invariant
                places <= 6,
                unit == ten_to(i as nat),
                1 <= unit <= 1_000_000,
                i == 0 ==> unit == 1,
                i == 1 ==> unit == 10,
                i == 2 ==> unit == 100,
                i == 3 ==> unit == 1000,
                i == 4 ==> unit == 10_000,
                i == 5 ==> unit == 100_000,
        {
            unit = unit * 10;
        }
        assert(mantissa < 0x20_0000_0000_0000);
        assert(mantissa as int * unit as int <= 0x20_0000_0000_0000 * 1_000_000) by (nonlinear_arith)
            requires
                0 <= mantissa < 0x20_0000_0000_0000,
                0 <= unit <= 1_000_000,
        ;
        let top: u128 = mantissa as u128 * unit;
        let n: u128 = if exponent >= 1075 {
            let up: u128 = two_to((exponent - 1075) as u32);
            proof {
                vstd::arithmetic::power2::lemma2_to64_rest();
                if exponent - 1075 < 54 {
                    lemma_pow2_strictly_increases((exponent - 1075) as nat, 54);
                }
                assert(top as int * up as int <= 0x20_0000_0000_0000 * 1_000_000
                    * 0x40_0000_0000_0000) by (nonlinear_arith)
                    requires
                        0 <= top <= 0x20_0000_0000_0000 * 1_000_000,
                        0 <= up <= 0x40_0000_0000_0000,
                ;
            }
            top * up
        } else {
            let down: u32 = if exponent == 0 {
                1074
            } else {
                (1075 - exponent) as u32
            };
            if down >= 75 {
                proof {
                    lemma2_to64();
                    lemma_two_to_75();
                    if down > 75 {
                        lemma_pow2_strictly_increases(75, down as nat);
                    }
                    let bottom = pow2(down as nat) as int;
                    assert(top as int / bottom == 0 && top as int % bottom == top) by (nonlinear_arith)
                        requires
                            0 <= top < bottom,
                    ;
                }
                0
            } else {
                let bottom: u128 = two_to(down);
                proof {
                    lemma_pow2_pos(down as nat);
                    lemma_two_to_75();
                    if down < 75 {
                        lemma_pow2_strictly_increases(down as nat, 75);
                    }
                }
                let whole: u128 = top / bottom;
                let rest: u128 = top % bottom;
                assert(whole <= top) by (nonlinear_arith)
                    requires
                        whole == top / bottom,
                        bottom > 0,
                ;
                if 2 * rest > bottom || (2 * rest == bottom && whole % 2 == 1) {
                    whole + 1
                } else {
                    whole
                }
            }
        };
        assert(n == self.rounded(places as nat));
        write_fixed(self.bits >= SIGN, n, unit, places)
    }
}

fn write_fixed(negative: bool, n: u128, unit: u128, places: usize) -> (text: String)
    requires
        unit == ten_to(places as nat),
        1 <= unit <= 1_000_000,
    ensures
        text@ == (if negative {
            "-"@
        } else {
            ""@
        }) + decimal((n as nat) / ten_to(places as nat)) + "."@ + padded(
            (n as nat) % ten_to(places as nat),
            places as nat,
        ),
{
    let sign = if negative {
        "-"
    } else {
        ""
    };
    let whole = wide_decimal(n / unit);
    let behind: u64 = (n % unit) as u64;
    sign.to_owned().concat(&whole).concat(".").concat(&padded_of(behind, places))
}

fn wide_decimal(n: u128) -> (text: String)
    ensures
        text@ == decimal(n as nat),
    decreases n,
{
    if n < 10 {
        decimal_of(n as u64)
    } else {
        let mut text = wide_decimal(n / 10);
        text.push(((n % 10) as u8 + 48) as char);
        text
    }
}

proof fn lemma_two_to_75()
    ensures
        pow2(75) == 0x800_0000_0000_0000_0000,
{
    lemma2_to64();
    vstd::arithmetic::power2::lemma_pow2_adds(64, 11);
}

fn two_to(n: u32) -> (power: u128)
    requires
        n <= 75,
    ensures
        power == pow2(n as nat),
{
    let mut power: u128 = 1;
    proof {
        lemma2_to64();
        lemma_two_to_75();
    }
    for i in 0..n
        invariant
            n <= 75,
            power == pow2(i as nat),
            pow2(75) == 0x800_0000_0000_0000_0000,
    {
        proof {
            lemma_pow2_unfold((i + 1) as nat);
            if i + 1 < 75 {
                lemma_pow2_strictly_increases((i + 1) as nat, 75);
            }
        }
        power = power * 2;
    }
    power
}

// ---- Numbers of any size -----------------------------------------------------------------------

impl Real {
    /// How a person reads it, with so many places behind the point.
    pub open spec fn told(self, places: nat) -> Seq<char> {
        if !self.number() {
            "NaN"@
        } else if !self.finite() {
            if self.negative() {
                "-inf"@
            } else {
                "inf"@
            }
        } else {
            self.written(places)
        }
    }

    /// How a person reads it, with so many places behind the point.
    pub fn tell(self, places: usize) -> (text: String)
        requires
            1 <= places <= 6,
        ensures
            text@ == self.told(places as nat),
    {
        let size: u64 = self.unsigned();
        if size > INFINITE {
            "NaN".to_owned()
        } else if size == INFINITE {
            if self.bits >= SIGN {
                "-inf".to_owned()
            } else {
                "inf".to_owned()
            }
        } else if self.is_moderate() {
            self.fixed(places)
        } else {
            self.large(places)
        }
    }

    fn large(self, places: usize) -> (text: String)
        requires
            self.finite(),
            !self.moderate(),
            1 <= places <= 6,
        ensures
            text@ == self.written(places as nat),
    {
        let size: u64 = self.unsigned();
        let exponent: u64 = size / WHOLE;
        let mantissa: u64 = size % WHOLE + WHOLE;
        let power: u64 = exponent - 1075;
        let mut digits = digits_of(mantissa);
        let ghost start = mantissa as nat;
        proof {
            lemma2_to64();
            assert(start * 1 == start);
        }
        for i in 0..power
            invariant
                all_decimal(digits@),
                digits@.len() > 0,
                digits@.last() != 0,
                digit_value(digits@) == start * pow2(i as nat),
        {
            proof {
                lemma_pow2_unfold((i + 1) as nat);
                let p = pow2(i as nat) as int;
                assert(2 * (start * p) == start * (2 * p)) by (nonlinear_arith);
            }
            digits = doubled(&digits);
        }
        let whole = digits_text(&digits);
        let sign = if self.bits >= SIGN {
            "-"
        } else {
            ""
        };
        proof {
            let unit = ten_to(places as nat);
            lemma_ten_to_positive(places as nat);
            let n = self.rounded(places as nat);
            let w = start * pow2(power as nat);
            assert((start * unit) * pow2(power as nat) == w * unit) by (nonlinear_arith)
                requires
                    w == start * pow2(power as nat),
            ;
            assert(n == w * unit);
            vstd::arithmetic::div_mod::lemma_div_multiples_vanish(w as int, unit as int);
            vstd::arithmetic::div_mod::lemma_mod_multiples_basic(w as int, unit as int);
            assert(w * unit == unit * w) by (nonlinear_arith);
            assert(n / unit == w);
            assert(n % unit == 0);
        }
        sign.to_owned().concat(&whole).concat(".").concat(&padded_of(0, places))
    }
}

proof fn lemma_ten_to_positive(n: nat)
    ensures
        ten_to(n) > 0,
    decreases n,
{
    if n > 0 {
        lemma_ten_to_positive((n - 1) as nat);
    }
}

/// Whether these are decimal digits.
spec fn all_decimal(digits: Seq<u8>) -> bool {
    forall|i: int| 0 <= i < digits.len() ==> (#[trigger] digits[i]) < 10
}

/// What decimal digits stand for, the last of the number first.
spec fn digit_value(digits: Seq<u8>) -> nat
    decreases digits.len(),
{
    if digits.len() == 0 {
        0
    } else {
        digits[0] as nat + 10 * digit_value(digits.skip(1))
    }
}

/// What digits stand for that are followed by further ones.
spec fn value_upto(digits: Seq<u8>) -> nat
    decreases digits.len(),
{
    if digits.len() == 0 {
        0
    } else {
        value_upto(digits.drop_last()) + digits.last() as nat * ten_to((digits.len() - 1) as nat)
    }
}

proof fn lemma_value_upto(digits: Seq<u8>)
    ensures
        value_upto(digits) == digit_value(digits),
    decreases digits.len(),
{
    if digits.len() == 1 {
        assert(digits.drop_last() =~= Seq::empty());
        assert(digits.skip(1) =~= Seq::empty());
        assert(value_upto(Seq::<u8>::empty()) == 0);
        assert(digit_value(Seq::<u8>::empty()) == 0);
        assert(ten_to(0) == 1);
        assert(digits.last() as nat * 1 == digits.last() as nat);
    } else if digits.len() > 1 {
        lemma_value_upto(digits.drop_last());
        lemma_value_upto(digits.skip(1));
        lemma_value_upto(digits.skip(1).drop_last());
        assert(digits.skip(1).drop_last() =~= digits.drop_last().skip(1));
        assert(digits.drop_last()[0] == digits[0]);
        assert(digits.skip(1).last() == digits.last());
        let top = digits.last() as int;
        let unit = ten_to((digits.len() - 2) as nat) as int;
        assert(top * (10 * unit) == 10 * (top * unit)) by (nonlinear_arith);
    }
}

fn digits_of(n: u64) -> (digits: Vec<u8>)
    requires
        n > 0,
    ensures
        all_decimal(digits@),
        digits@.len() > 0,
        digits@.last() != 0,
        digit_value(digits@) == n,
{
    let mut digits: Vec<u8> = Vec::new();
    let mut left: u64 = n;
    let ghost mut unit: nat = 1;
    while left > 0
        invariant
            all_decimal(digits@),
            unit == ten_to(digits@.len()),
            value_upto(digits@) + left * unit == n,
            left == 0 ==> digits@.len() > 0 && digits@.last() != 0,
        decreases left,
    {
        let ghost before = digits@;
        let digit: u8 = (left % 10) as u8;
        digits.push(digit);
        proof {
            assert(digits@.drop_last() =~= before);
            let rest = (left / 10) as int;
            let u = unit as int;
            assert(left as int == 10 * rest + digit as int);
            assert((10 * rest + digit as int) * u == rest * (10 * u) + digit as int * u)
                by (nonlinear_arith);
            unit = 10 * unit;
        }
        left = left / 10;
    }
    proof {
        lemma_value_upto(digits@);
    }
    digits
}

fn doubled(digits: &Vec<u8>) -> (twice: Vec<u8>)
    requires
        all_decimal(digits@),
        digits@.len() > 0,
        digits@.last() != 0,
    ensures
        all_decimal(twice@),
        twice@.len() > 0,
        twice@.last() != 0,
        digit_value(twice@) == 2 * digit_value(digits@),
{
    let mut twice: Vec<u8> = Vec::new();
    let mut carry: u8 = 0;
    for i in 0..digits.len()
        invariant
            all_decimal(digits@),
            digits@.last() != 0,
            all_decimal(twice@),
            twice@.len() == i,
            carry <= 1,
            value_upto(twice@) + carry * ten_to(i as nat) == 2 * value_upto(
                digits@.take(i as int),
            ),
            i == digits@.len() ==> carry > 0 || twice@.last() != 0,
    {
        let ghost before = twice@;
        let sum: u8 = 2 * digits[i] + carry;
        twice.push(sum % 10);
        proof {
            assert(twice@.drop_last() =~= before);
            assert(digits@.take(i + 1).drop_last() =~= digits@.take(i as int));
            let u = ten_to(i as nat) as int;
            let low = (sum % 10) as int;
            let high = (sum / 10) as int;
            let d = digits@[i as int] as int;
            let c = carry as int;
            assert(sum as int == 10 * high + low);
            assert(2 * d + c == 10 * high + low);
            assert(low * u + high * (10 * u) == 2 * (d * u) + c * u) by (nonlinear_arith)
                requires
                    2 * d + c == 10 * high + low,
            ;
        }
        carry = sum / 10;
    }
    assert(digits@.take(digits@.len() as int) =~= digits@);
    if carry > 0 {
        let ghost before = twice@;
        twice.push(carry);
        assert(twice@.drop_last() =~= before);
    }
    proof {
        lemma_value_upto(twice@);
        lemma_value_upto(digits@);
    }
    twice
}

proof fn lemma_digits_text(digits: Seq<u8>)
    requires
        all_decimal(digits),
        digits.len() > 0,
        digits.last() != 0,
    ensures
        decimal(digit_value(digits)) == digits.reverse().map_values(
            |d: u8| crate::text::digit(d as nat),
        ),
        digit_value(digits) > 0,
    decreases digits.len(),
{
    let rest = digits.skip(1);
    let n = digit_value(digits);
    let text = digits.reverse().map_values(|d: u8| crate::text::digit(d as nat));
    assert(digits[0] < 10);
    if rest.len() == 0 {
        assert(rest =~= Seq::empty());
        assert(digit_value(Seq::<u8>::empty()) == 0);
        assert(n == digits[0]);
        assert(text =~= seq![crate::text::digit(n)]);
        assert(decimal(n) =~= text);
    } else {
        assert(rest.last() == digits.last());
        assert(all_decimal(rest)) by {
            assert forall|i: int| 0 <= i < rest.len() implies (#[trigger] rest[i]) < 10 by {
                assert(digits[i + 1] < 10);
            }
        }
        lemma_digits_text(rest);
        let more = rest.reverse().map_values(|d: u8| crate::text::digit(d as nat));
        assert(n / 10 == digit_value(rest));
        assert(n % 10 == digits[0]);
        assert(text =~= more.push(crate::text::digit(digits[0] as nat)));
    }
}

fn digits_text(digits: &Vec<u8>) -> (text: String)
    requires
        all_decimal(digits@),
        digits@.len() > 0,
        digits@.last() != 0,
    ensures
        text@ == decimal(digit_value(digits@)),
{
    let mut text = String::new();
    let ghost goal = digits@.reverse().map_values(|d: u8| crate::text::digit(d as nat));
    let n: usize = digits.len();
    for i in 0..n
        invariant
            n == digits@.len(),
            all_decimal(digits@),
            goal == digits@.reverse().map_values(|d: u8| crate::text::digit(d as nat)),
            text@ == goal.take(i as int),
    {
        let d: u8 = digits[n - 1 - i];
        text.push((d + 48) as char);
        assert(goal[i as int] == crate::text::digit(d as nat));
        assert(goal.take(i + 1) =~= goal.take(i as int).push(goal[i as int]));
    }
    proof {
        assert(goal.take(n as int) =~= goal);
        lemma_digits_text(digits@);
    }
    text
}

/// What is written of a number is no further from it than half of the last place, and where two
/// are as near it is the even one; a number without a fraction is written as it is.
pub proof fn a_number_is_written_to_the_nearest(number: Real, places: nat)
    ensures
        number.power() >= 0 ==> number.rounded(places) == number.mantissa() * ten_to(places) * pow2(
            number.power() as nat,
        ),
        number.power() < 0 ==> {
            let unit = pow2((-number.power()) as nat);
            let off = number.rounded(places) * unit - number.mantissa() * ten_to(places);
            &&& -unit <= 2 * off <= unit
            &&& 2 * off == unit || 2 * off == -unit ==> number.rounded(places) % 2 == 0
        },
{
    if number.power() < 0 {
        let unit = pow2((-number.power()) as nat) as int;
        vstd::arithmetic::power2::lemma_pow2_pos((-number.power()) as nat);
        let top = (number.mantissa() * ten_to(places)) as int;
        let whole = top / unit;
        let rest = top % unit;
        vstd::arithmetic::div_mod::lemma_fundamental_div_mod(top, unit);
        vstd::arithmetic::div_mod::lemma_mod_bound(top, unit);
        assert(whole * unit == unit * whole) by (nonlinear_arith);
        assert((whole + 1) * unit == unit * whole + unit) by (nonlinear_arith);
    }
}

/// A number without its fraction is no further from zero than the number, and less than one away
/// from it.
pub proof fn only_the_fraction_is_taken_off(number: Real)
    ensures
        number.power() >= 0 ==> number.steps() == number.mantissa() * pow2(number.power() as nat),
        number.power() < 0 ==> {
            let unit = pow2((-number.power()) as nat);
            number.steps() * unit <= number.mantissa() < (number.steps() + 1) * unit
        },
        number.number() && number.exponent() < 1086 ==> number.truncated() == if number.negative() {
            -number.steps()
        } else {
            number.steps() as int
        },
{
    if number.power() < 0 {
        let unit = pow2((-number.power()) as nat) as int;
        vstd::arithmetic::power2::lemma_pow2_pos((-number.power()) as nat);
        let top = number.mantissa() as int;
        let whole = top / unit;
        vstd::arithmetic::div_mod::lemma_fundamental_div_mod(top, unit);
        vstd::arithmetic::div_mod::lemma_mod_bound(top, unit);
        assert(whole * unit == unit * whole) by (nonlinear_arith);
        assert((whole + 1) * unit == unit * whole + unit) by (nonlinear_arith);
    }
}

} // verus!

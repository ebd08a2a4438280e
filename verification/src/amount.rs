//! Exact decimal amounts: an integer mantissa and the number of digits after
//! the decimal point.

use crate::text::{fixed_text, fixed_to_text};
use vstd::prelude::*;

verus! {

/// The largest mantissa of a well-formed amount: 2^96 - 1.
pub const MAX_MANTISSA: i128 = 79_228_162_514_264_337_593_543_950_335;

/// The largest scale of a well-formed amount.
pub const MAX_SCALE: u32 = 28;

/// Ten to the power of `n`.
pub open spec fn pow10(n: nat) -> int
    decreases n,
{
    if n == 0 {
        1
    } else {
        10 * pow10((n - 1) as nat)
    }
}

/// An exact decimal number: `mantissa` divided by ten to the power of `scale`.
#[derive(Clone, Copy, Debug, PartialEq, Eq, Structural)]
pub struct Amount {
    pub mantissa: i128,
    pub scale: u32,
}

/// Mantissa and scale of the decimal number that `rust_decimal` reads from
/// `text`, or `None` where it rejects the text.
pub uninterp spec fn decimal_parts(text: Seq<char>) -> Option<(int, nat)>;

/// The error with which `rust_decimal` rejects a text.
#[verifier::external_type_specification]
#[verifier::external_body]
pub struct ExDecimalError(rust_decimal::Error);

/// A power of ten is at least one.
pub proof fn lemma_pow10_positive(n: nat)
    ensures
        pow10(n) >= 1,
    decreases n,
{
    if n > 0 {
        lemma_pow10_positive((n - 1) as nat);
    }
}

/// Powers of ten multiply by adding their exponents.
pub proof fn lemma_pow10_add(a: nat, b: nat)
    ensures
        pow10(a + b) == pow10(a) * pow10(b),
    decreases b,
{
    if b == 0 {
        assert(pow10(a) * 1 == pow10(a));
    } else {
        lemma_pow10_add(a, (b - 1) as nat);
        assert(pow10(a + b) == 10 * pow10((a + b - 1) as nat));
        assert(10 * (pow10(a) * pow10((b - 1) as nat)) == pow10(a) * (10 * pow10((b - 1) as nat)))
            by (nonlinear_arith);
    }
}

/// A product that has left the range of `i128` stays outside it when it is
/// multiplied by a further power of ten.
proof fn lemma_scaled_out_of_range(cur: int, p: int)
    requires
        cur * 10 < i128::MIN || cur * 10 > i128::MAX,
        p >= 1,
    ensures
        cur * 10 * p < i128::MIN || cur * 10 * p > i128::MAX,
{
    assert(cur * 10 > 0 ==> cur * 10 * p >= cur * 10) by (nonlinear_arith)
        requires
            p >= 1,
    ;
    assert(cur * 10 < 0 ==> cur * 10 * p <= cur * 10) by (nonlinear_arith)
        requires
            p >= 1,
    ;
}

/// Multiplies `m` by ten to the power of `d`, where the product fits.
pub fn scale_up(m: i128, d: u32) -> (r: Option<i128>)
    ensures
        match r {
            Some(v) => v == m * pow10(d as nat),
            None => m * pow10(d as nat) < i128::MIN || m * pow10(d as nat) > i128::MAX,
        },
{
    if m == 0 {
        assert(0 * pow10(d as nat) == 0);
        return Some(0);
    }
    let mut cur: i128 = m;
    let mut k: u32 = 0;
    assert(m * 1 == m);
    while k < d
        invariant
            k <= d,
            cur == m * pow10(k as nat),
        decreases d - k,
    {
        match cur.checked_mul(10) {
            Some(v) => {
                proof {
                    assert(m * pow10(k as nat) * 10 == m * (10 * pow10(k as nat)))
                        by (nonlinear_arith);
                }
                cur = v;
            },
            None => {
                proof {
                    let e: nat = (d - k - 1) as nat;
                    lemma_pow10_positive(e);
                    lemma_pow10_add((k + 1) as nat, e);
                    lemma_scaled_out_of_range(cur as int, pow10(e));
                    assert(pow10((k + 1) as nat) == 10 * pow10(k as nat));
                    assert(m * pow10(d as nat) == cur * 10 * pow10(e)) by (nonlinear_arith)
                        requires
                            cur == m * pow10(k as nat),
                            pow10(d as nat) == (10 * pow10(k as nat)) * pow10(e),
                    ;
                }
                return None;
            },
        }
        k = k + 1;
    }
    Some(cur)
}

impl Amount {
    /// Whether mantissa and scale lie in the range of a 96-bit decimal.
    pub open spec fn wf(self) -> bool {
        &&& -MAX_MANTISSA <= self.mantissa <= MAX_MANTISSA
        &&& self.scale <= MAX_SCALE
    }

    /// Whether both amounts are the same number, whatever their scales:
    /// `1.5` and `1.50` are.
    pub open spec fn same_value(self, other: Amount) -> bool {
        if self.scale <= other.scale {
            self.mantissa * pow10((other.scale - self.scale) as nat) == other.mantissa
        } else {
            other.mantissa * pow10((self.scale - other.scale) as nat) == self.mantissa
        }
    }

    /// The mantissa of this amount when it is written with `scale` digits
    /// after the decimal point.
    pub open spec fn mantissa_at(self, scale: nat) -> int
        recommends
            self.scale <= scale,
    {
        self.mantissa * pow10((scale - self.scale) as nat)
    }

    /// The amount of the given mantissa and scale, where they lie in the
    /// range of a 96-bit decimal.
    pub fn new(mantissa: i128, scale: u32) -> (r: Option<Amount>)
        ensures
            r == (if (Amount { mantissa, scale }).wf() {
                Some(Amount { mantissa, scale })
            } else {
                None
            }),
    {
        let amount = Amount { mantissa, scale };
        if amount.is_wf() {
            Some(amount)
        } else {
            None
        }
    }

    /// Tests whether mantissa and scale lie in the range of a 96-bit decimal.
    pub fn is_wf(&self) -> (r: bool)
        ensures
            r == self.wf(),
    {
        -MAX_MANTISSA <= self.mantissa && self.mantissa <= MAX_MANTISSA && self.scale <= MAX_SCALE
    }

    /// The amount in decimal notation, with as many digits after the decimal
    /// point as its scale says: `1234.50` for a mantissa of 123450 at scale 2.
    pub open spec fn text(self) -> Seq<char> {
        fixed_text(self.mantissa as int, self.scale as nat)
    }

    /// Writes the amount in decimal notation.
    pub fn to_text(&self) -> (r: String)
        ensures
            r@ == self.text(),
    {
        fixed_to_text(self.mantissa, self.scale)
    }

    /// Tests whether both amounts are the same number.
    pub fn eq_value(&self, other: &Amount) -> (r: bool)
        ensures
            r == self.same_value(*other),
    {
        if self.scale <= other.scale {
            match scale_up(self.mantissa, other.scale - self.scale) {
                Some(v) => v == other.mantissa,
                None => false,
            }
        } else {
            match scale_up(other.mantissa, self.scale - other.scale) {
                Some(v) => v == self.mantissa,
                None => false,
            }
        }
    }
}

/// Reads a decimal number.
///
/// Calls the `FromStr` implementation of `rust_decimal::Decimal` and hands
/// back mantissa and scale of the number it read. Trusted: the outcome is the
/// one named by [`decimal_parts`], and a number that `rust_decimal` accepts
/// has a mantissa of at most 96 bits and a scale of at most 28.
#[verifier::external_body]
pub(crate) fn parse_decimal(text: &str) -> (r: Result<Amount, rust_decimal::Error>)
    ensures
        r matches Ok(a) ==> decimal_parts(text@) == Some((a.mantissa as int, a.scale as nat))
            && a.wf(),
        r is Err ==> decimal_parts(text@) is None,
{
    let number = <rust_decimal::Decimal as core::str::FromStr>::from_str(text)?;
    Ok(Amount { mantissa: number.mantissa(), scale: number.scale() })
}

} // verus!

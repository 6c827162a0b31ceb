//! Exact decimal amounts.
//!
//! [`Dec`] holds what the library reads of a `rust_decimal::Decimal`: its
//! 96-bit signed mantissa, its base-10 scale (`value = mantissa / 10^scale`)
//! and its sign flag, which a zero keeps too (`-0` displays as `-0`).
//! Arithmetic is delegated to `rust_decimal`; comparison is stated exactly
//! over the represented values.

use vstd::prelude::*;
use rust_decimal::Decimal;
use vstd::std_specs::cmp::PartialEqSpecImpl;

verus! {

/// The largest magnitude of a `rust_decimal` mantissa (96 bits).
pub const MAX_MANTISSA: i128 = 0x0000_0000_FFFF_FFFF_FFFF_FFFF_FFFF_FFFF;

/// The largest `rust_decimal` scale.
pub const MAX_SCALE: u32 = 28;

/// `10^n` as a mathematical integer.
pub open spec fn pow10(n: nat) -> int
    decreases n,
{
    if n == 0 {
        1
    } else {
        10 * pow10((n - 1) as nat)
    }
}

/// The sign of `value(a) - value(b)` for two (mantissa, scale, sign)
/// triples: `-1`, `0` or `1`.
pub open spec fn value_order(a: (i128, u32, bool), b: (i128, u32, bool)) -> int {
    let l = a.0 * pow10(b.1 as nat);
    let r = b.0 * pow10(a.1 as nat);
    if l < r {
        -1
    } else if l == r {
        0
    } else {
        1
    }
}

/// What `Decimal::checked_add` returns for two decimals, as (mantissa, scale, sign).
pub uninterp spec fn decimal_checked_add(a: (i128, u32, bool), b: (i128, u32, bool)) -> Option<(i128, u32, bool)>;

/// What `Decimal::checked_sub` returns for two decimals, as (mantissa, scale, sign).
pub uninterp spec fn decimal_checked_sub(a: (i128, u32, bool), b: (i128, u32, bool)) -> Option<(i128, u32, bool)>;

/// What `Decimal::checked_mul` returns for two decimals, as (mantissa, scale, sign).
pub uninterp spec fn decimal_checked_mul(a: (i128, u32, bool), b: (i128, u32, bool)) -> Option<(i128, u32, bool)>;

/// What `Decimal::checked_div` returns for two decimals, as (mantissa, scale, sign).
pub uninterp spec fn decimal_checked_div(a: (i128, u32, bool), b: (i128, u32, bool)) -> Option<(i128, u32, bool)>;

/// The sign flag of a result, `false` when there is none.
pub open spec fn sign_of(r: Option<(i128, u32, bool)>) -> bool {
    match r {
        Some(t) => t.2,
        None => false,
    }
}

/// Two whole numbers (scale 0) whose exact result `v` fits a mantissa.
pub open spec fn whole_fit(a: (i128, u32, bool), b: (i128, u32, bool), v: int) -> bool {
    a.1 == 0 && b.1 == 0 && -MAX_MANTISSA <= v <= MAX_MANTISSA
}

/// The whole number `v` at scale 0; a zero takes the sign flag `zero_sign`.
pub open spec fn whole_result(v: int, zero_sign: bool) -> Option<(i128, u32, bool)> {
    Some(
        (v as i128, 0u32, if v != 0 {
            v < 0
        } else {
            zero_sign
        }),
    )
}

/// What `Decimal::checked_add` returns: the exact sum at scale 0 for two
/// whole numbers whose sum fits (a zero sum keeps the sign `rust_decimal`
/// gives it); otherwise the named result.
pub closed spec fn checked_add_result(a: (i128, u32, bool), b: (i128, u32, bool)) -> Option<(i128, u32, bool)> {
    if whole_fit(a, b, a.0 + b.0) {
        whole_result(a.0 + b.0, sign_of(decimal_checked_add(a, b)))
    } else {
        decimal_checked_add(a, b)
    }
}

/// What `Decimal::checked_sub` returns: the exact difference at scale 0 for
/// two whole numbers whose difference fits; otherwise the named result.
pub closed spec fn checked_sub_result(a: (i128, u32, bool), b: (i128, u32, bool)) -> Option<(i128, u32, bool)> {
    if whole_fit(a, b, a.0 - b.0) {
        whole_result(a.0 - b.0, sign_of(decimal_checked_sub(a, b)))
    } else {
        decimal_checked_sub(a, b)
    }
}

/// What `Decimal::checked_mul` returns: the exact product at scale 0 for two
/// whole numbers whose product fits; otherwise the named result.
pub closed spec fn checked_mul_result(a: (i128, u32, bool), b: (i128, u32, bool)) -> Option<(i128, u32, bool)> {
    if whole_fit(a, b, a.0 * b.0) {
        whole_result(a.0 * b.0, sign_of(decimal_checked_mul(a, b)))
    } else {
        decimal_checked_mul(a, b)
    }
}

/// What `Decimal::checked_div` returns: the exact quotient at scale 0 when a
/// non-negative whole number is divided by a positive whole number that
/// divides it; otherwise the named result.
pub closed spec fn checked_div_result(a: (i128, u32, bool), b: (i128, u32, bool)) -> Option<(i128, u32, bool)> {
    if a.1 == 0 && b.1 == 0 && a.0 >= 0 && b.0 > 0 && a.0 % b.0 == 0 {
        whole_result(a.0 / b.0, false)
    } else {
        decimal_checked_div(a, b)
    }
}

/// The decimal digits of `n`, most significant first (none for zero).
pub open spec fn digits(n: nat) -> Seq<char>
    decreases n,
{
    if n == 0 {
        Seq::empty()
    } else {
        digits(n / 10).push(((n % 10) + 48) as char)
    }
}

/// `n` zero characters.
pub open spec fn zeros(n: int) -> Seq<char> {
    Seq::new(if n > 0 {
        n as nat
    } else {
        0
    }, |i: int| '0')
}

/// The text that `Decimal`'s `Display` writes for a decimal: a `-` when the
/// sign flag is set, then the digits of the mantissa (left-padded with zeros
/// to at least `scale` digits), with a point before the last `scale` digits
/// and a `0` before a point that would lead; a lone `0` for a zero without
/// scale.
pub open spec fn decimal_display(a: (i128, u32, bool)) -> Seq<char> {
    let m: nat = if a.0 < 0 {
        (-a.0) as nat
    } else {
        a.0 as nat
    };
    let d = zeros(a.1 - digits(m).len()) + digits(m);
    let whole = d.subrange(0, d.len() - a.1);
    let body = if a.1 == 0 {
        if d.len() == 0 {
            seq!['0']
        } else {
            d
        }
    } else {
        (if whole.len() == 0 {
            seq!['0']
        } else {
            whole
        }) + seq!['.'] + d.subrange(d.len() - a.1, d.len() as int)
    };
    if a.2 {
        seq!['-'] + body
    } else {
        body
    }
}

/// An exact decimal number `mantissa / 10^scale`, in the range of a
/// `rust_decimal::Decimal`.
#[derive(Clone, Copy, Debug)]
pub struct Dec {
    mantissa: i128,
    scale: u32,
    negative: bool,
}

/// A (mantissa, scale, sign) triple lies in the range of a
/// `rust_decimal::Decimal`; the sign flag of a nonzero value is its sign.
pub open spec fn in_range(p: (i128, u32, bool)) -> bool {
    &&& -MAX_MANTISSA <= p.0 <= MAX_MANTISSA
    &&& p.1 <= MAX_SCALE
    &&& p.0 != 0 ==> p.2 == (p.0 < 0)
}

/// Lift the (mantissa, scale, sign) result of a named decimal operation.
pub closed spec fn lift(r: Option<(i128, u32, bool)>) -> Option<Dec> {
    match r {
        Some(p) => Some(Dec { mantissa: p.0, scale: p.1, negative: p.2 }),
        None => None,
    }
}

/// The decimal with the given (mantissa, scale, sign).
pub open spec fn dec_of(p: (i128, u32, bool)) -> Dec {
    lift(Some(p)).unwrap()
}

/// The decimal zero (mantissa 0, scale 0, positive).
pub open spec fn dec_zero() -> Dec {
    dec_of((0i128, 0u32, false))
}

impl View for Dec {
    type V = (i128, u32, bool);

    closed spec fn view(&self) -> (i128, u32, bool) {
        (self.mantissa, self.scale, self.negative)
    }
}

/// `lift` keeps the triple it is given.
pub proof fn lemma_lift(r: Option<(i128, u32, bool)>)
    ensures
        lift(r) is Some <==> r is Some,
        r is Some ==> lift(r).unwrap()@ == r.unwrap(),
{
}

/// A decimal is determined by its (mantissa, scale, sign).
pub proof fn lemma_dec_of(d: Dec, p: (i128, u32, bool))
    ensures
        dec_of(d@) == d,
        dec_of(p)@ == p,
{
}

impl Dec {
    #[verifier::type_invariant]
    closed spec fn inv(self) -> bool {
        in_range(self@)
    }

    /// Checked addition of the represented values.
    pub open spec fn spec_add(self, other: Dec) -> Option<Dec> {
        lift(checked_add_result(self@, other@))
    }

    /// Checked subtraction of the represented values.
    pub open spec fn spec_sub(self, other: Dec) -> Option<Dec> {
        lift(checked_sub_result(self@, other@))
    }

    /// Checked multiplication of the represented values.
    pub open spec fn spec_mul(self, other: Dec) -> Option<Dec> {
        lift(checked_mul_result(self@, other@))
    }

    /// Checked division of the represented values.
    pub open spec fn spec_div(self, other: Dec) -> Option<Dec> {
        lift(checked_div_result(self@, other@))
    }

    /// `self < other` as values.
    pub open spec fn lt(self, other: Dec) -> bool {
        value_order(self@, other@) < 0
    }

    /// `self <= other` as values.
    pub open spec fn le(self, other: Dec) -> bool {
        value_order(self@, other@) <= 0
    }

    /// `self == other` as values (`1.0 == 1.00`).
    pub open spec fn same(self, other: Dec) -> bool {
        value_order(self@, other@) == 0
    }

    /// The value is zero.
    pub open spec fn is_zero_spec(self) -> bool {
        self@.0 == 0
    }

    /// The value is strictly positive.
    pub open spec fn is_pos_spec(self) -> bool {
        self@.0 > 0
    }

    /// The value is strictly negative.
    pub open spec fn is_neg_spec(self) -> bool {
        self@.0 < 0
    }

    /// The smaller of two values; `self` when they are equal.
    pub open spec fn min_spec(self, other: Dec) -> Dec {
        if self.le(other) {
            self
        } else {
            other
        }
    }

    /// The larger of two values; `self` when they are equal.
    pub open spec fn max_spec(self, other: Dec) -> Dec {
        if self.lt(other) {
            other
        } else {
            self
        }
    }

    /// The decimal `num / 10^scale`, as `Decimal::new` builds it.
    pub fn new(num: i64, scale: u32) -> (r: Dec)
        requires
            scale <= MAX_SCALE,
        ensures
            r@ == (num as i128, scale, num < 0),
            r == dec_of((num as i128, scale, num < 0)),
    {
        Dec { mantissa: num as i128, scale, negative: num < 0 }
    }

    /// The decimal `mantissa / 10^scale` (a zero is positive), or `None` when
    /// it is out of range.
    pub fn from_parts(mantissa: i128, scale: u32) -> (r: Option<Dec>)
        ensures
            r is Some <==> in_range((mantissa, scale, mantissa < 0)),
            r matches Some(d) ==> d@ == (mantissa, scale, mantissa < 0) && d == dec_of((mantissa, scale, mantissa < 0)),
    {
        Self::from_parts_signed(mantissa, scale, mantissa < 0)
    }

    /// The decimal `mantissa / 10^scale` with the sign flag `negative` (which
    /// a nonzero mantissa must agree with), or `None` when it is out of range.
    pub fn from_parts_signed(mantissa: i128, scale: u32, negative: bool) -> (r: Option<Dec>)
        ensures
            r is Some <==> in_range((mantissa, scale, negative)),
            r matches Some(d) ==> d@ == (mantissa, scale, negative) && d == dec_of((mantissa, scale, negative)),
    {
        if -MAX_MANTISSA <= mantissa && mantissa <= MAX_MANTISSA && scale <= MAX_SCALE && (mantissa == 0 || negative
            == (mantissa < 0)) {
            Some(Dec { mantissa, scale, negative })
        } else {
            None
        }
    }

    /// Zero.
    pub fn zero() -> (r: Dec)
        ensures
            r@ == (0i128, 0u32, false),
            r == dec_zero(),
    {
        Dec { mantissa: 0, scale: 0, negative: false }
    }

    /// The sign flag: set for negative values and for a negative zero.
    pub fn is_sign_negative(&self) -> (r: bool)
        ensures
            r == self@.2,
    {
        self.negative
    }

    /// The mantissa.
    pub fn mantissa(&self) -> (r: i128)
        ensures
            r == self@.0,
            -MAX_MANTISSA <= r <= MAX_MANTISSA,
    {
        proof {
            use_type_invariant(self);
        }
        self.mantissa
    }

    /// The scale.
    pub fn scale(&self) -> (r: u32)
        ensures
            r == self@.1,
            r <= MAX_SCALE,
    {
        proof {
            use_type_invariant(self);
        }
        self.scale
    }

    /// Checked addition; `None` where `rust_decimal` reports overflow.
    pub fn checked_add(&self, other: &Dec) -> (r: Option<Dec>)
        ensures
            r == self.spec_add(*other),
    {
        proof {
            use_type_invariant(self);
            use_type_invariant(other);
        }
        decimal_add(*self, *other)
    }

    /// Checked subtraction; `None` where `rust_decimal` reports overflow.
    pub fn checked_sub(&self, other: &Dec) -> (r: Option<Dec>)
        ensures
            r == self.spec_sub(*other),
    {
        proof {
            use_type_invariant(self);
            use_type_invariant(other);
        }
        decimal_sub(*self, *other)
    }

    /// Checked multiplication; `None` where `rust_decimal` reports overflow.
    pub fn checked_mul(&self, other: &Dec) -> (r: Option<Dec>)
        ensures
            r == self.spec_mul(*other),
    {
        proof {
            use_type_invariant(self);
            use_type_invariant(other);
        }
        decimal_mul(*self, *other)
    }

    /// Checked division; `None` for a zero divisor or on overflow.
    pub fn checked_div(&self, other: &Dec) -> (r: Option<Dec>)
        ensures
            r == self.spec_div(*other),
            other@.0 == 0 ==> r is None,
    {
        proof {
            use_type_invariant(self);
            use_type_invariant(other);
        }
        decimal_div(*self, *other)
    }

    /// The sign of `self - other`: `-1`, `0` or `1`.
    pub fn order(&self, other: &Dec) -> (r: i8)
        ensures
            r == value_order(self@, other@),
    {
        proof {
            use_type_invariant(self);
            use_type_invariant(other);
        }
        decimal_order(*self, *other)
    }

    /// `self < other` as values.
    pub fn is_lt(&self, other: &Dec) -> (r: bool)
        ensures
            r == self.lt(*other),
    {
        self.order(other) < 0
    }

    /// `self <= other` as values.
    pub fn is_le(&self, other: &Dec) -> (r: bool)
        ensures
            r == self.le(*other),
    {
        self.order(other) <= 0
    }

    /// The value is zero.
    pub fn is_zero(&self) -> (r: bool)
        ensures
            r == self.is_zero_spec(),
    {
        self.mantissa() == 0
    }

    /// The value is strictly positive.
    pub fn is_positive(&self) -> (r: bool)
        ensures
            r == self.is_pos_spec(),
    {
        self.mantissa() > 0
    }

    /// The value is strictly negative.
    pub fn is_negative(&self) -> (r: bool)
        ensures
            r == self.is_neg_spec(),
    {
        self.mantissa() < 0
    }

    /// The smaller of two values (`self` when equal), as `Decimal::min` picks.
    pub fn min(self, other: Dec) -> (r: Dec)
        ensures
            r == self.min_spec(other),
    {
        if self.is_le(&other) {
            self
        } else {
            other
        }
    }

    /// The larger of two values (`self` when equal), as `Decimal::max` picks.
    pub fn max(self, other: Dec) -> (r: Dec)
        ensures
            r == self.max_spec(other),
    {
        if self.is_lt(&other) {
            other
        } else {
            self
        }
    }

    /// The text `rust_decimal` displays for this value.
    pub fn to_display(&self) -> (r: String)
        ensures
            r@ == decimal_display(self@),
    {
        proof {
            use_type_invariant(self);
        }
        decimal_to_string(*self)
    }
}

/// Comparison with zero reads the sign of the mantissa.
pub proof fn lemma_order_zero(a: (i128, u32, bool))
    ensures
        value_order(a, (0i128, 0u32, false)) == (if a.0 < 0 {
            -1int
        } else if a.0 == 0 {
            0int
        } else {
            1int
        }),
        value_order((0i128, 0u32, false), a) == (if a.0 > 0 {
            -1int
        } else if a.0 == 0 {
            0int
        } else {
            1int
        }),
{
    assert(pow10(0) == 1);
    assert(0 * pow10(a.1 as nat) == 0) by (nonlinear_arith);
    assert(a.0 * 1 == a.0);
}

/// `Decimal::checked_add`: the sum, or `None` on overflow; for whole numbers
/// whose sum fits, exactly that sum at scale 0 (`ops/add.rs` adds aligned
/// mantissas and rounds only when the result leaves 96 bits).
#[verifier::external_body]
fn decimal_add(a: Dec, b: Dec) -> (r: Option<Dec>)
    requires
        in_range(a@),
        in_range(b@),
    ensures
        r == lift(checked_add_result(a@, b@)),
        !whole_fit(a@, b@, a@.0 + b@.0) ==> r == lift(decimal_checked_add(a@, b@)),
        r matches Some(d) ==> in_range(d@),
{
    let mut x = Decimal::from_i128_with_scale(a.mantissa, a.scale);
    x.set_sign_negative(a.negative);
    let mut y = Decimal::from_i128_with_scale(b.mantissa, b.scale);
    y.set_sign_negative(b.negative);
    match x.checked_add(y) {
        Some(d) => Some(Dec { mantissa: d.mantissa(), scale: d.scale(), negative: d.is_sign_negative() }),
        None => None,
    }
}

/// `Decimal::checked_sub`: the difference, or `None` on overflow; for whole
/// numbers whose difference fits, exactly that difference at scale 0.
#[verifier::external_body]
fn decimal_sub(a: Dec, b: Dec) -> (r: Option<Dec>)
    requires
        in_range(a@),
        in_range(b@),
    ensures
        r == lift(checked_sub_result(a@, b@)),
        !whole_fit(a@, b@, a@.0 - b@.0) ==> r == lift(decimal_checked_sub(a@, b@)),
        r matches Some(d) ==> in_range(d@),
{
    let mut x = Decimal::from_i128_with_scale(a.mantissa, a.scale);
    x.set_sign_negative(a.negative);
    let mut y = Decimal::from_i128_with_scale(b.mantissa, b.scale);
    y.set_sign_negative(b.negative);
    match x.checked_sub(y) {
        Some(d) => Some(Dec { mantissa: d.mantissa(), scale: d.scale(), negative: d.is_sign_negative() }),
        None => None,
    }
}

/// `Decimal::checked_mul`: the product, or `None` on overflow; for whole
/// numbers whose product fits, exactly that product at scale 0 (`ops/mul.rs`
/// rescales only past 96 bits or scale 28).
#[verifier::external_body]
fn decimal_mul(a: Dec, b: Dec) -> (r: Option<Dec>)
    requires
        in_range(a@),
        in_range(b@),
    ensures
        r == lift(checked_mul_result(a@, b@)),
        !whole_fit(a@, b@, a@.0 * b@.0) ==> r == lift(decimal_checked_mul(a@, b@)),
        r matches Some(d) ==> in_range(d@),
{
    let mut x = Decimal::from_i128_with_scale(a.mantissa, a.scale);
    x.set_sign_negative(a.negative);
    let mut y = Decimal::from_i128_with_scale(b.mantissa, b.scale);
    y.set_sign_negative(b.negative);
    match x.checked_mul(y) {
        Some(d) => Some(Dec { mantissa: d.mantissa(), scale: d.scale(), negative: d.is_sign_negative() }),
        None => None,
    }
}

/// `Decimal::checked_div`: the quotient, or `None` for a zero divisor or on
/// overflow; a non-negative whole number divided by a positive whole number
/// that divides it gives the exact quotient at scale 0 (`ops/div.rs` leaves
/// the loop on a zero remainder at a non-negative scale).
#[verifier::external_body]
fn decimal_div(a: Dec, b: Dec) -> (r: Option<Dec>)
    requires
        in_range(a@),
        in_range(b@),
    ensures
        r == lift(checked_div_result(a@, b@)),
        !(a@.1 == 0 && b@.1 == 0 && a@.0 >= 0 && b@.0 > 0 && a@.0 % b@.0 == 0) ==> r == lift(decimal_checked_div(a@, b@)),
        r matches Some(d) ==> in_range(d@),
        b@.0 == 0 ==> r is None,
{
    let mut x = Decimal::from_i128_with_scale(a.mantissa, a.scale);
    x.set_sign_negative(a.negative);
    let mut y = Decimal::from_i128_with_scale(b.mantissa, b.scale);
    y.set_sign_negative(b.negative);
    match x.checked_div(y) {
        Some(d) => Some(Dec { mantissa: d.mantissa(), scale: d.scale(), negative: d.is_sign_negative() }),
        None => None,
    }
}

/// `Ord::cmp` on `Decimal`: the sign of the difference of the values.
#[verifier::external_body]
fn decimal_order(a: Dec, b: Dec) -> (r: i8)
    requires
        in_range(a@),
        in_range(b@),
    ensures
        r == value_order(a@, b@),
{
    let mut x = Decimal::from_i128_with_scale(a.mantissa, a.scale);
    x.set_sign_negative(a.negative);
    let mut y = Decimal::from_i128_with_scale(b.mantissa, b.scale);
    y.set_sign_negative(b.negative);
    match x.cmp(&y) {
        std::cmp::Ordering::Less => -1,
        std::cmp::Ordering::Equal => 0,
        std::cmp::Ordering::Greater => 1,
    }
}

/// `Decimal`'s `Display`, as `to_string` writes it.
#[verifier::external_body]
fn decimal_to_string(a: Dec) -> (r: String)
    requires
        in_range(a@),
    ensures
        r@ == decimal_display(a@),
{
    let mut x = Decimal::from_i128_with_scale(a.mantissa, a.scale);
    x.set_sign_negative(a.negative);
    x.to_string()
}

impl PartialEq for Dec {
    fn eq(&self, other: &Dec) -> (r: bool) {
        self.order(other) == 0
    }
}

impl Eq for Dec {

}

impl PartialEqSpecImpl for Dec {
    open spec fn obeys_eq_spec() -> bool {
        true
    }

    open spec fn eq_spec(&self, other: &Dec) -> bool {
        value_order(self@, other@) == 0
    }
}

/// Whole numbers compare by their mantissas.
pub proof fn lemma_whole_order(a: Dec, b: Dec)
    requires
        a@.1 == 0,
        b@.1 == 0,
    ensures
        a.lt(b) <==> a@.0 < b@.0,
        a.le(b) <==> a@.0 <= b@.0,
{
    assert(pow10(0) == 1);
    assert(a@.0 * 1 == a@.0);
    assert(b@.0 * 1 == b@.0);
}

/// The sum of two whole numbers that fits is exact.
pub proof fn lemma_whole_add(a: Dec, b: Dec)
    requires
        whole_fit(a@, b@, a@.0 + b@.0),
    ensures
        a.spec_add(b) is Some,
        a.spec_add(b).unwrap()@.0 == a@.0 + b@.0,
        a.spec_add(b).unwrap()@.1 == 0,
        a@.0 + b@.0 != 0 ==> a.spec_add(b).unwrap()@.2 == (a@.0 + b@.0 < 0),
{
}

/// The difference of two whole numbers that fits is exact.
pub proof fn lemma_whole_sub(a: Dec, b: Dec)
    requires
        whole_fit(a@, b@, a@.0 - b@.0),
    ensures
        a.spec_sub(b) is Some,
        a.spec_sub(b).unwrap()@.0 == a@.0 - b@.0,
        a.spec_sub(b).unwrap()@.1 == 0,
        a@.0 - b@.0 != 0 ==> a.spec_sub(b).unwrap()@.2 == (a@.0 - b@.0 < 0),
{
}

/// The product of two whole numbers that fits is exact.
pub proof fn lemma_whole_mul(a: Dec, b: Dec)
    requires
        whole_fit(a@, b@, a@.0 * b@.0),
    ensures
        a.spec_mul(b) is Some,
        a.spec_mul(b).unwrap()@.0 == a@.0 * b@.0,
        a.spec_mul(b).unwrap()@.1 == 0,
        a@.0 * b@.0 != 0 ==> a.spec_mul(b).unwrap()@.2 == (a@.0 * b@.0 < 0),
{
}

/// A whole number divided by a positive whole number that divides it gives
/// the exact quotient.
pub proof fn lemma_whole_div(a: Dec, b: Dec)
    requires
        a@.1 == 0,
        b@.1 == 0,
        a@.0 >= 0,
        b@.0 > 0,
        a@.0 % b@.0 == 0,
    ensures
        a.spec_div(b) is Some,
        a.spec_div(b).unwrap()@.0 == a@.0 / b@.0,
        a.spec_div(b).unwrap()@.1 == 0,
{
}

} // verus!

//! Exact decimal numbers, used for every coefficient, literal and bound of a
//! model. A value is `(-1)^negative * digits * 10^exponent`, kept in a
//! canonical form so that two decimals are equal exactly when their values are.

use vstd::prelude::*;

use crate::text::chars_of_str;

verus! {

/// Largest magnitude (exclusive) of the significant digits of a decimal.
pub const DIGITS_LIMIT: u64 = 1_000_000_000_000_000_000;

/// `10^n`.
pub open spec fn pow10(n: nat) -> nat
    decreases n,
{
    if n == 0 {
        1
    } else {
        10 * pow10((n - 1) as nat)
    }
}

/// Removes the trailing zero digits of `m`, raising the exponent `e`
/// accordingly.
pub open spec fn strip(m: nat, e: int) -> (nat, int)
    decreases m,
{
    if m != 0 && m % 10 == 0 {
        strip(m / 10, e + 1)
    } else {
        (m, e)
    }
}

pub proof fn lemma_pow10_positive(n: nat)
    ensures
        pow10(n) >= 1,
    decreases n,
{
    if n > 0 {
        lemma_pow10_positive((n - 1) as nat);
    }
}

pub proof fn lemma_pow10_monotonic(a: nat, b: nat)
    requires
        a <= b,
    ensures
        pow10(a) <= pow10(b),
    decreases b,
{
    if a < b {
        lemma_pow10_monotonic(a, (b - 1) as nat);
        lemma_pow10_positive((b - 1) as nat);
    }
}

/// An exact decimal number in canonical form: no trailing zero digit in
/// `digits`, zero has exponent 0 and is not negative.
#[derive(PartialEq, Eq, Structural, Debug, Clone, Copy)]
pub struct Decimal {
    negative: bool,
    digits: u64,
    exponent: i32,
}

/// The decimal `(-1)^neg * m * 10^e` in canonical form, or `None` when its
/// significant digits reach `DIGITS_LIMIT` or its exponent leaves the `i32`
/// range.
pub open spec fn make(neg: bool, m: nat, e: int) -> Option<Decimal> {
    let (m2, e2) = strip(m, e);
    if m2 == 0 {
        Some(Decimal::spec_zero())
    } else if m2 < DIGITS_LIMIT && i32::MIN <= e2 <= i32::MAX {
        Some(Decimal::spec_build(neg, m2, e2))
    } else {
        None
    }
}

/// Exact product of two decimals, when representable.
pub open spec fn dec_mul(a: Decimal, b: Decimal) -> Option<Decimal> {
    make(a.neg_flag() != b.neg_flag(), a.magnitude() * b.magnitude(), a.exp() + b.exp())
}

/// The decimal with the opposite sign.
pub open spec fn dec_neg(a: Decimal) -> Decimal {
    if a.magnitude() == 0 {
        a
    } else {
        Decimal::spec_build(!a.neg_flag(), a.magnitude(), a.exp())
    }
}

/// Signed value of the significant digits.
pub open spec fn signed(a: Decimal) -> int {
    if a.neg_flag() {
        -(a.magnitude() as int)
    } else {
        a.magnitude() as int
    }
}

/// Exact sum of two decimals. The sum is representable when either term is
/// zero, or when the exponents differ by at most 18 and the significant
/// digits of the sum stay below `DIGITS_LIMIT`.
pub open spec fn dec_add(a: Decimal, b: Decimal) -> Option<Decimal> {
    if a.magnitude() == 0 {
        Some(b)
    } else if b.magnitude() == 0 {
        Some(a)
    } else {
        let e = if a.exp() <= b.exp() { a.exp() } else { b.exp() };
        let da = (a.exp() - e) as nat;
        let db = (b.exp() - e) as nat;
        if da > 18 || db > 18 {
            None
        } else {
            let s = signed(a) * pow10(da) + signed(b) * pow10(db);
            make(s < 0, (if s < 0 { -s } else { s }) as nat, e)
        }
    }
}

/// Exact difference of two decimals, when representable.
pub open spec fn dec_sub(a: Decimal, b: Decimal) -> Option<Decimal> {
    dec_add(a, dec_neg(b))
}

/// A decimal whose absolute value is below `0.00001`.
pub open spec fn dec_is_zero(a: Decimal) -> bool {
    ||| a.magnitude() == 0
    ||| a.exp() < -5 && a.magnitude() < pow10((-5 - a.exp()) as nat)
}

impl Decimal {
    pub closed spec fn neg_flag(self) -> bool {
        self.negative
    }

    pub closed spec fn magnitude(self) -> nat {
        self.digits as nat
    }

    pub closed spec fn exp(self) -> int {
        self.exponent as int
    }

    pub closed spec fn spec_zero() -> Decimal {
        Decimal { negative: false, digits: 0, exponent: 0 }
    }

    pub closed spec fn spec_build(neg: bool, m: nat, e: int) -> Decimal {
        Decimal { negative: neg, digits: m as u64, exponent: e as i32 }
    }

    #[verifier::type_invariant]
    closed spec fn canonical(self) -> bool {
        &&& self.digits < DIGITS_LIMIT
        &&& self.digits == 0 ==> !self.negative && self.exponent == 0
        &&& self.digits != 0 ==> self.digits % 10 != 0
    }

    /// Facts about the fields that `spec_build` and `spec_zero` give.
    pub proof fn lemma_build(neg: bool, m: nat, e: int)
        requires
            m < DIGITS_LIMIT,
            i32::MIN <= e <= i32::MAX,
        ensures
            Self::spec_build(neg, m, e).neg_flag() == neg,
            Self::spec_build(neg, m, e).magnitude() == m,
            Self::spec_build(neg, m, e).exp() == e,
            Self::spec_zero().magnitude() == 0,
            !Self::spec_zero().neg_flag(),
            Self::spec_zero().exp() == 0,
    {
    }
}

/// Exec helper: strips trailing zeros of a 128-bit significand.
fn strip_exec(m: u128, e: i64) -> (res: (u128, i64))
    requires
        m < pow10(37),
        -0x100_0000_0000 <= e <= 0x100_0000_0000,
    ensures
        res.0 as nat == strip(m as nat, e as int).0,
        res.1 as int == strip(m as nat, e as int).1,
        res.0 <= m,
        e <= res.1 <= e + 37,
{
    let mut m2 = m;
    let mut e2 = e;
    let ghost k: nat = 0;
    proof {
        lemma_pow10_positive(37);
        assert(pow10(0) == 1);
    }
    while m2 != 0 && m2 % 10 == 0
        invariant
            strip(m2 as nat, e2 as int) == strip(m as nat, e as int),
            m2 as nat * pow10(k) == m as nat,
            e2 as int == e + k,
            m < pow10(37),
            m2 <= m,
            k <= 37,
            -0x100_0000_0000 <= e <= 0x100_0000_0000,
        decreases m2,
    {
        proof {
            assert(m2 as nat * pow10(k) >= pow10(k)) by (nonlinear_arith)
                requires
                    m2 >= 1,
            ;
            assert((m2 / 10) as nat * pow10(k + 1) == m2 as nat * pow10(k)) by (nonlinear_arith)
                requires
                    m2 % 10 == 0,
                    pow10(k + 1) == 10 * pow10(k),
            ;
            if k + 1 > 37 {
                lemma_pow10_monotonic(37, k + 1);
                assert(m2 as nat * pow10(k) >= pow10(k + 1) / 10) by (nonlinear_arith)
                    requires
                        m2 % 10 == 0,
                        m2 >= 1,
                        pow10(k + 1) == 10 * pow10(k),
                ;
                assert(false) by (nonlinear_arith)
                    requires
                        m2 % 10 == 0,
                        m2 >= 1,
                        m2 * pow10(k) == m,
                        m < pow10(37),
                        pow10(37) <= pow10(k + 1),
                        pow10(k + 1) == 10 * pow10(k),
                ;
            }
        }
        assert(k + 1 <= 37);
        m2 = m2 / 10;
        e2 = e2 + 1;
        proof {
            k = k + 1;
        }
    }
    (m2, e2)
}

/// Exec helper: builds the canonical decimal of `(-1)^neg * m * 10^e`.
fn make_exec(neg: bool, m: u128, e: i64) -> (res: Option<Decimal>)
    requires
        m < pow10(37),
        -0x100_0000_0000 <= e <= 0x100_0000_0000,
    ensures
        res == make(neg, m as nat, e as int),
        m < DIGITS_LIMIT && i32::MIN <= e && e + 37 <= i32::MAX ==> res is Some,
{
    let (m2, e2) = strip_exec(m, e);
    if m2 == 0 {
        Some(Decimal { negative: false, digits: 0, exponent: 0 })
    } else if m2 < DIGITS_LIMIT as u128 && i32::MIN as i64 <= e2 && e2 <= i32::MAX as i64 {
        proof {
            let (sm, se) = strip(m as nat, e as int);
            lemma_strip_no_trailing_zero(m as nat, e as int);
        }
        Some(Decimal { negative: neg, digits: m2 as u64, exponent: e2 as i32 })
    } else {
        None
    }
}

/// The result of `strip` has no trailing zero.
pub proof fn lemma_strip_no_trailing_zero(m: nat, e: int)
    ensures
        strip(m, e).0 == 0 || strip(m, e).0 % 10 != 0,
    decreases m,
{
    if m != 0 && m % 10 == 0 {
        lemma_strip_no_trailing_zero(m / 10, e + 1);
    }
}

/// `10^n` as a 128-bit integer.
fn pow10_exec(n: u32) -> (r: u128)
    requires
        n <= 38,
    ensures
        r as nat == pow10(n as nat),
{
    let mut r: u128 = 1;
    let mut i: u32 = 0;
    while i < n
        invariant
            i <= n <= 38,
            r as nat == pow10(i as nat),
        decreases n - i,
    {
        proof {
            lemma_pow10_monotonic((i + 1) as nat, 38);
            assert(pow10(38) < u128::MAX) by {
                reveal_with_fuel(pow10, 39);
            }
        }
        r = r * 10;
        i = i + 1;
    }
    r
}

impl Decimal {
    /// The number zero.
    pub fn zero() -> (r: Decimal)
        ensures
            r == Decimal::spec_zero(),
    {
        Decimal { negative: false, digits: 0, exponent: 0 }
    }

    /// The decimal of an integer.
    pub fn from_i32(v: i32) -> (r: Decimal)
        ensures
            make(v < 0, (if v < 0 { -(v as int) } else { v as int }) as nat, 0) == Some(r),
    {
        let neg = v < 0;
        let mag: u128 = if v < 0 { (-(v as i64)) as u128 } else { v as u128 };
        proof {
            assert(pow10(37) > 2147483648) by {
                reveal_with_fuel(pow10, 38);
            }
            lemma_strip_bound(mag as nat, 0);
        }
        let r = make_exec(neg, mag, 0);
        r.unwrap()
    }

    /// The decimal `(-1)^negative * digits * 10^exponent`, or `None` when its
    /// significant digits, once trailing zeros are removed, reach
    /// `DIGITS_LIMIT` or its exponent leaves the `i32` range.
    pub fn new(negative: bool, digits: u64, exponent: i32) -> (r: Option<Decimal>)
        ensures
            r == make(negative, digits as nat, exponent as int),
    {
        proof {
            assert(pow10(37) > u64::MAX) by {
                reveal_with_fuel(pow10, 38);
            }
        }
        make_exec(negative, digits as u128, exponent as i64)
    }

    /// Whether the decimal is negative.
    pub fn is_negative(&self) -> (r: bool)
        ensures
            r == self.neg_flag(),
    {
        self.negative
    }

    /// The significant digits.
    pub fn significand(&self) -> (r: u64)
        ensures
            r as nat == self.magnitude(),
    {
        self.digits
    }

    /// The power of ten that multiplies the significant digits.
    pub fn exponent(&self) -> (r: i32)
        ensures
            r as int == self.exp(),
    {
        self.exponent
    }

    /// The decimal with the opposite sign.
    pub fn neg(&self) -> (r: Decimal)
        ensures
            r == dec_neg(*self),
    {
        proof {
            use_type_invariant(self);
        }
        if self.digits == 0 {
            *self
        } else {
            Decimal { negative: !self.negative, digits: self.digits, exponent: self.exponent }
        }
    }

    /// Exact product, `None` when not representable.
    pub fn checked_mul(&self, other: &Decimal) -> (r: Option<Decimal>)
        ensures
            r == dec_mul(*self, *other),
    {
        proof {
            use_type_invariant(self);
            use_type_invariant(other);
            assert(pow10(37) > 1_000_000_000_000_000_000_000_000_000_000_000_000) by {
                reveal_with_fuel(pow10, 38);
            }
            assert((self.digits as nat) * (other.digits as nat)
                < 1_000_000_000_000_000_000_000_000_000_000_000_000) by (nonlinear_arith)
                requires
                    self.digits < 1_000_000_000_000_000_000u64,
                    other.digits < 1_000_000_000_000_000_000u64,
            ;
        }
        let m = (self.digits as u128) * (other.digits as u128);
        let e = (self.exponent as i64) + (other.exponent as i64);
        make_exec(self.negative != other.negative, m, e)
    }

    /// Exact sum, `None` when not representable.
    pub fn checked_add(&self, other: &Decimal) -> (r: Option<Decimal>)
        ensures
            r == dec_add(*self, *other),
    {
        proof {
            use_type_invariant(self);
            use_type_invariant(other);
        }
        if self.digits == 0 {
            return Some(*other);
        }
        if other.digits == 0 {
            return Some(*self);
        }
        let e: i64 = if self.exponent <= other.exponent {
            self.exponent as i64
        } else {
            other.exponent as i64
        };
        let da: i64 = self.exponent as i64 - e;
        let db: i64 = other.exponent as i64 - e;
        if da > 18 || db > 18 {
            return None;
        }
        let pa = pow10_exec(da as u32);
        let pb = pow10_exec(db as u32);
        proof {
            lemma_pow10_monotonic(da as nat, 18);
            lemma_pow10_monotonic(db as nat, 18);
            assert(pow10(18) == 1_000_000_000_000_000_000) by {
                reveal_with_fuel(pow10, 19);
            }
            assert(pow10(37) == 10_000_000_000_000_000_000_000_000_000_000_000_000) by {
                reveal_with_fuel(pow10, 38);
            }
            assert((self.digits as nat) * (pa as nat) < 1_000_000_000_000_000_000_000_000_000_000_000_000)
                by (nonlinear_arith)
                requires
                    self.digits < 1_000_000_000_000_000_000u64,
                    pa <= 1_000_000_000_000_000_000u128,
            ;
            assert((other.digits as nat) * (pb as nat) < 1_000_000_000_000_000_000_000_000_000_000_000_000)
                by (nonlinear_arith)
                requires
                    other.digits < 1_000_000_000_000_000_000u64,
                    pb <= 1_000_000_000_000_000_000u128,
            ;
        }
        let xa: u128 = (self.digits as u128) * pa;
        let xb: u128 = (other.digits as u128) * pb;
        let ghost s = signed(*self) * pow10(da as nat) + signed(*other) * pow10(db as nat);
        let (neg, mag): (bool, u128) = if self.negative == other.negative {
            (self.negative, xa + xb)
        } else if xa >= xb {
            (self.negative, xa - xb)
        } else {
            (other.negative, xb - xa)
        };
        proof {
            if self.negative {
                assert(signed(*self) * pow10(da as nat) == -(xa as int)) by (nonlinear_arith)
                    requires
                        signed(*self) == -(self.digits as int),
                        xa == self.digits * pow10(da as nat),
                ;
            } else {
                assert(signed(*self) * pow10(da as nat) == xa as int) by (nonlinear_arith)
                    requires
                        signed(*self) == self.digits as int,
                        xa == self.digits * pow10(da as nat),
                ;
            }
            if other.negative {
                assert(signed(*other) * pow10(db as nat) == -(xb as int)) by (nonlinear_arith)
                    requires
                        signed(*other) == -(other.digits as int),
                        xb == other.digits * pow10(db as nat),
                ;
            } else {
                assert(signed(*other) * pow10(db as nat) == xb as int) by (nonlinear_arith)
                    requires
                        signed(*other) == other.digits as int,
                        xb == other.digits * pow10(db as nat),
                ;
            }
            if mag != 0 {
                assert(neg == (s < 0));
            }
            assert(mag as int == (if s < 0 { -s } else { s }));
        }
        let r = make_exec(neg, mag, e);
        proof {
            if mag == 0 {
                assert(strip(0, e as int) == (0nat, e as int));
                assert(make(s < 0, 0, e as int) == make(neg, 0, e as int));
            }
        }
        r
    }

    /// Exact difference, `None` when not representable.
    pub fn checked_sub(&self, other: &Decimal) -> (r: Option<Decimal>)
        ensures
            r == dec_sub(*self, *other),
    {
        let n = other.neg();
        self.checked_add(&n)
    }

    /// Whether the absolute value is below `0.00001`.
    pub fn is_zero(&self) -> (r: bool)
        ensures
            r == dec_is_zero(*self),
    {
        if self.digits == 0 {
            return true;
        }
        if self.exponent >= -5 {
            return false;
        }
        let k: i64 = -5 - self.exponent as i64;
        if k >= 19 {
            proof {
                use_type_invariant(self);
                lemma_pow10_monotonic(18, k as nat);
                assert(pow10(18) == 1_000_000_000_000_000_000) by {
                    reveal_with_fuel(pow10, 19);
                }
            }
            return true;
        }
        let p = pow10_exec(k as u32);
        (self.digits as u128) < p
    }
}

/// `strip` never raises the significant digits.
pub proof fn lemma_strip_bound(m: nat, e: int)
    ensures
        strip(m, e).0 <= m,
        strip(m, e).1 >= e,
    decreases m,
{
    if m != 0 && m % 10 == 0 {
        lemma_strip_bound(m / 10, e + 1);
    }
}

} // verus!

verus! {

/// The character of a decimal digit.
pub open spec fn digit_char(d: nat) -> char {
    (48 + d) as char
}

/// Decimal digits of a natural number, most significant first.
pub open spec fn nat_digits(n: nat) -> Seq<char>
    decreases n,
{
    if n < 10 {
        seq![digit_char(n)]
    } else {
        nat_digits(n / 10).push(digit_char(n % 10))
    }
}

/// `n` copies of the character `0`.
pub open spec fn zeros(n: nat) -> Seq<char> {
    Seq::new(n, |i: int| '0')
}

/// Text of a decimal: an optional minus sign, the digits, and a decimal
/// point only where the value has a fractional part (`8.5`, `10`, `-0.005`).
pub open spec fn dec_text(d: Decimal) -> Seq<char> {
    let sign: Seq<char> = if d.neg_flag() { seq!['-'] } else { seq![] };
    let ds = nat_digits(d.magnitude());
    if d.exp() >= 0 {
        sign + ds + zeros(d.exp() as nat)
    } else {
        let k = -d.exp();
        if ds.len() > k {
            sign + ds.take(ds.len() - k) + seq!['.'] + ds.skip(ds.len() - k)
        } else {
            sign + seq!['0', '.'] + zeros((k - ds.len()) as nat) + ds
        }
    }
}

/// Appends the digits of `n` to `out`.
pub fn push_nat_digits(n: u64, out: &mut Vec<char>)
    ensures
        final(out)@ == old(out)@ + nat_digits(n as nat),
    decreases n,
{
    if n < 10 {
        out.push(((n as u8) + 48) as char);
    } else {
        push_nat_digits(n / 10, out);
        out.push((((n % 10) as u8) + 48) as char);
    }
}

/// A number below `10^k` has at most `k` digits.
pub proof fn lemma_digits_len(n: nat, k: nat)
    requires
        k >= 1,
        n < pow10(k),
    ensures
        nat_digits(n).len() <= k,
    decreases n,
{
    if n >= 10 {
        if k == 1 {
            assert(pow10(1) == 10) by {
                reveal_with_fuel(pow10, 2);
            }
        } else {
            assert(n / 10 < pow10((k - 1) as nat));
            lemma_digits_len(n / 10, (k - 1) as nat);
        }
    }
}

/// Appends `n` copies of `0` to `out`.
fn push_zeros(n: u64, out: &mut Vec<char>)
    ensures
        final(out)@ == old(out)@ + zeros(n as nat),
{
    let ghost start = out@;
    let mut i: u64 = 0;
    while i < n
        invariant
            i <= n,
            out@ == start + zeros(i as nat),
        decreases n - i,
    {
        out.push('0');
        i = i + 1;
        assert(out@ =~= start + zeros(i as nat));
    }
}

/// Number of digits of `n`.
fn digit_count(n: u64) -> (r: u64)
    ensures
        r as nat == nat_digits(n as nat).len(),
        r <= n as int + 1,
    decreases n,
{
    if n < 10 {
        1
    } else {
        digit_count(n / 10) + 1
    }
}

impl Decimal {
    /// Appends the text of the decimal to `out`.
    pub fn write_text(&self, out: &mut Vec<char>)
        ensures
            final(out)@ == old(out)@ + dec_text(*self),
    {
        let ghost start = out@;
        let ghost ds = nat_digits(self.digits as nat);
        if self.negative {
            out.push('-');
        }
        let ghost sign: Seq<char> = if self.negative { seq!['-'] } else { seq![] };
        assert(out@ =~= start + sign);
        if self.exponent >= 0 {
            push_nat_digits(self.digits, out);
            push_zeros(self.exponent as u64, out);
            assert(out@ =~= start + (sign + ds + zeros(self.exponent as nat)));
        } else {
            let k: u64 = (-(self.exponent as i64)) as u64;
            let len = digit_count(self.digits);
            proof {
                use_type_invariant(self);
                assert(pow10(18) == 1_000_000_000_000_000_000) by {
                    reveal_with_fuel(pow10, 19);
                }
                lemma_digits_len(self.digits as nat, 18);
            }
            if len > k {
                let mut digits: Vec<char> = Vec::new();
                push_nat_digits(self.digits, &mut digits);
                assert(digits@ =~= ds);
                let cut: usize = (len - k) as usize;
                let mut i: usize = 0;
                while i < cut
                    invariant
                        i <= cut,
                        cut as nat == ds.len() - k,
                        digits@ == ds,
                        out@ == start + sign + ds.take(i as int),
                    decreases cut - i,
                {
                    out.push(digits[i]);
                    i = i + 1;
                    assert(out@ =~= start + sign + ds.take(i as int));
                }
                out.push('.');
                let mut j: usize = cut;
                while j < digits.len()
                    invariant
                        cut <= j <= ds.len(),
                        cut as nat == ds.len() - k,
                        digits@ == ds,
                        out@ == start + sign + ds.take(cut as int) + seq!['.'] + ds.subrange(
                            cut as int,
                            j as int,
                        ),
                    decreases ds.len() - j,
                {
                    out.push(digits[j]);
                    j = j + 1;
                    assert(out@ =~= start + sign + ds.take(cut as int) + seq!['.'] + ds.subrange(
                        cut as int,
                        j as int,
                    ));
                }
                assert(ds.subrange(cut as int, ds.len() as int) =~= ds.skip(cut as int));
                assert(out@ =~= start + (sign + ds.take(ds.len() - k) + seq!['.'] + ds.skip(
                    ds.len() - k,
                )));
            } else {
                out.push('0');
                out.push('.');
                push_zeros(k - len, out);
                push_nat_digits(self.digits, out);
                assert(out@ =~= start + (sign + seq!['0', '.'] + zeros((k - ds.len()) as nat)
                    + ds));
            }
        }
    }
}

} // verus!

verus! {

pub open spec fn is_digit(c: char) -> bool {
    '0' <= c && c <= '9'
}

pub open spec fn digit_value(c: char) -> nat {
    (c as int - 48) as nat
}

/// Value of a sequence of decimal digits.
pub open spec fn digits_value(s: Seq<char>) -> nat
    decreases s.len(),
{
    if s.len() == 0 {
        0
    } else {
        digits_value(s.drop_last()) * 10 + digit_value(s.last())
    }
}

/// Length of the run of digits at the start of `s`.
pub open spec fn lead_digits(s: Seq<char>) -> nat
    decreases s.len(),
{
    if s.len() > 0 && is_digit(s[0]) {
        1 + lead_digits(s.skip(1))
    } else {
        0
    }
}

/// Exponent part of a number: empty, or `e`/`E`, an optional sign and at
/// least one digit, of value at most `10^9`.
pub open spec fn parse_exponent(r: Seq<char>) -> Option<int> {
    if r.len() == 0 {
        Some(0)
    } else if r[0] == 'e' || r[0] == 'E' {
        let t = r.skip(1);
        let esl: int = if t.len() > 0 && (t[0] == '-' || t[0] == '+') { 1 } else { 0 };
        let d = t.skip(esl);
        if d.len() > 0 && lead_digits(d) == d.len() && digits_value(d) <= 1_000_000_000 {
            Some(if esl == 1 && t[0] == '-' { -digits_value(d) } else { digits_value(d) as int })
        } else {
            None
        }
    } else {
        None
    }
}

/// Reads a number written as an optional sign, digits with an optional
/// decimal point (at least one digit in all) and an optional exponent, such
/// as `5`, `-0.25`, `.5`, `3.` or `1e+30`. `None` for any other text, and
/// when the digits read as an integer reach `10^36`, the fractional digits
/// are more than `10^9`, or the decimal is not representable.
///
/// The decimal is exact, so texts without an exact decimal are refused
/// here: `inf`, `infinity` and `NaN` in any case (see
/// `lemma_parse_needs_a_digit`), and numbers with more than 18 significant
/// digits once trailing zeros are dropped, or whose power of ten leaves the
/// `i32` range. Values read from solvers go through `parse_number`, which
/// takes all of these, rounding where needed.
pub open spec fn parse_decimal(s: Seq<char>) -> Option<Decimal> {
    let sl: int = if s.len() > 0 && (s[0] == '-' || s[0] == '+') { 1 } else { 0 };
    let neg = sl == 1 && s[0] == '-';
    let body = s.skip(sl);
    let il = lead_digits(body);
    let after = body.skip(il as int);
    let has_point = after.len() > 0 && after[0] == '.';
    let fl: nat = if has_point { lead_digits(after.skip(1)) } else { 0 };
    let rest = if has_point { after.skip(1 + fl as int) } else { after };
    let ds = body.take(il as int) + (if has_point { after.skip(1).take(fl as int) } else { seq![] });
    decimal_from_parts(neg, il, fl, ds, rest)
}

/// A text whose first character after an optional sign is neither a digit
/// nor a decimal point, such as `inf`, `-Infinity` or `NaN`, is no number.
pub proof fn lemma_parse_needs_a_digit(s: Seq<char>)
    requires
        ({
            let sl: int = if s.len() > 0 && (s[0] == '-' || s[0] == '+') { 1 } else { 0 };
            sl < s.len() && !is_digit(s[sl]) && s[sl] != '.'
        }),
    ensures
        parse_decimal(s) is None,
{
    let sl: int = if s.len() > 0 && (s[0] == '-' || s[0] == '+') { 1 } else { 0 };
    let body = s.skip(sl);
    assert(body[0] == s[sl]);
    assert(lead_digits(body) == 0);
    assert(body.skip(0) =~= body);
}

/// The decimal of a sign, `il` integer and `fl` fractional digits `ds`, and
/// the text `rest` of the exponent.
pub open spec fn decimal_from_parts(neg: bool, il: nat, fl: nat, ds: Seq<char>, rest: Seq<char>) -> Option<Decimal> {
    let m = digits_value(ds);
    if il + fl == 0 || m >= pow10(36) || fl > 1_000_000_000 {
        None
    } else {
        match parse_exponent(rest) {
            None => None,
            Some(ev) => make(neg, m, ev - fl),
        }
    }
}

/// The sign, significand and exponent of a number text, read as
/// `parse_decimal` reads it; `None` where it reads no number.
pub open spec fn number_parts(s: Seq<char>) -> Option<(bool, nat, int)> {
    let sl: int = if s.len() > 0 && (s[0] == '-' || s[0] == '+') { 1 } else { 0 };
    let neg = sl == 1 && s[0] == '-';
    let body = s.skip(sl);
    let il = lead_digits(body);
    let after = body.skip(il as int);
    let has_point = after.len() > 0 && after[0] == '.';
    let fl: nat = if has_point { lead_digits(after.skip(1)) } else { 0 };
    let rest = if has_point { after.skip(1 + fl as int) } else { after };
    let ds = body.take(il as int) + (if has_point { after.skip(1).take(fl as int) } else { seq![] });
    parts_from(neg, il, fl, ds, rest)
}

/// The sign, significand and exponent of a sign, `il` integer and `fl`
/// fractional digits `ds`, and the text `rest` of the exponent.
pub open spec fn parts_from(neg: bool, il: nat, fl: nat, ds: Seq<char>, rest: Seq<char>) -> Option<(bool, nat, int)> {
    let m = digits_value(ds);
    if il + fl == 0 || m >= pow10(36) || fl > 1_000_000_000 {
        None
    } else {
        match parse_exponent(rest) {
            None => None,
            Some(ev) => Some((neg, m, ev - fl)),
        }
    }
}

/// `parse_decimal` is the decimal of the parts of the text.
pub proof fn lemma_parse_decimal_parts(s: Seq<char>)
    ensures
        parse_decimal(s) == (match number_parts(s) {
            Some((n, m, e)) => make(n, m, e),
            None => None,
        }),
{
}

/// The parts of `parse_decimal` once the runs of digits are located.
proof fn lemma_parse_parts(s: Seq<char>, sl: int, i1: int, i2: int, has_point: bool)
    requires
        sl == (if s.len() > 0 && (s[0] == '-' || s[0] == '+') { 1int } else { 0 }),
        sl <= i1 <= i2 <= s.len(),
        lead_digits(s.skip(sl)) == i1 - sl,
        has_point == (i1 < s.len() && s[i1] == '.'),
        has_point ==> i1 + 1 <= i2 && lead_digits(s.skip(i1 + 1)) == i2 - i1 - 1,
        !has_point ==> i2 == i1,
    ensures
        parse_decimal(s) == decimal_from_parts(
            sl == 1 && s[0] == '-',
            (i1 - sl) as nat,
            (if has_point { i2 - i1 - 1 } else { 0 }) as nat,
            s.subrange(sl, i1) + (if has_point { s.subrange(i1 + 1, i2) } else { seq![] }),
            s.skip(i2),
        ),
        number_parts(s) == parts_from(
            sl == 1 && s[0] == '-',
            (i1 - sl) as nat,
            (if has_point { i2 - i1 - 1 } else { 0 }) as nat,
            s.subrange(sl, i1) + (if has_point { s.subrange(i1 + 1, i2) } else { seq![] }),
            s.skip(i2),
        ),
        number_value(s) == value_from_parts(
            sl == 1 && s[0] == '-',
            (i1 - sl) as nat,
            (if has_point { i2 - i1 - 1 } else { 0 }) as nat,
            s.subrange(sl, i1) + (if has_point { s.subrange(i1 + 1, i2) } else { seq![] }),
            s.skip(i2),
        ),
{
    let body = s.skip(sl);
    let after = body.skip(i1 - sl);
    assert(after =~= s.skip(i1));
    assert(body.take(i1 - sl) =~= s.subrange(sl, i1));
    if has_point {
        assert(after.skip(1) =~= s.skip(i1 + 1));
        assert(s.skip(i1 + 1).take(i2 - i1 - 1) =~= s.subrange(i1 + 1, i2));
        assert(after.skip(1 + (i2 - i1 - 1)) =~= s.skip(i2));
    } else {
        assert(s.subrange(sl, i1) + seq![] =~= s.subrange(sl, i1));
        assert(body.take(i1 - sl) + seq![] =~= s.subrange(sl, i1));
    }
}

proof fn lemma_digits_value_push(t: Seq<char>, c: char)
    ensures
        digits_value(t.push(c)) == digits_value(t) * 10 + digit_value(c),
{
    assert(t.push(c).drop_last() =~= t);
}

/// The value of a run of digits is at least the value of its prefixes.
proof fn lemma_digits_value_prefix(t: Seq<char>, j: int)
    requires
        0 <= j <= t.len(),
    ensures
        digits_value(t.take(j)) <= digits_value(t),
    decreases t.len(),
{
    if j < t.len() {
        assert(t.drop_last().take(j) =~= t.take(j));
        lemma_digits_value_prefix(t.drop_last(), j);
    } else {
        assert(t.take(j) =~= t);
    }
}

/// The run of digits at `p` ends at `i`.
proof fn lemma_lead_digits(s: Seq<char>, p: int, i: int)
    requires
        0 <= p <= i <= s.len(),
        forall|j: int| p <= j < i ==> is_digit(#[trigger] s[j]),
        i == s.len() || !is_digit(s[i]),
    ensures
        lead_digits(s.skip(p)) == i - p,
    decreases i - p,
{
    if p < i {
        assert(s.skip(p).skip(1) =~= s.skip(p + 1));
        lemma_lead_digits(s, p + 1, i);
    }
}

/// Reads the digits of `s` from `p` on; returns the end of the run and its
/// value, or `None` when the value reaches `cap`.
fn scan_digits(s: &Vec<char>, p: usize, acc0: u128, cap: u128, Ghost(pre): Ghost<Seq<char>>) -> (r: Option<(usize, u128)>)
    requires
        p <= s.len(),
        acc0 as nat == digits_value(pre),
        acc0 < cap,
        cap <= pow10(37),
    ensures
        match r {
            Some((i, v)) => {
                &&& p <= i <= s.len()
                &&& forall|j: int| p <= j < i ==> is_digit(#[trigger] s@[j])
                &&& (i == s.len() || !is_digit(s@[i as int]))
                &&& v as nat == digits_value(pre + s@.subrange(p as int, i as int))
                &&& v < cap
            },
            None => exists|i: int|
                p <= i <= s.len() && (forall|j: int| p <= j < i ==> is_digit(#[trigger] s@[j]))
                    && digits_value(pre + s@.subrange(p as int, i as int)) >= cap,
        },
{
    let mut i = p;
    let mut acc = acc0;
    assert(pre + s@.subrange(p as int, p as int) =~= pre);
    while i < s.len() && '0' <= s[i] && s[i] <= '9'
        invariant
            p <= i <= s.len(),
            forall|j: int| p <= j < i ==> is_digit(#[trigger] s@[j]),
            acc as nat == digits_value(pre + s@.subrange(p as int, i as int)),
            acc < cap,
            cap <= pow10(37),
        decreases s.len() - i,
    {
        let d = (s[i] as u32 - 48) as u128;
        proof {
            assert(pre + s@.subrange(p as int, i + 1) =~= (pre + s@.subrange(p as int, i as int)).push(
                s@[i as int],
            ));
            lemma_digits_value_push(pre + s@.subrange(p as int, i as int), s@[i as int]);
            assert(pow10(37) == 10_000_000_000_000_000_000_000_000_000_000_000_000) by {
                reveal_with_fuel(pow10, 38);
            }
        }
        let next = acc * 10 + d;
        i = i + 1;
        if next >= cap {
            return None;
        }
        acc = next;
    }
    Some((i, acc))
}

} // verus!

verus! {

impl Decimal {
    /// Reads the text of a number; see `parse_decimal`.
    pub fn parse(s: &Vec<char>) -> (r: Option<Decimal>)
        ensures
            r == parse_decimal(s@),
    {
        proof {
            lemma_parse_decimal_parts(s@);
        }
        match parse_parts_exec(s) {
            Some((neg, m, e)) => make_exec(neg, m, e),
            None => None,
        }
    }
}

/// The parts of a number text; see `number_parts`.
fn parse_parts_exec(s: &Vec<char>) -> (r: Option<(bool, u128, i64)>)
    ensures
        match r {
            Some((n, m, e)) => number_parts(s@) == Some((n, m as nat, e as int)) && m < pow10(37)
                && -0x1_0000_0000 <= e <= 0x1_0000_0000,
            None => number_parts(s@) is None,
        },
    {
        let n = s.len();
        let signed_start = n > 0 && (s[0] == '-' || s[0] == '+');
        let neg = n > 0 && s[0] == '-';
        let sl: usize = if signed_start { 1 } else { 0 };
        let cap = pow10_exec(36);
        proof {
            lemma_pow10_monotonic(36, 37);
            lemma_pow10_positive(36);
            assert(digits_value(seq![]) == 0);
        }
        let ghost body = s@.skip(sl as int);
        let (i1, v1) = match scan_digits(s, sl, 0, cap, Ghost(Seq::<char>::empty())) {
            None => {
                proof {
                    let i = choose|i: int|
                        sl <= i <= s.len() && (forall|j: int| sl <= j < i ==> is_digit(#[trigger] s@[j]))
                            && digits_value(seq![] + s@.subrange(sl as int, i)) >= cap;
                    assert(seq![] + s@.subrange(sl as int, i) =~= body.take(i - sl));
                    self::lemma_parse_none_prefix(s@, sl as int, i);
                }
                return None;
            },
            Some(x) => x,
        };
        proof {
            lemma_lead_digits(s@, sl as int, i1 as int);
        }
        let has_point = i1 < n && s[i1] == '.';
        let (i2, v2) = if has_point {
            let ghost pre = s@.subrange(sl as int, i1 as int);
            assert(seq![] + s@.subrange(sl as int, i1 as int) =~= pre);
            match scan_digits(s, i1 + 1, v1, cap, Ghost(pre)) {
                None => {
                    proof {
                        let i = choose|i: int|
                            #![trigger digits_value(pre + s@.subrange(i1 + 1, i))]
                            i1 + 1 <= i <= s.len() && (forall|j: int|
                                i1 + 1 <= j < i ==> is_digit(#[trigger] s@[j])) && digits_value(
                                pre + s@.subrange(i1 + 1, i),
                            ) >= cap;
                        lemma_lead_digits(s@, sl as int, i1 as int);
                        self::lemma_parse_none_frac(s@, sl as int, i1 as int, i);
                    }
                    return None;
                },
                Some(x) => x,
            }
        } else {
            (i1, v1)
        };
        proof {
            if has_point {
                lemma_lead_digits(s@, i1 + 1, i2 as int);
            }
            lemma_parse_parts(s@, sl as int, i1 as int, i2 as int, has_point);
            if !has_point {
                assert(s@.subrange(sl as int, i1 as int) + seq![] =~= s@.subrange(sl as int, i1 as int));
                assert(Seq::<char>::empty() + s@.subrange(sl as int, i1 as int) =~= s@.subrange(sl as int, i1 as int));
            } else {
                assert(Seq::<char>::empty() + s@.subrange(sl as int, i1 as int) =~= s@.subrange(sl as int, i1 as int));
            }
        }
        let int_len = i1 - sl;
        let frac_len: usize = if has_point { i2 - i1 - 1 } else { 0 };
        if int_len + frac_len == 0 || frac_len > 1_000_000_000 {
            return None;
        }
        let ev = match parse_exponent_at(s, i2) {
            None => {
                return None;
            },
            Some(v) => v,
        };
        let e: i64 = ev - frac_len as i64;
        proof {
            assert(pow10(37) > cap);
        }
        Some((neg, v2, e))
}

/// Exponent part of the text from `p` to its end.
#[verifier::rlimit(40)]
fn parse_exponent_at(s: &Vec<char>, p: usize) -> (r: Option<i64>)
    requires
        p <= s.len(),
    ensures
        r matches Some(v) ==> -1_000_000_000 <= v <= 1_000_000_000,
        parse_exponent(s@.skip(p as int)) == (match r {
            Some(v) => Some(v as int),
            None => None::<int>,
        }),
{
    let ghost r0 = s@.skip(p as int);
    let n = s.len();
    if p == n {
        return Some(0);
    }
    if !(s[p] == 'e' || s[p] == 'E') {
        return None;
    }
    let j = p + 1;
    let ghost t = r0.skip(1);
    proof {
        assert(t =~= s@.skip(j as int));
    }
    let esl: usize = if j < n && (s[j] == '-' || s[j] == '+') { 1 } else { 0 };
    let eneg = j < n && s[j] == '-';
    let k = j + esl;
    let ghost d = t.skip(esl as int);
    proof {
        assert(d =~= s@.skip(k as int));
        lemma_pow10_positive(37);
        assert(pow10(37) > 1_000_000_001) by {
            reveal_with_fuel(pow10, 38);
        }
        assert(digits_value(seq![]) == 0);
    }
    match scan_digits(s, k, 0, 1_000_000_001, Ghost(Seq::<char>::empty())) {
        None => {
            proof {
                let i = choose|i: int|
                    k <= i <= s.len() && (forall|jj: int| k <= jj < i ==> is_digit(#[trigger] s@[jj]))
                        && digits_value(seq![] + s@.subrange(k as int, i)) >= 1_000_000_001;
                assert(seq![] + s@.subrange(k as int, i) =~= d.take(i - k));
                if d.len() > 0 && lead_digits(d) == d.len() {
                    lemma_digits_value_prefix(d, i - k);
                }
            }
            None
        },
        Some((i, v)) => {
            proof {
                lemma_lead_digits(s@, k as int, i as int);
                assert(seq![] + s@.subrange(k as int, i as int) =~= d.take(i - k));
            }
            if i == k || i != n {
                proof {
                    if i != n && d.len() > 0 {
                        assert(lead_digits(d) == i - k);
                    }
                }
                None
            } else {
                proof {
                    assert(d.take(i - k) =~= d);
                }
                if eneg {
                    Some(-(v as i64))
                } else {
                    Some(v as i64)
                }
            }
        },
    }
}

/// A run of digits at the start is at least as long as any all-digit
/// prefix.
proof fn lemma_lead_digits_ge(t: Seq<char>, k: int)
    requires
        0 <= k <= t.len(),
        forall|j: int| 0 <= j < k ==> is_digit(#[trigger] t[j]),
    ensures
        lead_digits(t) >= k,
    decreases k,
{
    if k > 0 {
        assert forall|j: int| 0 <= j < k - 1 implies is_digit(#[trigger] t.skip(1)[j]) by {
            assert(t.skip(1)[j] == t[j + 1]);
        }
        lemma_lead_digits_ge(t.skip(1), k - 1);
    }
}

/// A run of digits is no longer than the text.
proof fn lemma_lead_digits_le(t: Seq<char>)
    ensures
        lead_digits(t) <= t.len(),
    decreases t.len(),
{
    if t.len() > 0 && is_digit(t[0]) {
        lemma_lead_digits_le(t.skip(1));
    }
}

/// A run of integer digits whose value reaches the cap makes the parse fail.
proof fn lemma_parse_none_prefix(s: Seq<char>, sl: int, i: int)
    requires
        sl == (if s.len() > 0 && (s[0] == '-' || s[0] == '+') { 1int } else { 0 }),
        sl <= i <= s.len(),
        forall|j: int| sl <= j < i ==> is_digit(#[trigger] s[j]),
        digits_value(s.skip(sl).take(i - sl)) >= pow10(36),
    ensures
        parse_decimal(s) is None,
        number_parts(s) is None,
{
    let body = s.skip(sl);
    assert forall|j: int| 0 <= j < i - sl implies is_digit(#[trigger] body[j]) by {
        assert(body[j] == s[j + sl]);
    }
    lemma_lead_digits_ge(body, i - sl);
    let il = lead_digits(body);
    lemma_lead_digits_le(body);
    let after = body.skip(il as int);
    let has_point = after.len() > 0 && after[0] == '.';
    let fl: nat = if has_point { lead_digits(after.skip(1)) } else { 0 };
    if has_point {
        lemma_lead_digits_le(after.skip(1));
    }
    let ds = body.take(il as int) + (if has_point { after.skip(1).take(fl as int) } else { seq![] });
    assert(ds.take(i - sl) =~= body.take(i - sl));
    lemma_digits_value_prefix(ds, i - sl);
}

/// A run of fractional digits whose value reaches the cap makes the parse
/// fail.
proof fn lemma_parse_none_frac(s: Seq<char>, sl: int, i1: int, i: int)
    requires
        sl == (if s.len() > 0 && (s[0] == '-' || s[0] == '+') { 1int } else { 0 }),
        sl <= i1 < s.len(),
        s[i1] == '.',
        lead_digits(s.skip(sl)) == i1 - sl,
        i1 + 1 <= i <= s.len(),
        forall|j: int| i1 + 1 <= j < i ==> is_digit(#[trigger] s[j]),
        digits_value(s.subrange(sl, i1) + s.subrange(i1 + 1, i)) >= pow10(36),
    ensures
        parse_decimal(s) is None,
        number_parts(s) is None,
{
    let body = s.skip(sl);
    let il = lead_digits(body);
    let after = body.skip(il as int);
    assert(after =~= s.skip(i1));
    let a1 = after.skip(1);
    assert(a1 =~= s.skip(i1 + 1));
    assert forall|j: int| 0 <= j < i - i1 - 1 implies is_digit(#[trigger] a1[j]) by {
        assert(a1[j] == s[j + i1 + 1]);
    }
    lemma_lead_digits_ge(a1, i - i1 - 1);
    lemma_lead_digits_le(a1);
    let fl = lead_digits(a1);
    let ds = body.take(il as int) + a1.take(fl as int);
    assert(ds.take(i1 - sl + (i - i1 - 1)) =~= s.subrange(sl, i1) + s.subrange(i1 + 1, i));
    lemma_digits_value_prefix(ds, i1 - sl + (i - i1 - 1));
}

} // verus!

verus! {

/// The decimal of an integer whose digits stay below `DIGITS_LIMIT`.
pub open spec fn int_dec(i: int) -> Decimal {
    make(i < 0, (if i < 0 { -i } else { i }) as nat, 0)->0
}

/// The integer part of a decimal, rounded toward zero.
pub open spec fn dec_trunc(a: Decimal) -> int {
    if a.exp() >= 0 {
        signed(a) * pow10(a.exp() as nat)
    } else {
        let q = a.magnitude() / pow10((-a.exp()) as nat);
        if a.neg_flag() {
            -(q as int)
        } else {
            q as int
        }
    }
}

/// `x` clamped to the range of `i32`, as a float-to-integer cast clamps.
pub open spec fn sat_i32(x: int) -> i32 {
    if x < i32::MIN {
        i32::MIN
    } else if x > i32::MAX {
        i32::MAX
    } else {
        x as i32
    }
}

impl Decimal {
    /// The integer part, rounded toward zero and clamped to the range of
    /// `i32`.
    pub fn trunc_i32(&self) -> (r: i32)
        ensures
            r == sat_i32(dec_trunc(*self)),
    {
        proof {
            use_type_invariant(self);
        }
        if self.digits == 0 {
            proof {
                assert(pow10(0) == 1);
                assert(self.exp() == 0 && self.magnitude() == 0 && !self.neg_flag());
                assert(signed(*self) == 0);
                assert(dec_trunc(*self) == 0 * pow10(0));
            }
            return 0;
        }
        let q: u128;
        if self.exponent >= 0 {
            if self.exponent >= 10 {
                proof {
                    let p = pow10(self.exponent as nat);
                    lemma_pow10_monotonic(10, self.exponent as nat);
                    assert(pow10(10) == 10_000_000_000) by {
                        reveal_with_fuel(pow10, 11);
                    }
                    assert(self.digits as nat * p >= 10_000_000_000) by (nonlinear_arith)
                        requires
                            self.digits >= 1,
                            p >= 10_000_000_000,
                    ;
                    if self.negative {
                        assert(signed(*self) * p == -(self.digits as nat * p)) by (nonlinear_arith)
                            requires
                                signed(*self) == -(self.digits as int),
                        ;
                    } else {
                        assert(signed(*self) * p == self.digits as nat * p);
                    }
                }
                return if self.negative {
                    i32::MIN
                } else {
                    i32::MAX
                };
            }
            let p = pow10_exec(self.exponent as u32);
            proof {
                lemma_pow10_monotonic(self.exponent as nat, 9);
                assert(pow10(9) == 1_000_000_000) by {
                    reveal_with_fuel(pow10, 10);
                }
                assert(self.digits as nat * p as nat <= 1_000_000_000_000_000_000_000_000_000) by (nonlinear_arith)
                    requires
                        self.digits < 1_000_000_000_000_000_000u64,
                        p <= 1_000_000_000,
                ;
            }
            q = (self.digits as u128) * p;
            proof {
                if self.negative {
                    assert(signed(*self) * p as nat == -(self.digits as nat * p as nat)) by (nonlinear_arith)
                        requires
                            signed(*self) == -(self.digits as int),
                    ;
                }
                assert(dec_trunc(*self) == if self.negative { -(q as int) } else { q as int });
            }
        } else {
            let k: i64 = -(self.exponent as i64);
            if k > 18 {
                proof {
                    lemma_pow10_monotonic(18, k as nat);
                    assert(pow10(18) == 1_000_000_000_000_000_000) by {
                        reveal_with_fuel(pow10, 19);
                    }
                    assert(self.digits as nat / pow10(k as nat) == 0) by (nonlinear_arith)
                        requires
                            self.digits < 1_000_000_000_000_000_000u64,
                            pow10(k as nat) >= 1_000_000_000_000_000_000,
                    ;
                }
                return 0;
            }
            let p = pow10_exec(k as u32);
            proof {
                lemma_pow10_positive(k as nat);
            }
            q = (self.digits as u128) / p;
            proof {
                assert(q <= self.digits) by (nonlinear_arith)
                    requires
                        q == self.digits as nat / p as nat,
                        p >= 1,
                ;
            }
        }
        if self.negative {
            if q > 2147483648 {
                i32::MIN
            } else {
                (-(q as i64)) as i32
            }
        } else {
            if q > 2147483647 {
                i32::MAX
            } else {
                q as i32
            }
        }
    }
}

} // verus!

verus! {

/// Reads an unsigned integer as `str::parse::<usize>` does: an optional `+`
/// and at least one decimal digit, of value at most `usize::MAX`.
pub open spec fn parse_usize(s: Seq<char>) -> Option<nat> {
    let d = if s.len() > 0 && s[0] == '+' { s.skip(1) } else { s };
    if d.len() > 0 && lead_digits(d) == d.len() && digits_value(d) <= usize::MAX {
        Some(digits_value(d))
    } else {
        None
    }
}

/// See `parse_usize`.
pub fn parse_usize_exec(s: &Vec<char>) -> (r: Option<usize>)
    ensures
        r matches Some(v) ==> parse_usize(s@) == Some(v as nat),
        r is None ==> parse_usize(s@) is None,
{
    let n = s.len();
    let start: usize = if n > 0 && s[0] == '+' { 1 } else { 0 };
    let ghost d = if s@.len() > 0 && s@[0] == '+' { s@.skip(1) } else { s@ };
    proof {
        assert(d =~= s@.skip(start as int));
    }
    if start >= n {
        return None;
    }
    let mut acc: u128 = 0;
    let mut i: usize = start;
    proof {
        assert(d.take(0) =~= Seq::<char>::empty());
    }
    while i < n
        invariant
            start <= i <= n,
            n == s.len(),
            d == s@.skip(start as int),
            d == (if s@.len() > 0 && s@[0] == '+' { s@.skip(1) } else { s@ }),
            acc as nat == digits_value(d.take(i - start)),
            acc <= usize::MAX,
            forall|j: int| start <= j < i ==> is_digit(#[trigger] s@[j]),
        decreases n - i,
    {
        let c = s[i];
        if !('0' <= c && c <= '9') {
            proof {
                lemma_lead_digits(s@, start as int, i as int);
                assert(lead_digits(d) == i - start);
                assert(!(lead_digits(d) == d.len()));
            }
            return None;
        }
        let dv = (c as u32 - 48) as u128;
        proof {
            assert(d.take(i - start + 1).drop_last() =~= d.take(i - start));
            assert(d.take(i - start + 1).last() == c);
        }
        acc = acc * 10 + dv;
        proof {
            assert(dv as nat == digit_value(c));
            assert(acc as nat == digits_value(d.take(i - start + 1)));
        }
        if acc > usize::MAX as u128 {
            proof {
                lemma_digits_value_prefix(d, i - start + 1);
                assert(digits_value(d) > usize::MAX);
            }
            return None;
        }
        i = i + 1;
    }
    proof {
        lemma_lead_digits(s@, start as int, n as int);
        assert(d.take(n - start) =~= d);
    }
    Some(acc as usize)
}

} // verus!

verus! {

/// Whether the value of `a` is below the value of `b`.
pub open spec fn dec_lt(a: Decimal, b: Decimal) -> bool {
    let e = if a.exp() <= b.exp() { a.exp() } else { b.exp() };
    signed(a) * pow10((a.exp() - e) as nat) < signed(b) * pow10((b.exp() - e) as nat)
}

/// `x * 10^d` against `y` for significant digits below `DIGITS_LIMIT`.
fn scaled_lt(x: u64, d: i64, y: u64) -> (r: bool)
    requires
        x < DIGITS_LIMIT,
        y < DIGITS_LIMIT,
        x >= 1,
        d >= 0,
    ensures
        r == (x as nat * pow10(d as nat) < y as nat),
{
    if d >= 18 {
        proof {
            lemma_pow10_monotonic(18, d as nat);
            assert(pow10(18) == 1_000_000_000_000_000_000) by {
                reveal_with_fuel(pow10, 19);
            }
            assert(x as nat * pow10(d as nat) >= 1_000_000_000_000_000_000) by (nonlinear_arith)
                requires
                    x >= 1,
                    pow10(d as nat) >= 1_000_000_000_000_000_000,
            ;
        }
        return false;
    }
    let p = pow10_exec(d as u32);
    proof {
        lemma_pow10_monotonic(d as nat, 18);
        assert(pow10(18) == 1_000_000_000_000_000_000) by {
            reveal_with_fuel(pow10, 19);
        }
        assert(x as nat * p as nat <= 1_000_000_000_000_000_000_000_000_000_000_000_000) by (nonlinear_arith)
            requires
                x < 1_000_000_000_000_000_000u64,
                p <= 1_000_000_000_000_000_000u128,
        ;
    }
    (x as u128) * p < (y as u128)
}

/// `y` against `x * 10^d` for significant digits below `DIGITS_LIMIT`.
fn lt_scaled(y: u64, x: u64, d: i64) -> (r: bool)
    requires
        x < DIGITS_LIMIT,
        y < DIGITS_LIMIT,
        x >= 1,
        d >= 0,
    ensures
        r == ((y as nat) < x as nat * pow10(d as nat)),
{
    if d >= 18 {
        proof {
            lemma_pow10_monotonic(18, d as nat);
            assert(pow10(18) == 1_000_000_000_000_000_000) by {
                reveal_with_fuel(pow10, 19);
            }
            assert(x as nat * pow10(d as nat) >= 1_000_000_000_000_000_000) by (nonlinear_arith)
                requires
                    x >= 1,
                    pow10(d as nat) >= 1_000_000_000_000_000_000,
            ;
        }
        return true;
    }
    let p = pow10_exec(d as u32);
    proof {
        lemma_pow10_monotonic(d as nat, 18);
        assert(pow10(18) == 1_000_000_000_000_000_000) by {
            reveal_with_fuel(pow10, 19);
        }
        assert(x as nat * p as nat <= 1_000_000_000_000_000_000_000_000_000_000_000_000) by (nonlinear_arith)
            requires
                x < 1_000_000_000_000_000_000u64,
                p <= 1_000_000_000_000_000_000u128,
        ;
    }
    (y as u128) < (x as u128) * p
}

impl Decimal {
    /// Whether the magnitude of `self` is below that of `other`, both
    /// nonzero.
    fn magnitude_lt(&self, other: &Decimal) -> (r: bool)
        requires
            self.magnitude() > 0,
            other.magnitude() > 0,
        ensures
            r == ({
                let e = if self.exp() <= other.exp() { self.exp() } else { other.exp() };
                self.magnitude() * pow10((self.exp() - e) as nat) < other.magnitude() * pow10((other.exp() - e) as nat)
            }),
    {
        proof {
            use_type_invariant(self);
            use_type_invariant(other);
            assert(pow10(0) == 1);
        }
        if self.exponent >= other.exponent {
            let d: i64 = self.exponent as i64 - other.exponent as i64;
            proof {
                assert(other.magnitude() * pow10(0) == other.magnitude());
                assert((other.exp() - other.exp()) as nat == 0);
                assert((self.exp() - other.exp()) as nat == d as nat);
            }
            scaled_lt(self.digits, d, other.digits)
        } else {
            let d: i64 = other.exponent as i64 - self.exponent as i64;
            proof {
                assert(self.magnitude() * pow10(0) == self.magnitude());
                assert((self.exp() - self.exp()) as nat == 0);
                assert((other.exp() - self.exp()) as nat == d as nat);
            }
            lt_scaled(self.digits, other.digits, d)
        }
    }

    /// Whether the value of `self` is below that of `other`; see `dec_lt`.
    pub fn less_than(&self, other: &Decimal) -> (r: bool)
        ensures
            r == dec_lt(*self, *other),
    {
        proof {
            use_type_invariant(self);
            use_type_invariant(other);
        }
        let ghost e = if self.exp() <= other.exp() { self.exp() } else { other.exp() };
        let ghost pa = pow10((self.exp() - e) as nat);
        let ghost pb = pow10((other.exp() - e) as nat);
        proof {
            lemma_pow10_positive((self.exp() - e) as nat);
            lemma_pow10_positive((other.exp() - e) as nat);
            assert(self.magnitude() * pa >= 0 && other.magnitude() * pb >= 0) by (nonlinear_arith)
                requires
                    pa >= 1,
                    pb >= 1,
            ;
            assert(self.magnitude() > 0 ==> self.magnitude() * pa > 0) by (nonlinear_arith)
                requires
                    pa >= 1,
            ;
            assert(other.magnitude() > 0 ==> other.magnitude() * pb > 0) by (nonlinear_arith)
                requires
                    pb >= 1,
            ;
            if self.negative {
                assert(signed(*self) * pa == -(self.magnitude() * pa)) by (nonlinear_arith)
                    requires
                        signed(*self) == -(self.magnitude() as int),
                ;
            } else {
                assert(signed(*self) * pa == self.magnitude() * pa);
            }
            if other.negative {
                assert(signed(*other) * pb == -(other.magnitude() * pb)) by (nonlinear_arith)
                    requires
                        signed(*other) == -(other.magnitude() as int),
                ;
            } else {
                assert(signed(*other) * pb == other.magnitude() * pb);
            }
        }
        if self.digits == 0 {
            proof {
                assert(signed(*self) == 0);
                assert(signed(*self) * pa == 0) by (nonlinear_arith)
                    requires
                        signed(*self) == 0,
                ;
            }
            return other.digits != 0 && !other.negative;
        }
        if other.digits == 0 {
            proof {
                assert(signed(*other) == 0);
                assert(signed(*other) * pb == 0) by (nonlinear_arith)
                    requires
                        signed(*other) == 0,
                ;
            }
            return self.negative;
        }
        if self.negative != other.negative {
            return self.negative;
        }
        if self.negative {
            other.magnitude_lt(self)
        } else {
            self.magnitude_lt(other)
        }
    }
}

} // verus!

verus! {

pub proof fn lemma_pow10_add(a: nat, b: nat)
    ensures
        pow10(a + b) == pow10(a) * pow10(b),
    decreases b,
{
    if b > 0 {
        let b1 = (b - 1) as nat;
        lemma_pow10_add(a, b1);
        assert(a + b1 + 1 == a + b);
        assert(pow10(a + b) == 10 * pow10(a + b1));
        assert(pow10(b) == 10 * pow10(b1));
        let x = pow10(a);
        let y = pow10(b1);
        assert(x * (10 * y) == 10 * (x * y)) by (nonlinear_arith);
    } else {
        assert(pow10(0) == 1);
        assert(a + b == a);
    }
}

/// `strip` removes factors of ten only.
pub proof fn lemma_strip_value(m: nat, e: int)
    ensures
        strip(m, e).1 >= e,
        strip(m, e).0 * pow10((strip(m, e).1 - e) as nat) == m,
    decreases m,
{
    if m != 0 && m % 10 == 0 {
        lemma_strip_value(m / 10, e + 1);
        let (m2, e2) = strip(m / 10, e + 1);
        assert(strip(m, e) == (m2, e2));
        assert(m == 10 * (m / 10));
        let k1 = (e2 - (e + 1)) as nat;
        assert((e2 - e) as nat == k1 + 1);
        assert(pow10(k1 + 1) == 10 * pow10(k1));
        let p1 = pow10(k1);
        assert(m2 * (10 * p1) == 10 * (m2 * p1)) by (nonlinear_arith);
        assert(m2 * p1 == m / 10);
        assert(m2 * pow10((e2 - e) as nat) == m);
    } else {
        assert(strip(m, e) == (m, e));
        assert(pow10(0) == 1);
        assert((e - e) as nat == 0);
        assert(m * pow10(0) == m);
    }
}


} // verus!

verus! {

/// All characters of `s` are digits.
pub open spec fn all_digits(s: Seq<char>) -> bool {
    forall|i: int| 0 <= i < s.len() ==> is_digit(#[trigger] s[i])
}

proof fn lemma_nat_digits(n: nat)
    ensures
        nat_digits(n).len() >= 1,
        all_digits(nat_digits(n)),
        digits_value(nat_digits(n)) == n,
    decreases n,
{
    if n < 10 {
        let c = digit_char(n);
        assert(nat_digits(n) == seq![c]);
        assert(seq![c].drop_last() =~= Seq::<char>::empty());
        assert(c as int == 48 + n);
        assert(digit_value(c) == n);
        assert(digits_value(seq![c]) == digits_value(Seq::<char>::empty()) * 10 + digit_value(c));
    } else {
        lemma_nat_digits(n / 10);
        let p = nat_digits(n / 10);
        let c = digit_char(n % 10);
        assert(nat_digits(n) == p.push(c));
        lemma_digits_value_push(p, c);
        assert(c as int == 48 + n % 10);
        assert(digit_value(c) == n % 10);
        assert(all_digits(p.push(c))) by {
            assert forall|i: int| 0 <= i < p.push(c).len() implies is_digit(#[trigger] p.push(c)[i]) by {
                if i < p.len() {
                    assert(p.push(c)[i] == p[i]);
                }
            }
        }
    }
}

proof fn lemma_digits_value_concat(a: Seq<char>, b: Seq<char>)
    ensures
        digits_value(a + b) == digits_value(a) * pow10(b.len()) + digits_value(b),
    decreases b.len(),
{
    if b.len() == 0 {
        assert(a + b =~= a);
        assert(pow10(0) == 1);
        assert(digits_value(b) == 0);
    } else {
        let b1 = b.drop_last();
        lemma_digits_value_concat(a, b1);
        assert((a + b).drop_last() =~= a + b1);
        assert((a + b).last() == b.last());
        assert(pow10(b.len()) == 10 * pow10(b1.len()));
        let x = digits_value(a);
        let p = pow10(b1.len());
        assert(x * (10 * p) == (x * p) * 10) by (nonlinear_arith);
    }
}

proof fn lemma_zeros(k: nat)
    ensures
        all_digits(zeros(k)),
        digits_value(zeros(k)) == 0,
        zeros(k).len() == k,
    decreases k,
{
    if k > 0 {
        lemma_zeros((k - 1) as nat);
        assert(zeros(k).drop_last() =~= zeros((k - 1) as nat));
        assert(zeros(k).last() == '0');
    }
}

/// Removing the zeros that a power of ten appends.
proof fn lemma_strip_scaled(m: nat, k: nat, e: int)
    requires
        m % 10 != 0,
    ensures
        strip(m * pow10(k), e) == (m, e + k),
    decreases k,
{
    if k == 0 {
        assert(pow10(0) == 1);
        assert(m * 1 == m);
    } else {
        let k1 = (k - 1) as nat;
        lemma_strip_scaled(m, k1, e + 1);
        let x = m * pow10(k);
        assert(pow10(k) == 10 * pow10(k1));
        let y = m * pow10(k1);
        assert(x == 10 * y) by (nonlinear_arith)
            requires
                x == m * pow10(k),
                pow10(k) == 10 * pow10(k1),
                y == m * pow10(k1),
        ;
        lemma_pow10_positive(k1);
        assert(y != 0) by (nonlinear_arith)
            requires
                y == m * pow10(k1),
                pow10(k1) >= 1,
                m % 10 != 0,
        ;
        assert(x % 10 == 0 && x / 10 == y) by (nonlinear_arith)
            requires
                x == 10 * y,
        ;
    }
}

} // verus!

verus! {

/// A digit is no sign.
proof fn lemma_digit_not_sign(c: char)
    requires
        is_digit(c),
    ensures
        c != '-' && c != '+' && c != '.',
{
}

/// The facts that the canonical form gives of the fields of a decimal.
proof fn lemma_canonical_fields(d: Decimal)
    requires
        make(d.neg_flag(), d.magnitude(), d.exp()) == Some(d),
    ensures
        d.magnitude() < DIGITS_LIMIT,
        d.magnitude() == 0 ==> !d.neg_flag() && d.exp() == 0,
        d.magnitude() != 0 ==> d.magnitude() % 10 != 0,
        strip(d.magnitude(), d.exp()) == (d.magnitude(), d.exp()),
{
    let n = d.magnitude();
    let e = d.exp();
    let (m2, e2) = strip(n, e);
    lemma_strip_value(n, e);
    if m2 == 0 {
        Decimal::lemma_build(false, 0, 0);
        assert(d == Decimal::spec_zero());
        assert(strip(0, 0) == (0nat, 0int));
    } else {
        Decimal::lemma_build(d.neg_flag(), m2, e2);
        assert(d == Decimal::spec_build(d.neg_flag(), m2, e2));
        assert(m2 == n && e2 == e);
        if n % 10 == 0 {
            lemma_strip_value(n / 10, e + 1);
            assert(strip(n, e) == strip(n / 10, e + 1));
            assert(false);
        }
    }
}

#[verifier::rlimit(50)]
#[verifier::spinoff_prover]
proof fn lemma_text_int(d: Decimal)
    requires
        make(d.neg_flag(), d.magnitude(), d.exp()) == Some(d),
        d.exp() >= 0 ==> d.magnitude() * pow10(d.exp() as nat) < pow10(36),
        d.exp() < 0 ==> -d.exp() <= 1_000_000_000,
        d.exp() >= 0,
    ensures
        parse_decimal(dec_text(d)) == Some(d),
{
    let neg = d.neg_flag();
    let n = d.magnitude();
    let e = d.exp();
    lemma_canonical_fields(d);
    lemma_nat_digits(n);
    let sign: Seq<char> = if neg { seq!['-'] } else { seq![] };
    let sl: int = if neg { 1 } else { 0 };
    let ds = nat_digits(n);
    let s = dec_text(d);
    assert(pow10(36) > DIGITS_LIMIT) by {
        reveal_with_fuel(pow10, 37);
    }
    assert(is_digit(ds[0]));
    lemma_digit_not_sign(ds[0]);
    assert(is_digit('0'));
    let z = zeros(e as nat);
    lemma_zeros(e as nat);
    let body = ds + z;
    assert(s == sign + body);
    assert(s.len() == sl + body.len());
    assert(forall|j: int| sl <= j < s.len() ==> #[trigger] s[j] == body[j - sl]);
    assert forall|j: int| sl <= j < s.len() implies is_digit(#[trigger] s[j]) by {
        assert(s[j] == body[j - sl]);
        if j - sl < ds.len() {
            assert(body[j - sl] == ds[j - sl]);
        } else {
            assert(body[j - sl] == z[j - sl - ds.len()]);
        }
    }
    assert(sl == (if s.len() > 0 && (s[0] == '-' || s[0] == '+') { 1int } else { 0 })) by {
        if !neg {
            assert(s[0] == ds[0]);
        }
    }
    lemma_lead_digits(s, sl, s.len() as int);
    lemma_parse_parts(s, sl, s.len() as int, s.len() as int, false);
    assert(s.subrange(sl, s.len() as int) + seq![] =~= body);
    assert(s.skip(s.len() as int) =~= Seq::<char>::empty());
    lemma_digits_value_concat(ds, z);
    assert(digits_value(body) == n * pow10(e as nat));
    assert(parse_exponent(Seq::<char>::empty()) == Some(0int));
    if n == 0 {
        assert(n * pow10(e as nat) == 0);
    } else {
        lemma_strip_scaled(n, e as nat, 0);
        assert(strip(n * pow10(e as nat), 0) == strip(n, e));
    }
}

#[verifier::rlimit(50)]
#[verifier::spinoff_prover]
proof fn lemma_text_long_fraction(d: Decimal)
    requires
        make(d.neg_flag(), d.magnitude(), d.exp()) == Some(d),
        d.exp() >= 0 ==> d.magnitude() * pow10(d.exp() as nat) < pow10(36),
        d.exp() < 0 ==> -d.exp() <= 1_000_000_000,
        d.exp() < 0,
        nat_digits(d.magnitude()).len() > -d.exp(),
    ensures
        parse_decimal(dec_text(d)) == Some(d),
{
    let neg = d.neg_flag();
    let n = d.magnitude();
    let e = d.exp();
    lemma_canonical_fields(d);
    lemma_nat_digits(n);
    let sign: Seq<char> = if neg { seq!['-'] } else { seq![] };
    let sl: int = if neg { 1 } else { 0 };
    let ds = nat_digits(n);
    let s = dec_text(d);
    assert(pow10(36) > DIGITS_LIMIT) by {
        reveal_with_fuel(pow10, 37);
    }
    assert(is_digit(ds[0]));
    lemma_digit_not_sign(ds[0]);
    assert(is_digit('0'));
    let k = -e;
    let len = ds.len();
    let a = ds.take(len - k);
    let b = ds.skip(len - k);
    assert(s == sign + a + seq!['.'] + b);
    let i1 = sl + len - k;
    let i2 = sl + len + 1;
    assert(s.len() == i2);
    assert(s[i1] == '.');
    assert forall|j: int| sl <= j < i1 implies is_digit(#[trigger] s[j]) by {
        assert(s[j] == ds[j - sl]);
    }
    assert forall|j: int| i1 + 1 <= j < i2 implies is_digit(#[trigger] s[j]) by {
        assert(s[j] == ds[j - sl - 1]);
    }
    assert(sl == (if s.len() > 0 && (s[0] == '-' || s[0] == '+') { 1int } else { 0 })) by {
        if !neg {
            assert(s[0] == ds[0]);
        }
    }
    lemma_lead_digits(s, sl, i1);
    lemma_lead_digits(s, i1 + 1, i2);
    lemma_parse_parts(s, sl, i1, i2, true);
    assert(s.subrange(sl, i1) + s.subrange(i1 + 1, i2) =~= ds);
    assert(s.skip(i2) =~= Seq::<char>::empty());
    assert(parse_exponent(Seq::<char>::empty()) == Some(0int));
}

#[verifier::rlimit(50)]
#[verifier::spinoff_prover]
proof fn lemma_text_short_fraction(d: Decimal)
    requires
        make(d.neg_flag(), d.magnitude(), d.exp()) == Some(d),
        d.exp() >= 0 ==> d.magnitude() * pow10(d.exp() as nat) < pow10(36),
        d.exp() < 0 ==> -d.exp() <= 1_000_000_000,
        d.exp() < 0,
        nat_digits(d.magnitude()).len() <= -d.exp(),
    ensures
        parse_decimal(dec_text(d)) == Some(d),
{
    let neg = d.neg_flag();
    let n = d.magnitude();
    let e = d.exp();
    lemma_canonical_fields(d);
    lemma_nat_digits(n);
    let sign: Seq<char> = if neg { seq!['-'] } else { seq![] };
    let sl: int = if neg { 1 } else { 0 };
    let ds = nat_digits(n);
    let s = dec_text(d);
    assert(pow10(36) > DIGITS_LIMIT) by {
        reveal_with_fuel(pow10, 37);
    }
    assert(is_digit(ds[0]));
    lemma_digit_not_sign(ds[0]);
    assert(is_digit('0'));
    let k = -e;
    let len = ds.len();
    let z = zeros((k - len) as nat);
    lemma_zeros((k - len) as nat);
    assert(s == sign + seq!['0', '.'] + z + ds);
    let i1 = sl + 1;
    let i2 = sl + 2 + k;
    assert(s.len() == i2);
    assert(s[sl] == '0');
    assert(s[i1] == '.');
    assert forall|j: int| i1 + 1 <= j < i2 implies is_digit(#[trigger] s[j]) by {
        if j - i1 - 1 < z.len() {
            assert(s[j] == z[j - i1 - 1]);
        } else {
            assert(s[j] == ds[j - i1 - 1 - z.len()]);
        }
    }
    assert(sl == (if s.len() > 0 && (s[0] == '-' || s[0] == '+') { 1int } else { 0 }));
    lemma_lead_digits(s, sl, i1);
    lemma_lead_digits(s, i1 + 1, i2);
    lemma_parse_parts(s, sl, i1, i2, true);
    let lead = seq!['0'] + z;
    assert(s.subrange(sl, i1) + s.subrange(i1 + 1, i2) =~= lead + ds);
    assert(lead =~= zeros((k - len + 1) as nat));
    lemma_zeros((k - len + 1) as nat);
    lemma_digits_value_concat(lead, ds);
    assert(s.skip(i2) =~= Seq::<char>::empty());
    assert(parse_exponent(Seq::<char>::empty()) == Some(0int));
}

/// The text of a decimal in canonical form reads back as that decimal,
/// when the value written out has its digits below `10^36` and at most
/// `10^9` digits after the point.
pub proof fn law_text_reads_back(d: Decimal)
    requires
        make(d.neg_flag(), d.magnitude(), d.exp()) == Some(d),
        d.exp() >= 0 ==> d.magnitude() * pow10(d.exp() as nat) < pow10(36),
        d.exp() < 0 ==> -d.exp() <= 1_000_000_000,
    ensures
        parse_decimal(dec_text(d)) == Some(d),
{
    if d.exp() >= 0 {
        lemma_text_int(d);
    } else if nat_digits(d.magnitude()).len() > -d.exp() {
        lemma_text_long_fraction(d);
    } else {
        lemma_text_short_fraction(d);
    }
}

} // verus!

verus! {

/// Integer products and sums keep their value as real numbers.
pub proof fn lemma_real_cast(x: int, y: int)
    ensures
        ((x * y) as real) == (x as real) * (y as real),
        ((x + y) as real) == (x as real) + (y as real),
        ((x - y) as real) == (x as real) - (y as real),
        ((-x) as real) == -(x as real),
{
    assert(((x * y) as real) == (x as real) * (y as real)) by (nonlinear_arith);
}

/// `10^e` as a real number, for any integer `e`.
pub open spec fn p10(e: int) -> real {
    if e >= 0 {
        pow10(e as nat) as real
    } else {
        1real / (pow10((-e) as nat) as real)
    }
}

/// The value of a decimal as a real number.
pub open spec fn real_value(d: Decimal) -> real {
    (signed(d) as real) * p10(d.exp())
}

pub proof fn lemma_p10_positive(e: int)
    ensures
        p10(e) > 0real,
{
    if e >= 0 {
        lemma_pow10_positive(e as nat);
    } else {
        lemma_pow10_positive((-e) as nat);
        let q = pow10((-e) as nat) as real;
        assert(1real / q > 0real) by (nonlinear_arith)
            requires
                q >= 1real,
        ;
    }
}

/// `10^(a + b) = 10^a * 10^b`.
pub proof fn lemma_p10_add(a: int, b: int)
    ensures
        p10(a + b) == p10(a) * p10(b),
{
    if a >= 0 && b >= 0 {
        lemma_pow10_add(a as nat, b as nat);
        lemma_real_cast(pow10(a as nat) as int, pow10(b as nat) as int);
        assert(((pow10(a as nat) * pow10(b as nat)) as real) == (pow10(a as nat) as real) * (pow10(b as nat) as real));
    } else if a < 0 && b < 0 {
        lemma_pow10_add((-a) as nat, (-b) as nat);
        let x = pow10((-a) as nat) as real;
        let y = pow10((-b) as nat) as real;
        lemma_pow10_positive((-a) as nat);
        lemma_pow10_positive((-b) as nat);
        lemma_real_cast(pow10((-a) as nat) as int, pow10((-b) as nat) as int);
        assert(((pow10((-a) as nat) * pow10((-b) as nat)) as real) == x * y);
        assert(1real / (x * y) == (1real / x) * (1real / y)) by (nonlinear_arith)
            requires
                x >= 1real,
                y >= 1real,
        ;
    } else {
        let (p, n) = if a >= 0 { (a, b) } else { (b, a) };
        let k = (-n) as nat;
        lemma_pow10_positive(k);
        let q = pow10(k) as real;
        if p + n >= 0 {
            lemma_pow10_add((p + n) as nat, k);
            assert(((p + n) as nat + k) as int == p);
            let r = pow10((p + n) as nat) as real;
            lemma_real_cast(pow10((p + n) as nat) as int, pow10(k) as int);
            assert((pow10(p as nat) as real) == r * q);
            assert(r == (r * q) * (1real / q) && r == (1real / q) * (r * q)) by (nonlinear_arith)
                requires
                    q >= 1real,
            ;
            assert(p10(p) == r * q);
            assert(p10(n) == 1real / q);
            assert(p10(p + n) == r);
        } else {
            let j = (-(p + n)) as nat;
            lemma_pow10_add(p as nat, j);
            assert((p as nat + j) as int == k);
            let u = pow10(p as nat) as real;
            let w = pow10(j) as real;
            lemma_pow10_positive(j);
            lemma_pow10_positive(p as nat);
            lemma_real_cast(pow10(p as nat) as int, pow10(j) as int);
            assert(q == u * w);
            assert(1real / w == u * (1real / (u * w)) && 1real / w == (1real / (u * w)) * u) by (nonlinear_arith)
                requires
                    u >= 1real,
                    w >= 1real,
            ;
            assert(p10(p) == u);
            assert(p10(n) == 1real / q);
            assert(p10(p + n) == 1real / w);
        }
    }
}

/// The decimal that `make` builds has the value `(-1)^neg * m * 10^e`.
pub proof fn lemma_make_real(neg: bool, m: nat, e: int)
    requires
        make(neg, m, e) is Some,
    ensures
        real_value(make(neg, m, e)->0) == (if neg { -(m as real) } else { m as real }) * p10(e),
{
    let (m2, e2) = strip(m, e);
    lemma_strip_value(m, e);
    let k = (e2 - e) as nat;
    lemma_p10_add(e, k as int);
    assert(e + k == e2);
    assert(p10(k as int) == pow10(k) as real);
    if m2 == 0 {
        Decimal::lemma_build(false, 0, 0);
        assert(m == 0) by (nonlinear_arith)
            requires
                m2 == 0,
                m2 * pow10(k) == m,
        ;
        assert(signed(Decimal::spec_zero()) == 0);
        assert((0 as real) * p10(0) == 0real);
        assert((if neg { -(0 as real) } else { 0 as real }) * p10(e) == 0real);
    } else {
        Decimal::lemma_build(neg, m2, e2);
        let d = Decimal::spec_build(neg, m2, e2);
        let pe = p10(e);
        let pk = pow10(k) as real;
        lemma_real_cast(m2 as int, pow10(k) as int);
        assert((m2 * pow10(k)) as real == (m2 as real) * pk);
        assert((m2 as real) * p10(e2) == (m as real) * pe) by (nonlinear_arith)
            requires
                p10(e2) == pe * pk,
                (m2 as real) * pk == m as real,
        ;
        if neg {
            assert(signed(d) as real == -(m2 as real));
            assert((-(m2 as real)) * p10(e2) == -((m2 as real) * p10(e2))) by (nonlinear_arith);
            assert((-(m as real)) * pe == -((m as real) * pe)) by (nonlinear_arith);
        } else {
            assert(signed(d) as real == m2 as real);
        }
    }
}

/// The exact product of decimals is the product of their values.
pub proof fn lemma_mul_real(a: Decimal, b: Decimal)
    requires
        dec_mul(a, b) is Some,
    ensures
        real_value(dec_mul(a, b)->0) == real_value(a) * real_value(b),
{
    let m = a.magnitude() * b.magnitude();
    let e = a.exp() + b.exp();
    lemma_make_real(a.neg_flag() != b.neg_flag(), m, e);
    lemma_p10_add(a.exp(), b.exp());
    let pa = p10(a.exp());
    let pb = p10(b.exp());
    let x = a.magnitude() as real;
    let y = b.magnitude() as real;
    lemma_real_cast(a.magnitude() as int, b.magnitude() as int);
    assert((m as real) == x * y);
    let sa: real = if a.neg_flag() { -x } else { x };
    let sb: real = if b.neg_flag() { -y } else { y };
    assert(real_value(a) == sa * pa);
    assert(real_value(b) == sb * pb);
    let sm: real = if a.neg_flag() != b.neg_flag() { -(x * y) } else { x * y };
    assert(sm == sa * sb) by (nonlinear_arith)
        requires
            sa == (if a.neg_flag() { -x } else { x }),
            sb == (if b.neg_flag() { -y } else { y }),
            sm == (if a.neg_flag() != b.neg_flag() { -(x * y) } else { x * y }),
    ;
    assert(sm * (pa * pb) == (sa * pa) * (sb * pb)) by (nonlinear_arith)
        requires
            sm == sa * sb,
    ;
}

/// The negation of a decimal has the opposite value.
pub proof fn lemma_neg_real(a: Decimal)
    ensures
        real_value(dec_neg(a)) == -real_value(a),
{
    if a.magnitude() == 0 {
        assert(signed(a) == 0);
        assert((0 as real) * p10(a.exp()) == 0real);
    } else {
        let n = dec_neg(a);
        assert(n.magnitude() == a.magnitude() && n.exp() == a.exp() && n.neg_flag() == !a.neg_flag());
        assert(signed(n) == -signed(a));
        let p = p10(a.exp());
        let s = signed(a) as real;
        assert((signed(n) as real) == -s);
        assert((-s) * p == -(s * p)) by (nonlinear_arith);
    }
}

/// The exact sum of decimals is the sum of their values.
pub proof fn lemma_add_real(a: Decimal, b: Decimal)
    requires
        dec_add(a, b) is Some,
    ensures
        real_value(dec_add(a, b)->0) == real_value(a) + real_value(b),
{
    if a.magnitude() == 0 {
        assert(signed(a) == 0);
        assert((0 as real) * p10(a.exp()) == 0real);
    } else if b.magnitude() == 0 {
        assert(signed(b) == 0);
        assert((0 as real) * p10(b.exp()) == 0real);
    } else {
        let e = if a.exp() <= b.exp() { a.exp() } else { b.exp() };
        let da = (a.exp() - e) as nat;
        let db = (b.exp() - e) as nat;
        let s = signed(a) * pow10(da) + signed(b) * pow10(db);
        let m = (if s < 0 { -s } else { s }) as nat;
        lemma_make_real(s < 0, m, e);
        lemma_p10_add(e, da as int);
        lemma_p10_add(e, db as int);
        assert(e + da == a.exp());
        assert(e + db == b.exp());
        let pe = p10(e);
        let pda = pow10(da) as real;
        let pdb = pow10(db) as real;
        assert(p10(da as int) == pda);
        assert(p10(db as int) == pdb);
        let xa = signed(a) as real;
        let xb = signed(b) as real;
        lemma_real_cast(signed(a), pow10(da) as int);
        lemma_real_cast(signed(b), pow10(db) as int);
        lemma_real_cast(signed(a) * pow10(da), signed(b) * pow10(db));
        assert((s as real) == xa * pda + xb * pdb);
        let sm: real = if s < 0 { -(m as real) } else { m as real };
        assert(sm == s as real);
        assert((s as real) * pe == xa * (pe * pda) + xb * (pe * pdb)) by (nonlinear_arith)
            requires
                (s as real) == xa * pda + xb * pdb,
        ;
    }
}

/// The exact difference of decimals is the difference of their values.
pub proof fn lemma_sub_real(a: Decimal, b: Decimal)
    requires
        dec_sub(a, b) is Some,
    ensures
        real_value(dec_sub(a, b)->0) == real_value(a) - real_value(b),
{
    lemma_neg_real(b);
    lemma_add_real(a, dec_neg(b));
}

/// Zero and minus one.
pub proof fn lemma_small_reals()
    ensures
        real_value(Decimal::spec_zero()) == 0real,
        make(true, 1, 0) is Some,
        real_value(make(true, 1, 0)->0) == -1real,
{
    Decimal::lemma_build(false, 0, 0);
    assert(signed(Decimal::spec_zero()) == 0);
    assert((0 as real) * p10(0) == 0real);
    assert(strip(1, 0) == (1nat, 0int));
    assert(pow10(0) == 1);
    lemma_make_real(true, 1, 0);
    assert(p10(0) == 1real);
}

/// A decimal of magnitude zero is worth zero.
pub proof fn lemma_zero_magnitude_real(a: Decimal)
    requires
        a.magnitude() == 0,
    ensures
        real_value(a) == 0real,
{
    assert(signed(a) == 0);
    assert((0 as real) * p10(a.exp()) == 0real);
}

} // verus!

verus! {

/// A value read from a solver or computed from such values: a decimal, an
/// infinity of either sign, or not a number, as floating-point values are.
#[derive(PartialEq, Eq, Structural, Debug, Clone, Copy)]
pub enum Number {
    Finite(Decimal),
    Infinite(bool),
    NotANumber,
}

/// Cuts the significand `m` to fewer than 19 digits, dropping its last
/// digits (towards zero) and raising the exponent `e` accordingly.
pub open spec fn shorten(m: nat, e: int) -> (nat, int)
    decreases m,
{
    if m >= DIGITS_LIMIT {
        shorten(m / 10, e + 1)
    } else {
        (m, e)
    }
}

/// The number `(-1)^neg * m * 10^e` rounded to a decimal: its significand
/// cut to 18 digits (see `shorten`); an infinity where the exponent is
/// beyond the `i32` range, and zero where it is below it.
pub open spec fn rounded(neg: bool, m: nat, e: int) -> Number {
    let (m1, e1) = shorten(m, e);
    match make(neg, m1, e1) {
        Some(d) => Number::Finite(d),
        None => if strip(m1, e1).1 > 0 {
            Number::Infinite(neg)
        } else {
            Number::Finite(Decimal::spec_zero())
        },
    }
}

/// Where the decimal of `(-1)^neg * m * 10^e` exists, rounding gives it.
pub proof fn lemma_rounded_exact(neg: bool, m: nat, e: int)
    requires
        make(neg, m, e) is Some,
    ensures
        rounded(neg, m, e) == Number::Finite(make(neg, m, e)->0),
    decreases m,
{
    lemma_shorten_exact(m, e);
}

proof fn lemma_shorten_exact(m: nat, e: int)
    requires
        strip(m, e).0 < DIGITS_LIMIT,
    ensures
        strip(shorten(m, e).0, shorten(m, e).1) == strip(m, e),
    decreases m,
{
    if m >= DIGITS_LIMIT {
        assert(m != 0 && m % 10 == 0);
        lemma_shorten_exact(m / 10, e + 1);
    }
}

/// Exact product of two decimals, rounded; see `rounded`.
pub open spec fn fin_mul(a: Decimal, b: Decimal) -> Number {
    rounded(a.neg_flag() != b.neg_flag(), a.magnitude() * b.magnitude(), a.exp() + b.exp())
}

/// Signed significand of `a` at the exponent `t`: exact where `t` is not
/// above the exponent of `a`, cut towards zero otherwise.
pub open spec fn scaled(a: Decimal, t: int) -> int {
    if a.exp() >= t {
        signed(a) * pow10((a.exp() - t) as nat)
    } else {
        let q = a.magnitude() / pow10((t - a.exp()) as nat);
        if a.neg_flag() {
            -(q as int)
        } else {
            q as int
        }
    }
}

/// Exponent at which `fin_add` adds: the smaller exponent, but no more than
/// 18 below the larger one.
pub open spec fn add_exponent(a: Decimal, b: Decimal) -> int {
    let hi = if a.exp() >= b.exp() { a.exp() } else { b.exp() };
    let lo = if a.exp() >= b.exp() { b.exp() } else { a.exp() };
    if hi - lo > 18 {
        hi - 18
    } else {
        lo
    }
}

/// Sum of two decimals, rounded: exact where a term is zero; otherwise the
/// digits of the smaller term more than 18 places below the last digit of
/// the larger one are dropped, and the sum is rounded (see `rounded`).
pub open spec fn fin_add(a: Decimal, b: Decimal) -> Number {
    if a.magnitude() == 0 {
        Number::Finite(b)
    } else if b.magnitude() == 0 {
        Number::Finite(a)
    } else {
        let t = add_exponent(a, b);
        let s = scaled(a, t) + scaled(b, t);
        rounded(s < 0, (if s < 0 { -s } else { s }) as nat, t)
    }
}

/// The opposite of a number.
pub open spec fn num_neg(x: Number) -> Number {
    match x {
        Number::Finite(a) => Number::Finite(dec_neg(a)),
        Number::Infinite(n) => Number::Infinite(!n),
        Number::NotANumber => Number::NotANumber,
    }
}

/// Sum of numbers, with the rules of floating-point infinities: opposite
/// infinities give not a number, an infinity absorbs a decimal.
pub open spec fn num_add(x: Number, y: Number) -> Number {
    match (x, y) {
        (Number::NotANumber, _) => Number::NotANumber,
        (_, Number::NotANumber) => Number::NotANumber,
        (Number::Infinite(p), Number::Infinite(q)) => if p == q {
            Number::Infinite(p)
        } else {
            Number::NotANumber
        },
        (Number::Infinite(p), Number::Finite(_)) => Number::Infinite(p),
        (Number::Finite(_), Number::Infinite(q)) => Number::Infinite(q),
        (Number::Finite(a), Number::Finite(b)) => fin_add(a, b),
    }
}

/// Difference of numbers: the sum with the opposite.
pub open spec fn num_sub(x: Number, y: Number) -> Number {
    num_add(x, num_neg(y))
}

/// Product of numbers, with the rules of floating-point infinities: an
/// infinity times zero is not a number, times anything else an infinity
/// whose sign is the product of the signs.
pub open spec fn num_mul(x: Number, y: Number) -> Number {
    match (x, y) {
        (Number::NotANumber, _) => Number::NotANumber,
        (_, Number::NotANumber) => Number::NotANumber,
        (Number::Infinite(p), Number::Infinite(q)) => Number::Infinite(p != q),
        (Number::Infinite(p), Number::Finite(b)) => if b.magnitude() == 0 {
            Number::NotANumber
        } else {
            Number::Infinite(p != b.neg_flag())
        },
        (Number::Finite(a), Number::Infinite(q)) => if a.magnitude() == 0 {
            Number::NotANumber
        } else {
            Number::Infinite(a.neg_flag() != q)
        },
        (Number::Finite(a), Number::Finite(b)) => fin_mul(a, b),
    }
}

/// Where the exact sum exists, the rounded sum is that sum.
pub proof fn lemma_fin_add_exact(a: Decimal, b: Decimal)
    requires
        dec_add(a, b) is Some,
    ensures
        fin_add(a, b) == Number::Finite(dec_add(a, b)->0),
{
    if a.magnitude() != 0 && b.magnitude() != 0 {
        let e = if a.exp() <= b.exp() { a.exp() } else { b.exp() };
        assert(add_exponent(a, b) == e);
        assert(pow10(0) == 1);
        assert(scaled(a, e) == signed(a) * pow10((a.exp() - e) as nat));
        assert(scaled(b, e) == signed(b) * pow10((b.exp() - e) as nat));
        let s = scaled(a, e) + scaled(b, e);
        lemma_rounded_exact(s < 0, (if s < 0 { -s } else { s }) as nat, e);
    }
}

/// Where the exact product exists, the rounded product is that product.
pub proof fn lemma_fin_mul_exact(a: Decimal, b: Decimal)
    requires
        dec_mul(a, b) is Some,
    ensures
        fin_mul(a, b) == Number::Finite(dec_mul(a, b)->0),
{
    lemma_rounded_exact(a.neg_flag() != b.neg_flag(), a.magnitude() * b.magnitude(), a.exp() + b.exp());
}

/// Exec helper: `shorten` on a 128-bit significand.
fn shorten_exec(m: u128, e: i64) -> (r: (u128, i64))
    requires
        m < pow10(37),
        -0x80_0000_0000 <= e <= 0x80_0000_0000,
    ensures
        (r.0 as nat, r.1 as int) == shorten(m as nat, e as int),
        r.0 < DIGITS_LIMIT,
        e <= r.1 <= e + 37,
{
    let mut m2 = m;
    let mut e2 = e;
    proof {
        assert(pow10(18) == DIGITS_LIMIT) by {
            reveal_with_fuel(pow10, 19);
        }
    }
    while m2 >= DIGITS_LIMIT as u128
        invariant
            shorten(m2 as nat, e2 as int) == shorten(m as nat, e as int),
            e <= e2 <= e + 37,
            m2 < pow10((37 - (e2 - e)) as nat),
            pow10(18) == DIGITS_LIMIT,
            -0x80_0000_0000 <= e <= 0x80_0000_0000,
        decreases m2,
    {
        let ghost k: int = e2 - e;
        proof {
            if 37 - k <= 18 {
                lemma_pow10_monotonic((37 - k) as nat, 18);
            }
            assert(37 - k >= 19);
            let n = (37 - k) as nat;
            assert(pow10(n) == 10 * pow10((n - 1) as nat));
            assert(m2 / 10 < pow10((n - 1) as nat)) by (nonlinear_arith)
                requires
                    m2 < pow10(n),
                    pow10(n) == 10 * pow10((n - 1) as nat),
            ;
        }
        m2 = m2 / 10;
        e2 = e2 + 1;
    }
    (m2, e2)
}

/// Exec helper: `rounded` on a 128-bit significand.
fn rounded_exec(neg: bool, m: u128, e: i64) -> (r: Number)
    requires
        m < pow10(37),
        -0x80_0000_0000 <= e <= 0x80_0000_0000,
    ensures
        r == rounded(neg, m as nat, e as int),
{
    let (m1, e1) = shorten_exec(m, e);
    proof {
        assert(pow10(37) > DIGITS_LIMIT) by {
            reveal_with_fuel(pow10, 38);
        }
    }
    match make_exec(neg, m1, e1) {
        Some(d) => Number::Finite(d),
        None => {
            let (_, e2) = strip_exec(m1, e1);
            if e2 > 0 {
                Number::Infinite(neg)
            } else {
                Number::Finite(Decimal::zero())
            }
        },
    }
}

impl Decimal {
    /// Product, rounded; see `fin_mul`.
    pub fn rounded_mul(&self, other: &Decimal) -> (r: Number)
        ensures
            r == fin_mul(*self, *other),
    {
        proof {
            use_type_invariant(self);
            use_type_invariant(other);
            assert(pow10(37) > 1_000_000_000_000_000_000_000_000_000_000_000_000) by {
                reveal_with_fuel(pow10, 38);
            }
            assert((self.digits as nat) * (other.digits as nat)
                < 1_000_000_000_000_000_000_000_000_000_000_000_000) by (nonlinear_arith)
                requires
                    self.digits < 1_000_000_000_000_000_000u64,
                    other.digits < 1_000_000_000_000_000_000u64,
            ;
        }
        let m = (self.digits as u128) * (other.digits as u128);
        let e = (self.exponent as i64) + (other.exponent as i64);
        rounded_exec(self.negative != other.negative, m, e)
    }

    /// Significand of `self` at the exponent `t`, and whether it is
    /// negative; see `scaled`.
    fn scaled_exec(&self, t: i64) -> (r: (bool, u128))
        requires
            self.exp() - t <= 18,
            i32::MIN - 18 <= t <= i32::MAX,
        ensures
            (if r.0 { -(r.1 as int) } else { r.1 as int }) == scaled(*self, t as int),
            r.1 < 1_000_000_000_000_000_000_000_000_000_000_000_000u128,
    {
        proof {
            use_type_invariant(self);
            assert(pow10(18) == 1_000_000_000_000_000_000) by {
                reveal_with_fuel(pow10, 19);
            }
        }
        if self.exponent as i64 >= t {
            let k = (self.exponent as i64 - t) as u32;
            let p = pow10_exec(k);
            proof {
                lemma_pow10_monotonic(k as nat, 18);
                assert((self.digits as nat) * (p as nat) < 1_000_000_000_000_000_000_000_000_000_000_000_000)
                    by (nonlinear_arith)
                    requires
                        self.digits < 1_000_000_000_000_000_000u64,
                        p <= 1_000_000_000_000_000_000u128,
                ;
            }
            let x = (self.digits as u128) * p;
            proof {
                if self.negative {
                    assert(signed(*self) * pow10(k as nat) == -(x as int)) by (nonlinear_arith)
                        requires
                            signed(*self) == -(self.digits as int),
                            x == self.digits * pow10(k as nat),
                    ;
                } else {
                    assert(signed(*self) * pow10(k as nat) == x as int) by (nonlinear_arith)
                        requires
                            signed(*self) == self.digits as int,
                            x == self.digits * pow10(k as nat),
                    ;
                }
            }
            (self.negative, x)
        } else {
            let k: i64 = t - self.exponent as i64;
            if k > 18 {
                proof {
                    lemma_pow10_monotonic(18, k as nat);
                    let d = self.digits as nat;
                    let q = pow10(k as nat);
                    assert(d / q == 0) by (nonlinear_arith)
                        requires
                            d < q,
                    ;
                }
                (self.negative, 0)
            } else {
                let p = pow10_exec(k as u32);
                proof {
                    lemma_pow10_positive(k as nat);
                    let d = self.digits as nat;
                    assert(d / (p as nat) <= d) by (nonlinear_arith)
                        requires
                            p >= 1,
                    ;
                }
                (self.negative, self.digits as u128 / p)
            }
        }
    }

    /// Sum, rounded; see `fin_add`.
    #[verifier::rlimit(60)]
    #[verifier::spinoff_prover]
    pub fn rounded_add(&self, other: &Decimal) -> (r: Number)
        ensures
            r == fin_add(*self, *other),
    {
        proof {
            use_type_invariant(self);
            use_type_invariant(other);
        }
        if self.digits == 0 {
            return Number::Finite(*other);
        }
        if other.digits == 0 {
            return Number::Finite(*self);
        }
        let ea = self.exponent as i64;
        let eb = other.exponent as i64;
        let hi = if ea >= eb { ea } else { eb };
        let lo = if ea >= eb { eb } else { ea };
        let t = if hi - lo > 18 { hi - 18 } else { lo };
        let (na, xa) = self.scaled_exec(t);
        let (nb, xb) = other.scaled_exec(t);
        let ghost s = scaled(*self, t as int) + scaled(*other, t as int);
        let (neg, mag): (bool, u128) = if na == nb {
            (na, xa + xb)
        } else if xa >= xb {
            (na, xa - xb)
        } else {
            (nb, xb - xa)
        };
        proof {
            assert(pow10(37) == 10_000_000_000_000_000_000_000_000_000_000_000_000) by {
                reveal_with_fuel(pow10, 38);
            }
            if mag != 0 {
                assert(neg == (s < 0));
            }
            assert(mag as int == (if s < 0 { -s } else { s }));
        }
        let r = rounded_exec(neg, mag, t);
        proof {
            if mag == 0 {
                assert(shorten(0, t as int) == (0nat, t as int));
                assert(rounded(s < 0, 0, t as int) == rounded(neg, 0, t as int));
            }
        }
        r
    }
}

/// The opposite of a number; see `num_neg`.
pub fn number_neg(x: Number) -> (r: Number)
    ensures
        r == num_neg(x),
{
    match x {
        Number::Finite(a) => Number::Finite(a.neg()),
        Number::Infinite(n) => Number::Infinite(!n),
        Number::NotANumber => Number::NotANumber,
    }
}

/// Sum of numbers; see `num_add`.
pub fn number_add(x: Number, y: Number) -> (r: Number)
    ensures
        r == num_add(x, y),
{
    match (x, y) {
        (Number::NotANumber, _) => Number::NotANumber,
        (_, Number::NotANumber) => Number::NotANumber,
        (Number::Infinite(p), Number::Infinite(q)) => if p == q {
            Number::Infinite(p)
        } else {
            Number::NotANumber
        },
        (Number::Infinite(p), Number::Finite(_)) => Number::Infinite(p),
        (Number::Finite(_), Number::Infinite(q)) => Number::Infinite(q),
        (Number::Finite(a), Number::Finite(b)) => a.rounded_add(&b),
    }
}

/// Difference of numbers; see `num_sub`.
pub fn number_sub(x: Number, y: Number) -> (r: Number)
    ensures
        r == num_sub(x, y),
{
    number_add(x, number_neg(y))
}

/// Product of numbers; see `num_mul`.
pub fn number_mul(x: Number, y: Number) -> (r: Number)
    ensures
        r == num_mul(x, y),
{
    match (x, y) {
        (Number::NotANumber, _) => Number::NotANumber,
        (_, Number::NotANumber) => Number::NotANumber,
        (Number::Infinite(p), Number::Infinite(q)) => Number::Infinite(p != q),
        (Number::Infinite(p), Number::Finite(b)) => if b.significand() == 0 {
            Number::NotANumber
        } else {
            Number::Infinite(p != b.is_negative())
        },
        (Number::Finite(a), Number::Infinite(q)) => if a.significand() == 0 {
            Number::NotANumber
        } else {
            Number::Infinite(a.is_negative() != q)
        },
        (Number::Finite(a), Number::Finite(b)) => a.rounded_mul(&b),
    }
}

/// Exponent part of a number: empty, or `e`/`E`, an optional sign and at
/// least one digit, of any size.
pub open spec fn exponent_value(r: Seq<char>) -> Option<int> {
    if r.len() == 0 {
        Some(0)
    } else if r[0] == 'e' || r[0] == 'E' {
        let t = r.skip(1);
        let esl: int = if t.len() > 0 && (t[0] == '-' || t[0] == '+') { 1 } else { 0 };
        let d = t.skip(esl);
        if d.len() > 0 && lead_digits(d) == d.len() {
            Some(if esl == 1 && t[0] == '-' { -digits_value(d) } else { digits_value(d) as int })
        } else {
            None
        }
    } else {
        None
    }
}

/// The value of a sign, `il` integer and `fl` fractional digits `ds`, and
/// the text `rest` of the exponent, rounded to a decimal (see `rounded`).
pub open spec fn value_from_parts(neg: bool, il: nat, fl: nat, ds: Seq<char>, rest: Seq<char>) -> Option<Number> {
    if il + fl == 0 {
        None
    } else {
        match exponent_value(rest) {
            None => None,
            Some(ev) => Some(rounded(neg, digits_value(ds), ev - fl)),
        }
    }
}

/// The value of a number text of the syntax of `parse_decimal`, with any
/// number of digits and any exponent, rounded (see `rounded`).
pub open spec fn number_value(s: Seq<char>) -> Option<Number> {
    let sl: int = if s.len() > 0 && (s[0] == '-' || s[0] == '+') { 1 } else { 0 };
    let neg = sl == 1 && s[0] == '-';
    let body = s.skip(sl);
    let il = lead_digits(body);
    let after = body.skip(il as int);
    let has_point = after.len() > 0 && after[0] == '.';
    let fl: nat = if has_point { lead_digits(after.skip(1)) } else { 0 };
    let rest = if has_point { after.skip(1 + fl as int) } else { after };
    let ds = body.take(il as int) + (if has_point { after.skip(1).take(fl as int) } else { seq![] });
    value_from_parts(neg, il, fl, ds, rest)
}

/// A run of digits is worth less than `10` to the power of its length.
proof fn lemma_digits_value_below(b: Seq<char>)
    requires
        forall|i: int| 0 <= i < b.len() ==> is_digit(#[trigger] b[i]),
    ensures
        digits_value(b) < pow10(b.len()),
    decreases b.len(),
{
    if b.len() > 0 {
        let b1 = b.drop_last();
        assert forall|i: int| 0 <= i < b1.len() implies is_digit(#[trigger] b1[i]) by {
            assert(b1[i] == b[i]);
        }
        lemma_digits_value_below(b1);
        assert(is_digit(b.last()));
        let x = digits_value(b1);
        let p = pow10(b1.len());
        assert(pow10(b.len()) == 10 * p);
        assert(x * 10 + digit_value(b.last()) < 10 * p) by (nonlinear_arith)
            requires
                x < p,
                digit_value(b.last()) <= 9,
        ;
    }
}

/// Cutting digits off a significand of 18 digits or more: the digits below
/// the first `q` places do not matter.
proof fn lemma_shorten_split(p: nat, q: nat, r: nat, e: int)
    requires
        p >= DIGITS_LIMIT,
        r < pow10(q),
    ensures
        shorten(p * pow10(q) + r, e) == shorten(p, e + q),
    decreases q,
{
    if q == 0 {
        assert(pow10(0) == 1);
        assert(p * 1 + r == p);
    } else {
        let q1 = (q - 1) as nat;
        let pq = pow10(q1);
        assert(pow10(q) == 10 * pq);
        let m = p * pow10(q) + r;
        assert(m >= DIGITS_LIMIT) by (nonlinear_arith)
            requires
                p >= DIGITS_LIMIT,
                pq >= 1,
                m == p * (10 * pq) + r,
        {
        }
        assert(m / 10 == p * pq + r / 10 && r / 10 < pq) by (nonlinear_arith)
            requires
                m == p * (10 * pq) + r,
                r < 10 * pq,
                pq >= 1,
        ;
        lemma_pow10_positive(q1);
        lemma_shorten_split(p, q1, r / 10, e + 1);
        assert(e + 1 + q1 == e + q);
    }
}

/// Rounding where the exponent is far out of the `i32` range: an infinity
/// above it, zero below it; zero is zero at any exponent.
proof fn lemma_rounded_far(neg: bool, m: nat, e: int)
    requires
        m < 10 * DIGITS_LIMIT,
        m == 0 || e > 0x80_0000_0000 || e < -0x80_0000_0000,
    ensures
        m == 0 ==> rounded(neg, m, e) == Number::Finite(Decimal::spec_zero()),
        m != 0 && e > 0 ==> rounded(neg, m, e) == Number::Infinite(neg),
        m != 0 && e < 0 ==> rounded(neg, m, e) == Number::Finite(Decimal::spec_zero()),
{
    let (m1, e1) = shorten(m, e);
    if m >= DIGITS_LIMIT {
        assert(m / 10 < DIGITS_LIMIT);
        assert(shorten(m / 10, e + 1) == (m / 10, e + 1));
        assert(m / 10 > 0);
    }
    assert(e <= e1 <= e + 1);
    assert(m1 < DIGITS_LIMIT);
    assert(m != 0 ==> m1 != 0);
    lemma_strip_value(m1, e1);
    let (m2, e2) = strip(m1, e1);
    if m1 != 0 {
        let k = (e2 - e1) as nat;
        lemma_pow10_positive(k);
        assert(m2 >= 1) by (nonlinear_arith)
            requires
                m2 * pow10(k) == m1,
                m1 != 0,
        ;
        assert(pow10(k) <= m1) by (nonlinear_arith)
            requires
                m2 * pow10(k) == m1,
                m2 >= 1,
        ;
        assert(pow10(18) == DIGITS_LIMIT) by {
            reveal_with_fuel(pow10, 19);
        }
        if k > 18 {
            lemma_pow10_monotonic(18, k);
        }
        assert(k <= 18);
    }
}

/// The uppercase form of the letters of `inf`, `infinity` and `nan`.
pub open spec fn upper(c: char) -> char {
    match c {
        'a' => 'A',
        'f' => 'F',
        'i' => 'I',
        'n' => 'N',
        't' => 'T',
        'y' => 'Y',
        _ => c,
    }
}

fn upper_exec(c: char) -> (r: char)
    ensures
        r == upper(c),
{
    match c {
        'a' => 'A',
        'f' => 'F',
        'i' => 'I',
        'n' => 'N',
        't' => 'T',
        'y' => 'Y',
        _ => c,
    }
}

/// `s` is the lowercase word `w` with any of its letters in uppercase.
pub open spec fn same_word(s: Seq<char>, w: Seq<char>) -> bool {
    &&& s.len() == w.len()
    &&& forall|i: int| 0 <= i < s.len() ==> (#[trigger] s[i] == w[i] || s[i] == upper(w[i]))
}

/// The value of the words a floating-point reader takes for infinities and
/// not a number: an optional sign, then `inf`, `infinity` or `nan` in any
/// case.
pub open spec fn special_value(s: Seq<char>) -> Option<Number> {
    let sl: int = if s.len() > 0 && (s[0] == '-' || s[0] == '+') { 1 } else { 0 };
    let w = s.skip(sl);
    if same_word(w, "inf"@) || same_word(w, "infinity"@) {
        Some(Number::Infinite(sl == 1 && s[0] == '-'))
    } else if same_word(w, "nan"@) {
        Some(Number::NotANumber)
    } else {
        None
    }
}

/// Reads a value written as a number (see `parse_decimal` for the syntax;
/// here with any number of digits and any exponent), rounded to 18
/// significant digits where it has more (see `rounded`: an infinity where
/// the power of ten is beyond the `i32` range, zero where it is below it),
/// or as one of the words of `special_value`. `None` for any other text.
pub open spec fn parse_number(s: Seq<char>) -> Option<Number> {
    match special_value(s) {
        Some(v) => Some(v),
        None => number_value(s),
    }
}

/// Where `parse_decimal` reads a decimal, `parse_number` reads the same.
pub proof fn lemma_parse_number_decimal(s: Seq<char>)
    requires
        parse_decimal(s) is Some,
    ensures
        parse_number(s) == Some(Number::Finite(parse_decimal(s)->0)),
{
    lemma_parse_decimal_parts(s);
    let (n, m, e) = number_parts(s)->0;
    lemma_rounded_exact(n, m, e);
    let sl: int = if s.len() > 0 && (s[0] == '-' || s[0] == '+') { 1 } else { 0 };
    let w = s.skip(sl);
    if w.len() > 0 {
        assert(!is_digit(w[0]) && w[0] != '.' ==> parse_decimal(s) is None) by {
            if !is_digit(w[0]) && w[0] != '.' {
                lemma_parse_needs_a_digit(s);
            }
        }
    }
    assert(special_value(s) is None) by {
        reveal_strlit("inf");
        reveal_strlit("infinity");
        reveal_strlit("nan");
        if w.len() > 0 {
            assert(!is_digit(w[0]) && w[0] != '.' ==> parse_decimal(s) is None);
        } else {
            assert(number_parts(s) is None) by {
                assert(lead_digits(w) == 0);
                assert(w.skip(0) =~= w);
            }
        }
    }
}

/// Whether `s` from `p` on is the word `w` in any case; see `same_word`.
fn same_word_at(s: &Vec<char>, p: usize, w: &str) -> (r: bool)
    requires
        p <= s.len(),
    ensures
        r == same_word(s@.skip(p as int), w@),
{
    let wc = chars_of_str(w);
    if s.len() - p != wc.len() {
        return false;
    }
    let mut i: usize = 0;
    while i < wc.len()
        invariant
            i <= wc.len(),
            s.len() - p == wc.len(),
            wc@ == w@,
            forall|j: int| 0 <= j < i ==> (#[trigger] s@.skip(p as int)[j] == wc@[j] || s@.skip(p as int)[j] == upper(wc@[j])),
        decreases wc.len() - i,
    {
        let c = s[p + i];
        let d = wc[i];
        if !(c == d || c == upper_exec(d)) {
            proof {
                assert(s@.skip(p as int)[i as int] == c);
                assert(!(s@.skip(p as int)[i as int] == w@[i as int] || s@.skip(p as int)[i as int] == upper(
                    w@[i as int],
                )));
            }
            return false;
        }
        proof {
            assert(s@.skip(p as int)[i as int] == c);
        }
        i = i + 1;
    }
    true
}

/// The significand of a run of digits cut to fewer than 20 digits: `acc` is
/// the value of the first digits of `d`, and the `q` digits after them are
/// dropped, which happens only once `acc` has 18 digits or more.
pub open spec fn cut_digits(d: Seq<char>, acc: nat, q: nat) -> bool {
    &&& q <= d.len()
    &&& digits_value(d.take(d.len() - q)) == acc
    &&& q > 0 ==> acc >= DIGITS_LIMIT
}

/// Rounding the value of a run of digits is rounding its cut significand
/// with the power of ten raised by the number of dropped digits.
proof fn lemma_cut_digits(d: Seq<char>, acc: nat, q: nat, neg: bool, e: int)
    requires
        cut_digits(d, acc, q),
        forall|i: int| 0 <= i < d.len() ==> is_digit(#[trigger] d[i]),
    ensures
        rounded(neg, digits_value(d), e) == rounded(neg, acc, e + q),
{
    let d1 = d.take(d.len() - q);
    let d2 = d.skip(d.len() - q);
    assert(d =~= d1 + d2);
    lemma_digits_value_concat(d1, d2);
    if q == 0 {
        assert(d2.len() == 0);
        assert(digits_value(d2) == 0);
        assert(pow10(0) == 1);
        assert(digits_value(d) == acc * 1 + 0);
    } else {
        assert forall|i: int| 0 <= i < d2.len() implies is_digit(#[trigger] d2[i]) by {
            assert(d2[i] == d[i + d.len() - q]);
        }
        lemma_digits_value_below(d2);
        lemma_shorten_split(acc, q, digits_value(d2), e);
    }
}

/// Reads the digits of `s` from `p` on, cutting the significand as
/// `cut_digits` says; returns the end of the run, the significand and the
/// number of digits dropped in all.
fn scan_cut(s: &Vec<char>, p: usize, acc0: u128, q0: usize, Ghost(pre): Ghost<Seq<char>>) -> (r: (usize, u128, usize))
    requires
        p <= s.len(),
        pre.len() <= p,
        cut_digits(pre, acc0 as nat, q0 as nat),
        acc0 < 10 * DIGITS_LIMIT,
        forall|i: int| 0 <= i < pre.len() ==> is_digit(#[trigger] pre[i]),
    ensures
        p <= r.0 <= s.len(),
        forall|j: int| p <= j < r.0 ==> is_digit(#[trigger] s@[j]),
        r.0 == s.len() || !is_digit(s@[r.0 as int]),
        cut_digits(pre + s@.subrange(p as int, r.0 as int), r.1 as nat, r.2 as nat),
        r.1 < 10 * DIGITS_LIMIT,
        forall|i: int| 0 <= i < (pre + s@.subrange(p as int, r.0 as int)).len() ==> is_digit(
            #[trigger] (pre + s@.subrange(p as int, r.0 as int))[i],
        ),
{
    let mut i = p;
    let mut acc = acc0;
    let mut q = q0;
    assert(pre + s@.subrange(p as int, p as int) =~= pre);
    while i < s.len() && '0' <= s[i] && s[i] <= '9'
        invariant
            p <= i <= s.len(),
            pre.len() <= p,
            forall|j: int| p <= j < i ==> is_digit(#[trigger] s@[j]),
            cut_digits(pre + s@.subrange(p as int, i as int), acc as nat, q as nat),
            acc < 10 * DIGITS_LIMIT,
            forall|k: int| 0 <= k < (pre + s@.subrange(p as int, i as int)).len() ==> is_digit(
                #[trigger] (pre + s@.subrange(p as int, i as int))[k],
            ),
        decreases s.len() - i,
    {
        let ghost d = pre + s@.subrange(p as int, i as int);
        let ghost d2 = pre + s@.subrange(p as int, i + 1);
        proof {
            assert(d2 =~= d.push(s@[i as int]));
        }
        if acc < DIGITS_LIMIT as u128 {
            let dg = (s[i] as u32 - 48) as u128;
            proof {
                assert(q == 0);
                assert(d.take(d.len() - 0) =~= d);
                assert(d2.take(d2.len() - 0) =~= d2);
                lemma_digits_value_push(d, s@[i as int]);
            }
            acc = acc * 10 + dg;
        } else {
            proof {
                assert(d2.take(d2.len() - (q + 1)) =~= d.take(d.len() - q));
            }
            q = q + 1;
        }
        i = i + 1;
        proof {
            assert forall|k: int| 0 <= k < d2.len() implies is_digit(#[trigger] d2[k]) by {
                if k < d.len() {
                    assert(d2[k] == d[k]);
                }
            }
        }
    }
    (i, acc, q)
}

/// `r` reads the exponent `x`: `None` where there is none, otherwise its
/// sign and value, or only its sign where it reaches `10^30`.
pub open spec fn exponent_read(x: Option<int>, r: Option<(bool, u128, bool)>) -> bool {
    match r {
        None => x is None,
        Some((eneg, v, big)) => {
            &&& x is Some
            &&& !big ==> x->0 == (if eneg { -(v as int) } else { v as int })
            &&& !big ==> v < 1_000_000_000_000_000_000_000_000_000_000u128
            &&& big && eneg ==> x->0 <= -1_000_000_000_000_000_000_000_000_000_000
            &&& big && !eneg ==> x->0 >= 1_000_000_000_000_000_000_000_000_000_000
        },
    }
}

/// Exponent part of the text from `p` to its end, with its value cut at
/// `10^30`: the sign, the value, and whether it reaches `10^30`.
fn scan_exponent(s: &Vec<char>, p: usize) -> (r: Option<(bool, u128, bool)>)
    requires
        p <= s.len(),
    ensures
        exponent_read(exponent_value(s@.skip(p as int)), r),
{
    let ghost r0 = s@.skip(p as int);
    let n = s.len();
    if p == n {
        return Some((false, 0, false));
    }
    if !(s[p] == 'e' || s[p] == 'E') {
        return None;
    }
    let j = p + 1;
    let ghost t = r0.skip(1);
    proof {
        assert(t =~= s@.skip(j as int));
    }
    let esl: usize = if j < n && (s[j] == '-' || s[j] == '+') { 1 } else { 0 };
    let eneg = j < n && s[j] == '-';
    let k = j + esl;
    let ghost d = t.skip(esl as int);
    proof {
        assert(d =~= s@.skip(k as int));
    }
    let cap: u128 = 1_000_000_000_000_000_000_000_000_000_000;
    let mut i = k;
    let mut v: u128 = 0;
    let mut big = false;
    proof {
        assert(s@.subrange(k as int, k as int) =~= Seq::<char>::empty());
    }
    while i < n && '0' <= s[i] && s[i] <= '9'
        invariant
            k <= i <= n,
            n == s.len(),
            forall|jj: int| k <= jj < i ==> is_digit(#[trigger] s@[jj]),
            !big ==> v as nat == digits_value(s@.subrange(k as int, i as int)) && v < cap,
            big ==> digits_value(s@.subrange(k as int, i as int)) >= cap,
            cap == 1_000_000_000_000_000_000_000_000_000_000u128,
        decreases n - i,
    {
        let ghost dd = s@.subrange(k as int, i as int);
        proof {
            assert(s@.subrange(k as int, i + 1) =~= dd.push(s@[i as int]));
            lemma_digits_value_push(dd, s@[i as int]);
        }
        if !big {
            let dg = (s[i] as u32 - 48) as u128;
            let next = v * 10 + dg;
            if next >= cap {
                big = true;
            } else {
                v = next;
            }
        }
        i = i + 1;
    }
    proof {
        lemma_lead_digits(s@, k as int, i as int);
    }
    if i == k || i != n {
        proof {
            if i != n && d.len() > 0 {
                assert(lead_digits(d) == i - k);
            }
        }
        return None;
    }
    proof {
        assert(s@.subrange(k as int, i as int) =~= d);
    }
    Some((eneg, v, big))
}

/// The rounded value of the digits `ds` (cut to `acc`, with `q` digits
/// dropped), of which `fl` are fractional, and the exponent `ev` read as
/// `ex`.
fn finish_number(
    neg: bool,
    acc: u128,
    q: usize,
    fl: usize,
    ex: (bool, u128, bool),
    Ghost(ds): Ghost<Seq<char>>,
    Ghost(ev): Ghost<int>,
) -> (r: Number)
    requires
        cut_digits(ds, acc as nat, q as nat),
        forall|i: int| 0 <= i < ds.len() ==> is_digit(#[trigger] ds[i]),
        acc < 10 * DIGITS_LIMIT,
        exponent_read(Some(ev), Some(ex)),
    ensures
        r == rounded(neg, digits_value(ds), ev - fl),
{
    let (eneg, v, big) = ex;
    proof {
        lemma_cut_digits(ds, acc as nat, q as nat, neg, ev - fl);
    }
    if acc == 0 {
        proof {
            lemma_rounded_far(neg, 0, ev - fl + q);
        }
        return Number::Finite(Decimal::zero());
    }
    if big {
        proof {
            lemma_rounded_far(neg, acc as nat, ev - fl + q);
        }
        return if eneg {
            Number::Finite(Decimal::zero())
        } else {
            Number::Infinite(neg)
        };
    }
    let evi: i128 = if eneg { -(v as i128) } else { v as i128 };
    let e: i128 = evi - fl as i128 + q as i128;
    if e > 0x80_0000_0000 || e < -0x80_0000_0000 {
        proof {
            lemma_rounded_far(neg, acc as nat, ev - fl + q);
        }
        if e > 0 {
            Number::Infinite(neg)
        } else {
            Number::Finite(Decimal::zero())
        }
    } else {
        proof {
            assert(pow10(37) > 10 * DIGITS_LIMIT) by {
                reveal_with_fuel(pow10, 38);
            }
        }
        rounded_exec(neg, acc, e as i64)
    }
}

/// Reads a value; see `parse_number`.
pub fn parse_number_exec(s: &Vec<char>) -> (r: Option<Number>)
    ensures
        r == parse_number(s@),
{
    let n = s.len();
    let sl: usize = if n > 0 && (s[0] == '-' || s[0] == '+') { 1 } else { 0 };
    let neg = sl == 1 && s[0] == '-';
    if same_word_at(s, sl, "inf") || same_word_at(s, sl, "infinity") {
        return Some(Number::Infinite(neg));
    }
    if same_word_at(s, sl, "nan") {
        return Some(Number::NotANumber);
    }
    let ghost empty = Seq::<char>::empty();
    proof {
        assert(empty.take(0) =~= empty);
        assert(digits_value(empty) == 0);
    }
    let (i1, acc1, q1) = scan_cut(s, sl, 0, 0, Ghost(empty));
    proof {
        lemma_lead_digits(s@, sl as int, i1 as int);
        assert(empty + s@.subrange(sl as int, i1 as int) =~= s@.subrange(sl as int, i1 as int));
    }
    let has_point = i1 < n && s[i1] == '.';
    let (i2, acc, q) = if has_point {
        scan_cut(s, i1 + 1, acc1, q1, Ghost(s@.subrange(sl as int, i1 as int)))
    } else {
        (i1, acc1, q1)
    };
    let ghost ds = s@.subrange(sl as int, i1 as int) + (if has_point { s@.subrange(i1 + 1, i2 as int) } else { seq![] });
    proof {
        if has_point {
            lemma_lead_digits(s@, i1 + 1, i2 as int);
        } else {
            assert(ds =~= s@.subrange(sl as int, i1 as int));
        }
        lemma_parse_parts(s@, sl as int, i1 as int, i2 as int, has_point);
    }
    let il = i1 - sl;
    let fl: usize = if has_point { i2 - i1 - 1 } else { 0 };
    if il == 0 && fl == 0 {
        return None;
    }
    match scan_exponent(s, i2) {
        None => None,
        Some(ex) => Some(finish_number(neg, acc, q, fl, ex, Ghost(ds), Ghost(exponent_value(s@.skip(i2 as int))->0))),
    }
}

/// A decimal is taken for zero exactly when its value lies strictly
/// between `-0.00001` and `0.00001`.
pub proof fn lemma_is_zero_real(a: Decimal)
    ensures
        dec_is_zero(a) <==> (-(1real / 100000real) < real_value(a) && real_value(a) < 1real / 100000real),
{
    let m = a.magnitude();
    let e = a.exp();
    let tol = 1real / 100000real;
    assert(pow10(5) == 100000) by {
        reveal_with_fuel(pow10, 6);
    }
    assert(p10(-5) == tol);
    let v = real_value(a);
    let mr = m as real;
    assert(v == (if a.neg_flag() { -mr } else { mr }) * p10(e));
    lemma_p10_positive(e);
    if m == 0 {
        assert(v == 0real) by {
            assert(signed(a) == 0);
        }
        assert(tol > 0real);
    } else {
        let av = mr * p10(e);
        assert(v == av || v == -av) by {
            if a.neg_flag() {
                assert((-mr) * p10(e) == -(mr * p10(e))) by (nonlinear_arith);
            }
        }
        assert(mr >= 1real);
        assert(av > 0real) by (nonlinear_arith)
            requires
                av == mr * p10(e),
                mr >= 1real,
                p10(e) > 0real,
        ;
        if e >= -5 {
            let k = (e + 5) as nat;
            lemma_p10_add(-5, e + 5);
            assert(p10(e + 5) == pow10(k) as real);
            lemma_pow10_positive(k);
            assert(av >= tol) by (nonlinear_arith)
                requires
                    av == mr * p10(e),
                    p10(e) == tol * p10(e + 5),
                    p10(e + 5) >= 1real,
                    mr >= 1real,
                    tol > 0real,
            ;
            assert(!dec_is_zero(a));
        } else {
            let k = (-5 - e) as nat;
            lemma_p10_add(-5, e + 5);
            let q = pow10(k) as real;
            lemma_pow10_positive(k);
            assert(p10(e + 5) == 1real / q);
            assert(dec_is_zero(a) == (m < pow10(k)));
            if m < pow10(k) {
                assert(mr + 1real <= q);
                assert(av < tol) by (nonlinear_arith)
                    requires
                        av == mr * p10(e),
                        p10(e) == tol * (1real / q),
                        mr + 1real <= q,
                        q >= 1real,
                        tol > 0real,
                ;
            } else {
                assert(mr >= q);
                assert(av >= tol) by (nonlinear_arith)
                    requires
                        av == mr * p10(e),
                        p10(e) == tol * (1real / q),
                        mr >= q,
                        q >= 1real,
                        tol > 0real,
                ;
            }
        }
    }
}

/// The value of the decimal one.
pub proof fn lemma_one_real()
    ensures
        make(false, 1, 0) is Some,
        real_value(int_dec(1)) == 1real,
{
    assert(strip(1, 0) == (1nat, 0int));
    lemma_make_real(false, 1, 0);
    assert(pow10(0) == 1);
    assert(p10(0) == 1real);
}

proof fn lemma_pow10_above(n: nat)
    ensures
        pow10(n) > n,
    decreases n,
{
    if n > 0 {
        lemma_pow10_above((n - 1) as nat);
    }
}

/// The value of the decimal of an `i32` is that integer.
pub proof fn lemma_int_dec_real(i: int)
    requires
        i32::MIN <= i <= i32::MAX,
    ensures
        make(i < 0, (if i < 0 { -i } else { i }) as nat, 0) is Some,
        real_value(int_dec(i)) == i as real,
{
    let a: nat = (if i < 0 { -i } else { i }) as nat;
    lemma_strip_value(a, 0);
    let (m2, e2) = strip(a, 0);
    let k = e2 as nat;
    lemma_pow10_positive(k);
    lemma_pow10_above(k);
    if a > 0 {
        assert(m2 >= 1 && pow10(k) <= a) by (nonlinear_arith)
            requires
                m2 * pow10(k) == a,
                pow10(k) >= 1,
                a > 0,
        ;
    } else {
        assert(strip(0, 0) == (0nat, 0int));
    }
    lemma_strip_bound(a, 0);
    assert(a < DIGITS_LIMIT);
    lemma_make_real(i < 0, a, 0);
    assert(p10(0) == 1real) by {
        assert(pow10(0) == 1);
    }
    assert((if i < 0 { -(a as real) } else { a as real }) == i as real);
}

} // verus!

//! Fixed-precision decimal numbers.
//!
//! A [`Decimal`] is a signed 96-bit mantissa together with a number of
//! fractional digits between 0 and 28. Values are kept in canonical form (no
//! trailing fractional zeros), so two decimals are equal exactly when they
//! denote the same number. Contracts speak of a decimal through its view: the
//! number it denotes, counted in units of 10^-28.
//!
//! All arithmetic is carried out by the `rust_decimal` crate. Sums, differences
//! and products are either exact or refused; quotients are rounded by
//! `rust_decimal` and are therefore only named here, not computed in
//! specifications.
use vstd::prelude::*;

verus! {

/// Largest number of fractional digits a decimal can carry.
pub const MAX_SCALE: u32 = 28;

/// Ten to the power `e`.
pub open spec fn pow10(e: nat) -> int
    decreases e,
{
    if e == 0 {
        1
    } else {
        10 * pow10((e - 1) as nat)
    }
}

/// Exclusive bound on the magnitude of a mantissa: 2^96.
pub open spec fn mantissa_limit() -> int {
    79228162514264337593543950336
}

/// Worth of one unit in the last place at `scale` fractional digits, counted
/// in units of 10^-28.
pub open spec fn unit(scale: nat) -> int {
    pow10((28 - scale) as nat)
}

/// The number `m / 10^s`, counted in units of 10^-28.
pub open spec fn scaled(m: int, s: nat) -> int {
    m * unit(s)
}

/// Absolute value of an integer.
pub open spec fn magnitude(v: int) -> int {
    if v < 0 {
        -v
    } else {
        v
    }
}

/// A mantissa and scale that `rust_decimal` can hold.
pub open spec fn representable(m: int, s: nat) -> bool {
    -mantissa_limit() < m < mantissa_limit() && s <= MAX_SCALE
}

/// A representable pair without trailing fractional zeros.
pub open spec fn canonical(m: int, s: nat) -> bool {
    representable(m, s) && (s > 0 ==> m % 10 != 0)
}

/// `v` rounded to the nearest multiple of `u`, ties going to the even
/// multiple.
pub open spec fn round_half_even(v: int, u: int) -> int {
    let q = v / u;
    let r = v % u;
    if 2 * r < u {
        q * u
    } else if 2 * r > u {
        (q + 1) * u
    } else if q % 2 == 0 {
        q * u
    } else {
        (q + 1) * u
    }
}

/// The mantissa and scale that `rust_decimal` gives for the quotient of
/// `am / 10^asc` by `bm / 10^bsc`, or `None` where it reports no quotient.
pub uninterp spec fn decimal_quotient(am: i128, asc: u32, bm: i128, bsc: u32) -> Option<(i128, u32)>;

/// Powers of ten are positive.
pub proof fn lemma_pow10_positive(e: nat)
    ensures
        pow10(e) >= 1,
    decreases e,
{
    if e > 0 {
        lemma_pow10_positive((e - 1) as nat);
    }
}

/// Ten to a sum is the product of the powers.
pub proof fn lemma_pow10_adds(a: nat, b: nat)
    ensures
        pow10(a + b) == pow10(a) * pow10(b),
    decreases a,
{
    if a > 0 {
        lemma_pow10_adds((a - 1) as nat, b);
        assert(pow10(a + b) == 10 * pow10((a - 1 + b) as nat));
        assert(10 * (pow10((a - 1) as nat) * pow10(b)) == (10 * pow10((a - 1) as nat)) * pow10(b))
            by (nonlinear_arith);
    } else {
        assert(pow10(a) * pow10(b) == pow10(b));
    }
}

/// Higher powers of ten are larger.
pub proof fn lemma_pow10_monotonic(a: nat, b: nat)
    requires
        a <= b,
    ensures
        pow10(a) <= pow10(b),
    decreases b,
{
    if a < b {
        lemma_pow10_monotonic(a, (b - 1) as nat);
        lemma_pow10_positive((b - 1) as nat);
    }
}

/// Ten to the power 28, written out.
pub proof fn lemma_pow10_28()
    ensures
        pow10(28) == 10000000000000000000000000000,
{
    reveal_with_fuel(pow10, 30);
}

/// One step up in scale is worth a tenth: `unit(s) == 10 * unit(s + 1)`.
pub proof fn lemma_unit_step(s: nat)
    requires
        s < 28,
    ensures
        unit(s) == 10 * unit(s + 1),
        unit(s + 1) >= 1,
{
    lemma_pow10_positive((27 - s) as nat);
}

/// `unit(lo) == pow10(hi - lo) * unit(hi)` for `lo <= hi <= 28`.
pub proof fn lemma_unit_split(lo: nat, hi: nat)
    requires
        lo <= hi <= 28,
    ensures
        unit(lo) == pow10((hi - lo) as nat) * unit(hi),
        unit(hi) >= 1,
        pow10((hi - lo) as nat) >= 1,
{
    lemma_pow10_adds((hi - lo) as nat, (28 - hi) as nat);
    lemma_pow10_positive((28 - hi) as nat);
    lemma_pow10_positive((hi - lo) as nat);
}

/// A canonical pair cannot denote the same number as one at a coarser scale.
proof fn lemma_canonical_scale(ma: int, sa: nat, mb: int, sb: nat)
    requires
        canonical(ma, sa),
        canonical(mb, sb),
        scaled(ma, sa) == scaled(mb, sb),
    ensures
        sa >= sb,
{
    if sa < sb {
        lemma_unit_split(sa, sb);
        let k = pow10((sb - sa) as nat);
        let u = unit(sb);
        assert(ma * k == mb) by (nonlinear_arith)
            requires
                ma * (k * u) == mb * u,
                u >= 1,
        ;
        lemma_pow10_positive((sb - sa - 1) as nat);
        let k1 = pow10((sb - sa - 1) as nat);
        assert(k == 10 * k1);
        assert(mb == 10 * (ma * k1)) by (nonlinear_arith)
            requires
                ma * k == mb,
                k == 10 * k1,
        ;
        assert(false);
    }
}

/// Two canonical pairs that denote the same number are the same pair.
pub proof fn lemma_canonical_unique(ma: int, sa: nat, mb: int, sb: nat)
    requires
        canonical(ma, sa),
        canonical(mb, sb),
        scaled(ma, sa) == scaled(mb, sb),
    ensures
        ma == mb,
        sa == sb,
{
    lemma_canonical_scale(ma, sa, mb, sb);
    lemma_canonical_scale(mb, sb, ma, sa);
    lemma_pow10_positive((28 - sa) as nat);
    let u = unit(sa);
    assert(ma == mb) by (nonlinear_arith)
        requires
            ma * u == mb * u,
            u >= 1,
    ;
}

/// A decimal number in canonical form.
#[derive(Clone, Copy, Debug, PartialEq, Eq, Hash, Structural)]
pub struct Decimal {
    mantissa: i128,
    scale: u32,
}

impl View for Decimal {
    type V = int;

    /// The number denoted, in units of 10^-28.
    closed spec fn view(&self) -> int {
        scaled(self.mantissa as int, self.scale as nat)
    }
}

impl Decimal {
    /// Every decimal is canonical.
    #[verifier::type_invariant]
    pub closed spec fn wf(self) -> bool {
        canonical(self.mantissa as int, self.scale as nat)
    }

    /// Number of fractional digits of the canonical form.
    pub closed spec fn digits(self) -> nat {
        self.scale as nat
    }

    /// Mantissa of the canonical form.
    pub closed spec fn coefficient(self) -> int {
        self.mantissa as int
    }

    /// The canonical decimal that denotes `v` units of 10^-28, where there is
    /// one.
    pub closed spec fn of_value(v: int) -> Decimal {
        choose|d: Decimal| d.wf() && d@ == v
    }

    /// Whether `self + rhs` is computed: both operands and their sum fit in a
    /// mantissa once brought to the finer of the two scales.
    pub open spec fn add_fits(self, rhs: Decimal) -> bool {
        let s = if self.digits() >= rhs.digits() {
            self.digits()
        } else {
            rhs.digits()
        };
        &&& magnitude(self@) < mantissa_limit() * unit(s)
        &&& magnitude(rhs@) < mantissa_limit() * unit(s)
        &&& magnitude(self@ + rhs@) < mantissa_limit() * unit(s)
    }

    /// Whether `self * rhs` is computed: a factor is zero, or the product of
    /// the mantissas fits and the scales add up to at most 28.
    pub open spec fn mul_fits(self, rhs: Decimal) -> bool {
        self@ == 0 || rhs@ == 0 || (self.digits() + rhs.digits() <= 28 && magnitude(
            self.coefficient() * rhs.coefficient(),
        ) < mantissa_limit())
    }

    /// The negated decimal.
    pub open spec fn spec_neg(self) -> Decimal {
        Decimal::of_value(-self@)
    }

    /// The exact sum, where it is computed.
    pub open spec fn spec_checked_add(self, rhs: Decimal) -> Option<Decimal> {
        if self.add_fits(rhs) {
            Some(Decimal::of_value(self@ + rhs@))
        } else {
            None
        }
    }

    /// The exact difference, where it is computed.
    pub open spec fn spec_checked_sub(self, rhs: Decimal) -> Option<Decimal> {
        self.spec_checked_add(rhs.spec_neg())
    }

    /// The exact product, where it is computed.
    pub open spec fn spec_checked_mul(self, rhs: Decimal) -> Option<Decimal> {
        if self.mul_fits(rhs) {
            Some(Decimal::of_value((self@ * rhs@) / unit(0)))
        } else {
            None
        }
    }

    /// The quotient as `rust_decimal` rounds it, brought to canonical form.
    pub closed spec fn spec_checked_div(self, rhs: Decimal) -> Option<Decimal> {
        match decimal_quotient(self.mantissa, self.scale, rhs.mantissa, rhs.scale) {
            Some((m, s)) => Some(Decimal::of_value(scaled(m as int, s as nat))),
            None => None,
        }
    }

    /// The value rounded half-to-even to `dp` fractional digits.
    pub open spec fn spec_round_dp(self, dp: nat) -> Decimal {
        if dp >= 28 {
            self
        } else {
            Decimal::of_value(round_half_even(self@, unit(dp)))
        }
    }

    /// Equal views mean equal decimals.
    pub proof fn lemma_view_injective(a: Decimal, b: Decimal)
        requires
            a.wf(),
            b.wf(),
            a@ == b@,
        ensures
            a == b,
    {
        lemma_canonical_unique(a.mantissa as int, a.scale as nat, b.mantissa as int, b.scale as nat);
    }

    /// `of_value` gives back the decimal whose view it is handed.
    pub proof fn lemma_of_value(d: Decimal)
        requires
            d.wf(),
        ensures
            Decimal::of_value(d@) == d,
    {
        let c = Decimal::of_value(d@);
        assert(c.wf() && c@ == d@);
        Decimal::lemma_view_injective(c, d);
    }

    /// What a decimal is made of: its mantissa and its number of fractional
    /// digits are a canonical pair, and the view is the number they denote.
    pub proof fn lemma_parts(self)
        requires
            self.wf(),
        ensures
            canonical(self.coefficient(), self.digits()),
            self@ == scaled(self.coefficient(), self.digits()),
    {
    }

    /// A decimal is zero exactly when its mantissa is.
    pub proof fn lemma_sign(self)
        requires
            self.wf(),
        ensures
            (self@ == 0) == (self.coefficient() == 0),
            (self@ > 0) == (self.coefficient() > 0),
            (self@ < 0) == (self.coefficient() < 0),
    {
        lemma_pow10_positive((28 - self.scale) as nat);
        let m = self.mantissa as int;
        let u = unit(self.scale as nat);
        assert((m * u == 0) == (m == 0) && (m * u > 0) == (m > 0) && (m * u < 0) == (m < 0))
            by (nonlinear_arith)
            requires
                u >= 1,
        ;
    }
}

/// The canonical pair that denotes the same number as `(m, s)`.
spec fn canonical_pair(m: int, s: nat) -> (int, nat)
    decreases s,
{
    if s > 0 && m % 10 == 0 {
        canonical_pair(m / 10, (s - 1) as nat)
    } else {
        (m, s)
    }
}

proof fn lemma_canonical_pair(m: int, s: nat)
    requires
        representable(m, s),
    ensures
        canonical(canonical_pair(m, s).0, canonical_pair(m, s).1),
        scaled(canonical_pair(m, s).0, canonical_pair(m, s).1) == scaled(m, s),
    decreases s,
{
    if s > 0 && m % 10 == 0 {
        lemma_canonical_pair(m / 10, (s - 1) as nat);
        lemma_unit_step((s - 1) as nat);
        let q = m / 10;
        let u = unit(s);
        assert(q * (10 * u) == (10 * q) * u) by (nonlinear_arith);
    }
}

/// The error of decimal arithmetic: a result that does not fit.
#[derive(Clone, Copy, Debug, PartialEq, Eq, Structural)]
pub struct Overflow;

impl Decimal {
    /// The decimal zero.
    pub open spec fn spec_zero() -> Decimal {
        Decimal::of_value(0)
    }

    /// Zero is a decimal.
    pub proof fn lemma_spec_zero()
        ensures
            Decimal::spec_zero().wf(),
            Decimal::spec_zero()@ == 0,
    {
        assert(scaled(0, 0) == 0);
        Decimal::lemma_of_value_scaled(0, 0);
    }

    /// Zero is a decimal, and adding it to a decimal gives that decimal.
    pub proof fn lemma_zero(d: Decimal)
        requires
            d.wf(),
        ensures
            Decimal::spec_zero().wf(),
            Decimal::spec_zero()@ == 0,
            Decimal::spec_zero().spec_checked_add(d) == Some(d),
            d.spec_checked_add(Decimal::spec_zero()) == Some(d),
    {
        assert(scaled(0, 0) == 0);
        Decimal::lemma_of_value_scaled(0, 0);
        let z = Decimal::spec_zero();
        let zero = Decimal { mantissa: 0, scale: 0 };
        assert(zero.wf() && zero@ == 0);
        Decimal::lemma_view_injective(z, zero);
        let s = d.scale as nat;
        lemma_pow10_positive((28 - s) as nat);
        lemma_magnitude_scales(d.mantissa as int, mantissa_limit(), unit(s));
        assert(magnitude(0) < mantissa_limit() * unit(s)) by (nonlinear_arith)
            requires
                unit(s) >= 1,
                mantissa_limit() > 0,
                magnitude(0) == 0,
        ;
        Decimal::lemma_of_value(d);
    }

    /// Every number that a mantissa and scale can denote has its canonical
    /// decimal.
    pub proof fn lemma_of_value_scaled(m: int, s: nat)
        requires
            representable(m, s),
        ensures
            Decimal::of_value(scaled(m, s)).wf(),
            Decimal::of_value(scaled(m, s))@ == scaled(m, s),
    {
        lemma_canonical_pair(m, s);
        let c = canonical_pair(m, s);
        let d = Decimal { mantissa: c.0 as i128, scale: c.1 as u32 };
        assert(d.wf() && d@ == scaled(m, s));
    }

    /// The negation of a decimal denotes the negated number.
    pub proof fn lemma_neg(self)
        requires
            self.wf(),
        ensures
            self.spec_neg().wf(),
            self.spec_neg()@ == -self@,
    {
        let m = self.mantissa as int;
        let u = unit(self.scale as nat);
        assert((-m) * u == -(m * u)) by (nonlinear_arith);
        Decimal::lemma_of_value_scaled(-m, self.scale as nat);
    }

    /// Where a sum is computed it is the exact sum.
    pub proof fn lemma_checked_add(self, rhs: Decimal)
        requires
            self.wf(),
            rhs.wf(),
        ensures
            self.spec_checked_add(rhs) matches Some(x) ==> x.wf() && x@ == self@ + rhs@,
    {
        if self.add_fits(rhs) {
            let s: nat = if self.scale >= rhs.scale {
                self.scale as nat
            } else {
                rhs.scale as nat
            };
            lemma_align(self.mantissa as int, self.scale as nat, s);
            lemma_align(rhs.mantissa as int, rhs.scale as nat, s);
            lemma_unit_split(s, s);
            let x = self.mantissa * pow10((s - self.scale) as nat);
            let y = rhs.mantissa * pow10((s - rhs.scale) as nat);
            let u = unit(s);
            assert((x + y) * u == x * u + y * u) by (nonlinear_arith);
            lemma_magnitude_scales(x + y, mantissa_limit(), u);
            Decimal::lemma_of_value_scaled(x + y, s);
        }
    }

    /// Where a difference is computed it is the exact difference.
    pub proof fn lemma_checked_sub(self, rhs: Decimal)
        requires
            self.wf(),
            rhs.wf(),
        ensures
            self.spec_checked_sub(rhs) matches Some(x) ==> x.wf() && x@ == self@ - rhs@,
    {
        rhs.lemma_neg();
        self.lemma_checked_add(rhs.spec_neg());
    }

    /// Where a product is computed it is the exact product.
    pub proof fn lemma_checked_mul(self, rhs: Decimal)
        requires
            self.wf(),
            rhs.wf(),
        ensures
            self.spec_checked_mul(rhs) matches Some(x) ==> x.wf() && x@ * unit(0) == self@ * rhs@,
    {
        lemma_pow10_positive(28);
        self.lemma_sign();
        rhs.lemma_sign();
        let a = self@;
        let b = rhs@;
        let u0 = unit(0);
        if a == 0 || b == 0 {
            assert(a * b == 0) by (nonlinear_arith)
                requires
                    a == 0 || b == 0,
            ;
            assert(0int / u0 == 0) by (nonlinear_arith)
                requires
                    u0 >= 1,
            ;
            assert(scaled(0, 0) == 0);
            Decimal::lemma_of_value_scaled(0, 0);
        } else if self.mul_fits(rhs) {
            let x = self.mantissa as int;
            let y = rhs.mantissa as int;
            let ua = unit(self.scale as nat);
            let ub = unit(rhs.scale as nat);
            let uc = unit((self.scale + rhs.scale) as nat);
            lemma_unit_product(self.scale as nat, rhs.scale as nat);
            assert((x * ua) * (y * ub) == ((x * y) * uc) * u0) by (nonlinear_arith)
                requires
                    ua * ub == uc * u0,
            ;
            let v = (x * y) * uc;
            assert((v * u0) / u0 == v) by (nonlinear_arith)
                requires
                    u0 >= 1,
            ;
            Decimal::lemma_of_value_scaled(x * y, (self.scale + rhs.scale) as nat);
        }
    }
}

proof fn lemma_magnitude_scales(x: int, l: int, u: int)
    requires
        u >= 1,
    ensures
        (magnitude(x * u) < l * u) == (magnitude(x) < l),
        magnitude(x * u) == magnitude(x) * u,
{
    assert(magnitude(x * u) == magnitude(x) * u) by (nonlinear_arith)
        requires
            u >= 1,
    ;
    let a = magnitude(x);
    assert((a * u < l * u) == (a < l)) by (nonlinear_arith)
        requires
            u >= 1,
    ;
}

/// Bringing `m / 10^lo` to the finer scale `hi` multiplies the mantissa by
/// `10^(hi - lo)`.
proof fn lemma_align(m: int, lo: nat, hi: nat)
    requires
        lo <= hi <= 28,
    ensures
        scaled(m, lo) == scaled(m * pow10((hi - lo) as nat), hi),
        (magnitude(scaled(m, lo)) < mantissa_limit() * unit(hi)) == (magnitude(
            m * pow10((hi - lo) as nat),
        ) < mantissa_limit()),
{
    lemma_unit_split(lo, hi);
    let k = pow10((hi - lo) as nat);
    let u = unit(hi);
    assert(m * (k * u) == (m * k) * u) by (nonlinear_arith);
    lemma_magnitude_scales(m * k, mantissa_limit(), u);
}

proof fn lemma_unit_product(sa: nat, sb: nat)
    requires
        sa + sb <= 28,
    ensures
        unit(sa) * unit(sb) == unit(sa + sb) * unit(0),
        unit(0) >= 1,
{
    lemma_pow10_adds((28 - sa) as nat, (28 - sb) as nat);
    lemma_pow10_adds((28 - sa - sb) as nat, 28);
    lemma_pow10_positive(28);
}

fn pow10_exec(k: u32) -> (r: u128)
    requires
        k <= 28,
    ensures
        r == pow10(k as nat),
        1 <= r <= 10000000000000000000000000000,
{
    let mut r: u128 = 1;
    let mut i: u32 = 0;
    while i < k
        invariant
            i <= k <= 28,
            r == pow10(i as nat),
        decreases k - i,
    {
        proof {
            lemma_pow10_monotonic((i + 1) as nat, 28);
            lemma_pow10_28();
        }
        r = r * 10;
        i = i + 1;
    }
    proof {
        lemma_pow10_monotonic(k as nat, 28);
        lemma_pow10_28();
        lemma_pow10_positive(k as nat);
    }
    r
}

fn magnitude_exec(m: i128) -> (r: u128)
    requires
        -mantissa_limit() < m < mantissa_limit(),
    ensures
        r == magnitude(m as int),
        r < mantissa_limit(),
{
    if m < 0 {
        (-m) as u128
    } else {
        m as u128
    }
}

fn signed(negative: bool, mag: u128) -> (r: i128)
    requires
        mag < mantissa_limit(),
    ensures
        r == if negative {
            -(mag as int)
        } else {
            mag as int
        },
{
    if negative {
        -(mag as i128)
    } else {
        mag as i128
    }
}

/// `m * 10^k` where its magnitude stays below the mantissa limit.
fn scale_up(m: i128, k: u32) -> (r: Option<i128>)
    requires
        -mantissa_limit() < m < mantissa_limit(),
        k <= 28,
    ensures
        match r {
            Some(v) => v == m * pow10(k as nat) && magnitude(v as int) < mantissa_limit(),
            None => magnitude(m * pow10(k as nat)) >= mantissa_limit(),
        },
{
    let p: u128 = pow10_exec(k);
    let mag: u128 = magnitude_exec(m);
    let top: u128 = 79228162514264337593543950335;
    let bound: u128 = top / p;
    proof {
        let pi = p as int;
        let bi = bound as int;
        let mi = mag as int;
        assert(bi * pi <= top && top < bi * pi + pi) by (nonlinear_arith)
            requires
                bi == (top as int) / pi,
                pi >= 1,
        ;
        assert(mi <= bi ==> mi * pi <= top) by (nonlinear_arith)
            requires
                bi * pi <= top,
                pi >= 1,
                mi >= 0,
        ;
        assert(mi > bi ==> mi * pi > top) by (nonlinear_arith)
            requires
                top < bi * pi + pi,
                pi >= 1,
        ;
        lemma_magnitude_scales(m as int, mantissa_limit(), pi);
    }
    if mag <= bound {
        let v: u128 = mag * p;
        proof {
            let mi = m as int;
            let pi = p as int;
            assert((-mi) * pi == -(mi * pi)) by (nonlinear_arith);
        }
        Some(signed(m < 0, v))
    } else {
        None
    }
}

/// Brings a representable pair to canonical form.
fn canonicalize(m: i128, s: u32) -> (r: Decimal)
    requires
        representable(m as int, s as nat),
    ensures
        r@ == scaled(m as int, s as nat),
        r.wf(),
{
    let negative = m < 0;
    let mut mag: u128 = magnitude_exec(m);
    let mut sc: u32 = s;
    while sc > 0 && mag % 10 == 0
        invariant
            sc <= s <= 28,
            mag < mantissa_limit(),
            mag * unit(sc as nat) == magnitude(m as int) * unit(s as nat),
        decreases sc,
    {
        proof {
            lemma_unit_step((sc - 1) as nat);
            let q = (mag / 10) as int;
            let u = unit(sc as nat);
            assert(q * (10 * u) == (10 * q) * u) by (nonlinear_arith);
        }
        mag = mag / 10;
        sc = sc - 1;
    }
    let mantissa: i128 = signed(negative, mag);
    proof {
        let u0 = unit(s as nat);
        let u1 = unit(sc as nat);
        let mi = m as int;
        let gi = mag as int;
        assert(mantissa * u1 == mi * u0) by (nonlinear_arith)
            requires
                gi * u1 == magnitude(mi) * u0,
                mantissa == if mi < 0 {
                    -gi
                } else {
                    gi
                },
                magnitude(mi) == if mi < 0 {
                    -mi
                } else {
                    mi
                },
        ;
    }
    Decimal { mantissa, scale: sc }
}

/// Calls `rust_decimal`'s `+` on two decimals built from the given mantissas
/// and scales. Claimed: where both operands and their sum fit in a mantissa at
/// the finer of the two scales, the crate returns the exact sum.
#[verifier::external_body]
fn raw_add(am: i128, asc: u32, bm: i128, bsc: u32) -> (r: (i128, u32))
    requires
        representable(am as int, asc as nat),
        representable(bm as int, bsc as nat),
        ({
            let s: nat = if asc >= bsc {
                asc as nat
            } else {
                bsc as nat
            };
            &&& magnitude(scaled(am as int, asc as nat)) < mantissa_limit() * unit(s)
            &&& magnitude(scaled(bm as int, bsc as nat)) < mantissa_limit() * unit(s)
            &&& magnitude(scaled(am as int, asc as nat) + scaled(bm as int, bsc as nat))
                < mantissa_limit() * unit(s)
        }),
    ensures
        representable(r.0 as int, r.1 as nat),
        scaled(r.0 as int, r.1 as nat) == scaled(am as int, asc as nat) + scaled(
            bm as int,
            bsc as nat,
        ),
{
    let a = rust_decimal::Decimal::from_i128_with_scale(am, asc);
    let b = rust_decimal::Decimal::from_i128_with_scale(bm, bsc);
    let sum = a + b;
    (sum.mantissa(), sum.scale())
}

/// Calls `rust_decimal`'s `*` on two non-zero decimals. Claimed: where the
/// scales add up to at most 28 and the product of the mantissas fits, the
/// crate returns that product at the sum of the scales.
#[verifier::external_body]
fn raw_mul(am: i128, asc: u32, bm: i128, bsc: u32) -> (r: (i128, u32))
    requires
        representable(am as int, asc as nat),
        representable(bm as int, bsc as nat),
        am != 0,
        bm != 0,
        asc + bsc <= 28,
        magnitude(am * bm) < mantissa_limit(),
    ensures
        r.0 == am * bm,
        r.1 == asc + bsc,
{
    let a = rust_decimal::Decimal::from_i128_with_scale(am, asc);
    let b = rust_decimal::Decimal::from_i128_with_scale(bm, bsc);
    let product = a * b;
    (product.mantissa(), product.scale())
}

/// Calls `rust_decimal`'s `checked_div`. The quotient is rounded by the crate
/// and only named here. Claimed: a zero divisor gives `None`, and whatever
/// comes back is a mantissa and scale that the crate can hold.
#[verifier::external_body]
fn raw_div(am: i128, asc: u32, bm: i128, bsc: u32) -> (r: Option<(i128, u32)>)
    requires
        representable(am as int, asc as nat),
        representable(bm as int, bsc as nat),
    ensures
        r == decimal_quotient(am, asc, bm, bsc),
        bm == 0 ==> r is None,
        r matches Some(q) ==> representable(q.0 as int, q.1 as nat),
{
    let a = rust_decimal::Decimal::from_i128_with_scale(am, asc);
    let b = rust_decimal::Decimal::from_i128_with_scale(bm, bsc);
    a.checked_div(b).map(|q| (q.mantissa(), q.scale()))
}

/// Calls `rust_decimal`'s `round_dp`. Claimed: the result is the value
/// rounded to `dp` fractional digits, ties going to the even digit.
#[verifier::external_body]
fn raw_round_dp(am: i128, asc: u32, dp: u32) -> (r: (i128, u32))
    requires
        representable(am as int, asc as nat),
        dp <= 28,
    ensures
        representable(r.0 as int, r.1 as nat),
        scaled(r.0 as int, r.1 as nat) == round_half_even(
            scaled(am as int, asc as nat),
            unit(dp as nat),
        ),
{
    let rounded = rust_decimal::Decimal::from_i128_with_scale(am, asc).round_dp(dp);
    (rounded.mantissa(), rounded.scale())
}

/// Calls `rust_decimal`'s `<`. Claimed: the crate orders decimals by the
/// numbers they denote.
#[verifier::external_body]
fn raw_lt(am: i128, asc: u32, bm: i128, bsc: u32) -> (r: bool)
    requires
        representable(am as int, asc as nat),
        representable(bm as int, bsc as nat),
    ensures
        r == (scaled(am as int, asc as nat) < scaled(bm as int, bsc as nat)),
{
    let a = rust_decimal::Decimal::from_i128_with_scale(am, asc);
    let b = rust_decimal::Decimal::from_i128_with_scale(bm, bsc);
    a < b
}

impl Decimal {
    /// The decimal `num / 10^scale`.
    pub fn new(num: i64, scale: u32) -> (r: Decimal)
        requires
            scale <= MAX_SCALE,
        ensures
            r@ == scaled(num as int, scale as nat),
            r.wf(),
    {
        canonicalize(num as i128, scale)
    }

    /// The decimal `mantissa / 10^scale`, or `None` where the mantissa needs
    /// more than 96 bits or the scale is above 28.
    pub fn from_parts(mantissa: i128, scale: u32) -> (r: Option<Decimal>)
        ensures
            match r {
                Some(d) => representable(mantissa as int, scale as nat) && d.wf() && d@ == scaled(
                    mantissa as int,
                    scale as nat,
                ),
                None => !representable(mantissa as int, scale as nat),
            },
    {
        if scale <= 28 && mantissa > -79228162514264337593543950336 && mantissa
            < 79228162514264337593543950336 {
            Some(canonicalize(mantissa, scale))
        } else {
            None
        }
    }

    pub fn zero() -> (r: Decimal)
        ensures
            r@ == 0,
            r.wf(),
            r == Decimal::spec_zero(),
    {
        let r = Decimal { mantissa: 0, scale: 0 };
        proof {
            assert(scaled(0, 0) == 0);
            Decimal::lemma_of_value(r);
        }
        r
    }

    pub fn one() -> (r: Decimal)
        ensures
            r@ == unit(0),
            r.wf(),
    {
        Decimal { mantissa: 1, scale: 0 }
    }

    pub fn one_hundred() -> (r: Decimal)
        ensures
            r@ == 100 * unit(0),
            r.wf(),
    {
        Decimal { mantissa: 100, scale: 0 }
    }

    pub fn mantissa(&self) -> (r: i128)
        ensures
            r == self.coefficient(),
            -mantissa_limit() < r < mantissa_limit(),
    {
        proof {
            use_type_invariant(self);
        }
        self.mantissa
    }

    pub fn scale(&self) -> (r: u32)
        ensures
            r == self.digits(),
            r <= 28,
    {
        proof {
            use_type_invariant(self);
        }
        self.scale
    }

    pub fn is_zero(&self) -> (r: bool)
        ensures
            r == (self@ == 0),
    {
        proof {
            use_type_invariant(self);
            self.lemma_sign();
        }
        self.mantissa == 0
    }

    /// True for zero and above, as in `rust_decimal`.
    pub fn is_sign_positive(&self) -> (r: bool)
        ensures
            r == (self@ >= 0),
    {
        proof {
            use_type_invariant(self);
            self.lemma_sign();
        }
        self.mantissa >= 0
    }

    pub fn is_sign_negative(&self) -> (r: bool)
        ensures
            r == (self@ < 0),
    {
        proof {
            use_type_invariant(self);
            self.lemma_sign();
        }
        self.mantissa < 0
    }

    /// -1, 0 or 1 by the sign of the value.
    pub fn signum(&self) -> (r: i8)
        ensures
            r == if self@ < 0 {
                -1int
            } else if self@ == 0 {
                0
            } else {
                1
            },
    {
        proof {
            use_type_invariant(self);
            self.lemma_sign();
        }
        if self.mantissa < 0 {
            -1
        } else if self.mantissa == 0 {
            0
        } else {
            1
        }
    }

    pub fn neg(&self) -> (r: Decimal)
        ensures
            r@ == -self@,
            r == self.spec_neg(),
            r.wf(),
    {
        proof {
            use_type_invariant(self);
        }
        let r = Decimal { mantissa: -self.mantissa, scale: self.scale };
        proof {
            let m = self.mantissa as int;
            let u = unit(self.scale as nat);
            assert((-m) * u == -(m * u)) by (nonlinear_arith);
            Decimal::lemma_of_value(r);
        }
        r
    }

    pub fn abs(&self) -> (r: Decimal)
        ensures
            r@ == magnitude(self@),
            r.wf(),
    {
        proof {
            use_type_invariant(self);
        }
        if self.is_sign_negative() {
            self.neg()
        } else {
            *self
        }
    }

    /// The exact sum, or `None` where [`Decimal::add_fits`] does not hold.
    pub fn checked_add(self, rhs: Decimal) -> (r: Option<Decimal>)
        ensures
            r == self.spec_checked_add(rhs),
            r matches Some(x) ==> x.wf() && x@ == self@ + rhs@,
    {
        proof {
            use_type_invariant(&self);
            use_type_invariant(&rhs);
        }
        let s: u32 = if self.scale >= rhs.scale {
            self.scale
        } else {
            rhs.scale
        };
        proof {
            lemma_align(self.mantissa as int, self.scale as nat, s as nat);
            lemma_align(rhs.mantissa as int, rhs.scale as nat, s as nat);
            lemma_unit_split(s as nat, s as nat);
        }
        let a = scale_up(self.mantissa, s - self.scale);
        let b = scale_up(rhs.mantissa, s - rhs.scale);
        match (a, b) {
            (Some(x), Some(y)) => {
                let sum: i128 = x + y;
                proof {
                    let u = unit(s as nat);
                    assert((x + y) * u == x * u + y * u) by (nonlinear_arith);
                    lemma_magnitude_scales(sum as int, mantissa_limit(), u);
                }
                if sum > -79228162514264337593543950336 && sum < 79228162514264337593543950336 {
                    let (m, sc) = raw_add(self.mantissa, self.scale, rhs.mantissa, rhs.scale);
                    let d = canonicalize(m, sc);
                    proof {
                        Decimal::lemma_of_value(d);
                    }
                    Some(d)
                } else {
                    None
                }
            },
            _ => None,
        }
    }

    /// The exact difference, or `None` where it does not fit.
    pub fn checked_sub(self, rhs: Decimal) -> (r: Option<Decimal>)
        ensures
            r == self.spec_checked_sub(rhs),
            r matches Some(x) ==> x.wf() && x@ == self@ - rhs@,
    {
        self.checked_add(rhs.neg())
    }

    /// The exact product, or `None` where [`Decimal::mul_fits`] does not hold.
    pub fn checked_mul(self, rhs: Decimal) -> (r: Option<Decimal>)
        ensures
            r == self.spec_checked_mul(rhs),
            r matches Some(x) ==> x.wf() && x@ * unit(0) == self@ * rhs@,
    {
        proof {
            use_type_invariant(&self);
            use_type_invariant(&rhs);
            self.lemma_sign();
            rhs.lemma_sign();
            lemma_pow10_positive(28);
        }
        if self.mantissa == 0 || rhs.mantissa == 0 {
            let z = Decimal::zero();
            proof {
                let a = self@;
                let b = rhs@;
                assert(a * b == 0) by (nonlinear_arith)
                    requires
                        a == 0 || b == 0,
                ;
                assert(0int / unit(0) == 0) by (nonlinear_arith)
                    requires
                        unit(0) >= 1,
                ;
                Decimal::lemma_of_value(z);
            }
            Some(z)
        } else if self.scale + rhs.scale > 28 {
            None
        } else {
            let ma: u128 = magnitude_exec(self.mantissa);
            let mb: u128 = magnitude_exec(rhs.mantissa);
            let top: u128 = 79228162514264337593543950335;
            let bound: u128 = top / mb;
            proof {
                let ai = ma as int;
                let bi = mb as int;
                let qi = bound as int;
                assert(qi * bi <= top && top < qi * bi + bi) by (nonlinear_arith)
                    requires
                        qi == (top as int) / bi,
                        bi >= 1,
                ;
                assert(ai <= qi ==> ai * bi <= top) by (nonlinear_arith)
                    requires
                        qi * bi <= top,
                        bi >= 1,
                        ai >= 0,
                ;
                assert(ai > qi ==> ai * bi > top) by (nonlinear_arith)
                    requires
                        top < qi * bi + bi,
                        bi >= 1,
                ;
                let x = self.mantissa as int;
                let y = rhs.mantissa as int;
                assert(magnitude(x * y) == magnitude(x) * magnitude(y)) by (nonlinear_arith);
            }
            if ma <= bound {
                let (m, sc) = raw_mul(self.mantissa, self.scale, rhs.mantissa, rhs.scale);
                let d = canonicalize(m, sc);
                proof {
                    let x = self.mantissa as int;
                    let y = rhs.mantissa as int;
                    let ua = unit(self.scale as nat);
                    let ub = unit(rhs.scale as nat);
                    let uc = unit((self.scale + rhs.scale) as nat);
                    let u0 = unit(0);
                    lemma_unit_product(self.scale as nat, rhs.scale as nat);
                    assert((x * ua) * (y * ub) == ((x * y) * uc) * u0) by (nonlinear_arith)
                        requires
                            ua * ub == uc * u0,
                    ;
                    let v = d@;
                    assert((v * u0) / u0 == v) by (nonlinear_arith)
                        requires
                            u0 >= 1,
                    ;
                    Decimal::lemma_of_value(d);
                }
                Some(d)
            } else {
                None
            }
        }
    }

    /// The quotient as `rust_decimal` computes and rounds it; `None` for a
    /// zero divisor and where `rust_decimal` reports an overflow.
    pub fn checked_div(self, rhs: Decimal) -> (r: Option<Decimal>)
        ensures
            r == self.spec_checked_div(rhs),
            rhs@ == 0 ==> r is None,
            r matches Some(x) ==> x.wf(),
    {
        proof {
            use_type_invariant(&self);
            use_type_invariant(&rhs);
            rhs.lemma_sign();
        }
        match raw_div(self.mantissa, self.scale, rhs.mantissa, rhs.scale) {
            Some((m, sc)) => {
                let d = canonicalize(m, sc);
                proof {
                    Decimal::lemma_of_value(d);
                }
                Some(d)
            },
            None => None,
        }
    }

    /// The value rounded to `dp` fractional digits, ties to even.
    pub fn round_dp(self, dp: u32) -> (r: Decimal)
        ensures
            r == self.spec_round_dp(dp as nat),
            r.wf(),
            dp < 28 ==> r@ == round_half_even(self@, unit(dp as nat)),
    {
        proof {
            use_type_invariant(&self);
        }
        if dp >= 28 {
            self
        } else {
            let (m, sc) = raw_round_dp(self.mantissa, self.scale, dp);
            let d = canonicalize(m, sc);
            proof {
                Decimal::lemma_of_value(d);
            }
            d
        }
    }

    pub fn lt(&self, rhs: &Decimal) -> (r: bool)
        ensures
            r == (self@ < rhs@),
    {
        proof {
            use_type_invariant(self);
            use_type_invariant(rhs);
        }
        raw_lt(self.mantissa, self.scale, rhs.mantissa, rhs.scale)
    }

    pub fn le(&self, rhs: &Decimal) -> (r: bool)
        ensures
            r == (self@ <= rhs@),
    {
        !rhs.lt(self)
    }

    pub fn gt(&self, rhs: &Decimal) -> (r: bool)
        ensures
            r == (self@ > rhs@),
    {
        rhs.lt(self)
    }

    pub fn ge(&self, rhs: &Decimal) -> (r: bool)
        ensures
            r == (self@ >= rhs@),
    {
        !self.lt(rhs)
    }

    /// The larger of the two.
    pub fn max(self, rhs: Decimal) -> (r: Decimal)
        ensures
            r == if rhs@ >= self@ {
                rhs
            } else {
                self
            },
    {
        if rhs.ge(&self) {
            rhs
        } else {
            self
        }
    }
}

} // verus!

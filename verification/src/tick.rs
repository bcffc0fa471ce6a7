//! Tick quantization: exact, orderable integer prices at a fixed scale.
//!
//! A decimal price is held as plain integers (`Price`), and every book is
//! indexed by `Tick`, the price in units of `1 / PRICE_SCALE`.

use vstd::prelude::*;

verus! {

/// A price in units of `1 / PRICE_SCALE`.
pub type Tick = i64;

/// Number of ticks in one whole unit of price.
pub const PRICE_SCALE: i64 = 10_000;

/// Number of fractional decimal digits that a tick keeps.
pub const PRICE_DECIMALS: u32 = 4;

/// Largest number of fractional digits a `Price` can carry.
pub const MAX_PRICE_DECIMALS: u32 = 28;

/// Largest magnitude of a `Price` mantissa: `2^96 - 1`.
pub const MAX_PRICE_MANTISSA: i128 = 79_228_162_514_264_337_593_543_950_335;

/// Ten to the power `n`.
pub open spec fn pow10(n: nat) -> nat
    decreases n,
{
    if n == 0 {
        1
    } else {
        10 * pow10((n - 1) as nat)
    }
}

/// `n / d` rounded to the nearest integer, an exact half going to the even
/// neighbour.
pub open spec fn round_half_even(n: nat, d: nat) -> nat
    recommends
        d > 0,
{
    let q = n / d;
    let r = n % d;
    if 2 * r < d {
        q
    } else if 2 * r > d {
        q + 1
    } else if q % 2 == 0 {
        q
    } else {
        q + 1
    }
}

/// `x` limited to the range of `Tick`.
pub open spec fn clamp_tick(x: int) -> int {
    if x < i64::MIN {
        i64::MIN as int
    } else if x > i64::MAX {
        i64::MAX as int
    } else {
        x
    }
}

/// The magnitude of `x`.
pub open spec fn magnitude(x: int) -> nat {
    if x < 0 {
        (-x) as nat
    } else {
        x as nat
    }
}

/// The tick nearest to the decimal `mantissa / 10^scale`: the decimal times
/// `PRICE_SCALE`, rounded half-to-even on its magnitude, then limited to the
/// range of `Tick` on the side of its sign.
pub open spec fn tick_of(mantissa: int, scale: nat) -> int {
    let rounded = round_half_even(magnitude(mantissa) * PRICE_SCALE as nat, pow10(scale));
    if mantissa < 0 {
        clamp_tick(-(rounded as int))
    } else {
        clamp_tick(rounded as int)
    }
}

/// The decimal `mantissa / 10^scale` with every trailing fractional zero
/// removed: the same value at the lowest scale that holds it.
pub open spec fn normalized(mantissa: int, scale: nat) -> (int, nat)
    decreases scale,
{
    if scale > 0 && mantissa % 10 == 0 {
        normalized(mantissa / 10, (scale - 1) as nat)
    } else {
        (mantissa, scale)
    }
}

/// Whether two decimals, each given as mantissa and scale, are the same number.
pub open spec fn same_decimal(m1: int, s1: nat, m2: int, s2: nat) -> bool {
    m1 * pow10(s2) == m2 * pow10(s1)
}

/// A finite decimal price `mantissa / 10^scale`.
///
/// The mantissa is below `2^96` in magnitude and the scale is at most 28.
#[derive(Clone, Copy, Debug)]
pub struct Price {
    mantissa: i128,
    scale: u32,
}

impl Price {
    #[verifier::type_invariant]
    spec fn inv(self) -> bool {
        &&& -MAX_PRICE_MANTISSA <= self.mantissa <= MAX_PRICE_MANTISSA
        &&& self.scale <= MAX_PRICE_DECIMALS
    }

    /// The integer that the decimal point is applied to.
    pub closed spec fn spec_mantissa(self) -> int {
        self.mantissa as int
    }

    /// The number of fractional decimal digits.
    pub closed spec fn spec_scale(self) -> nat {
        self.scale as nat
    }

    /// The price `mantissa / 10^scale`, or `None` when the mantissa needs more
    /// than 96 bits or the scale is above 28.
    pub fn new(mantissa: i128, scale: u32) -> (r: Option<Price>)
        ensures
            r is Some <==> (-MAX_PRICE_MANTISSA <= mantissa <= MAX_PRICE_MANTISSA && scale
                <= MAX_PRICE_DECIMALS),
            r is Some ==> r->0.spec_mantissa() == mantissa && r->0.spec_scale() == scale,
    {
        if mantissa < -MAX_PRICE_MANTISSA || mantissa > MAX_PRICE_MANTISSA || scale
            > MAX_PRICE_DECIMALS {
            None
        } else {
            Some(Price { mantissa, scale })
        }
    }

    /// The whole number `units` as a price.
    pub fn from_units(units: i64) -> (r: Price)
        ensures
            r.spec_mantissa() == units,
            r.spec_scale() == 0,
    {
        Price { mantissa: units as i128, scale: 0 }
    }

    /// The integer that the decimal point is applied to.
    pub fn mantissa(&self) -> (r: i128)
        ensures
            r == self.spec_mantissa(),
            -MAX_PRICE_MANTISSA <= r <= MAX_PRICE_MANTISSA,
    {
        proof {
            use_type_invariant(self);
        }
        self.mantissa
    }

    /// The number of fractional decimal digits.
    pub fn scale(&self) -> (r: u32)
        ensures
            r == self.spec_scale(),
            r <= MAX_PRICE_DECIMALS,
    {
        proof {
            use_type_invariant(self);
        }
        self.scale
    }
}

/// `pow10` grows with its argument, and is never zero.
pub proof fn lemma_pow10_monotonic(a: nat, b: nat)
    requires
        a <= b,
    ensures
        0 < pow10(a) <= pow10(b),
    decreases b,
{
    if b == 0 {
    } else if a == b {
        lemma_pow10_monotonic(0, (b - 1) as nat);
    } else {
        lemma_pow10_monotonic(a, (b - 1) as nat);
    }
}

/// `pow10` turns a sum of exponents into a product.
pub proof fn lemma_pow10_add(a: nat, b: nat)
    ensures
        pow10(a + b) == pow10(a) * pow10(b),
    decreases b,
{
    if b == 0 {
        assert(pow10(a) * 1 == pow10(a));
    } else {
        lemma_pow10_add(a, (b - 1) as nat);
        assert(pow10(a + b) == 10 * pow10((a + b - 1) as nat));
        assert(10 * (pow10(a) * pow10((b - 1) as nat)) == pow10(a) * (10 * pow10((b - 1) as nat)))
            by (nonlinear_arith);
    }
}

/// The values of `pow10` that the limits of this module rest on.
pub proof fn lemma_pow10_values()
    ensures
        pow10(0) == 1,
        pow10(1) == 10,
        pow10(2) == 100,
        pow10(3) == 1_000,
        pow10(4) == 10_000,
        pow10(8) == 100_000_000,
        pow10(28) == 10_000_000_000_000_000_000_000_000_000,
{
    reveal_with_fuel(pow10, 30);
}

/// Ten to the power `n` as a machine integer.
fn pow10_exec(n: u32) -> (r: u128)
    requires
        n <= MAX_PRICE_DECIMALS,
    ensures
        r == pow10(n as nat),
        0 < r <= 10_000_000_000_000_000_000_000_000_000,
{
    let mut r: u128 = 1;
    let mut i: u32 = 0;
    proof {
        lemma_pow10_values();
    }
    while i < n
        invariant
            i <= n <= MAX_PRICE_DECIMALS,
            r == pow10(i as nat),
            pow10(28) == 10_000_000_000_000_000_000_000_000_000,
        decreases n - i,
    {
        proof {
            lemma_pow10_monotonic((i + 1) as nat, 28);
        }
        r = r * 10;
        i = i + 1;
    }
    proof {
        lemma_pow10_monotonic(n as nat, 28);
    }
    r
}

/// Converts a decimal price to the nearest tick.
///
/// The price is multiplied by `PRICE_SCALE` and rounded half-to-even; a result
/// outside the range of `Tick` becomes the extreme of the same sign.
pub fn price_to_tick(p: Price) -> (t: Tick)
    ensures
        t == tick_of(p.spec_mantissa(), p.spec_scale()),
{
    let m = p.mantissa();
    let s = p.scale();
    let negative = m < 0;
    let a: u128 = if negative {
        (-m) as u128
    } else {
        m as u128
    };
    let d = pow10_exec(s);
    let n: u128 = a * 10_000;
    let q: u128 = n / d;
    let r: u128 = n % d;
    let up: bool = if 2 * r < d {
        false
    } else if 2 * r > d {
        true
    } else {
        q % 2 != 0
    };
    let rounded: u128 = if up {
        q + 1
    } else {
        q
    };
    assert(rounded == round_half_even(magnitude(m as int) * PRICE_SCALE as nat, pow10(s as nat)));
    if negative {
        if rounded > 9_223_372_036_854_775_808 {
            i64::MIN
        } else {
            (-(rounded as i128)) as i64
        }
    } else {
        if rounded > 9_223_372_036_854_775_807 {
            i64::MAX
        } else {
            rounded as i64
        }
    }
}

/// Removes the trailing fractional zeros of the decimal `mantissa /
/// 10^scale`.
pub fn normalize(mantissa: i128, scale: u32) -> (r: (i128, u32))
    ensures
        (r.0 as int, r.1 as nat) == normalized(mantissa as int, scale as nat),
        same_decimal(r.0 as int, r.1 as nat, mantissa as int, scale as nat),
        r.1 <= scale,
        mantissa >= 0 ==> 0 <= r.0 <= mantissa,
        mantissa <= 0 ==> mantissa <= r.0 <= 0,
{
    let mut m: i128 = mantissa;
    let mut s: u32 = scale;
    while s > 0 && m % 10 == 0
        invariant
            s <= scale,
            normalized(m as int, s as nat) == normalized(mantissa as int, scale as nat),
            mantissa >= 0 ==> 0 <= m <= mantissa,
            mantissa <= 0 ==> mantissa <= m <= 0,
        decreases s,
    {
        m = m / 10;
        s = s - 1;
    }
    proof {
        lemma_normalized_same(mantissa as int, scale as nat);
    }
    (m, s)
}

/// Converts a tick back to its decimal price, `t / PRICE_SCALE`, written with
/// no trailing fractional zero.
pub fn tick_to_price(t: Tick) -> (p: Price)
    ensures
        (p.spec_mantissa(), p.spec_scale()) == normalized(t as int, PRICE_DECIMALS as nat),
        same_decimal(p.spec_mantissa(), p.spec_scale(), t as int, PRICE_DECIMALS as nat),
{
    let (m, s) = normalize(t as i128, PRICE_DECIMALS);
    Price { mantissa: m, scale: s }
}

/// Round trip: a decimal with at most `PRICE_DECIMALS` fractional digits
/// whose tick lies in the range of `Tick` is recovered from its tick: the
/// price of the tick of the decimal is the same number as the decimal.
pub proof fn lemma_tick_round_trip(mantissa: int, scale: nat)
    requires
        scale <= PRICE_DECIMALS,
        i64::MIN <= mantissa * pow10((PRICE_DECIMALS - scale) as nat) <= i64::MAX,
    ensures
        ({
            let tick = tick_of(mantissa, scale);
            let back = normalized(tick, PRICE_DECIMALS as nat);
            same_decimal(back.0, back.1, mantissa, scale)
        }),
{
    let m = mantissa;
    let s = scale;
    let k = (PRICE_DECIMALS - s) as nat;
    lemma_exact_tick(m, s);
    let t = tick_of(m, s);
    lemma_normalized_same(t, PRICE_DECIMALS as nat);
    let bm = normalized(t, PRICE_DECIMALS as nat).0;
    let bs = normalized(t, PRICE_DECIMALS as nat).1;
    lemma_pow10_add(s, k);
    lemma_pow10_monotonic(0, k);
    assert(bm * pow10(4) == t * pow10(bs));
    assert(bm * pow10(s) * pow10(k) == m * pow10(bs) * pow10(k)) by (nonlinear_arith)
        requires
            bm * pow10(4) == t * pow10(bs),
            t == m * pow10(k),
            pow10(4) == pow10(s) * pow10(k),
    ;
    assert(bm * pow10(s) == m * pow10(bs)) by (nonlinear_arith)
        requires
            bm * pow10(s) * pow10(k) == m * pow10(bs) * pow10(k),
            pow10(k) > 0,
    ;
}

/// A decimal with at most `PRICE_DECIMALS` fractional digits falls on a tick:
/// nothing is rounded away.
pub proof fn lemma_exact_tick(m: int, s: nat)
    requires
        s <= PRICE_DECIMALS,
        i64::MIN <= m * pow10((PRICE_DECIMALS - s) as nat) <= i64::MAX,
    ensures
        tick_of(m, s) == m * pow10((PRICE_DECIMALS - s) as nat),
{
    let k = (PRICE_DECIMALS - s) as nat;
    let a = magnitude(m);
    let d = pow10(s);
    lemma_pow10_values();
    lemma_pow10_add(s, k);
    lemma_pow10_monotonic(0, s);
    lemma_pow10_monotonic(0, k);
    let n = a * PRICE_SCALE as nat;
    assert(n == d * (a * pow10(k))) by (nonlinear_arith)
        requires
            n == a * 10_000,
            10_000 == d * pow10(k),
    ;
    vstd::arithmetic::div_mod::lemma_div_multiples_vanish((a * pow10(k)) as int, d as int);
    vstd::arithmetic::div_mod::lemma_mod_multiples_basic((a * pow10(k)) as int, d as int);
    assert(n / d == a * pow10(k));
    assert(n % d == 0);
    assert(round_half_even(n, d) == a * pow10(k));
    if m < 0 {
        assert(-((a * pow10(k)) as int) == m * pow10(k)) by (nonlinear_arith)
            requires
                a == -m,
        ;
    } else {
        assert(a * pow10(k) == m * pow10(k));
    }
}

/// Removing trailing fractional zeros does not change the number.
pub proof fn lemma_normalized_same(m: int, s: nat)
    ensures
        same_decimal(normalized(m, s).0, normalized(m, s).1, m, s),
        normalized(m, s).1 <= s,
    decreases s,
{
    if s > 0 && m % 10 == 0 {
        let m1 = m / 10;
        let s1 = (s - 1) as nat;
        lemma_normalized_same(m1, s1);
        let (nm, ns) = normalized(m1, s1);
        assert(m == 10 * m1);
        assert(pow10(s) == 10 * pow10(s1));
        assert(nm * pow10(s) == m * pow10(ns)) by (nonlinear_arith)
            requires
                nm * pow10(s1) == m1 * pow10(ns),
                m == 10 * m1,
                pow10(s) == 10 * pow10(s1),
        ;
    }
}

} // verus!

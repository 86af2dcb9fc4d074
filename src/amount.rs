use vstd::prelude::*;

verus! {

/// Largest number of decimal places an amount may carry.
pub const MAX_SCALE: u32 = 28;

/// `10^n` as a natural number.
pub open spec fn pow10(n: nat) -> nat
    decreases n,
{
    if n == 0 {
        1
    } else {
        10 * pow10((n - 1) as nat)
    }
}

/// Whether an integer can be held in an `i128`.
pub open spec fn fits_i128(x: int) -> bool {
    i128::MIN <= x <= i128::MAX
}

proof fn lemma_pow10_positive(n: nat)
    ensures
        pow10(n) >= 1,
    decreases n,
{
    if n > 0 {
        lemma_pow10_positive((n - 1) as nat);
    }
}

proof fn lemma_pow10_add(a: nat, b: nat)
    ensures
        pow10(a + b) == pow10(a) * pow10(b),
    decreases b,
{
    if b > 0 {
        let b1 = (b - 1) as nat;
        lemma_pow10_add(a, b1);
        assert((a + b - 1) as nat == a + b1);
        let x = pow10(a);
        let y = pow10(b1);
        assert(pow10(a + b) == 10 * pow10(a + b1));
        assert(pow10(b) == 10 * y);
        let z = pow10(b);
        let w = pow10(a + b);
        assert(w == x * z) by (nonlinear_arith)
            requires
                w == 10 * (x * y),
                z == 10 * y,
        ;
    } else {
        assert(pow10(0) == 1);
        assert(a + b == a);
    }
}

proof fn lemma_pow10_monotonic(a: nat, b: nat)
    requires
        a <= b,
    ensures
        pow10(a) <= pow10(b),
    decreases b,
{
    if a < b {
        lemma_pow10_monotonic(a, (b - 1) as nat);
        lemma_pow10_positive((b - 1) as nat);
    }
}

proof fn lemma_pow10_max()
    ensures
        pow10(MAX_SCALE as nat) == 10_000_000_000_000_000_000_000_000_000int,
{
    reveal_with_fuel(pow10, 29);
}

/// `10^n` computed exactly, for `n` up to `MAX_SCALE`.
fn pow10_i128(n: u32) -> (r: i128)
    requires
        n <= MAX_SCALE,
    ensures
        r == pow10(n as nat),
{
    let mut r: i128 = 1;
    let mut i: u32 = 0;
    while i < n
        invariant
            i <= n <= MAX_SCALE,
            r == pow10(i as nat),
        decreases n - i,
    {
        proof {
            lemma_pow10_monotonic((i + 1) as nat, MAX_SCALE as nat);
            lemma_pow10_max();
        }
        r = r * 10;
        i = i + 1;
    }
    r
}

/// An exact decimal number: `mantissa / 10^scale`.
///
/// Amounts are never rounded: sums and differences are computed at the
/// larger of the two scales.
#[derive(Clone, Copy, Debug, PartialEq, Eq, Structural)]
pub struct Amount {
    pub mantissa: i128,
    pub scale: u32,
}

impl Amount {
    /// The scale is within the supported range.
    pub open spec fn wf(self) -> bool {
        self.scale <= MAX_SCALE
    }

    /// The exact value, counted in units of `10^-MAX_SCALE`.
    pub open spec fn units(self) -> int {
        self.mantissa * pow10((MAX_SCALE - self.scale) as nat)
    }

    /// The larger of the two scales.
    pub open spec fn common_scale(self, other: Amount) -> u32 {
        if self.scale >= other.scale {
            self.scale
        } else {
            other.scale
        }
    }

    /// The mantissa that expresses this value at scale `s`.
    pub open spec fn aligned(self, s: u32) -> int {
        self.mantissa * pow10((s - self.scale) as nat)
    }

    /// Both values can be expressed at their common scale.
    pub open spec fn cmp_fits(self, other: Amount) -> bool {
        let s = self.common_scale(other);
        fits_i128(self.aligned(s)) && fits_i128(other.aligned(s))
    }

    /// The exact sum can be represented at the common scale.
    pub open spec fn add_fits(self, other: Amount) -> bool {
        let s = self.common_scale(other);
        self.cmp_fits(other) && fits_i128(self.aligned(s) + other.aligned(s))
    }

    /// The exact difference can be represented at the common scale.
    pub open spec fn sub_fits(self, other: Amount) -> bool {
        let s = self.common_scale(other);
        self.cmp_fits(other) && fits_i128(self.aligned(s) - other.aligned(s))
    }

    /// The sum, at the common scale.
    pub open spec fn spec_sum(self, other: Amount) -> Amount {
        let s = self.common_scale(other);
        Amount { mantissa: (self.aligned(s) + other.aligned(s)) as i128, scale: s }
    }

    /// The difference, at the common scale.
    pub open spec fn spec_difference(self, other: Amount) -> Amount {
        let s = self.common_scale(other);
        Amount { mantissa: (self.aligned(s) - other.aligned(s)) as i128, scale: s }
    }

    /// Builds `mantissa / 10^scale`; `None` where the scale is too large.
    pub fn new(mantissa: i128, scale: u32) -> (r: Option<Amount>)
        ensures
            r == (if scale <= MAX_SCALE {
                Some(Amount { mantissa, scale })
            } else {
                None
            }),
    {
        if scale <= MAX_SCALE {
            Some(Amount { mantissa, scale })
        } else {
            None
        }
    }

    /// Zero, at scale zero.
    pub fn zero() -> (r: Amount)
        ensures
            r == (Amount { mantissa: 0, scale: 0 }),
            r.wf(),
            r.units() == 0,
    {
        Amount { mantissa: 0, scale: 0 }
    }

    pub proof fn lemma_aligned_units(self, s: u32)
        requires
            self.wf(),
            self.scale <= s <= MAX_SCALE,
        ensures
            self.aligned(s) * pow10((MAX_SCALE - s) as nat) == self.units(),
    {
        let a = pow10((s - self.scale) as nat);
        let b = pow10((MAX_SCALE - s) as nat);
        lemma_pow10_add((s - self.scale) as nat, (MAX_SCALE - s) as nat);
        assert(((s - self.scale) as nat + (MAX_SCALE - s) as nat) == (MAX_SCALE - self.scale) as nat);
        assert(self.mantissa * a * b == self.mantissa * (a * b)) by (nonlinear_arith);
    }

    /// The mantissa at scale `s`, where it fits.
    fn align(self, s: u32) -> (r: Option<i128>)
        requires
            self.wf(),
            self.scale <= s <= MAX_SCALE,
        ensures
            r == (if fits_i128(self.aligned(s)) {
                Some(self.aligned(s) as i128)
            } else {
                None
            }),
    {
        let p: i128 = pow10_i128(s - self.scale);
        self.mantissa.checked_mul(p)
    }

    /// The exact sum; `None` where it cannot be represented.
    pub fn checked_add(self, other: Amount) -> (r: Option<Amount>)
        requires
            self.wf(),
            other.wf(),
        ensures
            r == (if self.add_fits(other) {
                Some(self.spec_sum(other))
            } else {
                None
            }),
            self.add_fits(other) ==> self.spec_sum(other).wf() && self.spec_sum(other).units()
                == self.units() + other.units(),
    {
        let s: u32 = if self.scale >= other.scale {
            self.scale
        } else {
            other.scale
        };
        proof {
            if self.add_fits(other) {
                lemma_sum_units(self, other);
            }
        }
        match (self.align(s), other.align(s)) {
            (Some(x), Some(y)) => match x.checked_add(y) {
                Some(m) => Some(Amount { mantissa: m, scale: s }),
                None => None,
            },
            _ => None,
        }
    }

    /// The exact difference; `None` where it cannot be represented.
    pub fn checked_sub(self, other: Amount) -> (r: Option<Amount>)
        requires
            self.wf(),
            other.wf(),
        ensures
            r == (if self.sub_fits(other) {
                Some(self.spec_difference(other))
            } else {
                None
            }),
            self.sub_fits(other) ==> self.spec_difference(other).wf()
                && self.spec_difference(other).units() == self.units() - other.units(),
    {
        let s: u32 = if self.scale >= other.scale {
            self.scale
        } else {
            other.scale
        };
        proof {
            if self.sub_fits(other) {
                lemma_difference_units(self, other);
            }
        }
        match (self.align(s), other.align(s)) {
            (Some(x), Some(y)) => match x.checked_sub(y) {
                Some(m) => Some(Amount { mantissa: m, scale: s }),
                None => None,
            },
            _ => None,
        }
    }

    /// Whether this value is strictly smaller than `other`.
    pub fn less_than(self, other: Amount) -> (r: bool)
        requires
            self.wf(),
            other.wf(),
            self.cmp_fits(other),
        ensures
            r == (self.units() < other.units()),
    {
        let s: u32 = if self.scale >= other.scale {
            self.scale
        } else {
            other.scale
        };
        proof {
            self.lemma_aligned_units(s);
            other.lemma_aligned_units(s);
            let p = pow10((MAX_SCALE - s) as nat);
            lemma_pow10_positive((MAX_SCALE - s) as nat);
            let x = self.aligned(s);
            let y = other.aligned(s);
            assert(p > 0 ==> (x < y <==> x * p < y * p)) by (nonlinear_arith);
        }
        let p: i128 = pow10_i128(s - self.scale);
        let q: i128 = pow10_i128(s - other.scale);
        let x: i128 = self.mantissa * p;
        let y: i128 = other.mantissa * q;
        x < y
    }
}

/// A representable sum is well formed and has the exact value of the sum.
pub proof fn lemma_sum_units(a: Amount, b: Amount)
    requires
        a.wf(),
        b.wf(),
        a.add_fits(b),
    ensures
        a.spec_sum(b).wf(),
        a.spec_sum(b).units() == a.units() + b.units(),
{
    let s = a.common_scale(b);
    a.lemma_aligned_units(s);
    b.lemma_aligned_units(s);
    let p = pow10((MAX_SCALE - s) as nat);
    let x = a.aligned(s);
    let y = b.aligned(s);
    assert((x + y) * p == x * p + y * p) by (nonlinear_arith);
}

/// A representable difference is well formed and has the exact value of
/// the difference.
pub proof fn lemma_difference_units(a: Amount, b: Amount)
    requires
        a.wf(),
        b.wf(),
        a.sub_fits(b),
    ensures
        a.spec_difference(b).wf(),
        a.spec_difference(b).units() == a.units() - b.units(),
{
    let s = a.common_scale(b);
    a.lemma_aligned_units(s);
    b.lemma_aligned_units(s);
    let p = pow10((MAX_SCALE - s) as nat);
    let x = a.aligned(s);
    let y = b.aligned(s);
    assert((x - y) * p == x * p - y * p) by (nonlinear_arith);
}

/// Adding `b` and then taking it away again is representable and gives
/// back the value of `a`.
pub proof fn lemma_sum_then_difference(a: Amount, b: Amount)
    requires
        a.wf(),
        b.wf(),
        a.add_fits(b),
    ensures
        a.spec_sum(b).sub_fits(b),
        a.spec_sum(b).spec_difference(b).wf(),
        a.spec_sum(b).spec_difference(b).units() == a.units(),
{
    let c = a.spec_sum(b);
    lemma_sum_units(a, b);
    assert(pow10(0) == 1);
    assert((c.scale - c.scale) as nat == 0);
    assert(c.aligned(c.scale) == c.mantissa * 1);
    assert(c.common_scale(b) == c.scale);
    lemma_difference_units(c, b);
}

} // verus!

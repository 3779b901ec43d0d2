//! Arithmetic on nonnegative numbers with 53 significant bits, rounded to
//! nearest with ties to even, as IEEE 754 defines it for double precision.
//!
//! Mode decisions weigh distortion against rate in this arithmetic. It is
//! carried out on integers, so that the decisions are the same everywhere.
use vstd::arithmetic::power2::{
    lemma2_to64, lemma2_to64_rest, lemma_pow2_adds, lemma_pow2_pos, lemma_pow2_strictly_increases,
    lemma_pow2_unfold, pow2,
};
use vstd::prelude::*;

verus! {

/// The number `mant * 2^exp`.
#[verifier::ext_equal]
pub struct Dyadic {
    pub mant: nat,
    pub exp: int,
}

/// Number of binary digits of `n`.
pub open spec fn bit_length(n: nat) -> nat
    decreases n,
{
    if n == 0 {
        0
    } else {
        1 + bit_length(n / 2)
    }
}

/// `n / 2^shift`, rounded to nearest with ties to even.
pub open spec fn rounded_shift(n: nat, shift: nat) -> nat {
    let p = pow2(shift);
    let q = n / p;
    let r = n % p;
    if 2 * r > p || (2 * r == p && q % 2 == 1) {
        q + 1
    } else {
        q
    }
}

/// `n * 2^exp` rounded to 53 significant bits.
pub open spec fn nearest(n: nat, exp: int) -> Dyadic {
    let k = bit_length(n);
    if n == 0 {
        Dyadic { mant: 0, exp: 0 }
    } else if k <= 53 {
        Dyadic { mant: n * pow2((53 - k) as nat), exp: exp - (53 - k) }
    } else {
        let q = rounded_shift(n, (k - 53) as nat);
        if q == pow2(53) {
            Dyadic { mant: pow2(52), exp: exp + k - 52 }
        } else {
            Dyadic { mant: q, exp: exp + k - 53 }
        }
    }
}

pub open spec fn min_int(a: int, b: int) -> int {
    if a <= b {
        a
    } else {
        b
    }
}

impl Dyadic {
    pub open spec fn zero() -> Dyadic {
        Dyadic { mant: 0, exp: 0 }
    }

    /// Zero, or 53 significant bits.
    pub open spec fn wf(self) -> bool {
        (self.mant == 0 && self.exp == 0) || pow2(52) <= self.mant < pow2(53)
    }

    /// Zero, or an exponent between `lo` and `hi`.
    pub open spec fn exp_in(self, lo: int, hi: int) -> bool {
        self.mant == 0 || lo <= self.exp <= hi
    }

    /// The number in units of `2^exp`.
    pub open spec fn units(self, exp: int) -> nat
        recommends
            exp <= self.exp,
    {
        self.mant * pow2((self.exp - exp) as nat)
    }

    /// The number nearest to an integer.
    pub open spec fn of(n: nat) -> Dyadic {
        nearest(n, 0)
    }

    /// The number with the bit pattern `bits` in the double precision format,
    /// for positive normal numbers and zero.
    pub open spec fn of_bits(bits: u64) -> Dyadic {
        if bits == 0 {
            Dyadic::zero()
        } else {
            Dyadic {
                mant: (bits % 0x10_0000_0000_0000 + 0x10_0000_0000_0000) as nat,
                exp: bits / 0x10_0000_0000_0000 - 1075,
            }
        }
    }

    /// The rounded sum.
    pub open spec fn plus(self, other: Dyadic) -> Dyadic {
        if self.mant == 0 {
            other
        } else if other.mant == 0 {
            self
        } else {
            let e = min_int(self.exp, other.exp);
            nearest(self.units(e) + other.units(e), e)
        }
    }

    /// The rounded product.
    pub open spec fn times(self, other: Dyadic) -> Dyadic {
        nearest(self.mant * other.mant, self.exp + other.exp)
    }

    pub open spec fn less(self, other: Dyadic) -> bool {
        let e = min_int(self.exp, other.exp);
        self.units(e) < other.units(e)
    }

    /// The rounded difference: its sign (true when negative) and magnitude.
    pub open spec fn minus(self, other: Dyadic) -> (bool, Dyadic) {
        let e = min_int(self.exp, other.exp);
        if self.less(other) {
            (true, nearest((other.units(e) - self.units(e)) as nat, e))
        } else {
            (false, nearest((self.units(e) - other.units(e)) as nat, e))
        }
    }
}

/// Whether the first of two signed numbers is the greater.
pub open spec fn signed_greater(a: (bool, Dyadic), b: (bool, Dyadic)) -> bool {
    if a.0 {
        b.0 && a.1.less(b.1)
    } else if b.0 {
        a.1.mant != 0 || b.1.mant != 0
    } else {
        b.1.less(a.1)
    }
}

pub proof fn lemma_bit_length(n: nat)
    requires
        n > 0,
    ensures
        bit_length(n) >= 1,
        pow2((bit_length(n) - 1) as nat) <= n < pow2(bit_length(n)),
    decreases n,
{
    lemma2_to64();
    if n > 1 {
        lemma_bit_length(n / 2);
        lemma_pow2_unfold(bit_length(n));
        lemma_pow2_unfold((bit_length(n) - 1) as nat);
    } else {
        reveal_with_fuel(bit_length, 2);
    }
}

proof fn lemma_bit_length_unique(n: nat, k: nat)
    requires
        k >= 1,
        pow2((k - 1) as nat) <= n < pow2(k),
    ensures
        bit_length(n) == k,
{
    lemma_pow2_pos((k - 1) as nat);
    lemma_bit_length(n);
    let b = bit_length(n);
    if b < k {
        if b < k - 1 {
            lemma_pow2_strictly_increases(b, (k - 1) as nat);
        }
    } else if k < b {
        if k < b - 1 {
            lemma_pow2_strictly_increases(k, (b - 1) as nat);
        }
    }
}

/// Rounding gives 53 significant bits.
pub proof fn lemma_nearest_wf(n: nat, exp: int)
    ensures
        nearest(n, exp).wf(),
        n > 0 ==> nearest(n, exp).mant > 0,
        n > 0 ==> exp + bit_length(n) - 53 <= nearest(n, exp).exp <= exp + bit_length(n) - 52,
{
    if n > 0 {
        let k = bit_length(n);
        lemma_bit_length(n);
        lemma2_to64_rest();
        if k <= 53 {
            let s = (53 - k) as nat;
            lemma_pow2_adds(s, k);
            lemma_pow2_adds(s, (k - 1) as nat);
            lemma_pow2_pos(s);
            let p = pow2(s);
            assert(pow2(52) <= n * p < pow2(53)) by (nonlinear_arith)
                requires
                    pow2((k - 1) as nat) <= n < pow2(k),
                    p * pow2(k) == pow2(53),
                    p * pow2((k - 1) as nat) == pow2(52),
                    p > 0,
            ;
        } else {
            let s = (k - 53) as nat;
            lemma_pow2_adds(s, 53);
            lemma_pow2_adds(s, 52);
            lemma_pow2_pos(s);
            let p = pow2(s);
            let q = n / p;
            assert(p * pow2(53) == pow2(k));
            assert(p * pow2(52) == pow2((k - 1) as nat));
            assert(pow2(52) <= q < pow2(53)) by {
                vstd::arithmetic::div_mod::lemma_fundamental_div_mod(n as int, p as int);
                assert(pow2(52) <= q < pow2(53)) by (nonlinear_arith)
                    requires
                        p * pow2(52) <= n < p * pow2(53),
                        n == p * q + n % p,
                        0 <= n % p < p,
                ;
            }
        }
    }
}

/// Number with 53 significant bits.
#[derive(Clone, Copy)]
pub struct Binary64 {
    pub mant: u64,
    pub exp: i32,
}

impl View for Binary64 {
    type V = Dyadic;

    open spec fn view(&self) -> Dyadic {
        Dyadic { mant: self.mant as nat, exp: self.exp as int }
    }
}

fn bit_length_of(n: u128) -> (k: u32)
    ensures
        k as nat == bit_length(n as nat),
        k <= 128,
{
    let mut k: u32 = 0;
    let mut m: u128 = n;
    proof {
        assert(pow2(128) == 0x1_0000_0000_0000_0000_0000_0000_0000_0000) by {
            lemma2_to64_rest();
            lemma_pow2_adds(64, 64);
        }
    }
    while m > 0
        invariant
            bit_length(n as nat) == k + bit_length(m as nat),
            k <= 128,
            m < pow2((128 - k) as nat),
        decreases m,
    {
        proof {
            lemma2_to64();
            if k == 128 {
                assert(pow2(0) == 1);
            }
            lemma_pow2_unfold((128 - k) as nat);
        }
        m = m / 2;
        k = k + 1;
    }
    k
}

fn power_of_two(s: u32) -> (r: u128)
    requires
        s <= 127,
    ensures
        r as nat == pow2(s as nat),
{
    proof {
        lemma2_to64();
        lemma2_to64_rest();
        lemma_pow2_adds(64, 63);
    }
    let mut r: u128 = 1;
    let mut i: u32 = 0;
    while i < s
        invariant
            i <= s <= 127,
            r as nat == pow2(i as nat),
            pow2(127) == 0x8000_0000_0000_0000_0000_0000_0000_0000,
        decreases s - i,
    {
        proof {
            lemma_pow2_unfold((i + 1) as nat);
            if i + 1 < 127 {
                lemma_pow2_strictly_increases((i + 1) as nat, 127);
            }
        }
        r = r * 2;
        i = i + 1;
    }
    r
}

impl Binary64 {
    pub open spec fn wf(self) -> bool {
        self@.wf()
    }

    pub fn zero() -> (r: Binary64)
        ensures
            r.wf(),
            r@ == Dyadic::zero(),
    {
        Binary64 { mant: 0, exp: 0 }
    }

    /// `n * 2^exp`, rounded.
    fn nearest(n: u128, exp: i32) -> (r: Binary64)
        requires
            -1_000_000 <= exp <= 1_000_000,
        ensures
            r.wf(),
            r@ == nearest(n as nat, exp as int),
    {
        proof {
            lemma_nearest_wf(n as nat, exp as int);
            lemma2_to64_rest();
        }
        if n == 0 {
            return Binary64 { mant: 0, exp: 0 };
        }
        let k: u32 = bit_length_of(n);
        proof {
            lemma_bit_length(n as nat);
        }
        if k <= 53 {
            let s: u32 = 53 - k;
            let unit: u128 = power_of_two(s);
            assert(n * unit < pow2(53));
            Binary64 { mant: (n * unit) as u64, exp: exp - (s as i32) }
        } else {
            let s: u32 = k - 53;
            let unit: u128 = power_of_two(s);
            proof {
                lemma_pow2_pos(s as nat);
            }
            let q: u128 = n / unit;
            let r: u128 = n % unit;
            let half: u128 = unit / 2;
            proof {
                lemma_pow2_unfold(s as nat);
                assert(2 * half == unit);
            }
            let up = r > half || (r == half && q % 2 == 1);
            let m: u128 = if up {
                q + 1
            } else {
                q
            };
            assert(m == rounded_shift(n as nat, s as nat));
            if m == 0x20_0000_0000_0000 {
                Binary64 { mant: 0x10_0000_0000_0000, exp: exp + (s as i32) + 1 }
            } else {
                Binary64 { mant: m as u64, exp: exp + (s as i32) }
            }
        }
    }

    /// The number nearest to an integer.
    pub fn from_u64(n: u64) -> (r: Binary64)
        ensures
            r.wf(),
            r@ == Dyadic::of(n as nat),
            r@.exp_in(-52, 12),
            n < 0x100_0000_0000_0000 ==> r@.exp_in(-52, 4),
            n >= 0x100_0000_0000_0000 ==> r@.mant != 0 && r@.exp >= 4,
    {
        proof {
            lemma_nearest_wf(n as nat, 0);
            if n > 0 {
                lemma_bit_length(n as nat);
                lemma2_to64_rest();
                let k = bit_length(n as nat);
                if k < 56 {
                    lemma_pow2_strictly_increases(k, 56);
                }
                if k > 65 {
                    lemma_pow2_strictly_increases(64, (k - 1) as nat);
                }
                if k > 57 {
                    lemma_pow2_strictly_increases(56, (k - 1) as nat);
                }
            }
        }
        Binary64::nearest(n as u128, 0)
    }

    /// The number with a given bit pattern.
    pub fn from_bits(bits: u64) -> (r: Binary64)
        requires
            bits < 0x7fff_ffff_ffff_ffff,
        ensures
            r.wf(),
            r@ == Dyadic::of_bits(bits),
    {
        if bits == 0 {
            Binary64 { mant: 0, exp: 0 }
        } else {
            proof {
                lemma2_to64_rest();
            }
            Binary64 {
                mant: bits % 0x10_0000_0000_0000 + 0x10_0000_0000_0000,
                exp: (bits / 0x10_0000_0000_0000) as i32 - 1075,
            }
        }
    }

    /// The rounded product.
    pub fn mul(self, other: Binary64) -> (r: Binary64)
        requires
            self.wf(),
            other.wf(),
            self@.exp_in(-1000, 1000),
            other@.exp_in(-1000, 1000),
        ensures
            r.wf(),
            r@ == self@.times(other@),
            r@.mant == 0 <==> self@.mant == 0 || other@.mant == 0,
            r@.exp_in(self@.exp + other@.exp + 52, self@.exp + other@.exp + 54),
    {
        proof {
            lemma2_to64_rest();
            lemma_product_bits(self@, other@);
        }
        let m: u128 = (self.mant as u128) * (other.mant as u128);
        Binary64::nearest(m, self.exp + other.exp)
    }

    /// The rounded sum.
    pub fn add(self, other: Binary64) -> (r: Binary64)
        requires
            self.wf(),
            other.wf(),
            self@.exp_in(-1000, 1000),
            other@.exp_in(-1000, 1000),
        ensures
            r.wf(),
            r@ == self@.plus(other@),
            self@.mant == 0 ==> r@ == other@,
            other@.mant == 0 ==> r@ == self@,
            self@.mant != 0 && other@.mant != 0 ==> r@.mant != 0 && max_int(
                self@.exp,
                other@.exp,
            ) <= r@.exp <= max_int(self@.exp, other@.exp) + 2,
    {
        proof {
            lemma2_to64_rest();
        }
        if self.mant == 0 {
            return other;
        }
        if other.mant == 0 {
            return self;
        }
        let (hi, lo) = if self.exp >= other.exp {
            (self, other)
        } else {
            (other, self)
        };
        let d: u32 = (hi.exp - lo.exp) as u32;
        proof {
            lemma2_to64_rest();
            lemma_sum_bits(hi@, lo@);
            assert(self@.plus(other@) == nearest(hi@.units(lo@.exp) + lo@.units(lo@.exp), lo@.exp));
        }
        if d > 60 {
            proof {
                lemma_far_sum(hi@, lo@);
            }
            return hi;
        }
        proof {
            lemma_aligned(hi@, d as nat);
        }
        let m: u128 = (hi.mant as u128) * power_of_two(d) + (lo.mant as u128);
        Binary64::nearest(m, lo.exp)
    }

    /// Whether this number is the smaller.
    pub fn lt(self, other: Binary64) -> (r: bool)
        requires
            self.wf(),
            other.wf(),
        ensures
            r == self@.less(other@),
    {
        proof {
            lemma_less(self@, other@);
        }
        if self.mant == 0 || other.mant == 0 {
            self.mant < other.mant
        } else if self.exp != other.exp {
            self.exp < other.exp
        } else {
            self.mant < other.mant
        }
    }

    /// The rounded difference: its sign (true when negative) and magnitude.
    pub fn sub(self, other: Binary64) -> (r: (bool, Binary64))
        requires
            self.wf(),
            other.wf(),
            -1000 <= self.exp <= 1000,
            -1000 <= other.exp <= 1000,
            -74 <= self.exp - other.exp <= 74,
        ensures
            r.1.wf(),
            (r.0, r.1@) == self@.minus(other@),
    {
        proof {
            lemma2_to64_rest();
        }
        let e: i32 = if self.exp <= other.exp {
            self.exp
        } else {
            other.exp
        };
        let d: u32 = (self.exp - e) as u32;
        let f: u32 = (other.exp - e) as u32;
        proof {
            lemma2_to64_rest();
            lemma_aligned(self@, d as nat);
            lemma_aligned(other@, f as nat);
        }
        let a: u128 = (self.mant as u128) * power_of_two(d);
        let b: u128 = (other.mant as u128) * power_of_two(f);
        if a < b {
            (true, Binary64::nearest(b - a, e))
        } else {
            (false, Binary64::nearest(a - b, e))
        }
    }

    /// Whether the first of two signed numbers is the greater.
    pub fn signed_gt(a: (bool, Binary64), b: (bool, Binary64)) -> (r: bool)
        requires
            a.1.wf(),
            b.1.wf(),
        ensures
            r == signed_greater((a.0, a.1@), (b.0, b.1@)),
    {
        if a.0 {
            b.0 && a.1.lt(b.1)
        } else if b.0 {
            a.1.mant != 0 || b.1.mant != 0
        } else {
            b.1.lt(a.1)
        }
    }
}

pub open spec fn max_int(a: int, b: int) -> int {
    if a >= b {
        a
    } else {
        b
    }
}

proof fn lemma_aligned(a: Dyadic, d: nat)
    requires
        a.wf(),
        d <= 74,
    ensures
        a.mant * pow2(d) < pow2(127),
        pow2(127) == 0x8000_0000_0000_0000_0000_0000_0000_0000,
{
    lemma2_to64_rest();
    lemma_pow2_adds(64, 63);
    lemma_pow2_adds(53, 74);
    if d < 74 {
        lemma_pow2_strictly_increases(d, 74);
    }
    lemma_pow2_pos(d);
    assert(a.mant * pow2(d) < pow2(53) * pow2(74)) by (nonlinear_arith)
        requires
            a.mant < pow2(53),
            0 < pow2(d) <= pow2(74),
    ;
}

proof fn lemma_product_bits(a: Dyadic, b: Dyadic)
    requires
        a.wf(),
        b.wf(),
    ensures
        a.mant * b.mant < 0x1_0000_0000_0000_0000_0000_0000_0000_0000,
        ({
            let r = a.times(b);
            &&& r.mant == 0 <==> a.mant == 0 || b.mant == 0
            &&& r.exp_in(a.exp + b.exp + 52, a.exp + b.exp + 54)
        }),
{
    lemma2_to64_rest();
    let m = a.mant * b.mant;
    lemma_nearest_wf(m, a.exp + b.exp);
    lemma_pow2_adds(53, 53);
    lemma_pow2_adds(52, 52);
    if a.mant != 0 && b.mant != 0 {
        assert(pow2(104) <= m < pow2(106)) by (nonlinear_arith)
            requires
                pow2(52) <= a.mant < pow2(53),
                pow2(52) <= b.mant < pow2(53),
                m == a.mant * b.mant,
                pow2(104) == pow2(52) * pow2(52),
                pow2(106) == pow2(53) * pow2(53),
        ;
        lemma_pow2_unfold(106);
        lemma_pow2_pos(104);
        if m < pow2(105) {
            lemma_bit_length_unique(m, 105);
        } else {
            lemma_bit_length_unique(m, 106);
        }
    } else {
        assert(m == 0) by (nonlinear_arith)
            requires
                a.mant == 0 || b.mant == 0,
                m == a.mant * b.mant,
        ;
    }
}

proof fn lemma_sum_bits(hi: Dyadic, lo: Dyadic)
    requires
        hi.wf(),
        lo.wf(),
        hi.mant != 0,
        lo.mant != 0,
        hi.exp >= lo.exp,
    ensures
        ({
            let r = nearest(hi.units(lo.exp) + lo.units(lo.exp), lo.exp);
            r.mant != 0 && hi.exp <= r.exp <= hi.exp + 2
        }),
        lo.units(lo.exp) == lo.mant,
{
    let d = (hi.exp - lo.exp) as nat;
    let m = hi.units(lo.exp) + lo.units(lo.exp);
    lemma2_to64();
    lemma2_to64_rest();
    assert(lo.mant * pow2(0) == lo.mant);
    lemma_nearest_wf(m, lo.exp);
    lemma_pow2_adds(52, d);
    lemma_pow2_adds(53, d);
    lemma_pow2_unfold(54 + d);
    lemma_pow2_pos(d);
    assert(pow2(52 + d) <= m < pow2(54 + d)) by (nonlinear_arith)
        requires
            m == hi.mant * pow2(d) + lo.mant,
            pow2(52) <= hi.mant < pow2(53),
            0 < lo.mant < pow2(53),
            pow2(52 + d) == pow2(52) * pow2(d),
            pow2(53 + d) == pow2(53) * pow2(d),
            pow2(54 + d) == 2 * pow2(53 + d),
            pow2(d) >= 1,
    ;
    if m < pow2(53 + d) {
        lemma_bit_length_unique(m, 53 + d);
    } else {
        lemma_bit_length_unique(m, 54 + d);
    }
}

proof fn lemma_far_sum(hi: Dyadic, lo: Dyadic)
    requires
        hi.wf(),
        lo.wf(),
        hi.mant != 0,
        lo.mant != 0,
        hi.exp - lo.exp > 60,
    ensures
        nearest(hi.units(lo.exp) + lo.units(lo.exp), lo.exp) == hi,
{
    let d = (hi.exp - lo.exp) as nat;
    let p = pow2(d);
    let m = hi.units(lo.exp) + lo.units(lo.exp);
    lemma2_to64();
    lemma2_to64_rest();
    assert(lo.mant * pow2(0) == lo.mant);
    lemma_pow2_strictly_increases(60, d);
    lemma_pow2_adds(52, d);
    lemma_pow2_adds(53, d);
    assert(m == hi.mant * p + lo.mant);
    assert(m < pow2(53 + d) && pow2(52 + d) <= m) by (nonlinear_arith)
        requires
            m == hi.mant * p + lo.mant,
            pow2(52) <= hi.mant < pow2(53),
            lo.mant < p,
            pow2(53 + d) == pow2(53) * p,
            pow2(52 + d) == pow2(52) * p,
    ;
    lemma_bit_length_unique(m, 53 + d);
    vstd::arithmetic::div_mod::lemma_fundamental_div_mod_converse(
        m as int,
        p as int,
        hi.mant as int,
        lo.mant as int,
    );
}

proof fn lemma_less(a: Dyadic, b: Dyadic)
    requires
        a.wf(),
        b.wf(),
    ensures
        a.mant == 0 || b.mant == 0 ==> a.less(b) == (a.mant < b.mant),
        a.mant != 0 && b.mant != 0 && a.exp != b.exp ==> a.less(b) == (a.exp < b.exp),
        a.mant != 0 && b.mant != 0 && a.exp == b.exp ==> a.less(b) == (a.mant < b.mant),
{
    let e = min_int(a.exp, b.exp);
    let p = pow2((a.exp - e) as nat);
    let q = pow2((b.exp - e) as nat);
    lemma_pow2_pos((a.exp - e) as nat);
    lemma_pow2_pos((b.exp - e) as nat);
    lemma2_to64();
    lemma2_to64_rest();
    assert(a.mant == 0 ==> a.mant * p == 0) by (nonlinear_arith);
    assert(b.mant == 0 ==> b.mant * q == 0) by (nonlinear_arith);
    assert(b.mant > 0 ==> b.mant * q > 0) by (nonlinear_arith)
        requires
            q > 0,
    ;
    assert(a.mant > 0 ==> a.mant * p > 0) by (nonlinear_arith)
        requires
            p > 0,
    ;
    if a.mant != 0 && b.mant != 0 {
        if a.exp < b.exp {
            lemma_pow2_unfold((b.exp - e) as nat);
            lemma_pow2_pos((b.exp - e - 1) as nat);
            assert(a.mant * 1 < b.mant * q) by (nonlinear_arith)
                requires
                    a.mant < pow2(53),
                    b.mant >= pow2(52),
                    pow2(53) == 2 * pow2(52),
                    q >= 2,
            ;
        } else if b.exp < a.exp {
            lemma_pow2_unfold((a.exp - e) as nat);
            lemma_pow2_pos((a.exp - e - 1) as nat);
            assert(b.mant * 1 < a.mant * p) by (nonlinear_arith)
                requires
                    b.mant < pow2(53),
                    a.mant >= pow2(52),
                    pow2(53) == 2 * pow2(52),
                    p >= 2,
            ;
        }
    }
}

} // verus!

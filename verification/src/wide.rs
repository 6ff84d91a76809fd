//! Unsigned and signed 256-bit integers built from two 128-bit halves.

use vstd::prelude::*;
use vstd::arithmetic::power2::*;
use vstd::arithmetic::div_mod::*;
use vstd::arithmetic::mul::*;

verus! {

/// 2^128 as a mathematical integer.
pub open spec fn two128() -> int {
    0x1_0000_0000_0000_0000_0000_0000_0000_0000int
}

/// 2^256 as a mathematical integer.
pub open spec fn two256() -> int {
    two128() * two128()
}

/// The powers of two that tie `pow2` to the constants above.
pub proof fn lemma_pow2_consts()
    ensures
        pow2(64) == 0x1_0000_0000_0000_0000int,
        pow2(127) == 0x8000_0000_0000_0000_0000_0000_0000_0000int,
        pow2(128) == two128(),
        pow2(256) == two256(),
{
    lemma2_to64();
    lemma2_to64_rest();
    lemma_pow2_adds(64, 63);
    lemma_pow2_adds(64, 64);
    lemma_pow2_adds(128, 128);
}

/// `2^k` for `k < 128`.
pub fn pow2_u128(k: u32) -> (r: u128)
    requires
        k < 128,
    ensures
        r == pow2(k as nat),
{
    let mut r: u128 = 1;
    let mut i: u32 = 0;
    proof {
        lemma2_to64();
        lemma_pow2_consts();
    }
    while i < k
        invariant
            i <= k < 128,
            r == pow2(i as nat),
            pow2(127) == 0x8000_0000_0000_0000_0000_0000_0000_0000int,
        decreases k - i,
    {
        proof {
            lemma_pow2_unfold((i + 1) as nat);
            if i + 1 < 127 {
                lemma_pow2_strictly_increases((i + 1) as nat, 127);
            }
        }
        r = r * 2;
        i = i + 1;
    }
    r
}

/// Division of a two-limb number by a divisor of the limb base.
proof fn lemma_split_div(hi: int, lo: int, p: int, q: int)
    requires
        hi >= 0,
        0 <= lo < two128(),
        p > 0,
        q > 0,
        p * q == two128(),
    ensures
        (hi * two128() + lo) / p == (hi / p) * two128() + (hi % p) * q + lo / p,
        (hi % p) * q + lo / p < two128(),
{
    lemma_fundamental_div_mod(hi, p);
    lemma_fundamental_div_mod(lo, p);
    lemma_mod_bound(hi, p);
    lemma_mod_bound(lo, p);
    let a = hi / p;
    let m = hi % p;
    let b = lo / p;
    let c = lo % p;
    assert(b < q) by (nonlinear_arith)
        requires
            lo == p * b + c,
            0 <= c,
            lo < p * q,
            p > 0,
    ;
    assert(m * q + b < two128()) by (nonlinear_arith)
        requires
            m <= p - 1,
            b < q,
            p * q == two128(),
            q > 0,
    ;
    assert(hi * two128() + lo == (a * two128() + m * q + b) * p + c) by (nonlinear_arith)
        requires
            hi == p * a + m,
            lo == p * b + c,
            p * q == two128(),
    ;
    lemma_fundamental_div_mod_converse(hi * two128() + lo, p, a * two128() + m * q + b, c);
}

/// Multiplication of a two-limb number by a divisor of the limb base, modulo 2^256.
proof fn lemma_split_mul(hi: int, lo: int, p: int, q: int)
    requires
        0 <= hi < two128(),
        0 <= lo < two128(),
        p > 0,
        q > 0,
        p * q == two128(),
    ensures
        ((hi * two128() + lo) * p) % two256() == ((hi % q) * p + lo / q) * two128() + (lo % q) * p,
        (hi % q) * p + lo / q < two128(),
        (lo % q) * p < two128(),
        (lo % q) * p >= 0,
{
    lemma_fundamental_div_mod(hi, q);
    lemma_fundamental_div_mod(lo, q);
    lemma_mod_bound(hi, q);
    lemma_mod_bound(lo, q);
    let a = hi / q;
    let m = hi % q;
    let b = lo / q;
    let c = lo % q;
    assert(b < p && b >= 0) by (nonlinear_arith)
        requires
            lo == q * b + c,
            0 <= c < q,
            0 <= lo < p * q,
            q > 0,
    ;
    assert(m * p + b < two128()) by (nonlinear_arith)
        requires
            0 <= m <= q - 1,
            b < p,
            p * q == two128(),
            p > 0,
    ;
    assert(0 <= c * p < two128()) by (nonlinear_arith)
        requires
            0 <= c < q,
            p * q == two128(),
            p > 0,
    ;
    assert(0 <= m * p) by (nonlinear_arith)
        requires
            0 <= m,
            p > 0,
    ;
    assert((hi * two128() + lo) * p == a * two256() + ((m * p + b) * two128() + c * p))
        by (nonlinear_arith)
        requires
            hi == q * a + m,
            lo == q * b + c,
            p * q == two128(),
            two256() == two128() * two128(),
    ;
    assert((m * p + b) * two128() + c * p < two256()) by (nonlinear_arith)
        requires
            0 <= m * p + b < two128(),
            0 <= c * p < two128(),
            two256() == two128() * two128(),
    ;
    lemma_fundamental_div_mod_converse(
        (hi * two128() + lo) * p,
        two256(),
        a,
        (m * p + b) * two128() + c * p,
    );
}

/// Multiplication of a number already shifted by one limb, modulo 2^256.
proof fn lemma_split_mul_low(lo: int, p: int, q: int)
    requires
        0 <= lo < two128(),
        p > 0,
        q > 0,
        p * q == two128(),
    ensures
        ((lo * two128()) * p) % two256() == ((lo % q) * p) * two128(),
        0 <= (lo % q) * p < two128(),
{
    lemma_fundamental_div_mod(lo, q);
    lemma_mod_bound(lo, q);
    let b = lo / q;
    let c = lo % q;
    assert(0 <= c * p < two128()) by (nonlinear_arith)
        requires
            0 <= c < q,
            p * q == two128(),
            p > 0,
    ;
    assert((lo * two128()) * p == b * two256() + (c * p) * two128()) by (nonlinear_arith)
        requires
            lo == q * b + c,
            p * q == two128(),
            two256() == two128() * two128(),
    ;
    assert(0 <= (c * p) * two128() < two256()) by (nonlinear_arith)
        requires
            0 <= c * p < two128(),
            two256() == two128() * two128(),
    ;
    lemma_fundamental_div_mod_converse((lo * two128()) * p, two256(), b, (c * p) * two128());
}

/// `(v * 2^128) mod 2^256` keeps the low half of `v`, moved up.
pub proof fn lemma_split_mul_low_pub(v: int)
    requires
        0 <= v < two256(),
    ensures
        (v * pow2(128)) % two256() == (v % two128()) * two128(),
{
    lemma_pow2_consts();
    lemma_fundamental_div_mod(v, two128());
    lemma_mod_bound(v, two128());
    let q = v / two128();
    let m = v % two128();
    assert(v * two128() == q * two256() + m * two128()) by (nonlinear_arith)
        requires v == two128() * q + m, two256() == two128() * two128();
    assert(0 <= m * two128() < two256()) by (nonlinear_arith)
        requires 0 <= m < two128(), two256() == two128() * two128();
    lemma_fundamental_div_mod_converse(v * two128(), two256(), q, m * two128());
}

/// An unsigned 256-bit integer: `hi * 2^128 + lo`.
#[derive(Clone, Copy, Debug, PartialEq, Eq, Structural)]
pub struct U256 {
    pub hi: u128,
    pub lo: u128,
}

impl U256 {
    /// The number this value stands for.
    pub open spec fn val(self) -> int {
        self.hi * two128() + self.lo
    }

    /// The value `x`.
    pub fn from_u128(x: u128) -> (r: U256)
        ensures
            r.val() == x,
    {
        U256 { hi: 0, lo: x }
    }

    /// `self >> k`: the floor of `self / 2^k`.
    pub fn shr(self, k: u32) -> (r: U256)
        ensures
            r.val() == self.val() / (pow2(k as nat) as int),
    {
        proof {
            lemma_pow2_consts();
            lemma_pow2_pos(k as nat);
        }
        if k == 0 {
            proof {
                lemma2_to64();
            }
            assert(pow2(k as nat) == 1);
            assert(self.val() / 1 == self.val());
            self
        } else if k < 128 {
            let p = pow2_u128(k);
            let q = pow2_u128(128 - k);
            proof {
                lemma_pow2_adds(k as nat, (128 - k) as nat);
                lemma_split_div(self.hi as int, self.lo as int, p as int, q as int);
                lemma_mod_bound(self.hi as int, p as int);
                assert((self.hi % p) * q < two128()) by (nonlinear_arith)
                    requires
                        (self.hi % p) * q + self.lo / p < two128(),
                        self.lo / p >= 0,
                ;
                lemma_div_is_ordered_by_denominator(self.hi as int, 1, p as int);
            }
            U256 { hi: self.hi / p, lo: (self.hi % p) * q + self.lo / p }
        } else if k < 256 {
            let p = pow2_u128(k - 128);
            proof {
                lemma_pow2_adds(128, (k - 128) as nat);
                lemma_div_denominator(self.val(), two128(), p as int);
                lemma_div_multiples_vanish_fancy(self.hi as int, self.lo as int, two128());
                assert(two128() * self.hi + self.lo == self.val());
                assert(pow2(k as nat) == two128() * p);
            }
            U256 { hi: 0, lo: self.hi / p }
        } else {
            proof {
                lemma_pow2_adds(256, (k - 256) as nat);
                lemma_pow2_pos((k - 256) as nat);
                assert(self.val() < pow2(k as nat)) by (nonlinear_arith)
                    requires
                        self.val() < two256(),
                        pow2(k as nat) == two256() * pow2((k - 256) as nat),
                        pow2((k - 256) as nat) >= 1,
                ;
                lemma_basic_div(self.val(), pow2(k as nat) as int);
            }
            U256 { hi: 0, lo: 0 }
        }
    }

    /// `self << k`, dropping the bits that pass 2^256.
    pub fn shl(self, k: u32) -> (r: U256)
        ensures
            r.val() == (self.val() * pow2(k as nat)) % two256(),
    {
        proof {
            lemma_pow2_consts();
            lemma_pow2_pos(k as nat);
        }
        if k == 0 {
            proof {
                lemma2_to64();
                assert(pow2(k as nat) == 1);
                assert(self.val() * pow2(k as nat) == self.val()) by (nonlinear_arith)
                    requires pow2(k as nat) == 1;
                lemma_small_mod(self.val() as nat, two256() as nat);
            }
            self
        } else if k < 128 {
            let p = pow2_u128(k);
            let q = pow2_u128(128 - k);
            proof {
                lemma_pow2_adds(k as nat, (128 - k) as nat);
                lemma_split_mul(self.hi as int, self.lo as int, p as int, q as int);
                lemma_mod_bound(self.hi as int, q as int);
                assert((self.hi % q) * p < two128()) by (nonlinear_arith)
                    requires
                        (self.hi % q) * p + self.lo / q < two128(),
                        self.lo / q >= 0,
                ;
            }
            let r = U256 { hi: (self.hi % q) * p + self.lo / q, lo: (self.lo % q) * p };
            assert(r.val() == (self.val() * pow2(k as nat)) % two256());
            r
        } else if k == 128 {
            proof {
                let v = self.val();
                assert(v * pow2(k as nat) == self.hi * two256() + self.lo * two128())
                    by (nonlinear_arith)
                    requires
                        v == self.hi * two128() + self.lo,
                        pow2(k as nat) == two128(),
                        two256() == two128() * two128(),
                ;
                assert(0 <= self.lo * two128() < two256()) by (nonlinear_arith)
                    requires
                        0 <= self.lo < two128(),
                        two256() == two128() * two128(),
                ;
                lemma_fundamental_div_mod_converse(
                    v * pow2(k as nat),
                    two256(),
                    self.hi as int,
                    self.lo * two128(),
                );
            }
            let r = U256 { hi: self.lo, lo: 0 };
            assert(r.val() == (self.val() * pow2(k as nat)) % two256());
            r
        } else if k < 256 {
            let p = pow2_u128(k - 128);
            let q = pow2_u128(256 - k);
            proof {
                lemma_pow2_adds(128, (k - 128) as nat);
                lemma_pow2_adds((k - 128) as nat, (256 - k) as nat);
                lemma_pow2_pos((256 - k) as nat);
                lemma_pow2_pos((k - 128) as nat);
                lemma_mod_bound(self.lo as int, q as int);
                let v = self.val();
                assert(v * pow2(k as nat) == self.hi * p * two256() + (self.lo * two128()) * p)
                    by (nonlinear_arith)
                    requires
                        v == self.hi * two128() + self.lo,
                        pow2(k as nat) == two128() * p,
                        two256() == two128() * two128(),
                ;
                lemma_mod_multiples_vanish(self.hi * p, (self.lo * two128()) * p, two256());
                assert(two256() * (self.hi * p) == self.hi * p * two256()) by (nonlinear_arith);
                assert((self.lo * two128() + 0) * p == (self.lo * two128()) * p);
                assert(0int % (q as int) == 0);
                assert(0int / (q as int) == 0);
                assert((v * pow2(k as nat)) % two256() == ((self.lo * two128()) * p) % two256());
                lemma_split_mul_low(self.lo as int, p as int, q as int);
                assert(0int / (q as int) == 0);
            }
            let r = U256 { hi: (self.lo % q) * p, lo: 0 };
            assert(r.val() == (self.val() * pow2(k as nat)) % two256());
            r
        } else {
            proof {
                lemma_pow2_adds(256, (k - 256) as nat);
                lemma_pow2_pos((k - 256) as nat);
                lemma_mul_is_associative(self.val(), two256(), pow2((k - 256) as nat) as int);
                lemma_mod_multiples_basic(self.val() * pow2((k - 256) as nat), two256());
                assert(self.val() * pow2(k as nat) == (self.val() * pow2((k - 256) as nat)) * two256())
                    by (nonlinear_arith)
                    requires
                        pow2(k as nat) == two256() * pow2((k - 256) as nat),
                ;
            }
            let r = U256 { hi: 0, lo: 0 };
            assert(r.val() == (self.val() * pow2(k as nat)) % two256());
            r
        }
    }

    /// `self < other`.
    pub fn lt(self, other: U256) -> (r: bool)
        ensures
            r == (self.val() < other.val()),
    {
        self.hi < other.hi || (self.hi == other.hi && self.lo < other.lo)
    }

    /// `self <= other`.
    pub fn le(self, other: U256) -> (r: bool)
        ensures
            r == (self.val() <= other.val()),
    {
        self.hi < other.hi || (self.hi == other.hi && self.lo <= other.lo)
    }

    /// Whether both numbers are the same.
    pub fn same(self, other: U256) -> (r: bool)
        ensures
            r == (self.val() == other.val()),
    {
        self.hi == other.hi && self.lo == other.lo
    }

    /// `self == 0`.
    pub fn is_zero(self) -> (r: bool)
        ensures
            r == (self.val() == 0),
    {
        self.hi == 0 && self.lo == 0
    }

    /// `self + other`, which must stay below 2^256.
    pub fn add(self, other: U256) -> (r: U256)
        requires
            self.val() + other.val() < two256(),
        ensures
            r.val() == self.val() + other.val(),
    {
        if self.lo <= u128::MAX - other.lo {
            U256 { hi: self.hi + other.hi, lo: self.lo + other.lo }
        } else {
            U256 { hi: self.hi + other.hi + 1, lo: self.lo - (u128::MAX - other.lo) - 1 }
        }
    }

    /// `self - other` modulo 2^256.
    pub fn wrapping_sub(self, other: U256) -> (r: U256)
        ensures
            r.val() == if self.val() >= other.val() {
                self.val() - other.val()
            } else {
                self.val() - other.val() + two256()
            },
    {
        let borrow: u128;
        let lo: u128;
        if self.lo >= other.lo {
            lo = self.lo - other.lo;
            borrow = 0;
        } else {
            lo = self.lo + (u128::MAX - other.lo) + 1;
            borrow = 1;
        }
        let hi: u128;
        if self.hi >= other.hi && self.hi - other.hi >= borrow {
            hi = self.hi - other.hi - borrow;
        } else {
            let t = (u128::MAX - other.hi) + self.hi;
            if borrow == 0 {
                hi = t + 1;
            } else {
                hi = t;
            }
        }
        U256 { hi, lo }
    }

    /// `self % d` for a 128-bit divisor `d > 0`.
    pub fn rem_u128(self, d: u128) -> (r: u128)
        requires
            d > 0,
        ensures
            r == self.val() % (d as int),
    {
        let q = self.div(U256 { hi: 0, lo: d });
        proof {
            lemma_fundamental_div_mod(self.val(), d as int);
            lemma_mod_bound(self.val(), d as int);
            assert(q.val() * d <= self.val()) by (nonlinear_arith)
                requires self.val() == d * q.val() + self.val() % (d as int), self.val() % (d as int) >= 0;
            assert(q.hi * d < two128()) by (nonlinear_arith)
                requires
                    q.val() * d <= self.val(),
                    self.val() < two256(),
                    q.val() == q.hi * two128() + q.lo,
                    q.lo >= 0,
                    d >= 1,
                    two256() == two128() * two128(),
            ;
            assert(q.val() * d == (q.hi * d) * two128() + q.lo * d) by (nonlinear_arith)
                requires q.val() == q.hi * two128() + q.lo;
        }
        let prod = mul_u128(q.lo, d).add(U256 { hi: q.hi * d, lo: 0 });
        let r = self.sub(prod);
        proof {
            assert(r.val() == self.val() % (d as int));
            assert(r.hi == 0);
        }
        r.lo
    }

    /// `self + other` modulo 2^256.
    pub fn wrapping_add(self, other: U256) -> (r: U256)
        ensures
            r.val() == (self.val() + other.val()) % two256(),
    {
        let neg = U256 { hi: 0, lo: 0 }.wrapping_sub(other);
        let r = self.wrapping_sub(neg);
        proof {
            let s = self.val() + other.val();
            if s < two256() {
                lemma_small_mod(s as nat, two256() as nat);
            } else {
                lemma_fundamental_div_mod_converse(s, two256(), 1, s - two256());
            }
        }
        r
    }

    /// `(self - other) mod 2^256`, in the form of the remainder.
    pub proof fn lemma_wrapping_sub_mod(self, other: U256)
        ensures
            (if self.val() >= other.val() {
                self.val() - other.val()
            } else {
                self.val() - other.val() + two256()
            }) == (self.val() - other.val()) % two256(),
    {
        let d = self.val() - other.val();
        if d >= 0 {
            lemma_small_mod(d as nat, two256() as nat);
        } else {
            lemma_fundamental_div_mod_converse(d, two256(), -1, d + two256());
        }
    }

    /// `self - other`, where `other <= self`.
    pub fn sub(self, other: U256) -> (r: U256)
        requires
            other.val() <= self.val(),
        ensures
            r.val() == self.val() - other.val(),
    {
        self.wrapping_sub(other)
    }

    /// `self << 1` of a number below 2^255.
    proof fn lemma_double_small(v: int)
        requires
            0 <= v,
            2 * v < two256(),
        ensures
            (v * pow2(1)) % two256() == 2 * v,
    {
        lemma2_to64();
        lemma_small_mod((2 * v) as nat, two256() as nat);
    }

    /// `floor(self / d)` for `d > 0`, by binary long division.
    pub fn div(self, d: U256) -> (r: U256)
        requires
            d.val() > 0,
        ensures
            r.val() == self.val() / d.val(),
    {
        let mut q = U256 { hi: 0, lo: 0 };
        let mut rem = U256 { hi: 0, lo: 0 };
        let mut i: u32 = 256;
        proof {
            lemma_pow2_consts();
            lemma_basic_div(self.val(), two256());
            lemma2_to64();
        }
        while i > 0
            invariant
                i <= 256,
                d.val() > 0,
                0 <= self.val() < two256(),
                pow2(1) == 2,
                q.val() == (self.val() / (pow2(i as nat) as int)) / d.val(),
                rem.val() == (self.val() / (pow2(i as nat) as int)) % d.val(),
            decreases i,
        {
            let ghost p_old = self.val() / (pow2(i as nat) as int);
            i = i - 1;
            let cur = self.shr(i);
            let bit = cur.lo % 2;
            let ghost dv = d.val();
            let ghost big_p = cur.val();
            proof {
                lemma_pow2_pos(i as nat);
                lemma_pow2_adds(i as nat, 1);
                lemma_div_denominator(self.val(), pow2(i as nat) as int, 2);
                assert(p_old == big_p / 2);
                assert(big_p % 2 == bit) by {
                    lemma_mod_multiples_vanish(cur.hi * 0x8000_0000_0000_0000_0000_0000_0000_0000int, cur.lo as int, 2);
                }
                assert(big_p == 2 * p_old + bit);
                lemma_fundamental_div_mod(p_old, dv);
                lemma_mod_bound(p_old, dv);
                lemma_div_is_ordered_by_denominator(self.val(), 1, pow2(i as nat) as int);
                assert(big_p <= self.val());
            }
            let top = rem.hi >= 0x8000_0000_0000_0000_0000_0000_0000_0000;
            let sh = rem.shl(1);
            proof {
                if !top {
                    Self::lemma_double_small(rem.val());
                } else {
                    assert(rem.val() * pow2(1) == 1 * two256() + (2 * rem.val() - two256()));
                    lemma_fundamental_div_mod_converse(rem.val() * pow2(1), two256(), 1, 2 * rem.val() - two256());
                }
                assert(sh.lo % 2 == 0) by {
                    lemma_mod_multiples_vanish(sh.hi * 0x8000_0000_0000_0000_0000_0000_0000_0000int, sh.lo as int, 2);
                }
            }
            let t = U256 { hi: sh.hi, lo: sh.lo + bit };
            let ghost big_t = 2 * rem.val() + bit;
            proof {
                assert(top ==> t.val() == big_t - two256());
                assert(!top ==> t.val() == big_t);
                assert(big_t < 2 * dv);
                assert(big_p == (2 * (p_old / dv)) * dv + big_t) by (nonlinear_arith)
                    requires
                        p_old == dv * (p_old / dv) + p_old % dv,
                        big_p == 2 * p_old + bit,
                        big_t == 2 * (p_old % dv) + bit,
                ;
                let qv = q.val();
                assert(big_p == (2 * qv + 1) * dv + (big_t - dv) && big_p == (2 * qv) * dv + big_t)
                    by (nonlinear_arith)
                    requires
                        big_p == (2 * (p_old / dv)) * dv + big_t,
                        qv == p_old / dv,
                ;
            }
            if top || !t.lt(d) {
                rem = t.wrapping_sub(d);
                proof {
                    assert(rem.val() == big_t - dv);
                    lemma_fundamental_div_mod_converse(big_p, dv, 2 * q.val() + 1, big_t - dv);
                    assert((2 * q.val() + 1) * dv <= big_p) by (nonlinear_arith)
                        requires
                            big_p == (2 * q.val() + 1) * dv + (big_t - dv),
                            big_t - dv >= 0,
                    ;
                    assert(2 * q.val() + 1 <= (2 * q.val() + 1) * dv) by (nonlinear_arith)
                        requires
                            dv >= 1,
                            q.val() >= 0,
                    ;
                    Self::lemma_double_small(q.val());
                }
                q = q.shl(1).add(U256 { hi: 0, lo: 1 });
            } else {
                rem = t;
                proof {
                    lemma_fundamental_div_mod_converse(big_p, dv, 2 * q.val(), big_t);
                    assert(2 * q.val() * dv <= big_p) by (nonlinear_arith)
                        requires
                            big_p == (2 * q.val()) * dv + big_t,
                            big_t >= 0,
                    ;
                    assert(2 * q.val() <= 2 * q.val() * dv) by (nonlinear_arith)
                        requires
                            dv >= 1,
                            q.val() >= 0,
                    ;
                    Self::lemma_double_small(q.val());
                }
                q = q.shl(1);
            }
        }
        proof {
            lemma2_to64();
            assert(self.val() / 1 == self.val());
        }
        q
    }
}

/// The exact product of two 128-bit numbers.
pub fn mul_u128(a: u128, b: u128) -> (r: U256)
    ensures
        r.val() == a * b,
{
    let k: u128 = 0x1_0000_0000_0000_0000;
    let a1 = a / k;
    let a0 = a % k;
    let b1 = b / k;
    let b0 = b % k;
    proof {
        assert(a1 < k && b1 < k);
        assert(a0 * b0 < two128()) by (nonlinear_arith)
            requires a0 < k, b0 < k, k * k == two128(), a0 >= 0, b0 >= 0;
        assert(a0 * b1 < two128()) by (nonlinear_arith)
            requires a0 < k, b1 < k, k * k == two128(), a0 >= 0, b1 >= 0;
        assert(a1 * b0 < two128()) by (nonlinear_arith)
            requires a1 < k, b0 < k, k * k == two128(), a1 >= 0, b0 >= 0;
        assert(a1 * b1 < two128()) by (nonlinear_arith)
            requires a1 < k, b1 < k, k * k == two128(), a1 >= 0, b1 >= 0;
    }
    let p00 = a0 * b0;
    let p01 = a0 * b1;
    let p10 = a1 * b0;
    let p11 = a1 * b1;
    let base = U256 { hi: p11, lo: p00 };
    let m1 = U256 { hi: p01 / k, lo: (p01 % k) * k };
    let m2 = U256 { hi: p10 / k, lo: (p10 % k) * k };
    proof {
        assert(m1.val() == p01 * k);
        assert(m2.val() == p10 * k);
        assert(a * b == p11 * two128() + p00 + p01 * k + p10 * k) by (nonlinear_arith)
            requires
                a == a1 * k + a0,
                b == b1 * k + b0,
                p00 == a0 * b0,
                p01 == a0 * b1,
                p10 == a1 * b0,
                p11 == a1 * b1,
                k * k == two128(),
        ;
        assert(a * b < two256()) by (nonlinear_arith)
            requires 0 <= a < two128(), 0 <= b < two128(), two256() == two128() * two128();
        assert(p01 * k >= 0 && p10 * k >= 0) by (nonlinear_arith)
            requires p01 >= 0, p10 >= 0, k > 0;
    }
    let s = base.add(m1);
    s.add(m2)
}

/// The high half of the product of two 128-bit numbers: `floor(a * b / 2^128)`.
pub fn mul_hi(a: u128, b: u128) -> (r: u128)
    ensures
        r == (a * b) / two128(),
{
    let p = mul_u128(a, b);
    proof {
        lemma_div_multiples_vanish_fancy(p.hi as int, p.lo as int, two128());
    }
    p.hi
}

/// `a * b`, or `None` when the product reaches 2^256.
pub fn checked_mul_u256(a: U256, b: U256) -> (r: Option<U256>)
    ensures
        match r {
            Some(v) => v.val() == a.val() * b.val(),
            None => a.val() * b.val() >= two256(),
        },
{
    proof {
        assert(a.val() * b.val() == (a.hi * b.hi) * two256() + (a.hi * b.lo + a.lo * b.hi) * two128()
            + a.lo * b.lo) by (nonlinear_arith)
            requires
                a.val() == a.hi * two128() + a.lo,
                b.val() == b.hi * two128() + b.lo,
                two256() == two128() * two128(),
        ;
        assert(a.hi * b.lo >= 0 && a.lo * b.hi >= 0 && a.lo * b.lo >= 0 && a.hi * b.hi >= 0)
            by (nonlinear_arith)
            requires a.hi >= 0, a.lo >= 0, b.hi >= 0, b.lo >= 0;
    }
    if a.hi != 0 && b.hi != 0 {
        proof {
            assert(a.hi * b.hi >= 1) by (nonlinear_arith)
                requires a.hi >= 1, b.hi >= 1;
            assert((a.hi * b.hi) * two256() >= two256()) by (nonlinear_arith)
                requires a.hi * b.hi >= 1, two256() > 0;
        }
        return None;
    }
    proof {
        assert(a.hi * b.hi == 0) by (nonlinear_arith)
            requires a.hi == 0 || b.hi == 0;
    }
    let low = mul_u128(a.lo, b.lo);
    let c1 = mul_u128(a.hi, b.lo);
    let c2 = mul_u128(a.lo, b.hi);
    if c1.hi != 0 || c2.hi != 0 {
        proof {
            assert(a.hi * b.lo + a.lo * b.hi >= two128());
        }
        return None;
    }
    proof {
        assert(c1.lo == 0 || c2.lo == 0) by (nonlinear_arith)
            requires
                a.hi == 0 || b.hi == 0,
                c1.val() == a.hi * b.lo,
                c2.val() == a.lo * b.hi,
                c1.hi == 0,
                c2.hi == 0,
                c1.val() == c1.hi * two128() + c1.lo,
                c2.val() == c2.hi * two128() + c2.lo,
        ;
    }
    let cross = if c1.lo == 0 { c2.lo } else { c1.lo };
    match low.hi.checked_add(cross) {
        Some(h) => Some(U256 { hi: h, lo: low.lo }),
        None => None,
    }
}

} // verus!

verus! {

/// `|x|` of a 128-bit signed number, as an unsigned number.
pub fn abs_i128(x: i128) -> (r: u128)
    ensures
        r == if x < 0 { -x } else { x as int },
{
    if x >= 0 {
        x as u128
    } else {
        ((-(x + 1)) as u128) + 1
    }
}

/// The 128-bit two's-complement reading of a 128-bit pattern.
pub fn u128_to_i128_wrapping(u: u128) -> (r: i128)
    ensures
        r == if u < 0x8000_0000_0000_0000_0000_0000_0000_0000 { u as int } else { u - two128() },
{
    if u < 0x8000_0000_0000_0000_0000_0000_0000_0000 {
        u as i128
    } else {
        ((u - 0x8000_0000_0000_0000_0000_0000_0000_0000) as i128) - 0x7fff_ffff_ffff_ffff_ffff_ffff_ffff_ffff - 1
    }
}

/// The 128-bit pattern of a 128-bit signed number: `x mod 2^128`.
pub fn i128_to_u128_wrapping(x: i128) -> (r: u128)
    ensures
        r == if x < 0 { x + two128() } else { x as int },
{
    if x >= 0 {
        x as u128
    } else {
        ((x + 0x7fff_ffff_ffff_ffff_ffff_ffff_ffff_ffff + 1) as u128) + 0x8000_0000_0000_0000_0000_0000_0000_0000
    }
}

/// A signed 256-bit integer in two's complement: `hi * 2^128 + lo`.
#[derive(Clone, Copy, Debug, PartialEq, Eq, Structural)]
pub struct I256 {
    pub hi: i128,
    pub lo: u128,
}

impl I256 {
    /// The number this value stands for.
    pub open spec fn val(self) -> int {
        self.hi * two128() + self.lo
    }

    /// The value `x`.
    pub fn from_i128(x: i128) -> (r: I256)
        ensures
            r.val() == x,
    {
        I256 { hi: if x < 0 { -1 } else { 0 }, lo: i128_to_u128_wrapping(x) }
    }

    /// `self + other`, or `None` when the sum leaves the signed 256-bit range.
    pub fn checked_add(self, other: I256) -> (r: Option<I256>)
        ensures
            match r {
                Some(v) => v.val() == self.val() + other.val(),
                None => !(-two256() / 2 <= self.val() + other.val() < two256() / 2),
            },
    {
        let carry: bool = self.lo > u128::MAX - other.lo;
        let lo: u128 = if carry { self.lo - (u128::MAX - other.lo) - 1 } else { self.lo + other.lo };
        let hi: Option<i128> = if !carry {
            self.hi.checked_add(other.hi)
        } else if other.hi < 0 {
            self.hi.checked_add(other.hi + 1)
        } else {
            match self.hi.checked_add(other.hi) {
                Some(h) => h.checked_add(1),
                None => None,
            }
        };
        proof {
            assert(two256() / 2 == 0x8000_0000_0000_0000_0000_0000_0000_0000int * two128());
        }
        match hi {
            Some(h) => Some(I256 { hi: h, lo }),
            None => None,
        }
    }

    /// `self - other`, or `None` when the difference leaves the signed 256-bit range.
    pub fn checked_sub(self, other: I256) -> (r: Option<I256>)
        ensures
            match r {
                Some(v) => v.val() == self.val() - other.val(),
                None => !(-two256() / 2 <= self.val() - other.val() < two256() / 2),
            },
    {
        let borrow: bool = self.lo < other.lo;
        let lo: u128 = if borrow { self.lo + (u128::MAX - other.lo) + 1 } else { self.lo - other.lo };
        let hi: Option<i128> = if !borrow {
            self.hi.checked_sub(other.hi)
        } else if other.hi < i128::MAX {
            self.hi.checked_sub(other.hi + 1)
        } else {
            match self.hi.checked_sub(other.hi) {
                Some(h) => h.checked_sub(1),
                None => None,
            }
        };
        proof {
            assert(two256() / 2 == 0x8000_0000_0000_0000_0000_0000_0000_0000int * two128());
        }
        match hi {
            Some(h) => Some(I256 { hi: h, lo }),
            None => None,
        }
    }

    /// The value as an `i128`, when it fits.
    pub fn to_i128(self) -> (r: i128)
        requires
            -0x8000_0000_0000_0000_0000_0000_0000_0000int <= self.val() < 0x8000_0000_0000_0000_0000_0000_0000_0000int,
        ensures
            r == self.val(),
    {
        u128_to_i128_wrapping(self.lo)
    }

    /// Whether the value is below zero.
    pub fn is_negative(self) -> (r: bool)
        ensures
            r == (self.val() < 0),
    {
        self.hi < 0
    }

    /// `|self|`, which is at most 2^255.
    pub fn abs(self) -> (r: U256)
        ensures
            r.val() == if self.val() < 0 { -self.val() } else { self.val() },
    {
        if self.hi >= 0 {
            U256 { hi: self.hi as u128, lo: self.lo }
        } else {
            let u = U256 { hi: i128_to_u128_wrapping(self.hi), lo: self.lo };
            U256 { hi: 0, lo: 0 }.wrapping_sub(u)
        }
    }

    /// The value `-m` when `neg` holds, else `m`; `m` must fit the sign.
    pub fn from_sign_mag(neg: bool, m: U256) -> (r: I256)
        requires
            if neg { m.val() <= two256() / 2 } else { m.val() < two256() / 2 },
        ensures
            r.val() == if neg { -m.val() } else { m.val() },
    {
        if !neg || m.is_zero() {
            I256 { hi: m.hi as i128, lo: m.lo }
        } else {
            let u = U256 { hi: 0, lo: 0 }.wrapping_sub(m);
            I256 { hi: u128_to_i128_wrapping(u.hi), lo: u.lo }
        }
    }
}

} // verus!

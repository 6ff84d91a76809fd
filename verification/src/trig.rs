//! Sine and cosine of angles in 18-decimal fixed point, read from a table of sine values
//! with linear interpolation; results are scaled by 10^18.

use vstd::prelude::*;
use vstd::arithmetic::power2::*;
use vstd::arithmetic::div_mod::*;
use vstd::bits::lemma_u128_shr_is_div;
use crate::wide::{two128, two256, U256, pow2_u128, abs_i128};
use crate::abdk::trunc_div;

verus! {

/// The constants that shape a sine table and the angles read into it.
pub struct TrignometryParams {
    pub index_width: u32,
    pub interp_width: u32,
    pub index_offset: u32,
    pub interp_offset: u32,
    pub angles_in_cycle: u128,
    pub quadrant_high_mask: u128,
    pub quadrant_low_mask: u128,
    pub sine_table_size: u128,
    pub pi: u128,
    pub two_pi: u128,
    pub pi_over_two: u128,
    pub entry_bytes: u32,
    pub entry_mask: u128,
    pub sin_table: Vec<u8>,
}

/// The big-endian number held in `len` bytes of `s` from `start`.
pub open spec fn be_bytes(s: Seq<u8>, start: int, len: nat) -> int
    decreases len,
{
    if len == 0 {
        0
    } else {
        be_bytes(s, start, (len - 1) as nat) * 256 + s[start + len - 1]
    }
}

impl TrignometryParams {
    /// The constants are in the ranges the computation is written for.
    pub open spec fn wf(self) -> bool {
        &&& self.index_width <= 32
        &&& self.interp_width <= 32
        &&& self.index_offset < 128
        &&& self.interp_offset < 128
        &&& self.angles_in_cycle < 0x1_0000_0000_0000_0000
        &&& 0 < self.two_pi < 0x1_0000_0000_0000_0000
        &&& 1 <= self.entry_bytes <= 8
        &&& self.sine_table_size >= pow2(self.index_width as nat)
        &&& self.sine_table_size < 0x1_0000_0000_0000_0000
    }

    /// `angle` as a position in the cycle: `angles_in_cycle * (angle mod 2pi) / 2pi`.
    pub open spec fn cycle_pos(self, angle: int) -> int {
        (self.angles_in_cycle * (angle % (self.two_pi as int))) / (self.two_pi as int)
    }

    /// The interpolation weight of a cycle position.
    pub open spec fn interp(self, a: int) -> int {
        (a / (pow2(self.interp_offset as nat) as int)) % (pow2(self.interp_width as nat) as int)
    }

    /// The table index of a cycle position before its quadrant is taken into account.
    pub open spec fn raw_index(self, a: int) -> int {
        (a / (pow2(self.index_offset as nat) as int)) % (pow2(self.index_width as nat) as int)
    }

    /// Whether the position lies where the table is read forwards.
    pub open spec fn forward(self, a: u128) -> bool {
        a & self.quadrant_low_mask == 0
    }

    /// Whether the position lies where the sine is negative.
    pub open spec fn negative(self, a: u128) -> bool {
        a & self.quadrant_high_mask != 0
    }

    /// The table index of a cycle position.
    pub open spec fn index(self, a: u128) -> int {
        if self.forward(a) {
            self.raw_index(a as int)
        } else {
            self.sine_table_size - 1 - self.raw_index(a as int)
        }
    }

    /// Entry `i` of the table, masked.
    pub open spec fn entry(self, i: int) -> int {
        ((be_bytes(self.sin_table@, i * self.entry_bytes, self.entry_bytes as nat) as u128)
            & self.entry_mask) as int
    }

    /// The two entries around `angle` lie in the table, and they do not decrease unless
    /// the interpolation weight is 0 (a decreasing pair with a nonzero weight makes the
    /// difference wrap around and the rescaling overflow).
    pub open spec fn sin_ok(self, angle: int) -> bool {
        let a = self.cycle_pos(angle) as u128;
        &&& self.wf()
        &&& (self.index(a) + 2) * self.entry_bytes <= self.sin_table@.len()
        &&& (self.entry(self.index(a)) <= self.entry(self.index(a) + 1) || self.interp(a as int) == 0)
    }

    /// The sine of `angle`, scaled by 10^18: the two table entries around the position,
    /// interpolated, signed by the quadrant, rescaled from 2^31 - 1 to 10^18 and rounded
    /// toward zero.
    pub open spec fn sin_spec(self, angle: int) -> int {
        let a = self.cycle_pos(angle) as u128;
        let i = self.index(a);
        let x1 = self.entry(i);
        let x2 = self.entry(i + 1);
        let approximation = ((x2 - x1) * self.interp(a as int)) / (pow2(self.interp_width as nat) as int);
        let sine = if self.forward(a) { x1 + approximation } else { x2 - approximation };
        let s = if self.negative(a) { -sine } else { sine };
        trunc_div(s * 1_000_000_000_000_000_000, 2_147_483_647)
    }
}

/// The sine is periodic: adding `2pi` to an angle gives the same table reading and the
/// same sine.
pub proof fn law_sin_periodic(p: TrignometryParams, angle: int)
    requires
        p.wf(),
        angle >= 0,
    ensures
        p.cycle_pos(angle + p.two_pi) == p.cycle_pos(angle),
        p.sin_ok(angle + p.two_pi) == p.sin_ok(angle),
        p.sin_spec(angle + p.two_pi) == p.sin_spec(angle),
{
    lemma_mod_add_multiples_vanish(angle, p.two_pi as int);
}

/// Adding 2^29 to a position below 2^29 changes only its bit 29.
proof fn lemma_half_turn_bits(p: TrignometryParams, a: u128)
    requires
        p.quadrant_high_mask == 0x2000_0000,
        p.quadrant_low_mask == 0x1000_0000,
        p.index_offset + p.index_width <= 29,
        p.interp_offset + p.interp_width <= 29,
        a < 0x2000_0000,
    ensures
        p.interp((a + 0x2000_0000) as int) == p.interp(a as int),
        p.raw_index((a + 0x2000_0000) as int) == p.raw_index(a as int),
        p.forward((a + 0x2000_0000) as u128) == p.forward(a),
        !p.negative(a),
        p.negative((a + 0x2000_0000) as u128),
{
    let b = (a + 0x2000_0000) as u128;
    assert((b & 0x1000_0000u128) == (a & 0x1000_0000u128) && (b & 0x2000_0000u128) != 0
        && (a & 0x2000_0000u128) == 0) by (bit_vector)
        requires a < 0x2000_0000u128, b == a + 0x2000_0000u128;
    lemma_shifted_field(a as int, p.interp_offset as nat, p.interp_width as nat);
    lemma_shifted_field(a as int, p.index_offset as nat, p.index_width as nat);
}

/// A field of `w` bits at offset `k` with `k + w <= 29` does not see bit 29.
proof fn lemma_shifted_field(a: int, k: nat, w: nat)
    requires
        a >= 0,
        k + w <= 29,
    ensures
        ((a + 0x2000_0000) / (pow2(k) as int)) % (pow2(w) as int) == (a / (pow2(k) as int)) % (pow2(w) as int),
{
    lemma_pow2_pos(k);
    lemma_pow2_pos(w);
    lemma_pow2_adds(k, (29 - k) as nat);
    lemma_pow2_adds(w, (29 - k - w) as nat);
    lemma2_to64();
    assert(pow2(29) == 0x2000_0000);
    let h = pow2((29 - k) as nat) as int;
    let d = pow2(k) as int;
    assert(0x2000_0000 == h * d);
    lemma_fundamental_div_mod(a, d);
    lemma_mod_bound(a, d);
    assert(a + 0x2000_0000 == (a / d + h) * d + a % d) by (nonlinear_arith)
        requires a == d * (a / d) + a % d, 0x2000_0000 == h * d;
    lemma_fundamental_div_mod_converse(a + 0x2000_0000, d, a / d + h, a % d);
    let g = pow2((29 - k - w) as nat) as int;
    assert(w + ((29 - k - w) as nat) == (29 - k) as nat);
    assert(pow2((29 - k) as nat) == pow2(w) * pow2((29 - k - w) as nat));
    assert(h == g * (pow2(w) as int)) by (nonlinear_arith)
        requires h == pow2(w) * g;
    lemma_mod_multiples_vanish(g, a / (pow2(k) as int), pow2(w) as int);
}

/// Half a turn negates the sine: adding `pi` to an angle moves its cycle position by
/// half of 2^30, which flips the sign bit and keeps the table reading. This holds for tables with 2^30 positions in a cycle, quadrant bits 29 and
/// 28, fields below bit 29, and `2pi` exactly twice `pi`.
pub proof fn law_sin_half_turn(p: TrignometryParams, angle: int)
    requires
        p.wf(),
        angle >= 0,
        p.two_pi == 2 * p.pi,
        p.angles_in_cycle == 0x4000_0000,
        p.quadrant_high_mask == 0x2000_0000,
        p.quadrant_low_mask == 0x1000_0000,
        p.index_offset + p.index_width <= 29,
        p.interp_offset + p.interp_width <= 29,
    ensures
        p.sin_ok(angle + p.pi) == p.sin_ok(angle),
        p.sin_spec(angle + p.pi) == -p.sin_spec(angle),
{
    let t = p.two_pi as int;
    let pi = p.pi as int;
    let q = angle / t;
    let r = angle % t;
    lemma_fundamental_div_mod(angle, t);
    lemma_mod_bound(angle, t);
    let c = (0x4000_0000 * r) / t;
    let m = (0x4000_0000 * r) % t;
    lemma_fundamental_div_mod(0x4000_0000 * r, t);
    lemma_mod_bound(0x4000_0000 * r, t);
    assert(0x4000_0000 * pi == 0x2000_0000 * t);
    if r < pi {
        assert(angle + pi == q * t + (r + pi)) by (nonlinear_arith)
            requires angle == t * q + r;
        lemma_fundamental_div_mod_converse(angle + pi, t, q, r + pi);
        assert(0x4000_0000 * (r + pi) == (c + 0x2000_0000) * t + m) by (nonlinear_arith)
            requires 0x4000_0000 * r == t * c + m, 0x4000_0000 * pi == 0x2000_0000 * t;
        lemma_fundamental_div_mod_converse(0x4000_0000 * (r + pi), t, c + 0x2000_0000, m);
        assert(0 <= c < 0x2000_0000) by (nonlinear_arith)
            requires 0x4000_0000 * r == t * c + m, 0 <= m < t, 0 <= r < pi, t == 2 * pi, pi > 0;
        assert(p.cycle_pos(angle) == c);
        assert(p.cycle_pos(angle + pi) == c + 0x2000_0000);
        lemma_half_turn_bits(p, c as u128);
    } else {
        assert(angle + pi == (q + 1) * t + (r - pi)) by (nonlinear_arith)
            requires angle == t * q + r, t == 2 * pi;
        lemma_fundamental_div_mod_converse(angle + pi, t, q + 1, r - pi);
        assert(0x4000_0000 * (r - pi) == (c - 0x2000_0000) * t + m) by (nonlinear_arith)
            requires 0x4000_0000 * r == t * c + m, 0x4000_0000 * pi == 0x2000_0000 * t;
        lemma_fundamental_div_mod_converse(0x4000_0000 * (r - pi), t, c - 0x2000_0000, m);
        assert(0x2000_0000 <= c < 0x4000_0000) by (nonlinear_arith)
            requires 0x4000_0000 * r == t * c + m, 0 <= m < t, pi <= r < t, t == 2 * pi, pi > 0;
        assert(p.cycle_pos(angle) == c);
        assert(p.cycle_pos(angle + pi) == c - 0x2000_0000);
        lemma_half_turn_bits(p, (c - 0x2000_0000) as u128);
    }
}

/// The sine is at least 0 on the first half turn, `angle mod 2pi` in `[0, pi)`, and at
/// most 0 on the second, for tables with 2^30 positions in a cycle, quadrant bits 29 and
/// 28, fields below bit 29, and `2pi` exactly twice `pi`.
pub proof fn law_sin_sign(p: TrignometryParams, angle: int)
    requires
        p.wf(),
        angle >= 0,
        p.two_pi == 2 * p.pi,
        p.angles_in_cycle == 0x4000_0000,
        p.quadrant_high_mask == 0x2000_0000,
        p.quadrant_low_mask == 0x1000_0000,
        p.index_offset + p.index_width <= 29,
        p.interp_offset + p.interp_width <= 29,
        p.sin_ok(angle),
    ensures
        angle % (p.two_pi as int) < p.pi ==> p.sin_spec(angle) >= 0,
        angle % (p.two_pi as int) >= p.pi ==> p.sin_spec(angle) <= 0,
{
    let t = p.two_pi as int;
    let pi = p.pi as int;
    let r = angle % t;
    lemma_mod_bound(angle, t);
    let c = (0x4000_0000 * r) / t;
    let m = (0x4000_0000 * r) % t;
    lemma_fundamental_div_mod(0x4000_0000 * r, t);
    lemma_mod_bound(0x4000_0000 * r, t);
    assert(p.cycle_pos(angle) == c);
    let a = c as u128;
    if r < pi {
        assert(0 <= c < 0x2000_0000) by (nonlinear_arith)
            requires 0x4000_0000 * r == t * c + m, 0 <= m < t, 0 <= r < pi, t == 2 * pi, pi > 0;
        assert((a & 0x2000_0000u128) == 0) by (bit_vector)
            requires a < 0x2000_0000u128;
        assert(!p.negative(a));
    } else {
        assert(0x2000_0000 <= c < 0x4000_0000) by (nonlinear_arith)
            requires 0x4000_0000 * r == t * c + m, 0 <= m < t, pi <= r < t, t == 2 * pi, pi > 0;
        assert((a & 0x2000_0000u128) != 0) by (bit_vector)
            requires 0x2000_0000u128 <= a < 0x4000_0000u128;
        assert(p.negative(a));
    }
    let i = p.index(a);
    let x1 = p.entry(i);
    let x2 = p.entry(i + 1);
    let w = pow2(p.interp_width as nat) as int;
    let f = p.interp(a as int);
    lemma_pow2_pos(p.interp_width as nat);
    lemma_mod_bound(a as int / (pow2(p.interp_offset as nat) as int), w);
    assert(0 <= f < w);
    let approximation = ((x2 - x1) * f) / w;
    if f == 0 {
        assert((x2 - x1) * f == 0);
        assert(approximation == 0);
    } else {
        assert(0 <= (x2 - x1) * f <= (x2 - x1) * w) by (nonlinear_arith)
            requires 0 <= x2 - x1, 0 <= f < w;
        lemma_div_pos_is_pos((x2 - x1) * f, w);
        lemma_div_is_ordered((x2 - x1) * f, (x2 - x1) * w, w);
        vstd::arithmetic::div_mod::lemma_div_by_multiple(x2 - x1, w);
        assert(0 <= approximation <= x2 - x1);
    }
    let sine = if p.forward(a) { x1 + approximation } else { x2 - approximation };
    assert(sine >= 0);
}

/// The entry of `len` bytes at `start`, read big-endian.
fn read_be(table: &Vec<u8>, start: usize, len: u32) -> (r: u64)
    requires
        1 <= len <= 8,
        start + len <= table@.len(),
    ensures
        r == be_bytes(table@, start as int, len as nat),
{
    let mut v: u64 = 0;
    let mut j: u32 = 0;
    let n = table.len();
    proof {
        lemma2_to64();
    }
    while j < len
        invariant
            j <= len <= 8,
            start + len <= table@.len(),
            n == table@.len(),
            v == be_bytes(table@, start as int, j as nat),
            v < pow2(8 * j as nat),
        decreases len - j,
    {
        proof {
            lemma_pow2_adds(8 * j as nat, 8);
            lemma2_to64();
            lemma2_to64_rest();
            if 8 * (j + 1) < 64 {
                lemma_pow2_strictly_increases(8 * (j + 1) as nat, 64);
            }
            assert(v * 256 + 255 < pow2(8 * (j + 1) as nat)) by (nonlinear_arith)
                requires v < pow2(8 * j as nat), pow2(8 * (j + 1) as nat) == pow2(8 * j as nat) * 256,
                    v >= 0;
        }
        let pos: usize = start + (j as usize);
        v = v * 256 + (table[pos] as u64);
        j = j + 1;
    }
    v
}

/// The sine table with its constants.
pub struct Trigonometry {
    pub params: TrignometryParams,
}

impl Trigonometry {
    /// The sine of `angle` (radians times 10^18), scaled by 10^18.
    pub fn sin(&self, angle: U256) -> (r: i128)
        requires
            self.params.sin_ok(angle.val()),
        ensures
            r == self.params.sin_spec(angle.val()),
    {
        let p = &self.params;
        let reduced = angle.rem_u128(p.two_pi);
        proof {
            lemma_mod_bound(angle.val(), p.two_pi as int);
            assert(p.angles_in_cycle * reduced < 0x1_0000_0000_0000_0000_0000_0000_0000_0000) by (nonlinear_arith)
                requires p.angles_in_cycle < 0x1_0000_0000_0000_0000, reduced < 0x1_0000_0000_0000_0000;
        }
        let a: u128 = (p.angles_in_cycle * reduced) / p.two_pi;
        proof {
            lemma_div_is_ordered_by_denominator((p.angles_in_cycle * reduced) as int, 1, p.two_pi as int);
            lemma_u128_shr_is_div(a, p.interp_offset as u128);
            lemma_u128_shr_is_div(a, p.index_offset as u128);
            lemma_pow2_pos(p.interp_width as nat);
            lemma_pow2_pos(p.index_width as nat);
            lemma2_to64();
        }
        let interp = (a >> p.interp_offset) % pow2_u128(p.interp_width);
        let raw = (a >> p.index_offset) % pow2_u128(p.index_width);
        let is_odd_quadrant = (a & p.quadrant_low_mask) == 0;
        let is_negative_quadrant = (a & p.quadrant_high_mask) != 0;
        proof {
            lemma_mod_bound((a >> p.index_offset) as int, pow2(p.index_width as nat) as int);
        }
        let index = if !is_odd_quadrant {
            p.sine_table_size - 1 - raw
        } else {
            raw
        };
        let e = p.entry_bytes;
        proof {
            assert(index * e + 2 * e <= p.sin_table@.len()) by (nonlinear_arith)
                requires (index + 2) * e <= p.sin_table@.len();
            assert((index + 1) * e == index * e + e) by (nonlinear_arith);
        }
        let n = p.sin_table.len();
        proof {
            assert(index < 0x1_0000_0000_0000_0000);
        }
        let start1 = index * (e as u128);
        let v1 = read_be(&p.sin_table, start1 as usize, e) as u128;
        let v2 = read_be(&p.sin_table, (start1 + (e as u128)) as usize, e) as u128;
        let x1 = v1 & p.entry_mask;
        let x2 = v2 & p.entry_mask;
        proof {
            let m = p.entry_mask;
            assert(x1 <= v1) by (bit_vector)
                requires x1 == v1 & m;
            assert(x2 <= v2) by (bit_vector)
                requires x2 == v2 & m;
            lemma_pow2_pos(p.interp_width as nat);
            lemma_mod_bound((a >> p.interp_offset) as int, pow2(p.interp_width as nat) as int);
        }
        let approximation: u128 = if interp == 0 {
            proof {
                lemma_pow2_pos(p.interp_width as nat);
                assert(((x2 - x1) * interp) == 0);
            }
            0
        } else {
            proof {
                if p.interp_width < 32 {
                    lemma_pow2_strictly_increases(p.interp_width as nat, 32);
                }
                lemma2_to64();
                assert((x2 - x1) * interp < two128()) by (nonlinear_arith)
                    requires 0 <= x2 - x1 < 0x1_0000_0000_0000_0000, 0 <= interp < 0x1_0000_0000;
                lemma_u128_shr_is_div(((x2 - x1) * interp) as u128, p.interp_width as u128);
                assert(((x2 - x1) * interp) / (pow2(p.interp_width as nat) as int) <= x2 - x1) by {
                    assert((x2 - x1) * interp <= (x2 - x1) * pow2(p.interp_width as nat)) by (nonlinear_arith)
                        requires x2 - x1 >= 0, interp < pow2(p.interp_width as nat);
                    lemma_div_is_ordered((x2 - x1) * interp, (x2 - x1) * pow2(p.interp_width as nat), pow2(p.interp_width as nat) as int);
                    vstd::arithmetic::div_mod::lemma_div_by_multiple((x2 - x1) as int, pow2(p.interp_width as nat) as int);
                }
            }
            ((x2 - x1) * interp) >> p.interp_width
        };
        let sine: i128 = if is_odd_quadrant {
            (x1 + approximation) as i128
        } else {
            (x2 - approximation) as i128
        };
        let sine = if is_negative_quadrant { -sine } else { sine };
        let m = abs_i128(sine) * 1_000_000_000_000_000_000 / 2_147_483_647;
        if sine < 0 {
            -(m as i128)
        } else {
            m as i128
        }
    }

    /// The cosine of `angle`: the sine of `angle + pi/2`, the sum taken modulo 2^256.
    pub fn cos(&self, angle: U256) -> (r: i128)
        requires
            self.params.sin_ok((angle.val() + self.params.pi_over_two) % two256()),
        ensures
            r == self.params.sin_spec((angle.val() + self.params.pi_over_two) % two256()),
    {
        self.sin(angle.wrapping_add(U256::from_u128(self.params.pi_over_two)))
    }
}

/// The constants of the sine table used by the Fourier transform.
pub struct FourierParams {}

impl FourierParams {
    /// The constants: 8-bit index and interpolation widths, 2^30 angles in a cycle with
    /// quadrant bits 29 and 28, pi = 3.141592653589793238 in 18 decimals, 4-byte entries
    /// masked to 32 bits, and its 85-byte table. That table holds only the first 21
    /// entries, so `sin` can read it for table indices up to 19 alone; the cosine that
    /// `Fourier::fft` needs lies past its end, so the transform runs only with a fuller
    /// table in `TrignometryParams`.
    pub fn params() -> (r: TrignometryParams)
        ensures
            r.index_width == 8,
            r.interp_width == 8,
            r.index_offset == 20,
            r.interp_offset == 12,
            r.angles_in_cycle == 0x4000_0000,
            r.quadrant_high_mask == 0x2000_0000,
            r.quadrant_low_mask == 0x1000_0000,
            r.sine_table_size == 256,
            r.pi == 3_141_592_653_589_793_238,
            r.two_pi == 2 * 3_141_592_653_589_793_238,
            r.pi_over_two == 1_570_796_326_794_896_619,
            r.entry_bytes == 4,
            r.entry_mask == 0xffff_ffff,
            r.sin_table@ == seq![0x00u8, 0x00, 0x00, 0x00, 0xc9, 0x0f, 0xda, 0xa2, 0x43, 0x3c, 0x5b, 0x26, 0x1d, 0x7f, 0x36, 0x09, 0x0f, 0x34, 0x7e, 0x9c, 0x3f, 0x95, 0x0f, 0xdc, 0x26, 0x7a, 0x9c, 0xa4, 0x3d, 0x3f, 0x84, 0x5b, 0x4b, 0x77, 0x3f, 0x0a, 0x3d, 0x70, 0x26, 0x3f, 0x5b, 0x2d, 0x7a, 0x3f, 0x0a, 0x3d, 0x70, 0x26, 0x3f, 0x5b, 0x2d, 0x7a, 0x3f, 0x0a, 0x3d, 0x70, 0x26, 0x3f, 0x5b, 0x2d, 0x7a, 0x3f, 0x0a, 0x3d, 0x70, 0x26, 0x3f, 0x5b, 0x2d, 0x7a, 0x3f, 0x0a, 0x3d, 0x70, 0x26, 0x3f, 0x5b, 0x2d, 0x7a, 0x3f, 0x0a, 0x3d, 0x70, 0x26, 0x3f],
            r.wf(),
    {
        proof {
            lemma2_to64();
            assert(1u128 << 32u32 == 0x1_0000_0000u128) by (bit_vector);
        }
        let pi: u128 = 3_141_592_653_589_793_238;
        TrignometryParams {
            index_width: 8,
            interp_width: 8,
            index_offset: 28 - 8,
            interp_offset: 28 - 8 - 8,
            angles_in_cycle: 0x4000_0000,
            quadrant_high_mask: 536_870_912,
            quadrant_low_mask: 268_435_456,
            sine_table_size: 256,
            pi,
            two_pi: 2 * pi,
            pi_over_two: pi / 2,
            entry_bytes: 4,
            entry_mask: (1u128 << 32u32) - 1,
            sin_table: vec![0x00, 0x00, 0x00, 0x00, 0xc9, 0x0f, 0xda, 0xa2, 0x43, 0x3c, 0x5b, 0x26, 0x1d, 0x7f, 0x36, 0x09, 0x0f, 0x34, 0x7e, 0x9c, 0x3f, 0x95, 0x0f, 0xdc, 0x26, 0x7a, 0x9c, 0xa4, 0x3d, 0x3f, 0x84, 0x5b, 0x4b, 0x77, 0x3f, 0x0a, 0x3d, 0x70, 0x26, 0x3f, 0x5b, 0x2d, 0x7a, 0x3f, 0x0a, 0x3d, 0x70, 0x26, 0x3f, 0x5b, 0x2d, 0x7a, 0x3f, 0x0a, 0x3d, 0x70, 0x26, 0x3f, 0x5b, 0x2d, 0x7a, 0x3f, 0x0a, 0x3d, 0x70, 0x26, 0x3f, 0x5b, 0x2d, 0x7a, 0x3f, 0x0a, 0x3d, 0x70, 0x26, 0x3f, 0x5b, 0x2d, 0x7a, 0x3f, 0x0a, 0x3d, 0x70, 0x26, 0x3f],
        }
    }
}

} // verus!

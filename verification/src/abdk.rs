//! Signed 64.64 fixed-point arithmetic: a value `x: i128` stands for `x / 2^64`.

use vstd::prelude::*;
use vstd::bits::{lemma_u128_shr_is_div, lemma_u64_shr_is_div};
use vstd::arithmetic::power2::*;
use vstd::arithmetic::div_mod::*;
use vstd::arithmetic::mul::*;
use crate::wide::{lemma_pow2_consts, lemma_split_mul_low_pub, pow2_u128, two128, two256, U256, I256, mul_u128, mul_hi, abs_i128, i128_to_u128_wrapping, u128_to_i128_wrapping};

verus! {

/// 2^64.
pub open spec fn two64() -> int {
    0x1_0000_0000_0000_0000int
}

/// 2^127.
pub open spec fn two127() -> int {
    0x8000_0000_0000_0000_0000_0000_0000_0000int
}

/// The smallest 64.64 number, -2^127 (that is, -2^63 as a real).
pub open spec fn min_64x64() -> int {
    -two127()
}

/// The largest 64.64 number, 2^127 - 1.
pub open spec fn max_64x64() -> int {
    two127() - 1
}

/// 2^192.
pub open spec fn two192() -> int {
    0x1_0000_0000_0000_0000_0000_0000_0000_0000_0000_0000_0000_0000int
}

/// Whether `v` is a 64.64 number.
pub open spec fn in_64x64(v: int) -> bool {
    min_64x64() <= v <= max_64x64()
}

/// `a / b` rounded toward zero, for `b != 0`.
pub open spec fn trunc_div(a: int, b: int) -> int {
    let q = abs(a) / abs(b);
    if (a < 0) != (b < 0) { -q } else { q }
}

/// `|a|`.
pub open spec fn abs(a: int) -> int {
    if a < 0 { -a } else { a }
}

/// The signed number whose sign is given by `neg` and whose magnitude is `m`.
pub open spec fn signed(neg: bool, m: int) -> int {
    if neg { -m } else { m }
}

/// The base of `pow` as a 1.127 mantissa and an exponent: a magnitude above 1.0 is
/// moved up until its highest set bit is bit 127, and the exponent says by how much it
/// falls short of that; a magnitude of at most 1.0 is moved up by 63 bits with
/// exponent 0.
pub open spec fn pow_norm(ax: int) -> (int, int) {
    if ax > two64() {
        let m = msb_spec(ax);
        (ax * pow2((127 - m) as nat), m - 64)
    } else {
        (ax * 0x8000_0000_0000_0000, 0)
    }
}

/// The repeated squaring of `pow`: the accumulator `r` with exponent `rs` is multiplied
/// by the base `b` with exponent `bs` for each set bit of `y`, and the base is squared at
/// each step, products rounded down to 1.127 mantissas; an accumulator above 2.0 and a
/// base of 2.0 or more are halved, with their exponents raised by one. `None` when the
/// base exponent reaches 64 while bits of `y` remain.
pub open spec fn pow_steps(r: int, rs: int, b: int, bs: int, y: nat) -> Option<(int, int)>
    decreases y,
{
    if y == 0 {
        Some((r, rs))
    } else if bs >= 64 {
        None
    } else {
        let p = (r * b) / two127();
        let r2 = if y % 2 == 1 { if p > two128() { p / 2 } else { p } } else { r };
        let rs2 = if y % 2 == 1 { if p > two128() { rs + bs + 1 } else { rs + bs } } else { rs };
        let q = (b * b) / two127();
        let b2 = if q >= two128() { q / 2 } else { q };
        let bs2 = if q >= two128() { 2 * bs + 1 } else { 2 * bs };
        pow_steps(r2, rs2, b2, bs2, y / 2)
    }
}

/// `x^y` as `pow` computes it: the repeated squaring from 1.0 (2^128 with exponent 0)
/// and the normalised base, then the accumulator shifted right by `64` minus its
/// exponent, negative when `x` is negative and `y` odd. `None` when the base exponent
/// reaches 64, the result exponent reaches 64, or the result is not a 64.64 number.
pub open spec fn pow_result(x: int, y: nat) -> Option<int> {
    let n = pow_norm(abs(x));
    match pow_steps(two128(), 0, n.0, n.1, y) {
        Some(f) => if f.1 < 64 {
            let m = f.0 / (pow2((64 - f.1) as nat) as int);
            let v = if x < 0 && y % 2 == 1 { -m } else { m };
            if in_64x64(v) { Some(v) } else { None }
        } else {
            None
        },
        None => None,
    }
}

/// The position of the highest set bit of `x >= 1`.
pub open spec fn msb_spec(x: int) -> nat {
    choose|m: nat| #[trigger] pow2(m) <= x < pow2(m + 1)
}

/// The highest set bit is the one the bounds name.
pub proof fn lemma_msb_spec(x: int, m: nat)
    requires
        pow2(m) <= x < pow2(m + 1),
    ensures
        msb_spec(x) == m,
{
    let k = msb_spec(x);
    assert(pow2(k) <= x < pow2(k + 1));
    if k < m {
        lemma_pow2_increases(k + 1, m);
    } else if k > m {
        lemma_pow2_increases(m + 1, k);
    }
}

/// Every number `x >= 1` has a highest set bit.
proof fn lemma_msb_of_range(x: int)
    requires
        x >= 1,
    ensures
        pow2(msb_spec(x)) <= x < pow2(msb_spec(x) + 1),
    decreases x,
{
    lemma2_to64();
    if x == 1 {
        assert(pow2(0) <= x < pow2(0 + 1));
    } else {
        lemma_msb_of_range(x / 2);
        let k = msb_spec(x / 2);
        lemma_pow2_unfold(k + 1);
        lemma_pow2_unfold(k + 2);
        assert(pow2(k + 1) <= x < pow2(k + 1 + 1));
    }
}

/// `2^a <= 2^b` for `a <= b`.
proof fn lemma_pow2_increases(a: nat, b: nat)
    requires
        a <= b,
    ensures
        pow2(a) <= pow2(b),
{
    if a < b {
        lemma_pow2_strictly_increases(a, b);
    }
}

/// The fractional bits of the binary logarithm, digit by digit: square the 1.127
/// mantissa `ux`; if the square reaches 2, the next bit is 1 and the square is halved.
pub open spec fn log2_frac(ux: int, n: nat) -> int
    decreases n,
{
    if n == 0 {
        0
    } else {
        let sq = ux * ux;
        let b: int = if sq >= 2 * two127() * two127() { 1 } else { 0 };
        b * pow2((n - 1) as nat) + log2_frac(sq / (pow2((127 + b) as nat) as int), (n - 1) as nat)
    }
}

/// `log_2(x)` as `log_2` computes it for a positive 64.64 `x`: the integer part from the
/// highest set bit, then 64 fractional bits.
pub open spec fn log2_spec(x: int) -> int {
    let msb = msb_spec(x);
    (msb - 64) * two64() + log2_frac(x * pow2((127 - msb) as nat), 64)
}

/// `ln(2) * 2^128`, rounded down.
pub open spec fn ln2_scaled() -> int {
    0xb172_17f7_d1cf_79ab_c9e3_b398_03f2_f6afint
}

/// `log2(e) * 2^128`, rounded down.
pub open spec fn log2e_scaled() -> int {
    0x1_7154_7652_b82f_e177_7d0f_fda0_d23a_7d12int
}

/// The fractional part of `2^(2^(i - 64))` scaled by 2^128, for bit `i < 64` of a 64.64
/// exponent.
pub open spec fn exp2_d(i: u32) -> int {
    match i {
        0 => 0xb172_17f7_d1cf_79ab,
        1 => 0x1_62e4_2fef_a39e_f34e,
        2 => 0x2_c5c8_5fdf_473d_e6b2,
        3 => 0x5_8b90_bfbe_8e7b_cd6d,
        4 => 0xb_1721_7f7d_1cf7_9abc,
        5 => 0x16_2e42_fefa_39ef_358d,
        6 => 0x2c_5c85_fdf4_73de_6eca,
        7 => 0x58_b90b_fbe8_e7bc_e544,
        8 => 0xb1_7217_f7d1_cf79_abca,
        9 => 0x162_e42f_efa3_9ef4_4d91,
        10 => 0x2c5_c85f_df47_3dea_871f,
        11 => 0x58b_90bf_be8e_7bdc_be2e,
        12 => 0xb17_217f_7d1c_f7d8_3c1a,
        13 => 0x162e_42fe_fa39_f02b_772c,
        14 => 0x2c5c_85fd_f473_e242_ea38,
        15 => 0x58b9_0bfb_e8e7_cc35_c3f0,
        16 => 0xb172_17f7_d1cf_b72b_45e1,
        17 => 0x1_62e4_2fef_a39f_e955_83c2,
        18 => 0x2_c5c8_5fdf_4741_bea6_e77e,
        19 => 0x5_8b90_bfbe_8e8b_2d3d_4ede,
        20 => 0xb_1721_7f7d_1d35_1a38_9d40,
        21 => 0x16_2e42_fefa_3ae5_3369_388c,
        22 => 0x2c_5c85_fdf4_77b6_62b2_6945,
        23 => 0x58_b90b_fbe8_f71c_b4e4_b33d,
        24 => 0xb1_7217_f7d2_0cf9_27c8_e94c,
        25 => 0x162_e42f_efa4_94f1_478f_de05,
        26 => 0x2c5_c85f_df4b_15de_6f17_eb0d,
        27 => 0x58b_90bf_be9d_dbac_5e10_9cce,
        28 => 0xb17_217f_7d5a_7716_bba4_a9ae,
        29 => 0x162e_42fe_fb2f_ed25_7559_bdaa,
        30 => 0x2c5c_85fd_f84b_d62a_e30a_74cc,
        31 => 0x58b9_0bfb_f847_9bd5_a81b_51ad,
        32 => 0xb172_17f8_0f4e_f5aa_dda4_5554,
        33 => 0x1_62e4_2ff0_999c_e354_1b9f_ffcf,
        34 => 0x2_c5c8_5fe3_1f35_a6a3_0da1_be50,
        35 => 0x5_8b90_bfcd_ee5a_cd3c_1ced_c823,
        36 => 0xb_1721_7fba_9c73_9aa5_819f_44f9,
        37 => 0x16_2e42_fff0_37df_38aa_2b21_9f06,
        38 => 0x2c_5c86_01cc_6b9e_9421_3c72_737a,
        39 => 0x58_b90c_0b48_c6be_5df8_46c5_b2ef,
        40 => 0xb1_7218_3551_4b86_e6d9_6efd_1bfe,
        41 => 0x162_e430_e5a1_8f61_19e3_c022_82a5,
        42 => 0x2c5_c863_b73f_0164_68f6_bac5_ca2b,
        43 => 0x58b_90cf_1e6d_97f9_ca14_dbcc_1628,
        44 => 0xb17_21bc_fc99_d9f8_90ea_0691_1763,
        45 => 0x162e_43f4_f831_060e_02d8_39a9_d16d,
        46 => 0x2c5c_89d5_ec6c_a4d7_c8ac_c017_b7c9,
        47 => 0x58b9_1b5b_c9ae_2eed_81e9_b7d4_cfab,
        48 => 0xb172_5577_5c04_0618_bf4a_4ade_83fc,
        49 => 0x1_62e5_25ee_0547_5445_7d59_9529_2026,
        50 => 0x2_c5cc_37da_9491_d098_5c34_8c68_e7b3,
        51 => 0x5_8ba0_1fb9_f96d_6cac_d4b1_8091_7c3d,
        52 => 0xb_175e_ffdc_76ba_38e3_1671_ca93_9725,
        53 => 0x16_2f39_0405_1fa1_28bc_a9c5_5c31_e5df,
        54 => 0x2c_605e_2e8c_ec50_6d21_bfc8_9a23_a00f,
        55 => 0x58_c86d_a1c0_9ea1_ff19_d294_cf2f_679b,
        56 => 0xb1_afa5_abcb_ed61_29ab_13ec_11dc_9543,
        57 => 0x163_da9f_b333_56d8_4a66_ae33_6dcd_fa3f,
        58 => 0x2c9_a3e7_7806_0ee6_f7ca_ca4f_7a29_bde8,
        59 => 0x59b_0d31_5857_43ae_7c54_8eb6_8ca4_17fd,
        60 => 0xb55_86cf_9890_f629_8b92_b718_42a9_8363,
        61 => 0x172b_83c7_d517_adcd_f7c8_c50e_b14a_791f,
        62 => 0x306f_e0a3_1b71_52de_8d5a_4630_5c85_edec,
        63 => 0x6a09_e667_f3bc_c908_b2fb_1366_ea95_7d3e,
        _ => 0,
    }
}

/// The product loop of `exp_2`: for each of the `n` low bits of the fraction `f` that is
/// set, from the highest down, multiply the 1.127 mantissa `r` by `2^(2^(i - 64))`,
/// rounded down.
pub open spec fn exp2_loop(r: int, f: int, n: nat) -> int
    decreases n,
{
    if n == 0 {
        r
    } else {
        let i = (n - 1) as nat;
        let r2 = if (f / (pow2(i) as int)) % 2 == 1 {
            (r * (two128() + exp2_d(i as u32))) / two128()
        } else {
            r
        };
        exp2_loop(r2, f, i)
    }
}

/// `2^x` as `exp_2` computes it for a 64.64 `|x| <= 2^70`: the mantissa from the fraction
/// of `x`, shifted right by `63` minus the integer part of `x`.
pub open spec fn exp2_spec(x: int) -> int {
    let m = exp2_loop(two127(), x % two64(), 64);
    m / (pow2((63 - x / two64()) as nat) as int)
}

/// The argument that `exp` hands to `exp_2`: `x * log2(e)` in 64.64, rounded down.
pub open spec fn exp_arg(x: int) -> int {
    (x * log2e_scaled()) / two128()
}

/// The largest mantissa `exp_2` can reach after the top `64 - n` fraction bits, when
/// all of them are set.
pub open spec fn exp2_bound(n: nat) -> int
    decreases 64 - n,
{
    if n >= 64 {
        two127()
    } else {
        (exp2_bound(n + 1) * (two128() + exp2_d(n as u32))) / two128()
    }
}

/// Floor division of a negative number, written through its magnitude.
proof fn lemma_floor_div_neg(m: int, k: int)
    requires
        m >= 1,
        k > 0,
    ensures
        (-m) / k == -((m - 1) / k) - 1,
{
    lemma_fundamental_div_mod(m - 1, k);
    lemma_mod_bound(m - 1, k);
    let q = (m - 1) / k;
    let r = (m - 1) % k;
    assert(-m == (-q - 1) * k + (k - r - 1)) by (nonlinear_arith)
        requires m - 1 == k * q + r;
    lemma_fundamental_div_mod_converse(-m, k, -q - 1, k - r - 1);
}

/// `x + 2^127`, as an unsigned number.
fn offset_i128(x: i128) -> (r: u128)
    ensures
        r == x + two127(),
{
    if x >= 0 {
        (x as u128) + 0x8000_0000_0000_0000_0000_0000_0000_0000
    } else {
        (x + 0x7fff_ffff_ffff_ffff_ffff_ffff_ffff_ffff + 1) as u128
    }
}

/// `u - 2^127`, as a signed number.
fn unoffset_i128(u: u128) -> (r: i128)
    ensures
        r == u - two127(),
{
    if u >= 0x8000_0000_0000_0000_0000_0000_0000_0000 {
        (u - 0x8000_0000_0000_0000_0000_0000_0000_0000) as i128
    } else {
        (u as i128) - 0x7fff_ffff_ffff_ffff_ffff_ffff_ffff_ffff - 1
    }
}

/// Taking a number modulo 2^128 keeps its low 64 bits.
proof fn lemma_mod_breakdown_any(x: int)
    ensures
        (x % two128()) % two64() == x % two64(),
{
    lemma_fundamental_div_mod(x, two128());
    let q = x / two128();
    let m = x % two128();
    lemma_mod_multiples_vanish(q * two64(), m, two64());
    assert(x == two64() * (q * two64()) + m) by (nonlinear_arith)
        requires x == two128() * q + m, two128() == two64() * two64();
}

/// `(a * k + b) / k == a + b / k`.
proof fn lemma_div_multiples_vanish_fancy_gen(a: int, b: int, k: int)
    requires
        k > 0,
    ensures
        (a * k + b) / k == a + b / k,
{
    lemma_fundamental_div_mod(b, k);
    lemma_mod_bound(b, k);
    assert(a * k + b == (a + b / k) * k + b % k) by (nonlinear_arith)
        requires b == k * (b / k) + b % k;
    lemma_fundamental_div_mod_converse(a * k + b, k, a + b / k, b % k);
}

/// The magnitude and sign of a product, as absolute values.
pub proof fn lemma_abs_mul(x: int, y: int)
    ensures
        abs(x * y) == abs(x) * abs(y),
        (x * y < 0) <==> ((x < 0) != (y < 0) && x != 0 && y != 0),
{
    lemma_signed_product(x, y);
    if x != 0 && y != 0 {
        assert(abs(x) * abs(y) > 0) by (nonlinear_arith)
            requires abs(x) > 0, abs(y) > 0;
    } else {
        assert(x * y == 0) by (nonlinear_arith) requires x == 0 || y == 0;
    }
}

/// The estimate of the quotient in the long branch of `divuu` is at most one
/// short of the true quotient once the remainder no longer fits in 256 bits, and at
/// most two short otherwise.
proof fn lemma_divuu_estimate(
    x: int, y: int, pm: int, p: int, big_a: int, big_b: int, r0: int, big_x: int, q: int,
)
    requires
        y >= 1,
        1 < p <= two64(),
        pm == p * 0x8000_0000_0000_0000_0000_0000_0000_0000_0000_0000_0000_0000int,
        x >= pm,
        big_x == x * two64(),
        big_a * p == big_x,
        big_b * p >= y,
        big_b * p < y + p,
        big_b >= 1,
        r0 >= 0,
        r0 * big_b <= big_a,
        big_a < (r0 + 1) * big_b,
        q == big_x / y,
        q < two128(),
    ensures
        r0 <= q,
        big_x - r0 * y >= 0,
        big_x - r0 * y < 3 * y,
        y >= two256() / 4 ==> big_x - r0 * y < 2 * y,
{
    lemma_fundamental_div_mod(big_x, y);
    lemma_mod_bound(big_x, y);
    assert(big_x < (q + 1) * y) by (nonlinear_arith)
        requires big_x == y * q + big_x % y, big_x % y < y;
    assert(r0 * y <= big_x) by (nonlinear_arith)
        requires r0 >= 0, big_b * p >= y, r0 * big_b <= big_a, big_a * p == big_x, p > 0;
    assert(r0 < q + 1) by (nonlinear_arith)
        requires r0 * y <= big_x, big_x < (q + 1) * y, y >= 1;
    assert(big_x < (r0 + 1) * y + (r0 + 1) * p) by (nonlinear_arith)
        requires big_a < (r0 + 1) * big_b, big_a * p == big_x, big_b * p < y + p, p > 0, r0 >= 0;
    assert((r0 + 1) * p <= two128() * p) by (nonlinear_arith)
        requires r0 + 1 <= two128(), p > 0;
    assert(big_x >= p * 0x8000_0000_0000_0000_0000_0000_0000_0000_0000_0000_0000_0000_0000_0000_0000_0000int)
        by (nonlinear_arith)
        requires
            x >= pm,
            pm == p * 0x8000_0000_0000_0000_0000_0000_0000_0000_0000_0000_0000_0000int,
            big_x == x * two64(),
    ;
    assert(two128() * y > p * 0x8000_0000_0000_0000_0000_0000_0000_0000_0000_0000_0000_0000_0000_0000_0000_0000int)
        by (nonlinear_arith)
        requires
            big_x < (q + 1) * y,
            q + 1 <= two128(),
            y >= 1,
            big_x >= p * 0x8000_0000_0000_0000_0000_0000_0000_0000_0000_0000_0000_0000_0000_0000_0000_0000int,
    ;
    assert(two128() * p < 2 * y) by (nonlinear_arith)
        requires
            two128() * y > p * 0x8000_0000_0000_0000_0000_0000_0000_0000_0000_0000_0000_0000_0000_0000_0000_0000int,
    ;
    assert((r0 + 1) * y == r0 * y + y) by (nonlinear_arith);
    if y >= two256() / 4 {
        assert(two128() * p <= two128() * two64()) by (nonlinear_arith)
            requires p <= two64();
    }
}

/// The first estimate in the long branch of `divuu`, for `x >= 2^192`: `x` shifted up
/// to its top bit, divided by `y` shifted down by as much and rounded up.
fn divuu_estimate(x: U256, y: U256) -> (r0: U256)
    requires
        y.val() > 0,
        x.val() >= two192(),
        (x.val() * two64()) / y.val() < two128(),
    ensures
        r0.val() <= (x.val() * two64()) / y.val(),
        x.val() * two64() - r0.val() * y.val() >= 0,
        x.val() * two64() - r0.val() * y.val() < 3 * y.val(),
        y.val() >= two256() / 4 ==> x.val() * two64() - r0.val() * y.val() < 2 * y.val(),
{
    proof {
        lemma_pow2_consts();
    }
    let ghost xv = x.val();
    let ghost yv = y.val();
    let ghost big_x = xv * two64();
    let ghost q = big_x / yv;
    let xc = x.shr(192);
    proof {
        lemma_pow2_adds(128, 64);
        lemma2_to64();
        lemma2_to64_rest();
        lemma_div_denominator(xv, two128(), two64());
        lemma_div_multiples_vanish_fancy(x.hi as int, x.lo as int, two128());
        assert(xc.val() == (x.hi as int) / two64());
        assert(xc.val() >= 1);
    }
    let m = msb_u128(xc.lo);
    let msb = 192 + m;
    let ghost p: int = pow2((msb - 191) as nat) as int;
    let ghost pm: int = pow2(msb as nat) as int;
    proof {
        assert(m < 64) by {
            if m >= 64 {
                lemma_pow2_strictly_increases(64, m as nat);
            }
        }
        lemma_msb_scaled(xv, xc.lo as int, m as nat);
        lemma_pow2_adds((msb - 191) as nat, 191);
        lemma_pow2_adds(64, 191);
        lemma_pow2_adds(64, 128);
        lemma_pow2_adds(63, 128);
        lemma_pow2_adds((msb + 1) as nat, (255 - msb) as nat);
        lemma_pow2_adds((255 - msb) as nat, (msb - 191) as nat);
        lemma_pow2_pos((255 - msb) as nat);
        lemma_pow2_pos((msb - 191) as nat);
        if msb - 191 < 64 {
            lemma_pow2_strictly_increases((msb - 191) as nat, 64);
        }
        lemma_pow2_strictly_increases(0, (msb - 191) as nat);
        assert(xv * pow2((255 - msb) as nat) < two256()) by (nonlinear_arith)
            requires
                xv < pow2((msb + 1) as nat),
                pow2((msb + 1) as nat) * pow2((255 - msb) as nat) == two256(),
                pow2((255 - msb) as nat) > 0,
        ;
        lemma_small_mod((xv * pow2((255 - msb) as nat)) as nat, two256() as nat);
    }
    let a = x.shl(255 - msb);
    let y1 = y.sub(U256 { hi: 0, lo: 1 });
    let yc = y1.shr(msb - 191);
    proof {
        lemma_fundamental_div_mod(yv - 1, p);
        lemma_mod_bound(yv - 1, p);
        lemma_div_is_ordered_by_denominator(yv - 1, 1, p);
    }
    let b = yc.add(U256 { hi: 0, lo: 1 });
    let r0 = a.div(b);
    proof {
        lemma_fundamental_div_mod(a.val(), b.val());
        lemma_mod_bound(a.val(), b.val());
        assert(a.val() * p == big_x) by (nonlinear_arith)
            requires
                a.val() == xv * pow2((255 - msb) as nat),
                pow2((255 - msb) as nat) * p == two64(),
                big_x == xv * two64(),
        ;
        assert(b.val() * p >= yv && b.val() * p < yv + p) by (nonlinear_arith)
            requires
                yv - 1 == p * yc.val() + (yv - 1) % p,
                0 <= (yv - 1) % p < p,
                b.val() == yc.val() + 1,
        ;
        assert(r0.val() * b.val() <= a.val() && a.val() < (r0.val() + 1) * b.val())
            by (nonlinear_arith)
            requires
                a.val() == b.val() * r0.val() + a.val() % b.val(),
                0 <= a.val() % b.val() < b.val(),
        ;
        assert(pm == p * 0x8000_0000_0000_0000_0000_0000_0000_0000_0000_0000_0000_0000int);
        lemma_divuu_estimate(xv, yv, pm, p, a.val(), b.val(), r0.val(), big_x, q);
    }
    r0
}

/// Bounds on `x` from the highest set bit of `x >> 192`.
proof fn lemma_msb_scaled(xv: int, xc: int, m: nat)
    requires
        xv >= 0,
        xc == xv / (pow2(192) as int),
        pow2(m) <= xc < pow2(m + 1),
    ensures
        pow2(192 + m) <= xv < pow2(193 + m),
{
    lemma_pow2_adds(192, m);
    lemma_pow2_adds(192, m + 1);
    lemma_pow2_pos(192);
    lemma_fundamental_div_mod(xv, pow2(192) as int);
    lemma_mod_bound(xv, pow2(192) as int);
    assert(pow2(192) * pow2(m) <= xv) by (nonlinear_arith)
        requires
            xv == pow2(192) * xc + xv % (pow2(192) as int),
            xv % (pow2(192) as int) >= 0,
            pow2(m) <= xc,
            pow2(192) > 0,
    ;
    assert(xv < pow2(192) * pow2(m + 1)) by (nonlinear_arith)
        requires
            xv == pow2(192) * xc + xv % (pow2(192) as int),
            xv % (pow2(192) as int) < pow2(192),
            xc < pow2(m + 1),
            pow2(192) > 0,
    ;
}

/// The correction in the long branch of `divuu`: the remainder `x * 2^64 - r0 * y` is
/// formed in 256 bits with its borrows counted in the high word; when it fits, its
/// quotient by `y` is added, otherwise one is added.
fn divuu_correct(x: U256, y: U256, r0: U256) -> (r: U256)
    requires
        y.val() > 0,
        x.val() >= two192(),
        (x.val() * two64()) / y.val() < two128(),
        r0.val() <= (x.val() * two64()) / y.val(),
        x.val() * two64() - r0.val() * y.val() >= 0,
        x.val() * two64() - r0.val() * y.val() < 3 * y.val(),
        y.val() >= two256() / 4 ==> x.val() * two64() - r0.val() * y.val() < 2 * y.val(),
    ensures
        r.val() == (x.val() * two64()) / y.val(),
{
    proof {
        lemma_pow2_consts();
        lemma2_to64();
        lemma2_to64_rest();
        lemma_pow2_adds(128, 64);
    }
    let ghost xv = x.val();
    let ghost yv = y.val();
    let ghost big_x = xv * two64();
    let hi = mul_u128(r0.lo, y.hi);
    let lo = mul_u128(r0.lo, y.lo);
    let mut xh = x.shr(192);
    let mut xl = x.shl(64);
    let ghost hh = hi.val() / two128();
    let ghost hl = hi.val() % two128();
    proof {
        lemma_fundamental_div_mod(big_x, two256());
        lemma_mod_bound(big_x, two256());
        lemma_div_denominator(big_x, two64(), two192());
        lemma_div_multiples_vanish_fancy_gen(xv, 0, two64());
        assert(big_x / two256() == xh.val());
        lemma_fundamental_div_mod(hi.val(), two128());
        lemma_mod_bound(hi.val(), two128());
        assert(r0.val() * yv == hh * two256() + hl * two128() + lo.val()) by (nonlinear_arith)
            requires
                hi.val() == r0.val() * y.hi,
                lo.val() == r0.val() * y.lo,
                yv == y.hi * two128() + y.lo,
                hi.val() == two128() * hh + hl,
                two256() == two128() * two128(),
        ;
        assert(xh.val() >= 1);
    }
    if xl.lt(lo) {
        xh = xh.sub(U256 { hi: 0, lo: 1 });
    }
    xl = xl.wrapping_sub(lo);
    proof {
        assert(xh.val() * two256() + xl.val() == big_x - lo.val());
    }
    let lo2 = hi.shl(128);
    proof {
        lemma_split_mul_low_pub(hi.val());
        assert(lo2.val() == hl * two128());
        assert(0 <= hl * two128()) by (nonlinear_arith) requires hl >= 0;
    }
    if xl.lt(lo2) {
        proof {
            assert(xh.val() >= 1) by (nonlinear_arith)
                requires
                    xh.val() * two256() + xl.val() == big_x - lo.val(),
                    big_x - lo.val() - lo2.val() >= 0,
                    xl.val() < lo2.val(),
                    xh.val() >= 0,
            ;
        }
        xh = xh.sub(U256 { hi: 0, lo: 1 });
    }
    xl = xl.wrapping_sub(lo2);
    let hs = hi.shr(128);
    proof {
        assert(xh.val() * two256() + xl.val() == big_x - lo.val() - lo2.val());
        assert(hs.val() == hh);
        assert(big_x - r0.val() * yv == (xh.val() - hh) * two256() + xl.val());
    }
    if xh.same(hs) {
        let d = xl.div(y);
        proof {
            lemma_div_multiples_vanish_fancy_gen(r0.val(), xl.val(), yv);
            assert(r0.val() * yv + xl.val() == big_x);
            lemma_div_pos_is_pos(big_x, yv);
        }
        r0.add(d)
    } else {
        proof {
            assert(xh.val() > hh) by (nonlinear_arith)
                requires
                    big_x - r0.val() * yv == (xh.val() - hh) * two256() + xl.val(),
                    big_x - r0.val() * yv >= 0,
                    xl.val() < two256(),
                    xh.val() != hh,
            ;
            assert(big_x - r0.val() * yv >= two256()) by (nonlinear_arith)
                requires
                    big_x - r0.val() * yv == (xh.val() - hh) * two256() + xl.val(),
                    xl.val() >= 0,
                    xh.val() > hh,
            ;
            assert(big_x == (r0.val() + 1) * yv + (big_x - r0.val() * yv - yv)) by (nonlinear_arith);
            lemma_fundamental_div_mod_converse(big_x, yv, r0.val() + 1, big_x - r0.val() * yv - yv);
        }
        r0.add(U256 { hi: 0, lo: 1 })
    }
}

/// Every natural number has an integer square root.
pub proof fn lemma_isqrt_exists(x: nat) -> (s: nat)
    ensures
        s * s <= x < (s + 1) * (s + 1),
    decreases x,
{
    if x == 0 {
        let z: nat = 0;
        assert(z * z == 0) by (nonlinear_arith) requires z == 0;
        assert((z + 1) * (z + 1) == 1) by (nonlinear_arith) requires z == 0;
        z
    } else {
        let s0 = lemma_isqrt_exists((x - 1) as nat);
        if (s0 + 1) * (s0 + 1) <= x {
            assert(x < (s0 + 2) * (s0 + 2)) by (nonlinear_arith)
                requires x - 1 < (s0 + 1) * (s0 + 1), s0 >= 0;
            let s1: nat = s0 + 1;
            assert(s1 * s1 <= x < (s1 + 1) * (s1 + 1));
            s1
        } else {
            assert(s0 * s0 <= x);
            s0
        }
    }
}

/// One step of the power-of-two estimate of a square root: if `xx >= 2^(2k)`, divide
/// `xx` by `2^(2k)` and multiply `r` by `2^k`.
fn sqrt_step(x: U256, xx: U256, r: u128, k: u32) -> (res: (U256, u128))
    requires
        1 <= k <= 64,
        r >= 1,
        xx.val() == x.val() / (r * r),
        1 <= xx.val() < pow2((4 * k) as nat),
        r * r * pow2((4 * k) as nat) <= two256(),
    ensures
        res.1 >= 1,
        res.0.val() == x.val() / (res.1 * res.1),
        1 <= res.0.val() < pow2((2 * k) as nat),
        res.1 * res.1 * pow2((2 * k) as nat) <= two256(),
{
    proof {
        lemma_pow2_adds((2 * k) as nat, (2 * k) as nat);
        lemma_pow2_adds(k as nat, k as nat);
        lemma_pow2_pos((2 * k) as nat);
        lemma_pow2_pos(k as nat);
        lemma_pow2_consts();
        assert(r * r > 0) by (nonlinear_arith) requires r >= 1;
    }
    let t = U256 { hi: 0, lo: 1 }.shl(2 * k);
    proof {
        assert(1 * pow2((2 * k) as nat) < two256()) by {
            if 2 * k < 256 {
                lemma_pow2_strictly_increases((2 * k) as nat, 256);
            }
        }
        lemma_small_mod(pow2((2 * k) as nat), two256() as nat);
    }
    if xx.lt(t) {
        proof {
            assert(r * r * pow2((2 * k) as nat) <= r * r * pow2((4 * k) as nat)) by (nonlinear_arith)
                requires
                    pow2((4 * k) as nat) == pow2((2 * k) as nat) * pow2((2 * k) as nat),
                    pow2((2 * k) as nat) >= 1,
                    r * r > 0,
            ;
        }
        (xx, r)
    } else {
        let pk = pow2_u128(k);
        proof {
            assert(r * pk < two128()) by (nonlinear_arith)
                requires
                    r * r * pow2((4 * k) as nat) <= two256(),
                    pow2((4 * k) as nat) == (pk * pk) * (pk * pk),
                    two256() == two128() * two128(),
                    r >= 1,
                    pk >= 1,
            ;
            lemma_div_denominator(x.val(), r * r, (pk * pk) as int);
            assert((r * pk) * (r * pk) == (r * r) * (pk * pk)) by (nonlinear_arith);
            assert((r * pk) * (r * pk) * pow2((2 * k) as nat) <= two256()) by (nonlinear_arith)
                requires
                    r * r * pow2((4 * k) as nat) <= two256(),
                    pow2((4 * k) as nat) == (pk * pk) * (pk * pk),
                    pow2((2 * k) as nat) == pk * pk,
            ;
            lemma_div_is_ordered(t.val(), xx.val(), t.val());
            lemma_div_by_self(t.val());
            lemma_div_strictly_bounded(xx.val(), t.val(), t.val());
            assert((r * pk) * 1 >= 1) by (nonlinear_arith) requires r >= 1, pk >= 1;
        }
        (xx.shr(2 * k), r * pk)
    }
}

/// `x / a < b` when `x < a * b`.
proof fn lemma_div_strictly_bounded(x: int, a: int, b: int)
    requires
        a > 0,
        0 <= x < a * b,
    ensures
        x / a < b,
{
    lemma_fundamental_div_mod(x, a);
    lemma_mod_bound(x, a);
    assert(x / a < b) by (nonlinear_arith)
        requires x == a * (x / a) + x % a, x % a >= 0, x < a * b, a > 0;
}

/// For any `r >= 1`, `floor((r + floor(x / r)) / 2)` is at least the integer square root.
proof fn lemma_newton_lower(x: int, s: int, r: int)
    requires
        s >= 0,
        s * s <= x,
        r >= 1,
    ensures
        (r + x / r) / 2 >= s,
{
    let q = x / r;
    lemma_fundamental_div_mod(x, r);
    lemma_mod_bound(x, r);
    assert(x < r * (q + 1)) by (nonlinear_arith)
        requires x == r * q + x % r, x % r < r;
    if r + q <= 2 * s - 1 {
        assert(r * (q + 1) <= r * (2 * s - r)) by (nonlinear_arith)
            requires q + 1 <= 2 * s - r, r >= 1;
        assert(r * (2 * s - r) <= s * s) by (nonlinear_arith);
        assert(false);
    }
}

/// One Newton step brings the error `d = r - s` from `(d - 2) * p <= s` down to
/// `(d' - 2) * 2p^2 <= s`.
proof fn lemma_newton_step(x: int, s: int, r: int, p: int)
    requires
        s >= 1,
        s * s <= x < (s + 1) * (s + 1),
        r >= s,
        p >= 4,
        (r - s - 2) * p <= s,
    ensures
        (r + x / r) / 2 >= s,
        ((r + x / r) / 2 - s - 2) * (2 * p * p) <= s,
{
    lemma_newton_lower(x, s, r);
    let q = x / r;
    let r2 = (r + q) / 2;
    let d = r - s;
    let e = r2 - s;
    lemma_fundamental_div_mod(x, r);
    lemma_mod_bound(x, r);
    assert(q * r <= x) by (nonlinear_arith)
        requires x == r * q + x % r, x % r >= 0;
    assert(2 * r2 * r <= r * r + x) by (nonlinear_arith)
        requires 2 * r2 <= r + q, q * r <= x, r >= 1;
    assert(x <= s * s + 2 * s) by (nonlinear_arith)
        requires x < (s + 1) * (s + 1);
    assert(2 * e * (s + d) <= d * d + 2 * s) by (nonlinear_arith)
        requires 2 * r2 * r <= r * r + x, x <= s * s + 2 * s, r == s + d, e == r2 - s;
    if d <= 2 {
        if e >= 2 {
            assert(4 * (s + d) <= d * d + 2 * s) by (nonlinear_arith)
                requires 2 * e * (s + d) <= d * d + 2 * s, e >= 2, s + d >= 1;
            assert(false) by (nonlinear_arith)
                requires 4 * (s + d) <= d * d + 2 * s, 0 <= d <= 2, s >= 1;
        }
        assert((e - 2) * (2 * p * p) <= 0) by (nonlinear_arith)
            requires e <= 1, p >= 4;
    } else {
        if (e - 2) * (2 * p * p) > s {
            assert(2 * p * p * e > s + 4 * p * p) by (nonlinear_arith)
                requires (e - 2) * (2 * p * p) > s;
            assert(2 * p * p * e * (s + d) <= p * p * d * d + 2 * s * p * p) by (nonlinear_arith)
                requires 2 * e * (s + d) <= d * d + 2 * s, p >= 4;
            assert(p * d <= s + 2 * p) by (nonlinear_arith)
                requires (r - s - 2) * p <= s, d == r - s;
            assert(p * p * d * d <= (s + 2 * p) * (s + 2 * p)) by (nonlinear_arith)
                requires p * d <= s + 2 * p, p * d >= 0;
            assert((s + 4 * p * p) * (s + d) < 2 * p * p * e * (s + d)) by (nonlinear_arith)
                requires 2 * p * p * e > s + 4 * p * p, s + d > 0;
            assert(false) by (nonlinear_arith)
                requires
                    (s + 4 * p * p) * (s + d) < 2 * p * p * e * (s + d),
                    2 * p * p * e * (s + d) <= p * p * d * d + 2 * s * p * p,
                    p * p * d * d <= (s + 2 * p) * (s + 2 * p),
                    d >= 3,
                    p >= 4,
                    s >= 1,
            ;
        }
    }
}

/// The first Newton step from a power-of-two estimate `r0` with `r0^2 <= x < 4 r0^2`
/// lands within `s / 4 + 2` of the integer square root `s`.
proof fn lemma_newton_first(x: int, s: int, r: int)
    requires
        s >= 1,
        s * s <= x < (s + 1) * (s + 1),
        r >= 1,
        r * r <= x < 4 * r * r,
    ensures
        (r + x / r) / 2 >= s,
        ((r + x / r) / 2 - s - 2) * 4 <= s,
{
    lemma_newton_lower(x, s, r);
    let q = x / r;
    let r1 = (r + q) / 2;
    lemma_fundamental_div_mod(x, r);
    lemma_mod_bound(x, r);
    assert(q * r <= x) by (nonlinear_arith)
        requires x == r * q + x % r, x % r >= 0;
    assert(2 * r1 * r <= r * r + x) by (nonlinear_arith)
        requires 2 * r1 <= r + q, q * r <= x, r >= 1;
    assert(r <= s) by (nonlinear_arith)
        requires r * r <= x, x < (s + 1) * (s + 1), r >= 1, s >= 1;
    assert(s + 1 <= 2 * r) by (nonlinear_arith)
        requires s * s <= x, x < 4 * r * r, r >= 1, s >= 1;
    assert(r * r + x < r * r + (s + 1) * (s + 1));
    assert(2 * (r * r + (s + 1) * (s + 1)) <= 5 * r * (s + 1)) by (nonlinear_arith)
        requires 2 * r >= s + 1, r <= s + 1;
    assert(4 * r1 * r < 5 * r * (s + 1)) by (nonlinear_arith)
        requires 2 * r1 * r <= r * r + x, x < (s + 1) * (s + 1),
            2 * (r * r + (s + 1) * (s + 1)) <= 5 * r * (s + 1);
    assert(4 * r1 < 5 * (s + 1)) by (nonlinear_arith)
        requires 4 * r1 * r < 5 * r * (s + 1), r >= 1;
}

/// The last Newton step: from an error bounded by `s / 2^95 + 2` the estimate is `s` or
/// `s + 1`, and it is `s + 1` only when `x >= s * (s + 1)`.
proof fn lemma_newton_last(x: int, s: int, r: int)
    requires
        s >= 1,
        s < two128(),
        s * s <= x < (s + 1) * (s + 1),
        r >= s,
        (r - s - 2) * 0x8000_0000_0000_0000_0000_0000int <= s,
    ensures
        s <= (r + x / r) / 2 <= s + 1,
        (r + x / r) / 2 == s + 1 ==> x >= s * (s + 1),
{
    lemma_newton_lower(x, s, r);
    let q = x / r;
    let r2 = (r + q) / 2;
    let d = r - s;
    let e = r2 - s;
    lemma_fundamental_div_mod(x, r);
    lemma_mod_bound(x, r);
    assert(q * r <= x) by (nonlinear_arith)
        requires x == r * q + x % r, x % r >= 0;
    assert(2 * r2 * r <= r * r + x) by (nonlinear_arith)
        requires 2 * r2 <= r + q, q * r <= x, r >= 1;
    assert(2 * e * (s + d) <= d * d + x - s * s) by (nonlinear_arith)
        requires 2 * r2 * r <= r * r + x, r == s + d, e == r2 - s;
    assert(d * (d - 2) <= s) by {
        if d > 2 {
            assert(d <= 0x2_0000_0004int) by (nonlinear_arith)
                requires (d - 2) * 0x8000_0000_0000_0000_0000_0000int <= s, s < two128();
            assert(d * (d - 2) <= s) by (nonlinear_arith)
                requires
                    (d - 2) * 0x8000_0000_0000_0000_0000_0000int <= s,
                    d <= 0x2_0000_0004int,
                    d > 2,
            ;
        } else {
            assert(d * (d - 2) <= 0) by (nonlinear_arith) requires 0 <= d <= 2;
        }
    }
    if e >= 2 {
        assert(4 * (s + d) <= d * d + x - s * s) by (nonlinear_arith)
            requires 2 * e * (s + d) <= d * d + x - s * s, e >= 2, s + d >= 1;
        assert(false) by (nonlinear_arith)
            requires
                4 * (s + d) <= d * d + x - s * s,
                x < (s + 1) * (s + 1),
                d * (d - 2) <= s,
                d >= 0,
                s >= 1,
        ;
    }
    if e == 1 {
        assert(2 * (s + d) <= d * d + x - s * s);
        assert(x >= s * (s + 1)) by (nonlinear_arith)
            requires 2 * (s + d) <= d * d + x - s * s, d * (d - 2) <= s;
    }
}

/// One Newton step towards the square root of `x`: `(r + x / r) / 2`.
fn newton(x: U256, r: U256) -> (r2: U256)
    requires
        r.val() >= 1,
        r.val() < two128() * 2,
        x.val() / r.val() < two128() * 2,
    ensures
        r2.val() == (r.val() + x.val() / r.val()) / 2,
{
    proof {
        lemma2_to64();
    }
    r.add(x.div(r)).shr(1)
}

/// Once the estimate is within `s / 4 + 2` above the square root `s < 2^128`, the
/// operands of the next Newton step stay below 2^129.
proof fn lemma_newton_bounds(x: int, s: int, r: int, p: int)
    requires
        s >= 1,
        s < two128(),
        s * s <= x < (s + 1) * (s + 1),
        r >= s,
        p >= 4,
        (r - s - 2) * p <= s,
    ensures
        r < two128() * 2,
        x / r < two128() * 2,
{
    assert((r - s - 2) * 4 <= s) by (nonlinear_arith)
        requires (r - s - 2) * p <= s, p >= 4, s >= 1;
    lemma_div_is_ordered_by_denominator(x, s, r);
    assert(x < s * (s + 3)) by (nonlinear_arith)
        requires x < (s + 1) * (s + 1), s >= 1;
    lemma_div_strictly_bounded(x, s, s + 3);
}

/// `a * b / d <= bound_a` when `a <= bound_a`, `b <= d`.
proof fn lemma_div_by_multiple_bound(a: int, b: int, ba: int, d: int)
    requires
        0 <= a <= ba,
        0 <= b <= d,
        d > 0,
    ensures
        (a * b) / d <= ba,
        (a * b) / d >= 0,
{
    assert(a * b <= ba * d) by (nonlinear_arith)
        requires 0 <= a <= ba, 0 <= b <= d;
    lemma_div_is_ordered(a * b, ba * d, d);
    lemma_div_by_multiple(ba, d);
    assert(a * b >= 0) by (nonlinear_arith) requires a >= 0, b >= 0;
    lemma_div_pos_is_pos(a * b, d);
}

/// The product of a 256-bit number and a 128-bit number, which must stay below 2^256.
fn mul_small(a: U256, b: u128) -> (r: U256)
    requires
        a.val() * b < two256(),
    ensures
        r.val() == a.val() * b,
{
    proof {
        assert(a.hi * b < two128()) by (nonlinear_arith)
            requires
                a.val() * b < two256(),
                a.val() == a.hi * two128() + a.lo,
                a.lo >= 0,
                b >= 0,
                two256() == two128() * two128(),
        ;
        assert(a.val() * b == (a.hi * b) * two128() + a.lo * b) by (nonlinear_arith)
            requires a.val() == a.hi * two128() + a.lo;
    }
    let low = mul_u128(a.lo, b);
    low.add(U256 { hi: a.hi * b, lo: 0 })
}

/// The fractional part of `2^(2^(i - 64))` scaled by 2^128, for `i < 64`.
fn exp2_d_exec(i: u32) -> (d: u128)
    requires
        i < 64,
    ensures
        d == exp2_d(i as u32),
{
    match i {
        0 => 0xb172_17f7_d1cf_79ab,
        1 => 0x1_62e4_2fef_a39e_f34e,
        2 => 0x2_c5c8_5fdf_473d_e6b2,
        3 => 0x5_8b90_bfbe_8e7b_cd6d,
        4 => 0xb_1721_7f7d_1cf7_9abc,
        5 => 0x16_2e42_fefa_39ef_358d,
        6 => 0x2c_5c85_fdf4_73de_6eca,
        7 => 0x58_b90b_fbe8_e7bc_e544,
        8 => 0xb1_7217_f7d1_cf79_abca,
        9 => 0x162_e42f_efa3_9ef4_4d91,
        10 => 0x2c5_c85f_df47_3dea_871f,
        11 => 0x58b_90bf_be8e_7bdc_be2e,
        12 => 0xb17_217f_7d1c_f7d8_3c1a,
        13 => 0x162e_42fe_fa39_f02b_772c,
        14 => 0x2c5c_85fd_f473_e242_ea38,
        15 => 0x58b9_0bfb_e8e7_cc35_c3f0,
        16 => 0xb172_17f7_d1cf_b72b_45e1,
        17 => 0x1_62e4_2fef_a39f_e955_83c2,
        18 => 0x2_c5c8_5fdf_4741_bea6_e77e,
        19 => 0x5_8b90_bfbe_8e8b_2d3d_4ede,
        20 => 0xb_1721_7f7d_1d35_1a38_9d40,
        21 => 0x16_2e42_fefa_3ae5_3369_388c,
        22 => 0x2c_5c85_fdf4_77b6_62b2_6945,
        23 => 0x58_b90b_fbe8_f71c_b4e4_b33d,
        24 => 0xb1_7217_f7d2_0cf9_27c8_e94c,
        25 => 0x162_e42f_efa4_94f1_478f_de05,
        26 => 0x2c5_c85f_df4b_15de_6f17_eb0d,
        27 => 0x58b_90bf_be9d_dbac_5e10_9cce,
        28 => 0xb17_217f_7d5a_7716_bba4_a9ae,
        29 => 0x162e_42fe_fb2f_ed25_7559_bdaa,
        30 => 0x2c5c_85fd_f84b_d62a_e30a_74cc,
        31 => 0x58b9_0bfb_f847_9bd5_a81b_51ad,
        32 => 0xb172_17f8_0f4e_f5aa_dda4_5554,
        33 => 0x1_62e4_2ff0_999c_e354_1b9f_ffcf,
        34 => 0x2_c5c8_5fe3_1f35_a6a3_0da1_be50,
        35 => 0x5_8b90_bfcd_ee5a_cd3c_1ced_c823,
        36 => 0xb_1721_7fba_9c73_9aa5_819f_44f9,
        37 => 0x16_2e42_fff0_37df_38aa_2b21_9f06,
        38 => 0x2c_5c86_01cc_6b9e_9421_3c72_737a,
        39 => 0x58_b90c_0b48_c6be_5df8_46c5_b2ef,
        40 => 0xb1_7218_3551_4b86_e6d9_6efd_1bfe,
        41 => 0x162_e430_e5a1_8f61_19e3_c022_82a5,
        42 => 0x2c5_c863_b73f_0164_68f6_bac5_ca2b,
        43 => 0x58b_90cf_1e6d_97f9_ca14_dbcc_1628,
        44 => 0xb17_21bc_fc99_d9f8_90ea_0691_1763,
        45 => 0x162e_43f4_f831_060e_02d8_39a9_d16d,
        46 => 0x2c5c_89d5_ec6c_a4d7_c8ac_c017_b7c9,
        47 => 0x58b9_1b5b_c9ae_2eed_81e9_b7d4_cfab,
        48 => 0xb172_5577_5c04_0618_bf4a_4ade_83fc,
        49 => 0x1_62e5_25ee_0547_5445_7d59_9529_2026,
        50 => 0x2_c5cc_37da_9491_d098_5c34_8c68_e7b3,
        51 => 0x5_8ba0_1fb9_f96d_6cac_d4b1_8091_7c3d,
        52 => 0xb_175e_ffdc_76ba_38e3_1671_ca93_9725,
        53 => 0x16_2f39_0405_1fa1_28bc_a9c5_5c31_e5df,
        54 => 0x2c_605e_2e8c_ec50_6d21_bfc8_9a23_a00f,
        55 => 0x58_c86d_a1c0_9ea1_ff19_d294_cf2f_679b,
        56 => 0xb1_afa5_abcb_ed61_29ab_13ec_11dc_9543,
        57 => 0x163_da9f_b333_56d8_4a66_ae33_6dcd_fa3f,
        58 => 0x2c9_a3e7_7806_0ee6_f7ca_ca4f_7a29_bde8,
        59 => 0x59b_0d31_5857_43ae_7c54_8eb6_8ca4_17fd,
        60 => 0xb55_86cf_9890_f629_8b92_b718_42a9_8363,
        61 => 0x172b_83c7_d517_adcd_f7c8_c50e_b14a_791f,
        62 => 0x306f_e0a3_1b71_52de_8d5a_4630_5c85_edec,
        63 => 0x6a09_e667_f3bc_c908_b2fb_1366_ea95_7d3e,
        _ => 0,
    }
}

/// Each partial product of `exp_2` stays below the all-bits-set bound, which stays
/// below 2^128.
proof fn lemma_exp2_bounds()
    ensures
        forall|n: nat| n <= 64 ==> #[trigger] exp2_bound(n) <= exp2_bound(0),
        exp2_bound(0) < two128(),
        forall|i: u32| i < 64 ==> 0 <= #[trigger] exp2_d(i) < two128(),
{
    assert(exp2_bound(64) == two127());
    lemma_exp2_bound_unfold(63, 0x8000_0000_0000_0000_0000_0000_0000_0000int);
    assert(exp2_d(63) == 0x6a09_e667_f3bc_c908_b2fb_1366_ea95_7d3eint);
    assert((0x8000_0000_0000_0000_0000_0000_0000_0000int * (two128() + 0x6a09_e667_f3bc_c908_b2fb_1366_ea95_7d3eint)) / two128() == 0xb504_f333_f9de_6484_597d_89b3_754a_be9fint);
    lemma_exp2_bound_unfold(62, 0xb504_f333_f9de_6484_597d_89b3_754a_be9fint);
    assert(exp2_d(62) == 0x306f_e0a3_1b71_52de_8d5a_4630_5c85_edecint);
    assert((0xb504_f333_f9de_6484_597d_89b3_754a_be9fint * (two128() + 0x306f_e0a3_1b71_52de_8d5a_4630_5c85_edecint)) / two128() == 0xd744_fcca_d69d_6af4_39a6_8bb9_902d_3fddint);
    lemma_exp2_bound_unfold(61, 0xd744_fcca_d69d_6af4_39a6_8bb9_902d_3fddint);
    assert(exp2_d(61) == 0x172b_83c7_d517_adcd_f7c8_c50e_b14a_791fint);
    assert((0xd744_fcca_d69d_6af4_39a6_8bb9_902d_3fddint * (two128() + 0x172b_83c7_d517_adcd_f7c8_c50e_b14a_791fint)) / two128() == 0xeac0_c6e7_dd24_392e_d02d_75b3_706e_54f8int);
    lemma_exp2_bound_unfold(60, 0xeac0_c6e7_dd24_392e_d02d_75b3_706e_54f8int);
    assert(exp2_d(60) == 0xb55_86cf_9890_f629_8b92_b718_42a9_8363int);
    assert((0xeac0_c6e7_dd24_392e_d02d_75b3_706e_54f8int * (two128() + 0xb55_86cf_9890_f629_8b92_b718_42a9_8363int)) / two128() == 0xf525_7d15_2486_cc2c_7b9d_0c7a_ed98_0fbfint);
    lemma_exp2_bound_unfold(59, 0xf525_7d15_2486_cc2c_7b9d_0c7a_ed98_0fbfint);
    assert(exp2_d(59) == 0x59b_0d31_5857_43ae_7c54_8eb6_8ca4_17fdint);
    assert((0xf525_7d15_2486_cc2c_7b9d_0c7a_ed98_0fbfint * (two128() + 0x59b_0d31_5857_43ae_7c54_8eb6_8ca4_17fdint)) / two128() == 0xfa83_b2db_722a_033a_7c25_bb14_315d_7fc6int);
    lemma_exp2_bound_unfold(58, 0xfa83_b2db_722a_033a_7c25_bb14_315d_7fc6int);
    assert(exp2_d(58) == 0x2c9_a3e7_7806_0ee6_f7ca_ca4f_7a29_bde8int);
    assert((0xfa83_b2db_722a_033a_7c25_bb14_315d_7fc6int * (two128() + 0x2c9_a3e7_7806_0ee6_f7ca_ca4f_7a29_bde8int)) / two128() == 0xfd3e_0c0c_f486_c174_853f_3a59_31e0_edfbint);
    lemma_exp2_bound_unfold(57, 0xfd3e_0c0c_f486_c174_853f_3a59_31e0_edfbint);
    assert(exp2_d(57) == 0x163_da9f_b333_56d8_4a66_ae33_6dcd_fa3fint);
    assert((0xfd3e_0c0c_f486_c174_853f_3a59_31e0_edfbint * (two128() + 0x163_da9f_b333_56d8_4a66_ae33_6dcd_fa3fint)) / two128() == 0xfe9e_115c_7b8f_884b_add2_5995_e79d_2f00int);
    lemma_exp2_bound_unfold(56, 0xfe9e_115c_7b8f_884b_add2_5995_e79d_2f00int);
    assert(exp2_d(56) == 0xb1_afa5_abcb_ed61_29ab_13ec_11dc_9543int);
    assert((0xfe9e_115c_7b8f_884b_add2_5995_e79d_2f00int * (two128() + 0xb1_afa5_abcb_ed61_29ab_13ec_11dc_9543int)) / two128() == 0xff4e_cb59_511e_c8a5_301b_a217_ef18_dd71int);
    lemma_exp2_bound_unfold(55, 0xff4e_cb59_511e_c8a5_301b_a217_ef18_dd71int);
    assert(exp2_d(55) == 0x58_c86d_a1c0_9ea1_ff19_d294_cf2f_679bint);
    assert((0xff4e_cb59_511e_c8a5_301b_a217_ef18_dd71int * (two128() + 0x58_c86d_a1c0_9ea1_ff19_d294_cf2f_679bint)) / two128() == 0xffa7_5652_1c8d_aed1_9f3a_1b48_fb94_c57cint);
    lemma_exp2_bound_unfold(54, 0xffa7_5652_1c8d_aed1_9f3a_1b48_fb94_c57cint);
    assert(exp2_d(54) == 0x2c_605e_2e8c_ec50_6d21_bfc8_9a23_a00fint);
    assert((0xffa7_5652_1c8d_aed1_9f3a_1b48_fb94_c57cint * (two128() + 0x2c_605e_2e8c_ec50_6d21_bfc8_9a23_a00fint)) / two128() == 0xffd3_a751_c0f7_e10b_d3b9_f8ae_012f_bdf8int);
    lemma_exp2_bound_unfold(53, 0xffd3_a751_c0f7_e10b_d3b9_f8ae_012f_bdf8int);
    assert(exp2_d(53) == 0x16_2f39_0405_1fa1_28bc_a9c5_5c31_e5dfint);
    assert((0xffd3_a751_c0f7_e10b_d3b9_f8ae_012f_bdf8int * (two128() + 0x16_2f39_0405_1fa1_28bc_a9c5_5c31_e5dfint)) / two128() == 0xffe9_d2b2_f7db_2755_ddf1_d28a_378a_437cint);
    lemma_exp2_bound_unfold(52, 0xffe9_d2b2_f7db_2755_ddf1_d28a_378a_437cint);
    assert(exp2_d(52) == 0xb_175e_ffdc_76ba_38e3_1671_ca93_9725int);
    assert((0xffe9_d2b2_f7db_2755_ddf1_d28a_378a_437cint * (two128() + 0xb_175e_ffdc_76ba_38e3_1671_ca93_9725int)) / two128() == 0xfff4_e91b_ff1b_8c3d_8833_8e0e_bf28_4a3cint);
    lemma_exp2_bound_unfold(51, 0xfff4_e91b_ff1b_8c3d_8833_8e0e_bf28_4a3cint);
    assert(exp2_d(51) == 0x5_8ba0_1fb9_f96d_6cac_d4b1_8091_7c3dint);
    assert((0xfff4_e91b_ff1b_8c3d_8833_8e0e_bf28_4a3cint * (two128() + 0x5_8ba0_1fb9_f96d_6cac_d4b1_8091_7c3dint)) / two128() == 0xfffa_747e_a004_0664_238f_92f7_9240_57f2int);
    lemma_exp2_bound_unfold(50, 0xfffa_747e_a004_0664_238f_92f7_9240_57f2int);
    assert(exp2_d(50) == 0x2_c5cc_37da_9491_d098_5c34_8c68_e7b3int);
    assert((0xfffa_747e_a004_0664_238f_92f7_9240_57f2int * (two128() + 0x2_c5cc_37da_9491_d098_5c34_8c68_e7b3int)) / two128() == 0xfffd_3a3b_7814_eb53_cd76_29d7_0fea_1155int);
    lemma_exp2_bound_unfold(49, 0xfffd_3a3b_7814_eb53_cd76_29d7_0fea_1155int);
    assert(exp2_d(49) == 0x1_62e5_25ee_0547_5445_7d59_9529_2026int);
    assert((0xfffd_3a3b_7814_eb53_cd76_29d7_0fea_1155int * (two128() + 0x1_62e5_25ee_0547_5445_7d59_9529_2026int)) / two128() == 0xfffe_9d1c_c60d_dab1_26de_1aec_4a87_e7a2int);
    lemma_exp2_bound_unfold(48, 0xfffe_9d1c_c60d_dab1_26de_1aec_4a87_e7a2int);
    assert(exp2_d(48) == 0xb172_5577_5c04_0618_bf4a_4ade_83fcint);
    assert((0xfffe_9d1c_c60d_dab1_26de_1aec_4a87_e7a2int * (two128() + 0xb172_5577_5c04_0618_bf4a_4ade_83fcint)) / two128() == 0xffff_4e8e_2587_9bfa_09ea_2633_6024_0c02int);
    lemma_exp2_bound_unfold(47, 0xffff_4e8e_2587_9bfa_09ea_2633_6024_0c02int);
    assert(exp2_d(47) == 0x58b9_1b5b_c9ae_2eed_81e9_b7d4_cfabint);
    assert((0xffff_4e8e_2587_9bfa_09ea_2633_6024_0c02int * (two128() + 0x58b9_1b5b_c9ae_2eed_81e9_b7d4_cfabint)) / two128() == 0xffff_a747_0363_f451_5426_d76c_762b_6b48int);
    lemma_exp2_bound_unfold(46, 0xffff_a747_0363_f451_5426_d76c_762b_6b48int);
    assert(exp2_d(46) == 0x2c5c_89d5_ec6c_a4d7_c8ac_c017_b7c9int);
    assert((0xffff_a747_0363_f451_5426_d76c_762b_6b48int * (two128() + 0x2c5c_89d5_ec6c_a4d7_c8ac_c017_b7c9int)) / two128() == 0xffff_d3a3_7dda_0313_3bde_87a8_379c_8918int);
    lemma_exp2_bound_unfold(45, 0xffff_d3a3_7dda_0313_3bde_87a8_379c_8918int);
    assert(exp2_d(45) == 0x162e_43f4_f831_060e_02d8_39a9_d16dint);
    assert((0xffff_d3a3_7dda_0313_3bde_87a8_379c_8918int * (two128() + 0x162e_43f4_f831_060e_02d8_39a9_d16dint)) / two128() == 0xffff_e9d1_bdf7_03ae_f21e_a4dc_fb06_82bdint);
    lemma_exp2_bound_unfold(44, 0xffff_e9d1_bdf7_03ae_f21e_a4dc_fb06_82bdint);
    assert(exp2_d(44) == 0xb17_21bc_fc99_d9f8_90ea_0691_1763int);
    assert((0xffff_e9d1_bdf7_03ae_f21e_a4dc_fb06_82bdint * (two128() + 0xb17_21bc_fc99_d9f8_90ea_0691_1763int)) / two128() == 0xffff_f4e8_debe_025e_2412_8a3d_4607_31d6int);
    lemma_exp2_bound_unfold(43, 0xffff_f4e8_debe_025e_2412_8a3d_4607_31d6int);
    assert(exp2_d(43) == 0x58b_90cf_1e6d_97f9_ca14_dbcc_1628int);
    assert((0xffff_f4e8_debe_025e_2412_8a3d_4607_31d6int * (two128() + 0x58b_90cf_1e6d_97f9_ca14_dbcc_1628int)) / two128() == 0xffff_fa74_6f4f_a150_6788_fbc8_9750_bf54int);
    lemma_exp2_bound_unfold(42, 0xffff_fa74_6f4f_a150_6788_fbc8_9750_bf54int);
    assert(exp2_d(42) == 0x2c5_c863_b73f_0164_68f6_bac5_ca2bint);
    assert((0xffff_fa74_6f4f_a150_6788_fbc8_9750_bf54int * (two128() + 0x2c5_c863_b73f_0164_68f6_bac5_ca2bint)) / two128() == 0xffff_fd3a_37a3_f8b0_7e7c_4871_dc00_d750int);
    lemma_exp2_bound_unfold(41, 0xffff_fd3a_37a3_f8b0_7e7c_4871_dc00_d750int);
    assert(exp2_d(41) == 0x162_e430_e5a1_8f61_19e3_c022_82a5int);
    assert((0xffff_fd3a_37a3_f8b0_7e7c_4871_dc00_d750int * (two128() + 0x162_e430_e5a1_8f61_19e3_c022_82a5int)) / two128() == 0xffff_fe9d_1bd1_065a_5097_1275_792f_1c64int);
    lemma_exp2_bound_unfold(40, 0xffff_fe9d_1bd1_065a_5097_1275_792f_1c64int);
    assert(exp2_d(40) == 0xb1_7218_3551_4b86_e6d9_6efd_1bfeint);
    assert((0xffff_fe9d_1bd1_065a_5097_1275_792f_1c64int * (two128() + 0xb1_7218_3551_4b86_e6d9_6efd_1bfeint)) / two128() == 0xffff_ff4e_8de8_45ad_ac77_243c_d091_4b15int);
    lemma_exp2_bound_unfold(39, 0xffff_ff4e_8de8_45ad_ac77_243c_d091_4b15int);
    assert(exp2_d(39) == 0x58_b90c_0b48_c6be_5df8_46c5_b2efint);
    assert((0xffff_ff4e_8de8_45ad_ac77_243c_d091_4b15int * (two128() + 0x58_b90c_0b48_c6be_5df8_46c5_b2efint)) / two128() == 0xffff_ffa7_46f4_1376_f741_24cd_4831_86b0int);
    lemma_exp2_bound_unfold(38, 0xffff_ffa7_46f4_1376_f741_24cd_4831_86b0int);
    assert(exp2_d(38) == 0x2c_5c86_01cc_6b9e_9421_3c72_737aint);
    assert((0xffff_ffa7_46f4_1376_f741_24cd_4831_86b0int * (two128() + 0x2c_5c86_01cc_6b9e_9421_3c72_737aint)) / two128() == 0xffff_ffd3_a37a_05e3_83e1_4c90_273c_94d0int);
    lemma_exp2_bound_unfold(37, 0xffff_ffd3_a37a_05e3_83e1_4c90_273c_94d0int);
    assert(exp2_d(37) == 0x16_2e42_fff0_37df_38aa_2b21_9f06int);
    assert((0xffff_ffd3_a37a_05e3_83e1_4c90_273c_94d0int * (two128() + 0x16_2e42_fff0_37df_38aa_2b21_9f06int)) / two128() == 0xffff_ffe9_d1bd_01fb_c400_bf82_2dc9_368eint);
    lemma_exp2_bound_unfold(36, 0xffff_ffe9_d1bd_01fb_c400_bf82_2dc9_368eint);
    assert(exp2_d(36) == 0xb_1721_7fba_9c73_9aa5_819f_44f9int);
    assert((0xffff_ffe9_d1bd_01fb_c400_bf82_2dc9_368eint * (two128() + 0xb_1721_7fba_9c73_9aa5_819f_44f9int)) / two128() == 0xffff_fff4_e8de_80c0_6284_6365_949b_6187int);
    lemma_exp2_bound_unfold(35, 0xffff_fff4_e8de_80c0_6284_6365_949b_6187int);
    assert(exp2_d(35) == 0x5_8b90_bfcd_ee5a_cd3c_1ced_c823int);
    assert((0xffff_fff4_e8de_80c0_6284_6365_949b_6187int * (two128() + 0x5_8b90_bfcd_ee5a_cd3c_1ced_c823int)) / two128() == 0xffff_fffa_746f_4050_d163_3246_a8a0_e071int);
    lemma_exp2_bound_unfold(34, 0xffff_fffa_746f_4050_d163_3246_a8a0_e071int);
    assert(exp2_d(34) == 0x2_c5c8_5fe3_1f35_a6a3_0da1_be50int);
    assert((0xffff_fffa_746f_4050_d163_3246_a8a0_e071int * (two128() + 0x2_c5c8_5fe3_1f35_a6a3_0da1_be50int)) / two128() == 0xffff_fffd_3a37_a024_90b9_d93d_a3c1_eba5int);
    lemma_exp2_bound_unfold(33, 0xffff_fffd_3a37_a024_90b9_d93d_a3c1_eba5int);
    assert(exp2_d(33) == 0x1_62e4_2ff0_999c_e354_1b9f_ffcfint);
    assert((0xffff_fffd_3a37_a024_90b9_d93d_a3c1_eba5int * (two128() + 0x1_62e4_2ff0_999c_e354_1b9f_ffcfint)) / two128() == 0xffff_fffe_9d1b_d011_525e_fca4_10b8_ea8cint);
    lemma_exp2_bound_unfold(32, 0xffff_fffe_9d1b_d011_525e_fca4_10b8_ea8cint);
    assert(exp2_d(32) == 0xb172_17f8_0f4e_f5aa_dda4_5554int);
    assert((0xffff_fffe_9d1b_d011_525e_fca4_10b8_ea8cint * (two128() + 0xb172_17f8_0f4e_f5aa_dda4_5554int)) / two128() == 0xffff_ffff_4e8d_e808_6bb0_0253_2d71_e521int);
    lemma_exp2_bound_unfold(31, 0xffff_ffff_4e8d_e808_6bb0_0253_2d71_e521int);
    assert(exp2_d(31) == 0x58b9_0bfb_f847_9bd5_a81b_51adint);
    assert((0xffff_ffff_4e8d_e808_6bb0_0253_2d71_e521int * (two128() + 0x58b9_0bfb_f847_9bd5_a81b_51adint)) / two128() == 0xffff_ffff_a746_f404_2678_2229_daaa_3ccdint);
    lemma_exp2_bound_unfold(30, 0xffff_ffff_a746_f404_2678_2229_daaa_3ccdint);
    assert(exp2_d(30) == 0x2c5c_85fd_f84b_d62a_e30a_74ccint);
    assert((0xffff_ffff_a746_f404_2678_2229_daaa_3ccdint * (two128() + 0x2c5c_85fd_f84b_d62a_e30a_74ccint)) / two128() == 0xffff_ffff_d3a3_7a02_0f64_1954_fda6_eeaeint);
    lemma_exp2_bound_unfold(29, 0xffff_ffff_d3a3_7a02_0f64_1954_fda6_eeaeint);
    assert(exp2_d(29) == 0x162e_42fe_fb2f_ed25_7559_bdaaint);
    assert((0xffff_ffff_d3a3_7a02_0f64_1954_fda6_eeaeint * (two128() + 0x162e_42fe_fb2f_ed25_7559_bdaaint)) / two128() == 0xffff_ffff_e9d1_bd01_06bc_0eba_82d2_9b10int);
    lemma_exp2_bound_unfold(28, 0xffff_ffff_e9d1_bd01_06bc_0eba_82d2_9b10int);
    assert(exp2_d(28) == 0xb17_217f_7d5a_7716_bba4_a9aeint);
    assert((0xffff_ffff_e9d1_bd01_06bc_0eba_82d2_9b10int * (two128() + 0xb17_217f_7d5a_7716_bba4_a9aeint)) / two128() == 0xffff_ffff_f4e8_de80_8320_87e1_4266_6c5aint);
    lemma_exp2_bound_unfold(27, 0xffff_ffff_f4e8_de80_8320_87e1_4266_6c5aint);
    assert(exp2_d(27) == 0x58b_90bf_be9d_dbac_5e10_9cceint);
    assert((0xffff_ffff_f4e8_de80_8320_87e1_4266_6c5aint * (two128() + 0x58b_90bf_be9d_dbac_5e10_9cceint)) / two128() == 0xffff_ffff_fa74_6f40_4180_e411_a172_288cint);
    lemma_exp2_bound_unfold(26, 0xffff_ffff_fa74_6f40_4180_e411_a172_288cint);
    assert(exp2_d(26) == 0x2c5_c85f_df4b_15de_6f17_eb0dint);
    assert((0xffff_ffff_fa74_6f40_4180_e411_a172_288cint * (two128() + 0x2c5_c85f_df4b_15de_6f17_eb0dint)) / two128() == 0xffff_ffff_fd3a_37a0_20bc_9a11_10c8_c621int);
    lemma_exp2_bound_unfold(25, 0xffff_ffff_fd3a_37a0_20bc_9a11_10c8_c621int);
    assert(exp2_d(25) == 0x162_e42f_efa4_94f1_478f_de05int);
    assert((0xffff_ffff_fd3a_37a0_20bc_9a11_10c8_c621int * (two128() + 0x162_e42f_efa4_94f1_478f_de05int)) / two128() == 0xffff_ffff_fe9d_1bd0_105d_570a_9868_4e1eint);
    lemma_exp2_bound_unfold(24, 0xffff_ffff_fe9d_1bd0_105d_570a_9868_4e1eint);
    assert(exp2_d(24) == 0xb1_7217_f7d2_0cf9_27c8_e94cint);
    assert((0xffff_ffff_fe9d_1bd0_105d_570a_9868_4e1eint * (two128() + 0xb1_7217_f7d2_0cf9_27c8_e94cint)) / two128() == 0xffff_ffff_ff4e_8de8_082e_6e05_d035_2192int);
    lemma_exp2_bound_unfold(23, 0xffff_ffff_ff4e_8de8_082e_6e05_d035_2192int);
    assert(exp2_d(23) == 0x58_b90b_fbe8_f71c_b4e4_b33dint);
    assert((0xffff_ffff_ff4e_8de8_082e_6e05_d035_2192int * (two128() + 0x58_b90b_fbe8_f71c_b4e4_b33dint)) / two128() == 0xffff_ffff_ffa7_46f4_0417_27a3_091a_cf4eint);
    lemma_exp2_bound_unfold(22, 0xffff_ffff_ffa7_46f4_0417_27a3_091a_cf4eint);
    assert(exp2_d(22) == 0x2c_5c85_fdf4_77b6_62b2_6945int);
    assert((0xffff_ffff_ffa7_46f4_0417_27a3_091a_cf4eint * (two128() + 0x2c_5c85_fdf4_77b6_62b2_6945int)) / two128() == 0xffff_ffff_ffd3_a37a_020b_8ff9_8ccd_7731int);
    lemma_exp2_bound_unfold(21, 0xffff_ffff_ffd3_a37a_020b_8ff9_8ccd_7731int);
    assert(exp2_d(21) == 0x16_2e42_fefa_3ae5_3369_388cint);
    assert((0xffff_ffff_ffd3_a37a_020b_8ff9_8ccd_7731int * (two128() + 0x16_2e42_fefa_3ae5_3369_388cint)) / two128() == 0xffff_ffff_ffe9_d1bd_0105_c706_c876_bf64int);
    lemma_exp2_bound_unfold(20, 0xffff_ffff_ffe9_d1bd_0105_c706_c876_bf64int);
    assert(exp2_d(20) == 0xb_1721_7f7d_1d35_1a38_9d40int);
    assert((0xffff_ffff_ffe9_d1bd_0105_c706_c876_bf64int * (two128() + 0xb_1721_7f7d_1d35_1a38_9d40int)) / two128() == 0xffff_ffff_fff4_e8de_8082_e345_e4bf_608dint);
    lemma_exp2_bound_unfold(19, 0xffff_ffff_fff4_e8de_8082_e345_e4bf_608dint);
    assert(exp2_d(19) == 0x5_8b90_bfbe_8e8b_2d3d_4edeint);
    assert((0xffff_ffff_fff4_e8de_8082_e345_e4bf_608dint * (two128() + 0x5_8b90_bfbe_8e8b_2d3d_4edeint)) / two128() == 0xffff_ffff_fffa_746f_4041_7193_9280_b065int);
    lemma_exp2_bound_unfold(18, 0xffff_ffff_fffa_746f_4041_7193_9280_b065int);
    assert(exp2_d(18) == 0x2_c5c8_5fdf_4741_bea6_e77eint);
    assert((0xffff_ffff_fffa_746f_4041_7193_9280_b065int * (two128() + 0x2_c5c8_5fdf_4741_bea6_e77eint)) / two128() == 0xffff_ffff_fffd_3a37_a020_b8c5_f148_9821int);
    lemma_exp2_bound_unfold(17, 0xffff_ffff_fffd_3a37_a020_b8c5_f148_9821int);
    assert(exp2_d(17) == 0x1_62e4_2fef_a39f_e955_83c2int);
    assert((0xffff_ffff_fffd_3a37_a020_b8c5_f148_9821int * (two128() + 0x1_62e4_2fef_a39f_e955_83c2int)) / two128() == 0xffff_ffff_fffe_9d1b_d010_5c62_02a6_5bf2int);
    lemma_exp2_bound_unfold(16, 0xffff_ffff_fffe_9d1b_d010_5c62_02a6_5bf2int);
    assert(exp2_d(16) == 0xb172_17f7_d1cf_b72b_45e1int);
    assert((0xffff_ffff_fffe_9d1b_d010_5c62_02a6_5bf2int * (two128() + 0xb172_17f7_d1cf_b72b_45e1int)) / two128() == 0xffff_ffff_ffff_4e8d_e808_2e30_c3d3_b1d6int);
    lemma_exp2_bound_unfold(15, 0xffff_ffff_ffff_4e8d_e808_2e30_c3d3_b1d6int);
    assert(exp2_d(15) == 0x58b9_0bfb_e8e7_cc35_c3f0int);
    assert((0xffff_ffff_ffff_4e8d_e808_2e30_c3d3_b1d6int * (two128() + 0x58b9_0bfb_e8e7_cc35_c3f0int)) / two128() == 0xffff_ffff_ffff_a746_f404_1718_5289_f9c6int);
    lemma_exp2_bound_unfold(14, 0xffff_ffff_ffff_a746_f404_1718_5289_f9c6int);
    assert(exp2_d(14) == 0x2c5c_85fd_f473_e242_ea38int);
    assert((0xffff_ffff_ffff_a746_f404_1718_5289_f9c6int * (two128() + 0x2c5c_85fd_f473_e242_ea38int)) / two128() == 0xffff_ffff_ffff_d3a3_7a02_0b8c_256d_04feint);
    lemma_exp2_bound_unfold(13, 0xffff_ffff_ffff_d3a3_7a02_0b8c_256d_04feint);
    assert(exp2_d(13) == 0x162e_42fe_fa39_f02b_772cint);
    assert((0xffff_ffff_ffff_d3a3_7a02_0b8c_256d_04feint * (two128() + 0x162e_42fe_fa39_f02b_772cint)) / two128() == 0xffff_ffff_ffff_e9d1_bd01_05c6_11c0_846aint);
    lemma_exp2_bound_unfold(12, 0xffff_ffff_ffff_e9d1_bd01_05c6_11c0_846aint);
    assert(exp2_d(12) == 0xb17_217f_7d1c_f7d8_3c1aint);
    assert((0xffff_ffff_ffff_e9d1_bd01_05c6_11c0_846aint * (two128() + 0xb17_217f_7d1c_f7d8_3c1aint)) / two128() == 0xffff_ffff_ffff_f4e8_de80_82e3_08a2_c294int);
    lemma_exp2_bound_unfold(11, 0xffff_ffff_ffff_f4e8_de80_82e3_08a2_c294int);
    assert(exp2_d(11) == 0x58b_90bf_be8e_7bdc_be2eint);
    assert((0xffff_ffff_ffff_f4e8_de80_82e3_08a2_c294int * (two128() + 0x58b_90bf_be8e_7bdc_be2eint)) / two128() == 0xffff_ffff_ffff_fa74_6f40_4171_8442_0146int);
    lemma_exp2_bound_unfold(10, 0xffff_ffff_ffff_fa74_6f40_4171_8442_0146int);
    assert(exp2_d(10) == 0x2c5_c85f_df47_3dea_871fint);
    assert((0xffff_ffff_ffff_fa74_6f40_4171_8442_0146int * (two128() + 0x2c5_c85f_df47_3dea_871fint)) / two128() == 0xffff_ffff_ffff_fd3a_37a0_20b8_c21d_2886int);
    lemma_exp2_bound_unfold(9, 0xffff_ffff_ffff_fd3a_37a0_20b8_c21d_2886int);
    assert(exp2_d(9) == 0x162_e42f_efa3_9ef4_4d91int);
    assert((0xffff_ffff_ffff_fd3a_37a0_20b8_c21d_2886int * (two128() + 0x162_e42f_efa3_9ef4_4d91int)) / two128() == 0xffff_ffff_ffff_fe9d_1bd0_105c_610d_9e1fint);
    lemma_exp2_bound_unfold(8, 0xffff_ffff_ffff_fe9d_1bd0_105c_610d_9e1fint);
    assert(exp2_d(8) == 0xb1_7217_f7d1_cf79_abcaint);
    assert((0xffff_ffff_ffff_fe9d_1bd0_105c_610d_9e1fint * (two128() + 0xb1_7217_f7d1_cf79_abcaint)) / two128() == 0xffff_ffff_ffff_ff4e_8de8_082e_3086_53ebint);
    lemma_exp2_bound_unfold(7, 0xffff_ffff_ffff_ff4e_8de8_082e_3086_53ebint);
    assert(exp2_d(7) == 0x58_b90b_fbe8_e7bc_e544int);
    assert((0xffff_ffff_ffff_ff4e_8de8_082e_3086_53ebint * (two128() + 0x58_b90b_fbe8_e7bc_e544int)) / two128() == 0xffff_ffff_ffff_ffa7_46f4_0417_1842_fbafint);
    lemma_exp2_bound_unfold(6, 0xffff_ffff_ffff_ffa7_46f4_0417_1842_fbafint);
    assert(exp2_d(6) == 0x2c_5c85_fdf4_73de_6ecaint);
    assert((0xffff_ffff_ffff_ffa7_46f4_0417_1842_fbafint * (two128() + 0x2c_5c85_fdf4_73de_6ecaint)) / two128() == 0xffff_ffff_ffff_ffd3_a37a_020b_8c21_5b19int);
    lemma_exp2_bound_unfold(5, 0xffff_ffff_ffff_ffd3_a37a_020b_8c21_5b19int);
    assert(exp2_d(5) == 0x16_2e42_fefa_39ef_358dint);
    assert((0xffff_ffff_ffff_ffd3_a37a_020b_8c21_5b19int * (two128() + 0x16_2e42_fefa_39ef_358dint)) / two128() == 0xffff_ffff_ffff_ffe9_d1bd_0105_c610_8cceint);
    lemma_exp2_bound_unfold(4, 0xffff_ffff_ffff_ffe9_d1bd_0105_c610_8cceint);
    assert(exp2_d(4) == 0xb_1721_7f7d_1cf7_9abcint);
    assert((0xffff_ffff_ffff_ffe9_d1bd_0105_c610_8cceint * (two128() + 0xb_1721_7f7d_1cf7_9abcint)) / two128() == 0xffff_ffff_ffff_fff4_e8de_8082_e308_2694int);
    lemma_exp2_bound_unfold(3, 0xffff_ffff_ffff_fff4_e8de_8082_e308_2694int);
    assert(exp2_d(3) == 0x5_8b90_bfbe_8e7b_cd6dint);
    assert((0xffff_ffff_ffff_fff4_e8de_8082_e308_2694int * (two128() + 0x5_8b90_bfbe_8e7b_cd6dint)) / two128() == 0xffff_ffff_ffff_fffa_746f_4041_7183_f3c3int);
    lemma_exp2_bound_unfold(2, 0xffff_ffff_ffff_fffa_746f_4041_7183_f3c3int);
    assert(exp2_d(2) == 0x2_c5c8_5fdf_473d_e6b2int);
    assert((0xffff_ffff_ffff_fffa_746f_4041_7183_f3c3int * (two128() + 0x2_c5c8_5fdf_473d_e6b2int)) / two128() == 0xffff_ffff_ffff_fffd_3a37_a020_b8c1_da65int);
    lemma_exp2_bound_unfold(1, 0xffff_ffff_ffff_fffd_3a37_a020_b8c1_da65int);
    assert(exp2_d(1) == 0x1_62e4_2fef_a39e_f34eint);
    assert((0xffff_ffff_ffff_fffd_3a37_a020_b8c1_da65int * (two128() + 0x1_62e4_2fef_a39e_f34eint)) / two128() == 0xffff_ffff_ffff_fffe_9d1b_d010_5c60_cdafint);
    lemma_exp2_bound_unfold(0, 0xffff_ffff_ffff_fffe_9d1b_d010_5c60_cdafint);
    assert(exp2_d(0) == 0xb172_17f7_d1cf_79abint);
    assert((0xffff_ffff_ffff_fffe_9d1b_d010_5c60_cdafint * (two128() + 0xb172_17f7_d1cf_79abint)) / two128() == 0xffff_ffff_ffff_ffff_4e8d_e808_2e30_4759int);
    assert forall|n: nat| n <= 64 implies #[trigger] exp2_bound(n) <= exp2_bound(0) by {
        lemma_exp2_bound_mono(n);
    }
}

/// One unfolding of the bound.
proof fn lemma_exp2_bound_unfold(n: nat, v: int)
    requires
        n < 64,
        exp2_bound(n + 1) == v,
    ensures
        exp2_bound(n) == (v * (two128() + exp2_d(n as u32))) / two128(),
{
}

/// The bound grows as more bits are taken.
proof fn lemma_exp2_bound_mono(n: nat)
    requires
        n <= 64,
    ensures
        exp2_bound(n) <= exp2_bound(0),
        exp2_bound(n) >= two127(),
{
    lemma_exp2_bound_below_first(n);
    lemma_exp2_bound_above_last(n);
}

/// Every bound is at most the first.
proof fn lemma_exp2_bound_below_first(n: nat)
    requires
        n <= 64,
    ensures
        exp2_bound(n) <= exp2_bound(0),
    decreases n,
{
    if n > 0 {
        lemma_exp2_bound_below_first((n - 1) as nat);
        lemma_exp2_bound_mono_step((n - 1) as nat);
    }
}

/// Every bound is at least the last, 2^127.
proof fn lemma_exp2_bound_above_last(n: nat)
    requires
        n <= 64,
    ensures
        exp2_bound(n) >= two127(),
    decreases 64 - n,
{
    if n < 64 {
        lemma_exp2_bound_above_last(n + 1);
        lemma_exp2_bound_mono_step(n);
    }
}

/// One step of the bound does not shrink it.
proof fn lemma_exp2_bound_mono_step(n: nat)
    requires
        n < 64,
    ensures
        exp2_bound(n + 1) <= exp2_bound(n),
    decreases 64 - n,
{
    let b = exp2_bound(n + 1);
    let d = exp2_d(n as u32);
    if n + 1 < 64 {
        lemma_exp2_bound_mono_step(n + 1);
    }
    assert(b >= 0) by {
        lemma_exp2_bound_nonneg(n + 1);
    }
    assert(d >= 0);
    lemma_div_multiples_vanish_fancy_gen(b, b * d, two128());
    assert(b * (two128() + d) == b * two128() + b * d) by (nonlinear_arith);
    assert(b * d >= 0) by (nonlinear_arith) requires b >= 0, d >= 0;
    lemma_div_pos_is_pos(b * d, two128());
}

/// The bound is never negative.
proof fn lemma_exp2_bound_nonneg(n: nat)
    ensures
        exp2_bound(n) >= 0,
    decreases 64 - n,
{
    if n < 64 {
        lemma_exp2_bound_nonneg(n + 1);
        let b = exp2_bound(n + 1);
        let d = exp2_d(n as u32);
        assert(b * (two128() + d) >= 0) by (nonlinear_arith)
            requires b >= 0, d >= 0;
        lemma_div_pos_is_pos(b * (two128() + d), two128());
    }
}

/// The magnitude and sign of a product.
proof fn lemma_signed_product(x: int, y: int)
    ensures
        x * y == signed((x < 0) != (y < 0), abs(x) * abs(y)),
{
    if x < 0 && y < 0 {
        assert(x * y == (-x) * (-y)) by (nonlinear_arith);
    } else if x < 0 {
        assert(x * y == -((-x) * y)) by (nonlinear_arith);
    } else if y < 0 {
        assert(x * y == -(x * (-y))) by (nonlinear_arith);
    }
}

/// One step of the binary search for the highest set bit.
proof fn lemma_msb_step(v: int, msb: nat, xc: int, k: nat)
    requires
        v >= 0,
        xc == (v as int) / (pow2(msb) as int),
        xc >= pow2(k),
    ensures
        xc / (pow2(k) as int) == (v as int) / (pow2(msb + k) as int),
        xc / (pow2(k) as int) >= 1,
{
    lemma_pow2_pos(msb);
    lemma_pow2_pos(k);
    lemma_pow2_adds(msb, k);
    lemma_div_denominator(v, pow2(msb) as int, pow2(k) as int);
    lemma_div_is_ordered(pow2(k) as int, xc, pow2(k) as int);
    lemma_div_by_self(pow2(k) as int);
}

/// One step of the binary search for the highest set bit: if `xc >= 2^k`, shift it
/// down by `k` and add `k` to the bit position.
fn msb_step(v: u128, xc: u128, msb: u32, k: u32) -> (res: (u128, u32))
    requires
        1 <= k <= 64,
        xc == (v as int) / (pow2(msb as nat) as int),
        1 <= xc < pow2((2 * k) as nat),
        msb + 2 * k <= 128,
    ensures
        res.0 == (v as int) / (pow2(res.1 as nat) as int),
        1 <= res.0 < pow2(k as nat),
        res.1 + k <= 128,
{
    let p = pow2_u128(k);
    proof {
        lemma_pow2_adds(k as nat, k as nat);
        lemma_pow2_pos(k as nat);
    }
    if xc >= p {
        proof {
            lemma_msb_step(v as int, msb as nat, xc as int, k as nat);
            lemma_u128_shr_is_div(xc, k as u128);
            assert((xc as int) / (p as int) < p) by (nonlinear_arith)
                requires xc < p * p, p > 0;
        }
        (xc >> k, msb + k)
    } else {
        (xc, msb)
    }
}

/// The position of the highest set bit of `v >= 1`, found by binary search.
pub fn msb_u128(v: u128) -> (r: u32)
    requires
        v >= 1,
    ensures
        r < 128,
        pow2(r as nat) <= v < pow2((r + 1) as nat),
{
    proof {
        lemma2_to64();
        lemma_pow2_consts();
        assert(v / 1 == v);
    }
    let (xc, msb) = msb_step(v, v, 0, 64);
    let (xc, msb) = msb_step(v, xc, msb, 32);
    let (xc, msb) = msb_step(v, xc, msb, 16);
    let (xc, msb) = msb_step(v, xc, msb, 8);
    let (xc, msb) = msb_step(v, xc, msb, 4);
    let (xc, msb) = msb_step(v, xc, msb, 2);
    proof {
        lemma_pow2_pos(msb as nat);
        lemma_fundamental_div_mod(v as int, pow2(msb as nat) as int);
        lemma_mod_bound(v as int, pow2(msb as nat) as int);
        lemma_pow2_pos(msb as nat);
        lemma_pow2_unfold((msb + 1) as nat);
        lemma_pow2_unfold((msb + 2) as nat);
    }
    if xc >= 2 {
        proof {
            assert(v >= 2 * pow2(msb as nat)) by (nonlinear_arith)
                requires v as int == pow2(msb as nat) * xc + (v as int) % (pow2(msb as nat) as int), xc >= 2,
                    (v as int) % (pow2(msb as nat) as int) >= 0, pow2(msb as nat) > 0;
            assert(v < 4 * pow2(msb as nat)) by (nonlinear_arith)
                requires v as int == pow2(msb as nat) * xc + (v as int) % (pow2(msb as nat) as int), xc < 4,
                    (v as int) % (pow2(msb as nat) as int) < pow2(msb as nat), pow2(msb as nat) > 0;
        }
        msb + 1
    } else {
        proof {
            assert(v >= pow2(msb as nat)) by (nonlinear_arith)
                requires v as int == pow2(msb as nat) * xc + (v as int) % (pow2(msb as nat) as int), xc >= 1,
                    (v as int) % (pow2(msb as nat) as int) >= 0, pow2(msb as nat) > 0;
            assert(v < 2 * pow2(msb as nat)) by (nonlinear_arith)
                requires v as int == pow2(msb as nat) * xc + (v as int) % (pow2(msb as nat) as int), xc < 2,
                    (v as int) % (pow2(msb as nat) as int) < pow2(msb as nat), pow2(msb as nat) > 0;
        }
        msb
    }
}

/// `floor(s / 2^k)` for the signed number `s` with sign `neg` and magnitude `m`,
/// when that quotient is a 64.64 number.
fn floor_shr_to_i128(neg: bool, m: U256, k: u32) -> (r: i128)
    requires
        k < 256,
        in_64x64(signed(neg, m.val()) / (pow2(k as nat) as int)),
    ensures
        r == signed(neg, m.val()) / (pow2(k as nat) as int),
{
    proof {
        lemma_pow2_pos(k as nat);
    }
    if !neg || m.is_zero() {
        let q = m.shr(k);
        proof {
            assert(q.hi == 0);
        }
        q.lo as i128
    } else {
        let q = m.sub(U256 { hi: 0, lo: 1 }).shr(k);
        proof {
            lemma_floor_div_neg(m.val(), pow2(k as nat) as int);
            assert(q.hi == 0);
        }
        -(q.lo as i128) - 1
    }
}

/// `trunc(s / d)` for the signed number `s` with sign `neg` and magnitude `m`,
/// when that quotient is a 64.64 number.
fn trunc_div_to_i128(neg: bool, m: U256, d: U256) -> (r: i128)
    requires
        d.val() > 0,
        in_64x64(signed(neg, m.val() / d.val())),
    ensures
        r == signed(neg, m.val() / d.val()),
{
    let q = m.div(d);
    proof {
        lemma_div_pos_is_pos(m.val(), d.val());
    }
    if neg {
        assert(q.hi == 0);
        if q.lo == 0x8000_0000_0000_0000_0000_0000_0000_0000 {
            i128::MIN
        } else {
            -(q.lo as i128)
        }
    } else {
        assert(q.hi == 0);
        q.lo as i128
    }
}

/// Converting an integer in [-2^63, 2^63) to 64.64 with `from_int` and back with
/// `to_int` gives the integer.
pub proof fn law_from_int_to_int(x: int)
    requires
        -0x8000_0000_0000_0000 <= x < 0x8000_0000_0000_0000,
    ensures
        (x * two64()) / two64() == x,
{
    lemma_div_multiples_vanish_fancy_gen(x, 0, two64());
}

/// Converting an unsigned integer below 2^63 to 64.64 with `from_uint` and back with
/// `to_uint` gives the integer.
pub proof fn law_from_uint_to_uint(x: int)
    requires
        0 <= x < 0x8000_0000_0000_0000,
    ensures
        (x * two64()) / two64() == x,
{
    law_from_int_to_int(x);
}

/// Converting a 64.64 number to 128.128 with `to_128x128` and back with `from_128x128`
/// gives the number.
pub proof fn law_128x128_roundtrip(x: int)
    ensures
        (x * two64()) / two64() == x,
{
    lemma_div_multiples_vanish_fancy_gen(x, 0, two64());
}

/// Multiplying by 1.0 (2^64) with `mul` gives the number back.
pub proof fn law_mul_one(x: int)
    ensures
        (x * two64()) / two64() == x,
{
    lemma_div_multiples_vanish_fancy_gen(x, 0, two64());
}

/// Dividing by 1.0 (2^64) with `div` gives the number back.
pub proof fn law_div_one(x: int)
    ensures
        trunc_div(x * two64(), two64()) == x,
{
    lemma_abs_mul(x, two64());
    lemma_div_multiples_vanish_fancy_gen(abs(x), 0, two64());
}

/// The average of a number with itself is the number.
pub proof fn law_avg_same(x: int)
    ensures
        (x + x) / 2 == x,
{
}

/// Negating twice with `neg` gives the number back.
pub proof fn law_neg_neg(x: int)
    ensures
        -(-x) == x,
{
}

/// Any number to the power 0 with `pow` is 1.0.
pub proof fn law_pow_zero(x: int)
    ensures
        pow_result(x, 0) == Some(two64()),
{
    lemma2_to64();
    lemma_pow2_consts();
    assert(two128() / two64() == two64());
}

/// Any 64.64 number to the power 1 with `pow` is itself.
pub proof fn law_pow_one(x: int)
    requires
        in_64x64(x),
    ensures
        pow_result(x, 1) == Some(x),
{
    let ax = abs(x);
    let n = pow_norm(ax);
    let b = n.0;
    let s: nat = if ax > two64() { (127 - msb_spec(ax)) as nat } else { 63 };
    lemma_pow2_consts();
    lemma2_to64();
    if ax > two64() {
        let m = msb_spec(ax);
        lemma_msb_of_range(ax);
        assert(pow2(m) <= ax < pow2(m + 1));
        assert(64 <= m <= 127) by {
            if m < 64 {
                lemma_pow2_increases(m + 1, 64);
            }
            if m > 127 {
                lemma_pow2_increases(128, m);
            }
        }
        lemma_pow2_adds(m, s);
        lemma_pow2_adds(m + 1, s);
        assert(pow2(m) * pow2(s) == two127());
        assert(pow2(m + 1) * pow2(s) == two128());
        lemma_pow2_pos(s);
        assert(two127() <= b < two128()) by (nonlinear_arith)
            requires pow2(m) <= ax < pow2(m + 1), b == ax * pow2(s), pow2(m) * pow2(s) == two127(),
                pow2(m + 1) * pow2(s) == two128(), pow2(s) > 0;
        assert(n.1 == 63 - s);
    } else {
        lemma2_to64_rest();
        assert(pow2(63) == 0x8000_0000_0000_0000);
        assert(b == ax * pow2(s));
        assert(0 <= b <= two127());
    }
    reveal_with_fuel(pow_steps, 2);
    assert(two128() * b == (2 * b) * two127());
    lemma_div_multiples_vanish_fancy_gen(2 * b, 0, two127());
    let f = pow_steps(two128(), 0, b, n.1, 1).unwrap();
    lemma_pow2_pos(s);
    if 2 * b > two128() {
        assert(f.0 == b && f.1 == 64 - s);
        assert(s >= 1) by {
            if s == 0 {
                assert(b == ax);
            }
        }
        lemma_pow2_adds(s, 0);
        assert((64 - f.1) as nat == s);
        lemma_div_by_multiple(ax, pow2(s) as int);
    } else {
        assert(f.0 == 2 * b && f.1 == 63 - s);
        assert((64 - f.1) as nat == s + 1);
        lemma_pow2_unfold(s + 1);
        assert(b == ax * pow2(s));
        assert(2 * b == ax * pow2(s + 1)) by (nonlinear_arith)
            requires b == ax * pow2(s), pow2(s + 1) == 2 * pow2(s);
        lemma_div_by_multiple(ax, pow2(s + 1) as int);
    }
}

/// 2.0 to an integer power `n <= 62` with `pow` is exactly `2^n`.
pub proof fn law_pow_two(n: nat)
    requires
        n <= 62,
    ensures
        pow_result(2 * two64(), n) == Some(pow2(64 + n) as int),
{
    lemma_pow2_consts();
    lemma2_to64();
    lemma2_to64_rest();
    lemma_pow2_adds(64, 1);
    lemma_pow2_adds(64, 2);
    assert(pow2(65) == 2 * two64());
    lemma_msb_spec(2 * two64(), 65);
    lemma_pow2_adds(65, 62);
    assert(pow_norm(2 * two64()) == (two127(), 1int));
    lemma_pow_steps_pow2(0, 1, n);
    assert(pow_steps(two128(), 0, two127(), 1, n) == Some((two128(), n as int)));
    lemma_pow2_adds(64 + n, (64 - n) as nat);
    lemma_pow2_pos((64 - n) as nat);
    lemma_div_by_multiple(pow2(64 + n) as int, pow2((64 - n) as nat) as int);
    lemma_pow2_increases(64 + n, 126);
    lemma_pow2_strictly_increases(126, 127);
}

/// With an accumulator of 2.0 and a base of 2^bs, each set bit of `y` adds its weight
/// times `bs` to the result exponent, while that stays below 64.
proof fn lemma_pow_steps_pow2(rs: int, bs: int, y: nat)
    requires
        bs >= 1,
        y * bs < 64,
    ensures
        pow_steps(two128(), rs, two127(), bs, y) == Some((two128(), rs + y * bs)),
    decreases y,
{
    if y > 0 {
        assert(bs < 64) by (nonlinear_arith)
            requires y >= 1, y * bs < 64, bs >= 1;
        lemma_div_multiples_vanish_fancy_gen(two128(), 0, two127());
        lemma_div_multiples_vanish_fancy_gen(two127(), 0, two127());
        assert((two128() * two127()) / two127() == two128());
        assert((two127() * two127()) / two127() == two127());
        let rs2 = if y % 2 == 1 { rs + bs } else { rs };
        assert((y / 2) * (2 * bs) < 64 && rs2 + (y / 2) * (2 * bs) == rs + y * bs) by (nonlinear_arith)
            requires y * bs < 64, bs >= 1, y == 2 * (y / 2) + y % 2, 0 <= y % 2 < 2,
                rs2 == if y % 2 == 1 { rs + bs } else { rs };
        lemma_pow_steps_pow2(rs2, 2 * bs, y / 2);
        assert(pow_steps(two128(), rs, two127(), bs, y) == pow_steps(two128(), rs2, two127(), 2 * bs, y / 2));
    } else {
        assert(y * bs == 0) by (nonlinear_arith)
            requires y == 0;
    }
}

/// 1.0 to any power with `pow` is 1.0.
pub proof fn law_pow_of_one(y: nat)
    ensures
        pow_result(two64(), y) == Some(two64()),
{
    lemma_pow_steps_one(y);
    lemma_pow2_consts();
    lemma2_to64();
    assert(two128() / two64() == two64());
}

/// The repeated squaring started at 1.0 with base 1.0 stays at 1.0.
proof fn lemma_pow_steps_one(y: nat)
    ensures
        pow_steps(two128(), 0, two127(), 0, y) == Some((two128(), 0int)),
    decreases y,
{
    if y > 0 {
        lemma_div_multiples_vanish_fancy_gen(two128(), 0, two127());
        lemma_div_multiples_vanish_fancy_gen(two127(), 0, two127());
        lemma_pow_steps_one(y / 2);
    }
}

/// Negating the base of `pow` negates the result for an odd exponent and leaves it
/// alone for an even one.
pub proof fn law_pow_negated_base(x: int, y: nat)
    requires
        pow_result(x, y) is Some,
        pow_result(-x, y) is Some,
    ensures
        y % 2 == 1 ==> pow_result(-x, y).unwrap() == -pow_result(x, y).unwrap(),
        y % 2 == 0 ==> pow_result(-x, y).unwrap() == pow_result(x, y).unwrap(),
{
    assert(abs(-x) == abs(x));
    let n = pow_norm(abs(x));
    assert(pow_norm(abs(-x)) == n);
    let f = pow_steps(two128(), 0, n.0, n.1, y).unwrap();
    let m = f.0 / (pow2((64 - f.1) as nat) as int);
    if y % 2 == 1 {
        if x < 0 {
            assert(pow_result(x, y).unwrap() == -m);
            assert(pow_result(-x, y).unwrap() == m);
        } else if x > 0 {
            assert(pow_result(x, y).unwrap() == m);
            assert(pow_result(-x, y).unwrap() == -m);
        } else {
            assert(n == (0int, 0int));
            lemma_pow_steps_zero(0, 0, (y / 2) as nat);
            assert(f.0 == 0);
            lemma_pow2_pos((64 - f.1) as nat);
            assert(0int / (pow2((64 - f.1) as nat) as int) == 0);
            assert(m == 0);
        }
    }
}

/// Once the accumulator and the base are 0, the repeated squaring leaves them 0.
proof fn lemma_pow_steps_zero(rs: int, bs: int, y: nat)
    requires
        bs >= 0,
    ensures
        pow_steps(0, rs, 0, bs, y) matches Some(f) ==> f.0 == 0,
    decreases y,
{
    if y > 0 && bs < 64 {
        let rs2 = if y % 2 == 1 { rs + bs } else { rs };
        lemma_pow_steps_zero(rs2, 2 * bs, y / 2);
    }
}

/// The result of `pow` is negative only for a negative base and an odd exponent: it is
/// at least 0 when `x >= 0` or `y` is even, and at most 0 otherwise.
pub proof fn law_pow_sign(x: int, y: nat)
    requires
        pow_result(x, y) is Some,
    ensures
        (x >= 0 || y % 2 == 0) ==> pow_result(x, y).unwrap() >= 0,
        (x < 0 && y % 2 == 1) ==> pow_result(x, y).unwrap() <= 0,
{
    let n = pow_norm(abs(x));
    lemma_pow_norm_nonneg(abs(x));
    lemma_pow_steps_nonneg(two128(), 0, n.0, n.1, y);
    let f = pow_steps(two128(), 0, n.0, n.1, y).unwrap();
    lemma_pow2_pos((64 - f.1) as nat);
    lemma_div_pos_is_pos(f.0, pow2((64 - f.1) as nat) as int);
}

/// The normalised base of `pow` is not negative.
proof fn lemma_pow_norm_nonneg(ax: int)
    requires
        ax >= 0,
    ensures
        pow_norm(ax).0 >= 0,
{
    if ax > two64() {
        let m = msb_spec(ax);
        lemma_pow2_pos((127 - m) as nat);
        assert(ax * pow2((127 - m) as nat) >= 0) by (nonlinear_arith)
            requires ax >= 0, pow2((127 - m) as nat) > 0;
    }
}

/// The repeated squaring keeps a non-negative accumulator non-negative.
proof fn lemma_pow_steps_nonneg(r: int, rs: int, b: int, bs: int, y: nat)
    requires
        r >= 0,
        b >= 0,
        pow_steps(r, rs, b, bs, y) is Some,
    ensures
        pow_steps(r, rs, b, bs, y).unwrap().0 >= 0,
    decreases y,
{
    if y > 0 {
        assert(r * b >= 0 && b * b >= 0) by (nonlinear_arith)
            requires r >= 0, b >= 0;
        lemma_div_pos_is_pos(r * b, two127());
        lemma_div_pos_is_pos(b * b, two127());
        let p = (r * b) / two127();
        let r2 = if y % 2 == 1 { if p > two128() { p / 2 } else { p } } else { r };
        let rs2 = if y % 2 == 1 { if p > two128() { rs + bs + 1 } else { rs + bs } } else { rs };
        let q = (b * b) / two127();
        let b2 = if q >= two128() { q / 2 } else { q };
        let bs2 = if q >= two128() { 2 * bs + 1 } else { 2 * bs };
        lemma_pow_steps_nonneg(r2, rs2, b2, bs2, y / 2);
    }
}

/// Every 64.64 number in [-1, 1] can be raised to any power with `pow`.
pub proof fn law_pow_small_base(x: int, y: nat)
    requires
        -two64() <= x <= two64(),
    ensures
        pow_result(x, y) is Some,
{
    let b = abs(x) * 0x8000_0000_0000_0000;
    assert(0 <= b <= two127());
    lemma_pow_steps_small(two128(), b, y);
    let f = pow_steps(two128(), 0, b, 0, y).unwrap();
    lemma_pow2_consts();
    lemma2_to64();
    assert(f.0 / two64() <= two64()) by {
        lemma_div_is_ordered(f.0, two128(), two64());
        assert(two128() / two64() == two64());
    }
    lemma_div_pos_is_pos(f.0, two64());
}

/// With a base of at most 1.0 the repeated squaring never renormalises.
proof fn lemma_pow_steps_small(r: int, b: int, y: nat)
    requires
        0 <= r <= two128(),
        0 <= b <= two127(),
    ensures
        pow_steps(r, 0, b, 0, y) is Some,
        pow_steps(r, 0, b, 0, y).unwrap().1 == 0,
        0 <= pow_steps(r, 0, b, 0, y).unwrap().0 <= two128(),
    decreases y,
{
    if y > 0 {
        lemma_div_by_multiple_bound(r, b, two128(), two127());
        lemma_div_by_multiple_bound(b, b, two127(), two127());
        let p = (r * b) / two127();
        let r2 = if y % 2 == 1 { p } else { r };
        lemma_pow_steps_small(r2, (b * b) / two127(), y / 2);
    }
}

/// The result exponent of the repeated squaring only grows.
proof fn lemma_pow_steps_rs_grows(r: int, rs: int, b: int, bs: int, y: nat)
    requires
        bs >= 0,
        pow_steps(r, rs, b, bs, y) is Some,
    ensures
        pow_steps(r, rs, b, bs, y).unwrap().1 >= rs,
    decreases y,
{
    if y > 0 {
        let p = (r * b) / two127();
        let r2 = if y % 2 == 1 { if p > two128() { p / 2 } else { p } } else { r };
        let rs2 = if y % 2 == 1 { if p > two128() { rs + bs + 1 } else { rs + bs } } else { rs };
        let q = (b * b) / two127();
        let b2 = if q >= two128() { q / 2 } else { q };
        let bs2 = if q >= two128() { 2 * bs + 1 } else { 2 * bs };
        lemma_pow_steps_rs_grows(r2, rs2, b2, bs2, y / 2);
    }
}

/// The binary logarithm of 1.0 with `log_2` is 0.
pub proof fn law_log2_one()
    ensures
        log2_spec(two64()) == 0,
{
    lemma_pow2_consts();
    law_log2_pow2(64);
}

/// The natural logarithm of 1.0 with `ln` is 0.
pub proof fn law_ln_one()
    ensures
        (log2_spec(two64()) * ln2_scaled()) / two128() == 0,
{
    law_log2_one();
}

/// The binary logarithm of a power of two `2^(k - 64)` (raw value `2^k`, which `log_2`
/// accepts for `k < 127`) is exactly `k - 64`.
pub proof fn law_log2_pow2(k: nat)
    requires
        k < 127,
    ensures
        log2_spec(pow2(k) as int) == (k - 64) * two64(),
{
    lemma_pow2_strictly_increases(k, k + 1);
    lemma_msb_spec(pow2(k) as int, k);
    lemma_pow2_adds(k, (127 - k) as nat);
    lemma_pow2_consts();
    assert(pow2(k) * pow2((127 - k) as nat) == two127());
    lemma_log2_frac_one(64);
}

/// `exp_2` of an integer `n` in [-64, 63] is exactly `2^n` (raw value `2^(64 + n)`); the
/// function itself returns it for `n <= 62`, where the result is a 64.64 number.
pub proof fn law_exp2_integer(n: int)
    requires
        -64 <= n <= 63,
    ensures
        exp2_spec(n * two64()) == pow2((64 + n) as nat),
{
    lemma_mod_multiples_basic(n, two64());
    lemma_div_multiples_vanish_fancy_gen(n, 0, two64());
    assert(n * two64() / two64() == n);
    lemma_exp2_loop_zero(two127(), 64);
    lemma_pow2_adds((64 + n) as nat, (63 - n) as nat);
    lemma_pow2_consts();
    lemma_pow2_pos((63 - n) as nat);
    lemma_div_by_multiple(pow2((64 + n) as nat) as int, pow2((63 - n) as nat) as int);
}

/// Adding 1.0 to the exponent doubles `exp_2`, up to the bit that the shift rounds off:
/// `2 * exp_2(x) <= exp_2(x + 1.0) <= 2 * exp_2(x) + 1`.
pub proof fn law_exp2_doubling(x: int)
    requires
        -64 * two64() <= x,
        x + two64() < 64 * two64(),
    ensures
        2 * exp2_spec(x) <= exp2_spec(x + two64()) <= 2 * exp2_spec(x) + 1,
{
    let n = x / two64();
    let f = x % two64();
    lemma_fundamental_div_mod(x, two64());
    lemma_mod_bound(x, two64());
    lemma_fundamental_div_mod_converse(x + two64(), two64(), n + 1, f);
    assert(-64 <= n <= 62) by (nonlinear_arith)
        requires x == two64() * n + f, 0 <= f < two64(), -64 * two64() <= x, x + two64() < 64 * two64(),
            two64() > 0;
    let m = exp2_loop(two127(), f, 64);
    let s = (62 - n) as nat;
    lemma_pow2_pos(s);
    lemma_pow2_unfold(s + 1);
    assert((63 - n) as nat == s + 1);
    lemma_exp2_loop_nonneg(two127(), f, 64);
    lemma_div_denominator(m, pow2(s) as int, 2);
    let q = m / (pow2(s) as int);
    lemma_fundamental_div_mod(q, 2);
    lemma_mod_bound(q, 2);
}

/// The product loop of `exp_2` keeps a non-negative mantissa non-negative.
proof fn lemma_exp2_loop_nonneg(r: int, f: int, n: nat)
    requires
        r >= 0,
    ensures
        exp2_loop(r, f, n) >= 0,
    decreases n,
{
    if n > 0 {
        let i = (n - 1) as nat;
        let d = exp2_d(i as u32);
        assert(d >= 0);
        assert(r * (two128() + d) >= 0) by (nonlinear_arith)
            requires r >= 0, d >= 0, two128() > 0;
        lemma_div_pos_is_pos(r * (two128() + d), two128());
        if (f / (pow2(i) as int)) % 2 == 1 {
            lemma_exp2_loop_nonneg((r * (two128() + d)) / two128(), f, i);
        } else {
            lemma_exp2_loop_nonneg(r, f, i);
        }
    }
}

/// Each table factor of `exp_2` for bit `i` is at least `1 + 2^(i - 65)`: the constant
/// `2^128 * (2^(2^(i - 64)) - 1)` is at least `2^(i + 63)`.
proof fn lemma_exp2_d_lower()
    ensures
        forall|i: u32| i < 64 ==> #[trigger] exp2_d(i) >= 0x8000_0000_0000_0000 * pow2(i as nat),
{
    lemma2_to64();
    lemma2_to64_rest();
}

/// The product loop of `exp_2` grows the mantissa by at least half the fraction it
/// reads: with the low `n` bits of `f`, `loop * 2^65 >= r * 2^65 + r * (f mod 2^n)`, up
/// to one unit of rounding per bit.
proof fn lemma_exp2_loop_lower(r: int, f: int, n: nat)
    requires
        r >= 0,
        f >= 0,
        n <= 64,
    ensures
        exp2_loop(r, f, n) >= r,
        exp2_loop(r, f, n) * 0x2_0000_0000_0000_0000 + n * 0x2_0000_0000_0000_0000
            >= r * 0x2_0000_0000_0000_0000 + r * (f % (pow2(n) as int)),
    decreases n,
{
    lemma2_to64();
    if n == 0 {
        assert(f % 1 == 0);
    } else {
        let i = (n - 1) as nat;
        let d = exp2_d(i as u32);
        lemma_exp2_d_lower();
        assert(d >= 0x8000_0000_0000_0000 * pow2(i));
        lemma_pow2_pos(i);
        let bit = (f / (pow2(i) as int)) % 2;
        let r2 = if bit == 1 { (r * (two128() + d)) / two128() } else { r };
        if bit == 1 {
            assert(r * (two128() + d) == r * two128() + r * d) by (nonlinear_arith);
            lemma_div_multiples_vanish_fancy_gen(r, r * d, two128());
            lemma_fundamental_div_mod(r * d, two128());
            lemma_mod_bound(r * d, two128());
            assert(r * d >= r * (0x8000_0000_0000_0000 * pow2(i))) by (nonlinear_arith)
                requires r >= 0, d >= 0x8000_0000_0000_0000 * pow2(i);
            assert(r2 * 0x2_0000_0000_0000_0000 + 0x2_0000_0000_0000_0000 >= r * 0x2_0000_0000_0000_0000
                + r * pow2(i)) by (nonlinear_arith)
                requires
                    r2 == r + (r * d) / two128(),
                    r * d == two128() * ((r * d) / two128()) + (r * d) % two128(),
                    (r * d) % two128() < two128(),
                    r * d >= r * (0x8000_0000_0000_0000 * pow2(i)),
                    two128() == 0x2_0000_0000_0000_0000 * 0x8000_0000_0000_0000,
            ;
            assert(r * d >= 0) by (nonlinear_arith)
                requires r >= 0, d >= 0x8000_0000_0000_0000 * pow2(i), pow2(i) > 0;
            lemma_div_pos_is_pos(r * d, two128());
        }
        lemma_exp2_loop_lower(r2, f, i);
        lemma_mod_breakdown(f, pow2(i) as int, 2);
        lemma_pow2_unfold(n);
        assert(pow2(i) * 2 == pow2(n));
        lemma_mod_bound(f, pow2(i) as int);
        lemma_mod_bound(f / (pow2(i) as int), 2);
        let lo = f % (pow2(i) as int);
        assert(exp2_loop(r, f, n) * 0x2_0000_0000_0000_0000 + n * 0x2_0000_0000_0000_0000
            >= r * 0x2_0000_0000_0000_0000 + r * (f % (pow2(n) as int))) by (nonlinear_arith)
            requires
                exp2_loop(r, f, n) == exp2_loop(r2, f, i),
                exp2_loop(r2, f, i) * 0x2_0000_0000_0000_0000 + i * 0x2_0000_0000_0000_0000
                    >= r2 * 0x2_0000_0000_0000_0000 + r2 * lo,
                bit == 1 ==> r2 * 0x2_0000_0000_0000_0000 + 0x2_0000_0000_0000_0000
                    >= r * 0x2_0000_0000_0000_0000 + r * pow2(i),
                bit != 1 ==> r2 == r,
                r2 >= r,
                r >= 0,
                lo >= 0,
                0 <= bit < 2,
                f % (pow2(n) as int) == pow2(i) * bit + lo,
                n == i + 1,
        ;
    }
}

/// `2^n >= n + 1`.
proof fn lemma_pow2_ge_succ(n: nat)
    ensures
        pow2(n) >= n + 1,
    decreases n,
{
    if n == 0 {
        lemma2_to64();
    } else {
        lemma_pow2_ge_succ((n - 1) as nat);
        lemma_pow2_unfold(n);
    }
}

/// `exp_2` of a non-negative exponent is at least `1 + x / 2`: with `x` read as a real
/// number, `2^x >= 1 + x / 2` (the true bound is `1 + x * ln(2)`), up to 2^-57 of
/// rounding.
pub proof fn law_exp2_lower(x: int)
    requires
        0 <= x < 63 * two64(),
    ensures
        2 * exp2_spec(x) + 0x100 >= 2 * two64() + x,
{
    let n = x / two64();
    let f = x % two64();
    lemma_fundamental_div_mod(x, two64());
    lemma_mod_bound(x, two64());
    lemma_div_pos_is_pos(x, two64());
    assert(n <= 62) by (nonlinear_arith)
        requires x == two64() * n + f, 0 <= f, x < 63 * two64(), two64() > 0;
    lemma_pow2_consts();
    lemma2_to64();
    lemma_exp2_loop_lower(two127(), f, 64);
    lemma_small_mod(f as nat, two64() as nat);
    let m = exp2_loop(two127(), f, 64);
    let s = (63 - n) as nat;
    let q = pow2(s) as int;
    let p = pow2(n as nat) as int;
    lemma_pow2_adds(n as nat, s);
    lemma2_to64_rest();
    assert((n as nat) + s == 63);
    assert(pow2(63) == 0x8000_0000_0000_0000);
    assert(p * q == 0x8000_0000_0000_0000);
    lemma_pow2_pos(s);
    lemma_pow2_ge_succ(n as nat);
    lemma_pow2_ge_succ(s);
    lemma_fundamental_div_mod(m, q);
    lemma_mod_bound(m, q);
    let e = m / q;
    assert(exp2_spec(x) == e);
    assert(2 * e + 0x100 >= 2 * two64() + x) by (nonlinear_arith)
        requires
            m * 0x2_0000_0000_0000_0000 + 64 * 0x2_0000_0000_0000_0000
                >= two127() * 0x2_0000_0000_0000_0000 + two127() * f,
            m == q * e + m % q,
            m % q < q,
            p * q == 0x8000_0000_0000_0000,
            p >= n + 1,
            q >= s + 1,
            q >= 1,
            p >= 1,
            s == 63 - n,
            0 <= n <= 62,
            0 <= f < two64(),
            x == two64() * n + f,
            two127() == 0x8000_0000_0000_0000 * two64(),
            two64() == 0x1_0000_0000_0000_0000,
    ;
}

/// `e^x` of a non-negative 64.64 number is at least `1 + x / 2`, as `exp` computes it:
/// `x * log2(e) >= x`, and `exp_2` of that is at least `1 + x / 2` (up to 2^-57).
pub proof fn law_exp_lower(x: int)
    requires
        0 <= x,
        exp_arg(x) < 63 * two64(),
    ensures
        2 * exp2_spec(exp_arg(x)) + 0x100 >= 2 * two64() + x,
{
    lemma_pow2_consts();
    assert(x * log2e_scaled() >= x * two128()) by (nonlinear_arith)
        requires x >= 0, log2e_scaled() >= two128();
    lemma_div_is_ordered(x * two128(), x * log2e_scaled(), two128());
    lemma_div_multiples_vanish_fancy_gen(x, 0, two128());
    law_exp2_lower(exp_arg(x));
}

/// The product loop of `exp_2` stays below the bound reached with all bits set.
proof fn lemma_exp2_loop_upper(r: int, f: int, n: nat)
    requires
        n <= 64,
        0 <= r <= exp2_bound(n),
    ensures
        exp2_loop(r, f, n) <= exp2_bound(0),
    decreases n,
{
    lemma_exp2_bounds();
    if n > 0 {
        let i = (n - 1) as nat;
        let d = exp2_d(i as u32);
        let bnd = exp2_bound(n);
        lemma_exp2_bound_unfold(i, bnd);
        lemma_exp2_bound_mono_step(i);
        let r2 = if (f / (pow2(i) as int)) % 2 == 1 { (r * (two128() + d)) / two128() } else { r };
        if (f / (pow2(i) as int)) % 2 == 1 {
            assert(r * (two128() + d) <= bnd * (two128() + d)) by (nonlinear_arith)
                requires r <= bnd, d >= 0, r >= 0;
            lemma_div_is_ordered(r * (two128() + d), bnd * (two128() + d), two128());
            assert(r * (two128() + d) >= 0) by (nonlinear_arith)
                requires r >= 0, d >= 0;
            lemma_div_pos_is_pos(r * (two128() + d), two128());
        }
        lemma_exp2_loop_upper(r2, f, i);
    }
}

/// `2^x` lies between the powers of two around it: for a 64.64 `x` in [-64, 63) with
/// integer part `n = floor(x)`, `2^n <= exp_2(x) < 2^(n + 1)` (raw values `2^(64 + n)`
/// and `2^(65 + n)`).
pub proof fn law_exp2_bracket(x: int)
    requires
        -64 * two64() <= x < 63 * two64(),
    ensures
        pow2((64 + x / two64()) as nat) <= exp2_spec(x) < pow2((65 + x / two64()) as nat),
{
    let n = x / two64();
    let f = x % two64();
    lemma_fundamental_div_mod(x, two64());
    lemma_mod_bound(x, two64());
    assert(-64 <= n <= 62) by (nonlinear_arith)
        requires x == two64() * n + f, 0 <= f < two64(), -64 * two64() <= x, x < 63 * two64(),
            two64() > 0;
    lemma_pow2_consts();
    lemma2_to64();
    lemma_exp2_bounds();
    lemma_exp2_bound_mono(64);
    lemma_exp2_loop_lower(two127(), f, 64);
    lemma_exp2_loop_upper(two127(), f, 64);
    let m = exp2_loop(two127(), f, 64);
    let s = (63 - n) as nat;
    let lo = (64 + n) as nat;
    lemma_pow2_adds(lo, s);
    lemma_pow2_adds(lo + 1, s);
    assert(lo + s == 127 && lo + 1 + s == 128);
    lemma_pow2_pos(s);
    let q = pow2(s) as int;
    assert(pow2(lo) * q == two127());
    assert(pow2(lo + 1) * q == two128());
    lemma_fundamental_div_mod(m, q);
    lemma_mod_bound(m, q);
    assert(exp2_spec(x) == m / q);
    assert(pow2(lo) <= m / q < pow2(lo + 1)) by (nonlinear_arith)
        requires
            two127() <= m < two128(),
            m == q * (m / q) + m % q,
            0 <= m % q < q,
            pow2(lo) * q == two127(),
            pow2(lo + 1) * q == two128(),
            q > 0,
    ;
    assert((65 + n) as nat == lo + 1);
}

/// With no fraction bits set, the product loop of `exp_2` leaves the mantissa alone.
proof fn lemma_exp2_loop_zero(r: int, n: nat)
    ensures
        exp2_loop(r, 0, n) == r,
    decreases n,
{
    if n > 0 {
        lemma_pow2_pos((n - 1) as nat);
        assert(0int / (pow2((n - 1) as nat) as int) == 0);
        lemma_exp2_loop_zero(r, (n - 1) as nat);
    }
}

/// The digits of the logarithm of the mantissa 1.0 are all 0.
proof fn lemma_log2_frac_one(n: nat)
    ensures
        log2_frac(two127(), n) == 0,
    decreases n,
{
    if n > 0 {
        lemma_pow2_consts();
        lemma_div_multiples_vanish_fancy_gen(two127(), 0, two127());
        assert(pow2(127) == two127());
        lemma_log2_frac_one((n - 1) as nat);
    }
}

/// The integer part of the binary logarithm of a positive 64.64 number, rounded down,
/// is the position of its highest set bit minus 64: the fraction digits stay below 1.0.
pub proof fn law_log2_integer_part(x: int)
    requires
        x > 0,
    ensures
        log2_spec(x) / two64() == msb_spec(x) - 64,
{
    let msb = msb_spec(x);
    lemma_log2_frac_bound(x * pow2((127 - msb) as nat), 64);
    lemma_pow2_consts();
    lemma_div_multiples_vanish_fancy_gen(msb - 64, log2_frac(x * pow2((127 - msb) as nat), 64), two64());
    lemma_basic_div(log2_frac(x * pow2((127 - msb) as nat), 64), two64());
}

/// The fraction digits of the logarithm of a 1.127 mantissa `u` in [1, 2) are at least
/// `u - 1` in value (`log2(1 + t) >= t` for `t` in [0, 1]), up to one unit of the last
/// digit and the rounding of the squarings:
/// `frac * 2^127 >= (u - 2^127) * 2^n - (2^127 + 2^n - 1)`.
proof fn lemma_log2_frac_lower(u: int, n: nat)
    requires
        two127() <= u < two128(),
    ensures
        log2_frac(u, n) * two127() + two127() + pow2(n) >= (u - two127()) * pow2(n) + 1,
    decreases n,
{
    lemma_pow2_consts();
    if n == 0 {
        lemma2_to64();
        assert(log2_frac(u, 0) == 0);
    } else {
        let i = (n - 1) as nat;
        let pp = pow2(i) as int;
        lemma_pow2_unfold(n);
        lemma_pow2_pos(i);
        let sq = u * u;
        let b: int = if sq >= 2 * two127() * two127() { 1 } else { 0 };
        let dv = pow2((127 + b) as nat) as int;
        let u2 = sq / dv;
        lemma_fundamental_div_mod(sq, dv);
        lemma_mod_bound(sq, dv);
        let d = u - two127();
        if b == 0 {
            assert(dv == two127());
            assert(two127() <= u2 < two128() && u2 - two127() >= 2 * d - 1) by (nonlinear_arith)
                requires
                    sq == u * u,
                    sq < 2 * two127() * two127(),
                    sq == dv * u2 + sq % dv,
                    0 <= sq % dv < dv,
                    dv == two127(),
                    two127() <= u < two128(),
                    two128() == 2 * two127(),
                    d == u - two127(),
            ;
            lemma_log2_frac_lower(u2, i);
            assert(log2_frac(u, n) == log2_frac(u2, i));
            assert(log2_frac(u, n) * two127() + two127() + pow2(n) >= (u - two127()) * pow2(n) + 1)
                by (nonlinear_arith)
                requires
                    log2_frac(u, n) == log2_frac(u2, i),
                    log2_frac(u2, i) * two127() + two127() + pp >= (u2 - two127()) * pp + 1,
                    u2 - two127() >= 2 * d - 1,
                    pow2(n) == 2 * pp,
                    pp > 0,
                    d == u - two127(),
            ;
        } else {
            assert(dv == two128());
            assert(two127() <= u2 < two128() && u2 >= 2 * u - two128() - 1) by (nonlinear_arith)
                requires
                    sq == u * u,
                    sq >= 2 * two127() * two127(),
                    sq == dv * u2 + sq % dv,
                    0 <= sq % dv < dv,
                    dv == two128(),
                    two127() <= u < two128(),
                    two128() == 2 * two127(),
            ;
            lemma_log2_frac_lower(u2, i);
            assert(log2_frac(u, n) == pp + log2_frac(u2, i));
            assert(log2_frac(u, n) * two127() + two127() + pow2(n) >= (u - two127()) * pow2(n) + 1)
                by (nonlinear_arith)
                requires
                    log2_frac(u, n) == pp + log2_frac(u2, i),
                    log2_frac(u2, i) * two127() + two127() + pp >= (u2 - two127()) * pp + 1,
                    u2 >= 2 * u - two128() - 1,
                    pow2(n) == 2 * pp,
                    pp > 0,
                    two128() == 2 * two127(),
            ;
        }
    }
}

/// The binary logarithm of a positive 64.64 number `x` exceeds its integer part
/// `msb - 64` by at least `x / 2^msb - 1`: with `x = 2^(msb - 64) * (1 + t)`,
/// `log_2(x) >= (msb - 64) + t`, since `log2(1 + t) >= t` for `t` in [0, 1] (up to
/// 2^-63). So the fraction digits are positive for every `x` at least `2^-63` above a
/// power of two.
pub proof fn law_log2_lower(x: int)
    requires
        0 < x < two127(),
    ensures
        (log2_spec(x) - (msb_spec(x) - 64) * two64() + 1) * 0x8000_0000_0000_0000 + 1
            >= x * pow2((127 - msb_spec(x)) as nat) - two127(),
{
    let m = msb_spec(x);
    lemma_msb_of_range(x);
    lemma_pow2_consts();
    assert(m <= 126) by {
        if m > 126 {
            lemma_pow2_increases(127, m);
        }
    }
    let s = (127 - m) as nat;
    lemma_pow2_adds(m, s);
    lemma_pow2_adds(m + 1, s);
    lemma_pow2_pos(s);
    let u = x * pow2(s);
    assert(two127() <= u < two128()) by (nonlinear_arith)
        requires pow2(m) <= x < pow2(m + 1), u == x * pow2(s), pow2(m) * pow2(s) == two127(),
            pow2(m + 1) * pow2(s) == two128(), pow2(s) > 0;
    lemma_log2_frac_lower(u, 64);
    let f = log2_frac(u, 64);
    assert(log2_spec(x) - (m - 64) * two64() == f);
    assert((f + 1) * 0x8000_0000_0000_0000 + 1 >= u - two127()) by (nonlinear_arith)
        requires
            f * two127() + two127() + two64() >= (u - two127()) * two64() + 1,
            two127() == 0x8000_0000_0000_0000 * two64(),
            two64() == 0x1_0000_0000_0000_0000,
    ;
}

/// `n` binary digits add up to less than `2^n`.
proof fn lemma_log2_frac_bound(ux: int, n: nat)
    ensures
        0 <= log2_frac(ux, n) < pow2(n),
    decreases n,
{
    if n == 0 {
        lemma2_to64();
    } else {
        let sq = ux * ux;
        let b: int = if sq >= 2 * two127() * two127() { 1 } else { 0 };
        lemma_log2_frac_bound(sq / (pow2((127 + b) as nat) as int), (n - 1) as nat);
        lemma_pow2_unfold(n);
        lemma_pow2_pos((n - 1) as nat);
        assert(0 <= b * pow2((n - 1) as nat) <= pow2((n - 1) as nat)) by (nonlinear_arith)
            requires 0 <= b <= 1, pow2((n - 1) as nat) > 0;
    }
}

/// The geometric mean of a non-negative number with itself with `gavg` is the number:
/// the only integer square root of `x * x` is `x`.
pub proof fn law_gavg_same(x: int, r: int)
    requires
        x >= 0,
        r >= 0,
        r * r <= x * x < (r + 1) * (r + 1),
    ensures
        r == x,
{
    if r < x {
        assert((r + 1) * (r + 1) <= x * x) by (nonlinear_arith) requires r + 1 <= x, r >= 0;
    } else if r > x {
        assert(x * x < r * r) by (nonlinear_arith) requires x < r, x >= 0;
    }
}

/// The 64.64 fixed-point library.
pub struct ABDK {}

impl ABDK {
    /// Converts a signed integer that a 64.64 number can hold, -2^63 <= x < 2^63, to that
    /// 64.64 number, `x * 2^64`.
    pub fn from_int(&self, x: I256) -> (r: i128)
        requires
            -0x8000_0000_0000_0000 <= x.val() < 0x8000_0000_0000_0000,
        ensures
            r == x.val() * two64(),
    {
        let xi = x.to_i128();
        xi * 0x1_0000_0000_0000_0000
    }

    /// Converts a 64.64 number to an integer, rounding down.
    pub fn to_int(&self, x: i128) -> (r: i64)
        ensures
            r == (x as int) / two64(),
    {
        proof {
            lemma_pow2_consts();
        }
        let r = floor_shr_to_i128(x < 0, U256::from_u128(abs_i128(x)), 64);
        r as i64
    }

    /// Converts an unsigned integer that a 64.64 number can hold, x < 2^63, to that 64.64
    /// number, `x * 2^64`.
    pub fn from_uint(&self, x: U256) -> (r: i128)
        requires
            x.val() < 0x8000_0000_0000_0000,
        ensures
            r == x.val() * two64(),
    {
        (x.lo as i128) * 0x1_0000_0000_0000_0000
    }

    /// Converts a non-negative 64.64 number to an unsigned integer, rounding down.
    pub fn to_uint(&self, x: i128) -> (r: u64)
        requires
            x >= 0,
        ensures
            r == (x as int) / two64(),
    {
        ((x as u128) / 0x1_0000_0000_0000_0000) as u64
    }

    /// Converts a signed 128.128 number to 64.64, rounding down.
    pub fn from_128x128(&self, x: I256) -> (r: i128)
        requires
            in_64x64(x.val() / two64()),
        ensures
            r == x.val() / two64(),
    {
        proof {
            lemma_pow2_consts();
        }
        floor_shr_to_i128(x.is_negative(), x.abs(), 64)
    }

    /// Converts a 64.64 number to signed 128.128.
    pub fn to_128x128(&self, x: i128) -> (r: I256)
        ensures
            r.val() == x * two64(),
    {
        let m = U256::from_u128(abs_i128(x)).shl(64);
        proof {
            lemma_pow2_consts();
            assert(abs(x as int) * two64() < two256());
            lemma_small_mod((abs(x as int) * two64()) as nat, two256() as nat);
        }
        I256::from_sign_mag(x < 0, m)
    }

    /// `x + y`, which must be a 64.64 number.
    pub fn add(&self, x: i128, y: i128) -> (r: i128)
        requires
            in_64x64(x + y),
        ensures
            r == x + y,
    {
        x + y
    }

    /// `x - y`, which must be a 64.64 number.
    pub fn sub(&self, x: i128, y: i128) -> (r: i128)
        requires
            in_64x64(x - y),
        ensures
            r == x - y,
    {
        x - y
    }

    /// `x * y` in 64.64, rounded down; the result must be a 64.64 number.
    pub fn mul(&self, x: i128, y: i128) -> (r: i128)
        requires
            in_64x64((x * y) / two64()),
        ensures
            r == (x * y) / two64(),
    {
        let p = mul_u128(abs_i128(x), abs_i128(y));
        let neg = (x < 0) != (y < 0);
        proof {
            lemma_pow2_consts();
            lemma_signed_product(x as int, y as int);
        }
        floor_shr_to_i128(neg, p, 64)
    }

    /// `x / y` in 64.64, rounded toward zero; `y` must not be 0 and the result must be a
    /// 64.64 number.
    pub fn div(&self, x: i128, y: i128) -> (r: i128)
        requires
            y != 0,
            in_64x64(trunc_div(x * two64(), y as int)),
        ensures
            r == trunc_div(x * two64(), y as int),
    {
        let m = U256::from_u128(abs_i128(x)).shl(64);
        let d = U256::from_u128(abs_i128(y));
        proof {
            lemma_pow2_consts();
            assert(abs(x as int) * two64() < two256());
            lemma_small_mod((abs(x as int) * two64()) as nat, two256() as nat);
            assert(abs(x * two64()) == abs(x as int) * two64());
        }
        trunc_div_to_i128((x < 0) != (y < 0) && x != 0, m, d)
    }

    /// `-x`; `x` must not be the smallest 64.64 number.
    pub fn neg(&self, x: i128) -> (r: i128)
        requires
            x != min_64x64(),
        ensures
            r == -x,
    {
        -x
    }

    /// `|x|`; `x` must not be the smallest 64.64 number.
    #[allow(non_snake_case)]
    pub fn ABS(&self, x: i128) -> (r: i128)
        requires
            x != min_64x64(),
        ensures
            r == abs(x as int),
    {
        if x < 0 {
            -x
        } else {
            x
        }
    }

    /// `1 / x` in 64.64, rounded toward zero; `x` must not be 0 and the result must be a
    /// 64.64 number.
    pub fn inv(&self, x: i128) -> (r: i128)
        requires
            x != 0,
            in_64x64(trunc_div(two128(), x as int)),
        ensures
            r == trunc_div(two128(), x as int),
    {
        trunc_div_to_i128(x < 0, U256 { hi: 1, lo: 0 }, U256::from_u128(abs_i128(x)))
    }

    /// `x * y` for a 64.64 number `x >= 0` and an unsigned 256-bit integer `y`, rounded
    /// down; when `y` is 0 the result is 0 whatever `x` is.
    pub fn mulu(&self, x: i128, y: U256) -> (r: U256)
        requires
            y.val() == 0 || (x >= 0 && (x * y.val()) / two64() < two256()),
        ensures
            r.val() == (x * y.val()) / two64(),
    {
        if y.is_zero() {
            proof {
                assert(x * y.val() == 0) by (nonlinear_arith) requires y.val() == 0;
            }
            return U256 { hi: 0, lo: 0 };
        }
        let xu = x as u128;
        let lo_full = mul_u128(xu, y.lo);
        let lo = lo_full.shr(64);
        let hi = mul_u128(xu, y.hi);
        proof {
            lemma_pow2_consts();
            let hv = hi.val();
            let lv = lo_full.val();
            assert(x * y.val() == (hv * two64()) * two64() + lv) by (nonlinear_arith)
                requires
                    hv == x * y.hi,
                    lv == x * y.lo,
                    y.val() == y.hi * two128() + y.lo,
                    two128() == two64() * two64(),
            ;
            lemma_div_multiples_vanish_fancy_gen(hv * two64(), lv, two64());
            assert(lv / two64() >= 0) by {
                lemma_div_pos_is_pos(lv, two64());
            }
            lemma_small_mod((hv * two64()) as nat, two256() as nat);
        }
        let hi = hi.shl(64);
        hi.add(lo)
    }

    /// `x * y` for a 64.64 number `x` and a signed 256-bit integer `y`, rounded toward
    /// zero. For the smallest `x` the product is exact and `y` must lie in
    /// [-(2^192 - 1), 2^192]; otherwise the product must fit in 256 bits.
    pub fn muli(&self, x: i128, y: I256) -> (r: I256)
        requires
            x == min_64x64() ==> -(two192() - 1) <= y.val() <= two192(),
            x != min_64x64() ==> (abs(x as int) * abs(y.val())) / two64() <= if (x < 0) != (
                y.val() < 0) {
                two256() / 2
            } else {
                two256() / 2 - 1
            },
        ensures
            r.val() == trunc_div(x * y.val(), two64()),
    {
        proof {
            lemma_pow2_consts();
            lemma_abs_mul(x as int, y.val());
        }
        if x == i128::MIN {
            let ya = y.abs();
            let m = ya.shl(63);
            proof {
                lemma2_to64_rest();
                assert(ya.val() * pow2(63) < two256()) by (nonlinear_arith)
                    requires ya.val() <= two192(), pow2(63) == 0x8000_0000_0000_0000int;
                lemma2_to64();
                lemma_small_mod((ya.val() * pow2(63)) as nat, two256() as nat);
                assert(two127() * ya.val() == (ya.val() * pow2(63)) * two64()) by (nonlinear_arith)
                    requires pow2(63) == 0x8000_0000_0000_0000int;
                lemma_div_multiples_vanish_fancy_gen(ya.val() * pow2(63), 0, two64());
            }
            I256::from_sign_mag(!y.is_negative() && !ya.is_zero(), m)
        } else {
            let neg = (x < 0) != y.is_negative();
            let xa = abs_i128(x);
            let ya = y.abs();
            let abs_result = self.mulu(xa as i128, ya);
            I256::from_sign_mag(neg && !abs_result.is_zero(), abs_result)
        }
    }

    /// `x * 2^64 / y` for unsigned 256-bit integers, rounded down; `y` must not be 0 and
    /// the quotient must be below 2^128.
    pub fn divuu(&self, x: U256, y: U256) -> (r: u128)
        requires
            y.val() > 0,
            (x.val() * two64()) / y.val() < two128(),
        ensures
            r == (x.val() * two64()) / y.val(),
    {
        proof {
            lemma_pow2_consts();
            lemma_div_pos_is_pos(x.val() * two64(), y.val());
        }
        let result: U256;
        if x.le(U256 { hi: 0xffff_ffff_ffff_ffff, lo: u128::MAX }) {
            proof {
                lemma_small_mod((x.val() * two64()) as nat, two256() as nat);
            }
            result = x.shl(64).div(y);
        } else {
            let r0 = divuu_estimate(x, y);
            result = divuu_correct(x, y, r0);
        }
        proof {
            assert(result.hi == 0);
        }
        result.lo
    }

    /// `x / y` for signed 256-bit integers, as a 64.64 number rounded toward zero; `y`
    /// must not be 0 and the result must be a 64.64 number.
    pub fn divi(&self, x: I256, y: I256) -> (r: i128)
        requires
            y.val() != 0,
            in_64x64(trunc_div(x.val() * two64(), y.val())),
        ensures
            r == trunc_div(x.val() * two64(), y.val()),
    {
        let neg = x.is_negative() != y.is_negative();
        let xa = x.abs();
        let ya = y.abs();
        proof {
            assert(abs(x.val() * two64()) == xa.val() * two64());
            lemma_div_pos_is_pos(xa.val() * two64(), ya.val());
        }
        let absolute_result = self.divuu(xa, ya);
        if neg {
            if absolute_result == 0x8000_0000_0000_0000_0000_0000_0000_0000 {
                i128::MIN
            } else {
                -(absolute_result as i128)
            }
        } else {
            absolute_result as i128
        }
    }

    /// `x / y` for unsigned 256-bit integers, as a 64.64 number rounded down; `y` must not
    /// be 0 and the result must be at most the largest 64.64 number.
    pub fn divu(&self, x: U256, y: U256) -> (r: i128)
        requires
            y.val() != 0,
            (x.val() * two64()) / y.val() <= max_64x64(),
        ensures
            r == (x.val() * two64()) / y.val(),
    {
        let result = self.divuu(x, y);
        result as i128
    }

    /// The integer square root of an unsigned 256-bit integer: a power-of-two estimate
    /// refined by seven Newton steps.
    #[verifier::rlimit(40)]
    pub fn sqrtu(&self, x: U256) -> (r: u128)
        ensures
            r * r <= x.val() < (r + 1) * (r + 1),
    {
        if x.is_zero() {
            return 0;
        }
        let ghost xv = x.val();
        let ghost s = lemma_isqrt_exists(xv as nat) as int;
        proof {
            lemma_pow2_consts();
            lemma2_to64();
            assert(xv / (1int * 1int) == xv);
            lemma_pow2_adds(128, 128);
            assert(s >= 1) by (nonlinear_arith) requires xv < (s + 1) * (s + 1), xv >= 1, s >= 0;
            assert(s < two128()) by (nonlinear_arith)
                requires s * s <= xv, xv < two256(), two256() == two128() * two128(), s >= 0;
        }
        let (xx, r) = sqrt_step(x, x, 1, 64);
        let (xx, r) = sqrt_step(x, xx, r, 32);
        let (xx, r) = sqrt_step(x, xx, r, 16);
        let (xx, r) = sqrt_step(x, xx, r, 8);
        let (xx, r) = sqrt_step(x, xx, r, 4);
        let (xx, r) = sqrt_step(x, xx, r, 2);
        proof {
            assert(r * r > 0) by (nonlinear_arith) requires r >= 1;
            lemma_fundamental_div_mod(xv, r * r);
            lemma_mod_bound(xv, r * r);
            assert(pow2(4) == 16);
            assert(r <= 0x4000_0000_0000_0000_0000_0000_0000_0000int) by (nonlinear_arith)
                requires r * r * 16 <= two256(), r >= 1, two256() == two128() * two128();
        }
        let r = if xx.le(U256 { hi: 0, lo: 3 }) {
            proof {
                assert(r * r <= xv && xv < 4 * r * r) by (nonlinear_arith)
                    requires xv == (r * r) * xx.val() + xv % (r * r), 0 <= xv % (r * r) < r * r,
                        1 <= xx.val() <= 3;
            }
            r
        } else {
            proof {
                assert((2 * r) * (2 * r) <= xv && xv < 4 * (2 * r) * (2 * r)) by (nonlinear_arith)
                    requires xv == (r * r) * xx.val() + xv % (r * r), 0 <= xv % (r * r) < r * r,
                        4 <= xx.val() < 16;
            }
            r * 2
        };
        let r = U256::from_u128(r);
        proof {
            lemma_newton_first(xv, s, r.val());
            assert(4 * r.val() * r.val() == r.val() * (4 * r.val())) by (nonlinear_arith);
            lemma_div_strictly_bounded(xv, r.val(), 4 * r.val());
        }
        let r = newton(x, r);
        proof {
            lemma_newton_bounds(xv, s, r.val(), 4);
            lemma_newton_step(xv, s, r.val(), 4);
        }
        let r = newton(x, r);
        proof {
            lemma_newton_bounds(xv, s, r.val(), 2 * 4int * 4int);
            lemma_newton_step(xv, s, r.val(), 32);
        }
        let r = newton(x, r);
        proof {
            lemma_newton_bounds(xv, s, r.val(), 2 * 32int * 32int);
            lemma_newton_step(xv, s, r.val(), 2048);
        }
        let r = newton(x, r);
        proof {
            lemma_newton_bounds(xv, s, r.val(), 2 * 2048int * 2048int);
            lemma_newton_step(xv, s, r.val(), 0x80_0000);
        }
        let r = newton(x, r);
        proof {
            lemma_newton_bounds(xv, s, r.val(), 2 * 0x80_0000int * 0x80_0000int);
            lemma_newton_step(xv, s, r.val(), 0x8000_0000_0000);
        }
        let r = newton(x, r);
        proof {
            lemma_newton_bounds(xv, s, r.val(), 2 * 0x8000_0000_0000int * 0x8000_0000_0000int);
            lemma_newton_last(xv, s, r.val());
        }
        let r = newton(x, r);
        let r1 = x.div(r);
        proof {
            lemma_fundamental_div_mod(xv, r.val());
            lemma_mod_bound(xv, r.val());
            if r.val() == s {
                assert(r1.val() >= s) by (nonlinear_arith)
                    requires xv == s * r1.val() + xv % s, xv % s < s, s * s <= xv, s >= 1;
            } else {
                assert(r1.val() == s) by (nonlinear_arith)
                    requires
                        xv == (s + 1) * r1.val() + xv % (s + 1),
                        0 <= xv % (s + 1) < s + 1,
                        xv >= s * (s + 1),
                        xv < (s + 1) * (s + 1),
                        s >= 1,
                ;
            }
        }
        if r.lt(r1) {
            r.lo
        } else {
            r1.lo
        }
    }

    /// The square root of a non-negative 64.64 number, rounded down: the integer square
    /// root of `x * 2^64`.
    pub fn sqrt(&self, x: i128) -> (r: i128)
        requires
            x >= 0,
        ensures
            r * r <= x * two64() < (r + 1) * (r + 1),
    {
        let v = U256::from_u128(x as u128).shl(64);
        proof {
            lemma_pow2_consts();
            assert(0 <= x * two64() < two256()) by (nonlinear_arith)
                requires 0 <= x < two127(), two256() == two128() * two128(),
                    two128() == 2 * two127(), two64() < two128();
            lemma_small_mod((x * two64()) as nat, two256() as nat);
        }
        let r = self.sqrtu(v);
        proof {
            assert(r < two127()) by (nonlinear_arith)
                requires r * r <= x * two64(), x * two64() < two127() * two64(), r >= 0,
                    two127() == two64() * 0x8000_0000_0000_0000int;
        }
        r as i128
    }

    /// The geometric mean of `x` and `y`: the integer square root of `x * y`, which must
    /// be non-negative and below 2^254.
    pub fn gavg(&self, x: i128, y: i128) -> (r: i128)
        requires
            0 <= x * y < two256() / 4,
        ensures
            r * r <= x * y < (r + 1) * (r + 1),
    {
        let m = mul_u128(abs_i128(x), abs_i128(y));
        proof {
            lemma_abs_mul(x as int, y as int);
        }
        let r = self.sqrtu(m);
        proof {
            assert(r < two127()) by (nonlinear_arith)
                requires r * r <= x * y, x * y < two256() / 4, r >= 0,
                    two256() == two128() * two128();
        }
        r as i128
    }

    /// `x^y` for a 64.64 number `x` and an unsigned 256-bit integer `y`, by repeated
    /// squaring with 128-bit mantissas and exponents; the base and result exponents must
    /// stay below 64 and the result must be a 64.64 number (always so for `|x| <= 1`).
    pub fn pow(&self, x: i128, y: U256) -> (r: i128)
        requires
            pow_result(x as int, y.val() as nat) is Some,
        ensures
            r == pow_result(x as int, y.val() as nat).unwrap(),
    {
        let negative = x < 0 && y.lo % 2 == 1;
        let ax: u128 = abs_i128(x);
        let ghost n = pow_norm(ax as int);
        proof {
            lemma_pow2_consts();
            lemma2_to64();
        }
        let bx: u128;
        let xs0: u32;
        if ax > 0x1_0000_0000_0000_0000 {
            let m = msb_u128(ax);
            proof {
                lemma_msb_spec(ax as int, m as nat);
                assert(m >= 64) by {
                    if m < 64 {
                        lemma_pow2_increases((m + 1) as nat, 64);
                    }
                }
                lemma_pow2_adds((m + 1) as nat, (127 - m) as nat);
                lemma_pow2_pos((127 - m) as nat);
                assert(ax * pow2((127 - m) as nat) < two128()) by (nonlinear_arith)
                    requires ax < pow2((m + 1) as nat), pow2((m + 1) as nat) * pow2((127 - m) as nat)
                        == two128(), pow2((127 - m) as nat) > 0;
            }
            bx = ax * pow2_u128(127 - m);
            xs0 = m - 64;
        } else {
            bx = ax * 0x8000_0000_0000_0000;
            xs0 = 0;
        }
        proof {
            assert(n == (bx as int, xs0 as int));
        }
        let mut abs_result = U256 { hi: 1, lo: 0 };
        let mut result_shift: u32 = 0;
        let mut abs_x = U256::from_u128(bx);
        let mut abs_x_shift: u32 = xs0;
        let mut y = y;
        let ghost y0 = y.val();
        let ghost fin = pow_steps(two128(), 0, bx as int, xs0 as int, y0 as nat).unwrap();
        proof {
            assert(y0 % 2 == (y.lo % 2) as int) by {
                lemma_mod_multiples_vanish(y.hi * 0x8000_0000_0000_0000_0000_0000_0000_0000int, y.lo as int, 2);
            }
            lemma_pow_steps_rs_grows(two128(), 0, bx as int, xs0 as int, y0 as nat);
        }
        while !y.is_zero()
            invariant
                abs_result.val() <= two128(),
                abs_x.val() < two128(),
                abs_x_shift < 128,
                pow_steps(abs_result.val(), result_shift as int, abs_x.val(), abs_x_shift as int, y.val() as nat)
                    == Some(fin),
                result_shift <= fin.1 < 64,
                pow2(1) == 2,
                pow2(127) == two127(),
            decreases y.val(),
        {
            let ghost yv = y.val();
            let ghost a_old = abs_result.val();
            let ghost rs_old = result_shift as int;
            let ghost b_old = abs_x.val();
            let ghost bs_old = abs_x_shift as int;
            proof {
                assert(abs_x_shift < 64);
                assert(y.val() % 2 == y.lo % 2) by {
                    lemma_mod_multiples_vanish(y.hi * 0x8000_0000_0000_0000_0000_0000_0000_0000int, y.lo as int, 2);
                }
                assert(abs_x.hi == 0);
                assert(a_old * b_old < two256()) by (nonlinear_arith)
                    requires a_old <= two128(), b_old < two128(), a_old >= 0, b_old >= 0,
                        two256() == two128() * two128();
                assert(a_old * b_old / two127() < 2 * two128()) by {
                    lemma_div_strictly_bounded(a_old * b_old, two127(), 2 * two128());
                }
                assert(b_old * b_old / two127() < 2 * two128()) by {
                    assert(b_old * b_old < two256()) by (nonlinear_arith)
                        requires b_old < two128(), b_old >= 0, two256() == two128() * two128();
                    lemma_div_strictly_bounded(b_old * b_old, two127(), 2 * two128());
                }
                lemma_div_pos_is_pos(a_old * b_old, two127());
            }
            if y.lo % 2 != 0 {
                let p = mul_small(abs_result, abs_x.lo).shr(127);
                if (U256 { hi: 1, lo: 0 }).lt(p) {
                    abs_result = p.shr(1);
                    result_shift = result_shift + abs_x_shift + 1;
                } else {
                    abs_result = p;
                    result_shift = result_shift + abs_x_shift;
                }
            }
            let q = mul_u128(abs_x.lo, abs_x.lo).shr(127);
            if !q.lt(U256 { hi: 1, lo: 0 }) {
                abs_x = q.shr(1);
                abs_x_shift = abs_x_shift * 2 + 1;
            } else {
                abs_x = q;
                abs_x_shift = abs_x_shift * 2;
            }
            y = y.shr(1);
            proof {
                assert(pow_steps(a_old, rs_old, b_old, bs_old, yv as nat) == pow_steps(
                    abs_result.val(),
                    result_shift as int,
                    abs_x.val(),
                    abs_x_shift as int,
                    y.val() as nat,
                ));
                lemma_pow_steps_rs_grows(abs_result.val(), result_shift as int, abs_x.val(), abs_x_shift as int, y.val() as nat);
            }
        }
        proof {
            assert(fin == (abs_result.val(), result_shift as int));
            lemma_pow2_pos((64 - result_shift) as nat);
            lemma_pow2_increases(1, (64 - result_shift) as nat);
            lemma_div_is_ordered_by_denominator(abs_result.val(), 2, pow2((64 - result_shift) as nat) as int);
        }
        let m = abs_result.shr(64 - result_shift);
        proof {
            assert(m.val() <= two127());
            assert(m.hi == 0);
        }
        if negative {
            if m.lo == 0x8000_0000_0000_0000_0000_0000_0000_0000 {
                i128::MIN
            } else {
                -(m.lo as i128)
            }
        } else {
            m.lo as i128
        }
    }

    /// The binary logarithm of a positive 64.64 number: the integer part from the
    /// highest set bit, then 64 fractional bits by repeated squaring.
    pub fn log_2(&self, x: i128) -> (r: i128)
        requires
            x > 0,
        ensures
            r == log2_spec(x as int),
            -64 * two64() <= r < 64 * two64(),
    {
        let msb = msb_u128(x as u128);
        proof {
            lemma_msb_spec(x as int, msb as nat);
            lemma_pow2_consts();
            if msb > 126 {
                lemma_pow2_increases(127, msb as nat);
            }
            lemma_pow2_adds((msb + 1) as nat, (127 - msb) as nat);
            lemma_pow2_adds(msb as nat, (127 - msb) as nat);
            lemma_pow2_pos((127 - msb) as nat);
            assert(x * pow2((127 - msb) as nat) < two128()) by (nonlinear_arith)
                requires
                    x < pow2((msb + 1) as nat),
                    pow2((msb + 1) as nat) * pow2((127 - msb) as nat) == pow2(128),
                    pow2(128) == two128(),
                    pow2((127 - msb) as nat) > 0,
            ;
            assert(x * pow2((127 - msb) as nat) >= two127()) by (nonlinear_arith)
                requires
                    x >= pow2(msb as nat),
                    pow2(msb as nat) * pow2((127 - msb) as nat) == pow2(127),
                    pow2(127) == two127(),
                    pow2((127 - msb) as nat) > 0,
            ;
            lemma_small_mod((x * pow2((127 - msb) as nat)) as nat, two256() as nat);
        }
        let mut result: i128 = ((msb as i128) - 64) * 0x1_0000_0000_0000_0000;
        let mut ux = U256::from_u128(x as u128).shl(127 - msb);
        let mut bit: u64 = 0x8000_0000_0000_0000;
        let ghost ux0 = ux.val();
        let ghost mut n: nat = 64;
        let ghost mut acc: int = 0;
        proof {
            lemma2_to64();
            lemma2_to64_rest();
            lemma_pow2_adds(127, 128);
            lemma_pow2_adds(127, 1);
        }
        while bit > 0
            invariant
                two127() <= ux.val() < two128(),
                n <= 64,
                (bit == 0) == (n == 0),
                n > 0 ==> bit == pow2((n - 1) as nat),
                result == ((msb as int) - 64) * two64() + acc,
                0 <= acc <= two64() - pow2(n),
                msb <= 126,
                log2_frac(ux0, 64) == acc + log2_frac(ux.val(), n),
                pow2(64) == two64(),
                pow2(255) == 2 * two127() * two127(),
                pow2(128) == two128(),
                pow2(127) == two127(),
                pow2(1) == 2,
                pow2(0) == 1,
            decreases n,
        {
            let sq = mul_u128(ux.lo, ux.lo);
            let b = sq.shr(255);
            let ghost uxv = ux.val();
            proof {
                assert(sq.val() >= two127() * two127()) by (nonlinear_arith)
                    requires sq.val() == ux.lo * ux.lo, ux.lo >= two127();
                assert(sq.val() < 4 * two127() * two127()) by (nonlinear_arith)
                    requires sq.val() == ux.lo * ux.lo, ux.lo < two128(), two128() == 2 * two127(),
                        ux.lo >= 0;
                lemma_div_is_ordered(sq.val(), 4 * two127() * two127() - 1, 2 * two127() * two127());
                if sq.val() >= 2 * two127() * two127() {
                    lemma_div_is_ordered(2 * two127() * two127(), sq.val(), 2 * two127() * two127());
                    lemma_div_by_self(2 * two127() * two127());
                    lemma_div_strictly_bounded(sq.val(), 2 * two127() * two127(), 2);
                    assert(b.val() == 1);
                } else {
                    lemma_basic_div(sq.val(), 2 * two127() * two127());
                    assert(b.val() == 0);
                }
            }
            let shift: u32 = 127 + (b.lo as u32);
            ux = sq.shr(shift);
            proof {
                lemma_pow2_unfold(128);
                if sq.val() >= 2 * two127() * two127() {
                    lemma_div_is_ordered(2 * two127() * two127(), sq.val(), two128());
                    lemma_div_strictly_bounded(sq.val(), two128(), two128());
                    assert(2 * two127() * two127() / two128() == two127());
                } else {
                    lemma_div_is_ordered(two127() * two127(), sq.val(), two127());
                    lemma_div_strictly_bounded(sq.val(), two127(), two128());
                    assert(two127() * two127() / two127() == two127());
                }
                assert(log2_frac(uxv, n) == b.lo * pow2((n - 1) as nat) + log2_frac(ux.val(), (n - 1) as nat));
                lemma_pow2_unfold(n);
            }
            proof {
                assert(0 <= bit * b.lo <= bit) by (nonlinear_arith) requires b.lo <= 1, bit >= 0;
            }
            result = result + (bit as i128) * (b.lo as i128);
            proof {
                acc = acc + bit * b.lo;
                n = (n - 1) as nat;
                lemma_u64_shr_is_div(bit, 1);
                if n > 0 {
                    lemma_pow2_unfold(n);
                }
            }
            bit = bit >> 1;
        }
        proof {
            assert(log2_frac(ux.val(), 0) == 0);
        }
        result
    }

    /// The natural logarithm of a positive 64.64 number: `log_2(x) * ln(2)`, rounded
    /// down.
    pub fn ln(&self, x: i128) -> (r: i128)
        requires
            x > 0,
        ensures
            r == (log2_spec(x as int) * ln2_scaled()) / two128(),
    {
        let v = self.log_2(x);
        let m = mul_u128(abs_i128(v), 0xb172_17f7_d1cf_79ab_c9e3_b398_03f2_f6af);
        proof {
            lemma_pow2_consts();
            lemma_signed_product(v as int, ln2_scaled());
            lemma_div_by_multiple_bound(abs(v as int), ln2_scaled(), 64 * two64(), two128());
            if v < 0 {
                lemma_floor_div_neg(abs(v as int) * ln2_scaled(), two128());
            }
            assert(abs(v as int) * ln2_scaled() >= 0) by (nonlinear_arith)
                requires abs(v as int) >= 0;
            lemma_div_pos_is_pos(abs(v as int) * ln2_scaled(), two128());
        }
        floor_shr_to_i128(v < 0, m, 128)
    }

    /// `2^x` for a 64.64 number `x < 63.0`: 0 below -64.0; otherwise the product of
    /// `2^(2^(i - 64))` over the set fraction bits `i`, shifted by the integer part.
    pub fn exp_2(&self, x: i128) -> (r: i128)
        requires
            x < 63 * two64(),
        ensures
            r == if x < -64 * two64() { 0 } else { exp2_spec(x as int) },
            0 <= r <= max_64x64(),
    {
        if x < -0x40_0000_0000_0000_0000 {
            return 0;
        }
        let f = i128_to_u128_wrapping(x) % 0x1_0000_0000_0000_0000;
        let mut result: u128 = 0x8000_0000_0000_0000_0000_0000_0000_0000;
        let mut n: u32 = 64;
        proof {
            lemma_mod_breakdown_any(x as int);
            lemma_exp2_bounds();
            lemma_exp2_bound_mono(64);
        }
        while n > 0
            invariant
                n <= 64,
                result <= exp2_bound(n as nat),
                exp2_loop(result as int, f as int, n as nat) == exp2_loop(two127(), f as int, 64),
                forall|k: nat| k <= 64 ==> #[trigger] exp2_bound(k) <= exp2_bound(0),
                exp2_bound(0) < two128(),
                forall|i: u32| i < 64 ==> 0 <= #[trigger] exp2_d(i) < two128(),
            decreases n,
        {
            let i = n - 1;
            let p = pow2_u128(i);
            let ghost r_old = result as int;
            let ghost bnd = exp2_bound(n as nat);
            let ghost d = exp2_d(i);
            proof {
                lemma_pow2_pos(i as nat);
                lemma_exp2_bound_unfold(i as nat, bnd);
                lemma_exp2_bound_mono(i as nat);
                assert(r_old * (two128() + d) <= bnd * (two128() + d)) by (nonlinear_arith)
                    requires r_old <= bnd, d >= 0, r_old >= 0;
                lemma_div_is_ordered(r_old * (two128() + d), bnd * (two128() + d), two128());
                assert(r_old * (two128() + d) == r_old * two128() + r_old * d) by (nonlinear_arith);
                lemma_div_multiples_vanish_fancy_gen(r_old, r_old * d, two128());
            }
            if (f / p) % 2 == 1 {
                let h = mul_hi(result, exp2_d_exec(i));
                result = result + h;
            } else {
                proof {
                    lemma_exp2_bound_mono_step(i as nat);
                }
            }
            n = i;
        }
        proof {
            lemma_pow2_consts();
        }
        let q = floor_shr_to_i128(x < 0, U256::from_u128(abs_i128(x)), 64);
        proof {
            assert(result as int == exp2_loop(two127(), (x as int) % two64(), 64));
        }
        proof {
            lemma_div_is_ordered(-64 * two64(), x as int, two64());
            lemma_div_multiples_vanish_fancy_gen(-64, 0, two64());
            lemma_div_is_ordered(x as int, 63 * two64() - 1, two64());
            lemma_fundamental_div_mod_converse(63 * two64() - 1, two64(), 62, two64() - 1);
        }
        let sh = 63 - q;
        proof {
            lemma_u128_shr_is_div(result, sh as u128);
            lemma_pow2_increases(1, sh as nat);
            lemma2_to64();
            lemma_div_is_ordered_by_denominator(result as int, 2, pow2(sh as nat) as int);
        }
        let result = result >> (sh as u32);
        result as i128
    }

    /// `e^x` for a 64.64 number `x < 64.0`: 0 below -64.0, otherwise `exp_2` of
    /// `x * log2(e)`, which must stay below 63.0.
    pub fn exp(&self, x: i128) -> (r: i128)
        requires
            x < 64 * two64(),
            x >= -64 * two64() ==> exp_arg(x as int) < 63 * two64(),
        ensures
            r == if x < -64 * two64() || exp_arg(x as int) < -64 * two64() {
                0
            } else {
                exp2_spec(exp_arg(x as int))
            },
    {
        if x < -0x40_0000_0000_0000_0000 {
            return 0;
        }
        let m = mul_u128(abs_i128(x), 0x7154_7652_b82f_e177_7d0f_fda0_d23a_7d12);
        let ghost d = log2e_scaled() - two128();
        proof {
            lemma_pow2_consts();
            lemma_signed_product(x as int, d);
            lemma_div_by_multiple_bound(abs(x as int), d, 64 * two64(), two128());
            if x < 0 {
                lemma_floor_div_neg(abs(x as int) * d, two128());
            }
            assert(abs(x as int) * d >= 0) by (nonlinear_arith)
                requires abs(x as int) >= 0, d >= 0;
            lemma_div_pos_is_pos(abs(x as int) * d, two128());
        }
        let t = floor_shr_to_i128(x < 0, m, 128);
        proof {
            assert(x * log2e_scaled() == x * two128() + x * d) by (nonlinear_arith)
                requires d == log2e_scaled() - two128();
            lemma_div_multiples_vanish_fancy_gen(x as int, x * d, two128());
        }
        self.exp_2(x + t)
    }

    /// The average of `x` and `y`, rounded down.
    pub fn avg(&self, x: i128, y: i128) -> (r: i128)
        ensures
            r == (x + y) / 2int,
    {
        let xo = offset_i128(x);
        let yo = offset_i128(y);
        let a = xo / 2 + yo / 2 + (xo % 2 + yo % 2) / 2;
        unoffset_i128(a)
    }
}

} // verus!

//! A radix-2 fast Fourier transform on 18-decimal fixed-point complex numbers, with its
//! twiddle factor taken from a sine table.

use vstd::prelude::*;
use vstd::arithmetic::div_mod::*;
use crate::wide::{U256, I256, two256, checked_mul_u256, lemma_pow2_consts};
use vstd::arithmetic::power2::*;
use crate::trig::TrignometryParams;
use crate::abdk::{trunc_div, lemma_abs_mul};
use crate::trig::Trigonometry;

verus! {

/// `floor(log2(n))` for `n >= 1`, and 0 for `n = 0`: how often `n` can be halved before
/// it drops to 1 or below.
pub open spec fn log2_floor(n: int) -> int
    decreases n,
{
    if n <= 1 {
        0
    } else {
        1 + log2_floor(n / 2)
    }
}

/// The fixed-point scale: 10^18 stands for 1.
pub open spec fn scale() -> int {
    1_000_000_000_000_000_000
}

/// Whether `v` fits in a signed 256-bit integer.
pub open spec fn fits(v: int) -> bool {
    -two256() / 2 <= v < two256() / 2
}

/// The fixed-point product `a * b / 10^18`, rounded toward zero.
pub open spec fn fp(a: int, b: int) -> int {
    trunc_div(a * b, scale())
}

/// The complex product `t * x` as the transform computes it: each of the four real
/// products rounded on its own; `None` when a product or a sum leaves the signed
/// 256-bit range.
pub open spec fn cmul(t: (int, int), x: (int, int)) -> Option<(int, int)> {
    let rr = fp(t.0, x.0);
    let ii = fp(t.1, x.1);
    let ri = fp(t.0, x.1);
    let ir = fp(t.1, x.0);
    if fits(t.0 * x.0) && fits(t.1 * x.1) && fits(t.0 * x.1) && fits(t.1 * x.0) && fits(rr - ii)
        && fits(ri + ir) {
        Some((rr - ii, ri + ir))
    } else {
        None
    }
}

/// The complex square of `p` as the transform computes it: the real part from two
/// rounded products, the imaginary part `(2 * im) * re / 10^18` rounded once; `None` when
/// a value leaves the signed 256-bit range.
pub open spec fn csq(p: (int, int)) -> Option<(int, int)> {
    let rr = fp(p.0, p.0);
    let ii = fp(p.1, p.1);
    if fits(p.0 * p.0) && fits(p.1 * p.1) && fits(rr - ii) && fits(2 * p.1) && fits((2 * p.1) * p.0) {
        Some((rr - ii, fp(2 * p.1, p.0)))
    } else {
        None
    }
}

/// `a * b / 10^18` rounded toward zero, or `None` when `a * b` leaves the signed
/// 256-bit range.
fn fp_mul(a: I256, b: I256) -> (r: Option<I256>)
    ensures
        match r {
            Some(v) => fits(a.val() * b.val()) && v.val() == fp(a.val(), b.val()),
            None => !fits(a.val() * b.val()),
        },
{
    let neg = a.is_negative() != b.is_negative();
    let m = match checked_mul_u256(a.abs(), b.abs()) {
        Some(m) => m,
        None => {
            proof {
                lemma_abs_mul(a.val(), b.val());
            }
            return None;
        },
    };
    proof {
        lemma_abs_mul(a.val(), b.val());
        lemma_pow2_consts();
    }
    let half = U256 { hi: 0x8000_0000_0000_0000_0000_0000_0000_0000, lo: 0 };
    if (neg && half.lt(m)) || (!neg && half.le(m)) {
        return None;
    }
    let q = m.div(U256 { hi: 0, lo: 1_000_000_000_000_000_000 });
    proof {
        lemma_div_pos_is_pos(m.val(), scale());
        lemma_div_is_ordered_by_denominator(m.val(), 1, scale());
    }
    Some(I256::from_sign_mag(neg, q))
}

/// The complex number as a pair of mathematical integers.
pub open spec fn c(p: (I256, I256)) -> (int, int) {
    (p.0.val(), p.1.val())
}

/// The numbers a sequence of signed 256-bit values stands for.
pub open spec fn ints(s: Seq<I256>) -> Seq<int> {
    s.map_values(|v: I256| v.val())
}

/// The complex product `t * x`, as `cmul` describes it.
fn cmul_exec(t: (I256, I256), x: (I256, I256)) -> (r: Option<(I256, I256)>)
    ensures
        match r {
            Some(v) => cmul(c(t), c(x)) == Some(c(v)),
            None => cmul(c(t), c(x)) is None,
        },
{
    let rr = match fp_mul(t.0, x.0) { Some(v) => v, None => return None };
    let ii = match fp_mul(t.1, x.1) { Some(v) => v, None => return None };
    let ri = match fp_mul(t.0, x.1) { Some(v) => v, None => return None };
    let ir = match fp_mul(t.1, x.0) { Some(v) => v, None => return None };
    let re = match rr.checked_sub(ii) { Some(v) => v, None => return None };
    let im = match ri.checked_add(ir) { Some(v) => v, None => return None };
    Some((re, im))
}

/// The complex square of `p`, as `csq` describes it.
fn csq_exec(p: (I256, I256)) -> (r: Option<(I256, I256)>)
    ensures
        match r {
            Some(v) => csq(c(p)) == Some(c(v)),
            None => csq(c(p)) is None,
        },
{
    let rr = match fp_mul(p.0, p.0) { Some(v) => v, None => return None };
    let ii = match fp_mul(p.1, p.1) { Some(v) => v, None => return None };
    let re = match rr.checked_sub(ii) { Some(v) => v, None => return None };
    let two_im = match p.1.checked_add(p.1) { Some(v) => v, None => return None };
    let im = match fp_mul(two_im, p.0) { Some(v) => v, None => return None };
    Some((re, im))
}

/// The twiddle factor of column `l` of a stage: `phi^l` by repeated rounded
/// multiplication from 1; `None` once a product leaves the signed 256-bit range.
pub open spec fn twiddle(phi: (int, int), l: nat) -> Option<(int, int)>
    decreases l,
{
    if l == 0 {
        Some((scale(), 0))
    } else {
        match twiddle(phi, (l - 1) as nat) {
            Some(t) => cmul(t, phi),
            None => None,
        }
    }
}

/// The element at offset `c` of block `j` after a butterfly stage of half-size `k` with
/// twiddle step `phi`: in the upper half the sum of the element and its partner `k`
/// further on; in the lower half the difference of its partner `k` before and itself,
/// times the twiddle of its column. `None` when a value leaves the signed 256-bit range.
pub open spec fn stage_elem(re: Seq<int>, im: Seq<int>, phi: (int, int), k: int, j: int, c: int) -> Option<(int, int)> {
    let i = j * (2 * k) + c;
    if c < k {
        let sr = re[i] + re[i + k];
        let si = im[i] + im[i + k];
        if fits(sr) && fits(si) { Some((sr, si)) } else { None }
    } else {
        let tr = re[i - k] - re[i];
        let ti = im[i - k] - im[i];
        if fits(tr) && fits(ti) {
            match twiddle(phi, (c - k) as nat) {
                Some(t) => cmul(t, (tr, ti)),
                None => None,
            }
        } else {
            None
        }
    }
}

/// A stage of half-size `k` keeps every value and every twiddle in the signed 256-bit range.
pub open spec fn stage_ok(re: Seq<int>, im: Seq<int>, phi: (int, int), k: int) -> bool {
    &&& twiddle(phi, k as nat) is Some
    &&& forall|j: int, c: int|
        0 <= j < (re.len() as int) / (2 * k) && 0 <= c < 2 * k ==> #[trigger] stage_elem(re, im, phi, k, j, c) is Some
}

/// The real parts after a stage.
pub open spec fn stage_re(re: Seq<int>, im: Seq<int>, phi: (int, int), k: int) -> Seq<int> {
    Seq::new(re.len(), |i: int| stage_elem(re, im, phi, k, i / (2 * k), i % (2 * k)).unwrap().0)
}

/// The imaginary parts after a stage.
pub open spec fn stage_im(re: Seq<int>, im: Seq<int>, phi: (int, int), k: int) -> Seq<int> {
    Seq::new(re.len(), |i: int| stage_elem(re, im, phi, k, i / (2 * k), i % (2 * k)).unwrap().1)
}

/// Once a twiddle leaves the signed 256-bit range, so do all later ones.
proof fn lemma_twiddle_none(phi: (int, int), m: nat, m2: nat)
    requires
        m <= m2,
        twiddle(phi, m) is None,
    ensures
        twiddle(phi, m2) is None,
    decreases m2 - m,
{
    if m < m2 {
        lemma_twiddle_none(phi, m, (m2 - 1) as nat);
    }
}

/// Whether the element at offset `c` of block `j` has been through the butterfly, when
/// the columns before `l` are done and column `l` is done in the blocks before `ja`.
pub open spec fn done(k: int, l: int, ja: int, j: int, c: int) -> bool {
    let col = if c < k { c } else { c - k };
    col < l || (col == l && j < ja)
}

/// Offsets within blocks name distinct elements.
proof fn lemma_block_index(j: int, c: int, j2: int, c2: int, n: int)
    requires
        n > 0,
        0 <= c < n,
        0 <= c2 < n,
        j * n + c == j2 * n + c2,
    ensures
        j == j2,
        c == c2,
{
    lemma_fundamental_div_mod_converse(j * n + c, n, j, c);
    lemma_fundamental_div_mod_converse(j2 * n + c2, n, j2, c2);
}

/// Blocks before the last leave room for a whole block.
proof fn lemma_block_bound(j: int, c: int, nb: int, n: int)
    requires
        n > 0,
        0 <= j < nb,
        0 <= c < n,
    ensures
        0 <= j * n + c < nb * n,
        j * n + n <= nb * n,
{
    assert(j * n + n <= nb * n) by (nonlinear_arith)
        requires j < nb, n > 0;
    assert(j * n >= 0) by (nonlinear_arith)
        requires j >= 0, n > 0;
}

/// One butterfly stage of half-size `k` over the whole sequence, in place: for each
/// column, the butterflies of all blocks, then the next twiddle.
fn fft_stage(re: &mut Vec<I256>, im: &mut Vec<I256>, k: usize, phi: (I256, I256)) -> (ok: bool)
    requires
        k >= 1,
        2 * k <= old(re)@.len(),
        old(re)@.len() == old(im)@.len(),
        (old(re)@.len() as int) % (2 * (k as int)) == 0,
        old(re)@.len() <= 0x1_0000_0000,
    ensures
        final(re)@.len() == old(re)@.len(),
        final(im)@.len() == old(im)@.len(),
        ok == stage_ok(ints(old(re)@), ints(old(im)@), c(phi), k as int),
        ok ==> ints(final(re)@) == stage_re(ints(old(re)@), ints(old(im)@), c(phi), k as int),
        ok ==> ints(final(im)@) == stage_im(ints(old(re)@), ints(old(im)@), c(phi), k as int),
{
    let len = re.len();
    let n = 2 * k;
    let ghost x0r = ints(re@);
    let ghost x0i = ints(im@);
    let ghost nb = (len / n) as int;
    let ghost ph = c(phi);
    proof {
        lemma_fundamental_div_mod(len as int, n as int);
        lemma_div_pos_is_pos(len as int, n as int);
        assert((len as int) % (n as int) == 0);
        assert(len == nb * n) by (nonlinear_arith)
            requires len == n * nb + (len as int) % (n as int), (len as int) % (n as int) == 0;
        assert forall|j: int, cc: int|
            0 <= j < nb && 0 <= cc < n implies {
                let i = #[trigger] (j * n + cc);
                if done(k as int, 0, 0, j, cc) {
                    stage_elem(x0r, x0i, ph, k as int, j, cc) == Some((re@[i].val(), im@[i].val()))
                } else {
                    re@[i].val() == x0r[i] && im@[i].val() == x0i[i]
                }
            } by {
            lemma_block_bound(j, cc, nb, n as int);
        }
    }
    let mut t: (I256, I256) = (I256 { hi: 0, lo: 1_000_000_000_000_000_000 }, I256 { hi: 0, lo: 0 });
    let mut l: usize = 0;
    while l < k
        invariant
            1 <= k,
            n == 2 * k,
            len == re@.len(),
            len == im@.len(),
            len == old(re)@.len(),
            len == old(im)@.len(),
            len <= 0x1_0000_0000,
            len == nb * n,
            nb >= 0,
            x0r.len() == len,
            x0i.len() == len,
            x0r == ints(old(re)@),
            x0i == ints(old(im)@),
            ph == c(phi),
            l <= k,
            twiddle(ph, l as nat) == Some(c(t)),
            forall|j: int, cc: int|
                0 <= j < nb && 0 <= cc < n ==> {
                    let i = #[trigger] (j * n + cc);
                    if done(k as int, l as int, 0, j, cc) {
                        stage_elem(x0r, x0i, ph, k as int, j, cc) == Some((re@[i].val(), im@[i].val()))
                    } else {
                        re@[i].val() == x0r[i] && im@[i].val() == x0i[i]
                    }
                },
        decreases k - l,
    {
        let mut a: u64 = l as u64;
        let ghost mut ja: int = 0;
        while a < (len as u64)
            invariant
                1 <= k,
                n == 2 * k,
                len == re@.len(),
                len == im@.len(),
                len == old(re)@.len(),
                len == old(im)@.len(),
                len <= 0x1_0000_0000,
                len == nb * n,
                nb >= 0,
                x0r.len() == len,
                x0i.len() == len,
                x0r == ints(old(re)@),
                x0i == ints(old(im)@),
                ph == c(phi),
                l < k,
                twiddle(ph, l as nat) == Some(c(t)),
                a == ja * n + l,
                0 <= ja <= nb,
                forall|j: int, cc: int|
                    0 <= j < nb && 0 <= cc < n ==> {
                        let i = #[trigger] (j * n + cc);
                        if done(k as int, l as int, ja, j, cc) {
                            stage_elem(x0r, x0i, ph, k as int, j, cc) == Some((re@[i].val(), im@[i].val()))
                        } else {
                            re@[i].val() == x0r[i] && im@[i].val() == x0i[i]
                        }
                    },
            decreases nb - ja,
        {
            proof {
                if ja >= nb {
                    assert(a >= len) by (nonlinear_arith)
                        requires a == ja * n + l, ja >= nb, len == nb * n, n > 0, l >= 0;
                }
                lemma_block_bound(ja, l as int, nb, n as int);
            }
            proof {
                assert(ja < nb) by (nonlinear_arith)
                    requires a == ja * n + l, a < len, len == nb * n, n > 0, l >= 0;
                assert((x0r.len() as int) / (2 * (k as int)) == nb) by {
                    lemma_fundamental_div_mod_converse(len as int, n as int, nb, 0);
                }
            }
            let a_i = a as usize;
            let b = a_i + k;
            let ghost top = ja * n + l;
            let ghost bot = ja * n + (l + k);
            proof {
                assert(top == a_i && bot == b);
            }
            let ar = re[a_i];
            let ai = im[a_i];
            let br = re[b];
            let bi = im[b];
            let tr = match ar.checked_sub(br) {
                Some(v) => v,
                None => {
                    proof {
                        assert(stage_elem(x0r, x0i, ph, k as int, ja, (l + k) as int) is None);
                    }
                    return false;
                },
            };
            let ti = match ai.checked_sub(bi) {
                Some(v) => v,
                None => {
                    proof {
                        assert(stage_elem(x0r, x0i, ph, k as int, ja, (l + k) as int) is None);
                    }
                    return false;
                },
            };
            let sr = match ar.checked_add(br) {
                Some(v) => v,
                None => {
                    proof {
                        assert(stage_elem(x0r, x0i, ph, k as int, ja, l as int) is None);
                    }
                    return false;
                },
            };
            let si = match ai.checked_add(bi) {
                Some(v) => v,
                None => {
                    proof {
                        assert(stage_elem(x0r, x0i, ph, k as int, ja, l as int) is None);
                    }
                    return false;
                },
            };
            let prod = match cmul_exec(t, (tr, ti)) {
                Some(v) => v,
                None => {
                    proof {
                        assert(stage_elem(x0r, x0i, ph, k as int, ja, (l + k) as int) is None);
                    }
                    return false;
                },
            };
            re.set(a_i, sr);
            im.set(a_i, si);
            re.set(b, prod.0);
            im.set(b, prod.1);
            proof {
                assert(stage_elem(x0r, x0i, ph, k as int, ja, l as int) == Some((sr.val(), si.val())));
                assert(stage_elem(x0r, x0i, ph, k as int, ja, (l + k) as int) == Some((prod.0.val(), prod.1.val())));
                assert forall|j: int, cc: int|
                    0 <= j < nb && 0 <= cc < n implies {
                        let i = #[trigger] (j * n + cc);
                        if done(k as int, l as int, ja + 1, j, cc) {
                            stage_elem(x0r, x0i, ph, k as int, j, cc) == Some((re@[i].val(), im@[i].val()))
                        } else {
                            re@[i].val() == x0r[i] && im@[i].val() == x0i[i]
                        }
                    } by {
                    lemma_block_bound(j, cc, nb, n as int);
                    if j * n + cc == top {
                        lemma_block_index(j, cc, ja, l as int, n as int);
                    } else if j * n + cc == bot {
                        lemma_block_index(j, cc, ja, (l + k) as int, n as int);
                    }
                }
            }
            proof {
                assert(a + n == (ja + 1) * n + l) by (nonlinear_arith)
                    requires a == ja * n + l;
                assert((ja + 1) * n <= nb * n) by (nonlinear_arith)
                    requires ja < nb, n > 0;
            }
            a = a + (n as u64);
            proof {
                ja = ja + 1;
            }
        }
        proof {
            assert(ja == nb) by (nonlinear_arith)
                requires a == ja * n + l, a >= len, len == nb * n, 0 <= ja <= nb, l < n, l >= 0, n > 0;
        }
        let ghost t_old = t;
        t = match cmul_exec(t, phi) {
            Some(v) => v,
            None => {
                proof {
                    reveal_with_fuel(twiddle, 2);
                    assert(twiddle(ph, l as nat) == Some(c(t)));
                    assert(twiddle(ph, (l + 1) as nat) is None);
                    lemma_twiddle_none(ph, (l + 1) as nat, k as nat);
                }
                return false;
            },
        };
        proof {
            assert(twiddle(ph, (l + 1) as nat) == Some(c(t)));
        }
        l = l + 1;
        proof {
            assert forall|j: int, cc: int|
                0 <= j < nb && 0 <= cc < n implies {
                    let i = #[trigger] (j * n + cc);
                    if done(k as int, l as int, 0, j, cc) {
                        stage_elem(x0r, x0i, ph, k as int, j, cc) == Some((re@[i].val(), im@[i].val()))
                    } else {
                        re@[i].val() == x0r[i] && im@[i].val() == x0i[i]
                    }
                } by {
                assert(done(k as int, l as int, 0, j, cc) == done(k as int, (l - 1) as int, nb, j, cc));
            }
        }
    }
    proof {
        assert forall|j: int, cc: int| 0 <= j < (x0r.len() as int) / (2 * (k as int)) && 0 <= cc < 2 * (k as int)
            implies #[trigger] stage_elem(x0r, x0i, ph, k as int, j, cc) is Some by {
            lemma_fundamental_div_mod_converse(len as int, n as int, nb, 0);
            assert(done(k as int, k as int, 0, j, cc));
            assert(0 <= j * n + cc);
        }
        assert(ints(re@) =~= stage_re(x0r, x0i, ph, k as int)) by {
            assert forall|i: int| 0 <= i < len implies #[trigger] ints(re@)[i] == stage_re(x0r, x0i, ph, k as int)[i] by {
                lemma_fundamental_div_mod(i, n as int);
                lemma_mod_bound(i, n as int);
                lemma_div_pos_is_pos(i, n as int);
                assert((i / (n as int)) < nb) by (nonlinear_arith)
                    requires i == n * (i / (n as int)) + i % (n as int), i % (n as int) >= 0, i < nb * n, n > 0;
                let j = i / (n as int);
                let cc = i % (n as int);
                assert(j * n + cc == i) by (nonlinear_arith) requires i == n * j + cc;
                assert(done(k as int, k as int, 0, j, cc));
            }
        }
        assert(ints(im@) =~= stage_im(x0r, x0i, ph, k as int)) by {
            assert forall|i: int| 0 <= i < len implies #[trigger] ints(im@)[i] == stage_im(x0r, x0i, ph, k as int)[i] by {
                lemma_fundamental_div_mod(i, n as int);
                lemma_mod_bound(i, n as int);
                lemma_div_pos_is_pos(i, n as int);
                assert((i / (n as int)) < nb) by (nonlinear_arith)
                    requires i == n * (i / (n as int)) + i % (n as int), i % (n as int) >= 0, i < nb * n, n > 0;
                let j = i / (n as int);
                let cc = i % (n as int);
                assert(j * n + cc == i) by (nonlinear_arith) requires i == n * j + cc;
                assert(done(k as int, k as int, 0, j, cc));
            }
        }
    }
    true
}

/// The low 32 bits of `a` in reverse order, by swapping ever larger groups of bits.
pub open spec fn rev32(a: u32) -> u32 {
    let b = ((a & 0xaaaaaaaa) >> 1u32) | ((a & 0x55555555) << 1u32);
    let b = ((b & 0xcccccccc) >> 2u32) | ((b & 0x33333333) << 2u32);
    let b = ((b & 0xf0f0f0f0) >> 4u32) | ((b & 0x0f0f0f0f) << 4u32);
    let b = ((b & 0xff00ff00) >> 8u32) | ((b & 0x00ff00ff) << 8u32);
    (b >> 16u32) | (b << 16u32)
}

/// The low `m` bits of `a` in reverse order, for `m <= 32`.
pub open spec fn bit_rev(a: u32, m: u32) -> u32 {
    ((rev32(a) as u64) >> ((32 - m) as u64)) as u32
}

/// Reversing the low `m` bits twice gives back the number, and stays below `2^m`.
pub proof fn lemma_bit_rev(a: u32, m: u32)
    requires
        m <= 32,
        (a as u64) < (1u64 << (m as u64)),
    ensures
        (bit_rev(a, m) as u64) < (1u64 << (m as u64)),
        bit_rev(bit_rev(a, m), m) == a,
{
    assert((bit_rev(a, m) as u64) < (1u64 << (m as u64)) && bit_rev(bit_rev(a, m), m) == a) by (bit_vector)
        requires
            m <= 32,
            (a as u64) < (1u64 << (m as u64)),
    ;
}

/// `rev32` on a machine word.
fn rev32_exec(a: u32) -> (r: u32)
    ensures
        r == rev32(a),
{
    let mut b = a;
    b = ((b & 0xaaaaaaaa) >> 1) | ((b & 0x55555555) << 1);
    b = ((b & 0xcccccccc) >> 2) | ((b & 0x33333333) << 2);
    b = ((b & 0xf0f0f0f0) >> 4) | ((b & 0x0f0f0f0f) << 4);
    b = ((b & 0xff00ff00) >> 8) | ((b & 0x00ff00ff) << 8);
    (b >> 16) | (b << 16)
}

/// The position whose element lands at `i` once each element is moved to the position
/// with its low `m` index bits reversed.
pub open spec fn rev_index(i: int, m: nat) -> int {
    bit_rev(i as u32, m as u32) as int
}

/// Moves each element to the position with its low `m` index bits reversed, by swapping
/// each pair once.
fn bit_reverse_permute(re: &mut Vec<I256>, im: &mut Vec<I256>, m: u32)
    requires
        m <= 32,
        old(re)@.len() == old(im)@.len(),
        old(re)@.len() == (1u64 << (m as u64)),
    ensures
        final(re)@.len() == old(re)@.len(),
        final(im)@.len() == old(im)@.len(),
        forall|i: int| 0 <= i < old(re)@.len() ==> #[trigger] final(re)@[i] == old(re)@[rev_index(i, m as nat)],
        forall|i: int| 0 <= i < old(im)@.len() ==> #[trigger] final(im)@[i] == old(im)@[rev_index(i, m as nat)],
{
    let len = re.len();
    let ghost r0 = re@;
    let ghost i0 = im@;
    let mut a: usize = 0;
    proof {
        assert((1u64 << (m as u64)) <= 0x1_0000_0000u64) by (bit_vector)
            requires m <= 32;
    }
    while a < len
        invariant
            m <= 32,
            len <= 0x1_0000_0000,
            len == re@.len(),
            len == im@.len(),
            len == r0.len(),
            len == i0.len(),
            len == (1u64 << (m as u64)),
            r0 == old(re)@,
            i0 == old(im)@,
            a <= len,
            forall|i: int| 0 <= i < len ==> {
                let r = #[trigger] rev_index(i, m as nat);
                if i < a || r < a {
                    re@[i] == r0[r] && im@[i] == i0[r]
                } else {
                    re@[i] == r0[i] && im@[i] == i0[i]
                }
            },
        decreases len - a,
    {
        let b64 = ((rev32_exec(a as u32) as u64) >> (32 - (m as u64))) as u32;
        let b = b64 as usize;
        proof {
            lemma_bit_rev(a as u32, m);
            assert(b as int == rev_index(a as int, m as nat));
            assert(b64 == bit_rev(a as u32, m));
            assert(rev_index(b as int, m as nat) == bit_rev(b64, m) as int);
            assert(rev_index(b as int, m as nat) == a as int);
            assert forall|i: int| 0 <= i < len implies (#[trigger] rev_index(i, m as nat)) < len by {
                lemma_bit_rev(i as u32, m);
            }
            assert forall|i: int| 0 <= i < len && rev_index(i, m as nat) == a as int implies i == b as int by {
                lemma_bit_rev(i as u32, m);
                assert(bit_rev(bit_rev(i as u32, m), m) == i as u32);
                assert(bit_rev(i as u32, m) == a as u32);
            }
        }
        if b > a {
            let tr = re[a];
            let ti = im[a];
            let br = re[b];
            let bi = im[b];
            re.set(a, br);
            im.set(a, bi);
            re.set(b, tr);
            im.set(b, ti);
        }
        a = a + 1;
    }
}

/// The butterfly stages of half-sizes `k / 2`, `k / 4`, ..., 1, each after squaring the
/// twiddle step; `None` once a value leaves the signed 256-bit range.
pub open spec fn fft_stages(re: Seq<int>, im: Seq<int>, phi: (int, int), k: nat) -> Option<(Seq<int>, Seq<int>)>
    decreases k,
{
    if k <= 1 {
        Some((re, im))
    } else {
        let k2 = k / 2;
        match csq(phi) {
            Some(p2) => if stage_ok(re, im, p2, k2 as int) {
                fft_stages(stage_re(re, im, p2, k2 as int), stage_im(re, im, p2, k2 as int), p2, k2)
            } else {
                None
            },
            None => None,
        }
    }
}

/// The first twiddle step for a transform of length `n`: `e^(-i pi / n)`, the cosine
/// and the negated sine of `pi / n`, from the sine table.
pub open spec fn twiddle_seed(p: TrignometryParams, n: int) -> (int, int) {
    let theta = (p.pi as int) / n;
    (p.sin_spec((theta + p.pi_over_two) % two256()), -p.sin_spec(theta))
}

/// The transform of `(re, im)` of length `2^m`: the butterfly stages from the twiddle
/// seed, then every element moved to its bit-reversed position.
pub open spec fn fft_result(p: TrignometryParams, re: Seq<int>, im: Seq<int>, m: nat) -> Option<(Seq<int>, Seq<int>)> {
    match fft_stages(re, im, twiddle_seed(p, re.len() as int), re.len()) {
        Some(r) => Some((
            Seq::new(re.len(), |x: int| r.0[rev_index(x, m)]),
            Seq::new(re.len(), |x: int| r.1[rev_index(x, m)]),
        )),
        None => None,
    }
}

/// The transform left the signed 256-bit range.
#[derive(Clone, Copy, Debug, PartialEq, Eq, Structural)]
pub enum FftError {
    Overflow,
}

/// `log2` of `2^k` is `k`.
pub proof fn lemma_log2_floor_pow2(k: nat)
    ensures
        log2_floor(pow2(k) as int) == k,
    decreases k,
{
    if k > 0 {
        lemma_pow2_unfold(k);
        lemma_pow2_pos((k - 1) as nat);
        lemma_log2_floor_pow2((k - 1) as nat);
        assert((pow2(k) as int) / 2 == pow2((k - 1) as nat));
    } else {
        lemma2_to64();
    }
}

/// The transform of a single element is that element.
pub proof fn law_fft_single(p: TrignometryParams, re: Seq<int>, im: Seq<int>)
    requires
        re.len() == 1,
        im.len() == 1,
    ensures
        fft_result(p, re, im, 0) == Some((re, im)),
{
    assert(bit_rev(0u32, 0u32) == 0u32) by (bit_vector);
    assert(rev_index(0, 0) == 0);
    let r = fft_result(p, re, im, 0).unwrap();
    assert(r.0 =~= re);
    assert(r.1 =~= im);
}

/// `s[b] + s[b + 1] + ... + s[b + n - 1]`.
pub open spec fn seq_sum(s: Seq<int>, b: int, n: nat) -> int
    decreases n,
{
    if n == 0 {
        0
    } else {
        seq_sum(s, b, (n - 1) as nat) + s[b + n - 1]
    }
}

/// A sum over `m + n` terms splits into the first `m` and the next `n`.
proof fn lemma_seq_sum_split(s: Seq<int>, b: int, m: nat, n: nat)
    ensures
        seq_sum(s, b, m + n) == seq_sum(s, b, m) + seq_sum(s, b + m, n),
    decreases n,
{
    if n > 0 {
        lemma_seq_sum_split(s, b, m, (n - 1) as nat);
        assert((m + n - 1) as nat == m + (n - 1) as nat);
    }
}

/// Term-by-term sums: `t[c + i] == s[b1 + i] + s[b2 + i]` for `i < n` gives
/// `sum(t[c..c+n]) == sum(s[b1..b1+n]) + sum(s[b2..b2+n])`.
proof fn lemma_seq_sum_adds(s: Seq<int>, b1: int, b2: int, t: Seq<int>, c: int, n: nat)
    requires
        forall|i: int| 0 <= i < n ==> #[trigger] t[c + i] == s[b1 + i] + s[b2 + i],
    ensures
        seq_sum(t, c, n) == seq_sum(s, b1, n) + seq_sum(s, b2, n),
    decreases n,
{
    if n > 0 {
        assert(t[c + (n - 1)] == s[b1 + (n - 1)] + s[b2 + (n - 1)]);
        lemma_seq_sum_adds(s, b1, b2, t, c, (n - 1) as nat);
    }
}

/// Sums of sequences that agree term by term are equal.
proof fn lemma_seq_sum_ext(s: Seq<int>, b: int, t: Seq<int>, c: int, n: nat)
    requires
        forall|i: int| 0 <= i < n ==> #[trigger] t[c + i] == s[b + i],
    ensures
        seq_sum(t, c, n) == seq_sum(s, b, n),
    decreases n,
{
    if n > 0 {
        assert(t[c + (n - 1)] == s[b + (n - 1)]);
        lemma_seq_sum_ext(s, b, t, c, (n - 1) as nat);
    }
}

/// After the butterfly stages of half-sizes `k/2, ..., 1`, the first element of each
/// block of `k` holds the exact sum of that block's inputs.
proof fn lemma_fft_stages_block_sum(re: Seq<int>, im: Seq<int>, phi: (int, int), j: nat, b: int)
    requires
        re.len() == im.len(),
        (re.len() as int) % (pow2(j) as int) == 0,
        b >= 0,
        b % (pow2(j) as int) == 0,
        b + pow2(j) <= re.len(),
        fft_stages(re, im, phi, pow2(j)) is Some,
    ensures
        fft_stages(re, im, phi, pow2(j)).unwrap().0[b] == seq_sum(re, b, pow2(j)),
        fft_stages(re, im, phi, pow2(j)).unwrap().1[b] == seq_sum(im, b, pow2(j)),
    decreases j,
{
    let k = pow2(j);
    if j == 0 {
        lemma2_to64();
        assert(seq_sum(re, b, 0) == 0);
        assert(seq_sum(im, b, 0) == 0);
        assert(seq_sum(re, b, 1) == re[b]);
        assert(seq_sum(im, b, 1) == im[b]);
    } else {
        let j1 = (j - 1) as nat;
        let k2 = pow2(j1);
        lemma_pow2_unfold(j);
        lemma_pow2_pos(j1);
        assert(k == 2 * k2);
        assert(k > 1);
        assert(k / 2 == k2);
        let p2 = csq(phi).unwrap();
        assert(stage_ok(re, im, p2, k2 as int));
        let sr = stage_re(re, im, p2, k2 as int);
        let si = stage_im(re, im, p2, k2 as int);
        assert(fft_stages(re, im, phi, k) == fft_stages(sr, si, p2, k2));
        let q = b / (k as int);
        lemma_fundamental_div_mod(b, k as int);
        assert(b == k * q);
        assert(0 <= q < (re.len() as int) / (2 * (k2 as int))) by {
            lemma_div_pos_is_pos(b, k as int);
            lemma_fundamental_div_mod(re.len() as int, k as int);
            assert(q < (re.len() as int) / (k as int)) by (nonlinear_arith)
                requires b == k * q, b + k <= re.len(), re.len() as int == k * ((re.len() as int) / (k as int)),
                    k > 0;
        }
        assert forall|i: int| 0 <= i < k2 implies #[trigger] sr[b + i] == re[b + i] + re[b + k2 + i] by {
            lemma_fundamental_div_mod_converse(b + i, 2 * (k2 as int), q, i);
            assert(stage_elem(re, im, p2, k2 as int, q, i) is Some);
            assert(q * (2 * (k2 as int)) + i == b + i) by (nonlinear_arith)
                requires b == k * q, k == 2 * k2;
        }
        assert forall|i: int| 0 <= i < k2 implies #[trigger] si[b + i] == im[b + i] + im[b + k2 + i] by {
            lemma_fundamental_div_mod_converse(b + i, 2 * (k2 as int), q, i);
            assert(stage_elem(re, im, p2, k2 as int, q, i) is Some);
            assert(q * (2 * (k2 as int)) + i == b + i) by (nonlinear_arith)
                requires b == k * q, k == 2 * k2;
        }
        assert((re.len() as int) % (k2 as int) == 0) by {
            lemma_mod_mod(re.len() as int, k2 as int, 2);
            lemma_fundamental_div_mod(re.len() as int, k as int);
            lemma_mod_multiples_basic(2 * ((re.len() as int) / (k as int)), k2 as int);
            assert(re.len() as int == (2 * ((re.len() as int) / (k as int))) * k2) by (nonlinear_arith)
                requires re.len() as int == k * ((re.len() as int) / (k as int)) + (re.len() as int) % (k as int),
                    (re.len() as int) % (k as int) == 0, k == 2 * k2;
        }
        assert(b % (k2 as int) == 0) by {
            lemma_mod_multiples_basic(2 * q, k2 as int);
            assert(b == (2 * q) * k2) by (nonlinear_arith)
                requires b == k * q, k == 2 * k2;
        }
        lemma_fft_stages_block_sum(sr, si, p2, j1, b);
        lemma_seq_sum_adds(re, b, b + k2, sr, b, k2);
        lemma_seq_sum_adds(im, b, b + k2, si, b, k2);
        lemma_seq_sum_split(re, b, k2, k2);
        lemma_seq_sum_split(im, b, k2, k2);
        assert(k2 + k2 == k);
    }
}

/// The first output of the transform is the exact sum of the inputs: `X[0] = sum x[n]`.
pub proof fn law_fft_sum(p: TrignometryParams, re: Seq<int>, im: Seq<int>, m: nat)
    requires
        m <= 32,
        re.len() == pow2(m),
        im.len() == re.len(),
        fft_result(p, re, im, m) is Some,
    ensures
        fft_result(p, re, im, m).unwrap().0[0] == seq_sum(re, 0, re.len()),
        fft_result(p, re, im, m).unwrap().1[0] == seq_sum(im, 0, re.len()),
{
    lemma_pow2_pos(m);
    let mu = m as u32;
    assert(bit_rev(0u32, mu) == 0u32) by (bit_vector)
        requires mu <= 32;
    assert(rev_index(0, m) == 0);
    lemma_mod_self_0(pow2(m) as int);
    lemma_small_mod(0, pow2(m));
    lemma_fft_stages_block_sum(re, im, twiddle_seed(p, re.len() as int), m, 0);
}

/// The terms of the second output of the transform: `(x[l] - x[l + h]) * w^l` with `w^l`
/// grown by rounded products from `w`.
pub open spec fn harmonic_terms(re: Seq<int>, im: Seq<int>, w: (int, int), h: nat) -> (Seq<int>, Seq<int>) {
    (
        Seq::new(h, |l: int| cmul(twiddle(w, l as nat).unwrap(), (re[l] - re[l + h], im[l] - im[l + h])).unwrap().0),
        Seq::new(h, |l: int| cmul(twiddle(w, l as nat).unwrap(), (re[l] - re[l + h], im[l] - im[l + h])).unwrap().1),
    )
}

/// The second output of a transform of length `N = 2^m >= 2` is the first harmonic:
/// `X[1] = sum_{l < N/2} (x[l] - x[l + N/2]) * w^l`, where `w` is `e^(-2 pi i / N)`, the
/// square of the table's `e^(-i pi / N)`, and `w^l` its rounded powers (the DFT sum
/// `sum_n x[n] w^n` with `w^(l + N/2) = -w^l`).
pub proof fn law_fft_first_harmonic(p: TrignometryParams, re: Seq<int>, im: Seq<int>, m: nat)
    requires
        1 <= m <= 32,
        re.len() == pow2(m),
        im.len() == re.len(),
        fft_result(p, re, im, m) is Some,
    ensures
        csq(twiddle_seed(p, re.len() as int)) is Some,
        fft_result(p, re, im, m).unwrap().0[1] == seq_sum(
            harmonic_terms(re, im, csq(twiddle_seed(p, re.len() as int)).unwrap(), (re.len() / 2) as nat).0,
            0,
            (re.len() / 2) as nat,
        ),
        fft_result(p, re, im, m).unwrap().1[1] == seq_sum(
            harmonic_terms(re, im, csq(twiddle_seed(p, re.len() as int)).unwrap(), (re.len() / 2) as nat).1,
            0,
            (re.len() / 2) as nat,
        ),
{
    let n = re.len();
    let j1 = (m - 1) as nat;
    let h = pow2(j1);
    lemma_pow2_unfold(m);
    lemma_pow2_pos(j1);
    assert(n == 2 * h);
    assert(n / 2 == h);
    let seed = twiddle_seed(p, n as int);
    let p2 = csq(seed).unwrap();
    assert(stage_ok(re, im, p2, h as int));
    let sr = stage_re(re, im, p2, h as int);
    let si = stage_im(re, im, p2, h as int);
    assert(fft_stages(re, im, seed, n) == fft_stages(sr, si, p2, h));
    lemma_rev_index_one(m);
    assert((n as int) % (h as int) == 0) by {
        lemma_mod_multiples_basic(2, h as int);
    }
    lemma_mod_self_0(h as int);
    lemma_fft_stages_block_sum(sr, si, p2, j1, h as int);
    lemma_first_stage_lower_half(re, im, p2, h);
}

/// After the first butterfly stage of half-size `h` over `2h` elements, the lower half
/// holds the terms of the first harmonic.
proof fn lemma_first_stage_lower_half(re: Seq<int>, im: Seq<int>, p2: (int, int), h: nat)
    requires
        h >= 1,
        re.len() == 2 * h,
        im.len() == re.len(),
        stage_ok(re, im, p2, h as int),
    ensures
        seq_sum(stage_re(re, im, p2, h as int), h as int, h) == seq_sum(harmonic_terms(re, im, p2, h).0, 0, h),
        seq_sum(stage_im(re, im, p2, h as int), h as int, h) == seq_sum(harmonic_terms(re, im, p2, h).1, 0, h),
{
    let sr = stage_re(re, im, p2, h as int);
    let si = stage_im(re, im, p2, h as int);
    let t = harmonic_terms(re, im, p2, h);
    assert((re.len() as int) / (2 * (h as int)) == 1) by {
        lemma_fundamental_div_mod_converse(re.len() as int, 2 * (h as int), 1, 0);
    }
    assert forall|l: int| 0 <= l < h implies #[trigger] t.0[0 + l] == sr[h + l] by {
        lemma_fundamental_div_mod_converse(h + l, 2 * (h as int), 0, h + l);
        assert(stage_elem(re, im, p2, h as int, 0, h + l) is Some);
    }
    assert forall|l: int| 0 <= l < h implies #[trigger] t.1[0 + l] == si[h + l] by {
        lemma_fundamental_div_mod_converse(h + l, 2 * (h as int), 0, h + l);
        assert(stage_elem(re, im, p2, h as int, 0, h + l) is Some);
    }
    lemma_seq_sum_ext(sr, h as int, t.0, 0, h);
    lemma_seq_sum_ext(si, h as int, t.1, 0, h);
}

/// The position whose element lands at output 1 is `2^(m - 1)`.
proof fn lemma_rev_index_one(m: nat)
    requires
        1 <= m <= 32,
    ensures
        rev_index(1, m) == pow2((m - 1) as nat),
{
    let mm = m as u32;
    assert(bit_rev(1u32, mm) == (1u64 << ((mm - 1) as u64)) as u32) by (bit_vector)
        requires 1 <= mm <= 32;
    lemma2_to64();
    lemma2_to64_rest();
    if m - 1 < 64 {
        lemma_pow2_strictly_increases((m - 1) as nat, 64);
    }
    vstd::bits::lemma_u64_shl_is_mul(1, (mm - 1) as u64);
    lemma_pow2_increases((m - 1) as nat, 31);
}

/// `2^a <= 2^b` for `a <= b`.
proof fn lemma_pow2_increases(a: nat, b: nat)
    requires
        a <= b,
    ensures
        pow2(a) <= pow2(b),
{
    if a < b {
        lemma_pow2_strictly_increases(a, b);
    }
}

/// The Fourier transform with its sine table.
pub struct Fourier {
    pub trig: Trigonometry,
}

impl Fourier {
    /// The number of times `num` can be halved before it drops to 1 or below.
    pub fn log2(&self, num: U256) -> (r: U256)
        ensures
            r.val() == log2_floor(num.val()),
    {
        let mut num = num;
        let mut log_val: u32 = 0;
        let ghost n0 = num.val();
        let one = U256 { hi: 0, lo: 1 };
        proof {
            lemma_log2_floor_bound(num.val());
        }
        while one.lt(num)
            invariant
                log_val + log2_floor(num.val()) == log2_floor(n0),
                log_val <= 256 - log2_floor(num.val()),
                num.val() >= 0,
                one.val() == 1,
            decreases num.val(),
        {
            proof {
                lemma_log2_floor_bound(num.val());
            }
            num = num.div(U256 { hi: 0, lo: 2 });
            proof {
                lemma_log2_floor_bound(num.val());
            }
            log_val = log_val + 1;
        }
        U256 { hi: 0, lo: log_val as u128 }
    }

    /// The fast Fourier transform of `(real_part, img_part)`, in place: butterfly stages
    /// with twiddles grown from `e^(-i pi / N)` (the cosine and the negated sine of
    /// `pi / N` from the sine table), then the bit-reversal permutation, which gives the
    /// transform in natural order. The length must be a power of two up to 2^32 and the
    /// table must cover `pi / N` and `pi / N + pi / 2`; `Err` when a value leaves the
    /// signed 256-bit range. The lengths never change.
    pub fn fft(&self, real_part: &mut Vec<I256>, img_part: &mut Vec<I256>) -> (r: Result<(), FftError>)
        requires
            old(real_part)@.len() == old(img_part)@.len(),
            1 <= old(real_part)@.len() <= 0x1_0000_0000,
            pow2(log2_floor(old(real_part)@.len() as int) as nat) == old(real_part)@.len(),
            self.trig.params.sin_ok((self.trig.params.pi as int) / (old(real_part)@.len() as int)),
            self.trig.params.sin_ok(
                ((self.trig.params.pi as int) / (old(real_part)@.len() as int) + self.trig.params.pi_over_two)
                    % two256(),
            ),
        ensures
            final(real_part)@.len() == old(real_part)@.len(),
            final(img_part)@.len() == old(img_part)@.len(),
            match r {
                Ok(()) => fft_result(
                    self.trig.params,
                    ints(old(real_part)@),
                    ints(old(img_part)@),
                    log2_floor(old(real_part)@.len() as int) as nat,
                ) == Some((ints(final(real_part)@), ints(final(img_part)@))),
                Err(_) => fft_result(
                    self.trig.params,
                    ints(old(real_part)@),
                    ints(old(img_part)@),
                    log2_floor(old(real_part)@.len() as int) as nat,
                ) is None,
            },
    {
        let len = real_part.len();
        let ghost mm: nat = log2_floor(len as int) as nat;
        let ghost x0r = ints(real_part@);
        let ghost x0i = ints(img_part@);
        let theta = self.trig.params.pi / (len as u128);
        proof {
            lemma_div_is_ordered_by_denominator(self.trig.params.pi as int, 1, len as int);
            lemma_small_mod((theta + self.trig.params.pi_over_two) as nat, two256() as nat);
            crate::wide::lemma_pow2_consts();
        }
        let sine = I256::from_i128(self.trig.sin(U256::from_u128(theta)));
        let neg_sine = match (I256 { hi: 0, lo: 0 }).checked_sub(sine) {
            Some(v) => v,
            None => {
                proof {
                    lemma_pow2_consts();
                    assert(false);
                }
                sine
            },
        };
        let phi0 = (I256::from_i128(self.trig.cos(U256::from_u128(theta))), neg_sine);
        let ghost seed = twiddle_seed(self.trig.params, len as int);
        proof {
            assert(c(phi0) == seed);
        }
        let mut phi = phi0;
        let mut k: usize = len;
        let ghost mut j: nat = mm;
        proof {
            lemma_log2_floor_pow2(mm);
            lemma_pow2_pos(mm);
        }
        while k > 1
            invariant
                len == real_part@.len(),
                len == img_part@.len(),
                len == old(real_part)@.len(),
                len == old(img_part)@.len(),
                len <= 0x1_0000_0000,
                x0r == ints(old(real_part)@),
                x0i == ints(old(img_part)@),
                len == pow2(mm),
                mm == log2_floor(len as int),
                seed == twiddle_seed(self.trig.params, len as int),
                k == pow2(j),
                j <= mm,
                fft_stages(ints(real_part@), ints(img_part@), c(phi), k as nat)
                    == fft_stages(x0r, x0i, seed, len as nat),
            decreases k,
        {
            proof {
                assert(j >= 1) by {
                    if j == 0 {
                        lemma2_to64();
                    }
                }
                lemma_pow2_unfold(j);
                lemma_pow2_subtracts(j, mm);
                lemma_pow2_adds((mm - j) as nat, j);
                lemma_fundamental_div_mod_converse(len as int, k as int, pow2((mm - j) as nat) as int, 0);
                lemma_pow2_pos((mm - j) as nat);
                assert(j >= 1) by {
                    if j == 0 {
                        lemma2_to64();
                    }
                }
            }
            let k2 = k / 2;
            let ghost phi_old = phi;
            phi = match csq_exec(phi) {
                Some(v) => v,
                None => {
                    proof {
                        assert(fft_stages(ints(real_part@), ints(img_part@), c(phi_old), k as nat) is None);
                        assert(x0r.len() == len);
                        assert(fft_stages(x0r, x0i, seed, len as nat) is None);
                        assert(fft_result(self.trig.params, x0r, x0i, mm) is None);
                    }
                    return Err(FftError::Overflow);
                },
            };
            let ghost cr = ints(real_part@);
            let ghost ci = ints(img_part@);
            proof {
                assert(2 * k2 == k);
                assert(len as int % (2 * (k2 as int)) == 0);
                assert(pow2((mm - j) as nat) >= 1);
                assert(2 * k2 <= len) by (nonlinear_arith)
                    requires len == pow2((mm - j) as nat) * k, pow2((mm - j) as nat) >= 1, k == 2 * k2, k2 >= 0;
            }
            let ok = fft_stage(real_part, img_part, k2, phi);
            if !ok {
                proof {
                    assert(fft_stages(cr, ci, c(phi_old), k as nat) is None);
                    assert(x0r.len() == len);
                    assert(fft_stages(x0r, x0i, seed, len as nat) is None);
                    assert(fft_result(self.trig.params, x0r, x0i, mm) is None);
                }
                return Err(FftError::Overflow);
            }
            k = k2;
            proof {
                j = (j - 1) as nat;
            }
        }
        let mbits = self.log2(U256::from_u128(len as u128));
        proof {
            lemma_log2_floor_pow2(mm);
            assert(mbits.val() == mm);
            assert(mm <= 32) by {
                lemma2_to64();
                if mm > 32 {
                    lemma_pow2_strictly_increases(32, mm);
                }
            }
            vstd::bits::lemma_u64_shl_is_mul(1, mm as u64);
            lemma2_to64_rest();
            lemma2_to64();
            if mm < 64 {
                lemma_pow2_strictly_increases(mm, 64);
            }
        }
        let m = mbits.lo as u32;
        let ghost sr = real_part@;
        let ghost si = img_part@;
        bit_reverse_permute(real_part, img_part, m);
        proof {
            let rr = Seq::new(len as nat, |x: int| ints(sr)[rev_index(x, mm)]);
            assert(ints(real_part@) =~= rr) by {
                assert forall|x: int| 0 <= x < len implies ints(real_part@)[x] == rr[x] by {
                    lemma_bit_rev(x as u32, m);
                }
            }
            let ri = Seq::new(len as nat, |x: int| ints(si)[rev_index(x, mm)]);
            assert(ints(img_part@) =~= ri) by {
                assert forall|x: int| 0 <= x < len implies ints(img_part@)[x] == ri[x] by {
                    lemma_bit_rev(x as u32, m);
                }
            }
        }
        Ok(())
    }
}

/// `floor(log2(n))` of a number below 2^256 is below 256.
proof fn lemma_log2_floor_bound(n: int)
    requires
        0 <= n < crate::wide::two256(),
    ensures
        0 <= log2_floor(n) <= 255,
{
    crate::wide::lemma_pow2_consts();
    lemma_log2_floor_pow(n, 256);
}

/// `floor(log2(n)) < k` for `0 <= n < 2^k`, `k >= 1`.
proof fn lemma_log2_floor_pow(n: int, k: nat)
    requires
        k >= 1,
        0 <= n < vstd::arithmetic::power2::pow2(k),
    ensures
        0 <= log2_floor(n) < k,
    decreases k,
{
    vstd::arithmetic::power2::lemma_pow2_unfold(k);
    if n > 1 {
        if k == 1 {
            vstd::arithmetic::power2::lemma2_to64();
        } else {
            lemma_log2_floor_pow(n / 2, (k - 1) as nat);
        }
    }
}

} // verus!

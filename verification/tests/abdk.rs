use open_stylus::abdk::ABDK;
use open_stylus::wide::{I256, U256};

#[test]
fn test_from_int_small() {
    let m = ABDK {};
    assert_eq!(m.from_int(I256 { hi: 0, lo: 5 }), 92233720368547758080);
    assert_eq!(m.from_int(I256 { hi: -1, lo: 340282366920938463463374607431768211453 }), -55340232221128654848);
}

#[test]
fn test_from_int_range_ends() {
    let m = ABDK {};
    assert_eq!(m.from_int(I256 { hi: 0, lo: 9223372036854775807 }), 170141183460469231713240559642174554112);
    assert_eq!(m.from_int(I256 { hi: -1, lo: 340282366920938463454151235394913435648 }), -170141183460469231731687303715884105728);
}

#[test]
fn test_to_int_rounds_down() {
    let m = ABDK {};
    assert_eq!(m.to_int(92233720368547758087), 5);
    assert_eq!(m.to_int(-1), -1);
    assert_eq!(m.to_int(-18446744073709551616), -1);
    assert_eq!(m.to_int(-18446744073709551617), -2);
    assert_eq!(m.to_int(i128::MIN), -9223372036854775808);
}

#[test]
fn test_from_uint() {
    let m = ABDK {};
    assert_eq!(m.from_uint(U256 { hi: 0, lo: 7 }), 129127208515966861312);
    assert_eq!(m.from_uint(U256 { hi: 0, lo: 9223372036854775807 }), 170141183460469231713240559642174554112);
}

#[test]
fn test_to_uint() {
    let m = ABDK {};
    assert_eq!(m.to_uint(55340232221128654853), 3);
    assert_eq!(m.to_uint(i128::MAX), 9223372036854775807);
}

#[test]
fn test_from_128x128() {
    let m = ABDK {};
    assert_eq!(m.from_128x128(I256 { hi: 5, lo: 3 }), 92233720368547758080);
    assert_eq!(m.from_128x128(I256 { hi: -1, lo: 340282366920938463444927863358058659839 }), -2);
}

#[test]
fn test_to_128x128() {
    let m = ABDK {};
    assert_eq!(m.to_128x128(-7), I256 { hi: -1, lo: 340282366920938463334247398915801350144 });
    assert_eq!(m.to_128x128(i128::MAX), I256 { hi: 9223372036854775807, lo: 340282366920938463444927863358058659840 });
}

#[test]
fn test_add_sub() {
    let m = ABDK {};
    assert_eq!(m.add(18446744073709551616, 36893488147419103232), 55340232221128654848);
    assert_eq!(m.sub(18446744073709551616, 36893488147419103232), -18446744073709551616);
    assert_eq!(m.add(i128::MAX, -1), i128::MAX - 1);
}

#[test]
fn test_mul() {
    let m = ABDK {};
    assert_eq!(m.mul(27670116110564327424, 36893488147419103232), 55340232221128654848);
    assert_eq!(m.mul(-1, 1), -1);
    assert_eq!(m.mul(-27670116110564327424, 27670116110564327424), -41505174165846491136);
}

#[test]
fn test_div() {
    let m = ABDK {};
    assert_eq!(m.div(55340232221128654848, 36893488147419103232), 27670116110564327424);
    assert_eq!(m.div(-1, 36893488147419103232), 0);
    assert_eq!(m.div(-129127208515966861312, 55340232221128654848), -43042402838655620437);
}

#[test]
fn test_neg_abs() {
    let m = ABDK {};
    assert_eq!(m.neg(5), -5);
    assert_eq!(m.neg(i128::MAX), -i128::MAX);
    assert_eq!(m.ABS(-5), 5);
    assert_eq!(m.ABS(7), 7);
}

#[test]
fn test_inv() {
    let m = ABDK {};
    assert_eq!(m.inv(36893488147419103232), 9223372036854775808);
    assert_eq!(m.inv(-2), i128::MIN);
    assert_eq!(m.inv(55340232221128654848), 6148914691236517205);
    assert_eq!(m.inv(-55340232221128654848), -6148914691236517205);
}

#[test]
fn test_avg() {
    let m = ABDK {};
    assert_eq!(m.avg(-1, 0), -1);
    assert_eq!(m.avg(i128::MAX, i128::MAX), i128::MAX);
    assert_eq!(m.avg(i128::MIN, i128::MAX), -1);
    assert_eq!(m.avg(3, 4), 3);
}

#[test]
fn test_mulu() {
    let m = ABDK {};
    assert_eq!(m.mulu(18446744073709551616, U256 { hi: 4722366482869645213696, lo: 12345 }), U256 { hi: 4722366482869645213696, lo: 12345 });
    assert_eq!(m.mulu(3, U256 { hi: 0, lo: 18446744073709551616 }), U256 { hi: 0, lo: 3 });
    assert_eq!(m.mulu(-5, U256 { hi: 0, lo: 0 }), U256 { hi: 0, lo: 0 });
    assert_eq!(m.mulu(27670116110564327424, U256 { hi: 170141183460469231731687303715884105728, lo: 0 }), U256 { hi: 255211775190703847597530955573826158592, lo: 0 });
}

#[test]
fn test_muli() {
    let m = ABDK {};
    assert_eq!(m.muli(i128::MIN, I256 { hi: 0, lo: 2 }), I256 { hi: -1, lo: 340282366920938463444927863358058659840 });
    assert_eq!(m.muli(i128::MIN, I256 { hi: 18446744073709551616, lo: 0 }), I256 { hi: -170141183460469231731687303715884105728, lo: 0 });
    assert_eq!(m.muli(36893488147419103232, I256 { hi: -1, lo: 340282366920938463463374607431768211449 }), I256 { hi: -1, lo: 340282366920938463463374607431768211442 });
    assert_eq!(m.muli(-1, I256 { hi: 0, lo: 3 }), I256 { hi: 0, lo: 0 });
    assert_eq!(m.muli(-27670116110564327424, I256 { hi: -4722366482869645213696, lo: 0 }), I256 { hi: 7083549724304467820544, lo: 0 });
}

#[test]
fn test_divuu() {
    let m = ABDK {};
    assert_eq!(m.divuu(U256 { hi: 0, lo: 1 }, U256 { hi: 0, lo: 3 }), 6148914691236517205);
    assert_eq!(m.divuu(U256 { hi: 18446744073709551615, lo: 340282366920938463463374607431768211455 }, U256 { hi: 4, lo: 1 }), 85070591730234615865843651857942052863);
    assert_eq!(m.divuu(U256 { hi: 4722366482869645213696, lo: 12345 }, U256 { hi: 512, lo: 999 }), 170141183460469231731687303715884105727);
    assert_eq!(m.divuu(U256 { hi: 170141183460469231731687303715884105728, lo: 1 }, U256 { hi: 85070591730234615865843651857942052864, lo: 3 }), 36893488147419103231);
    assert_eq!(m.divuu(U256 { hi: 340282366920938463463374607431768211455, lo: 340282366920938463463374607431768211455 }, U256 { hi: 340282366920938463463374607431768211455, lo: 340282366920938463463374607431768211455 }), 18446744073709551616);
    assert_eq!(m.divuu(U256 { hi: 340282366920938463463374607431768211455, lo: 340282366920938463463374607431768211455 }, U256 { hi: 18446744073709551616, lo: 5 }), 340282366920938463463374607431768211455);
    assert_eq!(m.divuu(U256 { hi: 36893488147423297536, lo: 0 }, U256 { hi: 3, lo: 340282366920938463463374607431768211455 }), 170141183460488574544801137782679404544);
}

#[test]
fn test_divi() {
    let m = ABDK {};
    assert_eq!(m.divi(I256 { hi: -1, lo: 340282366920938463463374607431768211453 }, I256 { hi: 0, lo: 2 }), -27670116110564327424);
    assert_eq!(m.divi(I256 { hi: 0, lo: 3 }, I256 { hi: -1, lo: 340282366920938463463374607431768211454 }), -27670116110564327424);
    assert_eq!(m.divi(I256 { hi: -170141183460469231731687303715884105728, lo: 0 }, I256 { hi: -170141183460469231731687303715884105728, lo: 0 }), 18446744073709551616);
    assert_eq!(m.divi(I256 { hi: -1, lo: 340282366920938463454151235394913435648 }, I256 { hi: 0, lo: 1 }), i128::MIN);
}

#[test]
fn test_divu() {
    let m = ABDK {};
    assert_eq!(m.divu(U256 { hi: 0, lo: 1 }, U256 { hi: 0, lo: 3 }), 6148914691236517205);
    assert_eq!(m.divu(U256 { hi: 4722366482869645213696, lo: 0 }, U256 { hi: 512, lo: 1 }), 170141183460469231731687303715884105727);
}

#[test]
fn test_sqrtu() {
    let m = ABDK {};
    assert_eq!(m.sqrtu(U256 { hi: 0, lo: 0 }), 0);
    assert_eq!(m.sqrtu(U256 { hi: 0, lo: 1 }), 1);
    assert_eq!(m.sqrtu(U256 { hi: 0, lo: 15 }), 3);
    assert_eq!(m.sqrtu(U256 { hi: 0, lo: 16 }), 4);
    assert_eq!(m.sqrtu(U256 { hi: 0, lo: 18446744073709551616 }), 4294967296);
    assert_eq!(m.sqrtu(U256 { hi: 170141183460469231731687303715884105728, lo: 12345 }), 240615969168004511545033772477625056927);
    assert_eq!(m.sqrtu(U256 { hi: 340282366920938463463374607431768211455, lo: 340282366920938463463374607431768211455 }), 340282366920938463463374607431768211455);
    assert_eq!(m.sqrtu(U256 { hi: 340282366920938463463374607431768211454, lo: 1 }), 340282366920938463463374607431768211455);
    assert_eq!(m.sqrtu(U256 { hi: 340282366920938463463374607431768211454, lo: 0 }), 340282366920938463463374607431768211454);
    assert_eq!(m.sqrtu(U256 { hi: 293873587705, lo: 194599656488044247630319707454198251520 }), 10000000000000000000000000);
}

#[test]
fn test_sqrt() {
    let m = ABDK {};
    assert_eq!(m.sqrt(16), 17179869184);
    assert_eq!(m.sqrt(18446744073709551616), 18446744073709551616);
    assert_eq!(m.sqrt(73786976294838206464), 36893488147419103232);
    assert_eq!(m.sqrt(36893488147419103232), 26087635650665564424);
    assert_eq!(m.sqrt(i128::MAX), 56022770974786139918731938227);
    assert_eq!(m.sqrt(0), 0);
}

#[test]
fn test_gavg() {
    let m = ABDK {};
    assert_eq!(m.gavg(4, 9), 6);
    assert_eq!(m.gavg(-4, -9), 6);
    assert_eq!(m.gavg(18446744073709551616, 73786976294838206464), 36893488147419103232);
    assert_eq!(m.gavg(i128::MAX, i128::MAX), i128::MAX);
}

#[test]
fn test_pow() {
    let m = ABDK {};
    assert_eq!(m.pow(9223372036854775808, U256 { hi: 0, lo: 3 }), 2305843009213693952);
    assert_eq!(m.pow(-18446744073709551616, U256 { hi: 0, lo: 3 }), -18446744073709551616);
    assert_eq!(m.pow(-18446744073709551616, U256 { hi: 0, lo: 4 }), 18446744073709551616);
    assert_eq!(m.pow(13835058055282163712, U256 { hi: 0, lo: 10 }), 1038800993736720384);
    assert_eq!(m.pow(18446744073709551616, U256 { hi: 0, lo: 1000 }), 18446744073709551616);
    assert_eq!(m.pow(12345678901234567, U256 { hi: 0, lo: 1 }), 12345678901234567);
    assert_eq!(m.pow(-9223372036854775808, U256 { hi: 0, lo: 5 }), -576460752303423488);
    assert_eq!(m.pow(0, U256 { hi: 0, lo: 0 }), 18446744073709551616);
    assert_eq!(m.pow(0, U256 { hi: 0, lo: 7 }), 0);
    assert_eq!(m.pow(9223372036854775808, U256 { hi: 4722366482869645213696, lo: 0 }), 0);
}

#[test]
fn test_log_2() {
    let m = ABDK {};
    assert_eq!(m.log_2(18446744073709551616), 0);
    assert_eq!(m.log_2(36893488147419103232), 18446744073709551616);
    assert_eq!(m.log_2(27670116110564327424), 10790653543520307103);
    assert_eq!(m.log_2(1), -1180591620717411303424);
    assert_eq!(m.log_2(170141183460469231731687303715884105727), 1162144876643701751807);
    assert_eq!(m.log_2(184467440737095516160), 61278757397652712441);
    assert_eq!(m.log_2(18446744073709551615), -2);
}

#[test]
fn test_log_2_of_powers_of_two() {
    let m = ABDK {};
    for k in 0..127u32 {
        let x: i128 = 1i128 << k;
        assert_eq!(m.log_2(x), ((k as i128) - 64) * 18446744073709551616);
    }
}

#[test]
fn test_exp_2_of_integers() {
    let m = ABDK {};
    for n in -62..=64i128 {
        assert_eq!(m.exp_2(-n * 18446744073709551616), 1i128 << (64 - n));
    }
}

#[test]
fn test_ln() {
    let m = ABDK {};
    assert_eq!(m.ln(18446744073709551616), 0);
    assert_eq!(m.ln(36893488147419103232), 12786308645202655659);
    assert_eq!(m.ln(27670116110564327424), 7479511080090283978);
    assert_eq!(m.ln(1), -818323753292969962227);
    assert_eq!(m.ln(170141183460469231731687303715884105727), 805537444647767306565);
    assert_eq!(m.ln(184467440737095516160), 42475197918399869019);
    assert_eq!(m.ln(18446744073709551615), -2);
}

#[test]
fn test_exp_2() {
    let m = ABDK {};
    assert_eq!(m.exp_2(-36893488147419103232), 4611686018427387904);
    assert_eq!(m.exp_2(-18446744073709551617), 9223372036854775807);
    assert_eq!(m.exp_2(-55340232221128642503), 2305843009213695021);
    assert_eq!(m.exp_2(-184467440737095516160), 18014398509481984);
    assert_eq!(m.exp_2(-1180591620717411303424), 1);
    assert_eq!(m.exp_2(0), 18446744073709551616);
    assert_eq!(m.exp_2(27670116110564327424), 52175271301331128849);
    assert_eq!(m.exp_2(18446744073709551616), 36893488147419103232);
    assert_eq!(m.exp_2(-18446744073709551616), 9223372036854775808);
    assert_eq!(m.exp_2(2305843009213693952), 20116317054877281741);
    assert_eq!(m.exp_2(1162144876643701751807), 170141183460469231725294149393282769836);
}

#[test]
fn test_exp() {
    let m = ABDK {};
    assert_eq!(m.exp(-92233720368547758080), 124293183874348897);
    assert_eq!(m.exp(-18446744073709551616), 6786177901268885274);
    assert_eq!(m.exp(-2361183241434822606848), 0);
    assert_eq!(m.exp(-1180591620717411303425), 0);
    assert_eq!(m.exp(-737869762948382064640), 78);
    assert_eq!(m.exp(0), 18446744073709551616);
    assert_eq!(m.exp(18446744073709551616), 50143449209799256681);
}

#[test]
fn test_exp_2_doubles_per_unit() {
    let m = ABDK {};
    let one: i128 = 18446744073709551616;
    for x in [-5 * one + 12345, -one / 3, 0, one / 2, 7 * one + 99, 61 * one + one / 7] {
        let a = m.exp_2(x);
        let b = m.exp_2(x + one);
        assert!(2 * a <= b && b <= 2 * a + 1, "exp_2({}) = {}, exp_2(x + 1) = {}", x, a, b);
    }
}

#[test]
fn test_pow_beyond_one() {
    let m = ABDK {};
    let two: i128 = 36893488147419103232;
    assert_eq!(m.pow(two, U256 { hi: 0, lo: 3 }), 147573952589676412928);
    assert_eq!(m.pow(two, U256 { hi: 0, lo: 62 }), 85070591730234615865843651857942052864);
    assert_eq!(m.pow(55340232221128654848, U256 { hi: 0, lo: 5 }), 4482558809911421042688);
    assert_eq!(m.pow(-55340232221128654848, U256 { hi: 0, lo: 5 }), -4482558809911421042688);
    assert_eq!(m.pow(-55340232221128654848, U256 { hi: 0, lo: 4 }), 1494186269970473680896);
    assert_eq!(m.pow(18446744073709551617, U256 { hi: 0, lo: 1000 }), 18446744073709552616);
    assert_eq!(m.pow(184467440737095516160, U256 { hi: 0, lo: 2 }), 1844674407370955161600);
    assert_eq!(m.pow(27670116110564327424, U256 { hi: 0, lo: 7 }), 315179916321896792064);
    assert_eq!(m.pow(2277375790844960561141122011, U256 { hi: 0, lo: 2 }), 281157502484054427710121221187133422);
}

#[test]
fn test_pow_zero_and_one_for_any_base() {
    let m = ABDK {};
    for x in [i128::MIN, -129127208515966861312, -1, 0, 5, 36893488147419103232, i128::MAX] {
        assert_eq!(m.pow(x, U256 { hi: 0, lo: 0 }), 18446744073709551616);
        assert_eq!(m.pow(x, U256 { hi: 0, lo: 1 }), x);
    }
}

#[test]
fn test_pow_of_two() {
    let m = ABDK {};
    for n in 0..=62u32 {
        assert_eq!(m.pow(36893488147419103232, U256 { hi: 0, lo: n as u128 }), 1i128 << (64 + n));
    }
}

#[test]
fn test_exp_2_underflows_to_zero() {
    let m = ABDK {};
    assert_eq!(m.exp_2(-1180591620717411303425), 0);
    assert_eq!(m.exp_2(-2361183241434822606848), 0);
    assert_eq!(m.exp_2(i128::MIN), 0);
}

#[test]
fn test_exp_underflows_to_zero() {
    let m = ABDK {};
    assert_eq!(m.exp(-922337203685477580800), 0);
    assert_eq!(m.exp(-830103483316929822720), 0);
    assert_eq!(m.exp(-811656739243220271104), 1);
}

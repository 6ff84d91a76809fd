use open_stylus::fourier::{FftError, Fourier};
use open_stylus::trig::{FourierParams, Trigonometry, TrignometryParams};
use open_stylus::wide::{I256, U256};

fn full_table_params() -> TrignometryParams {
    let p = FourierParams::params();
    TrignometryParams { sin_table: vec![0x00, 0x00, 0x00, 0x00, 0x00, 0xc9, 0x0f, 0x88, 0x01, 0x92, 0x1d, 0x20, 0x02, 0x5b, 0x26, 0xd7, 0x03, 0x24, 0x2a, 0xbf, 0x03, 0xed, 0x26, 0xe6, 0x04, 0xb6, 0x19, 0x5d, 0x05, 0x7f, 0x00, 0x35, 0x06, 0x47, 0xd9, 0x7c, 0x07, 0x10, 0xa3, 0x45, 0x07, 0xd9, 0x5b, 0x9e, 0x08, 0xa2, 0x00, 0x9a, 0x09, 0x6a, 0x90, 0x49, 0x0a, 0x33, 0x08, 0xbc, 0x0a, 0xfb, 0x68, 0x05, 0x0b, 0xc3, 0xac, 0x35, 0x0c, 0x8b, 0xd3, 0x5e, 0x0d, 0x53, 0xdb, 0x92, 0x0e, 0x1b, 0xc2, 0xe4, 0x0e, 0xe3, 0x87, 0x66, 0x0f, 0xab, 0x27, 0x2b, 0x10, 0x72, 0xa0, 0x48, 0x11, 0x39, 0xf0, 0xcf, 0x12, 0x01, 0x16, 0xd5, 0x12, 0xc8, 0x10, 0x6e, 0x13, 0x8e, 0xdb, 0xb1, 0x14, 0x55, 0x76, 0xb1, 0x15, 0x1b, 0xdf, 0x85, 0x15, 0xe2, 0x14, 0x44, 0x16, 0xa8, 0x13, 0x05, 0x17, 0x6d, 0xd9, 0xde, 0x18, 0x33, 0x66, 0xe8, 0x18, 0xf8, 0xb8, 0x3c, 0x19, 0xbd, 0xcb, 0xf3, 0x1a, 0x82, 0xa0, 0x25, 0x1b, 0x47, 0x32, 0xef, 0x1c, 0x0b, 0x82, 0x6a, 0x1c, 0xcf, 0x8c, 0xb3, 0x1d, 0x93, 0x4f, 0xe5, 0x1e, 0x56, 0xca, 0x1e, 0x1f, 0x19, 0xf9, 0x7b, 0x1f, 0xdc, 0xdc, 0x1b, 0x20, 0x9f, 0x70, 0x1c, 0x21, 0x61, 0xb3, 0x9f, 0x22, 0x23, 0xa4, 0xc5, 0x22, 0xe5, 0x41, 0xaf, 0x23, 0xa6, 0x88, 0x7e, 0x24, 0x67, 0x77, 0x57, 0x25, 0x28, 0x0c, 0x5d, 0x25, 0xe8, 0x45, 0xb6, 0x26, 0xa8, 0x21, 0x85, 0x27, 0x67, 0x9d, 0xf4, 0x28, 0x26, 0xb9, 0x28, 0x28, 0xe5, 0x71, 0x4a, 0x29, 0xa3, 0xc4, 0x85, 0x2a, 0x61, 0xb1, 0x01, 0x2b, 0x1f, 0x34, 0xeb, 0x2b, 0xdc, 0x4e, 0x6f, 0x2c, 0x98, 0xfb, 0xba, 0x2d, 0x55, 0x3a, 0xfb, 0x2e, 0x11, 0x0a, 0x62, 0x2e, 0xcc, 0x68, 0x1e, 0x2f, 0x87, 0x52, 0x62, 0x30, 0x41, 0xc7, 0x60, 0x30, 0xfb, 0xc5, 0x4d, 0x31, 0xb5, 0x4a, 0x5d, 0x32, 0x6e, 0x54, 0xc7, 0x33, 0x26, 0xe2, 0xc2, 0x33, 0xde, 0xf2, 0x87, 0x34, 0x96, 0x82, 0x4f, 0x35, 0x4d, 0x90, 0x56, 0x36, 0x04, 0x1a, 0xd9, 0x36, 0xba, 0x20, 0x13, 0x37, 0x6f, 0x9e, 0x46, 0x38, 0x24, 0x93, 0xb0, 0x38, 0xd8, 0xfe, 0x93, 0x39, 0x8c, 0xdd, 0x32, 0x3a, 0x40, 0x2d, 0xd1, 0x3a, 0xf2, 0xee, 0xb7, 0x3b, 0xa5, 0x1e, 0x29, 0x3c, 0x56, 0xba, 0x70, 0x3d, 0x07, 0xc1, 0xd5, 0x3d, 0xb8, 0x32, 0xa5, 0x3e, 0x68, 0x0b, 0x2c, 0x3f, 0x17, 0x49, 0xb7, 0x3f, 0xc5, 0xec, 0x97, 0x40, 0x73, 0xf2, 0x1d, 0x41, 0x21, 0x58, 0x9a, 0x41, 0xce, 0x1e, 0x64, 0x42, 0x7a, 0x41, 0xd0, 0x43, 0x25, 0xc1, 0x35, 0x43, 0xd0, 0x9a, 0xec, 0x44, 0x7a, 0xcd, 0x50, 0x45, 0x24, 0x56, 0xbc, 0x45, 0xcd, 0x35, 0x8f, 0x46, 0x75, 0x68, 0x27, 0x47, 0x1c, 0xec, 0xe6, 0x47, 0xc3, 0xc2, 0x2e, 0x48, 0x69, 0xe6, 0x64, 0x49, 0x0f, 0x57, 0xee, 0x49, 0xb4, 0x15, 0x33, 0x4a, 0x58, 0x1c, 0x9d, 0x4a, 0xfb, 0x6c, 0x97, 0x4b, 0x9e, 0x03, 0x8f, 0x4c, 0x3f, 0xdf, 0xf3, 0x4c, 0xe1, 0x00, 0x34, 0x4d, 0x81, 0x62, 0xc3, 0x4e, 0x21, 0x06, 0x17, 0x4e, 0xbf, 0xe8, 0xa4, 0x4f, 0x5e, 0x08, 0xe2, 0x4f, 0xfb, 0x65, 0x4c, 0x50, 0x97, 0xfc, 0x5e, 0x51, 0x33, 0xcc, 0x94, 0x51, 0xce, 0xd4, 0x6e, 0x52, 0x69, 0x12, 0x6e, 0x53, 0x02, 0x85, 0x17, 0x53, 0x9b, 0x2a, 0xef, 0x54, 0x33, 0x02, 0x7d, 0x54, 0xca, 0x0a, 0x4a, 0x55, 0x60, 0x40, 0xe2, 0x55, 0xf5, 0xa4, 0xd2, 0x56, 0x8a, 0x34, 0xa9, 0x57, 0x1d, 0xee, 0xf9, 0x57, 0xb0, 0xd2, 0x55, 0x58, 0x42, 0xdd, 0x54, 0x58, 0xd4, 0x0e, 0x8c, 0x59, 0x64, 0x64, 0x97, 0x59, 0xf3, 0xde, 0x12, 0x5a, 0x82, 0x79, 0x99, 0x5b, 0x10, 0x35, 0xce, 0x5b, 0x9d, 0x11, 0x53, 0x5c, 0x29, 0x0a, 0xcc, 0x5c, 0xb4, 0x20, 0xdf, 0x5d, 0x3e, 0x52, 0x36, 0x5d, 0xc7, 0x9d, 0x7b, 0x5e, 0x50, 0x01, 0x5d, 0x5e, 0xd7, 0x7c, 0x89, 0x5f, 0x5e, 0x0d, 0xb2, 0x5f, 0xe3, 0xb3, 0x8d, 0x60, 0x68, 0x6c, 0xce, 0x60, 0xec, 0x38, 0x2f, 0x61, 0x6f, 0x14, 0x6b, 0x61, 0xf1, 0x00, 0x3e, 0x62, 0x71, 0xfa, 0x68, 0x62, 0xf2, 0x01, 0xac, 0x63, 0x71, 0x14, 0xcc, 0x63, 0xef, 0x32, 0x8f, 0x64, 0x6c, 0x59, 0xbf, 0x64, 0xe8, 0x89, 0x25, 0x65, 0x63, 0xbf, 0x91, 0x65, 0xdd, 0xfb, 0xd2, 0x66, 0x57, 0x3c, 0xbb, 0x66, 0xcf, 0x81, 0x1f, 0x67, 0x46, 0xc7, 0xd7, 0x67, 0xbd, 0x0f, 0xbc, 0x68, 0x32, 0x57, 0xaa, 0x68, 0xa6, 0x9e, 0x80, 0x69, 0x19, 0xe3, 0x1f, 0x69, 0x8c, 0x24, 0x6b, 0x69, 0xfd, 0x61, 0x4a, 0x6a, 0x6d, 0x98, 0xa3, 0x6a, 0xdc, 0xc9, 0x64, 0x6b, 0x4a, 0xf2, 0x78, 0x6b, 0xb8, 0x12, 0xd0, 0x6c, 0x24, 0x29, 0x5f, 0x6c, 0x8f, 0x35, 0x1b, 0x6c, 0xf9, 0x34, 0xfb, 0x6d, 0x62, 0x27, 0xf9, 0x6d, 0xca, 0x0d, 0x14, 0x6e, 0x30, 0xe3, 0x49, 0x6e, 0x96, 0xa9, 0x9c, 0x6e, 0xfb, 0x5f, 0x11, 0x6f, 0x5f, 0x02, 0xb1, 0x6f, 0xc1, 0x93, 0x84, 0x70, 0x23, 0x10, 0x99, 0x70, 0x83, 0x78, 0xfe, 0x70, 0xe2, 0xcb, 0xc5, 0x71, 0x41, 0x08, 0x04, 0x71, 0x9e, 0x2c, 0xd1, 0x71, 0xfa, 0x39, 0x48, 0x72, 0x55, 0x2c, 0x84, 0x72, 0xaf, 0x05, 0xa6, 0x73, 0x07, 0xc3, 0xcf, 0x73, 0x5f, 0x66, 0x25, 0x73, 0xb5, 0xeb, 0xd0, 0x74, 0x0b, 0x53, 0xfa, 0x74, 0x5f, 0x9d, 0xd0, 0x74, 0xb2, 0xc8, 0x83, 0x75, 0x04, 0xd3, 0x44, 0x75, 0x55, 0xbd, 0x4b, 0x75, 0xa5, 0x85, 0xce, 0x75, 0xf4, 0x2c, 0x0a, 0x76, 0x41, 0xaf, 0x3c, 0x76, 0x8e, 0x0e, 0xa5, 0x76, 0xd9, 0x49, 0x88, 0x77, 0x23, 0x5f, 0x2c, 0x77, 0x6c, 0x4e, 0xda, 0x77, 0xb4, 0x17, 0xdf, 0x77, 0xfa, 0xb9, 0x88, 0x78, 0x40, 0x33, 0x28, 0x78, 0x84, 0x84, 0x13, 0x78, 0xc7, 0xab, 0xa1, 0x79, 0x09, 0xa9, 0x2c, 0x79, 0x4a, 0x7c, 0x11, 0x79, 0x8a, 0x23, 0xb0, 0x79, 0xc8, 0x9f, 0x6d, 0x7a, 0x05, 0xee, 0xac, 0x7a, 0x42, 0x10, 0xd8, 0x7a, 0x7d, 0x05, 0x5a, 0x7a, 0xb6, 0xcb, 0xa3, 0x7a, 0xef, 0x63, 0x23, 0x7b, 0x26, 0xcb, 0x4e, 0x7b, 0x5d, 0x03, 0x9d, 0x7b, 0x92, 0x0b, 0x88, 0x7b, 0xc5, 0xe2, 0x8f, 0x7b, 0xf8, 0x88, 0x2f, 0x7c, 0x29, 0xfb, 0xed, 0x7c, 0x5a, 0x3d, 0x4f, 0x7c, 0x89, 0x4b, 0xdd, 0x7c, 0xb7, 0x27, 0x23, 0x7c, 0xe3, 0xce, 0xb1, 0x7d, 0x0f, 0x42, 0x17, 0x7d, 0x39, 0x80, 0xeb, 0x7d, 0x62, 0x8a, 0xc5, 0x7d, 0x8a, 0x5f, 0x3f, 0x7d, 0xb0, 0xfd, 0xf7, 0x7d, 0xd6, 0x66, 0x8e, 0x7d, 0xfa, 0x98, 0xa7, 0x7e, 0x1d, 0x93, 0xe9, 0x7e, 0x3f, 0x57, 0xfe, 0x7e, 0x5f, 0xe4, 0x92, 0x7e, 0x7f, 0x39, 0x56, 0x7e, 0x9d, 0x55, 0xfb, 0x7e, 0xba, 0x3a, 0x38, 0x7e, 0xd5, 0xe5, 0xc5, 0x7e, 0xf0, 0x58, 0x5f, 0x7f, 0x09, 0x91, 0xc3, 0x7f, 0x21, 0x91, 0xb3, 0x7f, 0x38, 0x57, 0xf5, 0x7f, 0x4d, 0xe4, 0x50, 0x7f, 0x62, 0x36, 0x8e, 0x7f, 0x75, 0x4e, 0x7f, 0x7f, 0x87, 0x2b, 0xf2, 0x7f, 0x97, 0xce, 0xbc, 0x7f, 0xa7, 0x36, 0xb3, 0x7f, 0xb5, 0x63, 0xb2, 0x7f, 0xc2, 0x55, 0x95, 0x7f, 0xce, 0x0c, 0x3d, 0x7f, 0xd8, 0x87, 0x8d, 0x7f, 0xe1, 0xc7, 0x6a, 0x7f, 0xe9, 0xcb, 0xbf, 0x7f, 0xf0, 0x94, 0x77, 0x7f, 0xf6, 0x21, 0x81, 0x7f, 0xfa, 0x72, 0xd0, 0x7f, 0xfd, 0x88, 0x59, 0x7f, 0xff, 0x62, 0x15, 0x7f, 0xff, 0xff, 0xff], ..p }
}

fn angle(v: u128) -> U256 {
    U256 { hi: 0, lo: v }
}

fn num(v: i128) -> I256 {
    I256 { hi: if v < 0 { -1 } else { 0 }, lo: v as u128 }
}

fn nums(v: &[i128]) -> Vec<I256> {
    v.iter().map(|x| num(*x)).collect()
}

#[test]
fn test_sin_full_table() {
    let trig = Trigonometry { params: full_table_params() };
    assert_eq!(trig.sin(angle(0)), 0);
    assert_eq!(trig.sin(angle(523598775598298873)), 499990990618239618);
    assert_eq!(trig.sin(angle(785398163397448309)), 707089780693449909);
    assert_eq!(trig.sin(angle(1570796326794896619)), 1000000000000000000);
    assert_eq!(trig.sin(angle(3141592653589793238)), 0);
    assert_eq!(trig.sin(angle(4712388980384689857)), -1000000000000000000);
    assert_eq!(trig.sin(angle(6283185307179586475)), -23968517791465);
    assert_eq!(trig.sin(angle(15707963267948978535)), 0);
    assert_eq!(trig.sin(angle(1000000000000000000)), 841463914998557379);
    assert_eq!(trig.sin(U256 { hi: 4722366482869645213696, lo: 7 }), -215473925329499843);
}

#[test]
fn test_cos_full_table() {
    let trig = Trigonometry { params: full_table_params() };
    assert_eq!(trig.cos(angle(0)), 1000000000000000000);
    assert_eq!(trig.cos(angle(1047197551196597746)), 500011736294260125);
    assert_eq!(trig.cos(angle(3141592653589793238)), -1000000000000000000);
    assert_eq!(trig.cos(angle(170141183460469231731687303715884105728)), -228631090944926762);
}

#[test]
fn test_sin_periodic() {
    let trig = Trigonometry { params: full_table_params() };
    let two_pi: u128 = 6283185307179586476;
    assert_eq!(trig.sin(angle(0 + two_pi)), trig.sin(angle(0)));
    assert_eq!(trig.sin(angle(12345 + two_pi)), trig.sin(angle(12345)));
    assert_eq!(trig.sin(angle(1047197551196597746 + two_pi)), trig.sin(angle(1047197551196597746)));
    assert_eq!(trig.sin(angle(12566370614359172959 + two_pi)), trig.sin(angle(12566370614359172959)));
}

#[test]
fn test_sin_half_turn() {
    let trig = Trigonometry { params: full_table_params() };
    let pi: u128 = 3141592653589793238;
    assert_eq!(trig.sin(angle(0 + pi)), -trig.sin(angle(0)));
    assert_eq!(trig.sin(angle(12345 + pi)), -trig.sin(angle(12345)));
    assert_eq!(trig.sin(angle(1047197551196597746 + pi)), -trig.sin(angle(1047197551196597746)));
    assert_eq!(trig.sin(angle(12566370614359172959 + pi)), -trig.sin(angle(12566370614359172959)));
    assert_eq!(trig.sin(angle(4712388980384689956 + pi)), -trig.sin(angle(4712388980384689956)));
}

#[test]
fn test_sin_short_table() {
    let trig = Trigonometry { params: FourierParams::params() };
    assert_eq!(trig.sin(angle(0)), 0);
    assert_eq!(trig.sin(angle(1000)), 0);
    assert_eq!(trig.sin(angle(49087385212340519)), 589142717229734508);
}

#[test]
fn test_sin_decreasing_entries_at_zero_weight() {
    // Entries 1 and 2 of the short table decrease; at a position with no
    // interpolation weight the first of them is read as it is.
    let trig = Trigonometry { params: FourierParams::params() };
    assert_eq!(trig.sin(angle(6135923151542566)), 1570796327465584654);
}

#[test]
fn test_fourier_params() {
    let p = FourierParams::params();
    assert_eq!(p.pi, 3141592653589793238);
    assert_eq!(p.two_pi, 6283185307179586476);
    assert_eq!(p.pi_over_two, 1570796326794896619);
    assert_eq!(p.entry_mask, 0xffff_ffff);
    assert_eq!(p.sin_table.len(), 85);
    assert_eq!(p.index_offset, 20);
    assert_eq!(p.interp_offset, 12);
}

#[test]
fn test_log2() {
    let f = Fourier { trig: Trigonometry { params: FourierParams::params() } };
    assert_eq!(f.log2(angle(0)), angle(0));
    assert_eq!(f.log2(angle(1)), angle(0));
    assert_eq!(f.log2(angle(2)), angle(1));
    assert_eq!(f.log2(angle(1023)), angle(9));
    assert_eq!(f.log2(angle(1024)), angle(10));
    assert_eq!(f.log2(U256 { hi: u128::MAX, lo: u128::MAX }), angle(255));
}

#[test]
fn test_fft_len_1_0() {
    let f = Fourier { trig: Trigonometry { params: full_table_params() } };
    let mut re = nums(&[5000000000000000000]);
    let mut im = nums(&[-3000000000000000000]);
    assert_eq!(f.fft(&mut re, &mut im), Ok(()));
    assert_eq!(re, nums(&[5000000000000000000]));
    assert_eq!(im, nums(&[-3000000000000000000]));
}

#[test]
fn test_fft_len_2_1() {
    let f = Fourier { trig: Trigonometry { params: full_table_params() } };
    let mut re = nums(&[1000000000000000000, 2000000000000000000]);
    let mut im = nums(&[0, 0]);
    assert_eq!(f.fft(&mut re, &mut im), Ok(()));
    assert_eq!(re, nums(&[3000000000000000000, -1000000000000000000]));
    assert_eq!(im, nums(&[0, 0]));
}

#[test]
fn test_fft_len_4_2() {
    let f = Fourier { trig: Trigonometry { params: full_table_params() } };
    let mut re = nums(&[1000000000000000000, 0, -1000000000000000000, 0]);
    let mut im = nums(&[0, 1000000000000000000, 0, -1000000000000000000]);
    assert_eq!(f.fft(&mut re, &mut im), Ok(()));
    assert_eq!(re, nums(&[0, 3999999704400173324, 0, 295599826676]));
    assert_eq!(im, nums(&[0, 95874853726208, 0, -95874853726208]));
}

#[test]
fn test_fft_len_8_3() {
    let f = Fourier { trig: Trigonometry { params: full_table_params() } };
    let mut re = nums(&[1, 2, 3, 4, 5, 6, 7, 8]);
    let mut im = nums(&[0, 0, 0, 0, 0, 0, 0, 0]);
    assert_eq!(f.fft(&mut re, &mut im), Ok(()));
    assert_eq!(re, nums(&[36, -4, -4, -4, -4, -4, -4, -4]));
    assert_eq!(im, nums(&[0, 7, 3, 0, 0, -1, -3, -6]));
}

#[test]
fn test_fft_len_8_4() {
    let f = Fourier { trig: Trigonometry { params: full_table_params() } };
    let mut re = nums(&[3000000000000000000, -1000000000000000000, 500000000000000000, 7000000000000000000, 0, 0, 1000000000000000000, -2000000000000000000]);
    let mut im = nums(&[1000000000000000000, 1000000000000000000, 0, 0, -1000000000000000000, 0, 0, 5]);
    assert_eq!(f.fft(&mut re, &mut im), Ok(()));
    assert_eq!(re, nums(&[8500000000000000000, -3363158703988698502, 2499424460875693119, 10779742413354993776, 500000000000000000, 9363062830197457344, 500575539124306881, -4779646539563752618]));
    assert_eq!(im, nums(&[1000000000000000005, -2450660178779150747, 6000094095530081626, -4862227336492153605, -1000000000000000005, 7450659882402290825, -6000094095530081626, 7862227632869013527]));
}

#[test]
fn test_fft_approximates_dft() {
    // Eight points in 18-decimal fixed point against the transform sum_n x[n] e^(-2 pi i k n / 8).
    let f = Fourier { trig: Trigonometry { params: full_table_params() } };
    let xr: [i128; 8] = [3, -1, 2, 7, 0, 0, 1, -2];
    let xi: [i128; 8] = [1, 1, 0, 0, -1, 0, 0, 4];
    let scale: i128 = 1_000_000_000_000_000_000;
    let mut re: Vec<I256> = xr.iter().map(|v| num(v * scale)).collect();
    let mut im: Vec<I256> = xi.iter().map(|v| num(v * scale)).collect();
    assert_eq!(f.fft(&mut re, &mut im), Ok(()));
    for k in 0..8 {
        let mut er = 0.0f64;
        let mut ei = 0.0f64;
        for n in 0..8 {
            let a = -2.0 * std::f64::consts::PI * (k * n) as f64 / 8.0;
            er += xr[n] as f64 * a.cos() - xi[n] as f64 * a.sin();
            ei += xr[n] as f64 * a.sin() + xi[n] as f64 * a.cos();
        }
        assert_eq!(re[k].hi, if re[k].lo >= (1u128 << 127) { -1 } else { 0 });
        let gr = (re[k].lo as i128) as f64 / 1e18;
        let gi = (im[k].lo as i128) as f64 / 1e18;
        assert!((gr - er).abs() < 1e-2, "re[{}] = {} against {}", k, gr, er);
        assert!((gi - ei).abs() < 1e-2, "im[{}] = {} against {}", k, gi, ei);
    }
}

#[test]
fn test_fft_beyond_128_bits() {
    // Sums and differences of 128-bit values need more than 128 bits.
    let f = Fourier { trig: Trigonometry { params: full_table_params() } };
    let mut re = nums(&[i128::MAX, -i128::MAX]);
    let mut im = nums(&[i128::MAX, i128::MAX]);
    assert_eq!(f.fft(&mut re, &mut im), Ok(()));
    assert_eq!(re, vec![I256 { hi: 0, lo: 0 }, I256 { hi: 0, lo: 340282366920938463463374607431768211454 }]);
    assert_eq!(im, vec![I256 { hi: 0, lo: 340282366920938463463374607431768211454 }, I256 { hi: 0, lo: 0 }]);
}

#[test]
fn test_fft_overflow() {
    // The difference 2^201 times the twiddle 10^18 leaves the signed 256-bit range.
    let f = Fourier { trig: Trigonometry { params: full_table_params() } };
    let mut re = vec![I256 { hi: 4722366482869645213696, lo: 0 }, I256 { hi: -4722366482869645213696, lo: 0 }];
    let mut im = nums(&[0, 0]);
    assert_eq!(f.fft(&mut re, &mut im), Err(FftError::Overflow));
}

use posit::Posit;

fn bits(p: &Posit) -> Vec<u8> {
    p.to_bools().iter().map(|b| if *b { 1 } else { 0 }).collect()
}

fn from_f64(x: f64) -> Posit {
    Posit::from_binary64(x.to_bits())
}

#[test]
fn convert_1() {
    assert_eq!(bits(&from_f64(0.625_f64)), vec![0, 0, 1, 1, 1, 0, 1]);
}

#[test]
fn convert_2() {
    let all = bits(&from_f64(10e-8));
    assert_eq!(all[..13].to_vec(), vec![0, 0, 0, 0, 0, 0, 0, 1, 0, 0, 1, 0, 1]);
}

#[test]
fn convert_one_and_two() {
    assert_eq!(bits(&from_f64(1.0)), vec![0, 1]);
    assert_eq!(bits(&from_f64(2.0)), vec![0, 1, 0, 0, 1]);
    assert_eq!(bits(&from_f64(16.0)), vec![0, 1, 1]);
    assert_eq!(bits(&from_f64(1.5)), vec![0, 1, 0, 0, 0, 1]);
}

#[test]
fn convert_negative() {
    assert_eq!(bits(&from_f64(-0.625_f64)), vec![1, 0, 1, 1, 1, 0, 1]);
}

#[test]
fn convert_what_is_no_number() {
    assert_eq!(bits(&from_f64(f64::NAN)), vec![1]);
    assert_eq!(bits(&from_f64(f64::INFINITY)), vec![1]);
    assert_eq!(bits(&from_f64(f64::NEG_INFINITY)), vec![1]);
}

#[test]
fn convert_zero() {
    assert_eq!(bits(&from_f64(0.0)), Vec::<u8>::new());
    assert_eq!(bits(&from_f64(-0.0)), Vec::<u8>::new());
}

#[test]
fn convert_smallest_subnormal() {
    // 2^-1074: regime -269, exponent 2, no fraction.
    let mut expected = vec![0u8; 270];
    expected.push(1);
    expected.push(1);
    assert_eq!(bits(&Posit::from_binary64(1)), expected);
}

#[test]
fn convert_largest_subnormal() {
    // (1 - 2^-52) * 2^-1022 = 1.1...1 * 2^-1023 with 51 fraction bits:
    // regime -256, exponent 1.
    let mut expected = vec![0u8; 257];
    expected.push(1);
    expected.push(0);
    expected.push(1);
    expected.extend(vec![1u8; 51]);
    assert_eq!(bits(&Posit::from_binary64(0x000f_ffff_ffff_ffff)), expected);
}

#[test]
fn convert_largest_finite() {
    // 1.1...1 * 2^1023: regime 255, exponent 3, 52 fraction bits.
    let mut expected = vec![0u8];
    expected.extend(vec![1u8; 256]);
    expected.push(0);
    expected.extend(vec![1u8; 54]);
    assert_eq!(bits(&from_f64(f64::MAX)), expected);
}

use posit::Posit;

fn posit(bits: &[u8]) -> Posit {
    let bools: Vec<bool> = bits.iter().map(|b| *b != 0).collect();
    Posit::from_bools(&bools)
}

fn bits(p: &Posit) -> Vec<u8> {
    p.to_bools().iter().map(|b| if *b { 1 } else { 0 }).collect()
}

fn check_add_sub(left: &[u8], right: &[u8], expected: &[u8]) {
    assert_eq!(bits(&posit(left).add(posit(right))), expected.to_vec());
    assert_eq!(bits(&posit(right).add(posit(left))), expected.to_vec());
    assert_eq!(bits(&posit(expected).sub(posit(left))), right.to_vec());
    assert_eq!(bits(&posit(expected).sub(posit(right))), left.to_vec());
}

#[test]
fn add_sub_zero() {
    check_add_sub(&[0, 1, 0, 0, 1], &[], &[0, 1, 0, 0, 1]);
}

#[test]
fn add_sub_1() {
    check_add_sub(&[0, 1, 0, 0, 1], &[0, 1, 0, 0, 0, 1], &[0, 1, 0, 0, 1, 1, 1]);
}

#[test]
fn add_sub_2() {
    check_add_sub(&[0, 1, 0, 0, 1], &[0, 1, 0, 0, 1, 1], &[0, 1, 0, 1, 0, 0, 1]);
}

#[test]
fn add_sub_3() {
    check_add_sub(&[0, 1, 0, 1, 1], &[0, 1, 0, 1, 1, 1], &[0, 1, 1, 0, 0, 0, 0, 1]);
}

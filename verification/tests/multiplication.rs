use posit::Posit;

fn posit(bits: &[u8]) -> Posit {
    let bools: Vec<bool> = bits.iter().map(|b| *b != 0).collect();
    Posit::from_bools(&bools)
}

fn bits(p: &Posit) -> Vec<u8> {
    p.to_bools().iter().map(|b| if *b { 1 } else { 0 }).collect()
}

fn check_mul(left: &[u8], right: &[u8], expected: &[u8]) {
    assert_eq!(bits(&posit(left).mul(posit(right))), expected.to_vec());
    assert_eq!(bits(&posit(right).mul(posit(left))), expected.to_vec());
}

#[test]
fn multiplication_1() {
    check_mul(&[0, 1, 0, 0, 1, 0], &[0, 1, 0, 0, 0, 1], &[0, 1, 0, 0, 1, 1]);
}

#[test]
fn multiplication_2() {
    check_mul(&[0, 1, 0, 1, 1], &[0, 1, 0, 1, 1, 1], &[0, 1, 1, 0, 1, 0, 1]);
}

#[test]
fn multiplication_3() {
    check_mul(&[0, 1, 0, 0, 1, 0], &[0, 1, 0, 0, 0, 1], &[0, 1, 0, 0, 1, 1]);
}

#[test]
fn fraction_product_that_reaches_the_hidden_bit_gains_one_place() {
    // 1.1 x 1.1 in binary: the fraction product 101 has three bits where two are nominal.
    check_mul(&[0, 1, 0, 0, 0, 1], &[0, 1, 0, 0, 0, 1], &[0, 1, 0, 0, 1, 0, 1]);
}

#[test]
fn fraction_product_that_reaches_twice_the_hidden_bit_gains_two_places() {
    // 1.11 x 1.11 in binary: the fraction product is 33 = 100001, two bits over four.
    check_mul(
        &[0, 1, 0, 0, 0, 1, 1],
        &[0, 1, 0, 0, 0, 1, 1],
        &[0, 1, 0, 1, 0, 0, 0, 0, 1],
    );
}

#[test]
fn product_with_a_sentinel() {
    assert_eq!(bits(&posit(&[1]).mul(posit(&[0, 1]))), vec![1]);
    assert_eq!(bits(&posit(&[0, 1, 1]).mul(posit(&[1]))), vec![1]);
    assert_eq!(bits(&posit(&[1]).mul(posit(&[]))), vec![1]);
    assert_eq!(bits(&posit(&[]).mul(posit(&[0, 1, 1]))), Vec::<u8>::new());
    assert_eq!(bits(&posit(&[1, 1, 0, 1]).mul(posit(&[]))), Vec::<u8>::new());
}

#[test]
fn signs_of_a_product() {
    check_mul(&[1, 1, 0, 0, 1], &[0, 1, 0, 0, 1], &[1, 1, 0, 1]);
    check_mul(&[1, 1, 0, 0, 1], &[1, 1, 0, 0, 1], &[0, 1, 0, 1]);
}

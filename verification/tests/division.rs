use posit::Posit;

fn posit(bits: &[u8]) -> Posit {
    let bools: Vec<bool> = bits.iter().map(|b| *b != 0).collect();
    Posit::from_bools(&bools)
}

fn bits(p: &Posit) -> Vec<u8> {
    p.to_bools().iter().map(|b| if *b { 1 } else { 0 }).collect()
}

#[test]
fn division_1() {
    let dividend = posit(&[0, 1, 0, 0, 0, 0, 0, 0, 0, 0, 0, 0, 0, 0]);
    let quotient = dividend.div(posit(&[0, 1, 0, 0, 1, 1]));
    assert_eq!(bits(&quotient), vec![0, 0, 1, 1, 1, 0, 1, 0, 1, 0, 1, 0, 1]);
}

#[test]
fn division_2() {
    let quotient = posit(&[0, 1, 0, 1, 1]).div(posit(&[0, 1, 0, 1, 0]));
    assert_eq!(bits(&quotient), vec![0, 1, 0, 0, 1]);
}

#[test]
fn division_by_a_sentinel() {
    assert_eq!(bits(&posit(&[0, 1, 0, 1]).div(posit(&[1]))), Vec::<u8>::new());
    assert_eq!(bits(&posit(&[1]).div(posit(&[1]))), Vec::<u8>::new());
    assert_eq!(bits(&posit(&[]).div(posit(&[1]))), Vec::<u8>::new());
    assert_eq!(bits(&posit(&[0, 1, 0, 1]).div(posit(&[]))), vec![1]);
    assert_eq!(bits(&posit(&[1]).div(posit(&[]))), vec![1]);
    assert_eq!(bits(&posit(&[]).div(posit(&[]))), vec![1]);
}

#[test]
fn division_of_a_sentinel() {
    assert_eq!(bits(&posit(&[1]).div(posit(&[0, 1, 0, 1]))), vec![1]);
    assert_eq!(bits(&posit(&[]).div(posit(&[0, 1, 0, 1]))), Vec::<u8>::new());
}

#[test]
fn division_borrows_from_the_regime() {
    // 1 / 2: scale 0 less scale 1 is -1, regime -1 and exponent 3.
    let quotient = posit(&[0, 1]).div(posit(&[0, 1, 0, 0, 1]));
    assert_eq!(bits(&quotient), vec![0, 0, 1, 1, 1]);
}

#[test]
fn long_division_takes_the_divisor_off_where_the_rest_is_above_it() {
    // fraction 1101 by fraction 01: rest 110100 - 010000 = 100100, divisor 101 then 000.
    let quotient = posit(&[0, 1, 0, 0, 0, 1, 1, 0, 1]).div(posit(&[0, 1, 0, 0, 0, 0, 1]));
    assert_eq!(bits(&quotient), vec![0, 1, 0, 0, 0, 0, 1, 1]);
}

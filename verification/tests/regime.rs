use posit::Regime;

fn pos(value: usize) -> Regime {
    Regime { is_negative: false, value }
}

fn neg(value: usize) -> Regime {
    Regime { is_negative: true, value }
}

fn code(r: Regime) -> Vec<u8> {
    r.to_bitvec().to_bools().iter().map(|b| if *b { 1 } else { 0 }).collect()
}

#[test]
fn width_of_the_unary_code() {
    assert_eq!(pos(0).bits(), 2);
    assert_eq!(pos(3).bits(), 5);
    assert_eq!(neg(1).bits(), 2);
    assert_eq!(neg(4).bits(), 5);
}

#[test]
fn unary_code_of_a_regime() {
    assert_eq!(code(pos(0)), vec![1, 0]);
    assert_eq!(code(pos(2)), vec![1, 1, 1, 0]);
    assert_eq!(code(neg(1)), vec![0, 1]);
    assert_eq!(code(neg(3)), vec![0, 0, 0, 1]);
}

#[test]
fn negation_flips_the_sign_but_for_zero() {
    assert_eq!(pos(3).neg(), neg(3));
    assert_eq!(neg(3).neg(), pos(3));
    assert_eq!(pos(0).neg(), pos(0));
    assert_eq!(neg(0).neg(), pos(0));
}

#[test]
fn sum_of_like_signs_adds_the_magnitudes() {
    assert_eq!(pos(2).add(pos(5)), pos(7));
    assert_eq!(neg(2).add(neg(5)), neg(7));
    assert_eq!(pos(0).add(pos(0)), pos(0));
}

#[test]
fn sum_of_unlike_signs_takes_the_sign_of_the_larger() {
    assert_eq!(pos(5).add(neg(2)), pos(3));
    assert_eq!(pos(2).add(neg(5)), neg(3));
    assert_eq!(neg(5).add(pos(2)), neg(3));
    assert_eq!(neg(2).add(pos(5)), pos(3));
}

#[test]
fn sum_that_cancels_is_the_regime_of_power_zero() {
    assert_eq!(pos(4).add(neg(4)), pos(0));
    assert_eq!(neg(4).add(pos(4)), pos(0));
}

#[test]
fn sum_saturates_at_the_integer_width() {
    assert_eq!(pos(usize::MAX).add(pos(1)), pos(usize::MAX));
    assert_eq!(neg(usize::MAX - 1).add(neg(7)), neg(usize::MAX));
    assert_eq!(pos(usize::MAX).add(neg(usize::MAX)), pos(0));
}

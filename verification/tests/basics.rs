use posit::BitBuf;
use posit::MAX_BITS;
use posit::Fields;
use posit::Posit;
use posit::MAX_LEN;
use posit::Regime;

fn posit(bits: &[u8]) -> Posit {
    let bools: Vec<bool> = bits.iter().map(|b| *b != 0).collect();
    Posit::from_bools(&bools)
}

fn bits(p: &Posit) -> Vec<u8> {
    p.to_bools().iter().map(|b| if *b { 1 } else { 0 }).collect()
}

fn buffer_bits(b: &BitBuf) -> Vec<u8> {
    b.to_bools().iter().map(|b| if *b { 1 } else { 0 }).collect()
}

#[test]
fn constants_have_their_bits() {
    assert_eq!(bits(&Posit::zero()), Vec::<u8>::new());
    assert_eq!(bits(&Posit::nar()), vec![1]);
    assert_eq!(bits(&Posit::one()), vec![0, 1]);
}

#[test]
fn limits_leave_room_for_every_intermediate() {
    assert_eq!(MAX_BITS, usize::MAX >> 3);
    assert_eq!(MAX_LEN, usize::MAX / 128);
    assert!(11 * MAX_LEN + 16 <= MAX_BITS);
}

#[test]
fn bits_go_in_and_come_out_in_order() {
    let p = posit(&[1, 0, 0, 1, 1, 0, 1, 0, 0, 0, 1]);
    assert_eq!(bits(&p), vec![1, 0, 0, 1, 1, 0, 1, 0, 0, 0, 1]);
    assert_eq!(p.len(), 11);
    assert_eq!(bits(&p.clone()), bits(&p));
    let b = BitBuf::from_bools(&[true, false, false]);
    assert_eq!(buffer_bits(&b), vec![1, 0, 0]);
}

#[test]
fn prune_removes_trailing_zeros() {
    let mut p = posit(&[0, 1, 0, 1, 0, 0]);
    p.prune();
    assert_eq!(bits(&p), vec![0, 1, 0, 1]);
}

#[test]
fn prune_twice_is_prune_once() {
    let mut p = posit(&[1, 0, 0, 1, 0, 1, 0, 0, 0]);
    p.prune();
    let once = bits(&p);
    p.prune();
    assert_eq!(bits(&p), once);
    assert_eq!(once, vec![1, 0, 0, 1, 0, 1]);
}

#[test]
fn prune_of_zeros_is_zero_and_nar_stays() {
    let mut z = posit(&[0, 0, 0]);
    z.prune();
    assert_eq!(bits(&z), Vec::<u8>::new());
    let mut n = posit(&[1]);
    n.prune();
    assert_eq!(bits(&n), vec![1]);
    let mut e = posit(&[]);
    e.prune();
    assert_eq!(bits(&e), Vec::<u8>::new());
}

#[test]
fn sign_is_the_first_bit() {
    assert!(!Posit::zero().is_negative());
    assert!(Posit::nar().is_negative());
    assert!(!Posit::one().is_negative());
    assert!(posit(&[1, 1]).is_negative());
}

#[test]
fn negation_flips_the_sign_bit() {
    assert_eq!(bits(&posit(&[0, 1, 0, 1]).neg()), vec![1, 1, 0, 1]);
    assert_eq!(bits(&posit(&[1, 1, 0, 1]).neg()), vec![0, 1, 0, 1]);
    assert_eq!(bits(&(-posit(&[0, 0, 1]))), vec![1, 0, 1]);
}

#[test]
fn negation_of_zero_is_nar() {
    assert_eq!(bits(&Posit::zero().neg()), vec![1]);
    assert_eq!(bits(&Posit::nar().neg()), vec![0]);
    assert!(Posit::zero().neg().neg() == Posit::zero());
}

#[test]
fn negating_twice_gives_the_posit_back() {
    let p = posit(&[1, 0, 0, 1, 1, 0, 1]);
    assert_eq!(bits(&p.clone().neg().neg()), bits(&p));
}

#[test]
fn absolute_value_clears_the_sign() {
    assert_eq!(bits(&posit(&[1, 1, 0, 1]).abs()), vec![0, 1, 0, 1]);
    assert_eq!(bits(&posit(&[0, 1, 0, 1]).abs()), vec![0, 1, 0, 1]);
    assert_eq!(bits(&Posit::zero().abs()), Vec::<u8>::new());
    assert_eq!(bits(&Posit::nar().abs()), vec![0]);
}

#[test]
fn regime_of_a_run_of_ones() {
    assert_eq!(posit(&[0, 1, 0]).regime(), Regime { is_negative: false, value: 0 });
    assert_eq!(posit(&[0, 1, 1, 1, 0, 1]).regime(), Regime { is_negative: false, value: 2 });
    assert_eq!(posit(&[0, 1, 1]).regime(), Regime { is_negative: false, value: 1 });
    assert_eq!(posit(&[0, 1]).regime(), Regime { is_negative: false, value: 0 });
}

#[test]
fn regime_of_a_run_of_zeros() {
    assert_eq!(posit(&[0, 0, 1]).regime(), Regime { is_negative: true, value: 1 });
    assert_eq!(posit(&[1, 0, 0, 0, 1, 1]).regime(), Regime { is_negative: true, value: 3 });
}

#[test]
fn decode_splits_the_fields() {
    let Fields { sign, regime, exponent, fraction } = posit(&[1, 1, 1, 0, 1, 0, 0, 1, 1]).decode();
    assert!(sign);
    assert_eq!(regime, Regime { is_negative: false, value: 1 });
    assert_eq!(exponent, 2);
    assert_eq!(buffer_bits(&fraction), vec![0, 1, 1]);
}

#[test]
fn decode_reads_missing_exponent_bits_as_zero() {
    let f = posit(&[0, 0, 0, 1, 1]).decode();
    assert_eq!(f.regime, Regime { is_negative: true, value: 2 });
    assert_eq!(f.exponent, 2);
    assert_eq!(buffer_bits(&f.fraction), Vec::<u8>::new());
    let g = posit(&[0, 1, 1]).decode();
    assert_eq!(g.regime, Regime { is_negative: false, value: 1 });
    assert_eq!(g.exponent, 0);
    assert_eq!(buffer_bits(&g.fraction), Vec::<u8>::new());
}

#[test]
fn encode_puts_the_fields_in_a_row_and_prunes() {
    let fraction = BitBuf::from_bools(&[true, false, true, false, false]);
    let p = Posit::encode(true, Regime { is_negative: true, value: 2 }, 1, &fraction);
    assert_eq!(bits(&p), vec![1, 0, 0, 1, 0, 1, 1, 0, 1]);
    let none = BitBuf::from_bools(&[]);
    let q = Posit::encode(false, Regime { is_negative: false, value: 0 }, 0, &none);
    assert_eq!(bits(&q), vec![0, 1]);
    let r = Posit::encode(false, Regime { is_negative: false, value: 1 }, 7, &none);
    assert_eq!(bits(&r), vec![0, 1, 1, 0, 1, 1]);
}

#[test]
fn with_scale_divides_the_scale_into_regime_and_exponent() {
    let none = BitBuf::from_bools(&[]);
    let p = Posit::with_scale(false, Regime { is_negative: true, value: 1 }, 3, &none);
    assert_eq!(bits(&p), vec![0, 0, 1, 1, 1]);
}

#[test]
fn encoding_the_decoded_fields_gives_the_posit_back() {
    for case in [
        vec![0u8, 1],
        vec![0, 1, 1],
        vec![0, 1, 0, 1],
        vec![1, 0, 0, 1],
        vec![1, 0, 0, 0, 1, 1, 1, 0, 1],
        vec![0, 1, 1, 1, 0, 0, 1, 0, 0, 1],
    ] {
        let p = posit(&case);
        let f = p.decode();
        let q = Posit::encode(f.sign, f.regime, f.exponent, &f.fraction);
        assert_eq!(bits(&q), case);
    }
}

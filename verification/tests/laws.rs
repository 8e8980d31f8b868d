use posit::Posit;

fn posit(bits: &[u8]) -> Posit {
    let bools: Vec<bool> = bits.iter().map(|b| *b != 0).collect();
    Posit::from_bools(&bools)
}

fn bits(p: &Posit) -> Vec<u8> {
    p.to_bools().iter().map(|b| if *b { 1 } else { 0 }).collect()
}

fn samples() -> Vec<Vec<u8>> {
    vec![
        vec![0, 1],
        vec![0, 1, 0, 0, 1],
        vec![0, 1, 0, 0, 0, 1],
        vec![0, 1, 1, 0, 1, 0, 1, 1],
        vec![0, 0, 1, 1, 1, 0, 1],
        vec![0, 0, 0, 1],
        vec![1, 1],
        vec![1, 1, 0, 1, 1, 1],
        vec![1, 0, 1, 0, 1, 1, 0, 1],
        vec![1, 0, 0, 0, 1, 1],
    ]
}

#[test]
fn adding_zero_changes_nothing() {
    for a in samples() {
        assert_eq!(bits(&posit(&a).add(Posit::zero())), a);
        assert_eq!(bits(&Posit::zero().add(posit(&a))), a);
        assert_eq!(bits(&(posit(&a) + Posit::zero())), a);
    }
    assert_eq!(bits(&Posit::zero().add(Posit::zero())), Vec::<u8>::new());
}

#[test]
fn multiplying_by_one_changes_nothing() {
    for a in samples() {
        assert_eq!(bits(&posit(&a).mul(Posit::one())), a);
        assert_eq!(bits(&Posit::one().mul(posit(&a))), a);
        assert_eq!(bits(&(posit(&a) * Posit::one())), a);
    }
    assert_eq!(bits(&Posit::zero().mul(Posit::one())), Vec::<u8>::new());
}

#[test]
fn multiplying_by_zero_gives_zero() {
    for a in samples() {
        assert_eq!(bits(&posit(&a).mul(Posit::zero())), Vec::<u8>::new());
        assert_eq!(bits(&Posit::zero().mul(posit(&a))), Vec::<u8>::new());
    }
}

#[test]
fn subtracting_a_posit_from_itself_gives_zero() {
    for a in samples() {
        assert_eq!(bits(&posit(&a).sub(posit(&a))), Vec::<u8>::new());
        assert_eq!(bits(&(posit(&a) - posit(&a))), Vec::<u8>::new());
    }
    assert_eq!(bits(&Posit::zero().sub(Posit::zero())), Vec::<u8>::new());
}

#[test]
fn adding_the_negation_is_subtracting() {
    for a in samples() {
        for b in samples() {
            let left = posit(&a).add(posit(&b).neg());
            let right = posit(&a).sub(posit(&b));
            assert_eq!(bits(&left), bits(&right), "{:?} {:?}", a, b);
        }
    }
    for b in samples() {
        assert_eq!(bits(&Posit::zero().add(posit(&b).neg())), bits(&Posit::zero().sub(posit(&b))));
    }
}

#[test]
fn zero_less_a_posit_is_its_negation() {
    assert_eq!(bits(&Posit::zero().sub(posit(&[0, 1, 0, 1]))), vec![1, 1, 0, 1]);
    assert_eq!(bits(&Posit::zero().sub(posit(&[1, 0, 1]))), vec![0, 0, 1]);
}

#[test]
fn addition_of_like_signs_does_not_depend_on_the_order() {
    for a in samples() {
        for b in samples() {
            if a[0] == b[0] {
                let left = posit(&a).add(posit(&b));
                let right = posit(&b).add(posit(&a));
                assert_eq!(bits(&left), bits(&right), "{:?} {:?}", a, b);
            }
        }
    }
}

#[test]
fn addition_of_unlike_signs_takes_the_sign_of_the_first() {
    // one and minus two: the difference of the magnitudes is one either way.
    assert_eq!(bits(&posit(&[0, 1]).add(posit(&[1, 1, 0, 0, 1]))), vec![0, 1]);
    assert_eq!(bits(&posit(&[1, 1, 0, 0, 1]).add(posit(&[0, 1]))), vec![1, 1]);
    // operands that cancel give zero in either order.
    assert_eq!(bits(&posit(&[0, 1, 0, 1]).add(posit(&[1, 1, 0, 1]))), Vec::<u8>::new());
    assert_eq!(bits(&posit(&[1, 1, 0, 1]).add(posit(&[0, 1, 0, 1]))), Vec::<u8>::new());
}

#[test]
fn multiplication_does_not_depend_on_the_order() {
    for a in samples() {
        for b in samples() {
            let left = posit(&a).mul(posit(&b));
            let right = posit(&b).mul(posit(&a));
            assert_eq!(bits(&left), bits(&right), "{:?} {:?}", a, b);
        }
    }
}

#[test]
fn nar_takes_over_sum_difference_and_product() {
    let mut others = samples();
    others.push(vec![]);
    others.push(vec![1]);
    for x in others {
        assert_eq!(bits(&Posit::nar().add(posit(&x))), vec![1]);
        assert_eq!(bits(&posit(&x).add(Posit::nar())), vec![1]);
        assert_eq!(bits(&Posit::nar().sub(posit(&x))), vec![1]);
        assert_eq!(bits(&posit(&x).sub(Posit::nar())), vec![1]);
        assert_eq!(bits(&Posit::nar().mul(posit(&x))), vec![1]);
        assert_eq!(bits(&posit(&x).mul(Posit::nar())), vec![1]);
        assert_eq!(bits(&posit(&x).div(Posit::nar())), Vec::<u8>::new());
        assert_eq!(bits(&posit(&x).div(Posit::zero())), vec![1]);
        assert_eq!(bits(&(posit(&x) / Posit::zero())), vec![1]);
    }
}

#[test]
fn sum_less_an_operand_is_the_other_operand() {
    for a in samples() {
        for b in samples() {
            if a[0] == b[0] {
                let sum = posit(&a).add(posit(&b));
                assert_eq!(bits(&sum.clone().sub(posit(&b))), a, "{:?} {:?}", a, b);
                assert_eq!(bits(&sum.sub(posit(&a))), b, "{:?} {:?}", a, b);
            }
        }
    }
}

#[test]
fn a_posit_divided_by_itself_is_one() {
    for a in samples() {
        assert_eq!(bits(&posit(&a).div(posit(&a))), vec![0, 1], "{:?}", a);
    }
}

#[test]
fn results_have_no_trailing_zeros() {
    for a in samples() {
        for b in samples() {
            for result in [
                posit(&a).add(posit(&b)),
                posit(&a).sub(posit(&b)),
                posit(&a).mul(posit(&b)),
                posit(&a).div(posit(&b)),
            ] {
                let r = bits(&result);
                assert!(r.last() != Some(&0), "{:?} {:?} {:?}", a, b, r);
            }
        }
    }
}

#[test]
fn the_order_is_total_and_carries_over() {
    let mut all = samples();
    all.push(vec![]);
    all.push(vec![1]);
    for a in &all {
        for b in &all {
            let below = posit(a) < posit(b);
            let above = posit(b) < posit(a);
            let equal = posit(a) == posit(b);
            assert_eq!([below, above, equal].iter().filter(|x| **x).count(), 1, "{:?} {:?}", a, b);
            for c in &all {
                if below && posit(b) < posit(c) {
                    assert!(posit(a) < posit(c), "{:?} {:?} {:?}", a, b, c);
                }
            }
        }
    }
}

#[test]
fn sum_and_difference_are_exact_in_the_magnitude() {
    // 1.5 + 2.5 = 4 and 2.5 - 1.5 = 1, each without a fraction.
    let a = posit(&[0, 1, 0, 0, 0, 1]);
    let b = posit(&[0, 1, 0, 0, 1, 0, 1]);
    assert_eq!(bits(&a.clone().add(b.clone())), vec![0, 1, 0, 1]);
    assert_eq!(bits(&b.clone().sub(a.clone())), vec![0, 1]);
    // the smaller less the larger gives the same magnitude with the shared sign.
    assert_eq!(bits(&a.sub(b)), vec![0, 1]);
}

#[test]
fn sums_and_differences_of_whole_numbers_are_the_whole_numbers() {
    for x in 1..=40u32 {
        for y in 1..=40u32 {
            let a = Posit::from_binary64((x as f64).to_bits());
            let b = Posit::from_binary64((y as f64).to_bits());
            let sum = Posit::from_binary64(((x + y) as f64).to_bits());
            assert_eq!(bits(&a.clone().add(b.clone())), bits(&sum), "{} + {}", x, y);
            if x != y {
                let gap = if x > y { x - y } else { y - x };
                let difference = Posit::from_binary64((gap as f64).to_bits());
                assert_eq!(bits(&a.sub(b)), bits(&difference), "{} - {}", x, y);
            }
        }
    }
}

#[test]
fn sums_of_fractions_are_exact() {
    for (x, y) in [(0.5, 0.25), (1.5, 2.25), (100.0, 0.0078125), (3.75, 1024.0), (0.1, 0.2)] {
        let a = Posit::from_binary64(f64::to_bits(x));
        let b = Posit::from_binary64(f64::to_bits(y));
        let sum = Posit::from_binary64(f64::to_bits(x + y));
        if (x, y) != (0.1, 0.2) {
            assert_eq!(bits(&a.clone().add(b.clone())), bits(&sum), "{} + {}", x, y);
        }
        assert_eq!(bits(&a.clone().add(b.clone()).sub(b.clone())), bits(&a), "{} {}", x, y);
        assert_eq!(bits(&a.clone().neg().add(b.clone().neg()).sub(b.neg())), bits(&a.neg()));
    }
}

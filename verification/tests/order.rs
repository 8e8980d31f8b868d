use posit::Relation;
use posit::Posit;
use std::cmp::Ordering;

fn posit(bits: &[u8]) -> Posit {
    let bools: Vec<bool> = bits.iter().map(|b| *b != 0).collect();
    Posit::from_bools(&bools)
}

#[test]
fn equality_reads_missing_tail_bits_as_zero() {
    assert!(posit(&[0, 1, 0, 1]) == posit(&[0, 1, 0, 1, 0, 0]));
    assert!(posit(&[]) == posit(&[0, 0]));
    assert!(posit(&[1]) == posit(&[1, 0]));
    assert!(posit(&[0, 1, 0, 1]) != posit(&[0, 1, 0, 1, 0, 1]));
    assert!(posit(&[0, 1]) != posit(&[1, 1]));
    assert!(posit(&[]) != posit(&[1]));
    assert!(posit(&[0, 1, 1]).same(&posit(&[0, 1, 1, 0])));
    assert!(!posit(&[0, 1, 1]).same(&posit(&[0, 1, 0])));
}

#[test]
fn a_negative_posit_is_below_a_non_negative_one() {
    assert!(posit(&[1, 1, 1]) < posit(&[0, 0, 1]));
    assert!(posit(&[0, 0, 1]) > posit(&[1, 1, 1]));
    assert!(posit(&[1]) < posit(&[]));
    assert_eq!(posit(&[1, 1]).relation(&posit(&[0, 1])), Relation::Below);
    assert_eq!(posit(&[0, 1]).relation(&posit(&[1, 1])), Relation::Above);
}

#[test]
fn non_negative_posits_compare_by_their_bits() {
    assert!(posit(&[0, 1, 0, 0, 1]) < posit(&[0, 1, 0, 1]));
    assert!(posit(&[0, 0, 1]) < posit(&[0, 1]));
    assert!(posit(&[]) < posit(&[0, 1]));
    assert!(posit(&[0, 1]) < posit(&[0, 1, 0, 0, 0, 1]));
    assert!(posit(&[0, 1, 1]) >= posit(&[0, 1, 1, 0]));
    assert!(posit(&[0, 1, 1]) <= posit(&[0, 1, 1, 0]));
    assert_eq!(posit(&[0, 1, 1]).partial_cmp(&posit(&[0, 1, 1, 0])), Some(Ordering::Equal));
    assert_eq!(posit(&[0, 1]).partial_cmp(&posit(&[0, 1, 1])), Some(Ordering::Less));
    assert_eq!(posit(&[0, 1, 1]).partial_cmp(&posit(&[0, 1])), Some(Ordering::Greater));
}

#[test]
fn negative_posits_compare_opposite_to_their_bits() {
    assert!(posit(&[1, 1, 0, 1]) < posit(&[1, 1, 0, 0, 1]));
    assert!(posit(&[1, 1]) < posit(&[1, 0, 1]));
    assert!(posit(&[1, 1]) < posit(&[1]));
    assert_eq!(posit(&[1, 1, 1]).relation(&posit(&[1, 1])), Relation::Below);
    assert_eq!(posit(&[1, 1]).relation(&posit(&[1, 1, 1])), Relation::Above);
    assert_eq!(posit(&[1, 1]).relation(&posit(&[1, 1, 0])), Relation::Level);
}

#[test]
fn magnitudes_compare_whatever_the_sign() {
    assert_eq!(posit(&[1, 1, 1]).magnitude_relation(&posit(&[0, 1])), Relation::Above);
    assert_eq!(posit(&[0, 0, 1]).magnitude_relation(&posit(&[1, 1])), Relation::Below);
    assert_eq!(posit(&[1, 0, 1]).magnitude_relation(&posit(&[0, 0, 1, 0])), Relation::Level);
}

#[test]
fn negation_turns_the_order_around() {
    let cases: Vec<Vec<u8>> = vec![
        vec![],
        vec![1],
        vec![0, 1],
        vec![1, 1],
        vec![0, 0, 1],
        vec![1, 0, 1],
        vec![0, 1, 0, 1],
        vec![0, 1, 1, 0, 1, 1],
        vec![1, 1, 1, 0, 1, 1],
    ];
    for a in &cases {
        for b in &cases {
            let forward = posit(a) < posit(b);
            let backward = posit(b).neg() < posit(a).neg();
            assert_eq!(forward, backward, "{:?} {:?}", a, b);
        }
    }
}

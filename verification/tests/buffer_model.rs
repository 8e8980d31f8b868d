use bitvec::order::Msb0;
use bitvec::slice::AsBits;
use bitvec::vec::BitVec;
use posit::Posit;

type Bits = BitVec<Msb0, u8>;

fn strings(max_len: usize) -> Vec<Vec<bool>> {
    let mut all = vec![vec![]];
    for len in 1..=max_len {
        for v in 0..(1u32 << len) {
            all.push((0..len).map(|i| (v >> (len - 1 - i)) & 1 == 1).collect());
        }
    }
    all
}

fn vector(bits: &[bool]) -> Bits {
    let mut v = Bits::new();
    for b in bits {
        v.push(*b);
    }
    v
}

fn held(v: &Bits) -> Vec<bool> {
    v.iter().copied().collect()
}

fn value(bits: &[bool]) -> u64 {
    bits.iter().fold(0, |v, b| 2 * v + *b as u64)
}

fn written(v: u64, n: usize) -> Vec<bool> {
    (0..n).map(|i| (v >> (n - 1 - i)) & 1 == 1).collect()
}

fn sum(a: &[bool], b: &[bool]) -> Vec<bool> {
    let n = a.len().max(b.len());
    let v = value(a) + value(b);
    if v < 1 << n {
        written(v, n)
    } else {
        written(v, n + 1)
    }
}

fn difference(a: &[bool], b: &[bool]) -> Vec<bool> {
    if value(b) == 0 {
        return a.to_vec();
    }
    let n = a.len().max(b.len());
    let c = (1 << b.len()) - value(b);
    let ext = if b.len() < a.len() && 2 * c >= 1 << b.len() {
        (1 << a.len()) - (1 << b.len())
    } else {
        0
    };
    written((value(a) + c + ext) % (1 << n), n)
}

#[test]
fn vector_addition_is_the_sum_of_the_magnitudes() {
    let all = strings(5);
    for a in &all {
        for b in &all {
            let mut x = vector(a);
            x += vector(b);
            assert_eq!(held(&x), sum(a, b), "{:?} + {:?}", a, b);
        }
    }
}

#[test]
fn vector_subtraction_adds_the_extended_complement() {
    let all = strings(5);
    for a in &all {
        for b in &all {
            let mut x = vector(a);
            x -= vector(b);
            assert_eq!(held(&x), difference(a, b), "{:?} - {:?}", a, b);
        }
    }
}

#[test]
fn vector_order_is_dictionary_order() {
    let all = strings(5);
    for a in &all {
        for b in &all {
            assert_eq!(vector(a) > vector(b), a > b, "{:?} > {:?}", a, b);
        }
    }
}

#[test]
fn vector_shifts_drop_in_front_and_fill_in_front() {
    for a in strings(5) {
        for count in 0..7usize {
            let mut left = vector(&a);
            left <<= count;
            let kept: Vec<bool> = a.iter().skip(count).copied().collect();
            assert_eq!(held(&left), kept, "{:?} << {}", a, count);
            let mut right = vector(&a);
            right >>= count;
            let mut filled = vec![false; count];
            filled.extend(a.iter().copied());
            assert_eq!(held(&right), filled, "{:?} >> {}", a, count);
        }
    }
}

#[test]
fn vector_of_a_word_holds_its_bits_most_significant_first() {
    for word in [0u64, 1, 0x8000_0000_0000_0000, 0x0123_4567_89ab_cdef, u64::MAX] {
        let v: Bits = word.bits::<Msb0>().iter().copied().collect();
        assert_eq!(held(&v), written(word, 64));
        let p = Posit::from_bools(&held(&v));
        assert_eq!(p.to_bools(), written(word, 64));
    }
}

#[test]
fn vector_of_one_bit_repeated() {
    for len in 0..20usize {
        assert_eq!(held(&Bits::repeat(true, len)), vec![true; len]);
        assert_eq!(held(&Bits::repeat(false, len)), vec![false; len]);
    }
}

use babble::bignum::Big;
use babble::codec::{letter_idx, from_letter_base};
use babble::rational::{Rat, rat_add, rat_sub, rat_mul, rat_div, reduce};
use babble::stream::BabbleCodeIterator;

#[test]
fn letter_idx_of_alphabet() {
    assert_eq!(letter_idx('A'), 0);
    assert_eq!(letter_idx('C'), 2);
    assert_eq!(letter_idx('Y'), 24);
    assert_eq!(letter_idx('Z'), 25);
}

#[test]
fn from_letter_base_decodes() {
    assert_eq!(from_letter_base(&vec![]), Big::from_u32(0));
    assert_eq!(from_letter_base(&vec!['B']), Big::from_u32(1));
    assert_eq!(from_letter_base(&vec!['B', 'C']), Big::from_u32(27));
    assert_eq!(from_letter_base(&vec!['C', 'A', 'A']), Big::from_u32(1250));
}

#[test]
fn from_letter_base_grows_beyond_one_limb() {
    // Eight `Y` digits: 25^8 - 1 = 152587890624, which needs two limbs.
    let digits = vec!['Y'; 8];
    let b = from_letter_base(&digits);
    let v = 152587890624u64;
    assert_eq!(b.limbs, vec![(v & 0xffff_ffff) as u32, (v >> 32) as u32]);
    assert!(!b.neg);
}

#[test]
fn rational_arithmetic_reduces() {
    let half = reduce(&Big::from_u32(2), &Big::from_u32(4));
    assert_eq!(half, Rat { n: Big::from_u32(1), d: Big::from_u32(2) });

    let sum = rat_add(&half, &half);
    assert_eq!(sum, Rat::from_u32(1));

    let diff = rat_sub(&half, &Rat::from_u32(1));
    assert!(diff.n.neg);
    assert_eq!(diff.n.limbs, vec![1]);
    assert_eq!(diff.d.limbs, vec![2]);

    let prod = rat_mul(&half, &half);
    assert_eq!(prod, Rat { n: Big::from_u32(1), d: Big::from_u32(4) });

    let quot = rat_div(&half, &Rat::from_u32(2));
    assert_eq!(quot, Rat { n: Big::from_u32(1), d: Big::from_u32(4) });
}

#[test]
fn code_iterator_filters_and_peeks() {
    let mut it = BabbleCodeIterator::new("e?N D!".to_string());
    assert!(!it.is_ending());
    assert_eq!(it.next(), Some('N'));
    assert_eq!(it.next(), Some('D'));
    assert_eq!(it.next(), None);

    let it = BabbleCodeIterator::new("ENDX".to_string());
    assert!(it.is_ending());
}

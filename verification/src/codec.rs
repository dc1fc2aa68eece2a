//! The letter-base-25 numeral codec: letters `A`..`Y` denote digits 0..24,
//! most significant first.
use vstd::prelude::*;
use crate::bignum::{Big, big_add, big_mul};

verus! {

/// Index of an uppercase letter in the alphabet: `A` is 0, `B` is 1, and so on.
pub open spec fn letter_index(c: char) -> int {
    (c as u32) as int - 65
}

/// Value of a digit run in positional base 25, most significant digit first.
pub open spec fn base25(s: Seq<char>) -> int
    decreases s.len(),
{
    if s.len() == 0 {
        0
    } else {
        base25(s.drop_last()) * 25 + letter_index(s.last())
    }
}

/// A digit run of characters at or above `A` denotes a non-negative value.
pub proof fn lemma_base25_nonneg(s: Seq<char>)
    requires
        forall|i: int| 0 <= i < s.len() ==> #[trigger] (s[i] as u32) >= 65,
    ensures
        base25(s) >= 0,
    decreases s.len(),
{
    if s.len() > 0 {
        lemma_base25_nonneg(s.drop_last());
        assert(s.last() as u32 >= 65);
        assert(base25(s.drop_last()) * 25 >= 0) by (nonlinear_arith)
            requires
                base25(s.drop_last()) >= 0,
        ;
    }
}

/// Alphabet index of one character, as an executable function.
pub fn letter_idx(ch: char) -> (i: usize)
    requires
        ch as u32 >= 65,
    ensures
        i as int == letter_index(ch),
{
    (ch as u32 - 65) as usize
}

/// Decode a most-significant-first run of base-25 letter digits.
pub fn from_letter_base(digits: &Vec<char>) -> (b: Big)
    requires
        forall|i: int| 0 <= i < digits@.len() ==> #[trigger] (digits@[i] as u32) >= 65,
    ensures
        b@ == base25(digits@),
        b.inv(),
        b@ >= 0,
{
    let mut acc = Big::from_u32(0);
    let base = Big::from_u32(25);
    let mut i: usize = 0;
    proof {
        assert(digits@.take(0) =~= Seq::<char>::empty());
    }
    while i < digits.len()
        invariant
            i <= digits.len(),
            forall|k: int| 0 <= k < digits@.len() ==> #[trigger] (digits@[k] as u32) >= 65,
            acc@ == base25(digits@.take(i as int)),
            acc.inv(),
            base@ == 25,
            base.inv(),
        decreases digits.len() - i,
    {
        let c = digits[i];
        proof {
            assert(digits@[i as int] as u32 >= 65);
            
            assert(c as u32 >= 65);
            assert(c as u32 - 65 == letter_index(c));
        }
        let d = Big::from_u32(c as u32 - 65);
        let shifted = big_mul(&acc, &base);
        acc = big_add(&shifted, &d);
        proof {
            let t = digits@.take(i as int + 1);
            assert(t.drop_last() =~= digits@.take(i as int));
            assert(t.last() == digits@[i as int]);
        }
        i += 1;
    }
    proof {
        assert(digits@.take(digits@.len() as int) =~= digits@);
        lemma_base25_nonneg(digits@);
    }
    acc
}

} // verus!

//! Array positions as decimal text.
//!
//! A path names an array's element by its position, written in decimal
//! digits. The position of the element at hand is kept as that text and
//! counted up in place, so that it has no upper limit.

use vstd::prelude::*;
use crate::bytes::{DIGIT_NINE, DIGIT_ZERO};

verus! {

/// `n` in decimal digits, without leading zeros.
pub open spec fn decimal(n: nat) -> Seq<u8>
    decreases n,
{
    if n < 10 {
        seq![(DIGIT_ZERO + n) as u8]
    } else {
        decimal(n / 10).push((DIGIT_ZERO + n % 10) as u8)
    }
}

/// The text that follows `digits` in counting order, wherever `digits` is
/// a number in decimal: trailing nines turn to zeros, and the digit before
/// them goes up by one, or a one is put in front.
pub open spec fn successor(digits: Seq<u8>) -> Seq<u8>
    decreases digits.len(),
{
    if digits.len() == 0 {
        seq![(DIGIT_ZERO + 1) as u8]
    } else if digits.last() == DIGIT_NINE {
        successor(digits.drop_last()).push(DIGIT_ZERO)
    } else {
        digits.drop_last().push((digits.last() + 1) as u8)
    }
}

/// Every byte of a number in decimal is a digit.
pub proof fn lemma_decimal_digits(n: nat)
    ensures
        decimal(n).len() > 0,
        forall|i: int|
            0 <= i < decimal(n).len() ==> DIGIT_ZERO <= #[trigger] decimal(n)[i] <= DIGIT_NINE,
    decreases n,
{
    if n >= 10 {
        lemma_decimal_digits(n / 10);
    }
}

/// Counting up the text is counting up the number.
pub proof fn lemma_successor(n: nat)
    ensures
        successor(decimal(n)) == decimal(n + 1),
    decreases n,
{
    if n < 9 {
        assert(decimal(n).drop_last().push((decimal(n).last() + 1) as u8) =~= decimal(n + 1));
    } else if n == 9 {
        assert(decimal(9).drop_last() =~= Seq::<u8>::empty());
        assert(decimal(10) =~= decimal(1).push(DIGIT_ZERO));
        assert(successor(Seq::<u8>::empty()) =~= decimal(1));
    } else {
        lemma_successor(n / 10);
        lemma_decimal_digits(n / 10);
        let front = decimal(n / 10);
        assert(decimal(n).drop_last() =~= front);
        if n % 10 == 9 {
            assert((n + 1) / 10 == n / 10 + 1 && (n + 1) % 10 == 0);
        } else {
            assert((n + 1) / 10 == n / 10 && (n + 1) % 10 == n % 10 + 1);
        }
    }
}

/// Counts the position up by one.
pub(crate) fn increment(digits: &mut Vec<u8>, Ghost(n): Ghost<nat>)
    requires
        old(digits)@ == decimal(n),
    ensures
        final(digits)@ == decimal(n + 1),
{
    let ghost start = digits@;
    proof {
        lemma_decimal_digits(n);
        lemma_successor(n);
        assert(start.take(start.len() as int) =~= start);
        assert(successor(start) + digits@.skip(start.len() as int) =~= successor(start));
    }
    let mut i: usize = digits.len();
    while i > 0 && digits[i - 1] == DIGIT_NINE
        invariant
            i <= digits.len(),
            digits.len() == start.len(),
            forall|j: int| 0 <= j < i ==> digits@[j] == start[j],
            successor(start) == successor(start.take(i as int)) + digits@.skip(i as int),
        decreases i,
    {
        let ghost prev = digits@;
        i = i - 1;
        digits[i] = DIGIT_ZERO;
        proof {
            let upto = start.take(i + 1);
            assert(upto.drop_last() =~= start.take(i as int));
            assert(upto.last() == DIGIT_NINE);
            assert(successor(upto) == successor(start.take(i as int)).push(DIGIT_ZERO));
            assert(successor(upto) + prev.skip(i + 1) =~= successor(start.take(i as int))
                + digits@.skip(i as int));
        }
    }
    if i == 0 {
        let ghost prev = digits@;
        digits.insert(0, DIGIT_ZERO + 1);
        proof {
            assert(start.take(0) =~= Seq::<u8>::empty());
            assert(prev.skip(0) =~= prev);
            assert(digits@ =~= successor(start.take(0)) + prev);
        }
    } else {
        let ghost prev = digits@;
        let last = digits[i - 1];
        digits[i - 1] = last + 1;
        proof {
            let upto = start.take(i as int);
            assert(upto.last() == last);
            assert(upto.drop_last() =~= start.take(i - 1));
            assert(successor(upto) == upto.drop_last().push((last + 1) as u8));
            assert(digits@ =~= successor(upto) + prev.skip(i as int));
        }
    }
}

} // verus!

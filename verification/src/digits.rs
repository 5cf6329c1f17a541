//! Decimal digits and the numbers they stand for.

use crate::grammar::{digits_value, is_digit};
use crate::model::decimal;
use vstd::prelude::*;

verus! {

/// A run of digits as an index is written: not empty, and with no zero in
/// front of another digit.
pub open spec fn canonical_digits(d: Seq<char>) -> bool {
    &&& d.len() >= 1
    &&& forall|i: int| 0 <= i < d.len() ==> is_digit(#[trigger] d[i])
    &&& d[0] == '0' ==> d.len() == 1
}

/// Written digits are the digits of the number they stand for.
pub proof fn lemma_decimal_of_digits(d: Seq<char>)
    requires
        canonical_digits(d),
    ensures
        decimal(digits_value(d)) == d,
        d[0] != '0' ==> digits_value(d) >= 1,
    decreases d.len(),
{
    let front = d.drop_last();
    if d.len() == 1 {
        assert(digits_value(front) == 0nat);
    } else {
        assert forall|i: int| 0 <= i < front.len() implies is_digit(#[trigger] front[i]) by {
            assert(front[i] == d[i]);
        }
        lemma_decimal_of_digits(front);
    }
}

/// The digits of a number are written digits, and stand for that number.
pub proof fn lemma_digits_of_decimal(n: nat)
    ensures
        canonical_digits(decimal(n)),
        digits_value(decimal(n)) == n,
        n >= 1 ==> decimal(n)[0] != '0',
    decreases n,
{
    let d = decimal(n);
    if n < 10 {
        assert(digits_value(d.drop_last()) == 0nat);
    } else {
        lemma_digits_of_decimal(n / 10);
        let front = decimal(n / 10);
        assert(d.drop_last() =~= front);
        assert forall|i: int| 0 <= i < d.len() implies is_digit(#[trigger] d[i]) by {
            if i < front.len() {
                assert(d[i] == front[i]);
            }
        }
    }
}

} // verus!

use vstd::prelude::*;

verus! {

/// The number that a string of bytes stands for, the most significant byte
/// first.
pub open spec fn be_value(bytes: Seq<u8>) -> nat
    decreases bytes.len(),
{
    if bytes.len() == 0 {
        0
    } else {
        be_value(bytes.drop_last()) * 256 + bytes.last() as nat
    }
}

/// A string of bytes stands for a number no smaller than any of its
/// beginnings does.
pub proof fn lemma_be_value_grows(bytes: Seq<u8>, n: int)
    requires
        0 <= n <= bytes.len(),
    ensures
        be_value(bytes.subrange(0, n)) <= be_value(bytes),
    decreases bytes.len() - n,
{
    if n == bytes.len() {
        assert(bytes.subrange(0, n) =~= bytes);
    } else {
        assert(bytes.drop_last().subrange(0, n) =~= bytes.subrange(0, n));
        lemma_be_value_grows(bytes.drop_last(), n);
    }
}

/// Reads an amount from its bytes, the most significant first. The answer is
/// `None` exactly when the amount does not fit the machine's widest integer.
pub fn amount_from_be_bytes(bytes: &Vec<u8>) -> (r: Option<u128>)
    ensures
        match r {
            Some(amount) => amount == be_value(bytes@),
            None => be_value(bytes@) > u128::MAX,
        },
{
    let mut amount: u128 = 0;
    let mut i: usize = 0;
    assert(bytes@.subrange(0, 0) =~= Seq::<u8>::empty());
    while i < bytes.len()
        invariant
            i <= bytes@.len(),
            amount == be_value(bytes@.subrange(0, i as int)),
        decreases bytes@.len() - i,
    {
        let ghost longer = bytes@.subrange(0, i + 1);
        proof {
            assert(longer.drop_last() =~= bytes@.subrange(0, i as int));
            lemma_be_value_grows(bytes@, i + 1);
        }
        let shifted = match amount.checked_mul(256) {
            Some(shifted) => shifted,
            None => {
                return None;
            },
        };
        amount = match shifted.checked_add(bytes[i] as u128) {
            Some(sum) => sum,
            None => {
                return None;
            },
        };
        i += 1;
    }
    assert(bytes@.subrange(0, i as int) =~= bytes@);
    Some(amount)
}

} // verus!

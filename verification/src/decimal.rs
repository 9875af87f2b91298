//! Numbers of at most 64 bits written in decimal digits.

use vstd::prelude::*;

verus! {

/// A decimal digit.
pub open spec fn is_digit(byte: u8) -> bool {
    48 <= byte <= 57
}

/// The number that a run of decimal digits writes, the empty run writing
/// zero; none when a byte of it is no digit or the number does not fit in
/// 64 bits.
pub open spec fn digits(run: Seq<u8>) -> Option<nat>
    decreases run.len(),
{
    if run.len() == 0 {
        Some(0nat)
    } else {
        match digits(run.drop_last()) {
            Some(front) => if is_digit(run.last()) && front * 10 + (run.last() - 48) <= u64::MAX {
                Some((front * 10 + (run.last() - 48)) as nat)
            } else {
                None
            },
            None => None,
        }
    }
}

/// `token` without the plus sign that it may begin with.
pub open spec fn unsigned_part(token: Seq<u8>) -> Seq<u8> {
    if token.len() > 0 && token[0] == 43 {
        token.skip(1)
    } else {
        token
    }
}

/// The number that `token` writes: decimal digits, at least one, with or
/// without one plus sign in front. There is none when the token is empty
/// or a plus sign alone, when a byte behind the sign is no digit, or when
/// the number does not fit in 64 bits.
pub open spec fn number(token: Seq<u8>) -> Option<nat> {
    let run = unsigned_part(token);
    if run.len() == 0 {
        None
    } else {
        digits(run)
    }
}

/// `n` in decimal digits, without leading zeros.
pub open spec fn decimal(n: nat) -> Seq<u8>
    decreases n,
{
    if n < 10 {
        seq![(48 + n) as u8]
    } else {
        decimal(n / 10).push((48 + n % 10) as u8)
    }
}

/// Appends `n` in decimal digits.
pub fn push_decimal(text: &mut Vec<u8>, n: u64)
    ensures
        final(text)@ == old(text)@ + decimal(n as nat),
    decreases n,
{
    if n >= 10 {
        push_decimal(text, n / 10);
    }
    text.push(48 + (n % 10) as u8);
    assert(final(text)@ =~= old(text)@ + decimal(n as nat));
}

/// The digits of a number of at most 64 bits are digits, there is at least
/// one, and they write that number.
pub proof fn lemma_decimal(n: nat)
    requires
        n <= u64::MAX,
    ensures
        decimal(n).len() > 0,
        forall|i: int| 0 <= i < decimal(n).len() ==> is_digit(#[trigger] decimal(n)[i]),
        digits(decimal(n)) == Some(n),
        number(decimal(n)) == Some(n),
    decreases n,
{
    if n < 10 {
        assert(decimal(n).drop_last() =~= Seq::<u8>::empty());
        assert(digits(decimal(n).drop_last()) == Some(0nat));
    } else {
        lemma_decimal(n / 10);
        assert(decimal(n).drop_last() =~= decimal(n / 10));
    }
    assert(is_digit(decimal(n)[0]));
}

} // verus!

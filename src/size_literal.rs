//! Human-readable size literals (`100mib`, `1gib`, `123b`).

use crate::text::{all_digits, digits_value, is_digit};
use vstd::prelude::*;

verus! {

/// The byte count that a human-readable size literal (`100mib`, `1.5 GB`)
/// denotes, if it is one.
pub uninterp spec fn size_literal(s: Seq<char>) -> Option<u64>;

/// A plain byte count: decimal digits followed by `b`.
pub open spec fn byte_count_literal(s: Seq<char>) -> Option<u64> {
    if s.len() >= 2 && s.last() == 'b' && all_digits(s.drop_last()) && digits_value(s.drop_last())
        <= u64::MAX {
        Some(digits_value(s.drop_last()) as u64)
    } else {
        None
    }
}

/// The number of ASCII decimal digits in a string.
pub open spec fn digit_count(s: Seq<char>) -> nat
    decreases s.len(),
{
    if s.len() == 0 {
        0
    } else {
        digit_count(s.drop_last()) + if is_digit(s.last()) {
            1nat
        } else {
            0nat
        }
    }
}

/// The most digits a size literal may hold: enough for every `u64`, and
/// few enough that reading the literal cannot overflow.
pub open spec fn max_size_digits() -> nat {
    20
}

/// The byte count of a size literal; a plain byte count is its number. A
/// literal with more than twenty digits is refused.
pub open spec fn size_value(s: Seq<char>) -> Option<u64> {
    if digit_count(s) > max_size_digits() {
        None
    } else {
        match byte_count_literal(s) {
            Some(v) => Some(v),
            None => size_literal(s),
        }
    }
}

/// The number of ASCII decimal digits in a string.
pub fn count_digits(s: &Vec<char>) -> (r: usize)
    ensures
        r as nat == digit_count(s@),
{
    let mut n: usize = 0;
    let mut i: usize = 0;
    while i < s.len()
        invariant
            i <= s@.len(),
            n <= i,
            n as nat == digit_count(s@.take(i as int)),
        decreases s@.len() - i,
    {
        let ghost t = s@.take(i + 1);
        assert(t.drop_last() =~= s@.take(i as int));
        if '0' <= s[i] && s[i] <= '9' {
            n = n + 1;
        }
        i = i + 1;
    }
    assert(s@.take(i as int) =~= s@);
    n
}

/// A string holds no more digits than characters.
pub proof fn lemma_digit_count_len(s: Seq<char>)
    ensures
        digit_count(s) <= s.len(),
    decreases s.len(),
{
    if s.len() > 0 {
        lemma_digit_count_len(s.drop_last());
    }
}

/// Relies on parse_size::parse_size: it reads a size literal with an
/// optional unit; digits followed by `b` are that many bytes. With more
/// than twenty digits its rounding of an overflowing mantissa can itself
/// overflow, so such literals are left out.
#[verifier::external_body]
pub(crate) fn parse_size_of(s: &str) -> (r: Option<u64>)
    requires
        digit_count(s@) <= max_size_digits(),
    ensures
        byte_count_literal(s@) is Some ==> r == byte_count_literal(s@),
        byte_count_literal(s@) is None ==> r == size_literal(s@),
{
    parse_size::parse_size(s).ok()
}

} // verus!

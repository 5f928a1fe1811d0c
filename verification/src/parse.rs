//! Decimal number parsing, as the command interpreters need it: an optional
//! leading `+`, then one or more decimal digits, rejected when anything else
//! appears or the value does not fit.

use crate::digits::{digit_of, digit_value};
use vstd::prelude::*;

verus! {

/// Every character is a decimal digit.
pub open spec fn all_digits(s: Seq<char>) -> bool {
    forall|i: int| 0 <= i < s.len() ==> digit_of(#[trigger] s[i]) >= 0
}

/// The number a digit string denotes, most significant digit first.
pub open spec fn digits_value(s: Seq<char>) -> int
    decreases s.len(),
{
    if s.len() == 0 {
        0
    } else {
        digits_value(s.drop_last()) * 10 + digit_of(s.last())
    }
}

/// The digits after an optional leading `+`.
pub open spec fn dec_body(s: Seq<char>) -> Seq<char> {
    if s.len() >= 1 && s[0] == '+' {
        s.subrange(1, s.len() as int)
    } else {
        s
    }
}

/// What parsing `s` as a non-negative decimal number bounded by `max`
/// yields: the denoted value, or nothing when `s` is not an optional `+`
/// followed by at least one digit, or the value exceeds `max`.
pub open spec fn parsed_dec(s: Seq<char>, max: int) -> Option<int> {
    if dec_body(s).len() == 0 || !all_digits(dec_body(s)) {
        None
    } else if digits_value(dec_body(s)) > max {
        None
    } else {
        Some(digits_value(dec_body(s)))
    }
}

/// A digit string denotes a non-negative number.
proof fn lemma_digits_value_nonneg(s: Seq<char>)
    requires
        all_digits(s),
    ensures
        digits_value(s) >= 0,
    decreases s.len(),
{
    if s.len() > 0 {
        assert(all_digits(s.drop_last()));
        lemma_digits_value_nonneg(s.drop_last());
    }
}

/// A prefix of a digit string denotes no more than the whole string.
proof fn lemma_digits_value_take_le(s: Seq<char>, n: int)
    requires
        all_digits(s),
        0 <= n <= s.len(),
    ensures
        digits_value(s.take(n)) <= digits_value(s),
    decreases s.len() - n,
{
    if n == s.len() {
        assert(s.take(n) =~= s);
    } else {
        lemma_digits_value_take_le(s, n + 1);
        assert(s.take(n + 1).drop_last() =~= s.take(n));
        assert(all_digits(s.take(n)));
        lemma_digits_value_nonneg(s.take(n));
        assert(digit_of(s.take(n + 1).last()) >= 0);
    }
}

/// Parse `s` as a `usize`, exactly as the spec-level `parsed_dec` reads it.
pub fn parse_usize(s: &str) -> (r: Option<usize>)
    ensures
        match r {
            Some(n) => parsed_dec(s@, usize::MAX as int) == Some(n as int),
            None => parsed_dec(s@, usize::MAX as int) is None,
        },
{
    let len = s.unicode_len();
    let mut i: usize = 0;
    if len >= 1 && s.get_char(0) == '+' {
        i = 1;
    }
    let start = i;
    let ghost body = dec_body(s@);
    proof {
        assert(body =~= s@.subrange(start as int, len as int));
    }
    if i == len {
        return None;
    }
    let mut acc: u128 = 0;
    while i < len
        invariant
            len == s@.len(),
            start <= i <= len,
            body == s@.subrange(start as int, len as int),
            body == dec_body(s@),
            all_digits(body.take(i - start)),
            acc == digits_value(body.take(i - start)),
            acc <= usize::MAX as u128,
        decreases len - i,
    {
        let c = s.get_char(i);
        proof {
            assert(body[i - start] == s@[i as int]);
        }
        match digit_value(c) {
            None => {
                proof {
                    assert(digit_of(body[i - start]) < 0);
                    assert(!all_digits(body));
                }
                return None;
            },
            Some(d) => {
                proof {
                    assert(body.take(i + 1 - start).drop_last() =~= body.take(i - start));
                    assert(body.take(i + 1 - start).last() == body[i - start]);
                }
                acc = acc * 10 + d as u128;
                if acc > usize::MAX as u128 {
                    proof {
                        if all_digits(body) {
                            lemma_digits_value_take_le(body, i + 1 - start);
                        }
                    }
                    return None;
                }
            },
        }
        i = i + 1;
    }
    proof {
        assert(body.take(len - start) =~= body);
    }
    Some(acc as usize)
}

} // verus!

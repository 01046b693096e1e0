//! Parsing of a port literal typed at the prompt.

use vstd::prelude::*;

use crate::PatchError;

verus! {

/// Whether `c` is a decimal digit.
pub open spec fn is_digit(c: char) -> bool {
    '0' as u32 <= c as u32 <= '9' as u32
}

/// Numeric value of a digit.
pub open spec fn digit_val(c: char) -> int {
    c as u32 as int - '0' as u32 as int
}

/// The digits of a port literal; an optional leading `'+'` is not one of
/// them.
pub open spec fn digits_part(s: Seq<char>) -> Seq<char> {
    if s.len() > 0 && s[0] == '+' {
        s.drop_first()
    } else {
        s
    }
}

/// Whether every character is a decimal digit.
pub open spec fn all_digits(s: Seq<char>) -> bool {
    forall|i: int| 0 <= i < s.len() ==> is_digit(#[trigger] s[i])
}

/// Numeric value of a digit string, most significant digit first.
pub open spec fn dec_value(s: Seq<char>) -> int
    decreases s.len(),
{
    if s.len() == 0 {
        0
    } else {
        dec_value(s.drop_last()) * 10 + digit_val(s.last())
    }
}

/// Whether `s` parses as an unsigned 16-bit port: an optional leading `'+'`,
/// then at least one digit, and a value of at most 65535.
pub open spec fn is_port_literal(s: Seq<char>) -> bool {
    &&& digits_part(s).len() > 0
    &&& all_digits(digits_part(s))
    &&& dec_value(digits_part(s)) <= 65535
}

/// The value of a digit string is never negative.
proof fn lemma_dec_value_nonneg(s: Seq<char>)
    requires
        all_digits(s),
    ensures
        dec_value(s) >= 0,
    decreases s.len(),
{
    if s.len() > 0 {
        lemma_dec_value_nonneg(s.drop_last());
    }
}

/// A prefix of a digit string never exceeds the whole string in value.
proof fn lemma_dec_value_monotone(s: Seq<char>, k: int)
    requires
        0 <= k <= s.len(),
        all_digits(s),
    ensures
        dec_value(s.take(k)) <= dec_value(s),
    decreases s.len() - k,
{
    if k == s.len() {
        assert(s.take(k) =~= s);
    } else {
        assert(s.take(k + 1).drop_last() =~= s.take(k));
        assert(s.take(k + 1).last() == s[k]);
        assert(all_digits(s.take(k)));
        lemma_dec_value_nonneg(s.take(k));
        assert(dec_value(s.take(k)) <= dec_value(s.take(k + 1)));
        lemma_dec_value_monotone(s, k + 1);
    }
}

/// Parses a port literal the way the prompt loop expects it: an optional
/// leading `'+'`, then decimal digits, rejecting anything else and any value
/// above 65535.
#[verifier::loop_isolation(false)]
pub fn parse_port(s: &str) -> (r: Result<u16, PatchError>)
    ensures
        match r {
            Ok(p) => is_port_literal(s@) && p as int == dec_value(digits_part(s@)),
            Err(e) => !is_port_literal(s@) && e == PatchError::InvalidPortValue,
        },
{
    let n = s.unicode_len();
    let start: usize = if n > 0 && s.get_char(0) == '+' {
        1
    } else {
        0
    };
    let ghost ds = digits_part(s@);
    proof {
        assert(ds =~= s@.skip(start as int));
    }
    if start >= n {
        return Err(PatchError::InvalidPortValue);
    }
    let mut acc: u32 = 0;
    let mut i: usize = start;
    while i < n
        invariant
            start <= i <= n,
            n == s@.len(),
            start < n,
            ds == s@.skip(start as int),
            ds.len() == n - start,
            all_digits(ds.take(i - start)),
            acc as int == dec_value(ds.take(i - start)),
            acc <= 65535,
        decreases n - i,
    {
        let c = s.get_char(i);
        let cu = c as u32;
        proof {
            assert(ds[i - start] == s@[i as int]);
        }
        if cu < '0' as u32 || cu > '9' as u32 {
            proof {
                assert(!is_digit(ds[i - start]));
            }
            return Err(PatchError::InvalidPortValue);
        }
        let d: u32 = cu - '0' as u32;
        let next: u32 = acc * 10 + d;
        proof {
            assert(ds.take(i - start + 1).drop_last() =~= ds.take(i - start));
            assert(ds.take(i - start + 1).last() == ds[i - start]);
            assert(next as int == dec_value(ds.take(i - start + 1)));
        }
        if next > 65535 {
            proof {
                if all_digits(ds) {
                    lemma_dec_value_monotone(ds, i - start + 1);
                }
            }
            return Err(PatchError::InvalidPortValue);
        }
        acc = next;
        i = i + 1;
    }
    proof {
        assert(ds.take(i - start) =~= ds);
    }
    Ok(acc as u16)
}

} // verus!

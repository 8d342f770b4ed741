//! Numeric interpretation of lines.
//!
//! A line parses as a signed 64-bit integer when it consists of an optional
//! sign followed by one or more decimal digits and the signed value fits in
//! the 64-bit range. In numeric mode every line is keyed by its parsed value;
//! a line that does not parse is keyed by the sentinel `i64::MAX`, which
//! places it after every successfully parsed value.

use vstd::prelude::*;

verus! {

/// The character is a decimal digit.
pub open spec fn is_digit(c: char) -> bool {
    '0' <= c && c <= '9'
}

/// The numeric value of a decimal digit character.
pub open spec fn digit_value(c: char) -> int {
    (c as u32) as int - ('0' as u32) as int
}

/// Every character of the sequence is a decimal digit.
pub open spec fn all_digits(s: Seq<char>) -> bool {
    forall|i: int| 0 <= i < s.len() ==> is_digit(s[i])
}

/// The unsigned value denoted by a sequence of decimal digits, with the
/// most significant digit first. The empty sequence denotes zero.
pub open spec fn digits_value(s: Seq<char>) -> int
    decreases s.len(),
{
    if s.len() == 0 {
        0
    } else {
        10 * digits_value(s.drop_last()) + digit_value(s.last())
    }
}

/// The line with a leading sign character removed, if one is present.
pub open spec fn strip_sign(s: Seq<char>) -> Seq<char> {
    if s.len() > 0 && (s[0] == '+' || s[0] == '-') {
        s.drop_first()
    } else {
        s
    }
}

/// The sign denoted by the line: -1 under a leading minus, 1 otherwise.
pub open spec fn sign_of(s: Seq<char>) -> int {
    if s.len() > 0 && s[0] == '-' {
        -1
    } else {
        1
    }
}

/// The line is a well-formed signed 64-bit integer literal: an optional sign,
/// at least one digit, nothing else, and the signed value in range.
pub open spec fn is_i64_literal(s: Seq<char>) -> bool {
    &&& strip_sign(s).len() > 0
    &&& all_digits(strip_sign(s))
    &&& i64::MIN <= sign_of(s) * digits_value(strip_sign(s)) <= i64::MAX
}

/// The integer value of a well-formed literal.
pub open spec fn i64_value(s: Seq<char>) -> int {
    sign_of(s) * digits_value(strip_sign(s))
}

/// The sort key used by numeric mode: the parsed value of the line, or the
/// sentinel `i64::MAX` for a line that is not an integer literal.
pub open spec fn num_key(s: Seq<char>) -> int {
    if is_i64_literal(s) {
        i64_value(s)
    } else {
        i64::MAX as int
    }
}

/// A digit string never denotes a negative value.
proof fn lemma_digits_value_nonneg(s: Seq<char>)
    requires
        all_digits(s),
    ensures
        digits_value(s) >= 0,
    decreases s.len(),
{
    if s.len() > 0 {
        assert(all_digits(s.drop_last()));
        lemma_digits_value_nonneg(s.drop_last());
    }
}

/// Parses a line as a signed 64-bit integer, accepting exactly the
/// well-formed literals.
pub fn parse_i64(s: &String) -> (r: Option<i64>)
    ensures
        r is Some <==> is_i64_literal(s@),
        r matches Some(v) ==> v as int == i64_value(s@),
{
    let len = s.as_str().unicode_len();
    if len == 0 {
        return None;
    }
    let first = s.as_str().get_char(0);
    let neg = first == '-';
    let start: usize = if neg || first == '+' {
        1
    } else {
        0
    };
    proof {
        assert(strip_sign(s@) =~= s@.skip(start as int));
    }
    if start == len {
        return None;
    }
    let ghost body = s@.skip(start as int);
    let mut acc: u64 = 0;
    let mut overflow = false;
    let mut i: usize = start;
    while i < len
        invariant
            start <= i <= len,
            len == s@.len(),
            start <= 1,
            body == s@.skip(start as int),
            body == strip_sign(s@),
            forall|j: int| start <= j < i ==> is_digit(s@[j]),
            !overflow ==> acc as int == digits_value(s@.subrange(start as int, i as int)),
            overflow ==> digits_value(s@.subrange(start as int, i as int)) > u64::MAX as int,
        decreases len - i,
    {
        let c = s.as_str().get_char(i);
        if c < '0' || c > '9' {
            proof {
                assert(!is_digit(body[i - start as int]));
            }
            return None;
        }
        let d: u64 = ((c as u32) - ('0' as u32)) as u64;
        let ghost prefix = s@.subrange(start as int, i as int);
        let ghost prefix_next = s@.subrange(start as int, i + 1 as int);
        proof {
            assert(prefix_next.drop_last() =~= prefix);
            assert(prefix_next.last() == s@[i as int]);
        }
        if overflow {
            proof {
                assert(digits_value(prefix_next) == 10 * digits_value(prefix) + digit_value(
                    s@[i as int],
                ));
                assert(all_digits(prefix));
            }
        } else {
            let stepped = match acc.checked_mul(10) {
                Some(m) => m.checked_add(d),
                None => None,
            };
            match stepped {
                Some(n) => {
                    acc = n;
                },
                None => {
                    overflow = true;
                },
            }
        }
        i = i + 1;
    }
    proof {
        assert(s@.subrange(start as int, len as int) =~= body);
        assert(all_digits(body));
        lemma_digits_value_nonneg(body);
    }
    let ghost magnitude = digits_value(body);
    if overflow {
        proof {
            assert(sign_of(s@) * magnitude > i64::MAX || sign_of(s@) * magnitude < i64::MIN);
        }
        return None;
    }
    if !neg {
        if acc <= i64::MAX as u64 {
            proof {
                assert(sign_of(s@) == 1);
            }
            Some(acc as i64)
        } else {
            proof {
                assert(sign_of(s@) * magnitude > i64::MAX);
            }
            None
        }
    } else {
        proof {
            assert(sign_of(s@) == -1);
        }
        if acc <= i64::MAX as u64 {
            Some(-(acc as i64))
        } else if acc == 9223372036854775808u64 {
            Some(i64::MIN)
        } else {
            proof {
                assert(sign_of(s@) * magnitude < i64::MIN);
            }
            None
        }
    }
}

/// The numeric sort key of a line: its parsed value, or the sentinel
/// `i64::MAX` when it is not an integer literal.
pub fn key_of(s: &String) -> (k: i64)
    ensures
        k as int == num_key(s@),
{
    match parse_i64(s) {
        Some(v) => v,
        None => i64::MAX,
    }
}

} // verus!

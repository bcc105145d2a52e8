//! The compact number encoding of the dictd index format: offsets and
//! lengths are written as big-endian positional base-64 numbers over the
//! alphabet `A-Z a-z 0-9 + /`, a digit's value being its position in that
//! alphabet.

use vstd::prelude::*;

verus! {

/// Why a positional base-64 number failed to decode.
#[derive(Debug, Clone, Copy, PartialEq, Eq, Structural)]
pub enum NumberError {
    /// A character outside the 64-symbol alphabet.
    InvalidDigit,
    /// The decoded value would not fit in 64 unsigned bits.
    Overflow,
}

/// Value of one alphabet symbol, or -1 for a character outside the alphabet.
pub open spec fn digit_value(c: char) -> int {
    let u = c as int;
    if 65 <= u && u <= 90 {
        u - 65
    } else if 97 <= u && u <= 122 {
        26 + (u - 97)
    } else if 48 <= u && u <= 57 {
        52 + (u - 48)
    } else if u == 43 {
        62
    } else if u == 47 {
        63
    } else {
        -1
    }
}

/// True when `c` belongs to the 64-symbol alphabet.
pub open spec fn is_b64_digit(c: char) -> bool {
    digit_value(c) >= 0
}

/// True when every character of `s` belongs to the alphabet.
pub open spec fn all_b64_digits(s: Seq<char>) -> bool {
    forall|i: int| 0 <= i < s.len() ==> is_b64_digit(#[trigger] s[i])
}

/// The big-endian positional value of `s`: starting from 0, each digit
/// multiplies the running value by 64 and adds its own value.
pub open spec fn b64_value(s: Seq<char>) -> int
    decreases s.len(),
{
    if s.len() == 0 {
        0
    } else {
        b64_value(s.drop_last()) * 64 + digit_value(s.last())
    }
}

/// Index of the leftmost character outside the alphabet, or `s.len()`.
pub open spec fn first_invalid(s: Seq<char>) -> int {
    first_invalid_from(s, 0)
}

pub open spec fn first_invalid_from(s: Seq<char>, i: int) -> int
    decreases s.len() - i,
{
    if i < 0 || i >= s.len() {
        s.len() as int
    } else if !is_b64_digit(s[i]) {
        i
    } else {
        first_invalid_from(s, i + 1)
    }
}

/// What decoding yields on a whole string: its positional value where
/// every character is an alphabet symbol and the value fits 64 bits, and
/// otherwise whichever failure a left-to-right scan meets first.
pub open spec fn decode_result(s: Seq<char>) -> Result<u64, NumberError> {
    if all_b64_digits(s) && b64_value(s) <= u64::MAX {
        Ok(b64_value(s) as u64)
    } else if b64_value(s.take(first_invalid(s))) > u64::MAX {
        Err(NumberError::Overflow)
    } else {
        Err(NumberError::InvalidDigit)
    }
}

/// A valid prefix's value never goes down as the prefix grows.
proof fn lemma_b64_value_nonneg(s: Seq<char>)
    requires
        all_b64_digits(s),
    ensures
        b64_value(s) >= 0,
    decreases s.len(),
{
    if s.len() > 0 {
        assert(all_b64_digits(s.drop_last())) by {
            assert(forall|i: int|
                0 <= i < s.len() - 1 ==> is_b64_digit(#[trigger] s.drop_last()[i]) == is_b64_digit(
                    s[i],
                ));
        }
        lemma_b64_value_nonneg(s.drop_last());
    }
}

proof fn lemma_b64_value_monotone(s: Seq<char>, k: int, m: int)
    requires
        0 <= k <= m <= s.len(),
        all_b64_digits(s.take(m)),
    ensures
        b64_value(s.take(k)) <= b64_value(s.take(m)),
    decreases m - k,
{
    if k < m {
        let t = s.take(m);
        assert(t.drop_last() =~= s.take(m - 1));
        assert(all_b64_digits(s.take(m - 1)));
        lemma_b64_value_nonneg(s.take(m - 1));
        assert(b64_value(s.take(m)) == b64_value(s.take(m - 1)) * 64 + digit_value(s[m - 1]));
        lemma_b64_value_monotone(s, k, m - 1);
    }
}

/// Index characters before `first_invalid(s)` are alphabet symbols.
proof fn lemma_first_invalid(s: Seq<char>, i: int)
    requires
        0 <= i <= s.len(),
        all_b64_digits(s.take(i)),
    ensures
        i <= first_invalid_from(s, i) <= s.len(),
        all_b64_digits(s.take(first_invalid_from(s, i))),
        first_invalid_from(s, i) < s.len() ==> !is_b64_digit(s[first_invalid_from(s, i)]),
        first_invalid(s) == first_invalid_from(s, i),
    decreases s.len() - i,
{
    lemma_first_invalid_from_agrees(s, 0, i);
    if i < s.len() && is_b64_digit(s[i]) {
        assert(s.take(i + 1).drop_last() =~= s.take(i));
        assert(all_b64_digits(s.take(i + 1))) by {
            assert(forall|j: int| 0 <= j < i + 1 ==> is_b64_digit(#[trigger] s.take(i + 1)[j]));
        }
        lemma_first_invalid(s, i + 1);
    }
}

/// Scanning from an index inside an all-valid prefix finds the same
/// leftmost invalid character as scanning from the start.
proof fn lemma_first_invalid_from_agrees(s: Seq<char>, i: int, j: int)
    requires
        0 <= i <= j <= s.len(),
        all_b64_digits(s.take(j)),
    ensures
        first_invalid_from(s, i) == first_invalid_from(s, j),
    decreases j - i,
{
    if i < j {
        assert(is_b64_digit(s[i])) by {
            assert(s.take(j)[i] == s[i]);
        }
        lemma_first_invalid_from_agrees(s, i + 1, j);
    }
}

/// Decodes a big-endian positional base-64 number, scanning left to right.
/// A character outside the alphabet fails the scan where the running value
/// has stayed within range; a value that leaves the 64-bit unsigned range
/// fails it first otherwise.
pub fn decode_number(s: &str) -> (r: Result<u64, NumberError>)
    ensures
        r == decode_result(s@),
        r is Ok <==> all_b64_digits(s@) && b64_value(s@) <= u64::MAX,
        r matches Ok(v) ==> v as int == b64_value(s@),
        r == Err::<u64, NumberError>(NumberError::Overflow) <==> b64_value(
            s@.take(first_invalid(s@)),
        ) > u64::MAX,
        r == Err::<u64, NumberError>(NumberError::InvalidDigit) <==> first_invalid(s@) < s@.len()
            && b64_value(s@.take(first_invalid(s@))) <= u64::MAX,
{
    let n = s.unicode_len();
    let mut acc: u64 = 0;
    let mut i: usize = 0;
    while i < n
        invariant
            0 <= i <= n == s@.len(),
            all_b64_digits(s@.take(i as int)),
            acc as int == b64_value(s@.take(i as int)),
        decreases n - i,
    {
        let c = s.get_char(i);
        proof {
            assert(s@.take(i + 1).drop_last() =~= s@.take(i as int));
        }
        let d = match digit_of(c) {
            Some(d) => d,
            None => {
                proof {
                    lemma_first_invalid(s@, i as int);
                    assert(first_invalid(s@) == i);
                }
                return Err(NumberError::InvalidDigit);
            },
        };
        let shifted = match acc.checked_mul(64) {
            Some(v) => v.checked_add(d as u64),
            None => None,
        };
        acc = match shifted {
            Some(v) => v,
            None => {
                proof {
                    let t = s@.take(i + 1);
                    assert(all_b64_digits(t)) by {
                        assert(forall|j: int| 0 <= j < t.len() ==> is_b64_digit(#[trigger] t[j]));
                    }
                    assert(b64_value(t) == acc as int * 64 + d);
                    assert(b64_value(t) > u64::MAX);
                    lemma_first_invalid(s@, i + 1);
                    lemma_b64_value_monotone(s@, i + 1, first_invalid(s@));
                    if all_b64_digits(s@) {
                        assert(first_invalid(s@) == s@.len()) by {
                            lemma_first_invalid(s@, first_invalid(s@));
                        }
                        assert(s@.take(s@.len() as int) =~= s@);
                    }
                }
                return Err(NumberError::Overflow);
            },
        };
        proof {
            assert(all_b64_digits(s@.take(i + 1))) by {
                assert(forall|j: int|
                    0 <= j < i + 1 ==> is_b64_digit(#[trigger] s@.take(i + 1)[j]));
            }
        }
        i = i + 1;
    }
    proof {
        assert(s@.take(n as int) =~= s@);
        assert(first_invalid(s@) == s@.len()) by {
            lemma_first_invalid(s@, n as int);
        }
    }
    Ok(acc)
}

/// Value of one character, or `None` outside the alphabet.
fn digit_of(c: char) -> (r: Option<u8>)
    ensures
        r matches Some(d) ==> is_b64_digit(c) && d as int == digit_value(c),
        r is None ==> !is_b64_digit(c),
{
    let u = c as u32;
    if 65 <= u && u <= 90 {
        Some((u - 65) as u8)
    } else if 97 <= u && u <= 122 {
        Some((26 + (u - 97)) as u8)
    } else if 48 <= u && u <= 57 {
        Some((52 + (u - 48)) as u8)
    } else if u == 43 {
        Some(62)
    } else if u == 47 {
        Some(63)
    } else {
        None
    }
}

} // verus!

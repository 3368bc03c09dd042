//! Validation of the amount argument handed in by the command line: a check
//! that a string is a decimal numeral that fits in `usize`.

use vstd::prelude::*;

verus! {

/// An ASCII decimal digit.
pub open spec fn is_digit(c: char) -> bool {
    48 <= c as u32 <= 57
}

pub open spec fn all_digits(s: Seq<char>) -> bool {
    forall|i: int| 0 <= i < s.len() ==> is_digit(s[i])
}

pub open spec fn digit_val(c: char) -> nat {
    if is_digit(c) {
        (c as u32 - 48) as nat
    } else {
        0
    }
}

/// The numeric value of a digit string, most significant digit first.
pub open spec fn digits_val(s: Seq<char>) -> nat
    decreases s.len(),
{
    if s.len() == 0 {
        0
    } else {
        digits_val(s.drop_last()) * 10 + digit_val(s.last())
    }
}

/// The digit part of a numeral: an optional leading `+` sign is skipped.
pub open spec fn numeral_digits(s: Seq<char>) -> Seq<char> {
    if s.len() > 0 && s[0] == '+' {
        s.drop_first()
    } else {
        s
    }
}

/// Whether `s` is a decimal numeral that fits in `usize`: an optional `+`
/// sign, then at least one digit, with a value of at most `usize::MAX`.
pub open spec fn parses_as_usize(s: Seq<char>) -> bool {
    let d = numeral_digits(s);
    d.len() > 0 && all_digits(d) && digits_val(d) <= usize::MAX
}

/// Appending digits never shrinks the value of a digit string.
proof fn lemma_digits_val_take_le(s: Seq<char>, k: int)
    requires
        0 <= k <= s.len(),
    ensures
        digits_val(s.take(k)) <= digits_val(s),
    decreases s.len() - k,
{
    if k < s.len() {
        assert(s.take(k + 1).drop_last() =~= s.take(k));
        assert(digits_val(s.take(k + 1)) == digits_val(s.take(k)) * 10 + digit_val(s[k]));
        lemma_digits_val_take_le(s, k + 1);
    } else {
        assert(s.take(k) =~= s);
    }
}

/// Accepts exactly the strings that denote a `usize` amount: an optional `+`
/// sign followed by at least one decimal digit, the value fitting in `usize`.
pub fn is_usize(s: String) -> (r: Result<(), String>)
    ensures
        r is Ok <==> parses_as_usize(s@),
{
    let st = s.as_str();
    let n: usize = st.unicode_len();
    let mut i: usize = 0;
    if n > 0 && st.get_char(0) == '+' {
        i = 1;
    }
    let start: usize = i;
    if i == n {
        return Err("Invalid amount: expected at least one digit".to_owned());
    }
    let ghost d: Seq<char> = numeral_digits(s@);
    proof {
        assert(d =~= s@.subrange(start as int, n as int));
    }
    let mut acc: u128 = 0;
    while i < n
        invariant
            start <= i <= n,
            start < n,
            n == s@.len(),
            st@ == s@,
            d == numeral_digits(s@),
            d == s@.subrange(start as int, n as int),
            all_digits(s@.subrange(start as int, i as int)),
            acc == digits_val(s@.subrange(start as int, i as int)),
            acc <= usize::MAX,
        decreases n - i,
    {
        let c = st.get_char(i);
        let u: u32 = c as u32;
        if u < 48 || u > 57 {
            proof {
                assert(c == s@[i as int]);
                assert(!is_digit(s@[i as int]));
                assert(d[i - start] == s@[i as int]);
                assert(!all_digits(d));
                assert(!parses_as_usize(s@));
            }
            return Err("Invalid amount: invalid digit found in string".to_owned());
        }
        proof {
            assert(s@.subrange(start as int, i + 1).drop_last() =~= s@.subrange(
                start as int,
                i as int,
            ));
        }
        acc = acc * 10 + ((u - 48) as u128);
        if acc > usize::MAX as u128 {
            proof {
                assert(acc == digits_val(s@.subrange(start as int, i + 1)));
                assert(d.take(i + 1 - start) =~= s@.subrange(start as int, i + 1));
                lemma_digits_val_take_le(d, i + 1 - start);
                assert(digits_val(d) > usize::MAX);
                assert(!parses_as_usize(s@));
            }
            return Err("Invalid amount: number too large".to_owned());
        }
        i += 1;
    }
    proof {
        assert(s@.subrange(start as int, i as int) =~= d);
    }
    Ok(())
}

} // verus!

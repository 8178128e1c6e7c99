//! Whole numbers in decimal notation.

use vstd::prelude::*;
use vstd::string::StrSliceExecFns;

verus! {

/// Whether the character is one of the ten decimal digits.
pub open spec fn is_digit(c: char) -> bool {
    '0' <= c <= '9'
}

/// The number a decimal digit stands for.
pub open spec fn digit_value(c: char) -> nat
    recommends
        is_digit(c),
{
    (c as u32 - '0' as u32) as nat
}

/// The decimal digit that stands for a number below ten.
pub open spec fn digit_char(d: nat) -> char
    recommends
        d < 10,
{
    ((d + '0' as u32) as u32) as char
}

/// Whether every character is a decimal digit.
pub open spec fn all_digits(s: Seq<char>) -> bool {
    forall|i: int| 0 <= i < s.len() ==> is_digit(#[trigger] s[i])
}

/// The number that a run of decimal digits stands for; leading zeros count
/// for nothing, and so does an empty run.
pub open spec fn digits_value(s: Seq<char>) -> nat
    decreases s.len(),
{
    if s.len() == 0 {
        0
    } else {
        digits_value(s.drop_last()) * 10 + digit_value(s.last())
    }
}

/// The number that a numeral of decimal digits, and nothing else, stands
/// for, where it has at least one digit and the number fits in 32 bits.
pub open spec fn unsigned_of_digits(s: Seq<char>) -> Option<u32> {
    if s.len() > 0 && all_digits(s) && digits_value(s) <= u32::MAX {
        Some(digits_value(s) as u32)
    } else {
        None
    }
}

/// The number that a text stands for as Rust reads an unsigned 32-bit
/// integer from a string: decimal digits, which one `+` may precede.
pub open spec fn unsigned_of_text(s: Seq<char>) -> Option<u32> {
    if s.len() > 0 && s[0] == '+' {
        unsigned_of_digits(s.skip(1))
    } else {
        unsigned_of_digits(s)
    }
}

/// The numeral of a number: its decimal digits without leading zeros.
pub open spec fn decimal_digits(n: nat) -> Seq<char>
    decreases n,
{
    if n < 10 {
        seq![digit_char(n)]
    } else {
        decimal_digits(n / 10).push(digit_char(n % 10))
    }
}

/// A run of digits stands for no less than any of its prefixes.
proof fn lemma_digits_value_grows(s: Seq<char>, k: int)
    requires
        0 <= k <= s.len(),
    ensures
        digits_value(s.take(k)) <= digits_value(s),
    decreases s.len() - k,
{
    if k < s.len() {
        lemma_digits_value_grows(s, k + 1);
        assert(s.take(k + 1).drop_last() == s.take(k));
        assert(digits_value(s.take(k + 1)) == digits_value(s.take(k)) * 10 + digit_value(
            s.take(k + 1).last(),
        ));
    } else {
        assert(s.take(k) == s);
    }
}

/// A numeral is read back as the number it was written for.
pub proof fn lemma_decimal_digits_round_trip(n: nat)
    ensures
        decimal_digits(n).len() > 0,
        all_digits(decimal_digits(n)),
        digits_value(decimal_digits(n)) == n,
        decimal_digits(n)[0] != '+',
    decreases n,
{
    if n < 10 {
        let s = decimal_digits(n);
        assert(s.drop_last() == Seq::<char>::empty());
        assert(digits_value(s.drop_last()) == 0);
        assert(digit_value(digit_char(n)) == n);
    } else {
        lemma_decimal_digits_round_trip(n / 10);
        let front = decimal_digits(n / 10);
        let s = decimal_digits(n);
        assert(s.drop_last() == front);
        assert(digit_value(digit_char(n % 10)) == n % 10);
        assert(s[0] == front[0]);
        assert forall|i: int| 0 <= i < s.len() implies is_digit(#[trigger] s[i]) by {
            if i < front.len() {
                assert(s[i] == front[i]);
            }
        }
    }
}

/// Both readings of a numeral give back the 32-bit number it was written
/// for.
pub proof fn lemma_unsigned_round_trip(n: u32)
    ensures
        unsigned_of_digits(decimal_digits(n as nat)) == Some(n),
        unsigned_of_text(decimal_digits(n as nat)) == Some(n),
{
    lemma_decimal_digits_round_trip(n as nat);
}

/// A text with a character beyond ASCII is no numeral.
proof fn lemma_numerals_are_ascii(s: Seq<char>)
    requires
        !vstd::utf8::is_ascii_chars(s),
    ensures
        unsigned_of_digits(s) is None,
        unsigned_of_text(s) is None,
{
    let i = choose|i: int| 0 <= i < s.len() && !('\0' <= #[trigger] s[i] <= '\u{7f}');
    assert(!is_digit(s[i]));
    if i > 0 {
        assert(s.skip(1)[i - 1] == s[i]);
    }
}

/// Reads the digits of an ASCII text from position `from` on.
fn parse_digits(text: &str, from: usize) -> (value: Option<u32>)
    requires
        text.is_ascii(),
        from <= text@.len(),
    ensures
        value == unsigned_of_digits(text@.skip(from as int)),
{
    let n = text.unicode_len();
    let ghost digits = text@.skip(from as int);
    if from >= n {
        return None;
    }
    let mut acc: u64 = 0;
    let mut i: usize = from;
    while i < n
        invariant
            from <= i <= n,
            n == text@.len(),
            text.is_ascii(),
            digits == text@.skip(from as int),
            all_digits(digits.take(i - from)),
            acc == digits_value(digits.take(i - from)),
            acc <= u32::MAX,
        decreases n - i,
    {
        let b = text.get_ascii(i);
        let ghost c = text@[i as int];
        proof {
            assert('\0' <= c <= '\u{7f}');
            assert(digits[i - from] == c);
            assert(digits.take(i - from + 1).drop_last() == digits.take(i - from));
            assert(digits.take(i - from + 1).last() == c);
        }
        if !(b >= 48 && b <= 57) {
            assert(!is_digit(c));
            return None;
        }
        let d = (b - 48) as u64;
        let next = acc * 10 + d;
        proof {
            assert(d == digit_value(c));
            assert(next == digits_value(digits.take(i - from + 1)));
            assert forall|j: int| 0 <= j < i - from + 1 implies is_digit(
                #[trigger] digits.take(i - from + 1)[j],
            ) by {
                if j < i - from {
                    assert(digits.take(i - from)[j] == digits[j]);
                }
            }
        }
        if next > u32::MAX as u64 {
            proof {
                lemma_digits_value_grows(digits, i - from + 1);
            }
            return None;
        }
        acc = next;
        i += 1;
    }
    proof {
        assert(digits.take(i - from) == digits);
    }
    Some(acc as u32)
}

/// Reads a numeral of decimal digits and nothing else.
pub fn parse_unsigned_digits(text: &str) -> (value: Option<u32>)
    ensures
        value == unsigned_of_digits(text@),
{
    if !text.is_ascii() {
        proof {
            lemma_numerals_are_ascii(text@);
        }
        return None;
    }
    proof {
        assert(text@.skip(0) == text@);
    }
    parse_digits(text, 0)
}

/// Reads an unsigned 32-bit integer as Rust reads one from a string.
pub fn parse_unsigned(text: &str) -> (value: Option<u32>)
    ensures
        value == unsigned_of_text(text@),
{
    if !text.is_ascii() {
        proof {
            lemma_numerals_are_ascii(text@);
        }
        return None;
    }
    let n = text.unicode_len();
    if n > 0 && text.get_ascii(0) == 43 {
        assert(text@[0] == '+');
        parse_digits(text, 1)
    } else {
        proof {
            assert(text@.skip(0) == text@);
        }
        parse_digits(text, 0)
    }
}

} // verus!

//! The character-level grammar of the two map sources: which characters
//! separate tile codes, what a tile code token denotes, and which characters
//! of the passability mask are cells.

use vstd::prelude::*;
use vstd::std_specs::iter::IteratorSpec;

verus! {

broadcast use vstd::string::group_string_axioms;

/// Whether a character separates tile codes. These are the characters with
/// the Unicode property White_Space, line ends among them.
pub open spec fn separates(c: char) -> bool {
    let v = c as u32;
    ||| 0x09 <= v <= 0x0d
    ||| v == 0x20
    ||| v == 0x85
    ||| v == 0xa0
    ||| v == 0x1680
    ||| 0x2000 <= v <= 0x200a
    ||| v == 0x2028
    ||| v == 0x2029
    ||| v == 0x202f
    ||| v == 0x205f
    ||| v == 0x3000
}

/// The value of a hexadecimal digit, in either case; `None` for any other
/// character.
pub open spec fn hex_digit(c: char) -> Option<u8> {
    let v = c as u32;
    if 0x30 <= v <= 0x39 {
        Some((v - 0x30) as u8)
    } else if 0x61 <= v <= 0x66 {
        Some((v - 0x61 + 10) as u8)
    } else if 0x41 <= v <= 0x46 {
        Some((v - 0x41 + 10) as u8)
    } else {
        None
    }
}

/// Whether every character of the sequence is a hexadecimal digit.
pub open spec fn all_hex(digits: Seq<char>) -> bool {
    forall|i: int| 0 <= i < digits.len() ==> (#[trigger] hex_digit(digits[i])) is Some
}

/// The number that a sequence of hexadecimal digits writes, most significant
/// digit first. A character that is no digit counts as zero.
pub open spec fn digits_value(digits: Seq<char>) -> nat
    decreases digits.len(),
{
    if digits.len() == 0 {
        0
    } else {
        let low: nat = match hex_digit(digits.last()) {
            Some(d) => d as nat,
            None => 0,
        };
        16 * digits_value(digits.drop_last()) + low
    }
}

/// The digits of a token: the token itself, without one leading plus sign.
pub open spec fn unsigned_digits(token: Seq<char>) -> Seq<char> {
    if token.len() > 0 && token[0] == '+' {
        token.skip(1)
    } else {
        token
    }
}

/// The tile code that a token denotes: a base-16 unsigned byte, written as an
/// optional plus sign and at least one hexadecimal digit. Leading zeros are
/// allowed. `None` for a malformed token and for a number above `0xff`.
pub open spec fn token_code(token: Seq<char>) -> Option<u8> {
    let digits = unsigned_digits(token);
    if digits.len() > 0 && all_hex(digits) && digits_value(digits) <= 0xff {
        Some(digits_value(digits) as u8)
    } else {
        None
    }
}

/// Whether a character separates tile codes.
pub fn is_separator(c: char) -> (b: bool)
    ensures
        b == separates(c),
{
    let v: u32 = c as u32;
    (0x09 <= v && v <= 0x0d) || v == 0x20 || v == 0x85 || v == 0xa0 || v == 0x1680 || (0x2000 <= v
        && v <= 0x200a) || v == 0x2028 || v == 0x2029 || v == 0x202f || v == 0x205f || v == 0x3000
}

/// The value of a hexadecimal digit, if the character is one.
pub fn hex_digit_value(c: char) -> (digit: Option<u8>)
    ensures
        digit == hex_digit(c),
        digit matches Some(d) ==> d < 16,
{
    let v: u32 = c as u32;
    if 0x30 <= v && v <= 0x39 {
        Some((v - 0x30) as u8)
    } else if 0x61 <= v && v <= 0x66 {
        Some((v - 0x61 + 10) as u8)
    } else if 0x41 <= v && v <= 0x46 {
        Some((v - 0x41 + 10) as u8)
    } else {
        None
    }
}

/// A longer digit sequence never writes a smaller number than its prefix.
pub proof fn lemma_digits_value_grows(digits: Seq<char>, k: int)
    requires
        0 <= k <= digits.len(),
    ensures
        digits_value(digits.take(k)) <= digits_value(digits),
    decreases digits.len() - k,
{
    if k == digits.len() {
        assert(digits.take(k) == digits);
    } else {
        lemma_digits_value_grows(digits.drop_last(), k);
        assert(digits.drop_last().take(k) == digits.take(k));
    }
}

/// Reads a tile code token.
pub fn parse_code(token: &[char]) -> (code: Option<u8>)
    ensures
        code == token_code(token@),
{
    let n: usize = token.len();
    let first: usize = if n > 0 && token[0] == '+' {
        1
    } else {
        0
    };
    if first == n {
        return None;
    }
    let ghost digits = unsigned_digits(token@);
    assert(digits == token@.skip(first as int));
    let mut value: u32 = 0;
    let mut i: usize = first;
    while i < n
        invariant
            first <= i <= n,
            n == token.len(),
            first < n,
            digits == token@.skip(first as int),
            digits == unsigned_digits(token@),
            all_hex(digits.take(i - first)),
            value == digits_value(digits.take(i - first)),
            value <= 0xff,
        decreases n - i,
    {
        let ghost seen = digits.take(i - first);
        let ghost next = digits.take(i - first + 1);
        assert(next.drop_last() == seen);
        assert(next.last() == token[i as int]);
        match hex_digit_value(token[i]) {
            Some(d) => {
                value = value * 16 + d as u32;
                assert(value == digits_value(next));
                if value > 0xff {
                    proof {
                        lemma_digits_value_grows(digits, i - first + 1);
                    }
                    return None;
                }
                assert forall|j: int| 0 <= j < next.len() implies (#[trigger] hex_digit(
                    next[j],
                )) is Some by {
                    if j < seen.len() {
                        assert(next[j] == seen[j]);
                    }
                }
            },
            None => {
                assert(hex_digit(digits[i - first]) is None);
                return None;
            },
        }
        i += 1;
    }
    assert(digits.take(i - first) == digits);
    Some(value as u8)
}

/// The characters of a text, in order.
pub fn chars_of(text: &str) -> (chars: Vec<char>)
    ensures
        chars@ == text@,
{
    let mut chars: Vec<char> = Vec::new();
    let mut rest = text.chars();
    loop
        invariant
            rest.obeys_prophetic_iter_laws(),
            rest.decrease() is Some,
            chars@ + rest.remaining() == text@,
        ensures
            chars@ == text@,
        decreases rest.decrease()->0,
    {
        match rest.next() {
            Some(c) => {
                chars.push(c);
            },
            None => {
                break;
            },
        }
    }
    chars
}

} // verus!

//! Building text.

use vstd::prelude::*;
use vstd::string::StrSliceExecFns;

verus! {

/// `String::push` of `std`: the string with the character added at its end.
#[verifier::external_body]
pub(crate) fn push_char(s: &mut String, c: char)
    ensures
        final(s)@ == old(s)@.push(c),
{
    s.push(c)
}

/// `String::push_str` of `std`: the string with the other one added at its
/// end.
#[verifier::external_body]
pub(crate) fn push_text(s: &mut String, other: &str)
    ensures
        final(s)@ == old(s)@ + other@,
{
    s.push_str(other)
}

/// The value of a decimal digit, where the character is one.
pub open spec fn digit_value(c: char) -> Option<nat> {
    if c == '0' {
        Some(0)
    } else if c == '1' {
        Some(1)
    } else if c == '2' {
        Some(2)
    } else if c == '3' {
        Some(3)
    } else if c == '4' {
        Some(4)
    } else if c == '5' {
        Some(5)
    } else if c == '6' {
        Some(6)
    } else if c == '7' {
        Some(7)
    } else if c == '8' {
        Some(8)
    } else if c == '9' {
        Some(9)
    } else {
        None
    }
}

/// The character of a decimal digit.
pub open spec fn digit_char(d: nat) -> char {
    if d == 0 {
        '0'
    } else if d == 1 {
        '1'
    } else if d == 2 {
        '2'
    } else if d == 3 {
        '3'
    } else if d == 4 {
        '4'
    } else if d == 5 {
        '5'
    } else if d == 6 {
        '6'
    } else if d == 7 {
        '7'
    } else if d == 8 {
        '8'
    } else {
        '9'
    }
}

/// The number that a run of decimal digits stands for; nothing if one of
/// the characters is not a digit.
pub open spec fn digits_value(digits: Seq<char>) -> Option<nat>
    decreases digits.len(),
{
    if digits.len() == 0 {
        Some(0)
    } else {
        match (digits_value(digits.drop_last()), digit_value(digits.last())) {
            (Some(head), Some(d)) => Some(head * 10 + d),
            _ => None,
        }
    }
}

/// The number that a text stands for, as the unsigned integers of `std`
/// read it: a plus sign or none, then one decimal digit or more and nothing
/// else; nothing if the number is above `max`.
pub open spec fn number_value(text: Seq<char>, max: nat) -> Option<nat> {
    let digits = if text.len() > 0 && text[0] == '+' {
        text.subrange(1, text.len() as int)
    } else {
        text
    };
    if digits.len() == 0 {
        None
    } else {
        match digits_value(digits) {
            Some(v) => if v <= max {
                Some(v)
            } else {
                None
            },
            None => None,
        }
    }
}

/// A number written in decimal digits, without leading zeros.
pub open spec fn decimal_text(n: nat) -> Seq<char>
    decreases n,
{
    if n < 10 {
        seq![digit_char(n)]
    } else {
        decimal_text(n / 10).push(digit_char(n % 10))
    }
}

/// A number is read back from its decimal digits.
pub proof fn lemma_decimal_round_trip(n: nat, max: nat)
    requires
        n <= max,
    ensures
        decimal_text(n).len() > 0,
        digits_value(decimal_text(n)) == Some(n),
        decimal_text(n)[0] != '+',
        number_value(decimal_text(n), max) == Some(n),
    decreases n,
{
    if n < 10 {
        let text = seq![digit_char(n)];
        assert(text.drop_last() =~= Seq::<char>::empty());
        assert(digits_value(text.drop_last()) == Some(0nat));
        assert(text.last() == digit_char(n));
    } else {
        lemma_decimal_round_trip(n / 10, max);
        let head = decimal_text(n / 10);
        let text = head.push(digit_char(n % 10));
        assert(text.drop_last() =~= head);
        assert(text.last() == digit_char(n % 10));
        assert(text[0] == head[0]);
    }
}

/// Runs of digits with different values differ, so more digits never make
/// a number smaller.
proof fn lemma_digits_grow(digits: Seq<char>, k: int)
    requires
        0 <= k <= digits.len(),
        digits_value(digits) is Some,
    ensures
        digits_value(digits.subrange(0, k)) is Some,
        digits_value(digits.subrange(0, k))->0 <= digits_value(digits)->0,
    decreases digits.len(),
{
    if k == digits.len() {
        assert(digits.subrange(0, k) =~= digits);
    } else {
        lemma_digits_grow(digits.drop_last(), k);
        assert(digits.drop_last().subrange(0, k) =~= digits.subrange(0, k));
    }
}

fn digit_of(c: char) -> (r: Option<u64>)
    ensures
        match r {
            Some(d) => digit_value(c) == Some(d as nat) && d < 10,
            None => digit_value(c) is None,
        },
{
    if c == '0' {
        Some(0)
    } else if c == '1' {
        Some(1)
    } else if c == '2' {
        Some(2)
    } else if c == '3' {
        Some(3)
    } else if c == '4' {
        Some(4)
    } else if c == '5' {
        Some(5)
    } else if c == '6' {
        Some(6)
    } else if c == '7' {
        Some(7)
    } else if c == '8' {
        Some(8)
    } else if c == '9' {
        Some(9)
    } else {
        None
    }
}

fn char_of(d: u64) -> (r: char)
    requires
        d < 10,
    ensures
        r == digit_char(d as nat),
{
    if d == 0 {
        '0'
    } else if d == 1 {
        '1'
    } else if d == 2 {
        '2'
    } else if d == 3 {
        '3'
    } else if d == 4 {
        '4'
    } else if d == 5 {
        '5'
    } else if d == 6 {
        '6'
    } else if d == 7 {
        '7'
    } else if d == 8 {
        '8'
    } else {
        '9'
    }
}

/// Whether the text from place `from` on is `word` and nothing more.
pub fn text_is(text: &str, from: usize, word: &str) -> (r: bool)
    requires
        from <= text@.len(),
    ensures
        r == (text@.subrange(from as int, text@.len() as int) == word@),
{
    let n = text.unicode_len();
    let m = word.unicode_len();
    if n - from != m {
        return false;
    }
    let mut i: usize = 0;
    while i < m
        invariant
            i <= m,
            m == word@.len(),
            n == text@.len(),
            n - from == m,
            forall|j: int| 0 <= j < i ==> text@[from + j] == word@[j],
        decreases m - i,
    {
        if text.get_char(from + i) != word.get_char(i) {
            assert(text@.subrange(from as int, n as int)[i as int] != word@[i as int]);
            return false;
        }
        i += 1;
    }
    assert(text@.subrange(from as int, n as int) =~= word@);
    true
}

/// Whether the text starts with `word`.
pub fn text_starts_with(text: &str, word: &str) -> (r: bool)
    ensures
        r == (word@.len() <= text@.len() && text@.subrange(0, word@.len() as int) == word@),
{
    let n = text.unicode_len();
    let m = word.unicode_len();
    if n < m {
        return false;
    }
    let mut i: usize = 0;
    while i < m
        invariant
            i <= m,
            m == word@.len(),
            n == text@.len(),
            m <= n,
            forall|j: int| 0 <= j < i ==> text@[j] == word@[j],
        decreases m - i,
    {
        if text.get_char(i) != word.get_char(i) {
            assert(text@.subrange(0, m as int)[i as int] != word@[i as int]);
            return false;
        }
        i += 1;
    }
    assert(text@.subrange(0, m as int) =~= word@);
    true
}

/// The number that the text from place `from` on stands for, see
/// [`number_value`].
pub fn parse_number(text: &str, from: usize, max: u64) -> (r: Option<u64>)
    requires
        from <= text@.len(),
    ensures
        match r {
            Some(v) => number_value(text@.subrange(from as int, text@.len() as int), max as nat)
                == Some(v as nat),
            None => number_value(text@.subrange(from as int, text@.len() as int), max as nat) is None,
        },
{
    let n = text.unicode_len();
    let ghost whole = text@.subrange(from as int, n as int);
    let mut start = from;
    if start < n && text.get_char(start) == '+' {
        start = start + 1;
    }
    let ghost digits = text@.subrange(start as int, n as int);
    proof {
        if start > from {
            assert(whole[0] == '+');
            assert(whole.subrange(1, whole.len() as int) =~= digits);
        } else {
            if whole.len() > 0 {
                assert(whole[0] == text@[from as int]);
            }
            assert(whole =~= digits);
        }
    }
    if start == n {
        return None;
    }
    let mut value: u64 = 0;
    let mut i: usize = start;
    proof {
        assert(digits.subrange(0, 0) =~= Seq::<char>::empty());
    }
    while i < n
        invariant
            start <= i <= n,
            start < n,
            from <= n,
            n == text@.len(),
            digits == text@.subrange(start as int, n as int),
            number_value(text@.subrange(from as int, n as int), max as nat) == match digits_value(
                digits,
            ) {
                Some(v) => if v <= max {
                    Some(v)
                } else {
                    None
                },
                None => None,
            },
            digits_value(digits.subrange(0, i - start)) == Some(value as nat),
            value <= max,
        decreases n - i,
    {
        let c = text.get_char(i);
        let ghost upto = digits.subrange(0, i - start + 1);
        proof {
            assert(upto.drop_last() =~= digits.subrange(0, i - start));
            assert(upto.last() == c);
            if digits_value(digits) is Some {
                lemma_digits_grow(digits, i - start + 1);
            }
        }
        match digit_of(c) {
            None => {
                proof {
                    assert(digits_value(upto) is None);
                }
                return None;
            },
            Some(d) => {
                if d > max || value > (max - d) / 10 {
                    proof {
                        assert(value * 10 + d > max) by (nonlinear_arith)
                            requires
                                d > max || value > (max - d) / 10,
                                0 <= d < 10,
                                0 <= value,
                        ;
                        assert(digits_value(upto) == Some((value * 10 + d) as nat));
                    }
                    return None;
                }
                assert(value * 10 + d <= max) by (nonlinear_arith)
                    requires
                        value <= (max - d) / 10,
                        d <= max,
                ;
                value = value * 10 + d;
            },
        }
        i += 1;
    }
    proof {
        assert(digits.subrange(0, n - start) =~= digits);
    }
    Some(value)
}

/// Adds the decimal digits of a number to a string.
pub fn push_decimal(out: &mut String, n: u64)
    ensures
        final(out)@ == old(out)@ + decimal_text(n as nat),
    decreases n,
{
    if n < 10 {
        push_char(out, char_of(n));
        assert(old(out)@.push(digit_char(n as nat)) =~= old(out)@ + decimal_text(n as nat));
    } else {
        push_decimal(out, n / 10);
        push_char(out, char_of(n % 10));
        assert((old(out)@ + decimal_text((n / 10) as nat)).push(digit_char((n % 10) as nat))
            =~= old(out)@ + decimal_text(n as nat));
    }
}

} // verus!

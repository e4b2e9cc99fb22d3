//! Counts written out in decimal digits.

use vstd::prelude::*;

verus! {

/// The digit for a value below ten.
pub open spec fn digit(d: int) -> char {
    if d == 0 {
        '0'
    } else if d == 1 {
        '1'
    } else if d == 2 {
        '2'
    } else if d == 3 {
        '3'
    } else if d == 4 {
        '4'
    } else if d == 5 {
        '5'
    } else if d == 6 {
        '6'
    } else if d == 7 {
        '7'
    } else if d == 8 {
        '8'
    } else {
        '9'
    }
}

/// The value of a digit; no value for any other character.
pub open spec fn digit_value(c: char) -> Option<int> {
    if c == '0' {
        Some(0)
    } else if c == '1' {
        Some(1)
    } else if c == '2' {
        Some(2)
    } else if c == '3' {
        Some(3)
    } else if c == '4' {
        Some(4)
    } else if c == '5' {
        Some(5)
    } else if c == '6' {
        Some(6)
    } else if c == '7' {
        Some(7)
    } else if c == '8' {
        Some(8)
    } else if c == '9' {
        Some(9)
    } else {
        None
    }
}

/// The decimal digits of `n`, the most significant first, without leading zeros.
pub open spec fn digits(n: nat) -> Seq<char>
    decreases n,
{
    if n < 10 {
        seq![digit(n as int)]
    } else {
        digits(n / 10).push(digit((n % 10) as int))
    }
}

/// `n` in decimal, with a minus sign before the digits of a negative number.
pub open spec fn decimal(n: int) -> Seq<char> {
    if n < 0 {
        seq!['-'] + digits((-n) as nat)
    } else {
        digits(n as nat)
    }
}

/// The number that a sequence of digits stands for; `None` if the sequence is
/// empty or holds anything but digits.
pub open spec fn digits_value(s: Seq<char>) -> Option<nat>
    decreases s.len(),
{
    if s.len() == 0 {
        None
    } else if s.len() == 1 {
        match digit_value(s[0]) {
            Some(d) => Some(d as nat),
            None => None,
        }
    } else {
        match (digits_value(s.drop_last()), digit_value(s.last())) {
            (Some(high), Some(low)) => Some((high * 10 + low) as nat),
            _ => None,
        }
    }
}

/// The number that a decimal text stands for.
pub open spec fn decimal_value(s: Seq<char>) -> Option<int> {
    if s.len() > 0 && s[0] == '-' {
        match digits_value(s.skip(1)) {
            Some(n) => Some(-(n as int)),
            None => None,
        }
    } else {
        match digits_value(s) {
            Some(n) => Some(n as int),
            None => None,
        }
    }
}

/// Digits are read back as the number they were written for.
pub proof fn lemma_digits_value(n: nat)
    ensures
        digits(n).len() >= 1,
        digits(n)[0] != '-',
        digits_value(digits(n)) == Some(n),
    decreases n,
{
    if n >= 10 {
        lemma_digits_value(n / 10);
        let s = digits(n);
        assert(s.drop_last() =~= digits(n / 10));
        assert(s.last() == digit((n % 10) as int));
        assert(s[0] == digits(n / 10)[0]);
    }
}

/// A count written in decimal and read back is the same count.
pub proof fn lemma_decimal_value(n: int)
    ensures
        decimal_value(decimal(n)) == Some(n),
{
    if n < 0 {
        lemma_digits_value((-n) as nat);
        assert(decimal(n).skip(1) =~= digits((-n) as nat));
    } else {
        lemma_digits_value(n as nat);
    }
}

/// The digit for `d`.
fn digit_char(d: u8) -> (c: char)
    requires
        d < 10,
    ensures
        c == digit(d as int),
{
    if d == 0 {
        '0'
    } else if d == 1 {
        '1'
    } else if d == 2 {
        '2'
    } else if d == 3 {
        '3'
    } else if d == 4 {
        '4'
    } else if d == 5 {
        '5'
    } else if d == 6 {
        '6'
    } else if d == 7 {
        '7'
    } else if d == 8 {
        '8'
    } else {
        '9'
    }
}

/// Writes `n` in decimal.
pub fn decimal_text(n: i128) -> (text: String)
    ensures
        text@ == decimal(n as int),
{
    let negative = n < 0;
    let magnitude: u128 = if negative {
        (-(n + 1)) as u128 + 1
    } else {
        n as u128
    };
    let mut low: Vec<char> = Vec::new();
    let mut rest: u128 = magnitude;
    assert(digits(magnitude as nat) =~= digits(rest as nat) + low@.reverse());
    while rest >= 10
        invariant
            digits(magnitude as nat) == digits(rest as nat) + low@.reverse(),
        decreases rest,
    {
        let d = (rest % 10) as u8;
        let ghost before = low@;
        low.push(digit_char(d));
        proof {
            assert(low@.reverse() =~= seq![digit(d as int)] + before.reverse());
            assert(digits(rest as nat) == digits((rest / 10) as nat).push(digit(d as int)));
            assert(digits((rest / 10) as nat) + low@.reverse() =~= digits(rest as nat)
                + before.reverse());
        }
        rest = rest / 10;
    }
    let mut text = String::new();
    if negative {
        text.push('-');
    }
    text.push(digit_char(rest as u8));
    let ghost head = text@;
    let mut i: usize = low.len();
    assert(low@.reverse().subrange(0, 0) =~= Seq::<char>::empty());
    while i > 0
        invariant
            i <= low.len(),
            text@ == head + low@.reverse().subrange(0, low@.len() - i),
        decreases i,
    {
        i -= 1;
        text.push(low[i]);
        assert(low@.reverse()[low@.len() - i - 1] == low@[i as int]);
        assert(text@ =~= head + low@.reverse().subrange(0, low@.len() - i));
    }
    assert(low@.reverse().subrange(0, low@.len() as int) =~= low@.reverse());
    assert(text@ =~= decimal(n as int));
    text
}

} // verus!

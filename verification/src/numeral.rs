//! Decimal numerals: reading a run of digits as a number and writing a
//! number as zero-padded digits.

use vstd::prelude::*;

verus! {

/// Whether `c` is one of the ten ASCII decimal digits.
pub open spec fn is_digit(c: char) -> bool {
    '0' <= c && c <= '9'
}

/// The value of an ASCII decimal digit.
pub open spec fn digit_value(c: char) -> nat {
    (c as u32 - '0' as u32) as nat
}

/// The ASCII digit that stands for `d`, for `d` below ten.
pub open spec fn digit_char(d: nat) -> char {
    if d == 0 {
        '0'
    } else if d == 1 {
        '1'
    } else if d == 2 {
        '2'
    } else if d == 3 {
        '3'
    } else if d == 4 {
        '4'
    } else if d == 5 {
        '5'
    } else if d == 6 {
        '6'
    } else if d == 7 {
        '7'
    } else if d == 8 {
        '8'
    } else {
        '9'
    }
}

/// The number that a run of decimal digits denotes (0 for the empty run).
pub open spec fn decimal_value(digits: Seq<char>) -> nat
    decreases digits.len(),
{
    if digits.len() == 0 {
        0
    } else {
        decimal_value(digits.drop_last()) * 10 + digit_value(digits.last())
    }
}

/// Whether every character of `s` is a decimal digit.
pub open spec fn all_digits(s: Seq<char>) -> bool {
    forall|i: int| 0 <= i < s.len() ==> is_digit(#[trigger] s[i])
}

/// What reading `s` as an unsigned decimal number no larger than `max`
/// gives: an optional `+`, then at least one digit and nothing else.
pub open spec fn parse_unsigned(s: Seq<char>, max: nat) -> Option<nat> {
    let body = if s.len() > 0 && s[0] == '+' {
        s.skip(1)
    } else {
        s
    };
    if body.len() == 0 || !all_digits(body) || decimal_value(body) > max {
        None
    } else {
        Some(decimal_value(body))
    }
}

/// `n` in decimal, without leading zeros.
pub open spec fn decimal(n: nat) -> Seq<char>
    decreases n,
{
    if n < 10 {
        seq![digit_char(n)]
    } else {
        decimal(n / 10).push(digit_char(n % 10))
    }
}

/// `count` zeros.
pub open spec fn zeros(count: nat) -> Seq<char> {
    Seq::new(count, |i: int| '0')
}

/// `n` in decimal, with zeros in front until it has `width` characters. A
/// number that needs more than `width` digits is written in full.
pub open spec fn zero_padded(n: nat, width: nat) -> Seq<char> {
    if decimal(n).len() < width {
        zeros((width - decimal(n).len()) as nat) + decimal(n)
    } else {
        decimal(n)
    }
}

pub fn is_ascii_digit(c: char) -> (b: bool)
    ensures
        b == is_digit(c),
{
    '0' <= c && c <= '9'
}

/// The characters of `s`, one by one.
pub fn chars_of(s: &str) -> (v: Vec<char>)
    ensures
        v@ == s@,
{
    let mut v: Vec<char> = Vec::new();
    for c in it: s.chars()
        invariant
            it.seq() == s@,
            v@ == it.seq().take(it.index() as int),
    {
        v.push(c);
    }
    v
}

/// A longer run of digits denotes no smaller a number than its beginning.
pub proof fn lemma_decimal_value_grows(digits: Seq<char>, i: int, j: int)
    requires
        0 <= i <= j <= digits.len(),
    ensures
        decimal_value(digits.take(i)) <= decimal_value(digits.take(j)),
    decreases j - i,
{
    if i < j {
        lemma_decimal_value_grows(digits, i, j - 1);
        assert(digits.take(j).drop_last() == digits.take(j - 1));
    }
}

/// Reads `s` as an unsigned decimal number no larger than `max`.
pub fn parse_number(s: &str, max: u64) -> (value: Option<u64>)
    ensures
        match value {
            Some(v) => parse_unsigned(s@, max as nat) == Some(v as nat),
            None => parse_unsigned(s@, max as nat) is None,
        },
{
    let chars = chars_of(s);
    let first: usize = if chars.len() > 0 && chars[0] == '+' {
        1
    } else {
        0
    };
    if first == chars.len() {
        return None;
    }
    let ghost body = s@.skip(first as int);
    assert(s@.skip(0) == s@);
    let mut acc: u64 = 0;
    let mut i: usize = first;
    while i < chars.len()
        invariant
            chars@ == s@,
            body == s@.skip(first as int),
            body == if s@.len() > 0 && s@[0] == '+' {
                s@.skip(1)
            } else {
                s@
            },
            body.len() > 0,
            first <= i <= chars.len(),
            forall|j: int| 0 <= j < i - first ==> is_digit(#[trigger] body[j]),
            acc == decimal_value(body.take(i - first)),
            acc <= max,
        decreases chars.len() - i,
    {
        let c = chars[i];
        if !is_ascii_digit(c) {
            assert(!is_digit(body[i - first]));
            return None;
        }
        let d: u64 = (c as u32 - '0' as u32) as u64;
        proof {
            assert(body.take(i - first + 1).drop_last() == body.take(i - first));
            lemma_decimal_value_grows(body, i - first + 1, body.len() as int);
            assert(body.take(body.len() as int) == body);
        }
        if acc > max / 10 {
            return None;
        }
        let tens = acc * 10;
        if d > max - tens {
            return None;
        }
        acc = tens + d;
        i += 1;
    }
    assert(body.take(i - first) == body);
    Some(acc)
}

/// The one-character text of the digit `d`.
pub fn digit_text(d: u8) -> (text: &'static str)
    requires
        d < 10,
    ensures
        text@ == seq![digit_char(d as nat)],
{
    proof {
        reveal_strlit("0");
        reveal_strlit("1");
        reveal_strlit("2");
        reveal_strlit("3");
        reveal_strlit("4");
        reveal_strlit("5");
        reveal_strlit("6");
        reveal_strlit("7");
        reveal_strlit("8");
        reveal_strlit("9");
    }
    let text = if d == 0 {
        "0"
    } else if d == 1 {
        "1"
    } else if d == 2 {
        "2"
    } else if d == 3 {
        "3"
    } else if d == 4 {
        "4"
    } else if d == 5 {
        "5"
    } else if d == 6 {
        "6"
    } else if d == 7 {
        "7"
    } else if d == 8 {
        "8"
    } else {
        "9"
    };
    assert(text@ =~= seq![digit_char(d as nat)]);
    text
}

/// Digits kept least significant first, read most significant first.
pub open spec fn most_significant_first(digits: Seq<u8>) -> Seq<char> {
    Seq::new(digits.len(), |i: int| digit_char(digits[digits.len() - 1 - i] as nat))
}

/// Writes `n` in decimal, zero-padded to `width` characters and never cut.
pub fn format_number(n: u128, width: usize) -> (text: String)
    ensures
        text@ == zero_padded(n as nat, width as nat),
{
    let mut digits: Vec<u8> = Vec::new();
    digits.push((n % 10) as u8);
    let mut rest: u128 = n / 10;
    assert(decimal(n as nat) =~= (if rest > 0 {
        decimal(rest as nat)
    } else {
        Seq::empty()
    }) + most_significant_first(digits@));
    while rest > 0
        invariant
            digits.len() >= 1,
            forall|i: int| 0 <= i < digits.len() ==> #[trigger] digits[i] < 10,
            decimal(n as nat) == (if rest > 0 {
                decimal(rest as nat)
            } else {
                Seq::empty()
            }) + most_significant_first(digits@),
        decreases rest,
    {
        let ghost before = digits@;
        digits.push((rest % 10) as u8);
        assert(most_significant_first(digits@) =~= seq![digit_char((rest % 10) as nat)]
            + most_significant_first(before));
        assert(decimal(rest as nat) =~= (if rest / 10 > 0 {
            decimal((rest / 10) as nat)
        } else {
            Seq::empty()
        }) + seq![digit_char((rest % 10) as nat)]);
        rest = rest / 10;
    }
    let count = digits.len();
    assert(decimal(n as nat) =~= most_significant_first(digits@));
    let mut text = String::new();
    let mut filled: usize = count;
    while filled < width
        invariant
            count <= filled,
            count < width ==> filled <= width,
            count >= width ==> filled == count,
            text@ == zeros((filled - count) as nat),
        decreases width - filled,
    {
        proof {
            reveal_strlit("0");
        }
        text.append("0");
        filled += 1;
        assert(text@ =~= zeros((filled - count) as nat));
    }
    let ghost padding = text@;
    let mut i: usize = count;
    while i > 0
        invariant
            i <= count,
            count == digits.len(),
            forall|j: int| 0 <= j < digits.len() ==> #[trigger] digits[j] < 10,
            decimal(n as nat) == most_significant_first(digits@),
            padding == zeros((filled - count) as nat),
            filled == if count < width {
                width
            } else {
                count
            },
            text@ == padding + most_significant_first(digits@).take(count - i),
        decreases i,
    {
        i -= 1;
        text.append(digit_text(digits[i]));
        assert(text@ =~= padding + most_significant_first(digits@).take(count - i));
    }
    assert(most_significant_first(digits@).take(count as int) == most_significant_first(
        digits@,
    ));
    assert(zeros(0) + decimal(n as nat) =~= decimal(n as nat));
    text
}

proof fn lemma_zeros_value(count: nat)
    ensures
        decimal_value(zeros(count)) == 0,
    decreases count,
{
    if count > 0 {
        lemma_zeros_value((count - 1) as nat);
        assert(zeros(count).drop_last() == zeros((count - 1) as nat));
    }
}

proof fn lemma_leading_zeros_keep_value(count: nat, digits: Seq<char>)
    ensures
        decimal_value(zeros(count) + digits) == decimal_value(digits),
    decreases digits.len(),
{
    if digits.len() == 0 {
        assert(zeros(count) + digits == zeros(count));
        lemma_zeros_value(count);
    } else {
        lemma_leading_zeros_keep_value(count, digits.drop_last());
        assert((zeros(count) + digits).drop_last() == zeros(count) + digits.drop_last());
    }
}

/// The decimal text of `n` is made of digits and denotes `n`.
pub proof fn lemma_decimal_round_trip(n: nat)
    ensures
        decimal(n).len() >= 1,
        all_digits(decimal(n)),
        decimal_value(decimal(n)) == n,
    decreases n,
{
    if n < 10 {
        assert(decimal(n).drop_last() == Seq::<char>::empty());
        assert(decimal_value(decimal(n).drop_last()) == 0);
    } else {
        lemma_decimal_round_trip(n / 10);
        assert(decimal(n).drop_last() == decimal(n / 10));
    }
}

/// Zero padding changes neither what the text is made of nor the number it
/// denotes, so two numbers padded to one width are written alike only if
/// they are the same number.
pub proof fn lemma_zero_padded_round_trip(n: nat, width: nat)
    ensures
        zero_padded(n, width).len() >= 1,
        zero_padded(n, width).len() >= width,
        all_digits(zero_padded(n, width)),
        decimal_value(zero_padded(n, width)) == n,
{
    lemma_decimal_round_trip(n);
    if decimal(n).len() < width {
        lemma_leading_zeros_keep_value((width - decimal(n).len()) as nat, decimal(n));
    }
}

} // verus!

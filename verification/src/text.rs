//! Comparison and decimal printing of strings.
use vstd::prelude::*;
use vstd::string::{StrSliceExecFns, StringExecFns};

verus! {

/// Whether two strings hold the same characters.
pub fn same_text(a: &str, b: &str) -> (same: bool)
    ensures
        same == (a@ == b@),
{
    a.to_owned() == b.to_owned()
}

/// The decimal digit of a number below ten.
pub open spec fn digit_char(d: nat) -> char {
    if d == 0 {
        '0'
    } else if d == 1 {
        '1'
    } else if d == 2 {
        '2'
    } else if d == 3 {
        '3'
    } else if d == 4 {
        '4'
    } else if d == 5 {
        '5'
    } else if d == 6 {
        '6'
    } else if d == 7 {
        '7'
    } else if d == 8 {
        '8'
    } else {
        '9'
    }
}

/// A number in decimal notation, without leading zeros.
pub open spec fn decimal(n: nat) -> Seq<char>
    decreases n,
{
    if n < 10 {
        seq![digit_char(n)]
    } else {
        decimal(n / 10).push(digit_char(n % 10))
    }
}

fn digit(d: u32) -> (text: &'static str)
    requires
        d < 10,
    ensures
        text@ == seq![digit_char(d as nat)],
{
    proof {
        reveal_strlit("0");
        reveal_strlit("1");
        reveal_strlit("2");
        reveal_strlit("3");
        reveal_strlit("4");
        reveal_strlit("5");
        reveal_strlit("6");
        reveal_strlit("7");
        reveal_strlit("8");
        reveal_strlit("9");
    }
    let text: &'static str = match d {
        0 => "0",
        1 => "1",
        2 => "2",
        3 => "3",
        4 => "4",
        5 => "5",
        6 => "6",
        7 => "7",
        8 => "8",
        _ => "9",
    };
    assert(text@ =~= seq![digit_char(d as nat)]);
    text
}

/// A number in decimal notation.
pub fn decimal_text(n: u32) -> (text: String)
    ensures
        text@ == decimal(n as nat),
    decreases n,
{
    if n < 10 {
        digit(n).to_owned()
    } else {
        let mut text: String = decimal_text(n / 10);
        text.append(digit(n % 10));
        assert(text@ =~= decimal(n as nat));
        text
    }
}

/// The value of a decimal digit.
pub open spec fn digit_value(c: char) -> Option<nat> {
    if '0' <= c && c <= '9' {
        Some((c as nat - '0' as nat) as nat)
    } else {
        None
    }
}

/// The number that a non-empty string of decimal digits stands for.
pub open spec fn digits_value(text: Seq<char>) -> Option<nat>
    decreases text.len(),
{
    if text.len() == 0 {
        None
    } else {
        match digit_value(text.last()) {
            None => None,
            Some(digit) => if text.len() == 1 {
                Some(digit)
            } else {
                match digits_value(text.drop_last()) {
                    None => None,
                    Some(value) => Some(10 * value + digit),
                }
            },
        }
    }
}

/// The 32-bit number that a string stands for: decimal digits, after an optional
/// plus sign.
pub open spec fn parsed_u32(text: Seq<char>) -> Option<nat> {
    let digits = if text.len() > 0 && text[0] == '+' {
        text.skip(1)
    } else {
        text
    };
    match digits_value(digits) {
        Some(value) => if value <= u32::MAX {
            Some(value)
        } else {
            None
        },
        None => None,
    }
}

proof fn lemma_digits_value_fails(text: Seq<char>, n: int)
    requires
        0 < n <= text.len(),
        digits_value(text.take(n)) is None,
    ensures
        digits_value(text) is None,
    decreases text.len() - n,
{
    if n == text.len() {
        assert(text.take(n) =~= text);
    } else {
        assert(text.take(n + 1).drop_last() =~= text.take(n));
        lemma_digits_value_fails(text, n + 1);
    }
}

proof fn lemma_digits_value_grows(text: Seq<char>, n: int)
    requires
        0 < n <= text.len(),
        digits_value(text.take(n)) is Some,
    ensures
        digits_value(text) matches Some(value) ==> value >= digits_value(text.take(n))->0,
    decreases text.len() - n,
{
    if n == text.len() {
        assert(text.take(n) =~= text);
    } else {
        assert(text.take(n + 1).drop_last() =~= text.take(n));
        if digits_value(text.take(n + 1)) is Some {
            lemma_digits_value_grows(text, n + 1);
        } else {
            lemma_digits_value_fails(text, n + 1);
        }
    }
}

/// The 32-bit number that a string stands for.
pub fn parse_u32(text: &str) -> (number: Option<u32>)
    ensures
        match number {
            Some(number) => parsed_u32(text@) == Some(number as nat),
            None => parsed_u32(text@) is None,
        },
{
    let len: usize = text.unicode_len();
    let start: usize = if len > 0 && text.get_char(0) == '+' {
        1
    } else {
        0
    };
    if start == len {
        return None;
    }
    let ghost digits = text@.skip(start as int);
    proof {
        assert(text@.skip(0) =~= text@);
    }
    let mut value: u64 = 0;
    let mut i: usize = start;
    while i < len
        invariant
            start <= i <= len,
            start < len,
            len == text@.len(),
            digits == text@.skip(start as int),
            parsed_u32(text@) == match digits_value(digits) {
                Some(value) => if value <= u32::MAX {
                    Some(value)
                } else {
                    None
                },
                None => None,
            },
            i == start ==> value == 0,
            i > start ==> digits_value(digits.take(i - start)) == Some(value as nat),
            value <= u32::MAX,
        decreases len - i,
    {
        let c: char = text.get_char(i);
        let ghost n = i - start;
        proof {
            assert(digits[n] == c);
            assert(digits.take(n + 1).last() == c);
            assert(digits.take(n + 1).drop_last() =~= digits.take(n));
        }
        if c < '0' || c > '9' {
            proof {
                lemma_digits_value_fails(digits, n + 1);
            }
            return None;
        }
        let digit: u64 = c as u64 - '0' as u64;
        value = 10 * value + digit;
        assert(digits_value(digits.take(n + 1)) == Some(value as nat));
        if value > u32::MAX as u64 {
            proof {
                lemma_digits_value_grows(digits, n + 1);
            }
            return None;
        }
        i += 1;
    }
    assert(digits.take(len - start) =~= digits);
    Some(value as u32)
}

/// A number in decimal notation stands for itself.
pub proof fn lemma_decimal_parses(n: nat)
    requires
        n <= u32::MAX,
    ensures
        parsed_u32(decimal(n)) == Some(n),
{
    lemma_decimal_digits(n);
}

proof fn lemma_decimal_digits(n: nat)
    ensures
        digits_value(decimal(n)) == Some(n),
        decimal(n).len() > 0,
        decimal(n)[0] != '+',
    decreases n,
{
    if n >= 10 {
        lemma_decimal_digits(n / 10);
        assert(decimal(n).drop_last() =~= decimal(n / 10));
    }
}

/// A string stands for a number exactly if it is made of decimal digits, at least one.
pub proof fn lemma_numbers_are_digits(text: Seq<char>)
    ensures
        digits_value(text) is Some <==> text.len() > 0 && forall|i: int|
            0 <= i < text.len() ==> '0' <= #[trigger] text[i] && text[i] <= '9',
    decreases text.len(),
{
    if text.len() > 1 {
        let front = text.drop_last();
        lemma_numbers_are_digits(front);
        assert forall|i: int| 0 <= i < front.len() implies front[i] == #[trigger] text[i] by {}
        if digits_value(text) is Some {
            assert forall|i: int| 0 <= i < text.len() implies '0' <= #[trigger] text[i] && text[i]
                <= '9' by {
                if i < front.len() {
                    assert(front[i] == text[i]);
                }
            }
        }
        assert(text.last() == text[text.len() - 1]);
    } else if text.len() == 1 {
        assert(text.last() == text[0]);
    }
}

/// A further digit counts once what is before it counts ten times; zeros in front count
/// nothing.
pub proof fn lemma_digits_add_up(text: Seq<char>, c: char)
    requires
        '0' <= c,
        c <= '9',
    ensures
        text.len() == 0 ==> digits_value(text.push(c)) == Some((c as nat - 48) as nat),
        digits_value(text) matches Some(value) ==> digits_value(text.push(c)) == Some(
            (10 * value + c as nat - 48) as nat,
        ),
        text.len() > 0 ==> digits_value(seq!['0'] + text) == digits_value(text),
{
    assert(text.push(c).drop_last() =~= text);
    assert('0' as nat == 48);
    if text.len() > 0 {
        lemma_leading_zero(text);
    }
}

proof fn lemma_leading_zero(text: Seq<char>)
    requires
        text.len() > 0,
    ensures
        digits_value(seq!['0'] + text) == digits_value(text),
    decreases text.len(),
{
    let longer = seq!['0'] + text;
    assert(longer.last() == text.last());
    assert(longer.drop_last() =~= seq!['0'] + text.drop_last());
    if text.len() > 1 {
        lemma_leading_zero(text.drop_last());
    } else {
        let zero = longer.drop_last();
        assert(zero.len() == 1 && zero.last() == '0');
        assert(digits_value(zero) == Some(0nat));
    }
}

/// One plus sign may stand in front of a number, and a number that takes more than 32 bits
/// is none.
pub proof fn lemma_numbers_may_have_a_sign(text: Seq<char>)
    requires
        text.len() == 0 || text[0] != '+',
    ensures
        parsed_u32(seq!['+'] + text) == parsed_u32(text),
        parsed_u32(seq!['+', '+'] + text) is None,
        digits_value(text) matches Some(value) ==> (parsed_u32(text) == if value < 0x1_0000_0000 {
            Some(value)
        } else {
            None
        }),
        digits_value(text) is None ==> parsed_u32(text) is None,
{
    assert((seq!['+'] + text).skip(1) =~= text);
    let doubled = seq!['+', '+'] + text;
    assert(doubled.skip(1)[0] == '+');
    lemma_numbers_are_digits(doubled.skip(1));
}

/// Decimal notation has no zeros in front, and different numbers look different.
pub proof fn lemma_decimal_is_canonical(m: nat, n: nat)
    ensures
        n > 0 ==> decimal(n)[0] != '0',
        decimal(n).len() > 0,
        decimal(m) == decimal(n) ==> m == n,
    decreases n,
{
    lemma_decimal_digits(m);
    lemma_decimal_digits(n);
    if n >= 10 {
        lemma_decimal_is_canonical(0, n / 10);
    }
}

} // verus!

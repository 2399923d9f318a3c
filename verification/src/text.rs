//! Text: comparison, decimal numbers, joining.

use vstd::prelude::*;
use vstd::string::*;

verus! {

/// The decimal digits of a number, most significant first, without leading
/// zeros.
pub open spec fn decimal(n: nat) -> Seq<char>
    decreases n,
{
    if n < 10 {
        seq![digit(n)]
    } else {
        decimal(n / 10).push(digit(n % 10))
    }
}

/// The decimal digit for a value below ten.
pub open spec fn digit(d: nat) -> char {
    (48 + d) as char
}

/// Whether a character is a decimal digit.
pub open spec fn is_digit(c: char) -> bool {
    '0' <= c <= '9'
}

/// The value of a decimal digit.
pub open spec fn digit_value(c: char) -> nat {
    (c as int - 48) as nat
}

/// The value of a string of decimal digits.
pub open spec fn decimal_value(s: Seq<char>) -> nat
    decreases s.len(),
{
    if s.len() == 0 {
        0
    } else {
        decimal_value(s.drop_last()) * 10 + digit_value(s.last())
    }
}

/// Whether a text is one or more decimal digits.
pub open spec fn all_digits(s: Seq<char>) -> bool {
    s.len() > 0 && forall|i: int| 0 <= i < s.len() ==> is_digit(#[trigger] s[i])
}

/// The digits of a number as written, after an optional plus sign.
pub open spec fn unsigned_digits(s: Seq<char>) -> Seq<char> {
    if s.len() > 0 && s[0] == '+' {
        s.skip(1)
    } else {
        s
    }
}

/// The 64-bit number that a text writes: an optional plus sign and decimal
/// digits, nothing else, with a value in range.
pub open spec fn parsed_number(s: Seq<char>) -> Option<u64> {
    let digits = unsigned_digits(s);
    if all_digits(digits) && decimal_value(digits) <= u64::MAX {
        Some(decimal_value(digits) as u64)
    } else {
        None
    }
}

/// The parts one after the other, with a separator between neighbours.
pub open spec fn joined(parts: Seq<Seq<char>>, separator: Seq<char>) -> Seq<char>
    decreases parts.len(),
{
    if parts.len() == 0 {
        seq![]
    } else if parts.len() == 1 {
        parts[0]
    } else {
        joined(parts.drop_last(), separator) + separator + parts.last()
    }
}

/// Whether two texts are equal.
pub fn same_text(a: &str, b: &str) -> (same: bool)
    ensures
        same == (a@ == b@),
{
    let left: String = a.to_owned();
    let right: String = b.to_owned();
    left == right
}

/// One text after another.
pub fn concat(a: &str, b: &str) -> (both: String)
    ensures
        both@ == a@ + b@,
{
    let mut both: String = a.to_owned();
    both.append(b);
    both
}

fn digit_text(d: usize) -> (text: &'static str)
    requires
        d < 10,
    ensures
        text@ == seq![digit(d as nat)],
{
    proof {
        reveal_strlit("0");
        reveal_strlit("1");
        reveal_strlit("2");
        reveal_strlit("3");
        reveal_strlit("4");
        reveal_strlit("5");
        reveal_strlit("6");
        reveal_strlit("7");
        reveal_strlit("8");
        reveal_strlit("9");
    }
    let text: &'static str = if d == 0 {
        "0"
    } else if d == 1 {
        "1"
    } else if d == 2 {
        "2"
    } else if d == 3 {
        "3"
    } else if d == 4 {
        "4"
    } else if d == 5 {
        "5"
    } else if d == 6 {
        "6"
    } else if d == 7 {
        "7"
    } else if d == 8 {
        "8"
    } else {
        "9"
    };
    assert(text@ =~= seq![digit(d as nat)]);
    text
}

/// Writes a number in decimal.
pub fn decimal_text(n: usize) -> (text: String)
    ensures
        text@ == decimal(n as nat),
    decreases n,
{
    if n < 10 {
        digit_text(n).to_owned()
    } else {
        let mut text: String = decimal_text(n / 10);
        text.append(digit_text(n % 10));
        assert(text@ =~= decimal(n as nat));
        text
    }
}

proof fn lemma_decimal_value_grows(s: Seq<char>, count: int)
    requires
        0 <= count <= s.len(),
    ensures
        decimal_value(s.take(count)) <= decimal_value(s),
    decreases s.len(),
{
    if count == s.len() {
        assert(s.take(count) =~= s);
    } else {
        lemma_decimal_value_grows(s.drop_last(), count);
        assert(s.drop_last().take(count) =~= s.take(count));
    }
}

/// Reads a 64-bit number in decimal, with an optional plus sign.
pub fn parse_number(text: &str) -> (number: Option<u64>)
    ensures
        number == parsed_number(text@),
{
    let length: usize = text.unicode_len();
    let start: usize = if length > 0 && text.get_char(0) == '+' {
        1
    } else {
        0
    };
    if start == length {
        return None;
    }
    let ghost digits = unsigned_digits(text@);
    assert(digits =~= text@.skip(start as int));
    let mut value: u64 = 0;
    let mut i: usize = start;
    while i < length
        invariant
            start <= i <= length,
            start <= 1,
            length == text@.len(),
            start < length,
            digits == text@.skip(start as int),
            digits == unsigned_digits(text@),
            forall|j: int| 0 <= j < i - start ==> is_digit(#[trigger] digits[j]),
            value == decimal_value(digits.take(i - start)),
        decreases length - i,
    {
        let c: char = text.get_char(i);
        assert(c == digits[i - start]);
        if c < '0' || c > '9' {
            return None;
        }
        let d: u64 = (c as u32 - 48) as u64;
        proof {
            let more = digits.take(i - start + 1);
            assert(more.drop_last() =~= digits.take(i - start));
            assert(more.last() == c);
            assert(decimal_value(more) == value * 10 + d);
            lemma_decimal_value_grows(digits, i - start + 1);
        }
        if value > (u64::MAX - d) / 10 {
            return None;
        }
        value = value * 10 + d;
        i = i + 1;
    }
    assert(digits.take(length - start) =~= digits);
    Some(value)
}

proof fn lemma_decimal_reads_back(n: nat)
    ensures
        all_digits(decimal(n)),
        decimal_value(decimal(n)) == n,
    decreases n,
{
    if n < 10 {
        let text = seq![digit(n)];
        assert(text.drop_last() =~= seq![]);
        assert(decimal_value(text.drop_last()) == 0);
    } else {
        lemma_decimal_reads_back(n / 10);
        let text = decimal(n / 10).push(digit(n % 10));
        assert(text.drop_last() =~= decimal(n / 10));
        assert(text.last() == digit(n % 10));
    }
}

/// A number that is written in decimal reads back as itself, with a plus sign
/// before it or without.
pub proof fn law_numbers_round_trip(n: u64)
    ensures
        parsed_number(decimal(n as nat)) == Some(n),
        parsed_number(seq!['+'] + decimal(n as nat)) == Some(n),
{
    let text = decimal(n as nat);
    lemma_decimal_reads_back(n as nat);
    assert(is_digit(text[0]));
    assert((seq!['+'] + text).skip(1) =~= text);
}

/// Joins texts with a separator.
pub fn join(parts: &Vec<String>, separator: &str) -> (text: String)
    ensures
        text@ == joined(parts@.map_values(|s: String| s@), separator@),
{
    let ghost views = parts@.map_values(|s: String| s@);
    let mut text: String = String::new();
    let mut i: usize = 0;
    while i < parts.len()
        invariant
            i <= parts.len(),
            views == parts@.map_values(|s: String| s@),
            text@ == joined(views.take(i as int), separator@),
        decreases parts.len() - i,
    {
        let ghost before = views.take(i as int);
        proof {
            assert(views.take(i + 1).drop_last() =~= before);
            assert(views.take(i + 1).last() == parts[i as int]@);
        }
        if i > 0 {
            text.append(separator);
        }
        text.append(parts[i].as_str());
        proof {
            if i == 0 {
                assert(before =~= Seq::empty());
                assert(text@ =~= views.take(1)[0]);
            }
            assert(text@ =~= joined(views.take(i + 1), separator@));
        }
        i = i + 1;
    }
    assert(views.take(parts.len() as int) =~= views);
    text
}

/// Texts are joined with a separator between neighbours, and nothing before the
/// first or after the last: one text stays as it is, and two joined runs of texts
/// make the joined text of both with a separator between them.
pub proof fn law_joined_texts_stand_apart(
    first: Seq<Seq<char>>,
    second: Seq<Seq<char>>,
    separator: Seq<char>,
)
    requires
        first.len() > 0,
        second.len() > 0,
    ensures
        first.len() == 1 ==> joined(first, separator) == first[0],
        joined(first + second, separator) == joined(first, separator) + separator + joined(
            second,
            separator,
        ),
    decreases second.len(),
{
    let both = first + second;
    assert(both.drop_last() =~= first + second.drop_last());
    assert(both.last() == second.last());
    if second.len() == 1 {
        assert(both.drop_last() =~= first);
    } else {
        law_joined_texts_stand_apart(first, second.drop_last(), separator);
        let a = joined(first, separator);
        let b = joined(second.drop_last(), separator);
        assert(joined(both, separator) =~= a + separator + (b + separator + second.last()));
    }
}

/// Digits count tenfold from right to left: one more digit behind others makes
/// ten times their number and itself.
pub proof fn law_digits_count_tenfold(digits: Seq<char>, last: nat)
    requires
        last < 10,
        all_digits(digits),
        decimal_value(digits) * 10 + last <= u64::MAX,
    ensures
        parsed_number(digits.push((48 + last) as char)) == Some(
            (decimal_value(digits) * 10 + last) as u64,
        ),
        parsed_number(digits) == Some(decimal_value(digits) as u64),
        digits.len() == 1 ==> decimal_value(digits) == digits[0] as int - 48,
{
    let more = digits.push((48 + last) as char);
    assert(more.drop_last() =~= digits);
    assert(is_digit(digits[0]));
    assert(more[0] == digits[0]);
    assert forall|i: int| 0 <= i < more.len() implies is_digit(#[trigger] more[i]) by {
        if i < digits.len() {
            assert(is_digit(digits[i]));
        }
    }
    if digits.len() == 1 {
        assert(digits.drop_last() =~= seq![]);
        assert(decimal_value(digits.drop_last()) == 0);
    }
}

/// Nothing but digits behind an optional plus sign is a number.
pub proof fn law_numbers_are_digits(text: Seq<char>, i: int)
    requires
        parsed_number(text) is Some,
        0 <= i < text.len(),
    ensures
        '0' <= text[i] <= '9' || (i == 0 && text[0] == '+' && text.len() > 1),
{
    let digits = unsigned_digits(text);
    if text[0] == '+' {
        if i > 0 {
            assert(is_digit(digits[i - 1]));
        }
    } else {
        assert(is_digit(digits[i]));
    }
}

/// A number is written without zeros before its first digit, with one digit for
/// each power of ten that it reaches.
pub proof fn law_decimals_are_shortest(n: nat)
    ensures
        decimal(n).len() > 0,
        decimal(n).len() > 1 ==> decimal(n)[0] != '0',
        n < 10 ==> decimal(n).len() == 1,
        decimal(10 * n).len() == (if n == 0 {
            1
        } else {
            decimal(n).len() + 1
        }),
        forall|i: int| 0 <= i < decimal(n).len() ==> '0' <= #[trigger] decimal(n)[i] <= '9',
    decreases n,
{
    lemma_decimal_reads_back(n);
    assert forall|i: int| 0 <= i < decimal(n).len() implies '0' <= #[trigger] decimal(n)[i]
        <= '9' by {
        assert(is_digit(decimal(n)[i]));
    }
    if n >= 10 {
        law_decimals_are_shortest(n / 10);
        if decimal(n / 10).len() == 1 {
            assert(n / 10 < 10) by {
                if n / 10 >= 10 {
                    law_decimals_are_shortest(n / 100);
                    assert(decimal(n / 10) == decimal(n / 10 / 10).push(digit(n / 10 % 10)));
                }
            }
            assert(decimal(n)[0] == digit(n / 10));
        }
    }
    if n > 0 {
        assert(10 * n / 10 == n);
    }
}

/// A plus sign changes nothing of a number. Nothing is one that has no digits, or
/// whose digits count more than 64 bits hold.
pub proof fn law_numbers_have_limits(digits: Seq<char>)
    ensures
        all_digits(digits) ==> parsed_number(seq!['+'] + digits) == parsed_number(digits),
        all_digits(digits) && decimal_value(digits) > u64::MAX ==> parsed_number(digits) is None,
        digits.len() == 0 ==> parsed_number(digits) is None && parsed_number(
            seq!['+'] + digits,
        ) is None,
{
    assert((seq!['+'] + digits).skip(1) =~= digits);
    if all_digits(digits) {
        assert(is_digit(digits[0]));
    }
}

/// No texts join to none.
pub proof fn law_nothing_joins_to_nothing(separator: Seq<char>)
    ensures
        joined(Seq::empty(), separator) == Seq::<char>::empty(),
{
}

} // verus!

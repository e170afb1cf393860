//! Text building blocks for messages: decimal numbers and concatenation.

use vstd::prelude::*;
use vstd::string::*;

verus! {

/// The character of one decimal digit.
pub open spec fn digit_char(digit: nat) -> char {
    if digit == 0 {
        '0'
    } else if digit == 1 {
        '1'
    } else if digit == 2 {
        '2'
    } else if digit == 3 {
        '3'
    } else if digit == 4 {
        '4'
    } else if digit == 5 {
        '5'
    } else if digit == 6 {
        '6'
    } else if digit == 7 {
        '7'
    } else if digit == 8 {
        '8'
    } else {
        '9'
    }
}

/// The decimal text of a number, without leading zeros.
pub open spec fn decimal(number: nat) -> Seq<char>
    decreases number,
{
    if number < 10 {
        seq![digit_char(number)]
    } else {
        decimal(number / 10).push(digit_char(number % 10))
    }
}

/// The text of one decimal digit.
fn digit_text(digit: u64) -> (text: &'static str)
    requires
        digit < 10,
    ensures
        text@ == seq![digit_char(digit as nat)],
{
    proof {
        reveal_strlit("0");
        reveal_strlit("1");
        reveal_strlit("2");
        reveal_strlit("3");
        reveal_strlit("4");
        reveal_strlit("5");
        reveal_strlit("6");
        reveal_strlit("7");
        reveal_strlit("8");
        reveal_strlit("9");
    }
    if digit == 0 {
        "0"
    } else if digit == 1 {
        "1"
    } else if digit == 2 {
        "2"
    } else if digit == 3 {
        "3"
    } else if digit == 4 {
        "4"
    } else if digit == 5 {
        "5"
    } else if digit == 6 {
        "6"
    } else if digit == 7 {
        "7"
    } else if digit == 8 {
        "8"
    } else {
        "9"
    }
}

/// Appends the decimal text of `number`.
pub fn push_decimal(text: &mut String, number: u64)
    ensures
        final(text)@ == old(text)@ + decimal(number as nat),
    decreases number,
{
    if number >= 10 {
        push_decimal(text, number / 10);
    }
    let ghost before = text@;
    text.append(digit_text(number % 10));
    proof {
        assert(before.push(digit_char((number % 10) as nat)) =~= before + seq![
            digit_char((number % 10) as nat),
        ]);
        if number >= 10 {
            assert(before == old(text)@ + decimal((number / 10) as nat));
            assert(decimal(number as nat) == decimal((number / 10) as nat).push(
                digit_char((number % 10) as nat),
            ));
            assert(text@ =~= old(text)@ + decimal(number as nat));
        } else {
            assert(text@ =~= old(text)@ + decimal(number as nat));
        }
    }
}

/// The owned copy of a text.
pub fn owned(text: &str) -> (result: String)
    ensures
        result@ == text@,
{
    let mut result = String::new();
    result.append(text);
    proof {
        assert(result@ =~= text@);
    }
    result
}

/// A text followed by a number and a closing text.
pub open spec fn with_number(head: Seq<char>, number: nat, tail: Seq<char>) -> Seq<char> {
    head + decimal(number) + tail
}

/// Builds a text with one number in it.
pub fn text_with_number(head: &str, number: u64, tail: &str) -> (result: String)
    ensures
        result@ == with_number(head@, number as nat, tail@),
{
    let mut result = owned(head);
    push_decimal(&mut result, number);
    result.append(tail);
    result
}

/// A text with two numbers in it.
pub open spec fn with_two_numbers(
    head: Seq<char>,
    first: nat,
    middle: Seq<char>,
    second: nat,
    tail: Seq<char>,
) -> Seq<char> {
    head + decimal(first) + middle + decimal(second) + tail
}

/// Builds a text with two numbers in it.
pub fn text_with_two_numbers(
    head: &str,
    first: u64,
    middle: &str,
    second: u64,
    tail: &str,
) -> (result: String)
    ensures
        result@ == with_two_numbers(head@, first as nat, middle@, second as nat, tail@),
{
    let mut result = owned(head);
    push_decimal(&mut result, first);
    result.append(middle);
    push_decimal(&mut result, second);
    result.append(tail);
    result
}

/// Builds the concatenation of three texts.
pub fn concat_three(first: &str, second: &str, third: &str) -> (result: String)
    ensures
        result@ == first@ + second@ + third@,
{
    let mut result = owned(first);
    result.append(second);
    result.append(third);
    result
}

/// The number that digits stand for.
pub open spec fn decimal_value(text: Seq<char>) -> int
    decreases text.len(),
{
    if text.len() == 0 {
        0
    } else {
        decimal_value(text.drop_last()) * 10 + (text.last() as u32 - 48)
    }
}

/// A number is written in digits that stand for it, without zeros before it.
pub proof fn law_decimal_reads_back(number: nat)
    ensures
        decimal_value(decimal(number)) == number,
        decimal(number).len() > 0,
        forall|i: int|
            0 <= i < decimal(number).len() ==> 48 <= (#[trigger] decimal(number)[i]) as u32 <= 57,
        number >= 10 ==> decimal(number)[0] != '0',
    decreases number,
{
    let text = decimal(number);
    if number < 10 {
        reveal_with_fuel(decimal_value, 2);
        assert(text.drop_last() =~= Seq::empty());
    } else {
        let high = decimal(number / 10);
        law_decimal_reads_back(number / 10);
        assert(text.drop_last() =~= high);
        assert(text[0] == high[0]);
        if number / 10 < 10 {
            assert(high[0] == digit_char(number / 10));
        }
        assert forall|i: int| 0 <= i < text.len() implies 48 <= (#[trigger] text[i]) as u32
            <= 57 by {
            if i < high.len() {
                assert(text[i] == high[i]);
            }
        }
    }
}

} // verus!

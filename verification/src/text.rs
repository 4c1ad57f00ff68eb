//! Decimal numbers and file names as text.

use vstd::prelude::*;

verus! {

/// The decimal digit `value`.
pub open spec fn digit(value: int) -> char {
    if value == 0 {
        '0'
    } else if value == 1 {
        '1'
    } else if value == 2 {
        '2'
    } else if value == 3 {
        '3'
    } else if value == 4 {
        '4'
    } else if value == 5 {
        '5'
    } else if value == 6 {
        '6'
    } else if value == 7 {
        '7'
    } else if value == 8 {
        '8'
    } else {
        '9'
    }
}

/// Whether `symbol` is a decimal digit.
pub open spec fn is_digit(symbol: char) -> bool {
    '0' <= symbol && symbol <= '9'
}

/// The number that a decimal digit stands for.
pub open spec fn digit_value(symbol: char) -> int {
    symbol as int - '0' as int
}

/// The shortest decimal form of `value`.
pub open spec fn decimal(value: nat) -> Seq<char>
    decreases value,
{
    if value < 10 {
        seq![digit(value as int)]
    } else {
        decimal(value / 10).push(digit((value % 10) as int))
    }
}

/// The decimal form of `value`, filled up with leading zeros to `width`.
pub open spec fn padded_decimal(value: nat, width: nat) -> Seq<char> {
    let digits = decimal(value);
    Seq::new((if width > digits.len() { width - digits.len() } else { 0 }) as nat, |i: int| '0') + digits
}

/// The number that a string of decimal digits stands for.
pub open spec fn decimal_value(digits: Seq<char>) -> int
    decreases digits.len(),
{
    if digits.len() == 0 {
        0
    } else {
        10 * decimal_value(digits.drop_last()) + digit_value(digits.last())
    }
}

proof fn digit_stands_for_itself(value: int)
    requires
        0 <= value < 10,
    ensures
        is_digit(digit(value)),
        digit_value(digit(value)) == value,
{
}

proof fn decimal_is_read_back(value: nat)
    ensures
        decimal_value(decimal(value)) == value,
        decimal(value).len() > 0,
        forall|i: int| 0 <= i < decimal(value).len() ==> is_digit(#[trigger] decimal(value)[i]),
    decreases value,
{
    let digits = decimal(value);
    if value < 10 {
        digit_stands_for_itself(value as int);
        assert(digits.drop_last() =~= Seq::<char>::empty());
        reveal_with_fuel(decimal_value, 2);
    } else {
        decimal_is_read_back(value / 10);
        digit_stands_for_itself((value % 10) as int);
        assert(digits.drop_last() =~= decimal(value / 10));
        assert(value == 10 * (value / 10) + value % 10);
    }
}

proof fn zeros_lead_nothing(count: nat, digits: Seq<char>)
    ensures
        decimal_value(Seq::new(count, |i: int| '0') + digits) == decimal_value(digits),
    decreases count + digits.len(),
{
    let zeros = Seq::new(count, |i: int| '0');
    let whole = zeros + digits;
    if digits.len() > 0 {
        zeros_lead_nothing(count, digits.drop_last());
        assert(whole.drop_last() =~= zeros + digits.drop_last());
    } else if count > 0 {
        zeros_lead_nothing((count - 1) as nat, digits);
        assert(whole.drop_last() =~= Seq::new((count - 1) as nat, |i: int| '0') + digits);
    } else {
        assert(whole =~= digits);
    }
}

/// Reading the decimal form of a number, however many zeros lead it, gives the
/// number back.
pub proof fn padded_decimal_round_trip(value: nat, width: nat)
    ensures
        decimal_value(padded_decimal(value, width)) == value,
        padded_decimal(value, width).len() >= width,
        forall|i: int|
            0 <= i < padded_decimal(value, width).len() ==> is_digit(#[trigger] padded_decimal(value, width)[i]),
{
    let digits = decimal(value);
    decimal_is_read_back(value);
    zeros_lead_nothing((if width > digits.len() { width - digits.len() } else { 0 }) as nat, digits);
}

/// A number below a power of ten has at most that many digits.
pub proof fn ten_digits_suffice(value: nat)
    requires
        value < 10_000_000_000,
    ensures
        padded_decimal(value, 10).len() == 10,
{
    reveal_with_fuel(decimal, 11);
}

fn push_digit(output: &mut String, value: u64)
    requires
        value < 10,
    ensures
        final(output)@ == old(output)@.push(digit(value as int)),
{
    proof {
        reveal_strlit("0");
        reveal_strlit("1");
        reveal_strlit("2");
        reveal_strlit("3");
        reveal_strlit("4");
        reveal_strlit("5");
        reveal_strlit("6");
        reveal_strlit("7");
        reveal_strlit("8");
        reveal_strlit("9");
    }
    let text = match value {
        0 => "0",
        1 => "1",
        2 => "2",
        3 => "3",
        4 => "4",
        5 => "5",
        6 => "6",
        7 => "7",
        8 => "8",
        _ => "9",
    };
    output.append(text);
    assert(output@ =~= old(output)@.push(digit(value as int)));
}

/// Appends the decimal form of `value`.
pub fn push_decimal(output: &mut String, value: u64)
    ensures
        final(output)@ == old(output)@ + decimal(value as nat),
    decreases value,
{
    let ghost before = output@;
    if value >= 10 {
        push_decimal(output, value / 10);
    }
    push_digit(output, value % 10);
    assert(output@ =~= before + decimal(value as nat));
}

/// How many digits the decimal form of `value` has.
fn decimal_length(value: u64) -> (length: usize)
    ensures
        length == decimal(value as nat).len(),
        length <= 20,
{
    proof {
        reveal_with_fuel(decimal, 21);
    }
    let mut length: usize = 1;
    let mut rest: u64 = value;
    while rest >= 10
        invariant
            decimal(value as nat).len() == length - 1 + decimal(rest as nat).len(),
            length >= 1,
            decimal(value as nat).len() <= 20,
        decreases rest,
    {
        proof {
            decimal_is_read_back((rest / 10) as nat);
        }
        rest = rest / 10;
        length = length + 1;
    }
    length
}

/// Appends the decimal form of `value`, filled up with leading zeros to `width`.
pub fn push_padded_decimal(output: &mut String, value: u64, width: usize)
    ensures
        final(output)@ == old(output)@ + padded_decimal(value as nat, width as nat),
{
    let length: usize = decimal_length(value);
    let missing: usize = if width > length { width - length } else { 0 };
    let ghost before = output@;
    let mut written: usize = 0;
    while written < missing
        invariant
            written <= missing,
            output@ == before + Seq::new(written as nat, |i: int| '0'),
        decreases missing - written,
    {
        push_digit(output, 0);
        written += 1;
        assert(output@ =~= before + Seq::new(written as nat, |i: int| '0'));
    }
    push_decimal(output, value);
    assert(output@ =~= before + padded_decimal(value as nat, width as nat));
}

/// The shortest decimal form of `value`, with a sign where it is negative.
pub open spec fn signed_decimal(value: int) -> Seq<char> {
    if value < 0 {
        seq!['-'] + decimal((-value) as nat)
    } else {
        decimal(value as nat)
    }
}

/// Appends the decimal form of `value`.
pub fn push_signed_decimal(output: &mut String, value: i64)
    ensures
        final(output)@ == old(output)@ + signed_decimal(value as int),
{
    let ghost before = output@;
    if value < 0 {
        proof {
            reveal_strlit("-");
        }
        output.append("-");
        let size: u64 = if value == i64::MIN { 9_223_372_036_854_775_808 } else { (-value) as u64 };
        push_decimal(output, size);
        assert(output@ =~= before + signed_decimal(value as int));
    } else {
        push_decimal(output, value as u64);
    }
}

/// `left` followed by `right`.
pub fn joined(left: &str, right: &str) -> (text: String)
    ensures
        text@ == left@ + right@,
{
    let mut text: String = String::from_str(left);
    text.append(right);
    text
}

/// The sign of a number stands before its digits, and only where it is below
/// zero.
pub proof fn sign_stands_before_the_digits(value: int)
    ensures
        value >= 0 ==> signed_decimal(value) == decimal(value as nat),
        value < 0 ==> signed_decimal(value).len() == 1 + decimal((-value) as nat).len() && signed_decimal(value)[0]
            == '-' && signed_decimal(value).skip(1) == decimal((-value) as nat),
{
    if value < 0 {
        assert(signed_decimal(value).skip(1) =~= decimal((-value) as nat));
    }
}

} // verus!

//! How a cell is shown.

use vstd::prelude::*;
use vstd::string::StringExecFns;
use crate::board::FieldData;

verus! {

/// The character of a decimal digit.
pub open spec fn digit(d: nat) -> char {
    if d == 0 {
        '0'
    } else if d == 1 {
        '1'
    } else if d == 2 {
        '2'
    } else if d == 3 {
        '3'
    } else if d == 4 {
        '4'
    } else if d == 5 {
        '5'
    } else if d == 6 {
        '6'
    } else if d == 7 {
        '7'
    } else if d == 8 {
        '8'
    } else {
        '9'
    }
}

/// The digits of `n` in base ten, the highest first, without leading zeros.
pub open spec fn decimal(n: nat) -> Seq<char>
    decreases n,
{
    if n < 10 {
        seq![digit(n)]
    } else {
        decimal(n / 10).push(digit(n % 10))
    }
}

/// The one-character string of a decimal digit.
fn digit_str(d: usize) -> (written: &'static str)
    requires
        d < 10,
    ensures
        written@ == seq![digit(d as nat)],
{
    proof {
        reveal_strlit("0");
        reveal_strlit("1");
        reveal_strlit("2");
        reveal_strlit("3");
        reveal_strlit("4");
        reveal_strlit("5");
        reveal_strlit("6");
        reveal_strlit("7");
        reveal_strlit("8");
        reveal_strlit("9");
    }
    let written = if d == 0 {
        "0"
    } else if d == 1 {
        "1"
    } else if d == 2 {
        "2"
    } else if d == 3 {
        "3"
    } else if d == 4 {
        "4"
    } else if d == 5 {
        "5"
    } else if d == 6 {
        "6"
    } else if d == 7 {
        "7"
    } else if d == 8 {
        "8"
    } else {
        "9"
    };
    assert(written@ =~= seq![digit(d as nat)]);
    written
}

/// `n` written in base ten.
pub fn decimal_string(n: usize) -> (written: String)
    ensures
        written@ == decimal(n as nat),
    decreases n,
{
    if n < 10 {
        String::from_str(digit_str(n))
    } else {
        let mut written = decimal_string(n / 10);
        written.append(digit_str(n % 10));
        assert(written@ =~= decimal((n / 10) as nat).push(digit((n % 10) as nat)));
        written
    }
}

/// What is shown for a cell: the mark it holds, or the number `index` if it
/// is empty.
pub fn display_field_value(value: &FieldData, index: &usize) -> (shown: String)
    ensures
        shown@ == match *value {
            FieldData::X => "X"@,
            FieldData::O => "O"@,
            FieldData::Empty => decimal(*index as nat),
        },
{
    broadcast use vstd::string::to_string_from_display_ensures_for_str;

    match value {
        FieldData::X => "X".to_string(),
        FieldData::O => "O".to_string(),
        FieldData::Empty => decimal_string(*index),
    }
}

} // verus!

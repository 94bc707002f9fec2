//! The printable form of a record: one line of text.
//!
//! A line is indented by one unit for every level of its record, then holds
//! `B` for a branch or `L` for a leaf, then the label in decimal.

use crate::walk::PrintRecord;
use vstd::prelude::*;
use vstd::string::StringExecFns;

verus! {

/// The character of the digit `digit`, which is below ten.
pub open spec fn digit_char(digit: nat) -> char {
    if digit == 0 {
        '0'
    } else if digit == 1 {
        '1'
    } else if digit == 2 {
        '2'
    } else if digit == 3 {
        '3'
    } else if digit == 4 {
        '4'
    } else if digit == 5 {
        '5'
    } else if digit == 6 {
        '6'
    } else if digit == 7 {
        '7'
    } else if digit == 8 {
        '8'
    } else {
        '9'
    }
}

/// The decimal digits of `number`, the highest first, without leading zeros.
pub open spec fn decimal(number: nat) -> Seq<char>
    decreases number,
{
    if number < 10 {
        seq![digit_char(number)]
    } else {
        decimal(number / 10) + seq![digit_char(number % 10)]
    }
}

/// A number in decimal, with a minus sign before it where it is negative.
pub open spec fn signed_decimal(number: int) -> Seq<char> {
    if number < 0 {
        seq!['-'] + decimal((-number) as nat)
    } else {
        decimal(number as nat)
    }
}

/// `unit`, `count` times over.
pub open spec fn repeated(unit: Seq<char>, count: nat) -> Seq<char>
    decreases count,
{
    if count == 0 {
        Seq::empty()
    } else {
        repeated(unit, (count - 1) as nat) + unit
    }
}

/// The text of one digit.
fn digit_text(digit: u64) -> (text: &'static str)
    requires
        digit < 10,
    ensures
        text@ == seq![digit_char(digit as nat)],
{
    proof {
        reveal_strlit("0");
        reveal_strlit("1");
        reveal_strlit("2");
        reveal_strlit("3");
        reveal_strlit("4");
        reveal_strlit("5");
        reveal_strlit("6");
        reveal_strlit("7");
        reveal_strlit("8");
        reveal_strlit("9");
    }
    if digit == 0 {
        "0"
    } else if digit == 1 {
        "1"
    } else if digit == 2 {
        "2"
    } else if digit == 3 {
        "3"
    } else if digit == 4 {
        "4"
    } else if digit == 5 {
        "5"
    } else if digit == 6 {
        "6"
    } else if digit == 7 {
        "7"
    } else if digit == 8 {
        "8"
    } else {
        "9"
    }
}

/// Appends the decimal digits of `number` to `out`.
fn append_decimal(out: &mut String, number: u64)
    ensures
        final(out)@ == old(out)@ + decimal(number as nat),
    decreases number,
{
    if number >= 10 {
        append_decimal(out, number / 10);
    }
    out.append(digit_text(number % 10));
}

impl PrintRecord {
    /// The line of the record when one level is indented by `unit`.
    pub open spec fn text(self, unit: Seq<char>) -> Seq<char> {
        repeated(unit, self.depth as nat) + seq![
            if self.is_leaf {
                'L'
            } else {
                'B'
            },
        ] + signed_decimal(self.label as int)
    }

    /// The line of the record, indented by `unit` for every level.
    pub fn line(&self, unit: &str) -> (text: String)
        ensures
            text@ == self.text(unit@),
    {
        let mut text = String::new();
        let mut level: u32 = 0;
        while level < self.depth
            invariant
                level <= self.depth,
                text@ == repeated(unit@, level as nat),
            decreases self.depth - level,
        {
            text.append(unit);
            level += 1;
        }
        proof {
            reveal_strlit("L");
            reveal_strlit("B");
            reveal_strlit("-");
        }
        if self.is_leaf {
            text.append("L");
        } else {
            text.append("B");
        }
        if self.label < 0 {
            text.append("-");
            // The magnitude of the least `i64` is one more than the greatest.
            let magnitude: u64 = (-(self.label + 1)) as u64 + 1;
            append_decimal(&mut text, magnitude);
        } else {
            append_decimal(&mut text, self.label as u64);
        }
        text
    }
}

} // verus!

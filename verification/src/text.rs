use crate::domain::{Metrics, Node};
use vstd::prelude::*;
use vstd::string::StringExecFns;

verus! {

/// The character for a number below ten.
pub open spec fn digit(value: nat) -> char {
    if value == 0 {
        '0'
    } else if value == 1 {
        '1'
    } else if value == 2 {
        '2'
    } else if value == 3 {
        '3'
    } else if value == 4 {
        '4'
    } else if value == 5 {
        '5'
    } else if value == 6 {
        '6'
    } else if value == 7 {
        '7'
    } else if value == 8 {
        '8'
    } else {
        '9'
    }
}

/// A number in decimal notation, without a sign and without leading zeros.
pub open spec fn decimal(number: nat) -> Seq<char>
    decreases number,
{
    if number < 10 {
        seq![digit(number)]
    } else {
        decimal(number / 10).push(digit(number % 10))
    }
}

/// The text of one decimal digit.
fn digit_text(value: u64) -> (text: &'static str)
    requires
        value < 10,
    ensures
        text@ == seq![digit(value as nat)],
{
    proof {
        reveal_strlit("0");
        reveal_strlit("1");
        reveal_strlit("2");
        reveal_strlit("3");
        reveal_strlit("4");
        reveal_strlit("5");
        reveal_strlit("6");
        reveal_strlit("7");
        reveal_strlit("8");
        reveal_strlit("9");
    }
    if value == 0 {
        "0"
    } else if value == 1 {
        "1"
    } else if value == 2 {
        "2"
    } else if value == 3 {
        "3"
    } else if value == 4 {
        "4"
    } else if value == 5 {
        "5"
    } else if value == 6 {
        "6"
    } else if value == 7 {
        "7"
    } else if value == 8 {
        "8"
    } else {
        "9"
    }
}

/// Writes `number` in decimal notation at the end of `text`.
fn push_decimal(text: &mut String, number: u64)
    ensures
        final(text)@ == old(text)@ + decimal(number as nat),
    decreases number,
{
    if number >= 10 {
        push_decimal(text, number / 10);
    }
    text.append(digit_text(number % 10));
}

impl Metrics {
    /// The figures in print: depth and count of references, in decimal.
    pub open spec fn text(self) -> Seq<char> {
        "(depth="@ + decimal(self.depth as nat) + ",in_reference="@ + decimal(
            self.in_reference as nat,
        ) + ")"@
    }

    /// The figures in print.
    pub fn to_text(&self) -> (text: String)
        ensures
            text@ == self.text(),
    {
        let mut text = String::from_str("(depth=");
        push_decimal(&mut text, self.depth as u64);
        text.append(",in_reference=");
        push_decimal(&mut text, self.in_reference);
        text.append(")");
        text
    }
}

impl Node {
    /// The transaction in print: its identifier, its parents between round
    /// brackets, which stay empty for the root, then its timestamp and its
    /// figures. All numbers are in decimal.
    pub open spec fn text(self) -> Seq<char> {
        let parents = match self.parents {
            Some(pair) => "left="@ + decimal(pair.0 as nat) + " right="@ + decimal(pair.1 as nat),
            None => Seq::empty(),
        };
        "- id="@ + decimal(self.id as nat) + "("@ + parents + ") info=(t="@ + decimal(
            self.timestamp as nat,
        ) + ", metrics="@ + self.metrics.text() + ")"@
    }

    /// The transaction in print.
    pub fn to_text(&self) -> (text: String)
        ensures
            text@ == self.text(),
    {
        let mut text = String::from_str("- id=");
        push_decimal(&mut text, self.id as u64);
        text.append("(");
        let ghost before = text@;
        match self.parents {
            Some(pair) => {
                text.append("left=");
                push_decimal(&mut text, pair.0 as u64);
                text.append(" right=");
                push_decimal(&mut text, pair.1 as u64);
                assert(text@ =~= before + ("left="@ + decimal(pair.0 as nat) + " right="@
                    + decimal(pair.1 as nat)));
            },
            None => {},
        }
        text.append(") info=(t=");
        push_decimal(&mut text, self.timestamp as u64);
        text.append(", metrics=");
        let figures = self.metrics.to_text();
        text.append(figures.as_str());
        text.append(")");
        text
    }
}

} // verus!

use std::num::ParseIntError;
use vstd::prelude::*;
use vstd::std_specs::convert::TryFromSpecImpl;

verus! {

/// The identifier of the root transaction, which every graph holds from the start.
pub const ROOT_ID: u32 = 1;

/// Per-transaction figures that the graph derives while it admits transactions.
#[derive(Debug, Clone, Copy, PartialEq)]
pub struct Metrics {
    /// Length of the shortest chain of parents that leads to the root.
    pub depth: u32,
    /// How many times admitted transactions name this one as a parent. A
    /// transaction named twice by the same child counts twice, so the count can
    /// pass the number of identifiers, which is why it is a `u64`.
    pub in_reference: u64,
}

/// A transaction: the root, or a record that names two parents.
#[derive(Debug, Clone, Copy, PartialEq)]
pub struct Node {
    pub id: u32,
    pub timestamp: u32,
    pub parents: Option<(u32, u32)>,
    pub metrics: Metrics,
}

/// Figures kept for the graph as a whole. Each is absent until the first
/// transaction besides the root has been admitted.
#[derive(Debug, Clone, Copy, PartialEq)]
pub struct GeneralMetrics {
    /// The transaction with the greatest timestamp.
    pub last_transaction: Option<u32>,
    /// The transaction that is named as a parent most often.
    pub most_in_reference_transaction: Option<u32>,
}

impl Default for GeneralMetrics {
    fn default() -> (summary: Self)
        ensures
            summary == GeneralMetrics::unset(),
    {
        GeneralMetrics { last_transaction: None, most_in_reference_transaction: None }
    }
}

impl GeneralMetrics {
    /// The summary of a graph that holds nothing but the root.
    pub open spec fn unset() -> GeneralMetrics {
        GeneralMetrics { last_transaction: None, most_in_reference_transaction: None }
    }
}

impl Node {
    /// The root as a value: identifier `ROOT_ID`, no parents, all figures zero.
    pub open spec fn root_spec() -> Node {
        Node {
            id: ROOT_ID,
            timestamp: 0,
            parents: None,
            metrics: Metrics { depth: 0, in_reference: 0 },
        }
    }

    /// What `new` returns, as a value for contracts.
    pub open spec fn new_spec(
        id: u32,
        left_parent: u32,
        right_parent: u32,
        timestamp: u32,
    ) -> Node {
        Node {
            id,
            timestamp,
            parents: Some((left_parent, right_parent)),
            metrics: Metrics { depth: 0, in_reference: 0 },
        }
    }

    /// A transaction that is not the root and has not been admitted yet. Its
    /// figures are zero until a graph admits it.
    #[verifier::when_used_as_spec(new_spec)]
    pub fn new(id: u32, left_parent: u32, right_parent: u32, timestamp: u32) -> (node: Self)
        ensures
            node == Node::new_spec(id, left_parent, right_parent, timestamp),
    {
        Node {
            id,
            timestamp,
            parents: Some((left_parent, right_parent)),
            metrics: Metrics { depth: 0, in_reference: 0 },
        }
    }

    /// The root transaction.
    #[verifier::when_used_as_spec(root_spec)]
    pub fn root() -> (node: Self)
        ensures
            node == Node::root_spec(),
    {
        Node {
            id: ROOT_ID,
            timestamp: 0,
            parents: None,
            metrics: Metrics { depth: 0, in_reference: 0 },
        }
    }
}

/// The error of `str::parse` for an integer. Nothing of its inside is used.
#[verifier::external_type_specification]
#[verifier::external_body]
pub struct ExParseIntError(ParseIntError);

/// Whether `c` is one of the ten decimal digits.
pub open spec fn is_digit(c: char) -> bool {
    '0' <= c <= '9'
}

/// The number that a run of decimal digits denotes; leading zeros count for
/// nothing.
pub open spec fn digits_value(digits: Seq<char>) -> nat
    decreases digits.len(),
{
    if digits.len() == 0 {
        0
    } else {
        (digits_value(digits.drop_last()) * 10 + (digits.last() as u32 - '0' as u32)) as nat
    }
}

/// Whether every character of `digits` is a decimal digit.
pub open spec fn all_digits(digits: Seq<char>) -> bool {
    forall|i: int| 0 <= i < digits.len() ==> is_digit(#[trigger] digits[i])
}

/// The `u32` that a text denotes: the text is an optional `+` and then one
/// decimal digit or more, nothing before, between or after, and the number
/// is at most `u32::MAX`.
pub open spec fn denoted(text: Seq<char>) -> Option<u32> {
    let digits = if text.len() > 0 && text[0] == '+' {
        text.skip(1)
    } else {
        text
    };
    if digits.len() > 0 && all_digits(digits) && digits_value(digits) <= u32::MAX {
        Some(digits_value(digits) as u32)
    } else {
        None
    }
}

/// The error that `str::parse::<u32>` gives for a text that denotes no `u32`.
pub uninterp spec fn parse_failure(text: Seq<char>) -> ParseIntError;

/// What parsing a text as a `u32` comes to.
pub open spec fn parsed(text: Seq<char>) -> Result<u32, ParseIntError> {
    match denoted(text) {
        Some(number) => Ok(number),
        None => Err(parse_failure(text)),
    }
}

/// `str::parse::<u32>`. It takes an optional `+` followed by decimal digits
/// and nothing else, and gives the number they denote if it fits; for any
/// other text it fails, and with the same error for the same text.
#[verifier::external_body]
fn parse_u32(text: &str) -> (result: Result<u32, ParseIntError>)
    ensures
        match result {
            Ok(number) => denoted(text@) == Some(number),
            Err(error) => denoted(text@) is None && error == parse_failure(text@),
        },
{
    text.parse::<u32>()
}

impl Node {
    /// The transaction `id` that three texts stand for: left parent, right
    /// parent and timestamp, read in this order. The first text that denotes
    /// no `u32` decides the error.
    pub open spec fn from_fields(
        left: Seq<char>,
        right: Seq<char>,
        timestamp: Seq<char>,
        id: u32,
    ) -> Result<Node, ParseIntError> {
        match parsed(left) {
            Err(error) => Err(error),
            Ok(left_parent) => match parsed(right) {
                Err(error) => Err(error),
                Ok(right_parent) => match parsed(timestamp) {
                    Err(error) => Err(error),
                    Ok(time) => Ok(Node::new_spec(id, left_parent, right_parent, time)),
                },
            },
        }
    }
}

impl TryFrom<(&[&str; 3], u32)> for Node {
    type Error = ParseIntError;

    /// Reads a transaction from the texts of its left parent, right parent and
    /// timestamp, and gives it the identifier that comes with them.
    fn try_from(params: (&[&str; 3], u32)) -> (result: Result<Self, ParseIntError>)
        ensures
            result == Node::from_fields(params.0@[0]@, params.0@[1]@, params.0@[2]@, params.1),
    {
        let fields: &[&str; 3] = params.0;
        let id: u32 = params.1;
        let left_parent: u32 = match parse_u32(fields[0]) {
            Ok(number) => number,
            Err(error) => {
                return Err(error);
            },
        };
        let right_parent: u32 = match parse_u32(fields[1]) {
            Ok(number) => number,
            Err(error) => {
                return Err(error);
            },
        };
        let timestamp: u32 = match parse_u32(fields[2]) {
            Ok(number) => number,
            Err(error) => {
                return Err(error);
            },
        };
        Ok(Node::new(id, left_parent, right_parent, timestamp))
    }
}

impl TryFromSpecImpl<(&[&str; 3], u32)> for Node {
    open spec fn obeys_try_from_spec() -> bool {
        true
    }

    open spec fn try_from_spec(params: (&[&str; 3], u32)) -> Result<Self, ParseIntError> {
        Node::from_fields(params.0@[0]@, params.0@[1]@, params.0@[2]@, params.1)
    }
}

} // verus!

//! Numbers as they are written.

use vstd::prelude::*;
use crate::error::CalcError;

verus! {

/// A decimal digit.
pub open spec fn is_digit(c: char) -> bool {
    '0' <= c <= '9'
}

/// The characters that a number is collected from: the digits and the two
/// decimal separators.
pub open spec fn is_literal_char(c: char) -> bool {
    is_digit(c) || c == '.' || c == ','
}

/// A character with the comma read as the decimal point.
pub open spec fn normalized_char(c: char) -> char {
    if c == ',' {
        '.'
    } else {
        c
    }
}

/// A text with every comma read as the decimal point.
pub open spec fn normalized(text: Seq<char>) -> Seq<char> {
    text.map_values(|c: char| normalized_char(c))
}

/// A decimal number: digits only, with at most one decimal point among
/// them, before them or after them, and at least one digit.
pub open spec fn is_decimal(text: Seq<char>) -> bool {
    &&& forall|i: int| 0 <= i < text.len() ==> is_digit(#[trigger] text[i]) || text[i] == '.'
    &&& exists|i: int| 0 <= i < text.len() && is_digit(#[trigger] text[i])
    &&& forall|i: int, j: int|
        0 <= i < j < text.len() ==> !(#[trigger] text[i] == '.' && #[trigger] text[j] == '.')
}

/// What `parse_value` makes of a text: its normalized form where that is a
/// decimal number.
pub open spec fn parse_value_spec(text: Seq<char>) -> Result<Seq<char>, CalcError> {
    if is_decimal(normalized(text)) {
        Ok(normalized(text))
    } else {
        Err(CalcError::LiteralParse)
    }
}

/// Reading commas as points beforehand changes nothing about a number.
pub proof fn lemma_parse_value_normalized(text: Seq<char>)
    ensures
        normalized(normalized(text)) == normalized(text),
        parse_value_spec(normalized(text)) == parse_value_spec(text),
{
    assert(normalized(normalized(text)) =~= normalized(text));
}

/// A number as it was written, with `.` as its decimal separator. Its view
/// is that text, which is always a decimal number.
#[derive(Debug, PartialEq, Eq)]
pub struct Literal {
    text: Vec<char>,
}

impl View for Literal {
    type V = Seq<char>;

    closed spec fn view(&self) -> Seq<char> {
        self.text@
    }
}

impl Clone for Literal {
    fn clone(&self) -> (copy: Self)
        ensures
            copy@ == self@,
    {
        proof {
            use_type_invariant(self);
        }
        Literal { text: self.text.clone() }
    }
}

impl Literal {
    #[verifier::type_invariant]
    spec fn well_formed(self) -> bool {
        is_decimal(self.text@)
    }

    /// The characters of the number.
    pub fn text(&self) -> (text: &Vec<char>)
        ensures
            text@ == self@,
            is_decimal(text@),
    {
        proof {
            use_type_invariant(self);
        }
        &self.text
    }
}

/// Reads a number: every `,` becomes `.`, and the result has to be a
/// decimal number.
pub fn parse_value(written: &Vec<char>) -> (value: Result<Literal, CalcError>)
    ensures
        match value {
            Ok(literal) => parse_value_spec(written@) == Ok::<Seq<char>, CalcError>(literal@),
            Err(error) => parse_value_spec(written@) == Err::<Seq<char>, CalcError>(error),
        },
{
    let mut text: Vec<char> = Vec::new();
    let mut seen_digit: bool = false;
    let mut seen_point: bool = false;
    let mut malformed: bool = false;
    let ghost mut digit_at: int = 0;
    let ghost mut point_at: int = 0;
    let ghost mut stray_at: int = 0;
    let ghost mut second_point_at: int = 0;
    let mut i: usize = 0;
    while i < written.len()
        invariant
            i <= written.len(),
            text@ == normalized(written@).take(i as int),
            seen_digit ==> 0 <= digit_at < i && is_digit(text@[digit_at]),
            !seen_digit ==> forall|k: int| 0 <= k < i ==> !is_digit(#[trigger] text@[k]),
            seen_point ==> 0 <= point_at < i && text@[point_at] == '.',
            !seen_point ==> forall|k: int| 0 <= k < i ==> #[trigger] text@[k] != '.',
            malformed ==> {
                ||| 0 <= stray_at < i && !is_digit(text@[stray_at]) && text@[stray_at] != '.'
                ||| 0 <= point_at < second_point_at < i && text@[point_at] == '.'
                    && text@[second_point_at] == '.'
            },
            !malformed ==> forall|k: int|
                0 <= k < i ==> is_digit(#[trigger] text@[k]) || (text@[k] == '.' && k == point_at),
        decreases written.len() - i,
    {
        let c = written[i];
        let ghost before = text@;
        if c == ',' || c == '.' {
            if seen_point {
                malformed = true;
                proof {
                    second_point_at = i as int;
                }
            } else {
                seen_point = true;
                proof {
                    point_at = i as int;
                }
            }
            text.push('.');
        } else if c >= '0' && c <= '9' {
            seen_digit = true;
            proof {
                digit_at = i as int;
            }
            text.push(c);
        } else {
            malformed = true;
            proof {
                stray_at = i as int;
            }
            text.push(c);
        }
        proof {
            assert(forall|k: int| 0 <= k < i ==> text@[k] == before[k]);
            assert(text@ =~= normalized(written@).take(i + 1));
        }
        i = i + 1;
    }
    assert(text@ == normalized(written@));
    if malformed || !seen_digit {
        Err(CalcError::LiteralParse)
    } else {
        assert(is_decimal(text@));
        Ok(Literal { text })
    }
}

} // verus!

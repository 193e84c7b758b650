use vstd::prelude::*;
use vstd::string::StringExecFns;

use crate::cursor::string_push;
use crate::parser::grammar::SpecParserError;
use crate::parser::ParserError;

verus! {

#[derive(Debug, PartialEq, Eq)]
pub enum RegexError {
    ParseError(String),
}

/// The ASCII digit for `d < 10`.
pub open spec fn digit_char(d: nat) -> char {
    ('0' as nat + d) as char
}

/// `n` written in decimal, without leading zeros.
pub open spec fn decimal(n: nat) -> Seq<char>
    decreases n,
{
    if n < 10 {
        seq![digit_char(n)]
    } else {
        decimal(n / 10).push(digit_char(n % 10))
    }
}

/// The message that a compile error carries for a parse error.
pub open spec fn message(e: SpecParserError) -> Seq<char> {
    match e {
        SpecParserError::UnexpectedToken(c) => "Unexpected token '"@ + seq![c]
            + "' in regex pattern"@,
        SpecParserError::UnexpectedEndOfInput => "Unexpected end of input in regex pattern"@,
        SpecParserError::InvalidRange(a, b) => "Invalid range '"@ + seq![a] + "' - '"@ + seq![b]
            + "' in regex pattern"@,
        SpecParserError::LimitExceeded(text) => text + " Quantifier exceeds the supported limit"@,
        SpecParserError::MinimumGreaterThanMaximum(n, m) => "Invalid quantifier range: minimum "@
            + decimal(n as nat) + " is greater than maximum "@ + decimal(m as nat),
    }
}

/// The digit `d < 10` as a character.
fn digit(d: u16) -> (c: char)
    requires
        d < 10,
    ensures
        c == digit_char(d as nat),
{
    (48u8 + d as u8) as char
}

/// Appends `n` in decimal.
fn push_decimal(s: &mut String, n: u16)
    ensures
        final(s)@ == old(s)@ + decimal(n as nat),
    decreases n,
{
    if n >= 10 {
        push_decimal(s, n / 10);
    }
    string_push(s, digit(n % 10));
    proof {
        if n >= 10 {
            assert(decimal(n as nat) == decimal((n / 10) as nat).push(digit_char((n % 10) as nat)));
        }
    }
}

impl From<ParserError> for RegexError {
    /// The compile error for a parse error, with a message that says what went
    /// wrong.
    fn from(err: ParserError) -> (r: Self)
        ensures
            r matches RegexError::ParseError(m) && m@ == message(err@),
    {
        let mut m: String;
        match err {
            ParserError::UnexpectedToken(c) => {
                m = String::from_str("Unexpected token '");
                string_push(&mut m, c);
                m.append("' in regex pattern");
            },
            ParserError::UnexpectedEndOfInput => {
                m = String::from_str("Unexpected end of input in regex pattern");
            },
            ParserError::InvalidRange(a, b) => {
                m = String::from_str("Invalid range '");
                string_push(&mut m, a);
                m.append("' - '");
                string_push(&mut m, b);
                m.append("' in regex pattern");
            },
            ParserError::LimitExceeded(text) => {
                m = text;
                m.append(" Quantifier exceeds the supported limit");
            },
            ParserError::MinimumGreaterThanMaximum(n, k) => {
                m = String::from_str("Invalid quantifier range: minimum ");
                push_decimal(&mut m, n);
                m.append(" is greater than maximum ");
                push_decimal(&mut m, k);
            },
        }
        RegexError::ParseError(m)
    }
}

/// Which `String` value holds a message is not a function of its characters
/// here, so the conversion is not stated through `from_spec`; `from` itself
/// states the message it gives.
impl vstd::std_specs::convert::FromSpecImpl<ParserError> for RegexError {
    open spec fn obeys_from_spec() -> bool {
        false
    }

    open spec fn from_spec(err: ParserError) -> RegexError {
        RegexError::ParseError(choose|m: String| m@ == message(err@))
    }
}

} // verus!

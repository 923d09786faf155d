use crate::location::span::{HasSpan, Span};
use vstd::prelude::*;
use vstd::string::*;

verus! {

/// What went wrong while reading a token.
#[derive(Debug, Clone, Copy, PartialEq, Eq, Structural)]
pub enum TokenErrorKind {
    /// A line is indented less than the one before it, to a width that no
    /// open level has.
    IllegalIndentLvl,
    /// This character had to come next and did not.
    Expected(char),
    /// This character starts no token.
    Illegal(char),
    /// The text ended inside a token.
    UnexpectedEof,
}

/// A lexical error and the place in the source where it was found.
#[derive(Debug, Clone, Copy, PartialEq, Eq, Structural)]
pub struct TokenError {
    pub kind: TokenErrorKind,
    pub span: Span,
}

impl HasSpan for TokenError {
    fn span(&self) -> (s: Span)
        ensures
            s == self.span,
    {
        self.span
    }
}

impl TokenError {
    pub fn new(kind: TokenErrorKind, span: Span) -> (e: Self)
        ensures
            e.kind == kind,
            e.span == span,
    {
        Self { kind, span }
    }

    /// The message for this error; see [`TokenErrorKind::message`].
    pub fn message(&self) -> (text: String)
        ensures
            text@ == self.kind.message_text(),
    {
        self.kind.message()
    }
}

/// The decimal digit for `d`, which is below ten.
pub open spec fn digit_char(d: nat) -> char {
    ('0' as u32 + d) as char
}

/// `n` written in decimal, without leading zeros.
pub open spec fn decimal_digits(n: nat) -> Seq<char>
    decreases n,
{
    if n < 10 {
        seq![digit_char(n)]
    } else {
        decimal_digits(n / 10).push(digit_char(n % 10))
    }
}

impl TokenErrorKind {
    /// The text of [`TokenErrorKind::message`]. A character is shown as
    /// itself, followed by its code point in decimal.
    pub open spec fn message_text(self) -> Seq<char> {
        match self {
            TokenErrorKind::IllegalIndentLvl => "Illegal level of indentation found."@,
            TokenErrorKind::Expected(c) => "Expected char `"@ + seq![c] + "`. (U+"@
                + decimal_digits(c as nat) + ")"@,
            TokenErrorKind::Illegal(c) => "Illegal char `"@ + seq![c] + "`. (U+"@ + decimal_digits(
                c as nat,
            ) + ")"@,
            TokenErrorKind::UnexpectedEof => "Found EOF where a Token was expected."@,
        }
    }

    /// A message for a human reader.
    pub fn message(&self) -> (text: String)
        ensures
            text@ == self.message_text(),
    {
        match self {
            TokenErrorKind::IllegalIndentLvl => String::from_str(
                "Illegal level of indentation found.",
            ),
            TokenErrorKind::Expected(c) => {
                let mut text = String::from_str("Expected char `");
                append_char_report(&mut text, *c);
                text
            },
            TokenErrorKind::Illegal(c) => {
                let mut text = String::from_str("Illegal char `");
                append_char_report(&mut text, *c);
                text
            },
            TokenErrorKind::UnexpectedEof => String::from_str(
                "Found EOF where a Token was expected.",
            ),
        }
    }
}

/// Appends `c`, then its code point in decimal inside `` `. (U+ `` and `)`.
fn append_char_report(text: &mut String, c: char)
    ensures
        final(text)@ == old(text)@ + seq![c] + "`. (U+"@ + decimal_digits(c as nat) + ")"@,
{
    push_char(text, c);
    text.append("`. (U+");
    append_decimal(text, c as u32);
    text.append(")");
}

/// Appends `n` in decimal.
fn append_decimal(text: &mut String, n: u32)
    ensures
        final(text)@ == old(text)@ + decimal_digits(n as nat),
    decreases n,
{
    if n >= 10 {
        append_decimal(text, n / 10);
    }
    let d: u32 = n % 10;
    let c: char = if d == 0 {
        '0'
    } else if d == 1 {
        '1'
    } else if d == 2 {
        '2'
    } else if d == 3 {
        '3'
    } else if d == 4 {
        '4'
    } else if d == 5 {
        '5'
    } else if d == 6 {
        '6'
    } else if d == 7 {
        '7'
    } else if d == 8 {
        '8'
    } else {
        '9'
    };
    assert(c == digit_char(d as nat));
    push_char(text, c);
    proof {
        if n >= 10 {
            assert(old(text)@ + decimal_digits(n as nat) =~= (old(text)@ + decimal_digits(
                (n / 10) as nat,
            )).push(c));
        } else {
            assert(old(text)@ + decimal_digits(n as nat) =~= old(text)@.push(c));
        }
    }
}

/// `String::push` of the standard library: the text afterwards is the text
/// before with `c` added at its end.
#[verifier::external_body]
fn push_char(text: &mut String, c: char)
    ensures
        final(text)@ == old(text)@.push(c),
{
    text.push(c)
}

} // verus!

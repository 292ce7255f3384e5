//! Parsers for runs of ASCII character classes.
use crate::chars::{
    is_alpha_code, is_alphanum_code, is_dec_digit_code, is_hex_digit_code, is_multispace_code,
    is_oct_digit_code, is_space_code, AsChar,
};
use crate::error::ErrorKind;
use crate::multi::Range;
use crate::token::{ContainsToken, TakeWhile};
use vstd::prelude::*;

verus! {

/// A class of ASCII characters, as a set of tokens.
#[derive(Clone, Copy, Debug, PartialEq, Eq)]
pub enum CharClass {
    /// `A` to `Z` and `a` to `z`.
    Alpha,
    /// `0` to `9`.
    Digit,
    /// `0` to `9`, `A` to `F` and `a` to `f`.
    HexDigit,
    /// `0` to `7`.
    OctDigit,
    /// Letters and decimal digits.
    AlphaNumeric,
    /// Space and tab.
    Space,
    /// Space, tab, carriage return and line feed.
    MultiSpace,
}

impl CharClass {
    /// Whether the character with this code belongs to the class.
    pub open spec fn has(self, code: u32) -> bool {
        match self {
            CharClass::Alpha => is_alpha_code(code),
            CharClass::Digit => is_dec_digit_code(code),
            CharClass::HexDigit => is_hex_digit_code(code),
            CharClass::OctDigit => is_oct_digit_code(code),
            CharClass::AlphaNumeric => is_alphanum_code(code),
            CharClass::Space => is_space_code(code),
            CharClass::MultiSpace => is_multispace_code(code),
        }
    }

    /// The kind of the failure that a parser of this class reports.
    pub open spec fn spec_kind(self) -> ErrorKind {
        match self {
            CharClass::Alpha => ErrorKind::Alpha,
            CharClass::Digit => ErrorKind::Digit,
            CharClass::HexDigit => ErrorKind::HexDigit,
            CharClass::OctDigit => ErrorKind::OctDigit,
            CharClass::AlphaNumeric => ErrorKind::AlphaNumeric,
            CharClass::Space => ErrorKind::Space,
            CharClass::MultiSpace => ErrorKind::MultiSpace,
        }
    }

    /// The kind of the failure that a parser of this class reports.
    pub fn kind(self) -> (kind: ErrorKind)
        ensures
            kind == self.spec_kind(),
    {
        match self {
            CharClass::Alpha => ErrorKind::Alpha,
            CharClass::Digit => ErrorKind::Digit,
            CharClass::HexDigit => ErrorKind::HexDigit,
            CharClass::OctDigit => ErrorKind::OctDigit,
            CharClass::AlphaNumeric => ErrorKind::AlphaNumeric,
            CharClass::Space => ErrorKind::Space,
            CharClass::MultiSpace => ErrorKind::MultiSpace,
        }
    }
}

impl<T: AsChar> ContainsToken<T> for CharClass {
    open spec fn inv(&self) -> bool {
        true
    }

    open spec fn decides(&self, token: T, verdict: bool) -> bool {
        verdict == self.has(token.code())
    }

    fn contains_token(&self, token: T) -> (verdict: bool) {
        match self {
            CharClass::Alpha => token.is_alpha(),
            CharClass::Digit => token.is_dec_digit(),
            CharClass::HexDigit => token.is_hex_digit(),
            CharClass::OctDigit => token.is_oct_digit(),
            CharClass::AlphaNumeric => token.is_alphanum(),
            CharClass::Space => token.is_space(),
            CharClass::MultiSpace => token.is_multispace(),
        }
    }
}

/// The parser of the longest run of a class, of `min` characters or more.
pub open spec fn class_run(class: CharClass, min: usize) -> TakeWhile<CharClass> {
    TakeWhile { range: Range { min, max: None }, set: class, go: true, kind: ErrorKind::Slice }
}

/// The run of characters of `class` at the front, of `min` characters or
/// more; a shorter run fails with `ErrorKind::Slice`.
pub fn many_of(class: CharClass, min: usize) -> (p: TakeWhile<CharClass>)
    ensures
        p == class_run(class, min),
{
    TakeWhile { range: Range::at_least(min), set: class, go: true, kind: ErrorKind::Slice }
}

/// Zero or more ASCII letters.
pub fn alpha0() -> (p: TakeWhile<CharClass>)
    ensures
        p == class_run(CharClass::Alpha, 0),
{
    many_of(CharClass::Alpha, 0)
}

/// One or more ASCII letters; none is a failure of kind `ErrorKind::Slice`.
pub fn alpha1() -> (p: TakeWhile<CharClass>)
    ensures
        p == class_run(CharClass::Alpha, 1),
{
    many_of(CharClass::Alpha, 1)
}

/// Zero or more decimal digits.
pub fn digit0() -> (p: TakeWhile<CharClass>)
    ensures
        p == class_run(CharClass::Digit, 0),
{
    many_of(CharClass::Digit, 0)
}

/// One or more decimal digits; none is a failure of kind `ErrorKind::Slice`.
pub fn digit1() -> (p: TakeWhile<CharClass>)
    ensures
        p == class_run(CharClass::Digit, 1),
{
    many_of(CharClass::Digit, 1)
}

/// Zero or more hexadecimal digits.
pub fn hex_digit0() -> (p: TakeWhile<CharClass>)
    ensures
        p == class_run(CharClass::HexDigit, 0),
{
    many_of(CharClass::HexDigit, 0)
}

/// One or more hexadecimal digits; none is a failure of kind `ErrorKind::Slice`.
pub fn hex_digit1() -> (p: TakeWhile<CharClass>)
    ensures
        p == class_run(CharClass::HexDigit, 1),
{
    many_of(CharClass::HexDigit, 1)
}

/// Zero or more octal digits.
pub fn oct_digit0() -> (p: TakeWhile<CharClass>)
    ensures
        p == class_run(CharClass::OctDigit, 0),
{
    many_of(CharClass::OctDigit, 0)
}

/// One or more octal digits; none is a failure of kind `ErrorKind::Slice`.
pub fn oct_digit1() -> (p: TakeWhile<CharClass>)
    ensures
        p == class_run(CharClass::OctDigit, 1),
{
    many_of(CharClass::OctDigit, 1)
}

/// Zero or more ASCII letters and decimal digits.
pub fn alphanumeric0() -> (p: TakeWhile<CharClass>)
    ensures
        p == class_run(CharClass::AlphaNumeric, 0),
{
    many_of(CharClass::AlphaNumeric, 0)
}

/// One or more ASCII letters and decimal digits; none is a failure of kind `ErrorKind::Slice`.
pub fn alphanumeric1() -> (p: TakeWhile<CharClass>)
    ensures
        p == class_run(CharClass::AlphaNumeric, 1),
{
    many_of(CharClass::AlphaNumeric, 1)
}

/// Zero or more spaces and tabs.
pub fn space0() -> (p: TakeWhile<CharClass>)
    ensures
        p == class_run(CharClass::Space, 0),
{
    many_of(CharClass::Space, 0)
}

/// One or more spaces and tabs; none is a failure of kind `ErrorKind::Slice`.
pub fn space1() -> (p: TakeWhile<CharClass>)
    ensures
        p == class_run(CharClass::Space, 1),
{
    many_of(CharClass::Space, 1)
}

/// Zero or more spaces, tabs, carriage returns and line feeds.
pub fn multispace0() -> (p: TakeWhile<CharClass>)
    ensures
        p == class_run(CharClass::MultiSpace, 0),
{
    many_of(CharClass::MultiSpace, 0)
}

/// One or more spaces, tabs, carriage returns and line feeds; none is a
/// failure of kind `ErrorKind::Slice`.
pub fn multispace1() -> (p: TakeWhile<CharClass>)
    ensures
        p == class_run(CharClass::MultiSpace, 1),
{
    many_of(CharClass::MultiSpace, 1)
}

} // verus!

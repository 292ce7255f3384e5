//! Parsers for ASCII character classes that report the class they looked
//! for, and parsers for line endings.
use crate::ascii::CharClass;
use crate::chars::AsChar;
use crate::error::{ErrMode, ErrorKind, Needed, PResult, ParserError};
use crate::multi::Range;
use crate::parser::{rejected_at, Parser};
use crate::stream::{lemma_reaches_refl, lemma_reaches_trans, reaches, Cursor, Stream};
use crate::token::{starved, takes, ContainsToken, TakeWhile};
use vstd::prelude::*;

verus! {

/// The parser of the longest run of a class, of `min` characters or more.
pub open spec fn class_run(class: CharClass, min: usize) -> TakeWhile<CharClass> {
    TakeWhile { range: Range { min, max: None }, set: class, go: true, kind: class.spec_kind() }
}

/// The run of characters of `class` at the front, of `min` characters or
/// more; a shorter run fails with the kind of the class.
pub fn many_of(class: CharClass, min: usize) -> (p: TakeWhile<CharClass>)
    ensures
        p == class_run(class, min),
{
    TakeWhile { range: Range::at_least(min), set: class, go: true, kind: class.kind() }
}

/// Zero or more ASCII letters.
pub fn alpha0() -> (p: TakeWhile<CharClass>)
    ensures
        p == class_run(CharClass::Alpha, 0),
{
    many_of(CharClass::Alpha, 0)
}

/// One or more ASCII letters; none is a failure of kind `ErrorKind::Alpha`.
pub fn alpha1() -> (p: TakeWhile<CharClass>)
    ensures
        p == class_run(CharClass::Alpha, 1),
{
    many_of(CharClass::Alpha, 1)
}

/// Zero or more decimal digits.
pub fn digit0() -> (p: TakeWhile<CharClass>)
    ensures
        p == class_run(CharClass::Digit, 0),
{
    many_of(CharClass::Digit, 0)
}

/// One or more decimal digits; none is a failure of kind `ErrorKind::Digit`.
pub fn digit1() -> (p: TakeWhile<CharClass>)
    ensures
        p == class_run(CharClass::Digit, 1),
{
    many_of(CharClass::Digit, 1)
}

/// Zero or more hexadecimal digits.
pub fn hex_digit0() -> (p: TakeWhile<CharClass>)
    ensures
        p == class_run(CharClass::HexDigit, 0),
{
    many_of(CharClass::HexDigit, 0)
}

/// One or more hexadecimal digits; none is a failure of kind `ErrorKind::HexDigit`.
pub fn hex_digit1() -> (p: TakeWhile<CharClass>)
    ensures
        p == class_run(CharClass::HexDigit, 1),
{
    many_of(CharClass::HexDigit, 1)
}

/// Zero or more octal digits.
pub fn oct_digit0() -> (p: TakeWhile<CharClass>)
    ensures
        p == class_run(CharClass::OctDigit, 0),
{
    many_of(CharClass::OctDigit, 0)
}

/// One or more octal digits; none is a failure of kind `ErrorKind::OctDigit`.
pub fn oct_digit1() -> (p: TakeWhile<CharClass>)
    ensures
        p == class_run(CharClass::OctDigit, 1),
{
    many_of(CharClass::OctDigit, 1)
}

/// Zero or more ASCII letters and decimal digits.
pub fn alphanumeric0() -> (p: TakeWhile<CharClass>)
    ensures
        p == class_run(CharClass::AlphaNumeric, 0),
{
    many_of(CharClass::AlphaNumeric, 0)
}

/// One or more ASCII letters and decimal digits; none is a failure of kind
/// `ErrorKind::AlphaNumeric`.
pub fn alphanumeric1() -> (p: TakeWhile<CharClass>)
    ensures
        p == class_run(CharClass::AlphaNumeric, 1),
{
    many_of(CharClass::AlphaNumeric, 1)
}

/// Zero or more spaces and tabs.
pub fn space0() -> (p: TakeWhile<CharClass>)
    ensures
        p == class_run(CharClass::Space, 0),
{
    many_of(CharClass::Space, 0)
}

/// One or more spaces and tabs; none is a failure of kind `ErrorKind::Space`.
pub fn space1() -> (p: TakeWhile<CharClass>)
    ensures
        p == class_run(CharClass::Space, 1),
{
    many_of(CharClass::Space, 1)
}

/// Zero or more spaces, tabs, carriage returns and line feeds.
pub fn multispace0() -> (p: TakeWhile<CharClass>)
    ensures
        p == class_run(CharClass::MultiSpace, 0),
{
    many_of(CharClass::MultiSpace, 0)
}

/// One or more spaces, tabs, carriage returns and line feeds; none is a
/// failure of kind `ErrorKind::MultiSpace`.
pub fn multispace1() -> (p: TakeWhile<CharClass>)
    ensures
        p == class_run(CharClass::MultiSpace, 1),
{
    many_of(CharClass::MultiSpace, 1)
}

/// The code of the carriage return.
pub const CR: u32 = 0x0D;

/// The code of the line feed.
pub const LF: u32 = 0x0A;

/// The token at place `i` has the code `code`.
pub open spec fn code_at<T: AsChar>(tokens: Seq<T>, i: int, code: u32) -> bool {
    0 <= i < tokens.len() && tokens[i].code() == code
}

/// A line ending. See [`line_ending`] and [`crlf`].
pub struct LineEnding {
    /// Whether a line feed alone is a line ending too.
    pub bare_lf: bool,
}

impl<I: Stream, E: ParserError<I>> Parser<I, E> for LineEnding where I::Token: AsChar {
    type Output = I::Slice;

    open spec fn inv(&self) -> bool {
        true
    }

    open spec fn parses(&self, start: I, end: I, result: PResult<I::Slice, E>) -> bool {
        let tokens = start.tokens();
        if self.bare_lf && code_at(tokens, 0, LF) {
            takes(start, 1, end, result)
        } else if code_at(tokens, 0, CR) && code_at(tokens, 1, LF) {
            takes(start, 2, end, result)
        } else if tokens.len() == 0 {
            starved(
                start,
                Needed::Size(
                    if self.bare_lf {
                        1
                    } else {
                        2
                    },
                ),
                ErrorKind::CrLf,
                end,
                result,
            )
        } else if tokens.len() == 1 && code_at(tokens, 0, CR) {
            starved(start, Needed::Size(2), ErrorKind::CrLf, end, result)
        } else {
            rejected_at(start, ErrorKind::CrLf, end, result)
        }
    }

    fn parse_next(&self, input: &mut I) -> (result: PResult<I::Slice, E>) {
        let start = *input;
        proof {
            lemma_reaches_refl(start);
        }
        match input.next_token() {
            None => {
                let size: usize = if self.bare_lf {
                    1
                } else {
                    2
                };
                starve_at(input, Needed::Size(size))
            },
            Some(first) => {
                let ghost mid = *input;
                let code = first.as_u32();
                if self.bare_lf && code == LF {
                    Ok(start.slice_to(input))
                } else if code == CR {
                    match input.next_token() {
                        None => {
                            *input = start;
                            starve_at(input, Needed::Size(2))
                        },
                        Some(second) => {
                            proof {
                                lemma_reaches_trans(start, mid, *input);
                                assert(start.tokens().skip(1).skip(1) =~= start.tokens().skip(2));
                                assert(second == start.tokens()[1]);
                            }
                            if second.as_u32() == LF {
                                Ok(start.slice_to(input))
                            } else {
                                *input = start;
                                Err(ErrMode::from_error_kind(input, ErrorKind::CrLf))
                            }
                        },
                    }
                } else {
                    *input = start;
                    Err(ErrMode::from_error_kind(input, ErrorKind::CrLf))
                }
            },
        }
    }
}

/// Answers an input that ran out within a line ending.
fn starve_at<I: Stream, O, E: ParserError<I>>(input: &I, needed: Needed) -> (result: PResult<O, E>)
    ensures
        starved(*input, needed, ErrorKind::CrLf, *input, result),
{
    if input.is_partial() {
        Err(ErrMode::Incomplete(needed))
    } else {
        Err(ErrMode::from_error_kind(input, ErrorKind::CrLf))
    }
}

/// A line feed, or a carriage return and a line feed. Anything else fails with
/// `ErrorKind::CrLf`; a streaming parse that sees nothing, or a carriage
/// return and nothing behind it, asks for the bytes of the ending it may
/// become.
pub fn line_ending() -> (p: LineEnding)
    ensures
        p.bare_lf,
{
    LineEnding { bare_lf: true }
}

/// A carriage return and a line feed. Anything else fails with
/// `ErrorKind::CrLf`; a streaming parse that sees less than the two asks for
/// two bytes.
pub fn crlf() -> (p: LineEnding)
    ensures
        !p.bare_lf,
{
    LineEnding { bare_lf: false }
}

/// The token at place `i` is a carriage return or a line feed.
pub open spec fn ends_line<T: AsChar>(tokens: Seq<T>, i: int) -> bool {
    code_at(tokens, i, CR) || code_at(tokens, i, LF)
}

/// The first `k` tokens hold neither a carriage return nor a line feed.
pub open spec fn within_line<T: AsChar>(tokens: Seq<T>, k: int) -> bool {
    forall|i: int| 0 <= i < k ==> !#[trigger] ends_line(tokens, i)
}

/// The text up to the end of the line. See [`not_line_ending`].
pub struct NotLineEnding;

impl<I: Stream, E: ParserError<I>> Parser<I, E> for NotLineEnding where I::Token: AsChar {
    type Output = I::Slice;

    open spec fn inv(&self) -> bool {
        true
    }

    open spec fn parses(&self, start: I, end: I, result: PResult<I::Slice, E>) -> bool {
        let tokens = start.tokens();
        exists|k: int|
            0 <= k <= tokens.len() && #[trigger] within_line(tokens, k) && if k == tokens.len() {
                if start.partial() {
                    end == start && result == Err::<I::Slice, ErrMode<E>>(
                        ErrMode::Incomplete(Needed::Unknown),
                    )
                } else {
                    takes(start, k, end, result)
                }
            } else {
                ends_line(tokens, k) && if code_at(tokens, k, LF) || code_at(tokens, k + 1, LF) {
                    takes(start, k, end, result)
                } else if k + 1 == tokens.len() && start.partial() {
                    end == start && result == Err::<I::Slice, ErrMode<E>>(
                        ErrMode::Incomplete(Needed::Unknown),
                    )
                } else {
                    rejected_at(start, ErrorKind::Tag, end, result)
                }
            }
    }

    fn parse_next(&self, input: &mut I) -> (result: PResult<I::Slice, E>) {
        let start = *input;
        let ghost tokens = start.tokens();
        let ghost mut k: int = 0;
        proof {
            lemma_reaches_refl(start);
            assert(tokens.skip(0) =~= tokens);
        }
        loop
            invariant
                start == *old(input),
                tokens == start.tokens(),
                reaches(start, *input),
                0 <= k <= tokens.len(),
                input.tokens() == tokens.skip(k),
                within_line(tokens, k),
            decreases input.width(),
        {
            proof {
                lemma_reaches_refl(start);
            }
            let here = *input;
            match input.next_token() {
                None => {
                    if input.is_partial() {
                        *input = start;
                        return Err(ErrMode::Incomplete(Needed::Unknown));
                    } else {
                        return Ok(start.slice_to(input));
                    }
                },
                Some(t) => {
                    let ghost after = *input;
                    proof {
                        assert(t == tokens[k]);
                        lemma_reaches_trans(start, here, after);
                        assert(tokens.skip(k).skip(1) =~= tokens.skip(k + 1));
                    }
                    let code = t.as_u32();
                    if code == LF {
                        *input = here;
                        return Ok(start.slice_to(input));
                    } else if code == CR {
                        match input.next_token() {
                            None => {
                                if input.is_partial() {
                                    *input = start;
                                    return Err(ErrMode::Incomplete(Needed::Unknown));
                                } else {
                                    *input = start;
                                    return Err(ErrMode::from_error_kind(input, ErrorKind::Tag));
                                }
                            },
                            Some(next) => {
                                assert(next == tokens[k + 1]);
                                if next.as_u32() == LF {
                                    *input = here;
                                    return Ok(start.slice_to(input));
                                } else {
                                    *input = start;
                                    return Err(ErrMode::from_error_kind(input, ErrorKind::Tag));
                                }
                            },
                        }
                    }
                    proof {
                        assert(!ends_line(tokens, k));
                        k = k + 1;
                    }
                },
            }
        }
    }
}

/// Consumes the tokens before the end of the line; the line ending itself is
/// left. A carriage return that no line feed follows is a failure of kind
/// `ErrorKind::Tag`. At the end of an input without a line ending a complete
/// parse succeeds with all of it, and a streaming parse asks for more.
pub fn not_line_ending() -> (p: NotLineEnding) {
    NotLineEnding
}

} // verus!

//! Combinators over a single parser and over the end of the input: optional,
//! lookahead, negation, end of input, rest of input.
use crate::error::{ErrMode, ErrorKind, PResult, ParserError};
use crate::parser::{rejected_at, Parser};
use crate::stream::{lemma_reaches_refl, reaches, Cursor, Stream};
use vstd::prelude::*;

verus! {

/// `parser`, or nothing. See [`opt`].
pub struct Opt<P> {
    pub parser: P,
}

impl<I: Stream, E, P: Parser<I, E>> Parser<I, E> for Opt<P> {
    type Output = Option<P::Output>;

    open spec fn inv(&self) -> bool {
        self.parser.inv()
    }

    open spec fn parses(&self, start: I, end: I, result: PResult<Option<P::Output>, E>) -> bool {
        exists|mid: I, inner: PResult<P::Output, E>| #[trigger]
            self.parser.parses(start, mid, inner) && reaches(start, mid) && match inner {
                Ok(o) => end == mid && result == Ok::<Option<P::Output>, ErrMode<E>>(Some(o)),
                Err(ErrMode::Backtrack(_)) => end == start && result == Ok::<
                    Option<P::Output>,
                    ErrMode<E>,
                >(None),
                Err(e) => end == mid && result == Err::<Option<P::Output>, ErrMode<E>>(e),
            }
    }

    fn parse_next(&self, input: &mut I) -> (result: PResult<Option<P::Output>, E>) {
        let start = *input;
        match self.parser.parse_next(input) {
            Ok(o) => Ok(Some(o)),
            Err(ErrMode::Backtrack(_)) => {
                *input = start;
                proof {
                    lemma_reaches_refl(start);
                }
                Ok(None)
            },
            Err(e) => Err(e),
        }
    }
}

/// Makes `parser` optional: a recoverable failure becomes `None` with the
/// cursor back at the start. A cut and a request for more input pass through.
pub fn opt<P>(parser: P) -> (p: Opt<P>)
    ensures
        p.parser == parser,
{
    Opt { parser }
}

/// `parser` without consuming. See [`peek`].
pub struct Peek<P> {
    pub parser: P,
}

impl<I: Stream, E, P: Parser<I, E>> Parser<I, E> for Peek<P> {
    type Output = P::Output;

    open spec fn inv(&self) -> bool {
        self.parser.inv()
    }

    open spec fn parses(&self, start: I, end: I, result: PResult<P::Output, E>) -> bool {
        end == start && exists|mid: I| #[trigger] self.parser.parses(start, mid, result) && reaches(start, mid)
    }

    fn parse_next(&self, input: &mut I) -> (result: PResult<P::Output, E>) {
        let start = *input;
        let result = self.parser.parse_next(input);
        *input = start;
        proof {
            lemma_reaches_refl(start);
        }
        result
    }
}

/// Runs `parser` and rewinds whatever it answered: the result is that of
/// `parser`, the cursor stays where it was.
pub fn peek<P>(parser: P) -> (p: Peek<P>)
    ensures
        p.parser == parser,
{
    Peek { parser }
}

/// Success where `parser` fails. See [`not`].
pub struct Not<P> {
    pub parser: P,
}

impl<I: Stream, E: ParserError<I>, P: Parser<I, E>> Parser<I, E> for Not<P> {
    type Output = ();

    open spec fn inv(&self) -> bool {
        self.parser.inv()
    }

    open spec fn parses(&self, start: I, end: I, result: PResult<(), E>) -> bool {
        end == start && exists|mid: I, inner: PResult<P::Output, E>| #[trigger]
            self.parser.parses(start, mid, inner) && reaches(start, mid) && match inner {
                Ok(_) => rejected_at(start, ErrorKind::Not, end, result),
                Err(ErrMode::Backtrack(_)) => result == Ok::<(), ErrMode<E>>(()),
                Err(e) => result == Err::<(), ErrMode<E>>(e),
            }
    }

    fn parse_next(&self, input: &mut I) -> (result: PResult<(), E>) {
        let start = *input;
        let inner = self.parser.parse_next(input);
        *input = start;
        proof {
            lemma_reaches_refl(start);
        }
        match inner {
            Ok(_) => Err(ErrMode::from_error_kind(input, ErrorKind::Not)),
            Err(ErrMode::Backtrack(_)) => Ok(()),
            Err(e) => Err(e),
        }
    }
}

/// Succeeds, consuming nothing, where `parser` fails recoverably; fails with
/// `ErrorKind::Not` where `parser` succeeds. A cut and a request for more
/// input pass through.
pub fn not<P>(parser: P) -> (p: Not<P>)
    ensures
        p.parser == parser,
{
    Not { parser }
}

/// `parser` where a condition holds. See [`cond`].
pub struct Cond<P> {
    pub enabled: bool,
    pub parser: P,
}

impl<I: Stream, E, P: Parser<I, E>> Parser<I, E> for Cond<P> {
    type Output = Option<P::Output>;

    open spec fn inv(&self) -> bool {
        self.parser.inv()
    }

    open spec fn parses(&self, start: I, end: I, result: PResult<Option<P::Output>, E>) -> bool {
        if self.enabled {
            exists|inner: PResult<P::Output, E>| #[trigger]
                self.parser.parses(start, end, inner) && reaches(start, end) && match inner {
                    Ok(o) => result == Ok::<Option<P::Output>, ErrMode<E>>(Some(o)),
                    Err(e) => result == Err::<Option<P::Output>, ErrMode<E>>(e),
                }
        } else {
            end == start && result == Ok::<Option<P::Output>, ErrMode<E>>(None)
        }
    }

    fn parse_next(&self, input: &mut I) -> (result: PResult<Option<P::Output>, E>) {
        if self.enabled {
            match self.parser.parse_next(input) {
                Ok(o) => Ok(Some(o)),
                Err(e) => Err(e),
            }
        } else {
            proof {
                lemma_reaches_refl(*input);
            }
            Ok(None)
        }
    }
}

/// Runs `parser` where `enabled` holds, and gives `None` without looking at
/// the input where it does not.
pub fn cond<P>(enabled: bool, parser: P) -> (p: Cond<P>)
    ensures
        p.enabled == enabled,
        p.parser == parser,
{
    Cond { enabled, parser }
}

/// The end of the input. See [`eof`].
pub struct Eof;

impl<I: Stream, E: ParserError<I>> Parser<I, E> for Eof {
    type Output = I::Slice;

    open spec fn inv(&self) -> bool {
        true
    }

    open spec fn parses(&self, start: I, end: I, result: PResult<I::Slice, E>) -> bool {
        if start.tokens().len() == 0 {
            &&& end.tokens() == start.tokens()
            &&& result matches Ok(slice)
            &&& I::slice_tokens(slice) == Seq::<I::Token>::empty()
        } else {
            rejected_at(start, ErrorKind::Eof, end, result)
        }
    }

    fn parse_next(&self, input: &mut I) -> (result: PResult<I::Slice, E>) {
        if input.eof_offset() == 0 {
            let ghost start = *input;
            match input.next_slice(0) {
                Ok(slice) => {
                    assert(start.tokens().take(0) =~= Seq::<I::Token>::empty());
                    assert(start.tokens().skip(0) =~= start.tokens());
                    Ok(slice)
                },
                Err(_) => {
                    proof {
                        assert(false);
                    }
                    Err(ErrMode::from_error_kind(input, ErrorKind::Eof))
                },
            }
        } else {
            proof {
                lemma_reaches_refl(*input);
            }
            Err(ErrMode::from_error_kind(input, ErrorKind::Eof))
        }
    }
}

/// Succeeds with an empty slice where no token is left; fails with
/// `ErrorKind::Eof` where one is. End of buffer counts as end of input in
/// both modes.
pub fn eof() -> (p: Eof) {
    Eof
}

/// The rest of the input. See [`rest`].
pub struct Rest;

impl<I: Stream, E> Parser<I, E> for Rest {
    type Output = I::Slice;

    open spec fn inv(&self) -> bool {
        true
    }

    open spec fn parses(&self, start: I, end: I, result: PResult<I::Slice, E>) -> bool {
        &&& end.tokens().len() == 0
        &&& result matches Ok(slice)
        &&& I::slice_tokens(slice) == start.tokens()
    }

    fn parse_next(&self, input: &mut I) -> (result: PResult<I::Slice, E>) {
        Ok(input.finish())
    }
}

/// Consumes and returns everything that is left; never fails.
pub fn rest() -> (p: Rest) {
    Rest
}

/// The length of the rest of the input. See [`rest_len`].
pub struct RestLen;

impl<I: Stream, E> Parser<I, E> for RestLen {
    type Output = usize;

    open spec fn inv(&self) -> bool {
        true
    }

    open spec fn parses(&self, start: I, end: I, result: PResult<usize, E>) -> bool {
        end == start && result == Ok::<usize, ErrMode<E>>(start.width() as usize)
    }

    fn parse_next(&self, input: &mut I) -> (result: PResult<usize, E>) {
        proof {
            lemma_reaches_refl(*input);
        }
        Ok(input.eof_offset())
    }
}

/// Gives the number of bytes left without consuming any; never fails.
pub fn rest_len() -> (p: RestLen) {
    RestLen
}

/// The parser that always fails. See [`fail`].
pub struct Fail<O> {
    pub output: core::marker::PhantomData<O>,
}

impl<I: Stream, E: ParserError<I>, O> Parser<I, E> for Fail<O> {
    type Output = O;

    open spec fn inv(&self) -> bool {
        true
    }

    open spec fn parses(&self, start: I, end: I, result: PResult<O, E>) -> bool {
        rejected_at(start, ErrorKind::Fail, end, result)
    }

    fn parse_next(&self, input: &mut I) -> (result: PResult<O, E>) {
        proof {
            lemma_reaches_refl(*input);
        }
        Err(ErrMode::from_error_kind(input, ErrorKind::Fail))
    }
}

/// Fails with `ErrorKind::Fail` on every input, consuming nothing.
pub fn fail<O>() -> (p: Fail<O>) {
    Fail { output: core::marker::PhantomData }
}

/// The parser that always succeeds. See [`empty`].
pub struct Empty;

impl<I: Stream, E> Parser<I, E> for Empty {
    type Output = ();

    open spec fn inv(&self) -> bool {
        true
    }

    open spec fn parses(&self, start: I, end: I, result: PResult<(), E>) -> bool {
        end == start && result == Ok::<(), ErrMode<E>>(())
    }

    fn parse_next(&self, input: &mut I) -> (result: PResult<(), E>) {
        proof {
            lemma_reaches_refl(*input);
        }
        Ok(())
    }
}

/// Succeeds on every input, consuming nothing.
pub fn empty() -> (p: Empty) {
    Empty
}

} // verus!

//! Sequencing: sub-parsers applied strictly in order, the first failure
//! returned as it is.
use crate::error::{ErrMode, PResult};
use crate::parser::Parser;
use crate::stream::{lemma_reaches_trans, reaches, Stream};
use vstd::prelude::*;

verus! {

/// One step of a sequence: `parser` runs at `start`. Where it fails, the whole
/// sequence ends there with that failure, whatever its kind. Where it succeeds
/// at `mid` with `o`, the sequence goes on as `then(mid, o)` says.
pub open spec fn step<I: Stream, E, O, P: Parser<I, E>>(
    parser: P,
    start: I,
    end: I,
    result: PResult<O, E>,
    then: spec_fn(I, P::Output) -> bool,
) -> bool {
    exists|mid: I, inner: PResult<P::Output, E>| #[trigger]
        parser.parses(start, mid, inner) && reaches(start, mid) && match inner {
            Ok(o) => then(mid, o),
            Err(e) => end == mid && result == Err::<O, ErrMode<E>>(e),
        }
}

/// The sequence ends at `mid` with the value `o`.
pub open spec fn done<I: Stream, E, O>(mid: I, o: O, end: I, result: PResult<O, E>) -> bool {
    end == mid && result == Ok::<O, ErrMode<E>>(o)
}

/// Two parsers, the second one's output kept. See [`preceded`].
pub struct Preceded<Pa, Pb> {
    pub ignored: Pa,
    pub parser: Pb,
}

impl<I: Stream, E, Pa: Parser<I, E>, Pb: Parser<I, E>> Parser<I, E> for Preceded<Pa, Pb> {
    type Output = Pb::Output;

    open spec fn inv(&self) -> bool {
        self.ignored.inv() && self.parser.inv()
    }

    open spec fn parses(&self, start: I, end: I, result: PResult<Pb::Output, E>) -> bool {
        step(
            self.ignored,
            start,
            end,
            result,
            |m1: I, o1: Pa::Output| self.parser.parses(m1, end, result) && reaches(m1, end),
        )
    }

    fn parse_next(&self, input: &mut I) -> (result: PResult<Pb::Output, E>) {
        let ghost start = *input;
        match self.ignored.parse_next(input) {
            Ok(_) => {
                let ghost m1 = *input;
                let r = self.parser.parse_next(input);
                proof {
                    lemma_reaches_trans(start, m1, *input);
                }
                r
            },
            Err(e) => Err(e),
        }
    }
}

/// Runs `ignored`, then `parser`, and keeps the output of `parser`.
pub fn preceded<Pa, Pb>(ignored: Pa, parser: Pb) -> (p: Preceded<Pa, Pb>)
    ensures
        p.ignored == ignored,
        p.parser == parser,
{
    Preceded { ignored, parser }
}

/// Two parsers, the first one's output kept. See [`terminated`].
pub struct Terminated<Pa, Pb> {
    pub parser: Pa,
    pub ignored: Pb,
}

impl<I: Stream, E, Pa: Parser<I, E>, Pb: Parser<I, E>> Parser<I, E> for Terminated<Pa, Pb> {
    type Output = Pa::Output;

    open spec fn inv(&self) -> bool {
        self.parser.inv() && self.ignored.inv()
    }

    open spec fn parses(&self, start: I, end: I, result: PResult<Pa::Output, E>) -> bool {
        step(
            self.parser,
            start,
            end,
            result,
            |m1: I, o1: Pa::Output|
                step(
                    self.ignored,
                    m1,
                    end,
                    result,
                    |m2: I, o2: Pb::Output| done(m2, o1, end, result),
                ),
        )
    }

    fn parse_next(&self, input: &mut I) -> (result: PResult<Pa::Output, E>) {
        let ghost start = *input;
        match self.parser.parse_next(input) {
            Ok(o1) => {
                let ghost m1 = *input;
                let r = self.ignored.parse_next(input);
                proof {
                    lemma_reaches_trans(start, m1, *input);
                }
                match r {
                    Ok(_) => Ok(o1),
                    Err(e) => Err(e),
                }
            },
            Err(e) => Err(e),
        }
    }
}

/// Runs `parser`, then `ignored`, and keeps the output of `parser`.
pub fn terminated<Pa, Pb>(parser: Pa, ignored: Pb) -> (p: Terminated<Pa, Pb>)
    ensures
        p.parser == parser,
        p.ignored == ignored,
{
    Terminated { parser, ignored }
}

/// Three parsers, the middle one's output kept. See [`delimited`].
pub struct Delimited<Pa, Pb, Pc> {
    pub open: Pa,
    pub parser: Pb,
    pub close: Pc,
}

impl<I: Stream, E, Pa: Parser<I, E>, Pb: Parser<I, E>, Pc: Parser<I, E>> Parser<I, E> for Delimited<
    Pa,
    Pb,
    Pc,
> {
    type Output = Pb::Output;

    open spec fn inv(&self) -> bool {
        self.open.inv() && self.parser.inv() && self.close.inv()
    }

    open spec fn parses(&self, start: I, end: I, result: PResult<Pb::Output, E>) -> bool {
        step(
            self.open,
            start,
            end,
            result,
            |m1: I, o1: Pa::Output|
                step(
                    self.parser,
                    m1,
                    end,
                    result,
                    |m2: I, o2: Pb::Output|
                        step(
                            self.close,
                            m2,
                            end,
                            result,
                            |m3: I, o3: Pc::Output| done(m3, o2, end, result),
                        ),
                ),
        )
    }

    fn parse_next(&self, input: &mut I) -> (result: PResult<Pb::Output, E>) {
        let ghost start = *input;
        match self.open.parse_next(input) {
            Ok(_) => {
                let ghost m1 = *input;
                let r2 = self.parser.parse_next(input);
                proof {
                    lemma_reaches_trans(start, m1, *input);
                }
                match r2 {
                    Ok(o2) => {
                        let ghost m2 = *input;
                        let r3 = self.close.parse_next(input);
                        proof {
                            lemma_reaches_trans(start, m2, *input);
                        }
                        match r3 {
                            Ok(_) => Ok(o2),
                            Err(e) => Err(e),
                        }
                    },
                    Err(e) => Err(e),
                }
            },
            Err(e) => Err(e),
        }
    }
}

/// Runs `open`, `parser` and `close` in this order and keeps the output of `parser`.
pub fn delimited<Pa, Pb, Pc>(
    open: Pa,
    parser: Pb,
    close: Pc,
) -> (p: Delimited<Pa, Pb, Pc>)
    ensures
        p.open == open,
        p.parser == parser,
        p.close == close,
{
    Delimited { open, parser, close }
}

/// Three parsers, the outer two outputs kept. See [`separated_pair`].
pub struct SeparatedPair<Pa, Pb, Pc> {
    pub first: Pa,
    pub separator: Pb,
    pub second: Pc,
}

impl<I: Stream, E, Pa: Parser<I, E>, Pb: Parser<I, E>, Pc: Parser<I, E>> Parser<
    I,
    E,
> for SeparatedPair<Pa, Pb, Pc> {
    type Output = (Pa::Output, Pc::Output);

    open spec fn inv(&self) -> bool {
        self.first.inv() && self.separator.inv() && self.second.inv()
    }

    open spec fn parses(&self, start: I, end: I, result: PResult<(Pa::Output, Pc::Output), E>) -> bool {
        step(
            self.first,
            start,
            end,
            result,
            |m1: I, o1: Pa::Output|
                step(
                    self.separator,
                    m1,
                    end,
                    result,
                    |m2: I, o2: Pb::Output|
                        step(
                            self.second,
                            m2,
                            end,
                            result,
                            |m3: I, o3: Pc::Output| done(m3, (o1, o3), end, result),
                        ),
                ),
        )
    }

    fn parse_next(&self, input: &mut I) -> (result: PResult<(Pa::Output, Pc::Output), E>) {
        let ghost start = *input;
        match self.first.parse_next(input) {
            Ok(o1) => {
                let ghost m1 = *input;
                let r2 = self.separator.parse_next(input);
                proof {
                    lemma_reaches_trans(start, m1, *input);
                }
                match r2 {
                    Ok(_) => {
                        let ghost m2 = *input;
                        let r3 = self.second.parse_next(input);
                        proof {
                            lemma_reaches_trans(start, m2, *input);
                        }
                        match r3 {
                            Ok(o3) => Ok((o1, o3)),
                            Err(e) => Err(e),
                        }
                    },
                    Err(e) => Err(e),
                }
            },
            Err(e) => Err(e),
        }
    }
}

/// Runs `first`, `separator` and `second` in this order and keeps the outputs
/// of `first` and `second`.
pub fn separated_pair<Pa, Pb, Pc>(
    first: Pa,
    separator: Pb,
    second: Pc,
) -> (p: SeparatedPair<Pa, Pb, Pc>)
    ensures
        p.first == first,
        p.separator == separator,
        p.second == second,
{
    SeparatedPair { first, separator, second }
}

/// A pair of parsers is the sequence of the two, with both outputs.
impl<I: Stream, E, Pa: Parser<I, E>, Pb: Parser<I, E>> Parser<I, E> for (Pa, Pb) {
    type Output = (Pa::Output, Pb::Output);

    open spec fn inv(&self) -> bool {
        self.0.inv() && self.1.inv()
    }

    open spec fn parses(&self, start: I, end: I, result: PResult<(Pa::Output, Pb::Output), E>) -> bool {
        step(
            self.0,
            start,
            end,
            result,
            |m1: I, o1: Pa::Output|
                step(self.1, m1, end, result, |m2: I, o2: Pb::Output| done(m2, (o1, o2), end, result)),
        )
    }

    fn parse_next(&self, input: &mut I) -> (result: PResult<(Pa::Output, Pb::Output), E>) {
        let ghost start = *input;
        match self.0.parse_next(input) {
            Ok(o1) => {
                let ghost m1 = *input;
                let r2 = self.1.parse_next(input);
                proof {
                    lemma_reaches_trans(start, m1, *input);
                }
                match r2 {
                    Ok(o2) => Ok((o1, o2)),
                    Err(e) => Err(e),
                }
            },
            Err(e) => Err(e),
        }
    }
}

/// A triple of parsers is the sequence of the three, with all outputs.
impl<I: Stream, E, Pa: Parser<I, E>, Pb: Parser<I, E>, Pc: Parser<I, E>> Parser<I, E> for (Pa, Pb, Pc) {
    type Output = (Pa::Output, Pb::Output, Pc::Output);

    open spec fn inv(&self) -> bool {
        self.0.inv() && self.1.inv() && self.2.inv()
    }

    open spec fn parses(
        &self,
        start: I,
        end: I,
        result: PResult<(Pa::Output, Pb::Output, Pc::Output), E>,
    ) -> bool {
        step(
            self.0,
            start,
            end,
            result,
            |m1: I, o1: Pa::Output|
                step(
                    self.1,
                    m1,
                    end,
                    result,
                    |m2: I, o2: Pb::Output|
                        step(
                            self.2,
                            m2,
                            end,
                            result,
                            |m3: I, o3: Pc::Output| done(m3, (o1, o2, o3), end, result),
                        ),
                ),
        )
    }

    fn parse_next(&self, input: &mut I) -> (result: PResult<
        (Pa::Output, Pb::Output, Pc::Output),
        E,
    >) {
        let ghost start = *input;
        match self.0.parse_next(input) {
            Ok(o1) => {
                let ghost m1 = *input;
                let r2 = self.1.parse_next(input);
                proof {
                    lemma_reaches_trans(start, m1, *input);
                }
                match r2 {
                    Ok(o2) => {
                        let ghost m2 = *input;
                        let r3 = self.2.parse_next(input);
                        proof {
                            lemma_reaches_trans(start, m2, *input);
                        }
                        match r3 {
                            Ok(o3) => Ok((o1, o2, o3)),
                            Err(e) => Err(e),
                        }
                    },
                    Err(e) => Err(e),
                }
            },
            Err(e) => Err(e),
        }
    }
}

} // verus!

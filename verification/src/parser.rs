//! The parser contract and the adapters that transform a parser's output or
//! failure without changing what it consumes.
use crate::error::{ErrMode, ErrorKind, PResult, ParserError};
use crate::stream::{consumed, lemma_reaches_refl, lemma_reaches_trans, reaches, Cursor, Stream};
use vstd::pervasive::cloned;
use vstd::prelude::*;

verus! {

/// A parser: from a cursor to a value or a failure.
///
/// `parses(start, end, result)` is the relation between the cursor before the
/// call, the cursor after it and the result. A parser built from closures or
/// from other parsers inherits whatever freedom those have, so the contract is
/// a relation; for the primitives of this library it admits one outcome.
/// A call never moves the cursor backwards and never changes its mode.
pub trait Parser<I: Stream, E> {
    /// What a successful parse produces.
    type Output;

    /// What must hold of the parser's parts before it may be called.
    open spec fn inv(&self) -> bool {
        true
    }

    /// The outcomes this parser admits when called at `start`.
    open spec fn parses(&self, start: I, end: I, result: PResult<Self::Output, E>) -> bool {
        true
    }

    /// Parses at the cursor, advancing it past what was consumed.
    fn parse_next(&self, input: &mut I) -> (result: PResult<Self::Output, E>)
        requires
            self.inv(),
        ensures
            self.parses(*old(input), *final(input), result),
            reaches(*old(input), *final(input)),
    ;

    /// Parses a copy of the cursor and returns the rest beside the value. What
    /// was consumed and what remains add up to the input: no byte is invented
    /// or lost.
    fn parse_peek(&self, input: I) -> (result: Result<(I, Self::Output), ErrMode<E>>)
        requires
            self.inv(),
        ensures
            match result {
                Ok((rest, o)) => self.parses(input, rest, Ok(o)) && reaches(input, rest)
                    && consumed(input, rest) + rest.width() == input.width(),
                Err(e) => exists|end: I| #[trigger] self.parses(input, end, Err(e)),
            },
    {
        let mut cursor = input;
        match self.parse_next(&mut cursor) {
            Ok(o) => Ok((cursor, o)),
            Err(e) => Err(e),
        }
    }
}

/// A borrowed parser parses as the parser it borrows.
impl<I: Stream, E, P: Parser<I, E>> Parser<I, E> for &P {
    type Output = P::Output;

    open spec fn inv(&self) -> bool {
        (**self).inv()
    }

    open spec fn parses(&self, start: I, end: I, result: PResult<P::Output, E>) -> bool {
        (**self).parses(start, end, result)
    }

    fn parse_next(&self, input: &mut I) -> (result: PResult<P::Output, E>) {
        (**self).parse_next(input)
    }
}

/// `parser` with its output passed through `f`. See [`map`].
pub struct Mapped<P, F> {
    pub parser: P,
    pub f: F,
}

impl<I: Stream, E, O2, P: Parser<I, E>, F: Fn(P::Output) -> O2> Parser<I, E> for Mapped<P, F> {
    type Output = O2;

    open spec fn inv(&self) -> bool {
        &&& self.parser.inv()
        &&& forall|start: I, end: I, o: P::Output| #[trigger]
            self.parser.parses(start, end, Ok(o)) && reaches(start, end) ==> call_requires(self.f, (o,))
    }

    open spec fn parses(&self, start: I, end: I, result: PResult<O2, E>) -> bool {
        exists|inner: PResult<P::Output, E>| #[trigger]
            self.parser.parses(start, end, inner) && reaches(start, end) && match inner {
                Ok(o) => result is Ok && call_ensures(self.f, (o,), result->Ok_0),
                Err(e) => result == Err::<O2, ErrMode<E>>(e),
            }
    }

    fn parse_next(&self, input: &mut I) -> (result: PResult<O2, E>) {
        match self.parser.parse_next(input) {
            Ok(o) => Ok((self.f)(o)),
            Err(e) => Err(e),
        }
    }
}

/// Transforms the output of `parser` with `f`; failures pass unchanged.
pub fn map<P, F>(parser: P, f: F) -> (p: Mapped<P, F>)
    ensures
        p.parser == parser,
        p.f == f,
{
    Mapped { parser, f }
}

/// `parser` with its output tested by `filter`. See [`verify`].
pub struct Verify<P, F> {
    pub parser: P,
    pub filter: F,
}

impl<I: Stream, E: ParserError<I>, P: Parser<I, E>, F: Fn(&P::Output) -> bool> Parser<I, E> for Verify<
    P,
    F,
> {
    type Output = P::Output;

    open spec fn inv(&self) -> bool {
        &&& self.parser.inv()
        &&& forall|start: I, end: I, o: P::Output| #[trigger]
            self.parser.parses(start, end, Ok(o)) && reaches(start, end) ==> call_requires(self.filter, (&o,))
    }

    open spec fn parses(&self, start: I, end: I, result: PResult<P::Output, E>) -> bool {
        exists|mid: I, inner: PResult<P::Output, E>| #[trigger]
            self.parser.parses(start, mid, inner) && reaches(start, mid) && match inner {
                Ok(o) => exists|accepted: bool| #[trigger]
                    call_ensures(self.filter, (&o,), accepted) && if accepted {
                        end == mid && result == Ok::<P::Output, ErrMode<E>>(o)
                    } else {
                        rejected_at(start, ErrorKind::Verify, end, result)
                    },
                Err(e) => end == mid && result == Err::<P::Output, ErrMode<E>>(e),
            }
    }

    fn parse_next(&self, input: &mut I) -> (result: PResult<P::Output, E>) {
        let start = *input;
        match self.parser.parse_next(input) {
            Ok(o) => {
                if (self.filter)(&o) {
                    Ok(o)
                } else {
                    *input = start;
                    proof {
                        lemma_reaches_refl(start);
                    }
                    Err(ErrMode::from_error_kind(input, ErrorKind::Verify))
                }
            },
            Err(e) => Err(e),
        }
    }
}

/// The outcome "recoverable failure of `kind`, reported at `start`, cursor back at `start`".
pub open spec fn rejected_at<I: Stream, O, E: ParserError<I>>(
    start: I,
    kind: ErrorKind,
    end: I,
    result: PResult<O, E>,
) -> bool {
    &&& end == start
    &&& result matches Err(ErrMode::Backtrack(e))
    &&& E::is_from_error_kind(start, kind, e)
}

/// Succeeds with the output of `parser` where `filter` accepts it; where it
/// does not, rewinds and fails with `ErrorKind::Verify`.
pub fn verify<P, F>(
    parser: P,
    filter: F,
) -> (p: Verify<P, F>)
    ensures
        p.parser == parser,
        p.filter == filter,
{
    Verify { parser, filter }
}

/// `parser` with its output transformed and filtered at once. See [`verify_map`].
pub struct VerifyMap<P, F> {
    pub parser: P,
    pub f: F,
}

impl<I: Stream, E: ParserError<I>, O2, P: Parser<I, E>, F: Fn(P::Output) -> Option<O2>> Parser<
    I,
    E,
> for VerifyMap<P, F> {
    type Output = O2;

    open spec fn inv(&self) -> bool {
        &&& self.parser.inv()
        &&& forall|start: I, end: I, o: P::Output| #[trigger]
            self.parser.parses(start, end, Ok(o)) && reaches(start, end) ==> call_requires(self.f, (o,))
    }

    open spec fn parses(&self, start: I, end: I, result: PResult<O2, E>) -> bool {
        exists|mid: I, inner: PResult<P::Output, E>| #[trigger]
            self.parser.parses(start, mid, inner) && reaches(start, mid) && match inner {
                Ok(o) => exists|mapped: Option<O2>| #[trigger]
                    call_ensures(self.f, (o,), mapped) && match mapped {
                        Some(o2) => end == mid && result == Ok::<O2, ErrMode<E>>(o2),
                        None => rejected_at(start, ErrorKind::Verify, end, result),
                    },
                Err(e) => end == mid && result == Err::<O2, ErrMode<E>>(e),
            }
    }

    fn parse_next(&self, input: &mut I) -> (result: PResult<O2, E>) {
        let start = *input;
        match self.parser.parse_next(input) {
            Ok(o) => {
                match (self.f)(o) {
                    Some(o2) => Ok(o2),
                    None => {
                        *input = start;
                        proof {
                            lemma_reaches_refl(start);
                        }
                        Err(ErrMode::from_error_kind(input, ErrorKind::Verify))
                    },
                }
            },
            Err(e) => Err(e),
        }
    }
}

/// Succeeds with `f`'s value where `f` gives one for the output of `parser`;
/// where it gives none, rewinds and fails with `ErrorKind::Verify`.
pub fn verify_map<P, F>(
    parser: P,
    f: F,
) -> (p: VerifyMap<P, F>)
    ensures
        p.parser == parser,
        p.f == f,
{
    VerifyMap { parser, f }
}

/// `parser` followed by the parser that `f` builds from its output. See [`flat_map`].
pub struct FlatMap<P, F> {
    pub parser: P,
    pub f: F,
}

impl<I: Stream, E, P: Parser<I, E>, Pb: Parser<I, E>, F: Fn(P::Output) -> Pb> Parser<I, E> for FlatMap<
    P,
    F,
> {
    type Output = Pb::Output;

    open spec fn inv(&self) -> bool {
        &&& self.parser.inv()
        &&& forall|start: I, end: I, o: P::Output| #[trigger]
            self.parser.parses(start, end, Ok(o)) && reaches(start, end) ==> call_requires(self.f, (o,))
        &&& forall|o: P::Output, next: Pb| #[trigger] call_ensures(self.f, (o,), next) ==> next.inv()
    }

    open spec fn parses(&self, start: I, end: I, result: PResult<Pb::Output, E>) -> bool {
        exists|mid: I, inner: PResult<P::Output, E>| #[trigger]
            self.parser.parses(start, mid, inner) && reaches(start, mid) && match inner {
                Ok(o) => exists|next: Pb| #[trigger]
                    call_ensures(self.f, (o,), next) && next.parses(mid, end, result) && reaches(mid, end),
                Err(e) => end == mid && result == Err::<Pb::Output, ErrMode<E>>(e),
            }
    }

    fn parse_next(&self, input: &mut I) -> (result: PResult<Pb::Output, E>) {
        let ghost start = *input;
        match self.parser.parse_next(input) {
            Ok(o) => {
                let ghost mid = *input;
                let next = (self.f)(o);
                let r = next.parse_next(input);
                proof {
                    lemma_reaches_trans(start, mid, *input);
                }
                r
            },
            Err(e) => Err(e),
        }
    }
}

/// Runs `parser`, hands its output to `f`, and runs the parser that `f`
/// returns on what follows (a length, then that many items).
pub fn flat_map<P, F>(
    parser: P,
    f: F,
) -> (p: FlatMap<P, F>)
    ensures
        p.parser == parser,
        p.f == f,
{
    FlatMap { parser, f }
}

/// A [`FlatMap`] may be called where its first parser may be, where the
/// builder accepts every output of that parser, and where every parser that
/// the builder gives may be called.
pub proof fn lemma_flat_map_inv<I: Stream, E, P: Parser<I, E>, Pb: Parser<I, E>, F: Fn(P::Output) -> Pb>(
    both: FlatMap<P, F>,
)
    requires
        both.parser.inv(),
        forall|start: I, end: I, o: P::Output| #[trigger]
            both.parser.parses(start, end, Ok(o)) && reaches(start, end) ==> call_requires(both.f, (o,)),
        forall|o: P::Output, next: Pb| #[trigger] call_ensures(both.f, (o,), next) ==> next.inv(),
    ensures
        Parser::<I, E>::inv(&both),
{
}

/// What a [`FlatMap`] admits, spelled out: the failure of its first parser, or
/// what the parser built from the first output admits behind it.
pub proof fn lemma_flat_map_parses<
    I: Stream,
    E,
    P: Parser<I, E>,
    Pb: Parser<I, E>,
    F: Fn(P::Output) -> Pb,
>(both: FlatMap<P, F>, start: I, end: I, result: PResult<Pb::Output, E>)
    requires
        Parser::<I, E>::parses(&both, start, end, result),
    ensures
        exists|mid: I, inner: PResult<P::Output, E>| #[trigger]
            both.parser.parses(start, mid, inner) && reaches(start, mid) && match inner {
                Ok(o) => exists|next: Pb| #[trigger]
                    call_ensures(both.f, (o,), next) && next.parses(mid, end, result) && reaches(mid, end),
                Err(e) => end == mid && result == Err::<Pb::Output, ErrMode<E>>(e),
            },
{
}

/// `outer`, with `inner` run on the slice that `outer` took. See [`and_then`].
pub struct AndThen<P, G> {
    pub outer: P,
    pub inner: G,
}

impl<I: Stream, E, P: Parser<I, E, Output = I::Slice>, G: Parser<I, E>> Parser<I, E> for AndThen<P, G> {
    type Output = G::Output;

    open spec fn inv(&self) -> bool {
        self.outer.inv() && self.inner.inv()
    }

    open spec fn parses(&self, start: I, end: I, result: PResult<G::Output, E>) -> bool {
        exists|mid: I, taken: PResult<I::Slice, E>| #[trigger]
            self.outer.parses(start, mid, taken) && reaches(start, mid) && match taken {
                Ok(slice) => exists|sub: I, sub_end: I, inner: PResult<G::Output, E>|
                    sub.tokens() == I::slice_tokens(slice) && !sub.partial() && #[trigger]
                    self.inner.parses(sub, sub_end, inner) && reaches(sub, sub_end) && result == inner
                        && end == (if inner is Ok {
                        mid
                    } else {
                        start
                    }),
                Err(e) => end == mid && result == Err::<G::Output, ErrMode<E>>(e),
            }
    }

    fn parse_next(&self, input: &mut I) -> (result: PResult<G::Output, E>) {
        let start = *input;
        match self.outer.parse_next(input) {
            Ok(slice) => {
                let mut sub = I::over(slice);
                let r = self.inner.parse_next(&mut sub);
                if r.is_err() {
                    *input = start;
                    proof {
                        lemma_reaches_refl(start);
                    }
                }
                r
            },
            Err(e) => Err(e),
        }
    }
}

/// Runs `outer`, then runs `inner` in complete mode on the slice that `outer`
/// returned, as on a buffer of its own. Where `inner` fails the cursor is back
/// at the start.
pub fn and_then<P, G>(
    outer: P,
    inner: G,
) -> (p: AndThen<P, G>)
    ensures
        p.outer == outer,
        p.inner == inner,
{
    AndThen { outer, inner }
}

/// `parser` with its output replaced by a constant. See [`value`].
pub struct Value<P, O2> {
    pub parser: P,
    pub constant: O2,
}

impl<I: Stream, E, O2: Clone, P: Parser<I, E>> Parser<I, E> for Value<P, O2> {
    type Output = O2;

    open spec fn inv(&self) -> bool {
        self.parser.inv()
    }

    open spec fn parses(&self, start: I, end: I, result: PResult<O2, E>) -> bool {
        exists|inner: PResult<P::Output, E>| #[trigger]
            self.parser.parses(start, end, inner) && reaches(start, end) && match inner {
                Ok(_) => result is Ok && cloned(self.constant, result->Ok_0),
                Err(e) => result == Err::<O2, ErrMode<E>>(e),
            }
    }

    fn parse_next(&self, input: &mut I) -> (result: PResult<O2, E>) {
        match self.parser.parse_next(input) {
            Ok(_) => Ok(self.constant.clone()),
            Err(e) => Err(e),
        }
    }
}

/// Discards the output of `parser` and gives a clone of `constant` in its place.
pub fn value<P, O2>(parser: P, constant: O2) -> (p: Value<P, O2>)
    ensures
        p.parser == parser,
        p.constant == constant,
{
    Value { parser, constant }
}

/// `parser` with its output dropped. See [`void`].
pub struct Void<P> {
    pub parser: P,
}

impl<I: Stream, E, P: Parser<I, E>> Parser<I, E> for Void<P> {
    type Output = ();

    open spec fn inv(&self) -> bool {
        self.parser.inv()
    }

    open spec fn parses(&self, start: I, end: I, result: PResult<(), E>) -> bool {
        exists|inner: PResult<P::Output, E>| #[trigger]
            self.parser.parses(start, end, inner) && reaches(start, end) && match inner {
                Ok(_) => result == Ok::<(), ErrMode<E>>(()),
                Err(e) => result == Err::<(), ErrMode<E>>(e),
            }
    }

    fn parse_next(&self, input: &mut I) -> (result: PResult<(), E>) {
        match self.parser.parse_next(input) {
            Ok(_) => Ok(()),
            Err(e) => Err(e),
        }
    }
}

/// Discards the output of `parser`.
pub fn void<P>(parser: P) -> (p: Void<P>)
    ensures
        p.parser == parser,
{
    Void { parser }
}

/// `parser` with the consumed input as its output. See [`taken`].
pub struct Taken<P> {
    pub parser: P,
}

impl<I: Stream, E, P: Parser<I, E>> Parser<I, E> for Taken<P> {
    type Output = I::Slice;

    open spec fn inv(&self) -> bool {
        self.parser.inv()
    }

    open spec fn parses(&self, start: I, end: I, result: PResult<I::Slice, E>) -> bool {
        exists|inner: PResult<P::Output, E>| #[trigger]
            self.parser.parses(start, end, inner) && reaches(start, end) && match inner {
                Ok(_) => result is Ok && I::slice_tokens(result->Ok_0) == span(start, end),
                Err(e) => result == Err::<I::Slice, ErrMode<E>>(e),
            }
    }

    fn parse_next(&self, input: &mut I) -> (result: PResult<I::Slice, E>) {
        let start = *input;
        match self.parser.parse_next(input) {
            Ok(_) => Ok(start.slice_to(input)),
            Err(e) => Err(e),
        }
    }
}

/// The tokens consumed between `start` and a later position `end`.
pub open spec fn span<I: Cursor>(start: I, end: I) -> Seq<I::Token> {
    start.tokens().take(start.tokens().len() - end.tokens().len())
}

/// Gives the input that `parser` consumed in place of its output.
pub fn taken<P>(parser: P) -> (p: Taken<P>)
    ensures
        p.parser == parser,
{
    Taken { parser }
}

/// `parser` with the consumed input beside its output. See [`with_taken`].
pub struct WithTaken<P> {
    pub parser: P,
}

impl<I: Stream, E, P: Parser<I, E>> Parser<I, E> for WithTaken<P> {
    type Output = (P::Output, I::Slice);

    open spec fn inv(&self) -> bool {
        self.parser.inv()
    }

    open spec fn parses(&self, start: I, end: I, result: PResult<(P::Output, I::Slice), E>) -> bool {
        exists|inner: PResult<P::Output, E>| #[trigger]
            self.parser.parses(start, end, inner) && reaches(start, end) && match inner {
                Ok(o) => result is Ok && (result->Ok_0).0 == o && I::slice_tokens((result->Ok_0).1)
                    == span(start, end),
                Err(e) => result == Err::<(P::Output, I::Slice), ErrMode<E>>(e),
            }
    }

    fn parse_next(&self, input: &mut I) -> (result: PResult<(P::Output, I::Slice), E>) {
        let start = *input;
        match self.parser.parse_next(input) {
            Ok(o) => Ok((o, start.slice_to(input))),
            Err(e) => Err(e),
        }
    }
}

/// Gives the output of `parser` together with the input it consumed.
pub fn with_taken<P>(parser: P) -> (p: WithTaken<P>)
    ensures
        p.parser == parser,
{
    WithTaken { parser }
}

/// `parser` with its output converted. See [`output_into`].
pub struct OutputInto<P, O2> {
    pub parser: P,
    pub target: core::marker::PhantomData<O2>,
}

impl<I: Stream, E, O2, P: Parser<I, E>> Parser<I, E> for OutputInto<P, O2> where P::Output: Into<O2> {
    type Output = O2;

    open spec fn inv(&self) -> bool {
        self.parser.inv()
    }

    open spec fn parses(&self, start: I, end: I, result: PResult<O2, E>) -> bool {
        exists|inner: PResult<P::Output, E>| #[trigger]
            self.parser.parses(start, end, inner) && reaches(start, end) && match inner {
                Ok(o) => result is Ok && call_ensures(
                    <P::Output as Into<O2>>::into,
                    (o,),
                    result->Ok_0,
                ),
                Err(e) => result == Err::<O2, ErrMode<E>>(e),
            }
    }

    fn parse_next(&self, input: &mut I) -> (result: PResult<O2, E>) {
        match self.parser.parse_next(input) {
            Ok(o) => Ok(o.into()),
            Err(e) => Err(e),
        }
    }
}

/// Converts the output of `parser` with `Into`.
pub fn output_into<P, O2>(parser: P) -> (p: OutputInto<P, O2>)
    ensures
        p.parser == parser,
{
    OutputInto { parser, target: core::marker::PhantomData }
}

/// `parser` with failures committed. See [`cut_err`].
pub struct CutErr<P> {
    pub parser: P,
}

impl<I: Stream, E, P: Parser<I, E>> Parser<I, E> for CutErr<P> {
    type Output = P::Output;

    open spec fn inv(&self) -> bool {
        self.parser.inv()
    }

    open spec fn parses(&self, start: I, end: I, result: PResult<P::Output, E>) -> bool {
        exists|inner: PResult<P::Output, E>| #[trigger]
            self.parser.parses(start, end, inner) && reaches(start, end) && match inner {
                Ok(o) => result == Ok::<P::Output, ErrMode<E>>(o),
                Err(e) => result == Err::<P::Output, ErrMode<E>>(e.spec_cut()),
            }
    }

    fn parse_next(&self, input: &mut I) -> (result: PResult<P::Output, E>) {
        match self.parser.parse_next(input) {
            Ok(o) => Ok(o),
            Err(e) => Err(e.cut()),
        }
    }
}

/// Turns a recoverable failure of `parser` into an unrecoverable one: past
/// this point no sibling alternative is tried.
pub fn cut_err<P>(parser: P) -> (p: CutErr<P>)
    ensures
        p.parser == parser,
{
    CutErr { parser }
}

/// `parser` with cuts caught. See [`backtrack_err`].
pub struct BacktrackErr<P> {
    pub parser: P,
}

impl<I: Stream, E, P: Parser<I, E>> Parser<I, E> for BacktrackErr<P> {
    type Output = P::Output;

    open spec fn inv(&self) -> bool {
        self.parser.inv()
    }

    open spec fn parses(&self, start: I, end: I, result: PResult<P::Output, E>) -> bool {
        exists|inner: PResult<P::Output, E>| #[trigger]
            self.parser.parses(start, end, inner) && reaches(start, end) && match inner {
                Ok(o) => result == Ok::<P::Output, ErrMode<E>>(o),
                Err(e) => result == Err::<P::Output, ErrMode<E>>(e.spec_backtrack()),
            }
    }

    fn parse_next(&self, input: &mut I) -> (result: PResult<P::Output, E>) {
        match self.parser.parse_next(input) {
            Ok(o) => Ok(o),
            Err(e) => Err(e.backtrack()),
        }
    }
}

/// Catches a cut: an unrecoverable failure of `parser` becomes recoverable
/// again. This is the only place where a `Cut` turns back into a `Backtrack`.
pub fn backtrack_err<P>(parser: P) -> (p: BacktrackErr<P>)
    ensures
        p.parser == parser,
{
    BacktrackErr { parser }
}

/// `parser` for data known to be whole. See [`complete_err`].
pub struct CompleteErr<P> {
    pub parser: P,
}

impl<I: Stream, E: ParserError<I>, P: Parser<I, E>> Parser<I, E> for CompleteErr<P> {
    type Output = P::Output;

    open spec fn inv(&self) -> bool {
        self.parser.inv()
    }

    open spec fn parses(&self, start: I, end: I, result: PResult<P::Output, E>) -> bool {
        exists|mid: I, inner: PResult<P::Output, E>| #[trigger]
            self.parser.parses(start, mid, inner) && reaches(start, mid) && match inner {
                Err(ErrMode::Incomplete(_)) => rejected_at(start, ErrorKind::Complete, end, result),
                _ => end == mid && result == inner,
            }
    }

    fn parse_next(&self, input: &mut I) -> (result: PResult<P::Output, E>) {
        let start = *input;
        match self.parser.parse_next(input) {
            Err(ErrMode::Incomplete(_)) => {
                *input = start;
                proof {
                    lemma_reaches_refl(start);
                }
                Err(ErrMode::from_error_kind(input, ErrorKind::Complete))
            },
            other => other,
        }
    }
}

/// Treats a request for more input as a failure: where `parser` answers
/// `Incomplete`, rewinds and fails with `ErrorKind::Complete`.
pub fn complete_err<P>(parser: P) -> (p: CompleteErr<P>)
    ensures
        p.parser == parser,
{
    CompleteErr { parser }
}


/// The mode with its payload converted.
pub open spec fn payload_into<E: Into<E2>, E2>(before: ErrMode<E>, after: ErrMode<E2>) -> bool {
    match before {
        ErrMode::Incomplete(needed) => after == ErrMode::<E2>::Incomplete(needed),
        ErrMode::Backtrack(e) => (after matches ErrMode::Backtrack(e2) && call_ensures(
            <E as Into<E2>>::into,
            (e,),
            e2,
        )),
        ErrMode::Cut(e) => (after matches ErrMode::Cut(e2) && call_ensures(
            <E as Into<E2>>::into,
            (e,),
            e2,
        )),
    }
}

/// `parser` with its payload converted. See [`err_into`].
pub struct ErrInto<P, E> {
    pub parser: P,
    pub source: core::marker::PhantomData<E>,
}

impl<I: Stream, E: Into<E2>, E2, P: Parser<I, E>> Parser<I, E2> for ErrInto<P, E> {
    type Output = P::Output;

    open spec fn inv(&self) -> bool {
        self.parser.inv()
    }

    open spec fn parses(&self, start: I, end: I, result: PResult<P::Output, E2>) -> bool {
        exists|inner: PResult<P::Output, E>| #[trigger]
            self.parser.parses(start, end, inner) && reaches(start, end) && match inner {
                Ok(o) => result == Ok::<P::Output, ErrMode<E2>>(o),
                Err(e) => result is Err && payload_into(e, result->Err_0),
            }
    }

    fn parse_next(&self, input: &mut I) -> (result: PResult<P::Output, E2>) {
        match self.parser.parse_next(input) {
            Ok(o) => Ok(o),
            Err(ErrMode::Incomplete(needed)) => Err(ErrMode::Incomplete(needed)),
            Err(ErrMode::Backtrack(e)) => Err(ErrMode::Backtrack(e.into())),
            Err(ErrMode::Cut(e)) => Err(ErrMode::Cut(e.into())),
        }
    }
}

/// Converts the payload of a failure of `parser` with `Into`; the mode of the
/// failure stays.
pub fn err_into<P, E>(parser: P) -> (p: ErrInto<P, E>)
    ensures
        p.parser == parser,
{
    ErrInto { parser, source: core::marker::PhantomData }
}

} // verus!

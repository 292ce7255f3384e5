//! The three-way failure model: recoverable failure, unrecoverable failure and
//! the streaming request for more input, together with the error payloads that
//! travel inside them.
use crate::stream::Cursor;
use vstd::prelude::*;

verus! {

/// How much more input a streaming parse asks for.
#[derive(Clone, Copy, Debug, PartialEq, Eq)]
pub enum Needed {
    /// At least one more byte, the exact amount is not known.
    Unknown,
    /// Exactly this many more bytes. The amount is never zero when built by [`Needed::new`].
    Size(usize),
}

impl Needed {
    /// What `Needed::new(n)` is: an unknown amount for zero, the size otherwise.
    pub open spec fn spec_new(n: nat) -> Needed {
        if n == 0 {
            Needed::Unknown
        } else {
            Needed::Size(n as usize)
        }
    }

    /// A request for `n` more bytes; zero bytes is no information, so it is `Unknown`.
    pub fn new(n: usize) -> (needed: Needed)
        ensures
            needed == Needed::spec_new(n as nat),
    {
        if n == 0 {
            Needed::Unknown
        } else {
            Needed::Size(n)
        }
    }

    /// Whether the amount is known.
    pub fn is_known(&self) -> (known: bool)
        ensures
            known == (*self is Size),
    {
        match self {
            Needed::Unknown => false,
            Needed::Size(_) => true,
        }
    }
}

/// Which primitive or combinator reported a failure.
#[derive(Clone, Copy, Debug, PartialEq, Eq, Hash)]
pub enum ErrorKind {
    Assert,
    Token,
    Tag,
    Literal,
    Alt,
    Repeat,
    Eof,
    Slice,
    Complete,
    Not,
    Verify,
    Fail,
    OneOf,
    Alpha,
    Digit,
    HexDigit,
    OctDigit,
    AlphaNumeric,
    Space,
    MultiSpace,
    CrLf,
    Escaped,
    EscapedTransform,
}

/// The outcome of a parse that did not produce a value.
#[derive(Clone, Debug, PartialEq, Eq)]
pub enum ErrMode<E> {
    /// Streaming only: not a failure, more input is required before a verdict.
    Incomplete(Needed),
    /// This path failed; a sibling alternative may still succeed.
    Backtrack(E),
    /// This path failed and no sibling alternative is to be tried.
    Cut(E),
}

/// What every parser returns.
pub type PResult<O, E> = Result<O, ErrMode<E>>;

impl<E> ErrMode<E> {
    /// The payload, when there is one.
    pub open spec fn payload(self) -> Option<E> {
        match self {
            ErrMode::Incomplete(_) => None,
            ErrMode::Backtrack(e) => Some(e),
            ErrMode::Cut(e) => Some(e),
        }
    }

    /// The mode after committing: a recoverable failure becomes unrecoverable,
    /// everything else stays.
    pub open spec fn spec_cut(self) -> ErrMode<E> {
        match self {
            ErrMode::Backtrack(e) => ErrMode::Cut(e),
            other => other,
        }
    }

    /// The mode after catching a cut: an unrecoverable failure becomes recoverable,
    /// everything else stays.
    pub open spec fn spec_backtrack(self) -> ErrMode<E> {
        match self {
            ErrMode::Cut(e) => ErrMode::Backtrack(e),
            other => other,
        }
    }

    /// Whether this is the streaming request for more input.
    pub fn is_incomplete(&self) -> (b: bool)
        ensures
            b == (*self is Incomplete),
    {
        match self {
            ErrMode::Incomplete(_) => true,
            _ => false,
        }
    }

    /// Whether a sibling alternative may be tried.
    pub fn is_backtrack(&self) -> (b: bool)
        ensures
            b == (*self is Backtrack),
    {
        match self {
            ErrMode::Backtrack(_) => true,
            _ => false,
        }
    }

    /// Commits: `Backtrack` becomes `Cut`.
    pub fn cut(self) -> (r: ErrMode<E>)
        ensures
            r == self.spec_cut(),
    {
        match self {
            ErrMode::Backtrack(e) => ErrMode::Cut(e),
            other => other,
        }
    }

    /// Catches a cut: `Cut` becomes `Backtrack`.
    pub fn backtrack(self) -> (r: ErrMode<E>)
        ensures
            r == self.spec_backtrack(),
    {
        match self {
            ErrMode::Cut(e) => ErrMode::Backtrack(e),
            other => other,
        }
    }

    /// The payload of a failure, nothing for `Incomplete`.
    pub fn into_inner(self) -> (r: Option<E>)
        ensures
            r == self.payload(),
    {
        match self {
            ErrMode::Incomplete(_) => None,
            ErrMode::Backtrack(e) => Some(e),
            ErrMode::Cut(e) => Some(e),
        }
    }

    /// A recoverable failure of the given kind at the given position.
    pub fn from_error_kind<I: Cursor>(input: &I, kind: ErrorKind) -> (r: ErrMode<E>) where
        E: ParserError<I>,

        ensures
            r matches ErrMode::Backtrack(e) && E::is_from_error_kind(*input, kind, e),
    {
        ErrMode::Backtrack(E::from_error_kind(input, kind))
    }

    /// The unrecoverable failure that a broken usage rule produces (a repetition
    /// whose inner parser consumed nothing, a descending range).
    pub fn assertion<I: Cursor>(input: &I) -> (r: ErrMode<E>) where E: ParserError<I>
        ensures
            r matches ErrMode::Cut(e) && E::is_from_error_kind(*input, ErrorKind::Assert, e),
    {
        ErrMode::Cut(E::from_error_kind(input, ErrorKind::Assert))
    }

    /// Adds context to the payload, keeping the mode; `Incomplete` passes unchanged.
    pub fn append<I: Cursor>(self, input: &I, start: &I, kind: ErrorKind) -> (r: ErrMode<E>) where
        E: ParserError<I>,

        ensures
            appended_mode(self, *input, *start, kind, r),
    {
        match self {
            ErrMode::Incomplete(n) => ErrMode::Incomplete(n),
            ErrMode::Backtrack(e) => ErrMode::Backtrack(e.append(input, start, kind)),
            ErrMode::Cut(e) => ErrMode::Cut(e.append(input, start, kind)),
        }
    }
}

/// `after` is `before` with the context `(input, start, kind)` added to its payload.
pub open spec fn appended_mode<I: Cursor, E: ParserError<I>>(
    before: ErrMode<E>,
    input: I,
    start: I,
    kind: ErrorKind,
    after: ErrMode<E>,
) -> bool {
    match before {
        ErrMode::Incomplete(n) => after == ErrMode::<E>::Incomplete(n),
        ErrMode::Backtrack(e) => (after matches ErrMode::Backtrack(e2) && E::is_append(
            e,
            input,
            start,
            kind,
            e2,
        )),
        ErrMode::Cut(e) => (after matches ErrMode::Cut(e2) && E::is_append(e, input, start, kind, e2)),
    }
}

/// The capability every error payload has: it can be made from a position and a
/// kind, it can take further context as it travels outward, and two payloads of
/// sibling alternatives can be merged.
///
/// The three relations say which results an implementation may give. An
/// implementation that leaves them at their defaults promises nothing about its
/// values, which is all the combinators need.
pub trait ParserError<I: Cursor>: Sized {
    /// `e` is a payload that `from_error_kind(input, kind)` may return.
    open spec fn is_from_error_kind(input: I, kind: ErrorKind, e: Self) -> bool {
        true
    }

    /// `after` is a payload that `before.append(input, start, kind)` may return.
    open spec fn is_append(before: Self, input: I, start: I, kind: ErrorKind, after: Self) -> bool {
        true
    }

    /// `merged` is a payload that `first.or(second)` may return.
    open spec fn is_or(first: Self, second: Self, merged: Self) -> bool {
        true
    }

    /// A payload for a failure of `kind` at `input`.
    fn from_error_kind(input: &I, kind: ErrorKind) -> (e: Self)
        ensures
            Self::is_from_error_kind(*input, kind, e),
    ;

    /// Adds the context of an enclosing combinator: where it stands now, where it
    /// started, and its kind.
    fn append(self, input: &I, start: &I, kind: ErrorKind) -> (e: Self)
        ensures
            Self::is_append(self, *input, *start, kind, e),
    ;

    /// Merges the payloads of two alternatives that both failed.
    fn or(self, other: Self) -> (e: Self)
        ensures
            Self::is_or(self, other, e),
    ;
}

/// The payload without information.
impl<I: Cursor> ParserError<I> for () {
    open spec fn is_from_error_kind(input: I, kind: ErrorKind, e: ()) -> bool {
        true
    }

    open spec fn is_append(before: (), input: I, start: I, kind: ErrorKind, after: ()) -> bool {
        true
    }

    open spec fn is_or(first: (), second: (), merged: ()) -> bool {
        true
    }

    fn from_error_kind(input: &I, kind: ErrorKind) -> (e: ()) {
        ()
    }

    fn append(self, input: &I, start: &I, kind: ErrorKind) -> (e: ()) {
        ()
    }

    fn or(self, other: ()) -> (e: ()) {
        ()
    }
}

/// The payload that keeps the position and the kind of the innermost failure.
#[derive(Clone, Copy, Debug, PartialEq, Eq)]
pub struct InputError<I> {
    /// The cursor at the point of failure.
    pub input: I,
    /// The primitive that failed.
    pub kind: ErrorKind,
}

impl<I> InputError<I> {
    /// The payload for a failure of `kind` at `input`.
    pub fn new(input: I, kind: ErrorKind) -> (e: InputError<I>)
        ensures
            e == (InputError { input, kind }),
    {
        InputError { input, kind }
    }
}

impl<I: Cursor> ParserError<I> for InputError<I> {
    open spec fn is_from_error_kind(input: I, kind: ErrorKind, e: InputError<I>) -> bool {
        e == (InputError { input, kind })
    }

    /// Context added later is dropped: the innermost failure is what is reported.
    open spec fn is_append(
        before: InputError<I>,
        input: I,
        start: I,
        kind: ErrorKind,
        after: InputError<I>,
    ) -> bool {
        after == before
    }

    /// Of two alternatives the later one is kept.
    open spec fn is_or(first: InputError<I>, second: InputError<I>, merged: InputError<I>) -> bool {
        merged == second
    }

    fn from_error_kind(input: &I, kind: ErrorKind) -> (e: InputError<I>) {
        InputError { input: *input, kind }
    }

    fn append(self, input: &I, start: &I, kind: ErrorKind) -> (e: InputError<I>) {
        self
    }

    fn or(self, other: InputError<I>) -> (e: InputError<I>) {
        other
    }
}

/// One entry of an accumulated context: a position and the kind reported there.
#[derive(Clone, Copy, Debug, PartialEq, Eq)]
pub struct Frame<I> {
    pub input: I,
    pub kind: ErrorKind,
}

/// The payload that stacks every context it is given, innermost first.
#[derive(Clone, Debug, PartialEq, Eq)]
pub struct ErrorStack<I> {
    pub frames: Vec<Frame<I>>,
}

impl<I: Cursor> ParserError<I> for ErrorStack<I> {
    open spec fn is_from_error_kind(input: I, kind: ErrorKind, e: ErrorStack<I>) -> bool {
        e.frames@ == seq![Frame { input, kind }]
    }

    open spec fn is_append(
        before: ErrorStack<I>,
        input: I,
        start: I,
        kind: ErrorKind,
        after: ErrorStack<I>,
    ) -> bool {
        after.frames@ == before.frames@.push(Frame { input, kind })
    }

    open spec fn is_or(first: ErrorStack<I>, second: ErrorStack<I>, merged: ErrorStack<I>) -> bool {
        merged == second
    }

    fn from_error_kind(input: &I, kind: ErrorKind) -> (e: ErrorStack<I>) {
        let mut frames = Vec::new();
        frames.push(Frame { input: *input, kind });
        ErrorStack { frames }
    }

    fn append(self, input: &I, start: &I, kind: ErrorKind) -> (e: ErrorStack<I>) {
        let mut frames = self.frames;
        frames.push(Frame { input: *input, kind });
        ErrorStack { frames }
    }

    fn or(self, other: ErrorStack<I>) -> (e: ErrorStack<I>) {
        other
    }
}

} // verus!

//! The cursor abstraction: what every input must offer, and the cursor over bytes.
use crate::error::Needed;
use vstd::prelude::*;

verus! {

/// A cursor over the unconsumed rest of an input, complete or streaming.
///
/// A cursor is a small copyable value; a copy of it is a checkpoint. Contracts
/// speak of a cursor through three views: the tokens still to come, the bytes
/// they occupy, and the mode.
pub trait Cursor: Copy + Sized {
    /// The unit a parser consumes: a byte, or a whole codepoint of text.
    type Token: Copy;

    /// A contiguous run of tokens taken from the input.
    type Slice: Copy;

    /// The tokens not yet consumed.
    spec fn tokens(&self) -> Seq<Self::Token>;

    /// The number of bytes not yet consumed.
    spec fn width(&self) -> nat;

    /// Whether the input may be truncated (streaming mode).
    spec fn partial(&self) -> bool;

    /// The tokens of a slice.
    spec fn slice_tokens(slice: Self::Slice) -> Seq<Self::Token>;

    /// What a streaming parse asks for when `missing` tokens are not there yet.
    spec fn shortfall(missing: nat) -> Needed;
}

/// A snapshot of a cursor's position. It is a copy of the cursor, and means
/// something only for the input that the cursor was over.
#[derive(Clone, Copy, Debug, PartialEq, Eq)]
pub struct Checkpoint<I> {
    pub position: I,
}

/// `end` is `start` after consuming some of its tokens: the same mode, a
/// suffix of the tokens, and fewer bytes exactly when tokens were consumed.
pub open spec fn reaches<I: Cursor>(start: I, end: I) -> bool {
    &&& end.partial() == start.partial()
    &&& end.tokens().len() <= start.tokens().len()
    &&& end.tokens() == start.tokens().skip(start.tokens().len() - end.tokens().len())
    &&& end.width() <= start.width()
    &&& (end.width() == start.width() ==> end.tokens().len() == start.tokens().len())
}

/// The number of bytes consumed between a cursor and a later position of it.
pub open spec fn consumed<I: Cursor>(start: I, end: I) -> nat {
    (start.width() - end.width()) as nat
}

/// The operations of a cursor. Each consumes whole tokens only, and each says
/// over the views of [`Cursor`] what it returns and where it leaves the cursor.
pub trait Stream: Cursor {
    /// Whether end of buffer is not end of data.
    fn is_partial(&self) -> (b: bool)
        ensures
            b == self.partial(),
    ;

    /// The number of bytes left.
    fn eof_offset(&self) -> (n: usize)
        ensures
            n == self.width(),
            n == 0 <==> self.tokens().len() == 0,
    ;

    /// The next token, without consuming it.
    fn peek_token(&self) -> (t: Option<Self::Token>)
        ensures
            t == if self.tokens().len() == 0 {
                None
            } else {
                Some(self.tokens()[0])
            },
    ;

    /// Consumes one whole token.
    fn next_token(&mut self) -> (t: Option<Self::Token>)
        ensures
            old(self).tokens().len() == 0 ==> t is None && *final(self) == *old(self),
            old(self).tokens().len() > 0 ==> t == Some(old(self).tokens()[0]),
            old(self).tokens().len() > 0 ==> final(self).tokens() == old(self).tokens().skip(1),
            old(self).tokens().len() > 0 ==> final(self).width() < old(self).width(),
            reaches(*old(self), *final(self)),
    ;

    /// Consumes `count` tokens and returns them, or says what is missing and
    /// leaves the cursor where it was.
    fn next_slice(&mut self, count: usize) -> (r: Result<Self::Slice, Needed>)
        ensures
            count <= old(self).tokens().len() ==> (r matches Ok(slice) && Self::slice_tokens(slice)
                == old(self).tokens().take(count as int)),
            count <= old(self).tokens().len() ==> final(self).tokens() == old(self).tokens().skip(
                count as int,
            ),
            count > old(self).tokens().len() ==> r == Err::<Self::Slice, Needed>(
                Self::shortfall((count - old(self).tokens().len()) as nat),
            ) && *final(self) == *old(self),
            reaches(*old(self), *final(self)),
    ;

    /// The tokens between this cursor and a later position of it.
    fn slice_to(&self, end: &Self) -> (slice: Self::Slice)
        requires
            reaches(*self, *end),
        ensures
            Self::slice_tokens(slice) == self.tokens().take(
                self.tokens().len() - end.tokens().len(),
            ),
    ;

    /// Consumes everything that is left.
    fn finish(&mut self) -> (slice: Self::Slice)
        ensures
            Self::slice_tokens(slice) == old(self).tokens(),
            final(self).tokens().len() == 0,
            reaches(*old(self), *final(self)),
    ;

    /// A complete-mode cursor over a slice taken earlier.
    fn over(slice: Self::Slice) -> (cursor: Self)
        ensures
            cursor.tokens() == Self::slice_tokens(slice),
            !cursor.partial(),
    ;

    /// A snapshot of the position, to rewind to.
    fn checkpoint(&self) -> (saved: Checkpoint<Self>)
        ensures
            saved.position == *self,
    {
        Checkpoint { position: *self }
    }

    /// Rewinds to a snapshot taken from this cursor.
    fn reset(&mut self, saved: &Checkpoint<Self>)
        ensures
            *final(self) == saved.position,
    {
        *self = saved.position;
    }

    /// The exact number of bytes consumed since `start`.
    fn offset_from(&self, start: &Self) -> (n: usize)
        requires
            reaches(*start, *self),
        ensures
            n == consumed(*start, *self),
            n + self.width() == start.width(),
    {
        start.eof_offset() - self.eof_offset()
    }

    /// The exact number of bytes between this cursor and a later position `end`.
    fn offset_to(&self, end: &Self) -> (n: usize)
        requires
            reaches(*self, *end),
        ensures
            n == consumed(*self, *end),
            n + end.width() == self.width(),
    {
        self.eof_offset() - end.eof_offset()
    }
}

/// Every cursor reaches itself.
pub proof fn lemma_reaches_refl<I: Cursor>(a: I)
    ensures
        reaches(a, a),
{
    assert(a.tokens().skip(0) =~= a.tokens());
}

/// Reaching is transitive: positions only move forward.
pub proof fn lemma_reaches_trans<I: Cursor>(a: I, b: I, c: I)
    requires
        reaches(a, b),
        reaches(b, c),
    ensures
        reaches(a, c),
{
    let ka = a.tokens().len() - b.tokens().len();
    let kb = b.tokens().len() - c.tokens().len();
    assert(a.tokens().skip(ka).skip(kb) =~= a.tokens().skip(ka + kb));
}

/// A cursor over bytes.
#[derive(Clone, Copy, Debug, PartialEq, Eq)]
pub struct Bytes<'a> {
    /// The bytes not yet consumed.
    pub input: &'a [u8],
    /// Whether more bytes may follow the buffer.
    pub partial: bool,
}

impl<'a> Bytes<'a> {
    /// A cursor over a buffer that holds all of the data.
    pub fn new(input: &'a [u8]) -> (cursor: Bytes<'a>)
        ensures
            cursor.input@ == input@,
            !cursor.partial,
            cursor == (Bytes { input, partial: false }),
    {
        Bytes { input, partial: false }
    }

    /// A cursor over a buffer that may be a truncated prefix of the data.
    pub fn streaming(input: &'a [u8]) -> (cursor: Bytes<'a>)
        ensures
            cursor == (Bytes { input, partial: true }),
    {
        Bytes { input, partial: true }
    }

    /// The bytes not yet consumed.
    pub fn rest(&self) -> (r: &'a [u8])
        ensures
            r == self.input,
    {
        self.input
    }
}

impl<'a> Cursor for Bytes<'a> {
    type Token = u8;

    type Slice = &'a [u8];

    open spec fn tokens(&self) -> Seq<u8> {
        self.input@
    }

    open spec fn width(&self) -> nat {
        self.input@.len()
    }

    open spec fn partial(&self) -> bool {
        self.partial
    }

    open spec fn slice_tokens(slice: &'a [u8]) -> Seq<u8> {
        slice@
    }

    /// Bytes are counted exactly.
    open spec fn shortfall(missing: nat) -> Needed {
        Needed::spec_new(missing)
    }
}

impl<'a> Stream for Bytes<'a> {
    fn is_partial(&self) -> (b: bool) {
        self.partial
    }

    fn eof_offset(&self) -> (n: usize) {
        self.input.len()
    }

    fn peek_token(&self) -> (t: Option<u8>) {
        if self.input.len() == 0 {
            None
        } else {
            Some(self.input[0])
        }
    }

    fn next_token(&mut self) -> (t: Option<u8>) {
        if self.input.len() == 0 {
            assert(self.input@.skip(0) =~= self.input@);
            None
        } else {
            let b = self.input[0];
            let (_, rest) = self.input.split_at(1);
            self.input = rest;
            Some(b)
        }
    }

    fn next_slice(&mut self, count: usize) -> (r: Result<&'a [u8], Needed>) {
        if count <= self.input.len() {
            let (head, rest) = self.input.split_at(count);
            self.input = rest;
            Ok(head)
        } else {
            assert(self.input@.skip(0) =~= self.input@);
            Err(Needed::new(count - self.input.len()))
        }
    }

    fn slice_to(&self, end: &Bytes<'a>) -> (slice: &'a [u8]) {
        let (head, _) = self.input.split_at(self.input.len() - end.input.len());
        head
    }

    fn finish(&mut self) -> (slice: &'a [u8]) {
        let (head, rest) = self.input.split_at(self.input.len());
        self.input = rest;
        head
    }

    fn over(slice: &'a [u8]) -> (cursor: Bytes<'a>) {
        Bytes { input: slice, partial: false }
    }
}

} // verus!

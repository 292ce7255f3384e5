//! The cursor over text. Its tokens are codepoints: every operation consumes
//! whole codepoints, never a part of an encoding.
use crate::chars::utf8_width;
use crate::error::Needed;
use crate::stream::{Cursor, Stream};
use vstd::prelude::*;
use vstd::string::StringSliceAdditionalSpecFns;
use vstd::utf8::{encode_scalar, encode_utf8, is_char_boundary};

verus! {

/// The encoding of a concatenation is the concatenation of the encodings.
pub proof fn lemma_encode_concat(a: Seq<char>, b: Seq<char>)
    ensures
        encode_utf8(a + b) == encode_utf8(a) + encode_utf8(b),
    decreases a.len(),
{
    if a.len() == 0 {
        assert(a + b =~= b);
        assert(encode_utf8(a) + encode_utf8(b) =~= encode_utf8(b));
    } else {
        lemma_encode_concat(a.drop_first(), b);
        assert((a + b).drop_first() =~= a.drop_first() + b);
        assert((a + b)[0] == a[0]);
        assert(encode_utf8(a + b) =~= encode_utf8(a) + encode_utf8(b));
    }
}

/// Every character takes at least one byte.
pub proof fn lemma_encode_len(a: Seq<char>)
    ensures
        encode_utf8(a).len() >= a.len(),
    decreases a.len(),
{
    if a.len() > 0 {
        vstd::utf8::char_is_scalar(a[0]);
        lemma_encode_len(a.drop_first());
    }
}

/// In the encoding of `a + b`, the place where `b` begins is a character boundary.
pub proof fn lemma_boundary(a: Seq<char>, b: Seq<char>)
    ensures
        is_char_boundary(encode_utf8(a + b), encode_utf8(a).len() as int),
    decreases a.len(),
{
    broadcast use vstd::utf8::encode_utf8_valid_utf8;

    let bytes = encode_utf8(a + b);
    if a.len() == 0 {
    } else {
        let all = a + b;
        vstd::utf8::encode_utf8_first_scalar(all);
        vstd::utf8::char_is_scalar(a[0]);
        assert(all[0] == a[0]);
        assert(all.drop_first() =~= a.drop_first() + b);
        assert(vstd::utf8::pop_first_scalar(bytes) =~= encode_utf8(all.drop_first()));
        lemma_boundary(a.drop_first(), b);
        lemma_encode_concat(a, b);
        assert(encode_utf8(a).len() == encode_scalar(a[0] as u32).len() + encode_utf8(
            a.drop_first(),
        ).len());
    }
}

/// Two texts with one encoding are one text.
pub proof fn lemma_encode_injective(a: Seq<char>, b: Seq<char>)
    requires
        encode_utf8(a) == encode_utf8(b),
    ensures
        a == b,
{
    vstd::utf8::encode_utf8_decode_utf8(a);
    vstd::utf8::encode_utf8_decode_utf8(b);
}

/// A cursor over text.
#[derive(Clone, Copy, Debug, PartialEq, Eq)]
pub struct Text<'a> {
    /// The text not yet consumed.
    pub input: &'a str,
    /// Whether more text may follow the buffer.
    pub partial: bool,
}

impl<'a> Text<'a> {
    /// A cursor over a buffer that holds all of the text.
    pub fn new(input: &'a str) -> (cursor: Text<'a>)
        ensures
            cursor == (Text { input, partial: false }),
    {
        Text { input, partial: false }
    }

    /// A cursor over a buffer that may be a truncated prefix of the text.
    pub fn streaming(input: &'a str) -> (cursor: Text<'a>)
        ensures
            cursor == (Text { input, partial: true }),
    {
        Text { input, partial: true }
    }

    /// The text not yet consumed.
    pub fn rest(&self) -> (r: &'a str)
        ensures
            r == self.input,
    {
        self.input
    }

    /// The number of bytes that the text takes.
    fn byte_len(text: &str) -> (n: usize)
        ensures
            n == encode_utf8(text@).len(),
    {
        text.as_bytes().len()
    }

    /// Splits the text behind its first `k` characters, given the number of
    /// bytes they take.
    fn split(text: &'a str, offset: usize, Ghost(k): Ghost<int>) -> (parts: (&'a str, &'a str))
        requires
            0 <= k <= text@.len(),
            offset == encode_utf8(text@.take(k)).len(),
        ensures
            parts.0@ == text@.take(k),
            parts.1@ == text@.skip(k),
            parts.1.spec_bytes().len() == text.spec_bytes().len() - offset,
    {
        proof {
            assert(text@ =~= text@.take(k) + text@.skip(k));
            lemma_boundary(text@.take(k), text@.skip(k));
            lemma_encode_concat(text@.take(k), text@.skip(k));
        }
        let parts = text.split_at(offset);
        proof {
            let head = encode_utf8(text@.take(k));
            let tail = encode_utf8(text@.skip(k));
            assert((head + tail).subrange(0, offset as int) =~= head);
            assert((head + tail).subrange(offset as int, (head + tail).len() as int) =~= tail);
            lemma_encode_injective(parts.0@, text@.take(k));
            lemma_encode_injective(parts.1@, text@.skip(k));
        }
        parts
    }
}

impl<'a> Cursor for Text<'a> {
    type Token = char;

    type Slice = &'a str;

    open spec fn tokens(&self) -> Seq<char> {
        self.input@
    }

    open spec fn width(&self) -> nat {
        encode_utf8(self.input@).len()
    }

    open spec fn partial(&self) -> bool {
        self.partial
    }

    open spec fn slice_tokens(slice: &'a str) -> Seq<char> {
        slice@
    }

    /// How many bytes the missing characters will take is not known.
    open spec fn shortfall(missing: nat) -> Needed {
        Needed::Unknown
    }
}

impl<'a> Stream for Text<'a> {
    fn is_partial(&self) -> (b: bool) {
        self.partial
    }

    fn eof_offset(&self) -> (n: usize) {
        proof {
            lemma_encode_len(self.input@);
        }
        Text::byte_len(self.input)
    }

    fn peek_token(&self) -> (t: Option<char>) {
        if self.input.is_empty() {
            None
        } else {
            Some(self.input.get_char(0))
        }
    }

    fn next_token(&mut self) -> (t: Option<char>) {
        if self.input.is_empty() {
            assert(self.input@.skip(0) =~= self.input@);
            None
        } else {
            let c = self.input.get_char(0);
            let w = utf8_width(c);
            proof {
                assert(self.input@.take(1) =~= seq![c]);
                assert(seq![c].drop_first() =~= Seq::<char>::empty());
                assert(encode_utf8(seq![c]) =~= encode_scalar(c as u32)) by {
                    reveal_with_fuel(encode_utf8, 2);
                }
                lemma_encode_len(self.input@.skip(1));
            }
            let parts = Text::split(self.input, w, Ghost(1));
            self.input = parts.1;
            Some(c)
        }
    }

    fn next_slice(&mut self, count: usize) -> (r: Result<&'a str, Needed>) {
        let start = *self;
        let mut end = *self;
        let mut taken: usize = 0;
        assert(start.input@.skip(0) =~= start.input@);
        while taken < count
            invariant
                start == *old(self),
                *self == start,
                taken <= count,
                taken <= start.input@.len(),
                end.partial == start.partial,
                end.input@ == start.input@.skip(taken as int),
                encode_utf8(end.input@).len() <= encode_utf8(start.input@).len(),
                encode_utf8(end.input@).len() == encode_utf8(start.input@).len() ==> taken == 0,
            decreases count - taken,
        {
            let ghost before = end;
            match end.next_token() {
                Some(_) => {
                    assert(before.input@.skip(1) =~= start.input@.skip(taken + 1));
                    taken = taken + 1;
                },
                None => {
                    assert(start.input@.skip(0) =~= start.input@);
                    assert(start.input@.skip(taken as int).len() == start.input@.len() - taken);
                    return Err(Needed::Unknown);
                },
            }
        }
        let slice = start.slice_to(&end);
        *self = end;
        Ok(slice)
    }

    fn slice_to(&self, end: &Text<'a>) -> (slice: &'a str) {
        let ghost k = self.input@.len() - end.input@.len();
        proof {
            assert(self.input@ =~= self.input@.take(k) + end.input@);
            lemma_encode_concat(self.input@.take(k), end.input@);
        }
        let offset = Text::byte_len(self.input) - Text::byte_len(end.input);
        let parts = Text::split(self.input, offset, Ghost(k));
        parts.0
    }

    fn finish(&mut self) -> (slice: &'a str) {
        let ghost k = self.input@.len() as int;
        proof {
            assert(self.input@.take(k) =~= self.input@);
            assert(self.input@.skip(k) =~= Seq::<char>::empty());
            lemma_encode_len(self.input@);
        }
        let parts = Text::split(self.input, Text::byte_len(self.input), Ghost(k));
        self.input = parts.1;
        parts.0
    }

    fn over(slice: &'a str) -> (cursor: Text<'a>) {
        Text { input: slice, partial: false }
    }
}

} // verus!

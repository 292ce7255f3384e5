//! Token-range primitives: single tokens, counted and scanned runs, literals
//! and searches.
use crate::chars::{fold_ascii, fold_code, AsChar};
use crate::error::{ErrMode, ErrorKind, Needed, PResult, ParserError};
use crate::multi::{misused, Range};
use crate::parser::{rejected_at, span, Parser};
use crate::stream::{
    lemma_reaches_refl, lemma_reaches_trans, reaches, Bytes, Cursor, Stream,
};
use crate::text::Text;
use vstd::prelude::*;

verus! {

/// A set of tokens, asked one token at a time.
///
/// `decides(token, verdict)` says which answers the set may give for a token.
/// A set given by a closure inherits the closure's contract; the sets of this
/// library admit one answer per token.
pub trait ContainsToken<T> {
    /// What must hold before the set may be asked.
    open spec fn inv(&self) -> bool {
        true
    }

    /// `verdict` is an answer that the set may give for `token`.
    open spec fn decides(&self, token: T, verdict: bool) -> bool {
        true
    }

    /// Whether the token is in the set.
    fn contains_token(&self, token: T) -> (verdict: bool)
        requires
            self.inv(),
        ensures
            self.decides(token, verdict),
    ;
}

/// A predicate is the set of the tokens it accepts.
impl<T, F: Fn(T) -> bool> ContainsToken<T> for F {
    open spec fn inv(&self) -> bool {
        forall|token: T| call_requires(*self, (token,))
    }

    open spec fn decides(&self, token: T, verdict: bool) -> bool {
        call_ensures(*self, (token,), verdict)
    }

    fn contains_token(&self, token: T) -> (verdict: bool) {
        self(token)
    }
}

/// A byte is the set of the one token with its code.
impl<T: AsChar> ContainsToken<T> for u8 {
    open spec fn inv(&self) -> bool {
        true
    }

    open spec fn decides(&self, token: T, verdict: bool) -> bool {
        verdict == (token.code() == *self as u32)
    }

    fn contains_token(&self, token: T) -> (verdict: bool) {
        token.as_u32() == *self as u32
    }
}

/// A character is the set of the one token with its code.
impl<T: AsChar> ContainsToken<T> for char {
    open spec fn inv(&self) -> bool {
        true
    }

    open spec fn decides(&self, token: T, verdict: bool) -> bool {
        verdict == (token.code() == *self as u32)
    }

    fn contains_token(&self, token: T) -> (verdict: bool) {
        token.as_u32() == *self as u32
    }
}

/// The tokens from `low` to `high`, both included, by their codes.
#[derive(Clone, Copy, Debug, PartialEq, Eq)]
pub struct Within<T> {
    pub low: T,
    pub high: T,
}

impl<T: AsChar, B: AsChar> ContainsToken<T> for Within<B> {
    open spec fn inv(&self) -> bool {
        true
    }

    open spec fn decides(&self, token: T, verdict: bool) -> bool {
        verdict == (self.low.code() <= token.code() <= self.high.code())
    }

    fn contains_token(&self, token: T) -> (verdict: bool) {
        let c = token.as_u32();
        self.low.as_u32() <= c && c <= self.high.as_u32()
    }
}

/// The verdict of a list of sets: in the union where one of them accepts, out
/// of it where all of them reject.
pub open spec fn any_decides<T, S: ContainsToken<T>>(sets: Seq<S>, token: T, verdict: bool) -> bool {
    if verdict {
        exists|k: int| 0 <= k < sets.len() && (#[trigger] sets[k]).decides(token, true)
    } else {
        forall|k: int| 0 <= k < sets.len() ==> (#[trigger] sets[k]).decides(token, false)
    }
}

/// Every set of the list may be asked.
pub open spec fn all_sets_inv<T, S: ContainsToken<T>>(sets: Seq<S>) -> bool {
    forall|k: int| 0 <= k < sets.len() ==> (#[trigger] sets[k]).inv()
}

/// Asks the sets of a slice in order.
pub fn slice_contains<T: Copy, S: ContainsToken<T>>(sets: &[S], token: T) -> (verdict: bool)
    requires
        all_sets_inv::<T, S>(sets@),
    ensures
        any_decides(sets@, token, verdict),
{
    let mut k: usize = 0;
    while k < sets.len()
        invariant
            k <= sets@.len(),
            all_sets_inv::<T, S>(sets@),
            forall|j: int| 0 <= j < k ==> (#[trigger] sets@[j]).decides(token, false),
        decreases sets@.len() - k,
    {
        if sets[k].contains_token(token) {
            return true;
        }
        k = k + 1;
    }
    false
}

/// An array of sets is their union.
impl<T: Copy, S: ContainsToken<T>, const N: usize> ContainsToken<T> for [S; N] {
    open spec fn inv(&self) -> bool {
        all_sets_inv::<T, S>(self@)
    }

    open spec fn decides(&self, token: T, verdict: bool) -> bool {
        any_decides(self@, token, verdict)
    }

    fn contains_token(&self, token: T) -> (verdict: bool) {
        slice_contains(self.as_slice(), token)
    }
}

/// A slice of sets is their union.
impl<'s, T: Copy, S: ContainsToken<T>> ContainsToken<T> for &'s [S] {
    open spec fn inv(&self) -> bool {
        all_sets_inv::<T, S>(self@)
    }

    open spec fn decides(&self, token: T, verdict: bool) -> bool {
        any_decides(self@, token, verdict)
    }

    fn contains_token(&self, token: T) -> (verdict: bool) {
        slice_contains(*self, token)
    }
}

/// A pair of sets is their union.
impl<T: Copy, S1: ContainsToken<T>, S2: ContainsToken<T>> ContainsToken<T> for (S1, S2) {
    open spec fn inv(&self) -> bool {
        self.0.inv() && self.1.inv()
    }

    open spec fn decides(&self, token: T, verdict: bool) -> bool {
        if verdict {
            self.0.decides(token, true) || (self.0.decides(token, false) && self.1.decides(
                token,
                true,
            ))
        } else {
            self.0.decides(token, false) && self.1.decides(token, false)
        }
    }

    fn contains_token(&self, token: T) -> (verdict: bool) {
        if self.0.contains_token(token) {
            true
        } else {
            self.1.contains_token(token)
        }
    }
}

/// Whether some character of `chars` has the code `code`.
pub open spec fn has_code(chars: Seq<char>, code: u32) -> bool {
    exists|k: int| 0 <= k < chars.len() && (#[trigger] chars[k]) as u32 == code
}

/// A text is the set of its characters.
impl<'s, T: AsChar> ContainsToken<T> for &'s str {
    open spec fn inv(&self) -> bool {
        true
    }

    open spec fn decides(&self, token: T, verdict: bool) -> bool {
        verdict == has_code(self@, token.code())
    }

    fn contains_token(&self, token: T) -> (verdict: bool) {
        let code = token.as_u32();
        let mut cursor = Text::new(*self);
        let ghost mut seen: int = 0;
        assert(self@.skip(0) =~= self@);
        loop
            invariant
                0 <= seen <= self@.len(),
                code == token.code(),
                cursor.input@ == self@.skip(seen),
                forall|j: int| 0 <= j < seen ==> (#[trigger] self@[j]) as u32 != code,
            decreases cursor.width(),
        {
            match cursor.next_token() {
                None => {
                    return false;
                },
                Some(c) => {
                    if c as u32 == code {
                        assert(self@[seen] == c);
                        return true;
                    }
                    proof {
                        assert(self@.skip(seen).skip(1) =~= self@.skip(seen + 1));
                        seen = seen + 1;
                    }
                },
            }
        }
    }
}

/// The input ran out at `start`: in streaming mode a request for `needed`, in
/// complete mode a recoverable failure of `kind`. The cursor stays at `start`.
pub open spec fn starved<I: Stream, O, E: ParserError<I>>(
    start: I,
    needed: Needed,
    kind: ErrorKind,
    end: I,
    result: PResult<O, E>,
) -> bool {
    if start.partial() {
        end == start && result == Err::<O, ErrMode<E>>(ErrMode::Incomplete(needed))
    } else {
        rejected_at(start, kind, end, result)
    }
}

/// The parse succeeds with `o`, having consumed the first `n` tokens.
pub open spec fn consumes<I: Stream, O, E>(
    start: I,
    n: int,
    o: O,
    end: I,
    result: PResult<O, E>,
) -> bool {
    end.tokens() == start.tokens().skip(n) && result == Ok::<O, ErrMode<E>>(o)
}

/// The parse succeeds with a slice of the first `n` tokens, having consumed them.
pub open spec fn takes<I: Stream, E>(start: I, n: int, end: I, result: PResult<I::Slice, E>) -> bool {
    &&& end.tokens() == start.tokens().skip(n)
    &&& result matches Ok(slice)
    &&& I::slice_tokens(slice) == start.tokens().take(n)
}

/// Answers an input that ran out, as [`starved`] describes.
fn starve<I: Stream, O, E: ParserError<I>>(input: &I, needed: Needed, kind: ErrorKind) -> (result:
    PResult<O, E>)
    ensures
        starved(*input, needed, kind, *input, result),
{
    if input.is_partial() {
        Err(ErrMode::Incomplete(needed))
    } else {
        Err(ErrMode::from_error_kind(input, kind))
    }
}

/// Any one token. See [`any`].
pub struct Any;

impl<I: Stream, E: ParserError<I>> Parser<I, E> for Any {
    type Output = I::Token;

    open spec fn inv(&self) -> bool {
        true
    }

    open spec fn parses(&self, start: I, end: I, result: PResult<I::Token, E>) -> bool {
        if start.tokens().len() == 0 {
            starved(start, Needed::Size(1), ErrorKind::Token, end, result)
        } else {
            consumes(start, 1, start.tokens()[0], end, result)
        }
    }

    fn parse_next(&self, input: &mut I) -> (result: PResult<I::Token, E>) {
        match input.next_token() {
            Some(t) => Ok(t),
            None => starve(input, Needed::Size(1), ErrorKind::Token),
        }
    }
}

/// Consumes one token, whatever it is. On empty input a streaming parse asks
/// for one more byte, a complete parse fails with `ErrorKind::Token`.
pub fn any() -> (p: Any) {
    Any
}

/// One token of a set, or one token outside of it. See [`one_of`] and [`none_of`].
pub struct OneOf<S> {
    pub set: S,
    /// The verdict of the set on which the token is accepted.
    pub wanted: bool,
}

impl<I: Stream, E: ParserError<I>, S: ContainsToken<I::Token>> Parser<I, E> for OneOf<S> {
    type Output = I::Token;

    open spec fn inv(&self) -> bool {
        self.set.inv()
    }

    open spec fn parses(&self, start: I, end: I, result: PResult<I::Token, E>) -> bool {
        if start.tokens().len() == 0 {
            starved(start, Needed::Size(1), ErrorKind::Token, end, result)
        } else {
            exists|verdict: bool| #[trigger]
                self.set.decides(start.tokens()[0], verdict) && if verdict == self.wanted {
                    consumes(start, 1, start.tokens()[0], end, result)
                } else {
                    rejected_at(start, ErrorKind::Verify, end, result)
                }
        }
    }

    fn parse_next(&self, input: &mut I) -> (result: PResult<I::Token, E>) {
        let start = *input;
        match input.next_token() {
            Some(t) => {
                if self.set.contains_token(t) == self.wanted {
                    Ok(t)
                } else {
                    *input = start;
                    proof {
                        lemma_reaches_refl(start);
                    }
                    Err(ErrMode::from_error_kind(input, ErrorKind::Verify))
                }
            },
            None => starve(input, Needed::Size(1), ErrorKind::Token),
        }
    }
}

/// Consumes one token that is in `set`; a token outside of it is a failure
/// of kind `ErrorKind::Verify`. On empty input a streaming parse asks for one
/// more byte.
pub fn one_of<S>(set: S) -> (p: OneOf<S>)
    ensures
        p.set == set,
        p.wanted,
{
    OneOf { set, wanted: true }
}

/// Consumes one token that is not in `set`; a token in it is a failure of
/// kind `ErrorKind::Verify`. On empty input a streaming parse asks for one
/// more byte.
pub fn none_of<S>(set: S) -> (p: OneOf<S>)
    ensures
        p.set == set,
        !p.wanted,
{
    OneOf { set, wanted: false }
}

/// A fixed number of tokens. See [`take`].
pub struct Take {
    pub count: usize,
}

impl<I: Stream, E: ParserError<I>> Parser<I, E> for Take {
    type Output = I::Slice;

    open spec fn inv(&self) -> bool {
        true
    }

    open spec fn parses(&self, start: I, end: I, result: PResult<I::Slice, E>) -> bool {
        if self.count <= start.tokens().len() {
            takes(start, self.count as int, end, result)
        } else {
            starved(
                start,
                I::shortfall((self.count - start.tokens().len()) as nat),
                ErrorKind::Slice,
                end,
                result,
            )
        }
    }

    fn parse_next(&self, input: &mut I) -> (result: PResult<I::Slice, E>) {
        match input.next_slice(self.count) {
            Ok(slice) => Ok(slice),
            Err(needed) => starve(input, needed, ErrorKind::Slice),
        }
    }
}

/// Consumes exactly `count` tokens: bytes of a byte input, whole codepoints of
/// a text. Where fewer are left, a streaming parse asks for what is missing
/// and a complete parse fails with `ErrorKind::Slice`.
pub fn take(count: usize) -> (p: Take)
    ensures
        p.count == count,
{
    Take { count }
}


/// The set lets the scan pass the first `k` tokens: for each of them it gave
/// the verdict `go`.
pub open spec fn run<T, S: ContainsToken<T>>(set: S, tokens: Seq<T>, k: int, go: bool) -> bool {
    forall|i: int| 0 <= i < k ==> set.decides(#[trigger] tokens[i], go)
}

/// What a streaming scan asks for at the end of the input: what is missing up
/// to the lower bound, counted against the bytes at hand, and one byte where
/// the lower bound is met.
pub open spec fn scan_needs(min: usize, width: nat) -> Needed {
    Needed::spec_new(
        if min > width {
            (min - width) as nat
        } else {
            1
        },
    )
}

/// What a scan of `set` admits at `start`, having passed `k` tokens.
///
/// At the upper bound the scan ends with these `k` tokens. At a token for which
/// the set gives the stopping verdict it ends there, with the `k` tokens if
/// the lower bound is met and with a failure of `kind` if not. At the end of
/// the input a streaming scan cannot know whether the run goes on and asks for
/// more; a complete scan ends like at a stopping token.
pub open spec fn scans<I: Stream, E: ParserError<I>, S: ContainsToken<I::Token>>(
    set: S,
    go: bool,
    range: Range,
    kind: ErrorKind,
    start: I,
    k: int,
    end: I,
    result: PResult<I::Slice, E>,
) -> bool {
    let tokens = start.tokens();
    &&& 0 <= k <= tokens.len()
    &&& k <= range.upper()
    &&& run(set, tokens, k, go)
    &&& if range.full(k as nat) {
        takes(start, k, end, result)
    } else if k < tokens.len() {
        set.decides(tokens[k], !go) && if k < range.min {
            rejected_at(start, kind, end, result)
        } else {
            takes(start, k, end, result)
        }
    } else if start.partial() {
        end == start && result == Err::<I::Slice, ErrMode<E>>(
            ErrMode::Incomplete(scan_needs(range.min, start.width())),
        )
    } else if k < range.min {
        rejected_at(start, kind, end, result)
    } else {
        takes(start, k, end, result)
    }
}

/// A run of tokens picked by a set. See [`take_while`] and [`take_till`].
pub struct TakeWhile<S> {
    pub range: Range,
    pub set: S,
    /// The verdict of the set on which the run goes on.
    pub go: bool,
    /// The kind of the failure where the run is too short.
    pub kind: ErrorKind,
}

impl<I: Stream, E: ParserError<I>, S: ContainsToken<I::Token>> Parser<I, E> for TakeWhile<S> {
    type Output = I::Slice;

    open spec fn inv(&self) -> bool {
        self.set.inv()
    }

    open spec fn parses(&self, start: I, end: I, result: PResult<I::Slice, E>) -> bool {
        if self.range.descending() {
            misused(start, end, result)
        } else {
            exists|k: int| #[trigger]
                scans(self.set, self.go, self.range, self.kind, start, k, end, result)
        }
    }

    fn parse_next(&self, input: &mut I) -> (result: PResult<I::Slice, E>) {
        let start = *input;
        proof {
            lemma_reaches_refl(start);
        }
        if self.range.is_descending() {
            return Err(ErrMode::assertion(input));
        }
        let mut count: usize = 0;
        assert(start.tokens().skip(0) =~= start.tokens());
        loop
            invariant
                start == *old(input),
                self.set.inv(),
                !self.range.descending(),
                reaches(start, *input),
                count <= start.tokens().len(),
                count <= self.range.upper(),
                input.tokens() == start.tokens().skip(count as int),
                run(self.set, start.tokens(), count as int, self.go),
            decreases input.width(),
        {
            let ghost tokens = start.tokens();
            proof {
                lemma_reaches_refl(start);
            }
            if self.range.is_full(count) {
                let r = Ok(start.slice_to(input));
                assert(scans(self.set, self.go, self.range, self.kind, start, count as int, *input, r));
                return r;
            }
            match input.peek_token() {
                None => {
                    assert(count == tokens.len());
                    if input.is_partial() {
                        let width = start.eof_offset();
                        let missing = if self.range.min > width {
                            self.range.min - width
                        } else {
                            1
                        };
                        *input = start;
                        let r = Err(ErrMode::Incomplete(Needed::new(missing)));
                        assert(scans(
                            self.set,
                            self.go,
                            self.range,
                            self.kind,
                            start,
                            count as int,
                            start,
                            r,
                        ));
                        return r;
                    } else if count < self.range.min {
                        *input = start;
                        let r = Err(ErrMode::from_error_kind(input, self.kind));
                        assert(scans(
                            self.set,
                            self.go,
                            self.range,
                            self.kind,
                            start,
                            count as int,
                            start,
                            r,
                        ));
                        return r;
                    } else {
                        let r = Ok(start.slice_to(input));
                        assert(scans(
                            self.set,
                            self.go,
                            self.range,
                            self.kind,
                            start,
                            count as int,
                            *input,
                            r,
                        ));
                        return r;
                    }
                },
                Some(t) => {
                    assert(t == tokens[count as int]);
                    let verdict = self.set.contains_token(t);
                    if verdict == self.go {
                        let ghost before = *input;
                        let _ = input.next_token();
                        proof {
                            lemma_reaches_trans(start, before, *input);
                            assert(tokens.skip(count as int).skip(1) =~= tokens.skip(count + 1));
                        }
                        count = count + 1;
                    } else if count < self.range.min {
                        *input = start;
                        let r = Err(ErrMode::from_error_kind(input, self.kind));
                        assert(scans(
                            self.set,
                            self.go,
                            self.range,
                            self.kind,
                            start,
                            count as int,
                            start,
                            r,
                        ));
                        return r;
                    } else {
                        let r = Ok(start.slice_to(input));
                        assert(scans(
                            self.set,
                            self.go,
                            self.range,
                            self.kind,
                            start,
                            count as int,
                            *input,
                            r,
                        ));
                        return r;
                    }
                },
            }
        }
    }
}

/// Consumes the tokens at the front that are in `set`, as many as `range`
/// allows. The run has to reach the lower bound of `range`, else the parse
/// fails with `ErrorKind::Slice`; it ends at the upper bound at the latest.
/// A streaming parse that reaches the end of the input below the upper bound
/// asks for more: the next token could belong to the run.
pub fn take_while<S>(range: Range, set: S) -> (p: TakeWhile<S>)
    ensures
        p == (TakeWhile { range, set, go: true, kind: ErrorKind::Slice }),
{
    TakeWhile { range, set, go: true, kind: ErrorKind::Slice }
}

/// Consumes the tokens at the front that are not in `set`, as many as `range`
/// allows: the run ends before the first token of the set. In all else it is
/// [`take_while`].
pub fn take_till<S>(range: Range, set: S) -> (p: TakeWhile<S>)
    ensures
        p == (TakeWhile { range, set, go: false, kind: ErrorKind::Slice }),
{
    TakeWhile { range, set, go: false, kind: ErrorKind::Slice }
}

/// Whether a token of the input agrees with a token of a pattern: they are
/// equal, or, without regard to case, equal after folding ASCII letters.
pub open spec fn agrees<T: AsChar>(pattern: T, token: T, caseless: bool) -> bool {
    if caseless {
        fold_code(pattern.code()) == fold_code(token.code())
    } else {
        pattern == token
    }
}

/// The first `k` tokens of the pattern agree with the first `k` tokens of the input.
pub open spec fn agree_upto<T: AsChar>(pattern: Seq<T>, tokens: Seq<T>, k: int, caseless: bool) -> bool {
    &&& 0 <= k <= pattern.len()
    &&& k <= tokens.len()
    &&& forall|i: int| 0 <= i < k ==> agrees(#[trigger] pattern[i], tokens[i], caseless)
}

/// The pattern stands at the front of the input.
pub open spec fn begins_with<T: AsChar>(tokens: Seq<T>, pattern: Seq<T>, caseless: bool) -> bool {
    agree_upto(pattern, tokens, pattern.len() as int, caseless)
}

/// The input is too short to hold the pattern, and agrees with it as far as it goes.
pub open spec fn falls_short<T: AsChar>(tokens: Seq<T>, pattern: Seq<T>, caseless: bool) -> bool {
    tokens.len() < pattern.len() && agree_upto(pattern, tokens, tokens.len() as int, caseless)
}

/// How a pattern compares with the front of an input.
pub enum Compared<I> {
    /// The pattern stands at the front; the cursor behind it.
    Match(I),
    /// The input ends within the pattern and agrees with it up to there.
    Short,
    /// A token of the input disagrees with the pattern.
    Mismatch,
}

/// Compares `pattern` with the front of `input`, token by token.
pub fn compare<I: Stream, G: Stream<Token = I::Token>>(input: &I, pattern: &G, caseless: bool) -> (c:
    Compared<I>) where I::Token: AsChar
    ensures
        match c {
            Compared::Match(end) => begins_with(input.tokens(), pattern.tokens(), caseless) && reaches(
                *input,
                end,
            ) && end.tokens() == input.tokens().skip(pattern.tokens().len() as int),
            Compared::Short => falls_short(input.tokens(), pattern.tokens(), caseless),
            Compared::Mismatch => !begins_with(input.tokens(), pattern.tokens(), caseless)
                && !falls_short(input.tokens(), pattern.tokens(), caseless),
        },
{
    let mut rest = *input;
    let mut left = *pattern;
    let ghost mut k: int = 0;
    let ghost tokens = input.tokens();
    let ghost wanted = pattern.tokens();
    proof {
        lemma_reaches_refl(*input);
        assert(tokens.skip(0) =~= tokens);
        assert(wanted.skip(0) =~= wanted);
    }
    loop
        invariant
            tokens == input.tokens(),
            wanted == pattern.tokens(),
            agree_upto(wanted, tokens, k, caseless),
            reaches(*input, rest),
            rest.tokens() == tokens.skip(k),
            left.tokens() == wanted.skip(k),
        decreases left.width(),
    {
        match left.next_token() {
            None => {
                return Compared::Match(rest);
            },
            Some(p) => {
                let ghost before = rest;
                match rest.next_token() {
                    None => {
                        return Compared::Short;
                    },
                    Some(t) => {
                        proof {
                            assert(p == wanted[k]);
                            assert(t == tokens[k]);
                            lemma_reaches_trans(*input, before, rest);
                            assert(tokens.skip(k).skip(1) =~= tokens.skip(k + 1));
                            assert(wanted.skip(k).skip(1) =~= wanted.skip(k + 1));
                        }
                        let same = if caseless {
                            fold_ascii(p.as_u32()) == fold_ascii(t.as_u32())
                        } else {
                            p.as_u32() == t.as_u32()
                        };
                        proof {
                            if !caseless && same {
                                <I::Token as AsChar>::lemma_code_injective(p, t);
                            }
                        }
                        if !same {
                            assert(!agrees(wanted[k], tokens[k], caseless));
                            return Compared::Mismatch;
                        }
                        proof {
                            k = k + 1;
                        }
                    },
                }
            },
        }
    }
}

/// What a streaming parse asks for where the input ends within a pattern: the
/// bytes of the pattern that the input does not have yet.
pub open spec fn pattern_needs(pattern_width: nat, width: nat) -> Needed {
    Needed::spec_new(
        if pattern_width > width {
            (pattern_width - width) as nat
        } else {
            0
        },
    )
}

/// A fixed run of tokens. See [`literal`].
pub struct Literal<G> {
    /// The pattern, as a cursor over it.
    pub pattern: G,
    /// Whether ASCII letters match without regard to case.
    pub caseless: bool,
    /// The kind of the failure where the input differs.
    pub kind: ErrorKind,
}

impl<I: Stream, E: ParserError<I>, G: Stream<Token = I::Token>> Parser<I, E> for Literal<G> where
    I::Token: AsChar,
 {
    type Output = I::Slice;

    open spec fn inv(&self) -> bool {
        true
    }

    open spec fn parses(&self, start: I, end: I, result: PResult<I::Slice, E>) -> bool {
        let pattern = self.pattern.tokens();
        if begins_with(start.tokens(), pattern, self.caseless) {
            takes(start, pattern.len() as int, end, result)
        } else if falls_short(start.tokens(), pattern, self.caseless) {
            starved(
                start,
                pattern_needs(self.pattern.width(), start.width()),
                self.kind,
                end,
                result,
            )
        } else {
            rejected_at(start, self.kind, end, result)
        }
    }

    fn parse_next(&self, input: &mut I) -> (result: PResult<I::Slice, E>) {
        let start = *input;
        match compare(&start, &self.pattern, self.caseless) {
            Compared::Match(end) => {
                *input = end;
                Ok(start.slice_to(&end))
            },
            Compared::Short => {
                proof {
                    lemma_reaches_refl(start);
                }
                let have = start.eof_offset();
                let want = self.pattern.eof_offset();
                let missing = if want > have {
                    want - have
                } else {
                    0
                };
                starve(input, Needed::new(missing), self.kind)
            },
            Compared::Mismatch => {
                proof {
                    lemma_reaches_refl(start);
                }
                Err(ErrMode::from_error_kind(input, self.kind))
            },
        }
    }
}

/// Something that can be looked for in an input of tokens `T`: it gives a
/// cursor over its own tokens.
pub trait Pattern<T> {
    /// The cursor over the pattern.
    type Tokens: Stream<Token = T>;

    /// The tokens of the pattern.
    spec fn pattern_tokens(&self) -> Seq<T>;

    /// Whether ASCII letters of the pattern match without regard to case.
    spec fn folds_case(&self) -> bool;

    /// A cursor over the pattern.
    fn cursor(&self) -> (c: Self::Tokens)
        ensures
            c.tokens() == self.pattern_tokens(),
    ;

    /// Whether ASCII letters of the pattern match without regard to case.
    fn caseless(&self) -> (b: bool)
        ensures
            b == self.folds_case(),
    ;
}

/// Bytes are a pattern for bytes.
impl<'t> Pattern<u8> for &'t [u8] {
    type Tokens = Bytes<'t>;

    open spec fn pattern_tokens(&self) -> Seq<u8> {
        self@
    }

    open spec fn folds_case(&self) -> bool {
        false
    }

    fn cursor(&self) -> (c: Bytes<'t>) {
        Bytes::new(*self)
    }

    fn caseless(&self) -> (b: bool) {
        false
    }
}

/// A text is a pattern for bytes: its UTF-8 encoding.
impl<'t> Pattern<u8> for &'t str {
    type Tokens = Bytes<'t>;

    open spec fn pattern_tokens(&self) -> Seq<u8> {
        vstd::utf8::encode_utf8(self@)
    }

    open spec fn folds_case(&self) -> bool {
        false
    }

    fn cursor(&self) -> (c: Bytes<'t>) {
        Bytes::new(self.as_bytes())
    }

    fn caseless(&self) -> (b: bool) {
        false
    }
}

/// A text is a pattern for codepoints.
impl<'t> Pattern<char> for &'t str {
    type Tokens = Text<'t>;

    open spec fn pattern_tokens(&self) -> Seq<char> {
        self@
    }

    open spec fn folds_case(&self) -> bool {
        false
    }

    fn cursor(&self) -> (c: Text<'t>) {
        Text::new(*self)
    }

    fn caseless(&self) -> (b: bool) {
        false
    }
}

/// A pattern to be matched without regard to the case of ASCII letters. Only
/// the letters `A` to `Z` fold; every other token has to be the very same,
/// whatever it may look like.
#[derive(Clone, Copy, Debug, PartialEq, Eq)]
pub struct Caseless<P>(pub P);

impl<T, P: Pattern<T>> Pattern<T> for Caseless<P> {
    type Tokens = P::Tokens;

    open spec fn pattern_tokens(&self) -> Seq<T> {
        self.0.pattern_tokens()
    }

    open spec fn folds_case(&self) -> bool {
        true
    }

    fn cursor(&self) -> (c: P::Tokens) {
        self.0.cursor()
    }

    fn caseless(&self) -> (b: bool) {
        true
    }
}

/// Matches `pattern` at the front of the input, token by token, and gives the
/// matched slice of the input, in the input's own case. An input that differs
/// fails with `ErrorKind::Literal`; an input that ends within the pattern does
/// so too in complete mode, and asks for the missing bytes in streaming mode.
pub fn literal<T, P: Pattern<T>>(pattern: P) -> (p: Literal<P::Tokens>)
    ensures
        p.pattern.tokens() == pattern.pattern_tokens(),
        p.caseless == pattern.folds_case(),
        p.kind == ErrorKind::Literal,
{
    Literal { pattern: pattern.cursor(), caseless: pattern.caseless(), kind: ErrorKind::Literal }
}

/// [`literal`] for callers that tell its failures by `ErrorKind::Tag`.
pub fn tag<T, P: Pattern<T>>(pattern: P) -> (p: Literal<P::Tokens>)
    ensures
        p.pattern.tokens() == pattern.pattern_tokens(),
        p.caseless == pattern.folds_case(),
        p.kind == ErrorKind::Tag,
{
    Literal { pattern: pattern.cursor(), caseless: pattern.caseless(), kind: ErrorKind::Tag }
}


/// The pattern stands in the input behind `p` tokens, and nowhere before.
pub open spec fn found_at<T: AsChar>(
    tokens: Seq<T>,
    pattern: Seq<T>,
    caseless: bool,
    p: int,
) -> bool {
    &&& 0 <= p <= tokens.len()
    &&& begins_with(tokens.skip(p), pattern, caseless)
    &&& forall|q: int| 0 <= q < p ==> !begins_with(#[trigger] tokens.skip(q), pattern, caseless)
}

/// The pattern stands nowhere in the input.
pub open spec fn absent<T: AsChar>(tokens: Seq<T>, pattern: Seq<T>, caseless: bool) -> bool {
    forall|q: int|
        0 <= q <= tokens.len() ==> !begins_with(#[trigger] tokens.skip(q), pattern, caseless)
}

/// The tokens before a pattern. See [`take_until`].
pub struct TakeUntil<G> {
    pub range: Range,
    /// The pattern, as a cursor over it.
    pub pattern: G,
    /// Whether ASCII letters match without regard to case.
    pub caseless: bool,
}

impl<I: Stream, E: ParserError<I>, G: Stream<Token = I::Token>> Parser<I, E> for TakeUntil<G> where
    I::Token: AsChar,
 {
    type Output = I::Slice;

    open spec fn inv(&self) -> bool {
        true
    }

    open spec fn parses(&self, start: I, end: I, result: PResult<I::Slice, E>) -> bool {
        let tokens = start.tokens();
        let pattern = self.pattern.tokens();
        if self.range.descending() {
            misused(start, end, result)
        } else if absent(tokens, pattern, self.caseless) {
            starved(start, Needed::Unknown, ErrorKind::Slice, end, result)
        } else {
            exists|p: int| #[trigger]
                found_at(tokens, pattern, self.caseless, p) && if self.range.admits(p as nat) {
                    takes(start, p, end, result)
                } else {
                    rejected_at(start, ErrorKind::Slice, end, result)
                }
        }
    }

    fn parse_next(&self, input: &mut I) -> (result: PResult<I::Slice, E>) {
        let start = *input;
        proof {
            lemma_reaches_refl(start);
            assert(start.tokens().skip(0) =~= start.tokens());
        }
        if self.range.is_descending() {
            return Err(ErrMode::assertion(input));
        }
        let mut skipped: usize = 0;
        let total = start.eof_offset();
        let ghost tokens = start.tokens();
        let ghost pattern = self.pattern.tokens();
        loop
            invariant
                start == *old(input),
                skipped + input.width() <= total,
                tokens == start.tokens(),
                pattern == self.pattern.tokens(),
                !self.range.descending(),
                reaches(start, *input),
                skipped <= tokens.len(),
                input.tokens() == tokens.skip(skipped as int),
                forall|q: int|
                    0 <= q < skipped ==> !begins_with(
                        #[trigger] tokens.skip(q),
                        pattern,
                        self.caseless,
                    ),
            decreases input.width(),
        {
            proof {
                lemma_reaches_refl(start);
            }
            match compare(&*input, &self.pattern, self.caseless) {
                Compared::Match(_) => {
                    assert(found_at(tokens, pattern, self.caseless, skipped as int));
                    assert(!absent(tokens, pattern, self.caseless));
                    let enough = self.range.min <= skipped;
                    let fits = match self.range.max {
                        Some(max) => skipped <= max,
                        None => true,
                    };
                    if enough && fits {
                        return Ok(start.slice_to(input));
                    } else {
                        *input = start;
                        return Err(ErrMode::from_error_kind(input, ErrorKind::Slice));
                    }
                },
                _ => {
                    let ghost before = *input;
                    match input.next_token() {
                        None => {
                            assert(skipped == tokens.len());
                            assert(absent(tokens, pattern, self.caseless));
                            *input = start;
                            return starve(input, Needed::Unknown, ErrorKind::Slice);
                        },
                        Some(_) => {
                            proof {
                                lemma_reaches_trans(start, before, *input);
                                assert(tokens.skip(skipped as int).skip(1) =~= tokens.skip(
                                    skipped + 1,
                                ));
                            }
                            skipped = skipped + 1;
                        },
                    }
                },
            }
        }
    }
}

/// Consumes the tokens before the first place where `pattern` stands; the
/// pattern itself is left. The number of tokens consumed has to lie within
/// `range`, else the parse fails with `ErrorKind::Slice`. Where the pattern
/// stands nowhere, a complete parse fails in the same way, and a streaming
/// parse asks for more without saying how much: how far the pattern is cannot
/// be known.
pub fn take_until<T, P: Pattern<T>>(range: Range, pattern: P) -> (p: TakeUntil<P::Tokens>)
    ensures
        p.range == range,
        p.pattern.tokens() == pattern.pattern_tokens(),
        p.caseless == pattern.folds_case(),
{
    TakeUntil { range, pattern: pattern.cursor(), caseless: pattern.caseless() }
}


/// One given character. See [`just`].
pub struct Just {
    pub token: char,
}

impl<I: Stream, E: ParserError<I>> Parser<I, E> for Just where I::Token: AsChar {
    type Output = char;

    open spec fn inv(&self) -> bool {
        true
    }

    open spec fn parses(&self, start: I, end: I, result: PResult<char, E>) -> bool {
        if start.tokens().len() == 0 {
            starved(start, Needed::Size(1), ErrorKind::Literal, end, result)
        } else if start.tokens()[0].code() == self.token as u32 {
            consumes(start, 1, self.token, end, result)
        } else {
            rejected_at(start, ErrorKind::Literal, end, result)
        }
    }

    fn parse_next(&self, input: &mut I) -> (result: PResult<char, E>) {
        let start = *input;
        match input.next_token() {
            Some(t) => {
                if t.as_u32() == self.token as u32 {
                    Ok(self.token)
                } else {
                    *input = start;
                    proof {
                        lemma_reaches_refl(start);
                    }
                    Err(ErrMode::from_error_kind(input, ErrorKind::Literal))
                }
            },
            None => starve(input, Needed::Size(1), ErrorKind::Literal),
        }
    }
}

/// Consumes one token if it is the character `token`, and gives the
/// character. Any other token is a failure of kind `ErrorKind::Literal`.
pub fn just(token: char) -> (p: Just)
    ensures
        p.token == token,
{
    Just { token }
}

} // verus!

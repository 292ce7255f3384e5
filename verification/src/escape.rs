//! Escape sequences: runs of ordinary tokens alternating with sequences that
//! an escape token introduces.
use crate::chars::AsChar;
use crate::error::{ErrMode, ErrorKind, Needed, PResult, ParserError};
use crate::multi::Accumulate;
use crate::parser::{rejected_at, Parser};
use crate::stream::{lemma_reaches_refl, lemma_reaches_trans, reaches, Cursor, Stream};
use crate::token::takes;
use vstd::prelude::*;

verus! {

/// The input at `from` begins with the escape token.
pub open spec fn escape_at<I: Stream>(from: I, control: char) -> bool where I::Token: AsChar {
    from.tokens().len() > 0 && from.tokens()[0].code() == control as u32
}

/// One escape sequence from `from` to `to`: the ordinary parser fails
/// recoverably at `from`, the escape token stands there, and behind it the
/// body succeeds and reaches `to`.
pub open spec fn escape_taken<I: Stream, E, N: Parser<I, E>, B: Parser<I, E>>(
    normal: N,
    control: char,
    body: B,
    from: I,
    to: I,
) -> bool where I::Token: AsChar {
    &&& exists|mid: I, e: E| #[trigger]
        normal.parses(from, mid, Err(ErrMode::Backtrack(e))) && reaches(from, mid)
    &&& escape_at(from, control)
    &&& exists|after: I, o: B::Output|
        after.tokens() == from.tokens().skip(1) && reaches(from, after) && #[trigger] body.parses(
            after,
            to,
            Ok(o),
        ) && reaches(after, to)
}

/// One run of ordinary tokens from `from` to `to`: the ordinary parser
/// succeeds and consumes at least one byte.
pub open spec fn run_taken<I: Stream, E, N: Parser<I, E>>(normal: N, from: I, to: I) -> bool {
    exists|o: N::Output| #[trigger]
        normal.parses(from, to, Ok(o)) && reaches(from, to) && to.width() < from.width()
}

/// Step `k` of a trace: with input left, a run of ordinary tokens or an
/// escape sequence.
pub open spec fn esc_stepped<I: Stream, E, N: Parser<I, E>, B: Parser<I, E>>(
    normal: N,
    control: char,
    body: B,
    cursors: Seq<I>,
    k: int,
) -> bool where I::Token: AsChar {
    &&& cursors[k].tokens().len() > 0
    &&& run_taken(normal, cursors[k], cursors[k + 1]) || escape_taken(
        normal,
        control,
        body,
        cursors[k],
        cursors[k + 1],
    )
}

/// A trace of runs and escape sequences from `start` on.
pub open spec fn esc_iterates<I: Stream, E, N: Parser<I, E>, B: Parser<I, E>>(
    normal: N,
    control: char,
    body: B,
    start: I,
    cursors: Seq<I>,
) -> bool where I::Token: AsChar {
    &&& cursors.len() >= 1
    &&& cursors[0] == start
    &&& forall|k: int|
        0 <= k < cursors.len() - 1 ==> #[trigger] esc_stepped(normal, control, body, cursors, k)
}

/// The outcome "the escape token stands at `cur` and its body cannot be
/// parsed".
///
/// With nothing behind the escape token, a streaming parse asks for one more
/// byte and a complete parse fails unrecoverably with `kind`, reported at
/// `blame`. A body that fails recoverably makes the whole an unrecoverable
/// failure, its payload given the context `kind`: an opened escape sequence
/// is no place for a sibling alternative. Other failures of the body pass.
pub open spec fn escape_fails<I: Stream, E: ParserError<I>, B: Parser<I, E>, O>(
    body: B,
    kind: ErrorKind,
    blame: I,
    start: I,
    cur: I,
    end: I,
    result: PResult<O, E>,
) -> bool {
    if cur.tokens().len() == 1 {
        if cur.partial() {
            end == start && result == Err::<O, ErrMode<E>>(ErrMode::Incomplete(Needed::Size(1)))
        } else {
            &&& end == start
            &&& result matches Err(ErrMode::Cut(e))
            &&& E::is_from_error_kind(blame, kind, e)
        }
    } else {
        exists|after: I, mid: I, inner: PResult<B::Output, E>|
            after.tokens() == cur.tokens().skip(1) && reaches(cur, after) && #[trigger] body.parses(
                after,
                mid,
                inner,
            ) && reaches(after, mid) && end == mid && match inner {
                Ok(_) => false,
                Err(ErrMode::Backtrack(e)) => (result matches Err(ErrMode::Cut(e2)) && E::is_append(
                    e,
                    mid,
                    start,
                    kind,
                    e2,
                )),
                Err(other) => result == Err::<O, ErrMode<E>>(other),
            }
    }
}

/// How an escaped text ends at `cur`, a place reached from `start` by runs and
/// escape sequences.
///
/// At the end of the input, a complete parse succeeds with all of it and a
/// streaming parse asks for more. Where the ordinary parser succeeds without
/// consuming, or fails recoverably before a token that is not the escape
/// token, the text ends at `cur`: it is what was consumed up to there, unless
/// no byte was consumed at all and the ordinary parser failed, which is a
/// recoverable failure of `ErrorKind::Escaped`.
pub open spec fn esc_stops<I: Stream, E: ParserError<I>, N: Parser<I, E>, B: Parser<I, E>>(
    normal: N,
    control: char,
    body: B,
    start: I,
    cur: I,
    end: I,
    result: PResult<I::Slice, E>,
) -> bool where I::Token: AsChar {
    let consumed = start.tokens().len() - cur.tokens().len();
    if cur.tokens().len() == 0 {
        if start.partial() {
            end == start && result == Err::<I::Slice, ErrMode<E>>(
                ErrMode::Incomplete(Needed::Unknown),
            )
        } else {
            takes(start, consumed, end, result)
        }
    } else {
        exists|mid: I, inner: PResult<N::Output, E>| #[trigger]
            normal.parses(cur, mid, inner) && reaches(cur, mid) && match inner {
                Ok(_) => mid.width() >= cur.width() && takes(start, consumed, end, result),
                Err(ErrMode::Backtrack(_)) => if escape_at(cur, control) {
                    escape_fails(body, ErrorKind::Escaped, start, start, cur, end, result)
                } else if cur.width() >= start.width() {
                    rejected_at(start, ErrorKind::Escaped, end, result)
                } else {
                    takes(start, consumed, end, result)
                },
                Err(other) => end == mid && result == Err::<I::Slice, ErrMode<E>>(other),
            }
    }
}

/// A text with escape sequences, as it stands in the input. See [`escaped`].
pub struct Escaped<N, B> {
    pub normal: N,
    pub control: char,
    pub body: B,
}

/// Consumes runs matched by `normal` and escape sequences, each made of the
/// token `control` and what `body` matches behind it, in any alternation, and
/// gives the consumed input as it stands, escapes included.
pub fn escaped<N, B>(normal: N, control: char, body: B) -> (p: Escaped<N, B>)
    ensures
        p.normal == normal,
        p.control == control,
        p.body == body,
{
    Escaped { normal, control, body }
}

impl<I: Stream, E: ParserError<I>, N: Parser<I, E>, B: Parser<I, E>> Parser<I, E> for Escaped<
    N,
    B,
> where I::Token: AsChar {
    type Output = I::Slice;

    open spec fn inv(&self) -> bool {
        self.normal.inv() && self.body.inv()
    }

    open spec fn parses(&self, start: I, end: I, result: PResult<I::Slice, E>) -> bool {
        exists|cursors: Seq<I>| #[trigger]
            esc_iterates(self.normal, self.control, self.body, start, cursors) && reaches(
                start,
                cursors.last(),
            ) && esc_stops(self.normal, self.control, self.body, start, cursors.last(), end, result)
    }

    fn parse_next(&self, input: &mut I) -> (result: PResult<I::Slice, E>) {
        let start = *input;
        let ghost mut cursors: Seq<I> = seq![start];
        proof {
            lemma_reaches_refl(start);
        }
        loop
            invariant
                start == *old(input),
                self.normal.inv(),
                self.body.inv(),
                reaches(start, *input),
                esc_iterates(self.normal, self.control, self.body, start, cursors),
                cursors.last() == *input,
            decreases input.width(),
        {
            let cur = *input;
            let len = input.eof_offset();
            proof {
                lemma_reaches_refl(start);
            }
            if len == 0 {
                if input.is_partial() {
                    *input = start;
                    return Err(ErrMode::Incomplete(Needed::Unknown));
                } else {
                    return Ok(start.slice_to(input));
                }
            }
            let inner = self.normal.parse_next(input);
            let ghost mid = *input;
            proof {
                lemma_reaches_trans(start, cur, mid);
            }
            match inner {
                Ok(_) => {
                    if input.eof_offset() == len {
                        return Ok(start.slice_to(input));
                    }
                    proof {
                        let grown = cursors.push(mid);
                        assert(run_taken(self.normal, cur, mid));
                        assert forall|k: int| 0 <= k < grown.len() - 1 implies #[trigger] esc_stepped(
                            self.normal,
                            self.control,
                            self.body,
                            grown,
                            k,
                        ) by {
                            if k < cursors.len() - 1 {
                                assert(esc_stepped(self.normal, self.control, self.body, cursors, k));
                                assert(grown[k] == cursors[k]);
                                assert(grown[k + 1] == cursors[k + 1]);
                            } else {
                                assert(grown[k] == cur);
                                assert(grown[k + 1] == mid);
                            }
                        }
                        cursors = grown;
                    }
                },
                Err(ErrMode::Backtrack(failure)) => {
                    assert(self.normal.parses(cur, mid, Err(ErrMode::Backtrack(failure))));
                    *input = cur;
                    let first = input.next_token();
                    let ghost after = *input;
                    let is_escape = match first {
                        Some(t) => t.as_u32() == self.control as u32,
                        None => false,
                    };
                    if is_escape {
                        proof {
                            lemma_reaches_trans(start, cur, after);
                        }
                        if input.eof_offset() == 0 {
                            *input = start;
                            if input.is_partial() {
                                return Err(ErrMode::Incomplete(Needed::Size(1)));
                            } else {
                                return Err(
                                    ErrMode::Cut(E::from_error_kind(&start, ErrorKind::Escaped)),
                                );
                            }
                        }
                        let body = self.body.parse_next(input);
                        let ghost end = *input;
                        proof {
                            lemma_reaches_trans(start, after, end);
                            lemma_reaches_trans(cur, after, end);
                        }
                        match body {
                            Ok(o) => {
                                proof {
                                    let grown = cursors.push(end);
                                    assert(self.body.parses(after, end, Ok(o)));
                                    assert(escape_taken(
                                        self.normal,
                                        self.control,
                                        self.body,
                                        cur,
                                        end,
                                    ));
                                    assert forall|k: int| 0 <= k < grown.len() - 1 implies #[trigger] esc_stepped(
                                        self.normal,
                                        self.control,
                                        self.body,
                                        grown,
                                        k,
                                    ) by {
                                        if k < cursors.len() - 1 {
                                            assert(esc_stepped(
                                                self.normal,
                                                self.control,
                                                self.body,
                                                cursors,
                                                k,
                                            ));
                                            assert(grown[k] == cursors[k]);
                                            assert(grown[k + 1] == cursors[k + 1]);
                                        } else {
                                            assert(grown[k] == cur);
                                            assert(grown[k + 1] == end);
                                        }
                                    }
                                    cursors = grown;
                                }
                            },
                            Err(ErrMode::Backtrack(e)) => {
                                let r = Err(
                                    ErrMode::Cut(e.append(input, &start, ErrorKind::Escaped)),
                                );
                                assert(self.body.parses(after, end, body));
                                assert(escape_fails(
                                    self.body,
                                    ErrorKind::Escaped,
                                    start,
                                    start,
                                    cur,
                                    end,
                                    r,
                                ));
                                return r;
                            },
                            Err(other) => {
                                let r = Err(other);
                                assert(self.body.parses(after, end, body));
                                assert(escape_fails(
                                    self.body,
                                    ErrorKind::Escaped,
                                    start,
                                    start,
                                    cur,
                                    end,
                                    r,
                                ));
                                return r;
                            },
                        }
                    } else {
                        *input = cur;
                        if start.eof_offset() == len {
                            *input = start;
                            return Err(ErrMode::from_error_kind(input, ErrorKind::Escaped));
                        } else {
                            return Ok(start.slice_to(input));
                        }
                    }
                },
                Err(other) => {
                    return Err(other);
                },
            }
        }
    }
}


/// Step `k` of a decoding trace: with input left, a run of ordinary tokens
/// that `normal` gives as `pieces[k]`, or an escape sequence for which `body`
/// gives the replacement `pieces[k]`.
pub open spec fn decode_stepped<
    I: Stream,
    E,
    N: Parser<I, E, Output = I::Slice>,
    B: Parser<I, E, Output = I::Slice>,
>(normal: N, control: char, body: B, cursors: Seq<I>, pieces: Seq<I::Slice>, k: int) -> bool where
    I::Token: AsChar,
 {
    let from = cursors[k];
    let to = cursors[k + 1];
    &&& from.tokens().len() > 0
    &&& (normal.parses(from, to, Ok(pieces[k])) && reaches(from, to) && to.width() < from.width()) || {
        &&& exists|mid: I, e: E| #[trigger]
            normal.parses(from, mid, Err(ErrMode::Backtrack(e))) && reaches(from, mid)
        &&& escape_at(from, control)
        &&& exists|after: I|
            after.tokens() == from.tokens().skip(1) && #[trigger] reaches(from, after) && body.parses(
                after,
                to,
                Ok(pieces[k]),
            ) && reaches(after, to)
    }
}

/// A decoding trace from `start` on: the positions between the steps and the
/// piece that each step gives.
pub open spec fn decode_iterates<
    I: Stream,
    E,
    N: Parser<I, E, Output = I::Slice>,
    B: Parser<I, E, Output = I::Slice>,
>(normal: N, control: char, body: B, start: I, cursors: Seq<I>, pieces: Seq<I::Slice>) -> bool where
    I::Token: AsChar,
 {
    &&& cursors.len() == pieces.len() + 1
    &&& cursors[0] == start
    &&& forall|k: int|
        0 <= k < pieces.len() ==> #[trigger] decode_stepped(normal, control, body, cursors, pieces, k)
}

/// How a decoding ends at `cur`, as [`esc_stops`] says of an escaped text, but
/// with the collected pieces as its value, with the failures of kind
/// `ErrorKind::EscapedTransform`, and with an escape token that nothing
/// follows blamed where it stands.
pub open spec fn decode_stops<
    I: Stream,
    E: ParserError<I>,
    N: Parser<I, E, Output = I::Slice>,
    B: Parser<I, E, Output = I::Slice>,
    C: Accumulate<I::Slice>,
>(
    normal: N,
    control: char,
    body: B,
    start: I,
    cur: I,
    pieces: Seq<I::Slice>,
    end: I,
    result: PResult<C, E>,
) -> bool where I::Token: AsChar {
    if cur.tokens().len() == 0 {
        if start.partial() {
            end == start && result == Err::<C, ErrMode<E>>(ErrMode::Incomplete(Needed::Unknown))
        } else {
            end == cur && (result matches Ok(c) && c.holds(pieces))
        }
    } else {
        exists|mid: I, inner: PResult<I::Slice, E>| #[trigger]
            normal.parses(cur, mid, inner) && reaches(cur, mid) && match inner {
                Ok(_) => mid.width() >= cur.width() && end == mid && (result matches Ok(c)
                    && c.holds(pieces)),
                Err(ErrMode::Backtrack(_)) => if escape_at(cur, control) {
                    escape_fails(body, ErrorKind::EscapedTransform, cur, start, cur, end, result)
                } else if cur.width() >= start.width() {
                    rejected_at(start, ErrorKind::EscapedTransform, end, result)
                } else {
                    end == cur && (result matches Ok(c) && c.holds(pieces))
                },
                Err(other) => end == mid && result == Err::<C, ErrMode<E>>(other),
            }
    }
}

/// A text with escape sequences, decoded. See [`escaped_transform`].
pub struct EscapedTransform<N, B, C> {
    pub normal: N,
    pub control: char,
    pub body: B,
    pub collection: core::marker::PhantomData<C>,
}

/// Consumes runs and escape sequences as [`escaped`] does and gives the
/// decoded text: the runs that `normal` matched, and in place of each escape
/// sequence the replacement that `body` gave for it, joined in a `C`.
pub fn escaped_transform<N, B, C>(normal: N, control: char, body: B) -> (p: EscapedTransform<N, B, C>)
    ensures
        p.normal == normal,
        p.control == control,
        p.body == body,
{
    EscapedTransform { normal, control, body, collection: core::marker::PhantomData }
}

impl<
    I: Stream,
    E: ParserError<I>,
    N: Parser<I, E, Output = I::Slice>,
    B: Parser<I, E, Output = I::Slice>,
    C: Accumulate<I::Slice>,
> Parser<I, E> for EscapedTransform<N, B, C> where I::Token: AsChar {
    type Output = C;

    open spec fn inv(&self) -> bool {
        self.normal.inv() && self.body.inv()
    }

    open spec fn parses(&self, start: I, end: I, result: PResult<C, E>) -> bool {
        exists|cursors: Seq<I>, pieces: Seq<I::Slice>| #[trigger]
            decode_iterates(self.normal, self.control, self.body, start, cursors, pieces) && reaches(
                start,
                cursors.last(),
            ) && decode_stops(
                self.normal,
                self.control,
                self.body,
                start,
                cursors.last(),
                pieces,
                end,
                result,
            )
    }

    fn parse_next(&self, input: &mut I) -> (result: PResult<C, E>) {
        let start = *input;
        let mut acc = C::initial();
        let mut count: usize = 0;
        let ghost mut cursors: Seq<I> = seq![start];
        let ghost mut pieces: Seq<I::Slice> = Seq::empty();
        let total = start.eof_offset();
        proof {
            lemma_reaches_refl(start);
        }
        loop
            invariant
                start == *old(input),
                self.normal.inv(),
                self.body.inv(),
                reaches(start, *input),
                decode_iterates(self.normal, self.control, self.body, start, cursors, pieces),
                cursors.last() == *input,
                acc.holds(pieces),
                pieces.len() == count,
                count + input.width() <= total,
            decreases input.width(),
        {
            let cur = *input;
            let len = input.eof_offset();
            proof {
                lemma_reaches_refl(start);
            }
            if len == 0 {
                if input.is_partial() {
                    *input = start;
                    return Err(ErrMode::Incomplete(Needed::Unknown));
                } else {
                    return Ok(acc);
                }
            }
            let inner = self.normal.parse_next(input);
            let ghost mid = *input;
            proof {
                lemma_reaches_trans(start, cur, mid);
            }
            match inner {
                Ok(piece) => {
                    if input.eof_offset() == len {
                        return Ok(acc);
                    }
                    proof {
                        let grown = cursors.push(mid);
                        let more = pieces.push(piece);
                        assert forall|k: int| 0 <= k < more.len() implies #[trigger] decode_stepped(
                            self.normal,
                            self.control,
                            self.body,
                            grown,
                            more,
                            k,
                        ) by {
                            if k < pieces.len() {
                                assert(decode_stepped(
                                    self.normal,
                                    self.control,
                                    self.body,
                                    cursors,
                                    pieces,
                                    k,
                                ));
                                assert(grown[k] == cursors[k]);
                                assert(grown[k + 1] == cursors[k + 1]);
                                assert(more[k] == pieces[k]);
                            } else {
                                assert(grown[k] == cur);
                                assert(grown[k + 1] == mid);
                                assert(more[k] == piece);
                            }
                        }
                        cursors = grown;
                        pieces = more;
                    }
                    acc.accumulate(piece);
                    count = count + 1;
                },
                Err(ErrMode::Backtrack(failure)) => {
                    assert(self.normal.parses(cur, mid, Err(ErrMode::Backtrack(failure))));
                    *input = cur;
                    let first = input.next_token();
                    let ghost after = *input;
                    let is_escape = match first {
                        Some(t) => t.as_u32() == self.control as u32,
                        None => false,
                    };
                    if is_escape {
                        proof {
                            lemma_reaches_trans(start, cur, after);
                        }
                        if input.eof_offset() == 0 {
                            *input = start;
                            if input.is_partial() {
                                return Err(ErrMode::Incomplete(Needed::Size(1)));
                            } else {
                                return Err(
                                    ErrMode::Cut(E::from_error_kind(&cur, ErrorKind::EscapedTransform)),
                                );
                            }
                        }
                        let body = self.body.parse_next(input);
                        let ghost end = *input;
                        proof {
                            lemma_reaches_trans(start, after, end);
                            lemma_reaches_trans(cur, after, end);
                        }
                        match body {
                            Ok(piece) => {
                                proof {
                                    let grown = cursors.push(end);
                                    let more = pieces.push(piece);
                                    assert(self.body.parses(after, end, Ok(piece)));
                                    assert(reaches(cur, after));
                                    assert forall|k: int| 0 <= k < more.len() implies #[trigger] decode_stepped(
                                        self.normal,
                                        self.control,
                                        self.body,
                                        grown,
                                        more,
                                        k,
                                    ) by {
                                        if k < pieces.len() {
                                            assert(decode_stepped(
                                                self.normal,
                                                self.control,
                                                self.body,
                                                cursors,
                                                pieces,
                                                k,
                                            ));
                                            assert(grown[k] == cursors[k]);
                                            assert(grown[k + 1] == cursors[k + 1]);
                                            assert(more[k] == pieces[k]);
                                        } else {
                                            assert(grown[k] == cur);
                                            assert(grown[k + 1] == end);
                                            assert(more[k] == piece);
                                        }
                                    }
                                    cursors = grown;
                                    pieces = more;
                                }
                                acc.accumulate(piece);
                                count = count + 1;
                            },
                            Err(ErrMode::Backtrack(e)) => {
                                let r = Err(
                                    ErrMode::Cut(
                                        e.append(input, &start, ErrorKind::EscapedTransform),
                                    ),
                                );
                                assert(self.body.parses(after, end, body));
                                assert(escape_fails(
                                    self.body,
                                    ErrorKind::EscapedTransform,
                                    cur,
                                    start,
                                    cur,
                                    end,
                                    r,
                                ));
                                return r;
                            },
                            Err(other) => {
                                let r = Err(other);
                                assert(self.body.parses(after, end, body));
                                assert(escape_fails(
                                    self.body,
                                    ErrorKind::EscapedTransform,
                                    cur,
                                    start,
                                    cur,
                                    end,
                                    r,
                                ));
                                return r;
                            },
                        }
                    } else {
                        *input = cur;
                        if start.eof_offset() == len {
                            *input = start;
                            return Err(ErrMode::from_error_kind(input, ErrorKind::EscapedTransform));
                        } else {
                            return Ok(acc);
                        }
                    }
                },
                Err(other) => {
                    return Err(other);
                },
            }
        }
    }
}

} // verus!

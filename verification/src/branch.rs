//! Branching: ordered alternation and permutation.
use crate::error::{ErrMode, ErrorKind, PResult, ParserError};
use crate::parser::Parser;
use crate::stream::{lemma_reaches_refl, lemma_reaches_trans, reaches, Stream};
use vstd::prelude::*;

verus! {

/// One alternative of a choice: `parser` runs at `start`. Where it fails
/// recoverably at `mid` with `e`, the choice goes on as `otherwise(mid, e)`
/// says. Every other answer (success, cut, request for more input) is the
/// answer of the choice.
pub open spec fn attempt<I: Stream, E, P: Parser<I, E>>(
    parser: P,
    start: I,
    end: I,
    result: PResult<P::Output, E>,
    otherwise: spec_fn(I, E) -> bool,
) -> bool {
    exists|mid: I, inner: PResult<P::Output, E>| #[trigger]
        parser.parses(start, mid, inner) && reaches(start, mid) && match inner {
            Err(ErrMode::Backtrack(e)) => otherwise(mid, e),
            _ => end == mid && result == inner,
        }
}

/// The payloads of two failed alternatives are merged, and the choice goes on
/// with the merged payload.
pub open spec fn merged<I: Stream, E: ParserError<I>>(
    first: E,
    second: E,
    then: spec_fn(E) -> bool,
) -> bool {
    exists|both: E| #[trigger] E::is_or(first, second, both) && then(both)
}

/// Every alternative failed recoverably: the choice fails recoverably where the
/// last alternative left the cursor, with the merged payload and the context
/// `ErrorKind::Alt`.
pub open spec fn exhausted<I: Stream, E: ParserError<I>, O>(
    payload: E,
    last: I,
    start: I,
    end: I,
    result: PResult<O, E>,
) -> bool {
    &&& end == last
    &&& result matches Err(ErrMode::Backtrack(e))
    &&& E::is_append(payload, last, start, ErrorKind::Alt, e)
}

/// A choice between the parsers that `alternatives` holds. See [`alt`].
pub struct Alt<L> {
    pub alternatives: L,
}

/// Tries each alternative in order from the same position; the first answer
/// that is not a recoverable failure wins. `alternatives` is a tuple of two to
/// four parsers, an array, a slice or a vector of parsers, all with one output
/// type.
pub fn alt<L>(alternatives: L) -> (p: Alt<L>)
    ensures
        p.alternatives == alternatives,
{
    Alt { alternatives }
}

impl<I: Stream, E: ParserError<I>, Pa: Parser<I, E>, Pb: Parser<I, E, Output = Pa::Output>> Parser<
    I,
    E,
> for Alt<(Pa, Pb)> {
    type Output = Pa::Output;

    open spec fn inv(&self) -> bool {
        self.alternatives.0.inv() && self.alternatives.1.inv()
    }

    open spec fn parses(&self, start: I, end: I, result: PResult<Pa::Output, E>) -> bool {
        attempt(
            self.alternatives.0,
            start,
            end,
            result,
            |m1: I, e1: E|
                attempt(
                    self.alternatives.1,
                    start,
                    end,
                    result,
                    |m2: I, e2: E|
                        merged::<I, E>(e1, e2, |e12: E| exhausted(e12, m2, start, end, result)),
                ),
        )
    }

    fn parse_next(&self, input: &mut I) -> (result: PResult<Pa::Output, E>) {
        let start = *input;
        match self.alternatives.0.parse_next(input) {
            Err(ErrMode::Backtrack(e1)) => {
                *input = start;
                match self.alternatives.1.parse_next(input) {
                    Err(ErrMode::Backtrack(e2)) => {
                        let e12 = e1.or(e2);
                        Err(ErrMode::Backtrack(e12.append(input, &start, ErrorKind::Alt)))
                    },
                    other => other,
                }
            },
            other => other,
        }
    }
}

impl<
    I: Stream,
    E: ParserError<I>,
    Pa: Parser<I, E>,
    Pb: Parser<I, E, Output = Pa::Output>,
    Pc: Parser<I, E, Output = Pa::Output>,
> Parser<I, E> for Alt<(Pa, Pb, Pc)> {
    type Output = Pa::Output;

    open spec fn inv(&self) -> bool {
        self.alternatives.0.inv() && self.alternatives.1.inv() && self.alternatives.2.inv()
    }

    open spec fn parses(&self, start: I, end: I, result: PResult<Pa::Output, E>) -> bool {
        attempt(
            self.alternatives.0,
            start,
            end,
            result,
            |m1: I, e1: E|
                attempt(
                    self.alternatives.1,
                    start,
                    end,
                    result,
                    |m2: I, e2: E|
                        merged::<I, E>(
                            e1,
                            e2,
                            |e12: E|
                                attempt(
                                    self.alternatives.2,
                                    start,
                                    end,
                                    result,
                                    |m3: I, e3: E|
                                        merged::<I, E>(
                                            e12,
                                            e3,
                                            |e123: E| exhausted(e123, m3, start, end, result),
                                        ),
                                ),
                        ),
                ),
        )
    }

    fn parse_next(&self, input: &mut I) -> (result: PResult<Pa::Output, E>) {
        let start = *input;
        match self.alternatives.0.parse_next(input) {
            Err(ErrMode::Backtrack(e1)) => {
                *input = start;
                match self.alternatives.1.parse_next(input) {
                    Err(ErrMode::Backtrack(e2)) => {
                        let e12 = e1.or(e2);
                        *input = start;
                        match self.alternatives.2.parse_next(input) {
                            Err(ErrMode::Backtrack(e3)) => {
                                let e123 = e12.or(e3);
                                Err(ErrMode::Backtrack(e123.append(input, &start, ErrorKind::Alt)))
                            },
                            other => other,
                        }
                    },
                    other => other,
                }
            },
            other => other,
        }
    }
}

impl<
    I: Stream,
    E: ParserError<I>,
    Pa: Parser<I, E>,
    Pb: Parser<I, E, Output = Pa::Output>,
    Pc: Parser<I, E, Output = Pa::Output>,
    Pd: Parser<I, E, Output = Pa::Output>,
> Parser<I, E> for Alt<(Pa, Pb, Pc, Pd)> {
    type Output = Pa::Output;

    open spec fn inv(&self) -> bool {
        &&& self.alternatives.0.inv()
        &&& self.alternatives.1.inv()
        &&& self.alternatives.2.inv()
        &&& self.alternatives.3.inv()
    }

    open spec fn parses(&self, start: I, end: I, result: PResult<Pa::Output, E>) -> bool {
        attempt(
            self.alternatives.0,
            start,
            end,
            result,
            |m1: I, e1: E|
                attempt(
                    self.alternatives.1,
                    start,
                    end,
                    result,
                    |m2: I, e2: E|
                        merged::<I, E>(
                            e1,
                            e2,
                            |e12: E|
                                attempt(
                                    self.alternatives.2,
                                    start,
                                    end,
                                    result,
                                    |m3: I, e3: E|
                                        merged::<I, E>(
                                            e12,
                                            e3,
                                            |e123: E|
                                                attempt(
                                                    self.alternatives.3,
                                                    start,
                                                    end,
                                                    result,
                                                    |m4: I, e4: E|
                                                        merged::<I, E>(
                                                            e123,
                                                            e4,
                                                            |e1234: E|
                                                                exhausted(
                                                                    e1234,
                                                                    m4,
                                                                    start,
                                                                    end,
                                                                    result,
                                                                ),
                                                        ),
                                                ),
                                        ),
                                ),
                        ),
                ),
        )
    }

    fn parse_next(&self, input: &mut I) -> (result: PResult<Pa::Output, E>) {
        let start = *input;
        match self.alternatives.0.parse_next(input) {
            Err(ErrMode::Backtrack(e1)) => {
                *input = start;
                match self.alternatives.1.parse_next(input) {
                    Err(ErrMode::Backtrack(e2)) => {
                        let e12 = e1.or(e2);
                        *input = start;
                        match self.alternatives.2.parse_next(input) {
                            Err(ErrMode::Backtrack(e3)) => {
                                let e123 = e12.or(e3);
                                *input = start;
                                match self.alternatives.3.parse_next(input) {
                                    Err(ErrMode::Backtrack(e4)) => {
                                        let e1234 = e123.or(e4);
                                        Err(
                                            ErrMode::Backtrack(
                                                e1234.append(input, &start, ErrorKind::Alt),
                                            ),
                                        )
                                    },
                                    other => other,
                                }
                            },
                            other => other,
                        }
                    },
                    other => other,
                }
            },
            other => other,
        }
    }
}

/// The payload carried into alternative number `k` of a list: nothing before
/// the first alternative, afterwards the merged payload of those that failed
/// and the place where the last of them left the cursor.
pub open spec fn joined<I: Stream, E: ParserError<I>>(carried: Option<(I, E)>, e: E, both: E) -> bool {
    match carried {
        None => both == e,
        Some((_, earlier)) => E::is_or(earlier, e, both),
    }
}

/// The choice among `parsers[k..]`, all of `parsers[..k]` having failed
/// recoverably. A list without parsers is a usage error: an unrecoverable
/// failure of kind `ErrorKind::Assert`.
pub open spec fn choice_from<I: Stream, E: ParserError<I>, P: Parser<I, E>>(
    parsers: Seq<P>,
    k: int,
    carried: Option<(I, E)>,
    start: I,
    end: I,
    result: PResult<P::Output, E>,
) -> bool
    decreases parsers.len() - k,
{
    if k < 0 {
        false
    } else if k >= parsers.len() {
        match carried {
            Some((last, payload)) => exhausted(payload, last, start, end, result),
            None => {
                &&& end == start
                &&& result matches Err(ErrMode::Cut(e))
                &&& E::is_from_error_kind(start, ErrorKind::Assert, e)
            },
        }
    } else {
        exists|mid: I, inner: PResult<P::Output, E>| #[trigger]
            parsers[k].parses(start, mid, inner) && reaches(start, mid) && match inner {
                Err(ErrMode::Backtrack(e)) => exists|both: E| #[trigger]
                    joined(carried, e, both) && choice_from(
                        parsers,
                        k + 1,
                        Some((mid, both)),
                        start,
                        end,
                        result,
                    ),
                _ => end == mid && result == inner,
            }
    }
}

/// The carried payload together with the place where it was last extended.
pub open spec fn carry<I, E>(last: I, carried: Option<E>) -> Option<(I, E)> {
    match carried {
        None => None,
        Some(e) => Some((last, e)),
    }
}

/// Every parser of the list may be called.
pub open spec fn all_inv<I: Stream, E, P: Parser<I, E>>(parsers: Seq<P>) -> bool {
    forall|k: int| 0 <= k < parsers.len() ==> (#[trigger] parsers[k]).inv()
}

/// Tries the parsers of a slice in order from the same position.
pub fn alt_slice<I: Stream, E: ParserError<I>, P: Parser<I, E>>(parsers: &[P], input: &mut I) -> (result:
    PResult<P::Output, E>)
    requires
        all_inv::<I, E, P>(parsers@),
    ensures
        choice_from(parsers@, 0, None, *old(input), *final(input), result),
        reaches(*old(input), *final(input)),
{
    let start = *input;
    let mut carried: Option<E> = None;
    let mut k: usize = 0;
    let ghost mut last: I = start;
    proof {
        lemma_reaches_refl(start);
    }
    while k < parsers.len()
        invariant
            k <= parsers@.len(),
            start == *old(input),
            all_inv::<I, E, P>(parsers@),
            reaches(start, *input),
            carried is None ==> k == 0,
            k == 0 ==> carried is None && *input == start,
            carried is Some ==> *input == last,
            forall|end: I, result: PResult<P::Output, E>| #[trigger]
                choice_from(
                    parsers@,
                    k as int,
                    carry(last, carried),
                    start,
                    end,
                    result,
                ) ==> choice_from(parsers@, 0, None, start, end, result),
        decreases parsers@.len() - k,
    {
        let ghost before: Option<(I, E)> = carry(last, carried);
        *input = start;
        let inner = parsers[k].parse_next(input);
        let ghost mid = *input;
        match inner {
            Err(ErrMode::Backtrack(e)) => {
                let both = match carried {
                    Some(earlier) => earlier.or(e),
                    None => e,
                };
                assert(joined(before, e, both));
                assert forall|end: I, result: PResult<P::Output, E>| #[trigger]
                    choice_from(parsers@, k + 1, Some((mid, both)), start, end, result) implies choice_from(
                    parsers@,
                    0,
                    None,
                    start,
                    end,
                    result,
                ) by {
                    assert(parsers@[k as int].parses(start, mid, inner) && reaches(start, mid));
                    assert(choice_from(parsers@, k as int, before, start, end, result));
                }
                carried = Some(both);
                proof {
                    last = mid;
                }
                k = k + 1;
            },
            other => {
                assert(parsers@[k as int].parses(start, mid, other) && reaches(start, mid));
                assert(choice_from(parsers@, k as int, before, start, mid, other));
                return other;
            },
        }
    }
    match carried {
        Some(payload) => {
            let r = Err(ErrMode::Backtrack(payload.append(input, &start, ErrorKind::Alt)));
            assert(choice_from(parsers@, k as int, Some((last, payload)), start, *input, r));
            r
        },
        None => {
            let r = Err(ErrMode::assertion(input));
            assert(choice_from(parsers@, k as int, None, start, *input, r));
            r
        },
    }
}

impl<'p, I: Stream, E: ParserError<I>, P: Parser<I, E>> Parser<I, E> for Alt<&'p [P]> {
    type Output = P::Output;

    open spec fn inv(&self) -> bool {
        all_inv::<I, E, P>(self.alternatives@)
    }

    open spec fn parses(&self, start: I, end: I, result: PResult<P::Output, E>) -> bool {
        choice_from(self.alternatives@, 0, None, start, end, result)
    }

    fn parse_next(&self, input: &mut I) -> (result: PResult<P::Output, E>) {
        alt_slice(self.alternatives, input)
    }
}

impl<I: Stream, E: ParserError<I>, P: Parser<I, E>> Parser<I, E> for Alt<Vec<P>> {
    type Output = P::Output;

    open spec fn inv(&self) -> bool {
        all_inv::<I, E, P>(self.alternatives@)
    }

    open spec fn parses(&self, start: I, end: I, result: PResult<P::Output, E>) -> bool {
        choice_from(self.alternatives@, 0, None, start, end, result)
    }

    fn parse_next(&self, input: &mut I) -> (result: PResult<P::Output, E>) {
        alt_slice(self.alternatives.as_slice(), input)
    }
}

impl<I: Stream, E: ParserError<I>, P: Parser<I, E>, const N: usize> Parser<I, E> for Alt<[P; N]> {
    type Output = P::Output;

    open spec fn inv(&self) -> bool {
        all_inv::<I, E, P>(self.alternatives@)
    }

    open spec fn parses(&self, start: I, end: I, result: PResult<P::Output, E>) -> bool {
        choice_from(self.alternatives@, 0, None, start, end, result)
    }

    fn parse_next(&self, input: &mut I) -> (result: PResult<P::Output, E>) {
        alt_slice(self.alternatives.as_slice(), input)
    }
}


/// The turn of one parser within a scan of a permutation. A parser whose slot
/// is filled is passed over. One whose slot is empty runs at `cur`: where it
/// succeeds, the permutation goes on as `matched` says; where it fails
/// recoverably, its payload joins the carried one and the scan goes on as
/// `next` says; any other failure is the failure of the permutation.
pub open spec fn turn<I: Stream, E: ParserError<I>, O, P: Parser<I, E>>(
    parser: P,
    filled: bool,
    carried: Option<E>,
    cur: I,
    end: I,
    result: PResult<O, E>,
    matched: spec_fn(I, P::Output) -> bool,
    next: spec_fn(Option<E>) -> bool,
) -> bool {
    if filled {
        next(carried)
    } else {
        exists|mid: I, inner: PResult<P::Output, E>| #[trigger]
            parser.parses(cur, mid, inner) && reaches(cur, mid) && match inner {
                Ok(o) => matched(mid, o),
                Err(ErrMode::Backtrack(e)) => exists|both: E| #[trigger]
                    joined(carry(cur, carried), e, both) && next(Some(both)),
                Err(other) => end == mid && result == Err::<O, ErrMode<E>>(other),
            }
    }
}

/// A scan found no parser that matches at `cur`: the permutation fails
/// recoverably at `cur` with the merged payload and the context `ErrorKind::Alt`.
pub open spec fn stuck<I: Stream, E: ParserError<I>, O>(
    carried: Option<E>,
    cur: I,
    end: I,
    result: PResult<O, E>,
) -> bool {
    &&& carried matches Some(payload)
    &&& end == cur
    &&& result matches Err(ErrMode::Backtrack(e))
    &&& E::is_append(payload, cur, cur, ErrorKind::Alt, e)
}

/// The number of empty slots among two.
pub open spec fn missing2<A, B>(slots: (Option<A>, Option<B>)) -> nat {
    (if slots.0 is None {
        1nat
    } else {
        0nat
    }) + (if slots.1 is None {
        1nat
    } else {
        0nat
    })
}

/// The permutation of two parsers from `cur` on, `slots` holding the outputs
/// of those that have matched.
pub open spec fn permutes2<I: Stream, E: ParserError<I>, Pa: Parser<I, E>, Pb: Parser<I, E>>(
    parsers: (Pa, Pb),
    slots: (Option<Pa::Output>, Option<Pb::Output>),
    cur: I,
    end: I,
    result: PResult<(Pa::Output, Pb::Output), E>,
) -> bool
    decreases missing2(slots),
{
    if slots.0 is Some && slots.1 is Some {
        end == cur && result == Ok::<(Pa::Output, Pb::Output), ErrMode<E>>(
            (slots.0->Some_0, slots.1->Some_0),
        )
    } else {
        turn(
            parsers.0,
            slots.0 is Some,
            None,
            cur,
            end,
            result,
            |mid: I, o: Pa::Output|
                slots.0 is None && permutes2(parsers, (Some(o), slots.1), mid, end, result),
            |c1: Option<E>|
                turn(
                    parsers.1,
                    slots.1 is Some,
                    c1,
                    cur,
                    end,
                    result,
                    |mid: I, o: Pb::Output|
                        slots.1 is None && permutes2(parsers, (slots.0, Some(o)), mid, end, result),
                    |c2: Option<E>| stuck(c2, cur, end, result),
                ),
        )
    }
}


/// Parsers to be matched in any order. See [`permutation`].
pub struct Permutation<L> {
    pub parsers: L,
}

/// Applies the parsers of a pair or a triple in whatever order the input has
/// them: it scans the parsers not yet matched, in their declared order, and
/// applies the first that matches, until all have matched. The outputs come
/// back in declared order. A scan in which none matches fails recoverably with
/// the context `ErrorKind::Alt` at the place of the scan; a cut or a request
/// for more input ends the permutation at once.
pub fn permutation<L>(parsers: L) -> (p: Permutation<L>)
    ensures
        p.parsers == parsers,
{
    Permutation { parsers }
}

/// The payload of a failed parser joined to what the scan carries.
fn join<I: Stream, E: ParserError<I>>(cur: &I, carried: Option<E>, e: E) -> (both: E)
    ensures
        joined(carry(*cur, carried), e, both),
{
    match carried {
        Some(earlier) => earlier.or(e),
        None => e,
    }
}

impl<I: Stream, E: ParserError<I>, Pa: Parser<I, E>, Pb: Parser<I, E>> Parser<I, E> for Permutation<
    (Pa, Pb),
> {
    type Output = (Pa::Output, Pb::Output);

    open spec fn inv(&self) -> bool {
        self.parsers.0.inv() && self.parsers.1.inv()
    }

    open spec fn parses(&self, start: I, end: I, result: PResult<(Pa::Output, Pb::Output), E>) -> bool {
        permutes2(self.parsers, (None, None), start, end, result)
    }

    fn parse_next(&self, input: &mut I) -> (result: PResult<(Pa::Output, Pb::Output), E>) {
        let ghost start = *input;
        let mut a: Option<Pa::Output> = None;
        let mut b: Option<Pb::Output> = None;
        proof {
            lemma_reaches_refl(start);
        }
        loop
            invariant
                start == *old(input),
                self.inv(),
                reaches(start, *input),
                forall|end: I, result: PResult<(Pa::Output, Pb::Output), E>| #[trigger]
                    permutes2(self.parsers, (a, b), *input, end, result) ==> permutes2(
                        self.parsers,
                        (None, None),
                        start,
                        end,
                        result,
                    ),
            decreases missing2((a, b)),
        {
            let cur = *input;
            let ghost slots = (a, b);
            let mut carried: Option<E> = None;
            if a.is_none() {
                let inner = self.parsers.0.parse_next(input);
                let ghost mid = *input;
                proof {
                    lemma_reaches_trans(start, cur, mid);
                }
                match inner {
                    Ok(o) => {
                        a = Some(o);
                        assert forall|end: I, result: PResult<(Pa::Output, Pb::Output), E>| #[trigger]
                            permutes2(self.parsers, (a, b), mid, end, result) implies permutes2(
                            self.parsers,
                            (None, None),
                            start,
                            end,
                            result,
                        ) by {
                            assert(self.parsers.0.parses(cur, mid, inner) && reaches(cur, mid));
                            assert(permutes2(self.parsers, slots, cur, end, result));
                        }
                        continue ;
                    },
                    Err(ErrMode::Backtrack(e)) => {
                        carried = Some(join(&cur, carried, e));
                        *input = cur;
                    },
                    Err(other) => {
                        let r = Err(other);
                        assert(self.parsers.0.parses(cur, mid, inner) && reaches(cur, mid));
                        assert(permutes2(self.parsers, slots, cur, mid, r));
                        return r;
                    },
                }
            }
            let ghost c1 = carried;
            if b.is_none() {
                let inner = self.parsers.1.parse_next(input);
                let ghost mid = *input;
                proof {
                    lemma_reaches_trans(start, cur, mid);
                }
                match inner {
                    Ok(o) => {
                        b = Some(o);
                        assert forall|end: I, result: PResult<(Pa::Output, Pb::Output), E>| #[trigger]
                            permutes2(self.parsers, (a, b), mid, end, result) implies permutes2(
                            self.parsers,
                            (None, None),
                            start,
                            end,
                            result,
                        ) by {
                            assert(self.parsers.1.parses(cur, mid, inner) && reaches(cur, mid));
                            assert(permutes2(self.parsers, slots, cur, end, result));
                        }
                        continue ;
                    },
                    Err(ErrMode::Backtrack(e)) => {
                        carried = Some(join(&cur, carried, e));
                        *input = cur;
                    },
                    Err(other) => {
                        let r = Err(other);
                        assert(self.parsers.1.parses(cur, mid, inner) && reaches(cur, mid));
                        assert(permutes2(self.parsers, slots, cur, mid, r));
                        return r;
                    },
                }
            }
            match carried {
                Some(payload) => {
                    *input = cur;
                    let r = Err(ErrMode::Backtrack(payload.append(input, &cur, ErrorKind::Alt)));
                    assert(stuck(carried, cur, cur, r));
                    assert(permutes2(self.parsers, slots, cur, cur, r));
                    return r;
                },
                None => {
                    match (a, b) {
                        (Some(x), Some(y)) => {
                            let r = Ok((x, y));
                            assert(permutes2(self.parsers, slots, cur, cur, r));
                            return r;
                        },
                        _ => {
                            proof {
                                assert(false);
                            }
                            return Err(ErrMode::assertion(input));
                        },
                    }
                },
            }
        }
    }
}


/// The number of empty slots among three.
pub open spec fn missing3<A, B, C>(slots: (Option<A>, Option<B>, Option<C>)) -> nat {
    missing2((slots.0, slots.1)) + (if slots.2 is None {
        1nat
    } else {
        0nat
    })
}

/// The permutation of three parsers from `cur` on, `slots` holding the
/// outputs of those that have matched.
pub open spec fn permutes3<
    I: Stream,
    E: ParserError<I>,
    Pa: Parser<I, E>,
    Pb: Parser<I, E>,
    Pc: Parser<I, E>,
>(
    parsers: (Pa, Pb, Pc),
    slots: (Option<Pa::Output>, Option<Pb::Output>, Option<Pc::Output>),
    cur: I,
    end: I,
    result: PResult<(Pa::Output, Pb::Output, Pc::Output), E>,
) -> bool
    decreases missing3(slots),
{
    if slots.0 is Some && slots.1 is Some && slots.2 is Some {
        end == cur && result == Ok::<(Pa::Output, Pb::Output, Pc::Output), ErrMode<E>>(
            (slots.0->Some_0, slots.1->Some_0, slots.2->Some_0),
        )
    } else {
        turn(
            parsers.0,
            slots.0 is Some,
            None,
            cur,
            end,
            result,
            |mid: I, o: Pa::Output|
                slots.0 is None && permutes3(parsers, (Some(o), slots.1, slots.2), mid, end, result),
            |c1: Option<E>|
                turn(
                    parsers.1,
                    slots.1 is Some,
                    c1,
                    cur,
                    end,
                    result,
                    |mid: I, o: Pb::Output|
                        slots.1 is None && permutes3(
                            parsers,
                            (slots.0, Some(o), slots.2),
                            mid,
                            end,
                            result,
                        ),
                    |c2: Option<E>|
                        turn(
                            parsers.2,
                            slots.2 is Some,
                            c2,
                            cur,
                            end,
                            result,
                            |mid: I, o: Pc::Output|
                                slots.2 is None && permutes3(
                                    parsers,
                                    (slots.0, slots.1, Some(o)),
                                    mid,
                                    end,
                                    result,
                                ),
                            |c3: Option<E>| stuck(c3, cur, end, result),
                        ),
                ),
        )
    }
}

impl<I: Stream, E: ParserError<I>, Pa: Parser<I, E>, Pb: Parser<I, E>, Pc: Parser<I, E>> Parser<
    I,
    E,
> for Permutation<(Pa, Pb, Pc)> {
    type Output = (Pa::Output, Pb::Output, Pc::Output);

    open spec fn inv(&self) -> bool {
        self.parsers.0.inv() && self.parsers.1.inv() && self.parsers.2.inv()
    }

    open spec fn parses(
        &self,
        start: I,
        end: I,
        result: PResult<(Pa::Output, Pb::Output, Pc::Output), E>,
    ) -> bool {
        permutes3(self.parsers, (None, None, None), start, end, result)
    }

    fn parse_next(&self, input: &mut I) -> (result: PResult<
        (Pa::Output, Pb::Output, Pc::Output),
        E,
    >) {
        let ghost start = *input;
        let mut a: Option<Pa::Output> = None;
        let mut b: Option<Pb::Output> = None;
        let mut c: Option<Pc::Output> = None;
        proof {
            lemma_reaches_refl(start);
        }
        loop
            invariant
                start == *old(input),
                self.inv(),
                reaches(start, *input),
                forall|end: I, result: PResult<(Pa::Output, Pb::Output, Pc::Output), E>| #[trigger]
                    permutes3(self.parsers, (a, b, c), *input, end, result) ==> permutes3(
                        self.parsers,
                        (None, None, None),
                        start,
                        end,
                        result,
                    ),
            decreases missing3((a, b, c)),
        {
            let cur = *input;
            let ghost slots = (a, b, c);
            let mut carried: Option<E> = None;
            if a.is_none() {
                let inner = self.parsers.0.parse_next(input);
                let ghost mid = *input;
                proof {
                    lemma_reaches_trans(start, cur, mid);
                }
                match inner {
                    Ok(o) => {
                        a = Some(o);
                        assert forall|end: I, result: PResult<(Pa::Output, Pb::Output, Pc::Output), E>| #[trigger]
                            permutes3(self.parsers, (a, b, c), mid, end, result) implies permutes3(
                            self.parsers,
                            (None, None, None),
                            start,
                            end,
                            result,
                        ) by {
                            assert(self.parsers.0.parses(cur, mid, inner) && reaches(cur, mid));
                            assert(permutes3(self.parsers, slots, cur, end, result));
                        }
                        continue ;
                    },
                    Err(ErrMode::Backtrack(e)) => {
                        carried = Some(join(&cur, carried, e));
                        *input = cur;
                    },
                    Err(other) => {
                        let r = Err(other);
                        assert(self.parsers.0.parses(cur, mid, inner) && reaches(cur, mid));
                        assert(permutes3(self.parsers, slots, cur, mid, r));
                        return r;
                    },
                }
            }
            if b.is_none() {
                let inner = self.parsers.1.parse_next(input);
                let ghost mid = *input;
                proof {
                    lemma_reaches_trans(start, cur, mid);
                }
                match inner {
                    Ok(o) => {
                        b = Some(o);
                        assert forall|end: I, result: PResult<(Pa::Output, Pb::Output, Pc::Output), E>| #[trigger]
                            permutes3(self.parsers, (a, b, c), mid, end, result) implies permutes3(
                            self.parsers,
                            (None, None, None),
                            start,
                            end,
                            result,
                        ) by {
                            assert(self.parsers.1.parses(cur, mid, inner) && reaches(cur, mid));
                            assert(permutes3(self.parsers, slots, cur, end, result));
                        }
                        continue ;
                    },
                    Err(ErrMode::Backtrack(e)) => {
                        carried = Some(join(&cur, carried, e));
                        *input = cur;
                    },
                    Err(other) => {
                        let r = Err(other);
                        assert(self.parsers.1.parses(cur, mid, inner) && reaches(cur, mid));
                        assert(permutes3(self.parsers, slots, cur, mid, r));
                        return r;
                    },
                }
            }
            if c.is_none() {
                let inner = self.parsers.2.parse_next(input);
                let ghost mid = *input;
                proof {
                    lemma_reaches_trans(start, cur, mid);
                }
                match inner {
                    Ok(o) => {
                        c = Some(o);
                        assert forall|end: I, result: PResult<(Pa::Output, Pb::Output, Pc::Output), E>| #[trigger]
                            permutes3(self.parsers, (a, b, c), mid, end, result) implies permutes3(
                            self.parsers,
                            (None, None, None),
                            start,
                            end,
                            result,
                        ) by {
                            assert(self.parsers.2.parses(cur, mid, inner) && reaches(cur, mid));
                            assert(permutes3(self.parsers, slots, cur, end, result));
                        }
                        continue ;
                    },
                    Err(ErrMode::Backtrack(e)) => {
                        carried = Some(join(&cur, carried, e));
                        *input = cur;
                    },
                    Err(other) => {
                        let r = Err(other);
                        assert(self.parsers.2.parses(cur, mid, inner) && reaches(cur, mid));
                        assert(permutes3(self.parsers, slots, cur, mid, r));
                        return r;
                    },
                }
            }
            match carried {
                Some(payload) => {
                    *input = cur;
                    let r = Err(ErrMode::Backtrack(payload.append(input, &cur, ErrorKind::Alt)));
                    assert(stuck(carried, cur, cur, r));
                    assert(permutes3(self.parsers, slots, cur, cur, r));
                    return r;
                },
                None => {
                    match (a, b, c) {
                        (Some(x), Some(y), Some(z)) => {
                            let r = Ok((x, y, z));
                            assert(permutes3(self.parsers, slots, cur, cur, r));
                            return r;
                        },
                        _ => {
                            proof {
                                assert(false);
                            }
                            return Err(ErrMode::assertion(input));
                        },
                    }
                },
            }
        }
    }
}

} // verus!

//! Repetition: a parser applied again and again, with bounds on the count and
//! a guard against an inner parser that consumes nothing.
use crate::error::{ErrMode, ErrorKind, PResult, ParserError};
use crate::parser::Parser;
use crate::stream::{lemma_reaches_refl, lemma_reaches_trans, reaches, Cursor, Stream};
use vstd::pervasive::cloned;
use vstd::prelude::*;
use vstd::string::StringExecFns;

verus! {

/// Bounds on a count: at least `min`, and at most `max` where there is one.
#[derive(Clone, Copy, Debug, PartialEq, Eq)]
pub struct Range {
    pub min: usize,
    pub max: Option<usize>,
}

impl Range {
    /// The largest count allowed; without an upper bound, the largest number there is.
    pub open spec fn upper(&self) -> nat {
        match self.max {
            Some(max) => max as nat,
            None => usize::MAX as nat,
        }
    }

    /// Whether `count` lies within the bounds.
    pub open spec fn admits(&self, count: nat) -> bool {
        self.min <= count <= self.upper()
    }

    /// Whether a count of `count` is the last one allowed.
    pub open spec fn full(&self, count: nat) -> bool {
        count >= self.upper()
    }

    /// Whether no count lies within the bounds: the upper bound is below the lower.
    pub open spec fn descending(&self) -> bool {
        self.max matches Some(max) && max < self.min
    }

    /// `min` or more.
    pub fn at_least(min: usize) -> (r: Range)
        ensures
            r == (Range { min, max: None }),
    {
        Range { min, max: None }
    }

    /// `max` or fewer.
    pub fn at_most(max: usize) -> (r: Range)
        ensures
            r == (Range { min: 0, max: Some(max) }),
    {
        Range { min: 0, max: Some(max) }
    }

    /// From `min` to `max`, both included.
    pub fn between(min: usize, max: usize) -> (r: Range)
        ensures
            r == (Range { min, max: Some(max) }),
    {
        Range { min, max: Some(max) }
    }

    /// The bounds "exactly `count`".
    pub open spec fn spec_exactly(count: usize) -> Range {
        Range { min: count, max: Some(count) }
    }

    /// Exactly `count`.
    pub fn exactly(count: usize) -> (r: Range)
        ensures
            r == Range::spec_exactly(count),
    {
        Range { min: count, max: Some(count) }
    }

    /// Whether the upper bound is below the lower.
    pub fn is_descending(&self) -> (b: bool)
        ensures
            b == self.descending(),
    {
        match self.max {
            Some(max) => max < self.min,
            None => false,
        }
    }

    /// Whether `count` has reached the upper bound.
    pub fn is_full(&self, count: usize) -> (b: bool)
        ensures
            b == self.full(count as nat),
    {
        match self.max {
            Some(max) => count >= max,
            None => count == usize::MAX,
        }
    }
}

/// A collection that a repetition fills, one output at a time.
pub trait Accumulate<O>: Sized {
    /// The collection is what results from putting in `items`, in this order.
    open spec fn holds(&self, items: Seq<O>) -> bool {
        true
    }

    /// The collection with nothing put in.
    fn initial() -> (c: Self)
        ensures
            c.holds(Seq::<O>::empty()),
    ;

    /// Puts in one more item.
    fn accumulate(&mut self, item: O)
        requires
            exists|items: Seq<O>| #[trigger] old(self).holds(items) && items.len() < usize::MAX,
        ensures
            forall|items: Seq<O>| #[trigger]
                old(self).holds(items) ==> final(self).holds(items.push(item)),
    ;
}

/// A vector keeps every item.
impl<O> Accumulate<O> for Vec<O> {
    open spec fn holds(&self, items: Seq<O>) -> bool {
        self@ == items
    }

    fn initial() -> (c: Vec<O>) {
        Vec::new()
    }

    fn accumulate(&mut self, item: O) {
        self.push(item);
    }
}

/// A count keeps the number of items.
impl<O> Accumulate<O> for usize {
    open spec fn holds(&self, items: Seq<O>) -> bool {
        *self == items.len()
    }

    fn initial() -> (c: usize) {
        0
    }

    fn accumulate(&mut self, item: O) {
        *self = *self + 1;
    }
}

/// The unit keeps nothing.
impl<O> Accumulate<O> for () {
    open spec fn holds(&self, items: Seq<O>) -> bool {
        true
    }

    fn initial() -> (c: ()) {
        ()
    }

    fn accumulate(&mut self, item: O) {
    }
}

/// The bytes of the slices of `items`, one behind the other.
pub open spec fn concat_bytes(items: Seq<&[u8]>) -> Seq<u8>
    decreases items.len(),
{
    if items.len() == 0 {
        Seq::empty()
    } else {
        concat_bytes(items.drop_last()) + items.last()@
    }
}

/// The characters of the texts of `items`, one behind the other.
pub open spec fn concat_text(items: Seq<&str>) -> Seq<char>
    decreases items.len(),
{
    if items.len() == 0 {
        Seq::empty()
    } else {
        concat_text(items.drop_last()) + items.last()@
    }
}

/// A vector of bytes keeps the bytes of every slice, joined.
impl<'a> Accumulate<&'a [u8]> for Vec<u8> {
    open spec fn holds(&self, items: Seq<&'a [u8]>) -> bool {
        self@ == concat_bytes(items)
    }

    fn initial() -> (c: Vec<u8>) {
        Vec::new()
    }

    fn accumulate(&mut self, item: &'a [u8]) {
        let ghost before = self@;
        self.extend_from_slice(item);
        proof {
            assert(self@ =~= before + item@);
            assert forall|items: Seq<&'a [u8]>| before == concat_bytes(items) implies self@
                == concat_bytes(#[trigger] items.push(item)) by {
                assert(items.push(item).drop_last() =~= items);
            }
        }
    }
}

/// A string keeps the characters of every text, joined.
impl<'a> Accumulate<&'a str> for String {
    open spec fn holds(&self, items: Seq<&'a str>) -> bool {
        self@ == concat_text(items)
    }

    fn initial() -> (c: String) {
        String::new()
    }

    fn accumulate(&mut self, item: &'a str) {
        let ghost before = self@;
        self.append(item);
        proof {
            assert forall|items: Seq<&'a str>| before == concat_text(items) implies self@
                == concat_text(#[trigger] items.push(item)) by {
                assert(items.push(item).drop_last() =~= items);
            }
        }
    }
}

/// Iteration `k` of a trace: `parser` succeeds from `cursors[k]` to
/// `cursors[k + 1]` with `items[k]`, and consumes at least one byte.
pub open spec fn stepped<I: Stream, E, P: Parser<I, E>>(
    parser: P,
    cursors: Seq<I>,
    items: Seq<P::Output>,
    k: int,
) -> bool {
    &&& parser.parses(cursors[k], cursors[k + 1], Ok(items[k])) && reaches(cursors[k], cursors[k + 1])
    &&& cursors[k + 1].width() < cursors[k].width()
}

/// A trace of successful iterations: `cursors` are the positions before, between
/// and after them, `items` their outputs.
pub open spec fn iterates<I: Stream, E, P: Parser<I, E>>(
    parser: P,
    start: I,
    cursors: Seq<I>,
    items: Seq<P::Output>,
) -> bool {
    &&& cursors.len() == items.len() + 1
    &&& cursors[0] == start
    &&& forall|k: int| 0 <= k < items.len() ==> #[trigger] stepped(parser, cursors, items, k)
}

/// The usage error of a repetition: an unrecoverable failure of kind
/// `ErrorKind::Assert` at `at`, the cursor left there.
pub open spec fn misused<I: Stream, E: ParserError<I>, O>(at: I, end: I, result: PResult<O, E>) -> bool {
    &&& end == at
    &&& result matches Err(ErrMode::Cut(e))
    &&& E::is_from_error_kind(at, ErrorKind::Assert, e)
}

/// A recoverable failure `e` of a sub-parser, met at `mid` in an iteration that
/// began at `cur`, ends the repetition as a recoverable failure with the
/// context `ErrorKind::Repeat`.
pub open spec fn failed_short<I: Stream, E: ParserError<I>, O>(
    e: E,
    mid: I,
    cur: I,
    end: I,
    result: PResult<O, E>,
) -> bool {
    &&& end == mid
    &&& result matches Err(ErrMode::Backtrack(e2))
    &&& E::is_append(e, mid, cur, ErrorKind::Repeat, e2)
}

/// The repetition succeeds at `cur` with a value that `done` accepts.
pub open spec fn finished<I: Stream, E, R>(
    cur: I,
    end: I,
    result: PResult<R, E>,
    done: spec_fn(R) -> bool,
) -> bool {
    end == cur && (result matches Ok(r) && done(r))
}

/// How a repetition ends at `cur` after `count` iterations.
///
/// With the upper bound reached it succeeds. Otherwise `parser` runs once more:
/// a success that consumed nothing is the usage error; a recoverable failure
/// ends the repetition, as a success once the lower bound is met (the cursor
/// back at `cur`) and as `short` says before; a cut or a request for more input
/// is passed on.
pub open spec fn stops<I: Stream, E: ParserError<I>, P: Parser<I, E>, R>(
    parser: P,
    range: Range,
    cur: I,
    count: nat,
    end: I,
    result: PResult<R, E>,
    done: spec_fn(R) -> bool,
    short: spec_fn(I, E) -> bool,
) -> bool {
    if range.full(count) {
        finished(cur, end, result, done)
    } else {
        exists|mid: I, inner: PResult<P::Output, E>| #[trigger]
            parser.parses(cur, mid, inner) && reaches(cur, mid) && match inner {
                Ok(_) => mid.width() >= cur.width() && misused(mid, end, result),
                Err(ErrMode::Backtrack(e)) => if count < range.min {
                    short(mid, e)
                } else {
                    finished(cur, end, result, done)
                },
                Err(other) => end == mid && result == Err::<R, ErrMode<E>>(other),
            }
    }
}

/// What `repeat(range, parser)` admits at `start`: with bounds that no count
/// meets, the usage error; otherwise some trace of successful iterations, and
/// then an end as [`stops`] describes, with a collection that holds the outputs
/// of the trace.
pub open spec fn repeats<I: Stream, E: ParserError<I>, P: Parser<I, E>, C: Accumulate<P::Output>>(
    parser: P,
    range: Range,
    start: I,
    end: I,
    result: PResult<C, E>,
) -> bool {
    if range.descending() {
        misused(start, end, result)
    } else {
        exists|cursors: Seq<I>, items: Seq<P::Output>| #[trigger]
            iterates(parser, start, cursors, items) && items.len() <= range.upper() && stops(
                parser,
                range,
                cursors.last(),
                items.len(),
                end,
                result,
                |c: C| c.holds(items),
                |mid: I, e: E| failed_short(e, mid, cursors.last(), end, result),
            )
    }
}

/// `parser` repeated into a collection. See [`repeat`].
pub struct Repeat<P, C> {
    pub range: Range,
    pub parser: P,
    pub collection: core::marker::PhantomData<C>,
}

/// Applies `parser` until it fails recoverably or the upper bound of `range`
/// is reached, and collects the outputs in a `C` (a vector, a count, or the
/// unit).
///
/// The count has to reach the lower bound: a recoverable failure before that
/// is a failure of the repetition. A cut or a request for more input always
/// ends it. A success of `parser` that consumed nothing would repeat forever;
/// it is answered with an unrecoverable failure of kind `ErrorKind::Assert`.
pub fn repeat<P, C>(
    range: Range,
    parser: P,
) -> (p: Repeat<P, C>)
    ensures
        p.range == range,
        p.parser == parser,
{
    Repeat { range, parser, collection: core::marker::PhantomData }
}

impl<P, C> Repeat<P, C> {
    /// The end of this repetition at `cur`, after the iterations that gave `items`.
    pub open spec fn ends<I: Stream, E: ParserError<I>>(
        &self,
        cur: I,
        items: Seq<P::Output>,
        end: I,
        result: PResult<C, E>,
    ) -> bool where P: Parser<I, E>, C: Accumulate<P::Output> {
        stops(
            self.parser,
            self.range,
            cur,
            items.len(),
            end,
            result,
            |c: C| c.holds(items),
            |mid: I, e: E| failed_short(e, mid, cur, end, result),
        )
    }
}

impl<I: Stream, E: ParserError<I>, P: Parser<I, E>, C: Accumulate<P::Output>> Parser<I, E> for Repeat<
    P,
    C,
> {
    type Output = C;

    open spec fn inv(&self) -> bool {
        self.parser.inv()
    }

    open spec fn parses(&self, start: I, end: I, result: PResult<C, E>) -> bool {
        repeats(self.parser, self.range, start, end, result)
    }

    fn parse_next(&self, input: &mut I) -> (result: PResult<C, E>) {
        let ghost start = *input;
        proof {
            lemma_reaches_refl(start);
        }
        if self.range.is_descending() {
            return Err(ErrMode::assertion(input));
        }
        let mut acc = C::initial();
        let mut count: usize = 0;
        let ghost mut cursors: Seq<I> = seq![start];
        let ghost mut items: Seq<P::Output> = Seq::empty();
        loop
            invariant
                start == *old(input),
                self.inv(),
                !self.range.descending(),
                reaches(start, *input),
                iterates(self.parser, start, cursors, items),
                cursors.last() == *input,
                items.len() == count,
                count <= self.range.upper(),
                acc.holds(items),
            decreases input.width(),
        {
            if self.range.is_full(count) {
                assert(self.ends(*input, items, *input, Ok::<C, ErrMode<E>>(acc)));
                return Ok(acc);
            }
            let cur = *input;
            let len = input.eof_offset();
            let inner = self.parser.parse_next(input);
            let ghost mid = *input;
            proof {
                lemma_reaches_trans(start, cur, mid);
            }
            match inner {
                Ok(o) => {
                    if input.eof_offset() == len {
                        let r = Err(ErrMode::assertion(input));
                        assert(self.parser.parses(cur, mid, inner) && reaches(cur, mid));
                        assert(self.ends(cur, items, mid, r));
                        return r;
                    }
                    proof {
                        let ghost grown = cursors.push(mid);
                        let ghost more = items.push(o);
                        assert forall|k: int| 0 <= k < more.len() implies #[trigger] stepped(
                            self.parser,
                            grown,
                            more,
                            k,
                        ) by {
                            if k < items.len() {
                                assert(stepped(self.parser, cursors, items, k));
                            }
                        }
                        cursors = grown;
                        items = more;
                    }
                    acc.accumulate(o);
                    count = count + 1;
                },
                Err(ErrMode::Backtrack(e)) => {
                    if count < self.range.min {
                        let r = Err(ErrMode::Backtrack(e.append(input, &cur, ErrorKind::Repeat)));
                        assert(self.parser.parses(cur, mid, inner) && reaches(cur, mid));
                        assert(self.ends(cur, items, mid, r));
                        return r;
                    } else {
                        *input = cur;
                        assert(self.parser.parses(cur, mid, inner) && reaches(cur, mid));
                        assert(self.ends(cur, items, cur, Ok::<C, ErrMode<E>>(acc)));
                        return Ok(acc);
                    }
                },
                Err(other) => {
                    let r = Err(other);
                    assert(self.parser.parses(cur, mid, inner) && reaches(cur, mid));
                    assert(self.ends(cur, items, mid, r));
                    return r;
                },
            }
        }
    }
}


/// The accumulators of a fold over `items`: `accs[0]` is a clone of the seed,
/// and each next one is what `combine` may give for the one before and the
/// item.
pub open spec fn folds<O, R: Clone, F: Fn(R, O) -> R>(
    seed: R,
    combine: F,
    items: Seq<O>,
    accs: Seq<R>,
) -> bool {
    &&& accs.len() == items.len() + 1
    &&& cloned(seed, accs[0])
    &&& forall|k: int|
        0 <= k < items.len() ==> call_ensures(combine, (accs[k], items[k]), #[trigger] accs[k + 1])
}

/// `parser` repeated and folded. See [`fold_repeat`].
pub struct FoldRepeat<P, R, F> {
    pub range: Range,
    pub parser: P,
    pub seed: R,
    pub combine: F,
}

/// Applies `parser` as [`repeat`] does and folds the outputs: every parse
/// starts from a clone of `seed`, and `combine` puts each output into the
/// accumulator.
///
/// With the bounds "one or more", a first application that fails recoverably
/// is reported as a new failure of kind `ErrorKind::Repeat` where `parser` left
/// the cursor; with all other bounds the failure of `parser` is kept and given
/// the context `ErrorKind::Repeat`.
pub fn fold_repeat<P, R, F>(
    range: Range,
    parser: P,
    seed: R,
    combine: F,
) -> (p: FoldRepeat<P, R, F>)
    ensures
        p.range == range,
        p.parser == parser,
        p.seed == seed,
        p.combine == combine,
{
    FoldRepeat { range, parser, seed, combine }
}

/// The repetition fails before its lower bound: as [`failed_short`] says, but
/// for the bounds "one or more", where the failure is a new one of kind
/// `ErrorKind::Repeat` at `mid`.
pub open spec fn fold_short<I: Stream, E: ParserError<I>, O>(
    range: Range,
    e: E,
    mid: I,
    cur: I,
    end: I,
    result: PResult<O, E>,
) -> bool {
    if range.min == 1 && range.max is None {
        &&& end == mid
        &&& result matches Err(ErrMode::Backtrack(e2))
        &&& E::is_from_error_kind(mid, ErrorKind::Repeat, e2)
    } else {
        failed_short(e, mid, cur, end, result)
    }
}

impl<P, R, F> FoldRepeat<P, R, F> {
    /// The end of this fold at `cur`, after `count` iterations that left the
    /// accumulator `acc`.
    pub open spec fn ends<I: Stream, E: ParserError<I>>(
        &self,
        cur: I,
        count: nat,
        acc: R,
        end: I,
        result: PResult<R, E>,
    ) -> bool where P: Parser<I, E>, F: Fn(R, P::Output) -> R {
        stops(
            self.parser,
            self.range,
            cur,
            count,
            end,
            result,
            |r: R| r == acc,
            |mid: I, e: E| fold_short(self.range, e, mid, cur, end, result),
        )
    }
}

impl<I: Stream, E: ParserError<I>, R: Clone, P: Parser<I, E>, F: Fn(R, P::Output) -> R> Parser<
    I,
    E,
> for FoldRepeat<P, R, F> {
    type Output = R;

    open spec fn inv(&self) -> bool {
        &&& self.parser.inv()
        &&& forall|acc: R, o: P::Output| call_requires(self.combine, (acc, o))
    }

    open spec fn parses(&self, start: I, end: I, result: PResult<R, E>) -> bool {
        if self.range.descending() {
            misused(start, end, result)
        } else {
            exists|cursors: Seq<I>, items: Seq<P::Output>, accs: Seq<R>| #[trigger]
                iterates(self.parser, start, cursors, items) && #[trigger] folds(
                    self.seed,
                    self.combine,
                    items,
                    accs,
                ) && items.len() <= self.range.upper() && self.ends(
                    cursors.last(),
                    items.len(),
                    accs.last(),
                    end,
                    result,
                )
        }
    }

    fn parse_next(&self, input: &mut I) -> (result: PResult<R, E>) {
        let ghost start = *input;
        proof {
            lemma_reaches_refl(start);
        }
        if self.range.is_descending() {
            return Err(ErrMode::assertion(input));
        }
        let mut acc = self.seed.clone();
        let mut count: usize = 0;
        let ghost mut cursors: Seq<I> = seq![start];
        let ghost mut items: Seq<P::Output> = Seq::empty();
        let ghost mut accs: Seq<R> = seq![acc];
        loop
            invariant
                start == *old(input),
                self.inv(),
                !self.range.descending(),
                reaches(start, *input),
                iterates(self.parser, start, cursors, items),
                folds(self.seed, self.combine, items, accs),
                cursors.last() == *input,
                accs.last() == acc,
                items.len() == count,
                count <= self.range.upper(),
            decreases input.width(),
        {
            if self.range.is_full(count) {
                assert(self.ends(*input, count as nat, acc, *input, Ok::<R, ErrMode<E>>(acc)));
                return Ok(acc);
            }
            let cur = *input;
            let len = input.eof_offset();
            let inner = self.parser.parse_next(input);
            let ghost mid = *input;
            proof {
                lemma_reaches_trans(start, cur, mid);
            }
            match inner {
                Ok(o) => {
                    if input.eof_offset() == len {
                        let r = Err(ErrMode::assertion(input));
                        assert(self.parser.parses(cur, mid, inner) && reaches(cur, mid));
                        assert(self.ends(cur, count as nat, acc, mid, r));
                        return r;
                    }
                    let ghost item = o;
                    acc = (self.combine)(acc, o);
                    proof {
                        let ghost grown = cursors.push(mid);
                        let ghost more = items.push(item);
                        let ghost next = accs.push(acc);
                        assert forall|k: int| 0 <= k < more.len() implies #[trigger] stepped(
                            self.parser,
                            grown,
                            more,
                            k,
                        ) by {
                            if k < items.len() {
                                assert(stepped(self.parser, cursors, items, k));
                            }
                        }
                        assert forall|k: int| 0 <= k < more.len() implies call_ensures(
                            self.combine,
                            (next[k], more[k]),
                            #[trigger] next[k + 1],
                        ) by {
                            if k < items.len() {
                                assert(accs[k + 1] == next[k + 1]);
                            }
                        }
                        cursors = grown;
                        items = more;
                        accs = next;
                    }
                    count = count + 1;
                },
                Err(ErrMode::Backtrack(e)) => {
                    if count < self.range.min {
                        let r = if self.range.min == 1 && self.range.max.is_none() {
                            Err(ErrMode::from_error_kind(input, ErrorKind::Repeat))
                        } else {
                            Err(ErrMode::Backtrack(e.append(input, &cur, ErrorKind::Repeat)))
                        };
                        assert(self.parser.parses(cur, mid, inner) && reaches(cur, mid));
                        assert(self.ends(cur, count as nat, acc, mid, r));
                        return r;
                    } else {
                        *input = cur;
                        assert(self.parser.parses(cur, mid, inner) && reaches(cur, mid));
                        assert(self.ends(cur, count as nat, acc, cur, Ok::<R, ErrMode<E>>(acc)));
                        return Ok(acc);
                    }
                },
                Err(other) => {
                    let r = Err(other);
                    assert(self.parser.parses(cur, mid, inner) && reaches(cur, mid));
                    assert(self.ends(cur, count as nat, acc, mid, r));
                    return r;
                },
            }
        }
    }
}


/// Iteration `k >= 1` of a separated trace: from `cursors[k]` the separator
/// succeeds and consumes at least one byte, and from there `parser` succeeds
/// with `items[k]` and reaches `cursors[k + 1]`.
pub open spec fn sep_stepped<I: Stream, E, P: Parser<I, E>, S: Parser<I, E>>(
    parser: P,
    separator: S,
    cursors: Seq<I>,
    items: Seq<P::Output>,
    k: int,
) -> bool {
    exists|after: I, s: S::Output| #[trigger]
        separator.parses(cursors[k], after, Ok(s)) && reaches(cursors[k], after) && after.width()
            < cursors[k].width()
            && parser.parses(after, cursors[k + 1], Ok(items[k])) && reaches(after, cursors[k + 1])
}

/// A trace of a separated list: the first item directly at `start`, every
/// later one after a separator.
pub open spec fn sep_iterates<I: Stream, E, P: Parser<I, E>, S: Parser<I, E>>(
    parser: P,
    separator: S,
    start: I,
    cursors: Seq<I>,
    items: Seq<P::Output>,
) -> bool {
    &&& cursors.len() == items.len() + 1
    &&& cursors[0] == start
    &&& items.len() >= 1 ==> parser.parses(cursors[0], cursors[1], Ok(items[0])) && reaches(
        cursors[0],
        cursors[1],
    )
    &&& forall|k: int|
        1 <= k < items.len() ==> #[trigger] sep_stepped(parser, separator, cursors, items, k)
}

/// A recoverable failure `e` at `mid`, in an iteration that began at `cur`
/// after `count` items: a failure of the list before the lower bound, and its
/// successful end at `cur` from there on.
pub open spec fn gives_up<I: Stream, E: ParserError<I>, R>(
    range: Range,
    count: nat,
    e: E,
    mid: I,
    cur: I,
    end: I,
    result: PResult<R, E>,
    done: spec_fn(R) -> bool,
) -> bool {
    if count < range.min {
        failed_short(e, mid, cur, end, result)
    } else {
        finished(cur, end, result, done)
    }
}

/// How a separated list ends at `cur` after `count` items.
pub open spec fn sep_stops<I: Stream, E: ParserError<I>, P: Parser<I, E>, S: Parser<I, E>, R>(
    parser: P,
    separator: S,
    range: Range,
    cur: I,
    count: nat,
    end: I,
    result: PResult<R, E>,
    done: spec_fn(R) -> bool,
) -> bool {
    if range.full(count) {
        finished(cur, end, result, done)
    } else if count == 0 {
        exists|mid: I, inner: PResult<P::Output, E>| #[trigger]
            parser.parses(cur, mid, inner) && reaches(cur, mid) && match inner {
                Ok(_) => false,
                Err(ErrMode::Backtrack(e)) => gives_up(range, count, e, mid, cur, end, result, done),
                Err(other) => end == mid && result == Err::<R, ErrMode<E>>(other),
            }
    } else {
        exists|after: I, sep: PResult<S::Output, E>| #[trigger]
            separator.parses(cur, after, sep) && reaches(cur, after) && match sep {
                Ok(_) => if after.width() >= cur.width() {
                    misused(after, end, result)
                } else {
                    exists|mid: I, inner: PResult<P::Output, E>| #[trigger]
                        parser.parses(after, mid, inner) && reaches(after, mid) && match inner {
                            Ok(_) => false,
                            Err(ErrMode::Backtrack(e)) => gives_up(
                                range,
                                count,
                                e,
                                mid,
                                cur,
                                end,
                                result,
                                done,
                            ),
                            Err(other) => end == mid && result == Err::<R, ErrMode<E>>(other),
                        }
                },
                Err(ErrMode::Backtrack(e)) => gives_up(range, count, e, after, cur, end, result, done),
                Err(other) => end == after && result == Err::<R, ErrMode<E>>(other),
            }
    }
}

/// What `separated(range, parser, separator)` admits at `start`.
pub open spec fn separates<
    I: Stream,
    E: ParserError<I>,
    P: Parser<I, E>,
    S: Parser<I, E>,
    C: Accumulate<P::Output>,
>(parser: P, separator: S, range: Range, start: I, end: I, result: PResult<C, E>) -> bool {
    if range.descending() {
        misused(start, end, result)
    } else {
        exists|cursors: Seq<I>, items: Seq<P::Output>| #[trigger]
            sep_iterates(parser, separator, start, cursors, items) && items.len() <= range.upper()
                && sep_stops(
                parser,
                separator,
                range,
                cursors.last(),
                items.len(),
                end,
                result,
                |c: C| c.holds(items),
            )
    }
}

/// `parser` repeated with a separator between the items. See [`separated`].
pub struct Separated<P, S, C> {
    pub range: Range,
    pub parser: P,
    pub separator: S,
    pub collection: core::marker::PhantomData<C>,
}

/// Applies `parser`, then `separator` and `parser` in turn, and collects the
/// outputs of `parser`; the bounds of `range` are on their number.
///
/// The list ends before a separator, or before a separator and an item, that
/// fails recoverably: as a success with the cursor behind the last item once
/// the lower bound is met, as a failure with the context `ErrorKind::Repeat`
/// before. A separator that succeeds without consuming is answered with an
/// unrecoverable failure of kind `ErrorKind::Assert`; an item may be empty.
pub fn separated<P, S, C>(range: Range, parser: P, separator: S) -> (p: Separated<P, S, C>)
    ensures
        p.range == range,
        p.parser == parser,
        p.separator == separator,
{
    Separated { range, parser, separator, collection: core::marker::PhantomData }
}

impl<P, S, C> Separated<P, S, C> {
    /// The end of this list at `cur`, after the iterations that gave `items`.
    pub open spec fn ends<I: Stream, E: ParserError<I>>(
        &self,
        cur: I,
        items: Seq<P::Output>,
        end: I,
        result: PResult<C, E>,
    ) -> bool where P: Parser<I, E>, S: Parser<I, E>, C: Accumulate<P::Output> {
        sep_stops(
            self.parser,
            self.separator,
            self.range,
            cur,
            items.len(),
            end,
            result,
            |c: C| c.holds(items),
        )
    }
}

impl<
    I: Stream,
    E: ParserError<I>,
    P: Parser<I, E>,
    S: Parser<I, E>,
    C: Accumulate<P::Output>,
> Parser<I, E> for Separated<P, S, C> {
    type Output = C;

    open spec fn inv(&self) -> bool {
        self.parser.inv() && self.separator.inv()
    }

    open spec fn parses(&self, start: I, end: I, result: PResult<C, E>) -> bool {
        separates(self.parser, self.separator, self.range, start, end, result)
    }

    fn parse_next(&self, input: &mut I) -> (result: PResult<C, E>) {
        let start = *input;
        proof {
            lemma_reaches_refl(start);
        }
        if self.range.is_descending() {
            return Err(ErrMode::assertion(input));
        }
        let mut acc = C::initial();
        let ghost mut cursors: Seq<I> = seq![start];
        let ghost mut items: Seq<P::Output> = Seq::empty();
        assert(sep_iterates(self.parser, self.separator, start, cursors, items));
        if self.range.is_full(0) {
            assert(self.ends(start, items, start, Ok::<C, ErrMode<E>>(acc)));
            return Ok(acc);
        }
        let first = self.parser.parse_next(input);
        let ghost after_first = *input;
        match first {
            Ok(o) => {
                proof {
                    cursors = cursors.push(after_first);
                    items = items.push(o);
                }
                acc.accumulate(o);
            },
            Err(ErrMode::Backtrack(e)) => {
                assert(self.parser.parses(start, after_first, first) && reaches(start, after_first));
                if self.range.min > 0 {
                    let r = Err(ErrMode::Backtrack(e.append(input, &start, ErrorKind::Repeat)));
                    assert(self.ends(start, items, after_first, r));
                    return r;
                } else {
                    *input = start;
                    assert(self.ends(start, items, start, Ok::<C, ErrMode<E>>(acc)));
                    return Ok(acc);
                }
            },
            Err(other) => {
                let r = Err(other);
                assert(self.parser.parses(start, after_first, first) && reaches(start, after_first));
                assert(self.ends(start, items, after_first, r));
                return r;
            },
        }
        let mut count: usize = 1;
        loop
            invariant
                start == *old(input),
                self.inv(),
                !self.range.descending(),
                reaches(start, *input),
                sep_iterates(self.parser, self.separator, start, cursors, items),
                cursors.last() == *input,
                items.len() == count,
                count <= self.range.upper(),
                count >= 1,
                acc.holds(items),
            decreases input.width(),
        {
            if self.range.is_full(count) {
                assert(self.ends(*input, items, *input, Ok::<C, ErrMode<E>>(acc)));
                return Ok(acc);
            }
            let cur = *input;
            let len = input.eof_offset();
            let sep = self.separator.parse_next(input);
            let ghost after = *input;
            proof {
                lemma_reaches_trans(start, cur, after);
            }
            match sep {
                Ok(s) => {
                    if input.eof_offset() == len {
                        let r = Err(ErrMode::assertion(input));
                        assert(self.separator.parses(cur, after, sep) && reaches(cur, after));
                        assert(self.ends(cur, items, after, r));
                        return r;
                    }
                    let inner = self.parser.parse_next(input);
                    let ghost mid = *input;
                    proof {
                        lemma_reaches_trans(start, after, mid);
                    }
                    match inner {
                        Ok(o) => {
                            proof {
                                let ghost grown = cursors.push(mid);
                                let ghost more = items.push(o);
                                assert forall|k: int| 1 <= k < more.len() implies #[trigger] sep_stepped(
                                    self.parser,
                                    self.separator,
                                    grown,
                                    more,
                                    k,
                                ) by {
                                    if k < items.len() {
                                        assert(sep_stepped(
                                            self.parser,
                                            self.separator,
                                            cursors,
                                            items,
                                            k,
                                        ));
                                        assert(grown[k] == cursors[k]);
                                        assert(grown[k + 1] == cursors[k + 1]);
                                        assert(more[k] == items[k]);
                                        assert(sep_stepped(self.parser, self.separator, grown, more, k));
                                    } else {
                                        assert(grown[k] == cur);
                                        assert(grown[k + 1] == mid);
                                        assert(more[k] == o);
                                        assert(self.separator.parses(cur, after, Ok(s)) && reaches(cur, after));
                                        assert(self.parser.parses(after, mid, Ok(o)) && reaches(after, mid));
                                        assert(after.width() < cur.width());
                                        assert(sep_stepped(self.parser, self.separator, grown, more, k));
                                    }
                                }
                                cursors = grown;
                                items = more;
                            }
                            acc.accumulate(o);
                            count = count + 1;
                        },
                        Err(ErrMode::Backtrack(e)) => {
                            assert(self.separator.parses(cur, after, sep) && reaches(cur, after));
                            assert(self.parser.parses(after, mid, inner) && reaches(after, mid));
                            if count < self.range.min {
                                let r = Err(
                                    ErrMode::Backtrack(e.append(input, &cur, ErrorKind::Repeat)),
                                );
                                assert(self.ends(cur, items, mid, r));
                                return r;
                            } else {
                                *input = cur;
                                assert(self.ends(cur, items, cur, Ok::<C, ErrMode<E>>(acc)));
                                return Ok(acc);
                            }
                        },
                        Err(other) => {
                            let r = Err(other);
                            assert(self.separator.parses(cur, after, sep) && reaches(cur, after));
                            assert(self.parser.parses(after, mid, inner) && reaches(after, mid));
                            assert(self.ends(cur, items, mid, r));
                            return r;
                        },
                    }
                },
                Err(ErrMode::Backtrack(e)) => {
                    assert(self.separator.parses(cur, after, sep) && reaches(cur, after));
                    if count < self.range.min {
                        let r = Err(ErrMode::Backtrack(e.append(input, &cur, ErrorKind::Repeat)));
                        assert(self.ends(cur, items, after, r));
                        return r;
                    } else {
                        *input = cur;
                        assert(self.ends(cur, items, cur, Ok::<C, ErrMode<E>>(acc)));
                        return Ok(acc);
                    }
                },
                Err(other) => {
                    let r = Err(other);
                    assert(self.separator.parses(cur, after, sep) && reaches(cur, after));
                    assert(self.ends(cur, items, after, r));
                    return r;
                },
            }
        }
    }
}


/// One more item is attempted at `cur`, on the way to the terminator: here
/// every failure ends the repetition, a recoverable one with the context
/// `ErrorKind::Repeat`, and a success that consumed nothing is the usage error.
pub open spec fn item_fails<I: Stream, E: ParserError<I>, P: Parser<I, E>, R>(
    parser: P,
    cur: I,
    end: I,
    result: PResult<R, E>,
) -> bool {
    exists|mid: I, inner: PResult<P::Output, E>| #[trigger]
        parser.parses(cur, mid, inner) && reaches(cur, mid) && match inner {
            Ok(_) => mid.width() >= cur.width() && misused(mid, end, result),
            Err(ErrMode::Backtrack(e)) => failed_short(e, mid, cur, end, result),
            Err(other) => end == mid && result == Err::<R, ErrMode<E>>(other),
        }
}

/// How a repetition up to a terminator ends at `cur` after the iterations that
/// gave `items`.
///
/// Below the lower bound only an item is attempted. From the lower bound on the
/// terminator is attempted first: its success ends the repetition with the
/// collected items and its own output; where it fails recoverably, an item is
/// attempted, unless the upper bound is reached, in which case the failure of
/// the terminator is the failure of the repetition.
pub open spec fn till_stops<
    I: Stream,
    E: ParserError<I>,
    P: Parser<I, E>,
    T: Parser<I, E>,
    C: Accumulate<P::Output>,
>(
    parser: P,
    terminator: T,
    range: Range,
    cur: I,
    items: Seq<P::Output>,
    end: I,
    result: PResult<(C, T::Output), E>,
) -> bool {
    if items.len() < range.min {
        item_fails(parser, cur, end, result)
    } else {
        exists|after: I, term: PResult<T::Output, E>| #[trigger]
            terminator.parses(cur, after, term) && reaches(cur, after) && match term {
                Ok(t) => end == after && (result matches Ok(pair) && pair.0.holds(items) && pair.1
                    == t),
                Err(ErrMode::Backtrack(e)) => if range.full(items.len()) {
                    failed_short(e, after, cur, end, result)
                } else {
                    item_fails(parser, cur, end, result)
                },
                Err(other) => end == after && result == Err::<(C, T::Output), ErrMode<E>>(other),
            }
    }
}

/// `parser` repeated until `terminator` matches. See [`repeat_till`].
pub struct RepeatTill<P, T, C> {
    pub range: Range,
    pub parser: P,
    pub terminator: T,
    pub collection: core::marker::PhantomData<C>,
}

/// Applies `parser` until `terminator` matches, and gives the collected
/// outputs of `parser` together with the output of `terminator`. `range`
/// bounds the number of items taken before the terminator.
pub fn repeat_till<P, T, C>(range: Range, parser: P, terminator: T) -> (p: RepeatTill<P, T, C>)
    ensures
        p.range == range,
        p.parser == parser,
        p.terminator == terminator,
{
    RepeatTill { range, parser, terminator, collection: core::marker::PhantomData }
}

impl<
    I: Stream,
    E: ParserError<I>,
    P: Parser<I, E>,
    T: Parser<I, E>,
    C: Accumulate<P::Output>,
> Parser<I, E> for RepeatTill<P, T, C> {
    type Output = (C, T::Output);

    open spec fn inv(&self) -> bool {
        self.parser.inv() && self.terminator.inv()
    }

    open spec fn parses(&self, start: I, end: I, result: PResult<(C, T::Output), E>) -> bool {
        if self.range.descending() {
            misused(start, end, result)
        } else {
            exists|cursors: Seq<I>, items: Seq<P::Output>| #[trigger]
                iterates(self.parser, start, cursors, items) && items.len() <= self.range.upper()
                    && till_stops(
                    self.parser,
                    self.terminator,
                    self.range,
                    cursors.last(),
                    items,
                    end,
                    result,
                )
        }
    }

    fn parse_next(&self, input: &mut I) -> (result: PResult<(C, T::Output), E>) {
        let ghost start = *input;
        proof {
            lemma_reaches_refl(start);
        }
        if self.range.is_descending() {
            return Err(ErrMode::assertion(input));
        }
        let mut acc = C::initial();
        let mut count: usize = 0;
        let ghost mut cursors: Seq<I> = seq![start];
        let ghost mut items: Seq<P::Output> = Seq::empty();
        loop
            invariant
                start == *old(input),
                self.inv(),
                !self.range.descending(),
                reaches(start, *input),
                iterates(self.parser, start, cursors, items),
                cursors.last() == *input,
                items.len() == count,
                count <= self.range.upper(),
                acc.holds(items),
            decreases input.width(),
        {
            let cur = *input;
            let len = input.eof_offset();
            if count >= self.range.min {
                let term = self.terminator.parse_next(input);
                let ghost after = *input;
                proof {
                    lemma_reaches_trans(start, cur, after);
                }
                match term {
                    Ok(t) => {
                        let r = Ok((acc, t));
                        assert(self.terminator.parses(cur, after, term) && reaches(cur, after));
                        assert(till_stops(
                            self.parser,
                            self.terminator,
                            self.range,
                            cur,
                            items,
                            after,
                            r,
                        ));
                        return r;
                    },
                    Err(ErrMode::Backtrack(e)) => {
                        assert(self.terminator.parses(cur, after, term) && reaches(cur, after));
                        if self.range.is_full(count) {
                            let r = Err(
                                ErrMode::Backtrack(e.append(input, &cur, ErrorKind::Repeat)),
                            );
                            assert(till_stops(
                                self.parser,
                                self.terminator,
                                self.range,
                                cur,
                                items,
                                after,
                                r,
                            ));
                            return r;
                        }
                        *input = cur;
                    },
                    Err(other) => {
                        let r = Err(other);
                        assert(self.terminator.parses(cur, after, term) && reaches(cur, after));
                        assert(till_stops(
                            self.parser,
                            self.terminator,
                            self.range,
                            cur,
                            items,
                            after,
                            r,
                        ));
                        return r;
                    },
                }
            }
            let inner = self.parser.parse_next(input);
            let ghost mid = *input;
            proof {
                lemma_reaches_trans(start, cur, mid);
            }
            match inner {
                Ok(o) => {
                    if input.eof_offset() == len {
                        let r = Err(ErrMode::assertion(input));
                        assert(self.parser.parses(cur, mid, inner) && reaches(cur, mid));
                        assert(item_fails(self.parser, cur, mid, r));
                        assert(till_stops(
                            self.parser,
                            self.terminator,
                            self.range,
                            cur,
                            items,
                            mid,
                            r,
                        ));
                        return r;
                    }
                    proof {
                        let ghost grown = cursors.push(mid);
                        let ghost more = items.push(o);
                        assert forall|k: int| 0 <= k < more.len() implies #[trigger] stepped(
                            self.parser,
                            grown,
                            more,
                            k,
                        ) by {
                            if k < items.len() {
                                assert(stepped(self.parser, cursors, items, k));
                            }
                        }
                        cursors = grown;
                        items = more;
                    }
                    acc.accumulate(o);
                    count = count + 1;
                },
                Err(ErrMode::Backtrack(e)) => {
                    let r = Err(ErrMode::Backtrack(e.append(input, &cur, ErrorKind::Repeat)));
                    assert(self.parser.parses(cur, mid, inner) && reaches(cur, mid));
                    assert(item_fails(self.parser, cur, mid, r));
                    assert(till_stops(self.parser, self.terminator, self.range, cur, items, mid, r));
                    return r;
                },
                Err(other) => {
                    let r = Err(other);
                    assert(self.parser.parses(cur, mid, inner) && reaches(cur, mid));
                    assert(item_fails(self.parser, cur, mid, r));
                    assert(till_stops(self.parser, self.terminator, self.range, cur, items, mid, r));
                    return r;
                },
            }
        }
    }
}

} // verus!

//! Small parsers put together from the combinators, with a payload of their own.
use crate::ascii::{alphanumeric1, class_run, CharClass};
use crate::binary::{u16, u8, Endianness, Uint16};
use crate::error::{ErrMode, ErrorKind, Needed, PResult, ParserError};
use crate::multi::{
    failed_short, iterates, misused, repeat, repeats, stepped, stops, Accumulate, Range, Repeat,
};
use crate::parser::{flat_map, lemma_flat_map_inv, lemma_flat_map_parses, rejected_at, Parser};
use crate::stream::{lemma_reaches_refl, reaches, Bytes, Cursor, Stream};
use crate::token::{starved, takes};
use vstd::prelude::*;

verus! {

/// Numbers of two bytes, read and dropped.
pub type Pairs = Repeat<Uint16, ()>;

/// A payload that keeps nothing of a failure.
#[derive(Clone, Copy, Debug, PartialEq, Eq)]
pub struct CustomError;

impl<I: Cursor> ParserError<I> for CustomError {
    open spec fn is_from_error_kind(input: I, kind: ErrorKind, e: CustomError) -> bool {
        true
    }

    open spec fn is_append(
        before: CustomError,
        input: I,
        start: I,
        kind: ErrorKind,
        after: CustomError,
    ) -> bool {
        true
    }

    open spec fn is_or(first: CustomError, second: CustomError, merged: CustomError) -> bool {
        true
    }

    fn from_error_kind(input: &I, kind: ErrorKind) -> (e: CustomError) {
        CustomError
    }

    fn append(self, input: &I, start: &I, kind: ErrorKind) -> (e: CustomError) {
        CustomError
    }

    fn or(self, other: CustomError) -> (e: CustomError) {
        CustomError
    }
}

/// One or more ASCII letters and digits, reported with [`CustomError`].
pub fn custom_error<'a>(input: &mut Bytes<'a>) -> (result: PResult<&'a [u8], CustomError>)
    ensures
        class_run(CharClass::AlphaNumeric, 1).parses(*old(input), *final(input), result),
        reaches(*old(input), *final(input)),
{
    alphanumeric1().parse_next(input)
}


/// The numbers of two bytes each that stand behind one another from `start` on.
proof fn lemma_pairs<'a, E: ParserError<Bytes<'a>>>(
    parser: Uint16,
    start: Bytes<'a>,
    cursors: Seq<Bytes<'a>>,
    items: Seq<u16>,
    k: int,
)
    requires
        iterates::<Bytes<'a>, E, Uint16>(parser, start, cursors, items),
        0 <= k <= items.len(),
    ensures
        2 * k <= start.tokens().len(),
        cursors[k].tokens() == start.tokens().skip(2 * k),
        cursors[k].partial() == start.partial(),
    decreases k,
{
    if k == 0 {
        assert(start.tokens().skip(0) =~= start.tokens());
    } else {
        lemma_pairs::<E>(parser, start, cursors, items, k - 1);
        assert(stepped::<Bytes<'a>, E, Uint16>(parser, cursors, items, k - 1));
        assert(start.tokens().skip(2 * (k - 1)).skip(2) =~= start.tokens().skip(2 * k));
    }
}

/// What [`test_closure_compiles_195`] admits: a byte that gives a count, and
/// then as many numbers of two bytes as it says.
pub open spec fn counted_pairs<'a>(
    start: Bytes<'a>,
    end: Bytes<'a>,
    result: PResult<(), CustomError>,
) -> bool {
    let bytes = start.tokens();
    if bytes.len() == 0 {
        starved(start, Needed::Size(1), ErrorKind::Token, end, result)
    } else {
        exists|mid: Bytes<'a>|
            mid.tokens() == bytes.skip(1) && mid.partial() == start.partial() && #[trigger] pairs_from(
                bytes[0],
                mid,
                end,
                result,
            )
    }
}

/// What `count` numbers of two bytes, read and dropped from `start` on, come to.
pub open spec fn pairs_from<'a>(
    count: u8,
    start: Bytes<'a>,
    end: Bytes<'a>,
    result: PResult<(), CustomError>,
) -> bool {
    let bytes = start.tokens();
    if bytes.len() >= 2 * count {
        end.tokens() == bytes.skip(2 * count) && result == Ok::<(), ErrMode<CustomError>>(
            (),
        )
    } else {
        let whole = bytes.len() as int / 2;
        let left = bytes.len() as int % 2;
        &&& end.tokens() == bytes.skip(2 * whole)
        &&& if start.partial() {
            result == Err::<(), ErrMode<CustomError>>(
                ErrMode::Incomplete(Needed::spec_new((2 - left) as nat)),
            )
        } else {
            result matches Err(ErrMode::Backtrack(_))
        }
    }
}

/// A repetition of exactly `count` numbers of two bytes comes to [`pairs_from`].
proof fn lemma_counted<'a>(
    parser: Uint16,
    count: u8,
    start: Bytes<'a>,
    end: Bytes<'a>,
    result: PResult<(), CustomError>,
)
    requires
        repeats::<Bytes<'a>, CustomError, Uint16, ()>(
            parser,
            Range::spec_exactly(count as usize),
            start,
            end,
            result,
        ),
    ensures
        pairs_from(count, start, end, result),
{
    let range = Range::spec_exactly(count as usize);
    let (cursors, items) = choose|cursors: Seq<Bytes<'a>>, items: Seq<u16>| #[trigger]
        iterates::<Bytes<'a>, CustomError, Uint16>(parser, start, cursors, items)
            && items.len() <= range.upper() && stops(
            parser,
            range,
            cursors.last(),
            items.len(),
            end,
            result,
            |c: ()| c.holds(items),
            |at: Bytes<'a>, e: CustomError|
                failed_short(e, at, cursors.last(), end, result),
        );
    let n = items.len() as int;
    lemma_pairs::<CustomError>(parser, start, cursors, items, n);
    let cur = cursors.last();
    let bytes = start.tokens();
    assert(cur.tokens() == bytes.skip(2 * n));
    assert(cur.tokens().len() == bytes.len() - 2 * n);
    if n < count {
        let (at, inner) = choose|at: Bytes<'a>, inner: PResult<u16, CustomError>| #[trigger]
            parser.parses(cur, at, inner) && reaches(cur, at) && match inner {
                Ok(_) => at.width() >= cur.width() && misused(at, end, result),
                Err(ErrMode::Backtrack(e)) => failed_short(
                    e,
                    at,
                    cur,
                    end,
                    result,
                ),
                Err(other) => end == at && result == Err::<(), ErrMode<CustomError>>(other),
            };
        if cur.tokens().len() >= 2 {
            assert(cur.tokens().skip(2).len() == cur.tokens().len() - 2);
            assert(at.width() < cur.width());
            assert(false);
        }
        assert(bytes.len() - 2 * n < 2);
        assert(bytes.len() / 2 == n);
        assert(cur.partial() == start.partial());
    } else {
        assert(n == count);
    }
}

/// Reads a count of one byte and then that many big-endian numbers of two
/// bytes each, which it drops.
pub fn test_closure_compiles_195<'a>(input: &mut Bytes<'a>) -> (result:
    PResult<(), CustomError>)
    ensures
        counted_pairs(*old(input), *final(input), result),
        reaches(*old(input), *final(input)),
{
    let ghost start = *input;
    let pairs = |num: u8| -> (r: Pairs)
        ensures
            r.parser.endian == Endianness::Big,
            r.range == Range::spec_exactly(num as usize)
    {
        repeat(Range::exactly(num as usize), u16(Endianness::Big))
    };
    let parser = flat_map(u8(), pairs);
    proof {
        assert forall|o: u8, next: Pairs| #[trigger] call_ensures(parser.f, (o,), next) implies Parser::<
            Bytes<'a>,
            CustomError,
        >::inv(&next) by {
            assert(Parser::<Bytes<'a>, CustomError>::inv(&next.parser));
        }
        lemma_flat_map_inv::<Bytes<'a>, CustomError, _, _, _>(parser);
    }
    let result = parser.parse_next(input);
    proof {
        let end = *input;
        let bytes = start.tokens();
        lemma_flat_map_parses::<Bytes<'a>, CustomError, _, _, _>(
            parser,
            start,
            end,
            result,
        );
        let (mid, first) = choose|mid: Bytes<'a>, first: PResult<u8, CustomError>| #[trigger]
            parser.parser.parses(start, mid, first) && reaches(start, mid) && match first {
                Ok(o) => exists|next: Pairs| #[trigger]
                    call_ensures(parser.f, (o,), next) && Parser::<Bytes<'a>, CustomError>::parses(
                        &next,
                        mid,
                        end,
                        result,
                    ) && reaches(mid, end),
                Err(e) => end == mid && result == Err::<(), ErrMode<CustomError>>(e),
            };
        assert(parser.parser.parses(start, mid, first));
        if bytes.len() > 0 {
            let num = bytes[0];
            assert(first == Ok::<u8, ErrMode<CustomError>>(num));
            let next = choose|next: Pairs| #[trigger]
                call_ensures(parser.f, (num,), next) && Parser::<Bytes<'a>, CustomError>::parses(
                    &next,
                    mid,
                    end,
                    result,
                ) && reaches(mid, end);
            assert(next.range == Range::spec_exactly(num as usize));
            assert(repeats::<Bytes<'a>, CustomError, Uint16, ()>(
                next.parser,
                next.range,
                mid,
                end,
                result,
            ));
            lemma_counted(next.parser, num, mid, end, result);
            assert(mid.tokens() == bytes.skip(1));
        }
    }
    result
}


/// What [`model_complete_take_while_m_n`] gives: with bounds in order and at
/// least `m` tokens said to match, the first `n` tokens or the first `valid`
/// ones, whichever are fewer, provided the input has them; in all other cases
/// a failure of kind `ErrorKind::Slice`.
pub open spec fn modelled<I: Stream, E: ParserError<I>>(
    m: usize,
    n: usize,
    valid: usize,
    start: I,
    end: I,
    result: PResult<I::Slice, E>,
) -> bool {
    let count = if n < valid {
        n
    } else {
        valid
    };
    if m <= n && m <= valid && count <= start.tokens().len() {
        takes(start, count as int, end, result)
    } else {
        rejected_at(start, ErrorKind::Slice, end, result)
    }
}

/// The model of a bounded scan on a complete input of which the first `valid`
/// tokens match and the next one does not: the scan takes `n` tokens or all
/// `valid` ones, whichever are fewer, and fails where the bounds are out of
/// order or fewer than `m` tokens match.
pub fn model_complete_take_while_m_n<I: Stream, E: ParserError<I>>(
    m: usize,
    n: usize,
    valid: usize,
    input: &mut I,
) -> (result: PResult<I::Slice, E>)
    ensures
        modelled(m, n, valid, *old(input), *final(input), result),
        reaches(*old(input), *final(input)),
{
    proof {
        lemma_reaches_refl(*input);
    }
    if n < m {
        Err(ErrMode::from_error_kind(input, ErrorKind::Slice))
    } else if m <= valid {
        let offset = if n < valid {
            n
        } else {
            valid
        };
        match input.next_slice(offset) {
            Ok(slice) => Ok(slice),
            Err(_) => Err(ErrMode::from_error_kind(input, ErrorKind::Slice)),
        }
    } else {
        Err(ErrMode::from_error_kind(input, ErrorKind::Slice))
    }
}

} // verus!

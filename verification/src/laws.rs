//! Properties of the library that hold of every input.
use crate::ascii::{class_run, CharClass};
use crate::binary::Uint16;
use crate::character::LineEnding;
use crate::chars::{fold_code, is_alpha_code, AsChar};
use crate::error::{ErrMode, ErrorKind, Needed, PResult, ParserError};
use crate::multi::{
    failed_short, iterates, misused, repeats, sep_iterates, sep_stepped, sep_stops, separates,
    stepped, stops, Accumulate, Range,
};
use crate::parser::{span, Parser};
use crate::recipes::modelled;
use crate::stream::{consumed, reaches, Bytes, Cursor, Stream};
use crate::text::{lemma_boundary, lemma_encode_concat, Text};
use crate::token::{
    agree_upto, agrees, begins_with, falls_short, pattern_needs, scans, Any, ContainsToken, Just,
    Literal, OneOf, Take, TakeWhile,
};
use vstd::prelude::*;
use vstd::utf8::{encode_utf8, is_char_boundary};

verus! {

/// `short` is a truncated prefix of `full`: its tokens are the first tokens of
/// `full`, and fewer than all.
pub open spec fn truncates<I: Cursor>(short: I, full: I) -> bool {
    &&& short.tokens().len() < full.tokens().len()
    &&& short.tokens() == full.tokens().take(short.tokens().len() as int)
}

/// No byte is invented or lost: what was consumed up to a later position and
/// what is left there make up the input, in bytes and in tokens.
pub proof fn law_nothing_lost<I: Cursor>(start: I, end: I)
    requires
        reaches(start, end),
    ensures
        consumed(start, end) + end.width() == start.width(),
        span(start, end) + end.tokens() == start.tokens(),
{
    let k = start.tokens().len() - end.tokens().len();
    assert(start.tokens().take(k) + start.tokens().skip(k) =~= start.tokens());
}

/// Every parse leaves the input whole: behind a successful parse, the bytes
/// consumed and the bytes remaining add up to the bytes of the input.
pub proof fn law_parse_keeps_input<I: Stream, E, P: Parser<I, E>>(
    parser: P,
    input: I,
    rest: I,
    output: P::Output,
)
    requires
        parser.parses(input, rest, Ok(output)),
        reaches(input, rest),
    ensures
        consumed(input, rest) + rest.width() == input.width(),
{
    law_nothing_lost(input, rest);
}

/// Incremental and complete parsing agree for `take`: on a truncated prefix of
/// an input that holds `count` tokens, the streaming parse asks for exactly
/// what is missing; and on every buffer that has the `count` tokens, however
/// much follows, the parse gives the same first `count` tokens as on the full
/// input.
pub proof fn law_take_resumes<I: Stream, E: ParserError<I>>(
    count: usize,
    short: I,
    short_end: I,
    short_result: PResult<I::Slice, E>,
    later: I,
    later_end: I,
    later_result: PResult<I::Slice, E>,
    full: I,
    full_end: I,
    full_result: PResult<I::Slice, E>,
)
    requires
        short.partial(),
        truncates(short, full),
        short.tokens().len() < count <= later.tokens().len(),
        later.tokens().len() <= full.tokens().len(),
        later.tokens() == full.tokens().take(later.tokens().len() as int),
        (Take { count }).parses(short, short_end, short_result),
        (Take { count }).parses(later, later_end, later_result),
        (Take { count }).parses(full, full_end, full_result),
    ensures
        short_end == short,
        short_result == Err::<I::Slice, ErrMode<E>>(
            ErrMode::Incomplete(I::shortfall((count - short.tokens().len()) as nat)),
        ),
        (full_result is Ok),
        (later_result is Ok),
        I::slice_tokens(later_result->Ok_0) == I::slice_tokens(full_result->Ok_0),
{
    assert(later.tokens().take(count as int) =~= full.tokens().take(count as int));
}


/// Incremental and complete parsing agree for `literal`: on a truncated prefix
/// of an input that begins with the pattern, the streaming parse asks for the
/// bytes of the pattern that it does not have yet; and on every buffer that
/// holds the whole pattern, however much follows, the parse gives the same
/// tokens as on the full input.
pub proof fn law_literal_resumes<I: Stream, E: ParserError<I>, G: Stream<Token = I::Token>>(
    parser: Literal<G>,
    short: I,
    short_end: I,
    short_result: PResult<I::Slice, E>,
    later: I,
    later_end: I,
    later_result: PResult<I::Slice, E>,
    full: I,
    full_end: I,
    full_result: PResult<I::Slice, E>,
) where I::Token: AsChar
    requires
        short.partial(),
        truncates(short, full),
        short.tokens().len() < parser.pattern.tokens().len() <= later.tokens().len(),
        later.tokens().len() <= full.tokens().len(),
        later.tokens() == full.tokens().take(later.tokens().len() as int),
        parser.parses(short, short_end, short_result),
        parser.parses(later, later_end, later_result),
        parser.parses(full, full_end, full_result),
        (full_result is Ok),
    ensures
        short_end == short,
        short_result == Err::<I::Slice, ErrMode<E>>(
            ErrMode::Incomplete(pattern_needs(parser.pattern.width(), short.width())),
        ),
        (later_result is Ok),
        I::slice_tokens(later_result->Ok_0) == I::slice_tokens(full_result->Ok_0),
{
    let pattern = parser.pattern.tokens();
    let n = pattern.len() as int;
    assert(begins_with(full.tokens(), pattern, parser.caseless));
    assert(agree_upto(pattern, short.tokens(), short.tokens().len() as int, parser.caseless));
    assert(agree_upto(pattern, later.tokens(), n, parser.caseless));
    assert(later.tokens().take(n) =~= full.tokens().take(n));
}

/// A streaming scan for a character class never takes a truncated buffer for
/// the whole input: what it gives on a prefix of an input it gives on the
/// input itself, the same run of the same length.
pub proof fn law_scan_stable<I: Stream, E: ParserError<I>>(
    class: CharClass,
    min: usize,
    short: I,
    short_end: I,
    short_slice: I::Slice,
    full: I,
    full_end: I,
    full_result: PResult<I::Slice, E>,
) where I::Token: AsChar
    requires
        short.partial(),
        full.partial(),
        short.tokens().len() <= full.tokens().len(),
        short.tokens() == full.tokens().take(short.tokens().len() as int),
        class_run(class, min).parses(short, short_end, Ok::<I::Slice, ErrMode<E>>(short_slice)),
        class_run(class, min).parses(full, full_end, full_result),
    ensures
        (full_result is Ok),
        I::slice_tokens(full_result->Ok_0) == I::slice_tokens(short_slice),
        full_end.tokens() == full.tokens().skip(I::slice_tokens(short_slice).len() as int),
{
    let parser = class_run(class, min);
    let short_ok = Ok::<I::Slice, ErrMode<E>>(short_slice);
    let k = choose|k: int| #[trigger]
        scans(parser.set, parser.go, parser.range, parser.kind, short, k, short_end, short_ok);
    let j = choose|j: int| #[trigger]
        scans(parser.set, parser.go, parser.range, parser.kind, full, j, full_end, full_result);
    let few = short.tokens();
    let all = full.tokens();
    assert(forall|i: int| 0 <= i < few.len() ==> few[i] == all[i]);
    if j < k {
        assert(class.decides(few[j], true));
    }
    if k < j {
        assert(class.decides(all[k], true));
    }
    assert(j == k);
    assert(few.take(k) =~= all.take(k));
}

/// The zero-width guard of `repeat`: where the inner parser can only succeed
/// without consuming, the repetition does not loop; it fails at once, and
/// unrecoverably, with `ErrorKind::Assert`.
pub proof fn law_repeat_guard<I: Stream, E: ParserError<I>, P: Parser<I, E>, C: Accumulate<P::Output>>(
    parser: P,
    range: Range,
    start: I,
    end: I,
    result: PResult<C, E>,
)
    requires
        !range.descending(),
        !range.full(0),
        forall|mid: I, inner: PResult<P::Output, E>| #[trigger]
            parser.parses(start, mid, inner) ==> inner is Ok && mid.width() >= start.width(),
        repeats(parser, range, start, end, result),
    ensures
        result matches Err(ErrMode::Cut(e)) && E::is_from_error_kind(end, ErrorKind::Assert, e),
        end.width() == start.width(),
{
    let (cursors, items) = choose|cursors: Seq<I>, items: Seq<P::Output>| #[trigger]
        iterates(parser, start, cursors, items) && items.len() <= range.upper() && stops(
            parser,
            range,
            cursors.last(),
            items.len(),
            end,
            result,
            |c: C| c.holds(items),
            |mid: I, e: E| failed_short(e, mid, cursors.last(), end, result),
        );
    if items.len() > 0 {
        assert(stepped(parser, cursors, items, 0));
    }
    assert(cursors.last() == start);
}

/// A scan of a text consumes whole codepoints: the run and the rest are the
/// text split between two characters, never within the encoding of one.
pub proof fn law_text_scan_whole_codepoints<'a, E: ParserError<Text<'a>>, S: ContainsToken<char>>(
    parser: TakeWhile<S>,
    start: Text<'a>,
    end: Text<'a>,
    run: &'a str,
)
    requires
        parser.parses(start, end, Ok::<&'a str, ErrMode<E>>(run)),
    ensures
        run@ + end.input@ == start.input@,
        encode_utf8(run@) + encode_utf8(end.input@) == encode_utf8(start.input@),
        is_char_boundary(encode_utf8(start.input@), encode_utf8(run@).len() as int),
{
    let ok = Ok::<&'a str, ErrMode<E>>(run);
    assert(!parser.range.descending());
    let k = choose|k: int| #[trigger]
        scans(parser.set, parser.go, parser.range, parser.kind, start, k, end, ok);
    assert(start.input@.take(k) + start.input@.skip(k) =~= start.input@);
    lemma_encode_concat(run@, end.input@);
    lemma_boundary(run@, end.input@);
}


/// The first `valid` tokens have the code of `wanted`, and the token behind
/// them, if there is one, has another.
pub open spec fn leads_with<T: AsChar>(tokens: Seq<T>, wanted: char, valid: int) -> bool {
    &&& 0 <= valid <= tokens.len()
    &&& forall|i: int| 0 <= i < valid ==> (#[trigger] tokens[i]).code() == wanted as u32
    &&& valid < tokens.len() ==> tokens[valid].code() != wanted as u32
}

/// A bounded scan for one character does what its model says: on a complete
/// input that leads with `valid` such characters, and with bounds in order,
/// `take_while` gives exactly what `model_complete_take_while_m_n` gives.
pub proof fn law_scan_follows_model<I: Stream, E: ParserError<I>>(
    m: usize,
    n: usize,
    valid: usize,
    wanted: char,
    start: I,
    end: I,
    result: PResult<I::Slice, E>,
) where I::Token: AsChar
    requires
        m <= n,
        !start.partial(),
        leads_with(start.tokens(), wanted, valid as int),
        (TakeWhile {
            range: Range { min: m, max: Some(n) },
            set: wanted,
            go: true,
            kind: ErrorKind::Slice,
        }).parses(start, end, result),
    ensures
        modelled(m, n, valid, start, end, result),
{
    let range = Range { min: m, max: Some(n) };
    let tokens = start.tokens();
    let k = choose|k: int| #[trigger]
        scans(wanted, true, range, ErrorKind::Slice, start, k, end, result);
    if k < valid && k < n {
        assert(wanted.decides(tokens[k], false));
    }
    if k > valid {
        assert(wanted.decides(tokens[valid as int], true));
    }
}


/// The zero-width guard of `separated`: where the first item can only succeed
/// and the separator can only succeed without consuming, a list that is to
/// hold two items or more does not loop; it fails unrecoverably with
/// `ErrorKind::Assert`.
pub proof fn law_separated_guard<
    I: Stream,
    E: ParserError<I>,
    P: Parser<I, E>,
    S: Parser<I, E>,
    C: Accumulate<P::Output>,
>(parser: P, separator: S, range: Range, start: I, end: I, result: PResult<C, E>)
    requires
        !range.descending(),
        !range.full(1),
        forall|mid: I, inner: PResult<P::Output, E>| #[trigger]
            parser.parses(start, mid, inner) ==> inner is Ok,
        forall|cur: I, mid: I, inner: PResult<S::Output, E>| #[trigger]
            separator.parses(cur, mid, inner) ==> inner is Ok && mid.width() >= cur.width(),
        separates(parser, separator, range, start, end, result),
    ensures
        result matches Err(ErrMode::Cut(e)) && E::is_from_error_kind(end, ErrorKind::Assert, e),
{
    let (cursors, items) = choose|cursors: Seq<I>, items: Seq<P::Output>| #[trigger]
        sep_iterates(parser, separator, start, cursors, items) && items.len() <= range.upper()
            && sep_stops(
            parser,
            separator,
            range,
            cursors.last(),
            items.len(),
            end,
            result,
            |c: C| c.holds(items),
        );
    if items.len() > 1 {
        assert(sep_stepped(parser, separator, cursors, items, 1));
    }
}


/// On bytes the request of `take` is exact: a streaming parse of a truncated
/// prefix asks for a number of bytes, and with exactly that many more bytes of
/// the input the parse succeeds as it does on the full input.
pub proof fn law_take_resumes_on_bytes<'a, E: ParserError<Bytes<'a>>>(
    count: usize,
    short: Bytes<'a>,
    short_end: Bytes<'a>,
    short_result: PResult<&'a [u8], E>,
    later: Bytes<'a>,
    later_end: Bytes<'a>,
    later_result: PResult<&'a [u8], E>,
    full: Bytes<'a>,
    full_end: Bytes<'a>,
    full_result: PResult<&'a [u8], E>,
)
    requires
        short.partial,
        truncates(short, full),
        (full_result is Ok),
        (Take { count }).parses(short, short_end, short_result),
        (Take { count }).parses(later, later_end, later_result),
        (Take { count }).parses(full, full_end, full_result),
        short_result matches Err(ErrMode::Incomplete(Needed::Size(missing))) ==> later.input@
            == full.input@.take(short.input@.len() + missing),
        (short_result is Ok) ==> later == short,
    ensures
        later_result matches Ok(taken) && taken@ == (full_result->Ok_0)@,
        (short_result is Ok) || (short_result matches Err(ErrMode::Incomplete(Needed::Size(missing)))
            && missing == count - short.input@.len()),
{
    if count <= short.input@.len() {
        assert(short.input@.take(count as int) =~= full.input@.take(count as int));
    } else {
        let missing = count - short.input@.len();
        assert(later.input@.take(count as int) =~= full.input@.take(count as int));
    }
}


/// Incremental and complete parsing agree for the parsers of one token: on an
/// empty buffer the streaming parse asks for one byte, and on every buffer that
/// begins with the first token of the input the parse gives what it gives on
/// the input. This is the law of `any`; [`law_one_of_resumes`] and
/// [`law_just_resumes`] are those of its kin.
pub proof fn law_any_resumes<I: Stream, E: ParserError<I>>(
    short: I,
    short_end: I,
    short_result: PResult<I::Token, E>,
    later: I,
    later_end: I,
    later_result: PResult<I::Token, E>,
    full: I,
    full_end: I,
    full_result: PResult<I::Token, E>,
)
    requires
        short.partial(),
        short.tokens().len() == 0,
        later.tokens().len() > 0,
        full.tokens().len() > 0,
        later.tokens()[0] == full.tokens()[0],
        Any.parses(short, short_end, short_result),
        Any.parses(later, later_end, later_result),
        Any.parses(full, full_end, full_result),
    ensures
        short_end == short,
        short_result == Err::<I::Token, ErrMode<E>>(ErrMode::Incomplete(Needed::Size(1))),
        (full_result is Ok),
        later_result == full_result,
{
}

/// The law of [`law_any_resumes`] for a token of a set whose verdicts are
/// settled: what the parse gives on the input, it gives on every buffer that
/// begins with the input's first token, and on an empty buffer it asks for one
/// byte.
pub proof fn law_one_of_resumes<I: Stream, E: ParserError<I>, S: ContainsToken<I::Token>>(
    parser: OneOf<S>,
    short: I,
    short_end: I,
    short_result: PResult<I::Token, E>,
    later: I,
    later_end: I,
    later_result: PResult<I::Token, E>,
    full: I,
    full_end: I,
    full_result: PResult<I::Token, E>,
)
    requires
        short.partial(),
        short.tokens().len() == 0,
        later.tokens().len() > 0,
        full.tokens().len() > 0,
        later.tokens()[0] == full.tokens()[0],
        !(parser.set.decides(full.tokens()[0], true) && parser.set.decides(full.tokens()[0], false)),
        parser.parses(short, short_end, short_result),
        parser.parses(later, later_end, later_result),
        parser.parses(full, full_end, full_result),
        (full_result is Ok),
    ensures
        short_end == short,
        short_result == Err::<I::Token, ErrMode<E>>(ErrMode::Incomplete(Needed::Size(1))),
        later_result == full_result,
{
}

/// The law of [`law_any_resumes`] for one given character.
pub proof fn law_just_resumes<I: Stream, E: ParserError<I>>(
    parser: Just,
    short: I,
    short_end: I,
    short_result: PResult<char, E>,
    later: I,
    later_end: I,
    later_result: PResult<char, E>,
    full: I,
    full_end: I,
    full_result: PResult<char, E>,
) where I::Token: AsChar
    requires
        short.partial(),
        short.tokens().len() == 0,
        later.tokens().len() > 0,
        full.tokens().len() > 0,
        later.tokens()[0] == full.tokens()[0],
        parser.parses(short, short_end, short_result),
        parser.parses(later, later_end, later_result),
        parser.parses(full, full_end, full_result),
        (full_result is Ok),
    ensures
        short_end == short,
        short_result == Err::<char, ErrMode<E>>(ErrMode::Incomplete(Needed::Size(1))),
        later_result == full_result,
{
}

/// Incremental and complete parsing agree for a number of two bytes: a
/// streaming parse of fewer than two bytes asks for the missing ones, and with
/// those the parse gives the number that the input gives.
pub proof fn law_u16_resumes<'a, E: ParserError<Bytes<'a>>>(
    parser: Uint16,
    short: Bytes<'a>,
    short_end: Bytes<'a>,
    short_result: PResult<u16, E>,
    later: Bytes<'a>,
    later_end: Bytes<'a>,
    later_result: PResult<u16, E>,
    full: Bytes<'a>,
    full_end: Bytes<'a>,
    full_result: PResult<u16, E>,
)
    requires
        short.partial,
        truncates(short, full),
        short.input@.len() < 2 <= full.input@.len(),
        later.input@ == full.input@.take(2),
        parser.parses(short, short_end, short_result),
        parser.parses(later, later_end, later_result),
        parser.parses(full, full_end, full_result),
    ensures
        short_end == short,
        short_result == Err::<u16, ErrMode<E>>(
            ErrMode::Incomplete(Needed::Size((2 - short.input@.len()) as usize)),
        ),
        (full_result is Ok),
        later_result == full_result,
{
}

/// Incremental and complete parsing agree for a line ending: where a streaming
/// parse of a truncated prefix asks for more, the parse of every buffer that
/// holds the line ending of the input gives the tokens that the input gives.
pub proof fn law_line_ending_resumes<I: Stream, E: ParserError<I>>(
    parser: LineEnding,
    short: I,
    short_end: I,
    short_result: PResult<I::Slice, E>,
    later: I,
    later_end: I,
    later_result: PResult<I::Slice, E>,
    full: I,
    full_end: I,
    full_result: PResult<I::Slice, E>,
) where I::Token: AsChar
    requires
        short.partial(),
        truncates(short, full),
        short.tokens().len() < 2 <= later.tokens().len(),
        later.tokens().len() <= full.tokens().len(),
        later.tokens() == full.tokens().take(later.tokens().len() as int),
        parser.parses(short, short_end, short_result),
        parser.parses(later, later_end, later_result),
        parser.parses(full, full_end, full_result),
        (full_result is Ok),
    ensures
        (short_result is Ok) ==> I::slice_tokens(short_result->Ok_0) == I::slice_tokens(
            full_result->Ok_0,
        ),
        !(short_result is Ok) ==> short_end == short && (short_result matches Err(
            ErrMode::Incomplete(Needed::Size(_)),
        )),
        (later_result is Ok),
        I::slice_tokens(later_result->Ok_0) == I::slice_tokens(full_result->Ok_0),
{
    let few = short.tokens();
    let all = full.tokens();
    let some = later.tokens();
    assert(forall|i: int| 0 <= i < few.len() ==> few[i] == all[i]);
    assert(forall|i: int| 0 <= i < some.len() ==> some[i] == all[i]);
    assert(some[0] == all[0]);
    assert(some[1] == all[1]);
    assert(some.take(1) =~= all.take(1));
    assert(some.take(2) =~= all.take(2));
    if few.len() == 1 {
        assert(few[0] == all[0]);
        assert(few.take(1) =~= all.take(1));
    }
}


/// Matching without regard to case folds ASCII letters and nothing else: two
/// tokens agree only if they are the same token, or are the capital and the
/// small form of one ASCII letter. A token outside of ASCII agrees with itself
/// alone, whatever other token may look like it.
pub proof fn law_caseless_folds_ascii_only<T: AsChar>(pattern: T, token: T)
    requires
        agrees(pattern, token, true),
    ensures
        pattern == token || (is_alpha_code(pattern.code()) && is_alpha_code(token.code()) && (
            pattern.code() == token.code() + 0x20 || token.code() == pattern.code() + 0x20)),
        pattern.code() >= 0x80 || token.code() >= 0x80 ==> pattern == token,
{
    if pattern.code() == token.code() {
        T::lemma_code_injective(pattern, token);
    }
}

} // verus!

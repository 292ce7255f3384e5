//! A decoder for the escape sequences of a quoted text: backslash, quote and
//! line feed, written behind a backslash.
use crate::ascii::CharClass;
use crate::branch::{alt, attempt, exhausted, merged, Alt};
use crate::character::{alpha1, class_run};
use crate::chars::{is_alpha_code, AsChar};
use crate::error::{ErrMode, ErrorKind, PResult, ParserError};
use crate::escape::{
    decode_iterates, decode_stepped, decode_stops, escape_at, escape_fails, escaped_transform,
    EscapedTransform,
};
use crate::multi::{concat_text, Accumulate};
use crate::parser::{rejected_at, value, Parser, Value};
use crate::stream::{reaches, Cursor, Stream};
use crate::text::Text;
use crate::token::{
    agrees, begins_with, falls_short, scans, tag, ContainsToken, Literal, TakeWhile,
};
use vstd::prelude::*;

verus! {

/// The parser of one escape code and its replacement.
pub type Replacement<'a> = Value<Literal<Text<'static>>, &'a str>;

/// The three escape codes.
pub type Codes<'a> = Alt<(Replacement<'a>, Replacement<'a>, Replacement<'a>)>;

/// The decoder: runs of letters, and escape sequences behind a backslash.
pub type Unescaper<'a> = EscapedTransform<TakeWhile<CharClass>, Codes<'a>, String>;

/// `parser` matches the one character `code` and gives the one character `by`.
pub open spec fn replaces(parser: Replacement, code: char, by: char) -> bool {
    &&& parser.parser.pattern.tokens() == seq![code]
    &&& !parser.parser.caseless
    &&& parser.constant@ == seq![by]
}

/// `parser` is the decoder of this module: letters stand for themselves, and
/// behind a backslash a backslash stands for a backslash, a quote for a quote,
/// and `n` for a line feed.
pub open spec fn is_unescaper(parser: Unescaper) -> bool {
    &&& parser.normal == class_run(CharClass::Alpha, 1)
    &&& parser.control == '\\'
    &&& replaces(parser.body.alternatives.0, '\\', '\\')
    &&& replaces(parser.body.alternatives.1, '"', '"')
    &&& replaces(parser.body.alternatives.2, 'n', '\n')
}

/// The decoder of a text in which a backslash, a quote and a line feed are
/// written as escape sequences.
pub fn unescaper<'a>() -> (parser: Unescaper<'a>)
    ensures
        is_unescaper(parser),
{
    proof {
        reveal_strlit("\\");
        reveal_strlit("\"");
        reveal_strlit("n");
        reveal_strlit("\n");
    }
    let backslash = value(tag::<char, _>("\\"), "\\");
    let quote = value(tag::<char, _>("\""), "\"");
    let line_feed = value(tag::<char, _>("n"), "\n");
    assert(backslash.parser.pattern.tokens() =~= seq!['\\']);
    assert(backslash.constant@ =~= seq!['\\']);
    assert(quote.parser.pattern.tokens() =~= seq!['"']);
    assert(quote.constant@ =~= seq!['"']);
    assert(line_feed.parser.pattern.tokens() =~= seq!['n']);
    assert(line_feed.constant@ =~= seq!['\n']);
    escaped_transform(alpha1(), '\\', alt((backslash, quote, line_feed)))
}

/// What one replacement admits: where the input begins with its code, the
/// replacement, the code consumed; else a recoverable failure or, at the end of
/// a streaming input, a request for more.
proof fn lemma_replacement<'a, E: ParserError<Text<'a>>>(
    parser: Replacement<'a>,
    code: char,
    by: char,
    start: Text<'a>,
    end: Text<'a>,
    result: PResult<&'a str, E>,
)
    requires
        replaces(parser, code, by),
        parser.parses(start, end, result),
    ensures
        start.input@.len() > 0 && start.input@[0] == code ==> (result matches Ok(piece) && piece@
            == seq![by]) && end.input@ == start.input@.skip(1),
        start.input@.len() > 0 && start.input@[0] != code ==> (result matches Err(
            ErrMode::Backtrack(_),
        )),
{
    let pattern = parser.parser.pattern.tokens();
    let tokens = start.input@;
    if tokens.len() > 0 {
        if tokens[0] == code {
            assert(begins_with(tokens, pattern, false));
        } else {
            assert(!agrees(pattern[0], tokens[0], false));
            assert(!begins_with(tokens, pattern, false));
            assert(!falls_short(tokens, pattern, false));
        }
    }
}

/// The character that an escape code stands for.
pub open spec fn decoded(code: char) -> char {
    if code == 'n' {
        '\n'
    } else {
        code
    }
}

/// Whether a character is an escape code.
pub open spec fn is_code(code: char) -> bool {
    code == '\\' || code == '"' || code == 'n'
}

/// What the three codes admit behind a backslash: for a code its replacement,
/// the code consumed; for any other character a failure.
proof fn lemma_codes<'a, E: ParserError<Text<'a>>>(
    parser: Unescaper<'a>,
    start: Text<'a>,
    end: Text<'a>,
    result: PResult<&'a str, E>,
)
    requires
        is_unescaper(parser),
        start.input@.len() > 0,
        parser.body.parses(start, end, result),
    ensures
        is_code(start.input@[0]) ==> (result matches Ok(piece) && piece@ == seq![
            decoded(start.input@[0]),
        ]) && end.input@ == start.input@.skip(1),
        !is_code(start.input@[0]) ==> (result is Err),
{
    let codes = parser.body.alternatives;
    let c = start.input@[0];
    let (m1, r1) = choose|m1: Text<'a>, r1: PResult<&'a str, E>| #[trigger]
        codes.0.parses(start, m1, r1) && reaches(start, m1) && match r1 {
            Err(ErrMode::Backtrack(e1)) => attempt(
                codes.1,
                start,
                end,
                result,
                |m2: Text<'a>, e2: E|
                    merged::<Text<'a>, E>(
                        e1,
                        e2,
                        |e12: E|
                            attempt(
                                codes.2,
                                start,
                                end,
                                result,
                                |m3: Text<'a>, e3: E|
                                    merged::<Text<'a>, E>(
                                        e12,
                                        e3,
                                        |e123: E| exhausted(e123, m3, start, end, result),
                                    ),
                            ),
                    ),
            ),
            _ => end == m1 && result == r1,
        };
    lemma_replacement(codes.0, '\\', '\\', start, m1, r1);
    if c != '\\' {
        let e1 = r1->Err_0->Backtrack_0;
        let (m2, r2) = choose|m2: Text<'a>, r2: PResult<&'a str, E>| #[trigger]
            codes.1.parses(start, m2, r2) && reaches(start, m2) && match r2 {
                Err(ErrMode::Backtrack(e2)) => merged::<Text<'a>, E>(
                    e1,
                    e2,
                    |e12: E|
                        attempt(
                            codes.2,
                            start,
                            end,
                            result,
                            |m3: Text<'a>, e3: E|
                                merged::<Text<'a>, E>(
                                    e12,
                                    e3,
                                    |e123: E| exhausted(e123, m3, start, end, result),
                                ),
                        ),
                ),
                _ => end == m2 && result == r2,
            };
        lemma_replacement(codes.1, '"', '"', start, m2, r2);
        if c != '"' {
            let e2 = r2->Err_0->Backtrack_0;
            let e12 = choose|e12: E| #[trigger]
                E::is_or(e1, e2, e12) && attempt(
                    codes.2,
                    start,
                    end,
                    result,
                    |m3: Text<'a>, e3: E|
                        merged::<Text<'a>, E>(
                            e12,
                            e3,
                            |e123: E| exhausted(e123, m3, start, end, result),
                        ),
                );
            let (m3, r3) = choose|m3: Text<'a>, r3: PResult<&'a str, E>| #[trigger]
                codes.2.parses(start, m3, r3) && reaches(start, m3) && match r3 {
                    Err(ErrMode::Backtrack(e3)) => merged::<Text<'a>, E>(
                        e12,
                        e3,
                        |e123: E| exhausted(e123, m3, start, end, result),
                    ),
                    _ => end == m3 && result == r3,
                };
            lemma_replacement(codes.2, 'n', '\n', start, m3, r3);
        }
    }
}


/// Whether a character is an ASCII letter.
pub open spec fn is_letter(c: char) -> bool {
    is_alpha_code(c as u32)
}

/// Whether a character has to be written as an escape sequence.
pub open spec fn needs_escape(c: char) -> bool {
    c == '\\' || c == '"' || c == '\n'
}

/// The way a character is written: a letter as itself, a backslash, a quote
/// and a line feed as a backslash and their code.
pub open spec fn escape_char(c: char) -> Seq<char> {
    if c == '\n' {
        seq!['\\', 'n']
    } else if needs_escape(c) {
        seq!['\\', c]
    } else {
        seq![c]
    }
}

/// The way a text is written, character by character.
pub open spec fn escape(text: Seq<char>) -> Seq<char>
    decreases text.len(),
{
    if text.len() == 0 {
        Seq::empty()
    } else {
        escape_char(text[0]) + escape(text.drop_first())
    }
}

/// The text is made of letters, backslashes, quotes and line feeds.
pub open spec fn encodable(text: Seq<char>) -> bool {
    forall|i: int| 0 <= i < text.len() ==> is_letter(#[trigger] text[i]) || needs_escape(text[i])
}

/// What follows an escaped text does not go on like one: it is empty, or it
/// begins with a character that is neither a letter nor a backslash.
pub open spec fn ends_text(rest: Seq<char>) -> bool {
    rest.len() > 0 ==> !is_letter(rest[0]) && rest[0] != '\\'
}

/// Letters at the front of a written text are letters of the text itself.
proof fn lemma_letters(text: Seq<char>, rest: Seq<char>, n: int)
    requires
        encodable(text),
        ends_text(rest),
        0 <= n <= (escape(text) + rest).len(),
        forall|i: int| 0 <= i < n ==> is_letter(#[trigger] (escape(text) + rest)[i]),
    ensures
        n <= text.len(),
        (escape(text) + rest).take(n) == text.take(n),
        (escape(text) + rest).skip(n) == escape(text.skip(n)) + rest,
    decreases n,
{
    let tokens = escape(text) + rest;
    if n == 0 {
        assert(tokens.take(0) =~= text.take(0));
        assert(text.skip(0) =~= text);
        assert(tokens.skip(0) =~= tokens);
    } else {
        assert(is_letter(tokens[0]));
        if text.len() == 0 {
            assert(tokens =~= rest);
        }
        assert(text.len() > 0);
        let head = text[0];
        let tail = text.drop_first();
        assert(is_letter(head) || needs_escape(head));
        if needs_escape(head) {
            assert(tokens[0] == '\\');
        }
        assert(escape_char(head) =~= seq![head]);
        let shorter = escape(tail) + rest;
        assert(tokens =~= seq![head] + shorter);
        assert forall|i: int| 0 <= i < tail.len() implies is_letter(#[trigger] tail[i])
            || needs_escape(tail[i]) by {
            assert(tail[i] == text[i + 1]);
        }
        assert forall|i: int| 0 <= i < n - 1 implies is_letter(#[trigger] shorter[i]) by {
            assert(shorter[i] == tokens[i + 1]);
        }
        lemma_letters(tail, rest, n - 1);
        assert(tokens.take(n) =~= seq![head] + shorter.take(n - 1));
        assert(text.take(n) =~= seq![head] + tail.take(n - 1));
        assert(tokens.skip(n) =~= shorter.skip(n - 1));
        assert(text.skip(n) =~= tail.skip(n - 1));
    }
}

/// A backslash at the front of a written text introduces the first character
/// of the text.
proof fn lemma_escape_head(text: Seq<char>, rest: Seq<char>)
    requires
        encodable(text),
        ends_text(rest),
        (escape(text) + rest).len() > 0,
        (escape(text) + rest)[0] == '\\',
    ensures
        text.len() > 0,
        (escape(text) + rest).len() >= 2,
        is_code((escape(text) + rest)[1]),
        decoded((escape(text) + rest)[1]) == text[0],
        (escape(text) + rest).skip(2) == escape(text.skip(1)) + rest,
{
    let tokens = escape(text) + rest;
    if text.len() == 0 {
        assert(tokens =~= rest);
    }
    let head = text[0];
    let tail = text.drop_first();
    assert(is_letter(head) || needs_escape(head));
    if !needs_escape(head) {
        assert(escape_char(head) =~= seq![head]);
        assert(tokens[0] == head);
    }
    assert(tokens =~= escape_char(head) + (escape(tail) + rest));
    assert(tokens.skip(2) =~= escape(tail) + rest);
    assert(text.skip(1) =~= tail);
}

/// A written text that begins with neither a letter nor a backslash is empty.
proof fn lemma_plain_head(text: Seq<char>, rest: Seq<char>)
    requires
        encodable(text),
        (escape(text) + rest).len() > 0 ==> !is_letter((escape(text) + rest)[0]) && (escape(text)
            + rest)[0] != '\\',
    ensures
        text.len() == 0,
{
    if text.len() > 0 {
        let head = text[0];
        assert(is_letter(head) || needs_escape(head));
        assert((escape(text) + rest)[0] == escape_char(head)[0]);
    }
}

/// A suffix of an encodable text is encodable.
proof fn lemma_suffix_encodable(text: Seq<char>, j: int)
    requires
        encodable(text),
        0 <= j <= text.len(),
    ensures
        encodable(text.skip(j)),
{
    assert forall|i: int| 0 <= i < text.skip(j).len() implies is_letter(#[trigger] text.skip(j)[i])
        || needs_escape(text.skip(j)[i]) by {
        assert(text.skip(j)[i] == text[i + j]);
    }
}

/// Along a decoding trace of a written text, every position stands between
/// two characters of the text, and the pieces up to there are the text up to
/// there.
proof fn lemma_trace<'a, E: ParserError<Text<'a>>>(
    parser: Unescaper<'a>,
    intended: Seq<char>,
    rest: Seq<char>,
    start: Text<'a>,
    cursors: Seq<Text<'a>>,
    pieces: Seq<&'a str>,
    k: int,
) -> (j: int)
    requires
        is_unescaper(parser),
        encodable(intended),
        ends_text(rest),
        start.input@ == escape(intended) + rest,
        decode_iterates::<Text<'a>, E, TakeWhile<CharClass>, Codes<'a>>(
            parser.normal,
            parser.control,
            parser.body,
            start,
            cursors,
            pieces,
        ),
        0 <= k <= pieces.len(),
    ensures
        0 <= j <= intended.len(),
        cursors[k].input@ == escape(intended.skip(j)) + rest,
        concat_text(pieces.take(k)) == intended.take(j),
        k > 0 ==> j > 0,
    decreases k,
{
    if k == 0 {
        assert(intended.skip(0) =~= intended);
        assert(pieces.take(0) =~= Seq::<&'a str>::empty());
        assert(intended.take(0) =~= Seq::<char>::empty());
        0
    } else {
        let i = lemma_trace::<E>(parser, intended, rest, start, cursors, pieces, k - 1);
        let from = cursors[k - 1];
        let to = cursors[k];
        let piece = pieces[k - 1];
        let text = intended.skip(i);
        let tokens = from.input@;
        lemma_suffix_encodable(intended, i);
        assert(decode_stepped::<Text<'a>, E, TakeWhile<CharClass>, Codes<'a>>(
            parser.normal,
            parser.control,
            parser.body,
            cursors,
            pieces,
            k - 1,
        ));
        assert(pieces.take(k).drop_last() =~= pieces.take(k - 1));
        assert(pieces.take(k).last() == piece);
        let ok = Ok::<&'a str, ErrMode<E>>(piece);
        if parser.normal.parses(from, to, ok) && reaches(from, to) && to.width() < from.width() {
            let run = parser.normal;
            let n = choose|n: int| #[trigger]
                scans(run.set, run.go, run.range, run.kind, from, n, to, ok);
            assert forall|q: int| 0 <= q < n implies is_letter(#[trigger] tokens[q]) by {
                assert(run.set.decides(tokens[q], true));
            }
            lemma_letters(text, rest, n);
            assert(text.take(n) =~= intended.subrange(i, i + n));
            assert(text.skip(n) =~= intended.skip(i + n));
            assert(intended.take(i) + intended.subrange(i, i + n) =~= intended.take(i + n));
            assert(n > 0) by {
                if n == 0 {
                    assert(tokens.skip(0) =~= tokens);
                }
            }
            i + n
        } else {
            assert(escape_at(from, parser.control));
            <char as AsChar>::lemma_code_injective(tokens[0], '\\');
            lemma_escape_head(text, rest);
            let after = choose|after: Text<'a>|
                after.tokens() == from.tokens().skip(1) && #[trigger] reaches(from, after)
                    && parser.body.parses(after, to, ok) && reaches(after, to);
            lemma_codes::<E>(parser, after, to, ok);
            assert(after.input@[0] == tokens[1]);
            assert(tokens.skip(1).skip(1) =~= tokens.skip(2));
            assert(text.skip(1) =~= intended.skip(i + 1));
            assert(intended.take(i) + seq![intended[i]] =~= intended.take(i + 1));
            assert(text[0] == intended[i]);
            i + 1
        }
    }
}

/// What a scan for one letter or more gives at a place with input left: with a
/// letter there it succeeds and consumes; with anything else there it fails
/// recoverably.
proof fn lemma_letters_first<'a, E: ParserError<Text<'a>>>(
    run: TakeWhile<CharClass>,
    cur: Text<'a>,
    mid: Text<'a>,
    inner: PResult<&'a str, E>,
)
    requires
        run == class_run(CharClass::Alpha, 1),
        !cur.partial,
        cur.input@.len() > 0,
        run.parses(cur, mid, inner),
    ensures
        is_letter(cur.input@[0]) ==> (inner is Ok) && mid.input@.len() < cur.input@.len(),
        !is_letter(cur.input@[0]) ==> (inner matches Err(ErrMode::Backtrack(_))),
{
    let tokens = cur.input@;
    let n = choose|n: int| #[trigger]
        scans(run.set, run.go, run.range, run.kind, cur, n, mid, inner);
    if is_letter(tokens[0]) {
        assert(run.set.decides(tokens[0], true));
        assert(n >= 1);
        assert(tokens.skip(n).len() == tokens.len() - n);
    } else {
        if n > 0 {
            assert(run.set.decides(tokens[0], true));
        }
    }
}

/// Behind a backslash that introduces a character of the text, the decoder
/// does not fail.
proof fn lemma_escape_succeeds<'a, E: ParserError<Text<'a>>>(
    parser: Unescaper<'a>,
    text: Seq<char>,
    rest: Seq<char>,
    start: Text<'a>,
    cur: Text<'a>,
    end: Text<'a>,
    result: PResult<String, E>,
)
    requires
        is_unescaper(parser),
        encodable(text),
        ends_text(rest),
        cur.input@ == escape(text) + rest,
        cur.input@.len() > 0,
        cur.input@[0] == '\\',
    ensures
        !escape_fails(parser.body, ErrorKind::EscapedTransform, cur, start, cur, end, result),
{
    let tokens = cur.input@;
    lemma_escape_head(text, rest);
    if escape_fails(parser.body, ErrorKind::EscapedTransform, cur, start, cur, end, result) {
        lemma_escape_refuted::<E>(parser, tokens, start, cur, end, result);
    }
}

/// The step of [`lemma_escape_succeeds`] that looks at the codes.
proof fn lemma_escape_refuted<'a, E: ParserError<Text<'a>>>(
    parser: Unescaper<'a>,
    tokens: Seq<char>,
    start: Text<'a>,
    cur: Text<'a>,
    end: Text<'a>,
    result: PResult<String, E>,
)
    requires
        is_unescaper(parser),
        cur.input@ == tokens,
        tokens.len() >= 2,
        is_code(tokens[1]),
        escape_fails(parser.body, ErrorKind::EscapedTransform, cur, start, cur, end, result),
    ensures
        !is_code(tokens[1]),
{
    let (after, to, coded) = choose|after: Text<'a>, to: Text<'a>, coded: PResult<&'a str, E>|
        after.tokens() == cur.tokens().skip(1) && reaches(cur, after) && #[trigger] parser.body.parses(
            after,
            to,
            coded,
        ) && reaches(after, to) && end == to && match coded {
            Ok(_) => false,
            Err(ErrMode::Backtrack(e)) => (result matches Err(ErrMode::Cut(e2)) && E::is_append(
                e,
                to,
                start,
                ErrorKind::EscapedTransform,
                e2,
            )),
            Err(other) => result == Err::<String, ErrMode<E>>(other),
        };
    assert(after.input@[0] == tokens[1]);
    lemma_codes::<E>(parser, after, to, coded);
}

/// Where a decoding of a written text ends, the text has been read to its
/// end, and the value is what the pieces make up.
proof fn lemma_end<'a, E: ParserError<Text<'a>>>(
    parser: Unescaper<'a>,
    text: Seq<char>,
    rest: Seq<char>,
    start: Text<'a>,
    cur: Text<'a>,
    pieces: Seq<&'a str>,
    end: Text<'a>,
    result: PResult<String, E>,
)
    requires
        is_unescaper(parser),
        encodable(text),
        ends_text(rest),
        !start.partial,
        reaches(start, cur),
        start.input@.len() > rest.len(),
        cur.input@ == escape(text) + rest,
        decode_stops(parser.normal, parser.control, parser.body, start, cur, pieces, end, result),
    ensures
        text.len() == 0,
        end == cur,
        result matches Ok(value) && value@ == concat_text(pieces),
{
    let tokens = cur.input@;
    if tokens.len() == 0 {
        lemma_plain_head(text, rest);
    } else {
        let (mid, inner) = choose|mid: Text<'a>, inner: PResult<&'a str, E>| #[trigger]
            parser.normal.parses(cur, mid, inner) && reaches(cur, mid) && match inner {
                Ok(_) => mid.width() >= cur.width() && end == mid && (result matches Ok(c)
                    && c.holds(pieces)),
                Err(ErrMode::Backtrack(_)) => if escape_at(cur, parser.control) {
                    escape_fails(
                        parser.body,
                        ErrorKind::EscapedTransform,
                        cur,
                        start,
                        cur,
                        end,
                        result,
                    )
                } else if cur.width() >= start.width() {
                    rejected_at(start, ErrorKind::EscapedTransform, end, result)
                } else {
                    end == cur && (result matches Ok(c) && c.holds(pieces))
                },
                Err(other) => end == mid && result == Err::<String, ErrMode<E>>(other),
            };
        lemma_letters_first::<E>(parser.normal, cur, mid, inner);
        if tokens[0] == '\\' {
            <char as AsChar>::lemma_code_injective(tokens[0], '\\');
            assert(escape_at(cur, parser.control));
            lemma_escape_succeeds::<E>(parser, text, rest, start, cur, end, result);
        } else if !is_letter(tokens[0]) {
            if escape_at(cur, parser.control) {
                <char as AsChar>::lemma_code_injective(tokens[0], '\\');
            }
            lemma_plain_head(text, rest);
            assert(escape(text) =~= Seq::<char>::empty());
            assert(tokens =~= rest);
        }
    }
}

/// Decoding gives back what was written: for a text of letters, backslashes,
/// quotes and line feeds, written with its escape sequences and followed by
/// something that does not go on like a text, the decoder gives the text itself
/// and stops exactly behind what was written.
pub proof fn law_unescape_round_trip<'a, E: ParserError<Text<'a>>>(
    parser: Unescaper<'a>,
    intended: Seq<char>,
    rest: Seq<char>,
    start: Text<'a>,
    end: Text<'a>,
    result: PResult<String, E>,
)
    requires
        is_unescaper(parser),
        intended.len() > 0,
        encodable(intended),
        ends_text(rest),
        !start.partial,
        start.input@ == escape(intended) + rest,
        parser.parses(start, end, result),
    ensures
        result matches Ok(text) && text@ == intended,
        end.input@ == rest,
{
    let (cursors, pieces) = choose|cursors: Seq<Text<'a>>, pieces: Seq<&'a str>| #[trigger]
        decode_iterates::<Text<'a>, E, TakeWhile<CharClass>, Codes<'a>>(
            parser.normal,
            parser.control,
            parser.body,
            start,
            cursors,
            pieces,
        ) && reaches(start, cursors.last()) && decode_stops(
            parser.normal,
            parser.control,
            parser.body,
            start,
            cursors.last(),
            pieces,
            end,
            result,
        );
    let k = pieces.len() as int;
    let j = lemma_trace::<E>(parser, intended, rest, start, cursors, pieces, k);
    let text = intended.skip(j);
    lemma_suffix_encodable(intended, j);
    assert(pieces.take(k) =~= pieces);
    assert(escape(intended).len() > 0) by {
        assert(escape_char(intended[0]).len() > 0);
    }
    lemma_end::<E>(parser, text, rest, start, cursors.last(), pieces, end, result);
    assert(intended.take(j) =~= intended);
    assert(escape(text) + rest =~= rest);
}

} // verus!

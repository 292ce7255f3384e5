//! Decimal numbers read from an input: the digits by the library's parsers,
//! the value by checked arithmetic.
use crate::ascii::CharClass;
use crate::basic::{opt, Opt};
use crate::character::{class_run, digit1};
use crate::chars::{is_dec_digit_code, AsChar};
use crate::error::{ErrMode, ErrorKind, PResult, ParserError};
use crate::branch::{alt, Alt};
use crate::parser::{cut_err, rejected_at, taken, void, CutErr, Parser, Taken, Void};
use crate::token::{just, Just};
use crate::stream::{lemma_reaches_trans, reaches, Cursor, Stream};
use crate::token::{one_of, scans, ContainsToken, OneOf, TakeWhile};
use vstd::prelude::*;

verus! {

/// Whether every token is a decimal digit.
pub open spec fn all_digits<T: AsChar>(digits: Seq<T>) -> bool {
    forall|i: int| 0 <= i < digits.len() ==> is_dec_digit_code((#[trigger] digits[i]).code())
}

/// The number that a run of decimal digits stands for.
pub open spec fn decimal<T: AsChar>(digits: Seq<T>) -> nat
    decreases digits.len(),
{
    if digits.len() == 0 {
        0
    } else {
        decimal(digits.drop_last()) * 10 + (digits.last().code() - 0x30) as nat
    }
}

/// A number is no smaller than the number that its first digits stand for.
pub proof fn lemma_decimal_grows<T: AsChar>(digits: Seq<T>, k: int)
    requires
        all_digits(digits),
        0 <= k <= digits.len(),
    ensures
        decimal(digits.take(k)) <= decimal(digits),
    decreases digits.len() - k,
{
    if k == digits.len() {
        assert(digits.take(k) =~= digits);
    } else {
        lemma_decimal_grows(digits, k + 1);
        assert(digits.take(k + 1).drop_last() =~= digits.take(k));
    }
}

/// The value of the tokens that `digits` holds, if they are decimal digits,
/// one at least, and stand for no more than `limit`.
pub fn to_number<I: Stream>(digits: I, limit: u32) -> (value: Option<u32>) where I::Token: AsChar
    ensures
        value == if digits.tokens().len() > 0 && all_digits(digits.tokens()) && decimal(
            digits.tokens(),
        ) <= limit {
            Some(decimal(digits.tokens()) as u32)
        } else {
            None
        },
{
    let mut cursor = digits;
    if cursor.eof_offset() == 0 {
        return None;
    }
    let mut value: u32 = 0;
    let ghost all = digits.tokens();
    let ghost mut seen: int = 0;
    assert(all.take(0) =~= Seq::<I::Token>::empty());
    assert(all.skip(0) =~= all);
    loop
        invariant
            all == digits.tokens(),
            0 <= seen <= all.len(),
            all.len() > 0,
            cursor.tokens() == all.skip(seen),
            all_digits(all.take(seen)),
            value == decimal(all.take(seen)),
            value <= limit,
        decreases cursor.width(),
    {
        match cursor.next_token() {
            None => {
                assert(all.take(seen) =~= all);
                return Some(value);
            },
            Some(c) => {
                let code = c.as_u32();
                proof {
                    assert(c == all[seen]);
                    assert(all.skip(seen).skip(1) =~= all.skip(seen + 1));
                    assert(all.take(seen + 1).drop_last() =~= all.take(seen));
                    assert(all.take(seen + 1).last() == c);
                }
                if code < 0x30 || code > 0x39 {
                    assert(!all_digits(all));
                    return None;
                }
                let digit = code - 0x30;
                proof {
                    assert forall|i: int| 0 <= i < seen + 1 implies is_dec_digit_code(
                        (#[trigger] all.take(seen + 1)[i]).code(),
                    ) by {
                        if i < seen {
                            assert(all.take(seen)[i] == all.take(seen + 1)[i]);
                        }
                    }
                }
                if digit > limit || value > (limit - digit) / 10 {
                    proof {
                        assert(decimal(all.take(seen + 1)) > limit) by (nonlinear_arith)
                            requires
                                decimal(all.take(seen + 1)) == value * 10 + digit,
                                digit > limit || value > (limit - digit) / 10,
                                digit <= 9,
                        ;
                        if all_digits(all) {
                            lemma_decimal_grows(all, seen + 1);
                        }
                    }
                    return None;
                }
                assert(value * 10 + digit <= limit) by (nonlinear_arith)
                    requires
                        value <= (limit - digit) / 10,
                        digit <= limit,
                ;
                value = value * 10 + digit;
                proof {
                    seen = seen + 1;
                }
            },
        }
    }
}

/// The parser of one or more decimal digits.
pub open spec fn digits() -> TakeWhile<CharClass> {
    class_run(CharClass::Digit, 1)
}

/// What follows the digits `run`, read up to `after`: their value, if it is
/// at most `limit`, negated where `negative` holds; else a failure of kind
/// `ErrorKind::Digit` behind the digits.
pub open spec fn valued<I: Stream, E: ParserError<I>>(
    run: Seq<I::Token>,
    limit: u32,
    negative: bool,
    after: I,
    end: I,
    result: PResult<int, E>,
) -> bool where I::Token: AsChar {
    if decimal(run) <= limit {
        end == after && result == Ok::<int, ErrMode<E>>(
            if negative {
                -(decimal(run) as int)
            } else {
                decimal(run) as int
            },
        )
    } else {
        rejected_at(after, ErrorKind::Digit, end, result)
    }
}

/// The result as a number without a type.
pub open spec fn widened<T, E>(result: PResult<T, E>, value: spec_fn(T) -> int) -> PResult<int, E> {
    match result {
        Ok(n) => Ok(value(n)),
        Err(e) => Err(e),
    }
}

/// What [`digit_to_u32`] admits: a failure of the digits, or their value.
pub open spec fn reads_u32<I: Stream, E: ParserError<I>>(
    start: I,
    end: I,
    result: PResult<u32, E>,
) -> bool where I::Token: AsChar {
    exists|mid: I, inner: PResult<I::Slice, E>| #[trigger]
        digits().parses(start, mid, inner) && reaches(start, mid) && match inner {
            Ok(run) => valued(
                I::slice_tokens(run),
                u32::MAX,
                false,
                mid,
                end,
                widened(result, |n: u32| n as int),
            ),
            Err(e) => end == mid && result == Err::<u32, ErrMode<E>>(e),
        }
}

/// The tokens that a successful scan for digits gave are digits, and one at least.
proof fn lemma_digits_are_digits<I: Stream, E: ParserError<I>>(start: I, mid: I, run: I::Slice) where
    I::Token: AsChar,

    requires
        digits().parses(start, mid, Ok::<I::Slice, ErrMode<E>>(run)),
    ensures
        I::slice_tokens(run).len() > 0,
        all_digits(I::slice_tokens(run)),
{
    let parser = digits();
    let ok = Ok::<I::Slice, ErrMode<E>>(run);
    let k = choose|k: int| #[trigger]
        scans(parser.set, parser.go, parser.range, parser.kind, start, k, mid, ok);
    let tokens = I::slice_tokens(run);
    assert forall|i: int| 0 <= i < tokens.len() implies is_dec_digit_code(
        (#[trigger] tokens[i]).code(),
    ) by {
        assert(parser.set.decides(start.tokens()[i], true));
    }
}

/// Reads one or more decimal digits and gives their value. A failure of the
/// digits is passed on; a value that does not fit is a failure of kind
/// `ErrorKind::Digit` behind the digits.
pub fn digit_to_u32<I: Stream, E: ParserError<I>>(input: &mut I) -> (result: PResult<u32, E>) where
    I::Token: AsChar,

    ensures
        reads_u32(*old(input), *final(input), result),
        reaches(*old(input), *final(input)),
{
    let ghost start = *input;
    let inner: PResult<I::Slice, E> = digit1().parse_next(input);
    let ghost mid = *input;
    match inner {
        Ok(run) => {
            proof {
                lemma_digits_are_digits::<I, E>(start, mid, run);
            }
            match to_number(I::over(run), u32::MAX) {
                Some(n) => Ok(n),
                None => Err(ErrMode::from_error_kind(input, ErrorKind::Digit)),
            }
        },
        Err(e) => Err(e),
    }
}

/// The parser of an optional sign.
pub open spec fn sign() -> Opt<OneOf<&'static str>> {
    Opt { parser: OneOf { set: "+-", wanted: true } }
}

/// Whether the sign that was read is the minus.
pub open spec fn is_minus<T: AsChar>(mark: Option<T>) -> bool {
    mark matches Some(c) && c.code() == 0x2D
}

/// What [`digit_to_i16`] admits: a failure of the sign; behind the sign a
/// request of the digits for more input, or a failure of kind
/// `ErrorKind::Digit` at the start where there are no digits; else the value
/// with its sign.
pub open spec fn reads_i16<I: Stream, E: ParserError<I>>(
    start: I,
    end: I,
    result: PResult<i16, E>,
) -> bool where I::Token: AsChar {
    exists|signed: I, prefix: PResult<Option<I::Token>, E>| #[trigger]
        sign().parses(start, signed, prefix) && reaches(start, signed) && match prefix {
            Err(e) => end == signed && result == Err::<i16, ErrMode<E>>(e),
            Ok(mark) => exists|mid: I, inner: PResult<I::Slice, E>| #[trigger]
                digits().parses(signed, mid, inner) && reaches(signed, mid) && match inner {
                    Ok(run) => valued(
                        I::slice_tokens(run),
                        0x7fff,
                        is_minus(mark),
                        mid,
                        end,
                        widened(result, |n: i16| n as int),
                    ),
                    Err(ErrMode::Incomplete(needed)) => end == mid && result == Err::<
                        i16,
                        ErrMode<E>,
                    >(ErrMode::Incomplete(needed)),
                    Err(_) => end == mid && (result matches Err(ErrMode::Backtrack(e))
                        && E::is_from_error_kind(start, ErrorKind::Digit, e)),
                },
        }
}

/// Reads an optional sign and one or more decimal digits and gives the value.
/// Without digits the parse fails with `ErrorKind::Digit` at the start; a
/// value whose digits stand for more than 32767 is a failure of the same kind
/// behind the digits.
pub fn digit_to_i16<I: Stream, E: ParserError<I>>(input: &mut I) -> (result: PResult<i16, E>) where
    I::Token: AsChar,

    ensures
        reads_i16(*old(input), *final(input), result),
        reaches(*old(input), *final(input)),
{
    let start = *input;
    let parser = opt(one_of("+-"));
    assert(parser.parser == sign().parser);
    assert(parser == sign());
    let prefix: PResult<Option<I::Token>, E> = parser.parse_next(input);
    assert(sign().parses(start, *input, prefix));
    let ghost signed = *input;
    let mark = match prefix {
        Ok(mark) => mark,
        Err(e) => {
            return Err(e);
        },
    };
    let negative = match mark {
        Some(c) => c.as_u32() == 0x2D,
        None => false,
    };
    let inner: PResult<I::Slice, E> = digit1().parse_next(input);
    let ghost mid = *input;
    proof {
        lemma_reaches_trans(start, signed, mid);
    }
    match inner {
        Ok(run) => {
            proof {
                lemma_digits_are_digits::<I, E>(signed, mid, run);
            }
            match to_number(I::over(run), 0x7fff) {
                Some(n) => {
                    let value = n as i16;
                    if negative {
                        Ok(-value)
                    } else {
                        Ok(value)
                    }
                },
                None => Err(ErrMode::from_error_kind(input, ErrorKind::Digit)),
            }
        },
        Err(ErrMode::Incomplete(needed)) => Err(ErrMode::Incomplete(needed)),
        Err(_) => Err(ErrMode::Backtrack(E::from_error_kind(&start, ErrorKind::Digit))),
    }
}


/// An optional sign.
pub type Sign = Opt<OneOf<&'static str>>;

/// Digits with an optional fraction behind them.
pub type Whole = Void<(TakeWhile<CharClass>, Opt<(Just, Opt<TakeWhile<CharClass>>)>)>;

/// A fraction without digits before the point.
pub type Fraction = Void<(Just, TakeWhile<CharClass>)>;

/// An optional exponent.
pub type Exponent = Opt<(OneOf<&'static str>, Sign, CutErr<TakeWhile<CharClass>>)>;

/// The syntax of a decimal number with a fraction and an exponent.
pub type FloatGrammar = Taken<(Sign, Alt<(Whole, Fraction)>, Exponent)>;

/// The parser of the text of a decimal number: an optional sign; digits with
/// an optional point and optional digits behind it, or a point and digits;
/// and an optional exponent, which is `e` or `E`, an optional sign, and
/// digits. Behind the letter of the exponent the digits are owed: without them
/// the failure is unrecoverable.
pub open spec fn float_grammar() -> FloatGrammar {
    Taken {
        parser: (
            sign(),
            Alt {
                alternatives: (
                    Void {
                        parser: (
                            digits(),
                            Opt {
                                parser: (
                                    Just { token: '.' },
                                    Opt { parser: digits() },
                                ),
                            },
                        ),
                    },
                    Void { parser: (Just { token: '.' }, digits()) },
                ),
            },
            Opt {
                parser: (
                    OneOf { set: "eE", wanted: true },
                    sign(),
                    CutErr { parser: digits() },
                ),
            },
        ),
    }
}

/// Consumes the text of a decimal number, as [`float_grammar`] describes it,
/// and gives it as it stands in the input.
pub fn recognize_float<I: Stream, E: ParserError<I>>(input: &mut I) -> (result: PResult<
    I::Slice,
    E,
>) where I::Token: AsChar
    ensures
        float_grammar().parses(*old(input), *final(input), result),
        reaches(*old(input), *final(input)),
{
    let fraction_digits = opt(digit1());
    assert(fraction_digits == (Opt { parser: digits() }));
    let point_and_more = opt((just('.'), fraction_digits));
    assert(point_and_more.parser.0 == (Just { token: '.' }));
    let whole = void((digit1(), point_and_more));
    let fraction = void((just('.'), digit1()));
    assert(fraction.parser.0 == (Just { token: '.' }));
    let mantissa = alt((whole, fraction));
    let owed = cut_err(digit1());
    assert(owed == (CutErr { parser: digits() }));
    let mark = one_of("eE");
    assert(mark == (OneOf { set: "eE", wanted: true }));
    let inner_sign = opt(one_of("+-"));
    assert(inner_sign.parser == sign().parser);
    let exponent = opt((mark, inner_sign, owed));
    let outer_sign = opt(one_of("+-"));
    assert(outer_sign.parser == sign().parser);
    let parser = taken((outer_sign, mantissa, exponent));
    assert(parser == float_grammar());
    parser.parse_next(input)
}

} // verus!

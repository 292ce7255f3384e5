use parsekit::ascii::alpha1;
use parsekit::basic::{cond, empty, eof, fail, opt};
use parsekit::binary::{u16, Endianness};
use parsekit::branch::alt;
use parsekit::character::digit1;
use parsekit::error::{
    ErrMode, ErrorKind, ErrorStack, Frame, InputError, Needed, PResult, ParserError,
};
use parsekit::escape::escaped_transform;
use parsekit::multi::{fold_repeat, repeat, repeat_till, separated, Range};
use parsekit::number::{digit_to_i16, digit_to_u32, recognize_float, to_number};
use parsekit::parser::{
    backtrack_err, complete_err, cut_err, err_into, value, void, with_taken, Parser,
};
use parsekit::recipes::{
    custom_error, model_complete_take_while_m_n, test_closure_compiles_195, CustomError,
};
use parsekit::stream::{Bytes, Stream};
use parsekit::text::Text;
use parsekit::token::{
    any, literal, one_of, tag, take, take_till, take_until, take_while, Within,
};

type BytesError<'a> = InputError<Bytes<'a>>;
type BytesResult<'a, O> = Result<(Bytes<'a>, O), ErrMode<BytesError<'a>>>;
type TextResult<'a, O> = Result<(Text<'a>, O), ErrMode<InputError<Text<'a>>>>;

fn at<'a>(input: Bytes<'a>, kind: ErrorKind) -> BytesError<'a> {
    InputError::new(input, kind)
}

#[test]
fn consumed_and_remaining_make_up_the_input() {
    let input = Bytes::new(&b"abc123;rest"[..]);
    let result: BytesResult<(&[u8], &[u8])> = (alpha1(), digit1()).parse_peek(input);
    let (rest, (letters, digits)) = result.unwrap();
    assert_eq!(letters, &b"abc"[..]);
    assert_eq!(digits, &b"123"[..]);
    assert_eq!(input.offset_to(&rest), 6);
    assert_eq!(input.offset_to(&rest) + rest.eof_offset(), input.eof_offset());
    assert_eq!(rest.offset_from(&input), 6);
}

#[test]
fn consumed_bytes_of_a_text_count_whole_codepoints() {
    let input = Text::new("øn點x");
    let result: TextResult<&str> =
        take_while(Range::exactly(3), |c: char| c.is_alphabetic()).parse_peek(input);
    let (rest, run) = result.unwrap();
    assert_eq!(run, "øn點");
    assert_eq!(rest, Text::new("x"));
    assert_eq!(input.offset_to(&rest), 2 + 1 + 3);
    assert_eq!(input.offset_to(&rest) + rest.eof_offset(), input.eof_offset());
    assert_eq!(format!("{}{}", run, rest.rest()), "øn點x");
}

#[test]
fn take_resumes_after_the_bytes_it_asked_for() {
    let full = &b"abcdefgh"[..];
    let on_full: BytesResult<&[u8]> = take(5).parse_peek(Bytes::streaming(full));
    assert_eq!(on_full, Ok((Bytes::streaming(&b"fgh"[..]), &b"abcde"[..])));
    for have in 0..5usize {
        let short: BytesResult<&[u8]> = take(5).parse_peek(Bytes::streaming(&full[..have]));
        assert_eq!(short, Err(ErrMode::Incomplete(Needed::Size(5 - have))));
        let resumed: BytesResult<&[u8]> =
            take(5).parse_peek(Bytes::streaming(&full[..have + (5 - have)]));
        assert_eq!(resumed.unwrap().1, on_full.clone().unwrap().1);
    }
}

#[test]
fn literal_resumes_after_the_bytes_it_asked_for() {
    let full = &b"hello, world"[..];
    let parser = literal::<u8, _>("hello");
    let on_full: BytesResult<&[u8]> = parser.parse_peek(Bytes::new(full));
    assert_eq!(on_full, Ok((Bytes::new(&b", world"[..]), &b"hello"[..])));
    for have in 0..5usize {
        let short: BytesResult<&[u8]> = parser.parse_peek(Bytes::streaming(&full[..have]));
        assert_eq!(short, Err(ErrMode::Incomplete(Needed::Size(5 - have))));
        let resumed: BytesResult<&[u8]> = parser.parse_peek(Bytes::streaming(&full[..5]));
        assert_eq!(resumed, Ok((Bytes::streaming(&b""[..]), &b"hello"[..])));
    }
}

#[test]
fn a_streaming_scan_gives_on_the_input_what_it_gave_on_a_prefix() {
    let full = &b"abc123def"[..];
    let on_prefix: BytesResult<&[u8]> = alpha1().parse_peek(Bytes::streaming(&full[..5]));
    let on_full: BytesResult<&[u8]> = alpha1().parse_peek(Bytes::streaming(full));
    assert_eq!(on_prefix.unwrap().1, &b"abc"[..]);
    assert_eq!(on_full.unwrap().1, &b"abc"[..]);
    let undecided: BytesResult<&[u8]> = alpha1().parse_peek(Bytes::streaming(&full[..3]));
    assert_eq!(undecided, Err(ErrMode::Incomplete(Needed::Size(1))));
}

#[test]
fn repetition_of_an_empty_match_fails_at_once() {
    let input = Bytes::new(&b"abc"[..]);
    let unbounded: BytesResult<Vec<()>> = repeat(Range::at_least(0), empty()).parse_peek(input);
    assert_eq!(unbounded, Err(ErrMode::Cut(at(input, ErrorKind::Assert))));
    let counted: BytesResult<usize> = repeat(Range::exactly(3), empty()).parse_peek(input);
    assert_eq!(counted, Err(ErrMode::Cut(at(input, ErrorKind::Assert))));
    let folded: BytesResult<usize> =
        fold_repeat(Range::at_least(1), empty(), 0usize, |n: usize, _: ()| n + 1)
            .parse_peek(input);
    assert_eq!(folded, Err(ErrMode::Cut(at(input, ErrorKind::Assert))));
    let listed: BytesResult<Vec<u8>> =
        separated(Range::at_least(0), any(), empty()).parse_peek(input);
    assert_eq!(
        listed,
        Err(ErrMode::Cut(at(Bytes::new(&b"bc"[..]), ErrorKind::Assert)))
    );
    let till: BytesResult<(Vec<()>, &[u8])> =
        repeat_till(Range::at_least(0), empty(), literal::<u8, _>("x")).parse_peek(input);
    assert_eq!(till, Err(ErrMode::Cut(at(input, ErrorKind::Assert))));
}

#[test]
fn bounds_out_of_order_are_a_usage_error() {
    let input = Bytes::new(&b"aaa"[..]);
    let scan: BytesResult<&[u8]> = take_while(Range::between(3, 2), b'a').parse_peek(input);
    assert_eq!(scan, Err(ErrMode::Cut(at(input, ErrorKind::Assert))));
    let many: BytesResult<Vec<u8>> = repeat(Range::between(3, 2), any()).parse_peek(input);
    assert_eq!(many, Err(ErrMode::Cut(at(input, ErrorKind::Assert))));
    let until: BytesResult<&[u8]> =
        take_until::<u8, _>(Range::between(3, 2), "a").parse_peek(input);
    assert_eq!(until, Err(ErrMode::Cut(at(input, ErrorKind::Assert))));
    let empty_list: BytesResult<&[u8]> = alt(Vec::<parsekit::token::Take>::new()).parse_peek(input);
    assert_eq!(empty_list, Err(ErrMode::Cut(at(input, ErrorKind::Assert))));
}

#[test]
fn escaped_transform_decodes_the_example() {
    fn decode(i: &str) -> TextResult<'_, String> {
        escaped_transform(
            take_till(Range::at_least(1), ['\\', ';']),
            '\\',
            alt((
                value(tag::<char, _>("\\"), "\\"),
                value(tag::<char, _>("\""), "\""),
                value(tag::<char, _>("n"), "\n"),
            )),
        )
        .parse_peek(Text::new(i))
    }
    assert_eq!(decode("ab\\\"cd;"), Ok((Text::new(";"), String::from("ab\"cd"))));
    assert_eq!(
        decode("a\\nb\\\\c;x"),
        Ok((Text::new(";x"), String::from("a\nb\\c")))
    );
    assert_eq!(
        decode("ab\\q;"),
        Err(ErrMode::Cut(InputError::new(Text::new("q;"), ErrorKind::Tag)))
    );
}

#[test]
fn a_cut_ends_an_alternation_and_can_be_caught() {
    let input = Bytes::new(&b"ax"[..]);
    let committed = alt((
        (literal::<u8, _>("a"), cut_err(literal::<u8, _>("b"))),
        (literal::<u8, _>("a"), literal::<u8, _>("x")),
    ));
    let result: BytesResult<(&[u8], &[u8])> = committed.parse_peek(input);
    assert_eq!(
        result,
        Err(ErrMode::Cut(at(Bytes::new(&b"x"[..]), ErrorKind::Literal)))
    );
    let caught = alt((
        backtrack_err((literal::<u8, _>("a"), cut_err(literal::<u8, _>("b")))),
        (literal::<u8, _>("a"), literal::<u8, _>("x")),
    ));
    let result: BytesResult<(&[u8], &[u8])> = caught.parse_peek(input);
    assert_eq!(result, Ok((Bytes::new(&b""[..]), (&b"a"[..], &b"x"[..]))));
}

#[test]
fn modes_and_payloads() {
    assert_eq!(Needed::new(0), Needed::Unknown);
    assert_eq!(Needed::new(7), Needed::Size(7));
    assert!(Needed::new(7).is_known());
    assert!(!Needed::Unknown.is_known());
    let soft: ErrMode<u8> = ErrMode::Backtrack(1);
    assert_eq!(soft.clone().cut(), ErrMode::Cut(1));
    assert_eq!(soft.clone().cut().backtrack(), ErrMode::Backtrack(1));
    assert!(soft.is_backtrack());
    assert_eq!(soft.into_inner(), Some(1));
    let more: ErrMode<u8> = ErrMode::Incomplete(Needed::Unknown);
    assert!(more.is_incomplete());
    assert_eq!(more.clone().cut(), ErrMode::Incomplete(Needed::Unknown));
    assert_eq!(more.into_inner(), None);
}

#[test]
fn the_stacking_payload_keeps_every_context() {
    let input = Bytes::new(&b"xyz"[..]);
    let result: Result<(Bytes, &[u8]), ErrMode<ErrorStack<Bytes>>> =
        alt((literal::<u8, _>("a"), literal::<u8, _>("b"))).parse_peek(input);
    assert_eq!(
        result,
        Err(ErrMode::Backtrack(ErrorStack {
            frames: vec![
                Frame { input, kind: ErrorKind::Literal },
                Frame { input, kind: ErrorKind::Alt },
            ]
        }))
    );
    let unit: Result<(Bytes, &[u8]), ErrMode<()>> = literal::<u8, _>("a").parse_peek(input);
    assert_eq!(unit, Err(ErrMode::Backtrack(())));
}

#[test]
fn checkpoints_rewind() {
    let mut cursor = Bytes::streaming(&b"abcd"[..]);
    assert!(cursor.is_partial());
    let saved = cursor.checkpoint();
    assert_eq!(cursor.peek_token(), Some(b'a'));
    assert_eq!(cursor.next_token(), Some(b'a'));
    assert_eq!(cursor.next_slice(2), Ok(&b"bc"[..]));
    assert_eq!(cursor.next_slice(2), Err(Needed::Size(1)));
    assert_eq!(cursor.eof_offset(), 1);
    cursor.reset(&saved);
    assert_eq!(cursor.finish(), &b"abcd"[..]);
    assert_eq!(cursor.next_token(), None);

    let mut text = Text::new("é點z");
    assert_eq!(text.eof_offset(), 6);
    assert_eq!(text.peek_token(), Some('é'));
    assert_eq!(text.next_slice(2), Ok("é點"));
    assert_eq!(text.next_slice(2), Err(Needed::Unknown));
    assert_eq!(text.next_token(), Some('z'));
    assert_eq!(text.next_token(), None);
}

#[test]
fn small_adapters() {
    let input = Bytes::new(&b"ab"[..]);
    let nothing: BytesResult<()> = void(any()).parse_peek(input);
    assert_eq!(nothing, Ok((Bytes::new(&b"b"[..]), ())));
    let both: BytesResult<((u8, u8), &[u8])> = with_taken((any(), any())).parse_peek(input);
    assert_eq!(both, Ok((Bytes::new(&b""[..]), ((b'a', b'b'), &b"ab"[..]))));
    let skipped: BytesResult<Option<u8>> = cond(false, any()).parse_peek(input);
    assert_eq!(skipped, Ok((input, None)));
    let taken_up: BytesResult<Option<u8>> = cond(true, any()).parse_peek(input);
    assert_eq!(taken_up, Ok((Bytes::new(&b"b"[..]), Some(b'a'))));
    let failed: BytesResult<u8> = fail().parse_peek(input);
    assert_eq!(failed, Err(ErrMode::Backtrack(at(input, ErrorKind::Fail))));
    let whole: BytesResult<&[u8]> =
        complete_err(literal::<u8, _>("abc")).parse_peek(Bytes::streaming(&b"ab"[..]));
    assert_eq!(
        whole,
        Err(ErrMode::Backtrack(at(Bytes::streaming(&b"ab"[..]), ErrorKind::Complete)))
    );
    let at_end: BytesResult<&[u8]> = eof().parse_peek(Bytes::streaming(&b""[..]));
    assert_eq!(at_end, Ok((Bytes::streaming(&b""[..]), &b""[..])));
    let converted: Result<(Bytes, u8), ErrMode<Option<()>>> =
        err_into::<_, ()>(one_of(b'z')).parse_peek(input);
    assert_eq!(converted, Err(ErrMode::Backtrack(Some(()))));
    let ranged: BytesResult<&[u8]> =
        take_while(Range::at_least(1), (Within { low: b'a', high: b'c' }, b'z'))
            .parse_peek(Bytes::new(&b"abzcd"[..]));
    assert_eq!(ranged, Ok((Bytes::new(&b"d"[..]), &b"abzc"[..])));
    let empty_complete: BytesResult<u8> = any().parse_peek(Bytes::new(&b""[..]));
    assert_eq!(
        empty_complete,
        Err(ErrMode::Backtrack(at(Bytes::new(&b""[..]), ErrorKind::Token)))
    );
    let optional: BytesResult<Option<u8>> = opt(one_of(b'z')).parse_peek(input);
    assert_eq!(optional, Ok((input, None)));
}

#[test]
fn numbers_of_two_bytes() {
    let input = Bytes::new(&[0x12, 0x34, 0x56][..]);
    let big: BytesResult<u16> = u16(Endianness::Big).parse_peek(input);
    assert_eq!(big, Ok((Bytes::new(&[0x56][..]), 0x1234)));
    let little: BytesResult<u16> = u16(Endianness::Little).parse_peek(input);
    assert_eq!(little, Ok((Bytes::new(&[0x56][..]), 0x3412)));
    let short: BytesResult<u16> = u16(Endianness::Big).parse_peek(Bytes::streaming(&[1][..]));
    assert_eq!(short, Err(ErrMode::Incomplete(Needed::Size(1))));
    let short: BytesResult<u16> = u16(Endianness::Big).parse_peek(Bytes::new(&[1][..]));
    assert_eq!(
        short,
        Err(ErrMode::Backtrack(at(Bytes::new(&[1][..]), ErrorKind::Slice)))
    );
}

#[test]
fn counted_numbers_of_two_bytes() {
    let mut input = Bytes::new(&[2, 0, 1, 0, 2, 9][..]);
    assert_eq!(test_closure_compiles_195(&mut input), Ok(()));
    assert_eq!(input, Bytes::new(&[9][..]));

    let mut input = Bytes::new(&[0, 7][..]);
    assert_eq!(test_closure_compiles_195(&mut input), Ok(()));
    assert_eq!(input, Bytes::new(&[7][..]));

    let mut input = Bytes::new(&[2, 0, 1, 0][..]);
    assert_eq!(
        test_closure_compiles_195(&mut input),
        Err(ErrMode::Backtrack(CustomError))
    );
    assert_eq!(input, Bytes::new(&[0][..]));

    let mut input = Bytes::streaming(&[2, 0, 1, 0][..]);
    assert_eq!(
        test_closure_compiles_195(&mut input),
        Err(ErrMode::Incomplete(Needed::Size(1)))
    );

    let mut input = Bytes::streaming(&[][..]);
    assert_eq!(
        test_closure_compiles_195(&mut input),
        Err(ErrMode::Incomplete(Needed::Size(1)))
    );
}

#[test]
fn letters_and_digits_with_a_payload_of_their_own() {
    let mut input = Bytes::new(&b"ab12;"[..]);
    assert_eq!(custom_error(&mut input), Ok(&b"ab12"[..]));
    assert_eq!(input, Bytes::new(&b";"[..]));
    let mut input = Bytes::new(&b";"[..]);
    assert_eq!(custom_error(&mut input), Err(ErrMode::Backtrack(CustomError)));
}

#[test]
fn decimal_numbers() {
    fn unsigned(i: &str) -> PResult<u32, InputError<Text<'_>>> {
        let mut input = Text::new(i);
        digit_to_u32(&mut input)
    }
    assert_eq!(unsigned("0"), Ok(0));
    assert_eq!(unsigned("123abc"), Ok(123));
    assert_eq!(unsigned("4294967295"), Ok(4294967295));
    assert_eq!(
        unsigned("4294967296"),
        Err(ErrMode::Backtrack(InputError::new(Text::new(""), ErrorKind::Digit)))
    );
    assert_eq!(
        unsigned("x"),
        Err(ErrMode::Backtrack(InputError::new(Text::new("x"), ErrorKind::Digit)))
    );

    fn signed(i: &str) -> PResult<i16, InputError<Text<'_>>> {
        let mut input = Text::new(i);
        digit_to_i16(&mut input)
    }
    assert_eq!(signed("123"), Ok(123));
    assert_eq!(signed("+5;"), Ok(5));
    assert_eq!(signed("-123"), Ok(-123));
    assert_eq!(signed("32767"), Ok(32767));
    assert_eq!(signed("-32767"), Ok(-32767));
    assert_eq!(
        signed("32768"),
        Err(ErrMode::Backtrack(InputError::new(Text::new(""), ErrorKind::Digit)))
    );
    assert_eq!(
        signed("-32768x"),
        Err(ErrMode::Backtrack(InputError::new(Text::new("x"), ErrorKind::Digit)))
    );
    assert_eq!(
        signed("-x"),
        Err(ErrMode::Backtrack(InputError::new(Text::new("-x"), ErrorKind::Digit)))
    );
    let mut streaming = Text::streaming("-12");
    let more: PResult<i16, InputError<Text<'_>>> = digit_to_i16(&mut streaming);
    assert_eq!(more, Err(ErrMode::Incomplete(Needed::Size(1))));
    let mut bytes = Bytes::new(&b"-42 "[..]);
    let from_bytes: PResult<i16, InputError<Bytes<'_>>> = digit_to_i16(&mut bytes);
    assert_eq!(from_bytes, Ok(-42));

    assert_eq!(to_number(Text::new("0042"), 100), Some(42));
    assert_eq!(to_number(Text::new("101"), 100), None);
    assert_eq!(to_number(Text::new(""), 100), None);
    assert_eq!(to_number(Text::new("4a"), 100), None);
    assert_eq!(to_number(Text::new("99999999999999999999"), u32::MAX), None);
}

#[test]
fn a_bounded_scan_follows_its_model() {
    for m in 0..6usize {
        for n in 0..6usize {
            for valid in 0..6usize {
                for invalid in 0..3usize {
                    let text = format!("{}{}", "a".repeat(valid), "b".repeat(invalid));
                    let mut model_input = Text::new(text.as_str());
                    let expected: PResult<&str, InputError<Text<'_>>> =
                        model_complete_take_while_m_n(m, n, valid, &mut model_input);
                    if m <= n {
                        let actual: TextResult<&str> =
                            take_while(Range::between(m, n), |c: char| c == 'a')
                                .parse_peek(Text::new(text.as_str()));
                        assert_eq!(expected.map(|o| (model_input, o)), actual);
                    } else {
                        assert_eq!(
                            expected,
                            Err(ErrMode::Backtrack(InputError::new(
                                Text::new(text.as_str()),
                                ErrorKind::Slice
                            )))
                        );
                    }
                }
            }
        }
    }
}

#[test]
fn a_payload_can_take_context() {
    let input = Bytes::new(&b"q"[..]);
    let inner = at(input, ErrorKind::Verify);
    assert_eq!(inner.append(&input, &input, ErrorKind::Alt), inner);
    assert_eq!(inner.or(at(input, ErrorKind::Tag)), at(input, ErrorKind::Tag));
    let soft: ErrMode<BytesError> = ErrMode::from_error_kind(&input, ErrorKind::Eof);
    assert_eq!(soft, ErrMode::Backtrack(at(input, ErrorKind::Eof)));
    let hard: ErrMode<BytesError> = ErrMode::assertion(&input);
    assert_eq!(hard, ErrMode::Cut(at(input, ErrorKind::Assert)));
    assert_eq!(
        hard.append(&input, &input, ErrorKind::Repeat),
        ErrMode::Cut(at(input, ErrorKind::Assert))
    );
}

#[test]
fn the_text_of_a_decimal_number() {
    let test_cases = vec![
        "+3.14",
        "3.14",
        "-3.14",
        "0",
        "0.0",
        "1.",
        ".789",
        "-.5",
        "1e7",
        "-1E-7",
        ".3e-2",
        "1.e4",
        "1.2e4",
        "12.34",
        "-1.234E-12",
        "-1.234e-12",
        "0.00000000000000000087",
    ];
    for test in test_cases {
        let mut input = Text::new(test);
        let text: PResult<&str, InputError<Text<'_>>> = recognize_float(&mut input);
        assert_eq!(text, Ok(test));
        assert_eq!(input, Text::new(""));
        let mut bytes = Bytes::new(test.as_bytes());
        let text: PResult<&[u8], InputError<Bytes<'_>>> = recognize_float(&mut bytes);
        assert_eq!(text, Ok(test.as_bytes()));
    }

    let mut input = Text::new("12.5kg");
    let text: PResult<&str, InputError<Text<'_>>> = recognize_float(&mut input);
    assert_eq!(text, Ok("12.5"));
    assert_eq!(input, Text::new("kg"));

    let mut remaining_exponent = Text::new("-1.234E-");
    let text: PResult<&str, InputError<Text<'_>>> = recognize_float(&mut remaining_exponent);
    assert_eq!(
        text,
        Err(ErrMode::Cut(InputError {
            input: Text::new(""),
            kind: ErrorKind::Digit
        }))
    );

    let mut no_number = Text::new("x1");
    let text: PResult<&str, InputError<Text<'_>>> = recognize_float(&mut no_number);
    assert!(matches!(text, Err(ErrMode::Backtrack(_))));
}

#[test]
fn decoding_gives_back_what_was_written() {
    fn write(text: &str) -> String {
        let mut written = String::new();
        for c in text.chars() {
            match c {
                '\\' => written.push_str("\\\\"),
                '"' => written.push_str("\\\""),
                '\n' => written.push_str("\\n"),
                other => written.push(other),
            }
        }
        written
    }
    let texts = vec!["ab\"cd", "a", "\\", "\"\"", "x\ny\\z", "\n\n", "say\"hi\"\n"];
    for text in texts {
        for rest in vec![";", "", " more", "1", "\""] {
            let input = format!("{}{}", write(text), rest);
            let result: TextResult<String> =
                parsekit::unescape::unescaper().parse_peek(Text::new(input.as_str()));
            assert_eq!(result, Ok((Text::new(rest), String::from(text))));
        }
    }
    let example: TextResult<String> =
        parsekit::unescape::unescaper().parse_peek(Text::new("ab\\\"cd;"));
    assert_eq!(example, Ok((Text::new(";"), String::from("ab\"cd"))));
}

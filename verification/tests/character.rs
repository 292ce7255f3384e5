use parsekit::basic::opt;
use parsekit::branch::alt;
use parsekit::character::{
    alpha0, alpha1, alphanumeric1, crlf, digit1, hex_digit1, line_ending, multispace1,
    oct_digit1, space1, not_line_ending,
};
use parsekit::chars::AsChar;
use parsekit::error::{ErrMode, ErrorKind, InputError, Needed, PResult, ParserError};
use parsekit::escape::{escaped, escaped_transform};
use parsekit::number::recognize_float;
use parsekit::parser::{value, Parser};
use parsekit::sequence::delimited;
use parsekit::stream::{Bytes, Stream};
use parsekit::text::Text;
use parsekit::token::{just, literal, none_of, one_of, tag, Caseless};

type BytesResult<'a, O> = Result<(Bytes<'a>, O), ErrMode<InputError<Bytes<'a>>>>;
type TextResult<'a, O> = Result<(Text<'a>, O), ErrMode<InputError<Text<'a>>>>;

fn whole(input: &[u8]) -> Bytes<'_> {
    Bytes::new(input)
}

fn streaming(input: &[u8]) -> Bytes<'_> {
    Bytes::streaming(input)
}

fn bytes_error<'a>(input: Bytes<'a>, kind: ErrorKind) -> ErrMode<InputError<Bytes<'a>>> {
    ErrMode::Backtrack(InputError::new(input, kind))
}

fn text_error<'a>(input: Text<'a>, kind: ErrorKind) -> ErrMode<InputError<Text<'a>>> {
    ErrMode::Backtrack(InputError::new(input, kind))
}

fn run_bytes<'a, P: Parser<Bytes<'a>, InputError<Bytes<'a>>>>(
    parser: P,
    input: Bytes<'a>,
) -> BytesResult<'a, P::Output> {
    parser.parse_peek(input)
}

fn run_text<'a, P: Parser<Text<'a>, InputError<Text<'a>>>>(
    parser: P,
    input: Text<'a>,
) -> TextResult<'a, P::Output> {
    parser.parse_peek(input)
}

#[test]
fn character() {
    let empty: &[u8] = b"";
    let a: &[u8] = b"abcd";
    let b: &[u8] = b"1234";
    let c: &[u8] = b"a123";
    let d: &[u8] = "azé12".as_bytes();
    let e: &[u8] = b" ";
    let f: &[u8] = b" ;";
    assert_eq!(run_bytes(alpha1(), whole(a)), Ok((whole(empty), a)));
    assert_eq!(run_bytes(alpha1(), whole(b)), Err(bytes_error(whole(b), ErrorKind::Alpha)));
    assert_eq!(run_bytes(alpha1(), whole(c)), Ok((whole(&c[1..]), &b"a"[..])));
    assert_eq!(
        run_bytes(alpha1(), whole(d)),
        Ok((whole("é12".as_bytes()), &b"az"[..]))
    );
    assert_eq!(run_bytes(digit1(), whole(a)), Err(bytes_error(whole(a), ErrorKind::Digit)));
    assert_eq!(run_bytes(digit1(), whole(b)), Ok((whole(empty), b)));
    assert_eq!(run_bytes(digit1(), whole(c)), Err(bytes_error(whole(c), ErrorKind::Digit)));
    assert_eq!(run_bytes(digit1(), whole(d)), Err(bytes_error(whole(d), ErrorKind::Digit)));
    assert_eq!(run_bytes(hex_digit1(), whole(a)), Ok((whole(empty), a)));
    assert_eq!(run_bytes(hex_digit1(), whole(b)), Ok((whole(empty), b)));
    assert_eq!(run_bytes(hex_digit1(), whole(c)), Ok((whole(empty), c)));
    assert_eq!(
        run_bytes(hex_digit1(), whole(d)),
        Ok((whole("zé12".as_bytes()), &b"a"[..]))
    );
    assert_eq!(
        run_bytes(hex_digit1(), whole(e)),
        Err(bytes_error(whole(e), ErrorKind::HexDigit))
    );
    assert_eq!(
        run_bytes(oct_digit1(), whole(a)),
        Err(bytes_error(whole(a), ErrorKind::OctDigit))
    );
    assert_eq!(run_bytes(oct_digit1(), whole(b)), Ok((whole(empty), b)));
    assert_eq!(
        run_bytes(oct_digit1(), whole(c)),
        Err(bytes_error(whole(c), ErrorKind::OctDigit))
    );
    assert_eq!(
        run_bytes(oct_digit1(), whole(d)),
        Err(bytes_error(whole(d), ErrorKind::OctDigit))
    );
    assert_eq!(run_bytes(alphanumeric1(), whole(a)), Ok((whole(empty), a)));
    assert_eq!(run_bytes(alphanumeric1(), whole(c)), Ok((whole(empty), c)));
    assert_eq!(
        run_bytes(alphanumeric1(), whole(d)),
        Ok((whole("é12".as_bytes()), &b"az"[..]))
    );
    assert_eq!(run_bytes(space1(), whole(e)), Ok((whole(empty), e)));
    assert_eq!(run_bytes(space1(), whole(f)), Ok((whole(&b";"[..]), &b" "[..])));
}

#[test]
fn character_s() {
    let empty = "";
    let a = "abcd";
    let b = "1234";
    let c = "a123";
    let d = "azé12";
    let e = " ";
    let at = Text::new;
    assert_eq!(run_text(alpha1(), at(a)), Ok((at(empty), a)));
    assert_eq!(run_text(alpha1(), at(b)), Err(text_error(at(b), ErrorKind::Alpha)));
    assert_eq!(run_text(alpha1(), at(c)), Ok((at(&c[1..]), "a")));
    assert_eq!(run_text(alpha1(), at(d)), Ok((at("é12"), "az")));
    assert_eq!(run_text(digit1(), at(a)), Err(text_error(at(a), ErrorKind::Digit)));
    assert_eq!(run_text(digit1(), at(b)), Ok((at(empty), b)));
    assert_eq!(run_text(digit1(), at(c)), Err(text_error(at(c), ErrorKind::Digit)));
    assert_eq!(run_text(digit1(), at(d)), Err(text_error(at(d), ErrorKind::Digit)));
    assert_eq!(run_text(hex_digit1(), at(a)), Ok((at(empty), a)));
    assert_eq!(run_text(hex_digit1(), at(b)), Ok((at(empty), b)));
    assert_eq!(run_text(hex_digit1(), at(c)), Ok((at(empty), c)));
    assert_eq!(run_text(hex_digit1(), at(d)), Ok((at("zé12"), "a")));
    assert_eq!(
        run_text(hex_digit1(), at(e)),
        Err(text_error(at(e), ErrorKind::HexDigit))
    );
    assert_eq!(
        run_text(oct_digit1(), at(a)),
        Err(text_error(at(a), ErrorKind::OctDigit))
    );
    assert_eq!(run_text(oct_digit1(), at(b)), Ok((at(empty), b)));
    assert_eq!(
        run_text(oct_digit1(), at(c)),
        Err(text_error(at(c), ErrorKind::OctDigit))
    );
    assert_eq!(
        run_text(oct_digit1(), at(d)),
        Err(text_error(at(d), ErrorKind::OctDigit))
    );
    assert_eq!(run_text(alphanumeric1(), at(a)), Ok((at(empty), a)));
    assert_eq!(run_text(alphanumeric1(), at(c)), Ok((at(empty), c)));
    assert_eq!(run_text(alphanumeric1(), at(d)), Ok((at("é12"), "az")));
    assert_eq!(run_text(space1(), at(e)), Ok((at(empty), e)));
}

fn check_offset<'a, P: Parser<Bytes<'a>, InputError<Bytes<'a>>>>(
    parser: P,
    input: Bytes<'a>,
    message: &str,
) {
    match parser.parse_peek(input) {
        Ok((rest, _)) => {
            assert_eq!(input.offset_to(&rest) + rest.eof_offset(), input.eof_offset());
            assert_eq!(rest.offset_from(&input) + rest.rest().len(), input.rest().len());
        }
        _ => panic!("{}", message),
    }
}

#[test]
fn offset() {
    let a = &b"abcd;"[..];
    let b = &b"1234;"[..];
    let c = &b"a123;"[..];
    let d = &b" \t;"[..];
    let e = &b" \t\r\n;"[..];
    let f = &b"123abcDEF;"[..];

    check_offset(alpha1(), whole(a), "wrong return type in offset test for alpha");
    check_offset(digit1(), whole(b), "wrong return type in offset test for digit");
    check_offset(
        alphanumeric1(),
        whole(c),
        "wrong return type in offset test for alphanumeric",
    );
    check_offset(space1(), whole(d), "wrong return type in offset test for space");
    check_offset(
        multispace1(),
        whole(e),
        "wrong return type in offset test for multispace",
    );
    check_offset(hex_digit1(), whole(f), "wrong return type in offset test for hex_digit");
    check_offset(oct_digit1(), whole(f), "wrong return type in offset test for oct_digit");
}

#[test]
fn is_not_line_ending_bytes() {
    let a: &[u8] = b"ab12cd\nefgh";
    assert_eq!(
        run_bytes(not_line_ending(), whole(a)),
        Ok((whole(&b"\nefgh"[..]), &b"ab12cd"[..]))
    );

    let b: &[u8] = b"ab12cd\nefgh\nijkl";
    assert_eq!(
        run_bytes(not_line_ending(), whole(b)),
        Ok((whole(&b"\nefgh\nijkl"[..]), &b"ab12cd"[..]))
    );

    let c: &[u8] = b"ab12cd\r\nefgh\nijkl";
    assert_eq!(
        run_bytes(not_line_ending(), whole(c)),
        Ok((whole(&b"\r\nefgh\nijkl"[..]), &b"ab12cd"[..]))
    );

    let d: &[u8] = b"ab12cd";
    assert_eq!(run_bytes(not_line_ending(), whole(d)), Ok((whole(&[][..]), d)));
}

#[test]
fn is_not_line_ending_str() {
    let f = "βèƒôřè\rÂßÇáƒƭèř";
    assert_eq!(
        run_text(not_line_ending(), Text::new(f)),
        Err(text_error(Text::new(f), ErrorKind::Tag))
    );

    let g2: &str = "ab12cd";
    assert_eq!(run_text(not_line_ending(), Text::new(g2)), Ok((Text::new(""), g2)));
}

#[test]
fn hex_digit_test() {
    let i = &b"0123456789abcdefABCDEF;"[..];
    assert_eq!(
        run_bytes(hex_digit1(), whole(i)),
        Ok((whole(&b";"[..]), &i[..i.len() - 1]))
    );

    let i = &b"g"[..];
    assert_eq!(
        run_bytes(hex_digit1(), whole(i)),
        Err(bytes_error(whole(i), ErrorKind::HexDigit))
    );

    let i = &b"G"[..];
    assert_eq!(
        run_bytes(hex_digit1(), whole(i)),
        Err(bytes_error(whole(i), ErrorKind::HexDigit))
    );

    assert!(AsChar::is_hex_digit(b'0'));
    assert!(AsChar::is_hex_digit(b'9'));
    assert!(AsChar::is_hex_digit(b'a'));
    assert!(AsChar::is_hex_digit(b'f'));
    assert!(AsChar::is_hex_digit(b'A'));
    assert!(AsChar::is_hex_digit(b'F'));
    assert!(!AsChar::is_hex_digit(b'g'));
    assert!(!AsChar::is_hex_digit(b'G'));
    assert!(!AsChar::is_hex_digit(b'/'));
    assert!(!AsChar::is_hex_digit(b':'));
    assert!(!AsChar::is_hex_digit(b'@'));
    assert!(!AsChar::is_hex_digit(b'\x60'));
}

#[test]
fn oct_digit_test() {
    let i = &b"01234567;"[..];
    assert_eq!(
        run_bytes(oct_digit1(), whole(i)),
        Ok((whole(&b";"[..]), &i[..i.len() - 1]))
    );

    let i = &b"8"[..];
    assert_eq!(
        run_bytes(oct_digit1(), whole(i)),
        Err(bytes_error(whole(i), ErrorKind::OctDigit))
    );

    assert!(AsChar::is_oct_digit(b'0'));
    assert!(AsChar::is_oct_digit(b'7'));
    assert!(!AsChar::is_oct_digit(b'8'));
    assert!(!AsChar::is_oct_digit(b'9'));
    assert!(!AsChar::is_oct_digit(b'a'));
    assert!(!AsChar::is_oct_digit(b'A'));
    assert!(!AsChar::is_oct_digit(b'/'));
    assert!(!AsChar::is_oct_digit(b':'));
    assert!(!AsChar::is_oct_digit(b'@'));
    assert!(!AsChar::is_oct_digit(b'\x60'));
}

#[test]
fn full_line_windows() {
    fn take_full_line(i: Bytes<'_>) -> BytesResult<'_, (&[u8], &[u8])> {
        (not_line_ending(), line_ending()).parse_peek(i)
    }
    let input = b"abc\r\n";
    let output = take_full_line(whole(input));
    assert_eq!(output, Ok((whole(&b""[..]), (&b"abc"[..], &b"\r\n"[..]))));
}

#[test]
fn full_line_unix() {
    fn take_full_line(i: Bytes<'_>) -> BytesResult<'_, (&[u8], &[u8])> {
        (not_line_ending(), line_ending()).parse_peek(i)
    }
    let input = b"abc\n";
    let output = take_full_line(whole(input));
    assert_eq!(output, Ok((whole(&b""[..]), (&b"abc"[..], &b"\n"[..]))));
}

#[test]
fn check_windows_lineending() {
    let input = b"\r\n";
    let output = run_bytes(line_ending(), whole(&input[..]));
    assert_eq!(output, Ok((whole(&b""[..]), &b"\r\n"[..])));
}

#[test]
fn check_unix_lineending() {
    let input = b"\n";
    let output = run_bytes(line_ending(), whole(&input[..]));
    assert_eq!(output, Ok((whole(&b""[..]), &b"\n"[..])));
}

#[test]
fn cr_lf() {
    assert_eq!(
        run_bytes(crlf(), whole(&b"\r\na"[..])),
        Ok((whole(&b"a"[..]), &b"\r\n"[..]))
    );
    assert_eq!(
        run_bytes(crlf(), whole(&b"\r"[..])),
        Err(bytes_error(whole(&b"\r"[..]), ErrorKind::CrLf))
    );
    assert_eq!(
        run_bytes(crlf(), whole(&b"\ra"[..])),
        Err(bytes_error(whole(&b"\ra"[..]), ErrorKind::CrLf))
    );

    assert_eq!(run_text(crlf(), Text::new("\r\na")), Ok((Text::new("a"), "\r\n")));
    assert_eq!(
        run_text(crlf(), Text::new("\r")),
        Err(text_error(Text::new("\r"), ErrorKind::CrLf))
    );
    assert_eq!(
        run_text(crlf(), Text::new("\ra")),
        Err(text_error(Text::new("\ra"), ErrorKind::CrLf))
    );
}

#[test]
fn end_of_line() {
    assert_eq!(
        run_bytes(line_ending(), whole(&b"\na"[..])),
        Ok((whole(&b"a"[..]), &b"\n"[..]))
    );
    assert_eq!(
        run_bytes(line_ending(), whole(&b"\r\na"[..])),
        Ok((whole(&b"a"[..]), &b"\r\n"[..]))
    );
    assert_eq!(
        run_bytes(line_ending(), whole(&b"\r"[..])),
        Err(bytes_error(whole(&b"\r"[..]), ErrorKind::CrLf))
    );
    assert_eq!(
        run_bytes(line_ending(), whole(&b"\ra"[..])),
        Err(bytes_error(whole(&b"\ra"[..]), ErrorKind::CrLf))
    );

    assert_eq!(run_text(line_ending(), Text::new("\na")), Ok((Text::new("a"), "\n")));
    assert_eq!(
        run_text(line_ending(), Text::new("\r\na")),
        Ok((Text::new("a"), "\r\n"))
    );
    assert_eq!(
        run_text(line_ending(), Text::new("\r")),
        Err(text_error(Text::new("\r"), ErrorKind::CrLf))
    );
    assert_eq!(
        run_text(line_ending(), Text::new("\ra")),
        Err(text_error(Text::new("\ra"), ErrorKind::CrLf))
    );
}

fn float_text<'i>(input: &mut Bytes<'i>) -> PResult<&'i [u8], InputError<Bytes<'i>>> {
    let start = *input;
    match recognize_float(input) {
        Err(ErrMode::Backtrack(_)) => {
            *input = start;
            alt((
                literal(Caseless(NAN)),
                literal(Caseless(INFINITY)),
                literal(Caseless(INF)),
            ))
            .parse_next(input)
        }
        other => other,
    }
}

const NAN: &[u8] = b"nan";
const INFINITY: &[u8] = b"infinity";
const INF: &[u8] = b"inf";

fn text_of(slice: &[u8]) -> &str {
    std::str::from_utf8(slice).unwrap()
}

fn f32_bytes(input: &[u8]) -> BytesResult<'_, f32> {
    let mut cursor = whole(input);
    let text = float_text(&mut cursor)?;
    match text_of(text).parse::<f32>() {
        Ok(value) => Ok((cursor, value)),
        Err(_) => Err(bytes_error(whole(input), ErrorKind::Verify)),
    }
}

fn f64_bytes(input: &[u8]) -> BytesResult<'_, f64> {
    let mut cursor = whole(input);
    let text = float_text(&mut cursor)?;
    match text_of(text).parse::<f64>() {
        Ok(value) => Ok((cursor, value)),
        Err(_) => Err(bytes_error(whole(input), ErrorKind::Verify)),
    }
}

fn f32_text(input: &str) -> TextResult<'_, f32> {
    match f32_bytes(input.as_bytes()) {
        Ok((rest, value)) => Ok((Text::new(text_of(rest.rest())), value)),
        Err(_) => Err(text_error(Text::new(input), ErrorKind::Verify)),
    }
}

fn f64_text(input: &str) -> TextResult<'_, f64> {
    match f64_bytes(input.as_bytes()) {
        Ok((rest, value)) => Ok((Text::new(text_of(rest.rest())), value)),
        Err(_) => Err(text_error(Text::new(input), ErrorKind::Verify)),
    }
}

#[test]
fn float_test() {
    let test_cases = vec![
        "+3.14",
        "3.14",
        "-3.14",
        "0",
        "0.0",
        "1.",
        ".789",
        "-.5",
        "1e7",
        "-1E-7",
        ".3e-2",
        "1.e4",
        "1.2e4",
        "12.34",
        "-1.234E-12",
        "-1.234e-12",
        "0.00000000000000000087",
    ];

    for test in test_cases {
        let expected32 = str::parse::<f32>(test).unwrap();
        let expected64 = str::parse::<f64>(test).unwrap();

        println!("now parsing: {} -> {}", test, expected32);

        let larger = test.to_string();
        let mut cursor = Text::new(&larger[..]);
        let recognized: PResult<&str, InputError<Text<'_>>> = recognize_float(&mut cursor);
        assert_eq!(recognized, Ok(test));
        assert_eq!(cursor, Text::new(""));

        assert_eq!(f32_bytes(larger.as_bytes()), Ok((whole(&b""[..]), expected32)));
        assert_eq!(f32_text(&larger[..]), Ok((Text::new(""), expected32)));

        assert_eq!(f64_bytes(larger.as_bytes()), Ok((whole(&b""[..]), expected64)));
        assert_eq!(f64_text(&larger[..]), Ok((Text::new(""), expected64)));
    }

    let remaining_exponent = "-1.234E-";
    let mut cursor = Text::new(remaining_exponent);
    let recognized: PResult<&str, InputError<Text<'_>>> = recognize_float(&mut cursor);
    assert_eq!(
        recognized,
        Err(ErrMode::Cut(InputError {
            input: Text::new(""),
            kind: ErrorKind::Digit
        }))
    );

    let (_i, nan) = f32_text("NaN").unwrap();
    assert!(nan.is_nan());

    let (_i, inf) = f32_text("inf").unwrap();
    assert!(inf.is_infinite());
    let (_i, inf) = f32_text("infinite").unwrap();
    assert!(inf.is_infinite());
}

// an ordinary parser that accepts the empty run must not make `escaped` hang
#[test]
fn complete_escaped_hang() {
    fn escaped_string(input: &str) -> TextResult<'_, &str> {
        escaped(alpha0(), '\\', one_of("n")).parse_peek(Text::new(input))
    }

    escaped_string("7").unwrap();
    escaped_string("a7").unwrap();
}

// `escaped` on the empty text between two quotes
#[test]
fn complete_escaped_hang_1118() {
    fn unquote(input: &str) -> TextResult<'_, &str> {
        delimited(
            just('"'),
            escaped(opt(none_of(r#"\""#)), '\\', one_of(r#"\"rnt"#)),
            just('"'),
        )
        .parse_peek(Text::new(input))
    }

    assert_eq!(unquote(r#""""#), Ok((Text::new(""), "")));
}

#[test]
fn complete_escaping() {
    fn esc(i: &[u8]) -> BytesResult<'_, &[u8]> {
        escaped(alpha1(), '\\', one_of("\"n\\")).parse_peek(whole(i))
    }
    assert_eq!(esc(&b"abcd;"[..]), Ok((whole(&b";"[..]), &b"abcd"[..])));
    assert_eq!(esc(&b"ab\\\"cd;"[..]), Ok((whole(&b";"[..]), &b"ab\\\"cd"[..])));
    assert_eq!(esc(&b"\\\"abcd;"[..]), Ok((whole(&b";"[..]), &b"\\\"abcd"[..])));
    assert_eq!(esc(&b"\\n;"[..]), Ok((whole(&b";"[..]), &b"\\n"[..])));
    assert_eq!(esc(&b"ab\\\"12"[..]), Ok((whole(&b"12"[..]), &b"ab\\\""[..])));
    // an escape token with nothing valid behind it is an unrecoverable failure
    assert_eq!(
        esc(&b"AB\\"[..]),
        Err(ErrMode::Cut(InputError::new(whole(&b"AB\\"[..]), ErrorKind::Escaped)))
    );
    assert_eq!(
        esc(&b"AB\\A"[..]),
        Err(ErrMode::Cut(
            InputError::new(whole(&b"A"[..]), ErrorKind::Verify).append(
                &whole(&b"AB\\A"[..]),
                &whole(&b"AB\\A"[..]),
                ErrorKind::Escaped
            )
        ))
    );

    fn esc2(i: &[u8]) -> BytesResult<'_, &[u8]> {
        escaped(digit1(), '\\', one_of("\"n\\")).parse_peek(whole(i))
    }
    assert_eq!(esc2(&b"12\\nnn34"[..]), Ok((whole(&b"nn34"[..]), &b"12\\n"[..])));
}

#[test]
fn complete_escaping_str() {
    fn esc(i: &str) -> TextResult<'_, &str> {
        escaped(alpha1(), '\\', one_of("\"n\\")).parse_peek(Text::new(i))
    }
    assert_eq!(esc("abcd;"), Ok((Text::new(";"), "abcd")));
    assert_eq!(esc("ab\\\"cd;"), Ok((Text::new(";"), "ab\\\"cd")));
    assert_eq!(esc("\\\"abcd;"), Ok((Text::new(";"), "\\\"abcd")));
    assert_eq!(esc("\\n;"), Ok((Text::new(";"), "\\n")));
    assert_eq!(esc("ab\\\"12"), Ok((Text::new("12"), "ab\\\"")));
    assert_eq!(
        esc("AB\\"),
        Err(ErrMode::Cut(InputError::new(Text::new("AB\\"), ErrorKind::Escaped)))
    );
    assert_eq!(
        esc("AB\\A"),
        Err(ErrMode::Cut(
            InputError::new(Text::new("A"), ErrorKind::Verify).append(
                &Text::new("AB\\A"),
                &Text::new("AB\\A"),
                ErrorKind::Escaped
            )
        ))
    );

    fn esc2(i: &str) -> TextResult<'_, &str> {
        escaped(digit1(), '\\', one_of("\"n\\")).parse_peek(Text::new(i))
    }
    assert_eq!(esc2("12\\nnn34"), Ok((Text::new("nn34"), "12\\n")));

    fn esc3(i: &str) -> TextResult<'_, &str> {
        escaped(alpha1(), '\u{241b}', one_of("\"n")).parse_peek(Text::new(i))
    }
    assert_eq!(esc3("ab␛ncd;"), Ok((Text::new(";"), "ab␛ncd")));
}

#[test]
fn test_escaped_error() {
    fn esc(s: &str) -> TextResult<'_, &str> {
        escaped(digit1(), '\\', one_of("\"n\\")).parse_peek(Text::new(s))
    }

    assert_eq!(
        esc("abcd"),
        Err(ErrMode::Backtrack(InputError {
            input: Text::new("abcd"),
            kind: ErrorKind::Escaped
        }))
    );
}

fn to_s(i: Vec<u8>) -> String {
    String::from_utf8_lossy(&i).into_owned()
}

#[test]
fn complete_escape_transform() {
    fn esc(i: &[u8]) -> BytesResult<'_, String> {
        parsekit::parser::map(
            escaped_transform::<_, _, Vec<u8>>(
                alpha1(),
                '\\',
                alt((
                    value(tag::<u8, _>("\\"), &b"\\"[..]),
                    value(tag::<u8, _>("\""), &b"\""[..]),
                    value(tag::<u8, _>("n"), &b"\n"[..]),
                )),
            ),
            to_s,
        )
        .parse_peek(whole(i))
    }

    assert_eq!(esc(&b"abcd;"[..]), Ok((whole(&b";"[..]), String::from("abcd"))));
    assert_eq!(
        esc(&b"ab\\\"cd;"[..]),
        Ok((whole(&b";"[..]), String::from("ab\"cd")))
    );
    assert_eq!(
        esc(&b"\\\"abcd;"[..]),
        Ok((whole(&b";"[..]), String::from("\"abcd")))
    );
    assert_eq!(esc(&b"\\n;"[..]), Ok((whole(&b";"[..]), String::from("\n"))));
    assert_eq!(
        esc(&b"ab\\\"12"[..]),
        Ok((whole(&b"12"[..]), String::from("ab\"")))
    );
    assert_eq!(
        esc(&b"AB\\"[..]),
        Err(ErrMode::Cut(InputError::new(
            whole(&b"\\"[..]),
            ErrorKind::EscapedTransform
        )))
    );
    assert_eq!(
        esc(&b"AB\\A"[..]),
        Err(ErrMode::Cut(
            InputError::new(whole(&b"A"[..]), ErrorKind::Tag).append(
                &whole(&b"AB\\A"[..]),
                &whole(&b"AB\\A"[..]),
                ErrorKind::EscapedTransform
            )
        ))
    );

    fn esc2(i: &[u8]) -> BytesResult<'_, String> {
        parsekit::parser::map(
            escaped_transform::<_, _, Vec<u8>>(
                alpha1(),
                '&',
                alt((
                    value(tag::<u8, _>("egrave;"), "è".as_bytes()),
                    value(tag::<u8, _>("agrave;"), "à".as_bytes()),
                )),
            ),
            to_s,
        )
        .parse_peek(whole(i))
    }
    assert_eq!(
        esc2(&b"ab&egrave;DEF;"[..]),
        Ok((whole(&b";"[..]), String::from("abèDEF")))
    );
    assert_eq!(
        esc2(&b"ab&egrave;D&agrave;EF;"[..]),
        Ok((whole(&b";"[..]), String::from("abèDàEF")))
    );
}

#[test]
fn complete_escape_transform_str() {
    fn esc(i: &str) -> TextResult<'_, String> {
        escaped_transform(
            alpha1(),
            '\\',
            alt((
                value(tag::<char, _>("\\"), "\\"),
                value(tag::<char, _>("\""), "\""),
                value(tag::<char, _>("n"), "\n"),
            )),
        )
        .parse_peek(Text::new(i))
    }

    assert_eq!(esc("abcd;"), Ok((Text::new(";"), String::from("abcd"))));
    assert_eq!(esc("ab\\\"cd;"), Ok((Text::new(";"), String::from("ab\"cd"))));
    assert_eq!(esc("\\\"abcd;"), Ok((Text::new(";"), String::from("\"abcd"))));
    assert_eq!(esc("\\n;"), Ok((Text::new(";"), String::from("\n"))));
    assert_eq!(esc("ab\\\"12"), Ok((Text::new("12"), String::from("ab\""))));
    assert_eq!(
        esc("AB\\"),
        Err(ErrMode::Cut(InputError::new(
            Text::new("\\"),
            ErrorKind::EscapedTransform
        )))
    );
    assert_eq!(
        esc("AB\\A"),
        Err(ErrMode::Cut(
            InputError::new(Text::new("A"), ErrorKind::Tag).append(
                &Text::new("AB\\A"),
                &Text::new("AB\\A"),
                ErrorKind::EscapedTransform
            )
        ))
    );

    fn esc2(i: &str) -> TextResult<'_, String> {
        escaped_transform(
            alpha1(),
            '&',
            alt((
                value(tag::<char, _>("egrave;"), "è"),
                value(tag::<char, _>("agrave;"), "à"),
            )),
        )
        .parse_peek(Text::new(i))
    }
    assert_eq!(esc2("ab&egrave;DEF;"), Ok((Text::new(";"), String::from("abèDEF"))));
    assert_eq!(
        esc2("ab&egrave;D&agrave;EF;"),
        Ok((Text::new(";"), String::from("abèDàEF")))
    );

    fn esc3(i: &str) -> TextResult<'_, String> {
        escaped_transform(
            alpha1(),
            '␛',
            alt((
                value(tag::<char, _>("0"), "\0"),
                value(tag::<char, _>("n"), "\n"),
            )),
        )
        .parse_peek(Text::new(i))
    }
    assert_eq!(esc3("a␛0bc␛n"), Ok((Text::new(""), String::from("a\0bc\n"))));
}

#[test]
fn test_escaped_transform_error() {
    fn esc_trans(s: &str) -> TextResult<'_, String> {
        escaped_transform(digit1(), '\\', literal::<char, _>("n")).parse_peek(Text::new(s))
    }

    assert_eq!(
        esc_trans("abcd"),
        Err(ErrMode::Backtrack(InputError {
            input: Text::new("abcd"),
            kind: ErrorKind::EscapedTransform
        }))
    );
}

#[test]
fn tests_character() {
    let a: &[u8] = b"abcd";
    let b: &[u8] = b"1234";
    let c: &[u8] = b"a123";
    let d: &[u8] = "azé12".as_bytes();
    let e: &[u8] = b" ";
    let f: &[u8] = b" ;";
    let more = Err(ErrMode::Incomplete(Needed::new(1)));
    assert_eq!(run_bytes(alpha1(), streaming(a)), more);
    assert_eq!(
        run_bytes(alpha1(), streaming(b)),
        Err(bytes_error(streaming(b), ErrorKind::Alpha))
    );
    assert_eq!(run_bytes(alpha1(), streaming(c)), Ok((streaming(&c[1..]), &b"a"[..])));
    assert_eq!(
        run_bytes(alpha1(), streaming(d)),
        Ok((streaming("é12".as_bytes()), &b"az"[..]))
    );
    assert_eq!(
        run_bytes(digit1(), streaming(a)),
        Err(bytes_error(streaming(a), ErrorKind::Digit))
    );
    assert_eq!(run_bytes(digit1(), streaming(b)), more);
    assert_eq!(
        run_bytes(digit1(), streaming(c)),
        Err(bytes_error(streaming(c), ErrorKind::Digit))
    );
    assert_eq!(
        run_bytes(digit1(), streaming(d)),
        Err(bytes_error(streaming(d), ErrorKind::Digit))
    );
    assert_eq!(run_bytes(hex_digit1(), streaming(a)), more);
    assert_eq!(run_bytes(hex_digit1(), streaming(b)), more);
    assert_eq!(run_bytes(hex_digit1(), streaming(c)), more);
    assert_eq!(
        run_bytes(hex_digit1(), streaming(d)),
        Ok((streaming("zé12".as_bytes()), &b"a"[..]))
    );
    assert_eq!(
        run_bytes(hex_digit1(), streaming(e)),
        Err(bytes_error(streaming(e), ErrorKind::HexDigit))
    );
    assert_eq!(
        run_bytes(oct_digit1(), streaming(a)),
        Err(bytes_error(streaming(a), ErrorKind::OctDigit))
    );
    assert_eq!(run_bytes(oct_digit1(), streaming(b)), more);
    assert_eq!(
        run_bytes(oct_digit1(), streaming(c)),
        Err(bytes_error(streaming(c), ErrorKind::OctDigit))
    );
    assert_eq!(
        run_bytes(oct_digit1(), streaming(d)),
        Err(bytes_error(streaming(d), ErrorKind::OctDigit))
    );
    assert_eq!(run_bytes(alphanumeric1(), streaming(a)), more);
    assert_eq!(run_bytes(alphanumeric1(), streaming(c)), more);
    assert_eq!(
        run_bytes(alphanumeric1(), streaming(d)),
        Ok((streaming("é12".as_bytes()), &b"az"[..]))
    );
    assert_eq!(run_bytes(space1(), streaming(e)), more);
    assert_eq!(run_bytes(space1(), streaming(f)), Ok((streaming(&b";"[..]), &b" "[..])));
}

#[test]
fn tests_character_s() {
    let a = "abcd";
    let b = "1234";
    let c = "a123";
    let d = "azé12";
    let e = " ";
    let at = Text::streaming;
    let more = Err(ErrMode::Incomplete(Needed::new(1)));
    assert_eq!(run_text(alpha1(), at(a)), more);
    assert_eq!(run_text(alpha1(), at(b)), Err(text_error(at(b), ErrorKind::Alpha)));
    assert_eq!(run_text(alpha1(), at(c)), Ok((at(&c[1..]), "a")));
    assert_eq!(run_text(alpha1(), at(d)), Ok((at("é12"), "az")));
    assert_eq!(run_text(digit1(), at(a)), Err(text_error(at(a), ErrorKind::Digit)));
    assert_eq!(run_text(digit1(), at(b)), more);
    assert_eq!(run_text(digit1(), at(c)), Err(text_error(at(c), ErrorKind::Digit)));
    assert_eq!(run_text(digit1(), at(d)), Err(text_error(at(d), ErrorKind::Digit)));
    assert_eq!(run_text(hex_digit1(), at(a)), more);
    assert_eq!(run_text(hex_digit1(), at(b)), more);
    assert_eq!(run_text(hex_digit1(), at(c)), more);
    assert_eq!(run_text(hex_digit1(), at(d)), Ok((at("zé12"), "a")));
    assert_eq!(
        run_text(hex_digit1(), at(e)),
        Err(text_error(at(e), ErrorKind::HexDigit))
    );
    assert_eq!(
        run_text(oct_digit1(), at(a)),
        Err(text_error(at(a), ErrorKind::OctDigit))
    );
    assert_eq!(run_text(oct_digit1(), at(b)), more);
    assert_eq!(
        run_text(oct_digit1(), at(c)),
        Err(text_error(at(c), ErrorKind::OctDigit))
    );
    assert_eq!(
        run_text(oct_digit1(), at(d)),
        Err(text_error(at(d), ErrorKind::OctDigit))
    );
    assert_eq!(run_text(alphanumeric1(), at(a)), more);
    assert_eq!(run_text(alphanumeric1(), at(c)), more);
    assert_eq!(run_text(alphanumeric1(), at(d)), Ok((at("é12"), "az")));
    assert_eq!(run_text(space1(), at(e)), more);
}

#[test]
fn tests_offset() {
    let a = &b"abcd;"[..];
    let b = &b"1234;"[..];
    let c = &b"a123;"[..];
    let d = &b" \t;"[..];
    let e = &b" \t\r\n;"[..];
    let f = &b"123abcDEF;"[..];

    check_offset(alpha1(), streaming(a), "wrong return type in offset test for alpha");
    check_offset(digit1(), streaming(b), "wrong return type in offset test for digit");
    check_offset(
        alphanumeric1(),
        streaming(c),
        "wrong return type in offset test for alphanumeric",
    );
    check_offset(space1(), streaming(d), "wrong return type in offset test for space");
    check_offset(
        multispace1(),
        streaming(e),
        "wrong return type in offset test for multispace",
    );
    check_offset(
        hex_digit1(),
        streaming(f),
        "wrong return type in offset test for hex_digit",
    );
    check_offset(
        oct_digit1(),
        streaming(f),
        "wrong return type in offset test for oct_digit",
    );
}

#[test]
fn tests_is_not_line_ending_bytes() {
    let a: &[u8] = b"ab12cd\nefgh";
    assert_eq!(
        run_bytes(not_line_ending(), streaming(a)),
        Ok((streaming(&b"\nefgh"[..]), &b"ab12cd"[..]))
    );

    let b: &[u8] = b"ab12cd\nefgh\nijkl";
    assert_eq!(
        run_bytes(not_line_ending(), streaming(b)),
        Ok((streaming(&b"\nefgh\nijkl"[..]), &b"ab12cd"[..]))
    );

    let c: &[u8] = b"ab12cd\r\nefgh\nijkl";
    assert_eq!(
        run_bytes(not_line_ending(), streaming(c)),
        Ok((streaming(&b"\r\nefgh\nijkl"[..]), &b"ab12cd"[..]))
    );

    let d: &[u8] = b"ab12cd";
    assert_eq!(
        run_bytes(not_line_ending(), streaming(d)),
        Err(ErrMode::Incomplete(Needed::Unknown))
    );
}

#[test]
fn tests_is_not_line_ending_str() {
    let f = "βèƒôřè\rÂßÇáƒƭèř";
    assert_eq!(
        run_text(not_line_ending(), Text::streaming(f)),
        Err(text_error(Text::streaming(f), ErrorKind::Tag))
    );

    let g2: &str = "ab12cd";
    assert_eq!(
        run_text(not_line_ending(), Text::streaming(g2)),
        Err(ErrMode::Incomplete(Needed::Unknown))
    );
}

#[test]
fn tests_hex_digit_test() {
    let i = &b"0123456789abcdefABCDEF;"[..];
    assert_eq!(
        run_bytes(hex_digit1(), streaming(i)),
        Ok((streaming(&b";"[..]), &i[..i.len() - 1]))
    );

    let i = &b"g"[..];
    assert_eq!(
        run_bytes(hex_digit1(), streaming(i)),
        Err(bytes_error(streaming(i), ErrorKind::HexDigit))
    );

    let i = &b"G"[..];
    assert_eq!(
        run_bytes(hex_digit1(), streaming(i)),
        Err(bytes_error(streaming(i), ErrorKind::HexDigit))
    );

    assert!(AsChar::is_hex_digit(b'0'));
    assert!(AsChar::is_hex_digit(b'9'));
    assert!(AsChar::is_hex_digit(b'a'));
    assert!(AsChar::is_hex_digit(b'f'));
    assert!(AsChar::is_hex_digit(b'A'));
    assert!(AsChar::is_hex_digit(b'F'));
    assert!(!AsChar::is_hex_digit(b'g'));
    assert!(!AsChar::is_hex_digit(b'G'));
    assert!(!AsChar::is_hex_digit(b'/'));
    assert!(!AsChar::is_hex_digit(b':'));
    assert!(!AsChar::is_hex_digit(b'@'));
    assert!(!AsChar::is_hex_digit(b'\x60'));
}

#[test]
fn tests_oct_digit_test() {
    let i = &b"01234567;"[..];
    assert_eq!(
        run_bytes(oct_digit1(), streaming(i)),
        Ok((streaming(&b";"[..]), &i[..i.len() - 1]))
    );

    let i = &b"8"[..];
    assert_eq!(
        run_bytes(oct_digit1(), streaming(i)),
        Err(bytes_error(streaming(i), ErrorKind::OctDigit))
    );

    assert!(AsChar::is_oct_digit(b'0'));
    assert!(AsChar::is_oct_digit(b'7'));
    assert!(!AsChar::is_oct_digit(b'8'));
    assert!(!AsChar::is_oct_digit(b'9'));
    assert!(!AsChar::is_oct_digit(b'a'));
    assert!(!AsChar::is_oct_digit(b'A'));
    assert!(!AsChar::is_oct_digit(b'/'));
    assert!(!AsChar::is_oct_digit(b':'));
    assert!(!AsChar::is_oct_digit(b'@'));
    assert!(!AsChar::is_oct_digit(b'\x60'));
}

#[test]
fn tests_full_line_windows() {
    fn take_full_line(i: Bytes<'_>) -> BytesResult<'_, (&[u8], &[u8])> {
        (not_line_ending(), line_ending()).parse_peek(i)
    }
    let input = b"abc\r\n";
    let output = take_full_line(streaming(input));
    assert_eq!(output, Ok((streaming(&b""[..]), (&b"abc"[..], &b"\r\n"[..]))));
}

#[test]
fn tests_full_line_unix() {
    fn take_full_line(i: Bytes<'_>) -> BytesResult<'_, (&[u8], &[u8])> {
        (not_line_ending(), line_ending()).parse_peek(i)
    }
    let input = b"abc\n";
    let output = take_full_line(streaming(input));
    assert_eq!(output, Ok((streaming(&b""[..]), (&b"abc"[..], &b"\n"[..]))));
}

#[test]
fn tests_check_windows_lineending() {
    let input = b"\r\n";
    let output = run_bytes(line_ending(), streaming(&input[..]));
    assert_eq!(output, Ok((streaming(&b""[..]), &b"\r\n"[..])));
}

#[test]
fn tests_check_unix_lineending() {
    let input = b"\n";
    let output = run_bytes(line_ending(), streaming(&input[..]));
    assert_eq!(output, Ok((streaming(&b""[..]), &b"\n"[..])));
}

#[test]
fn tests_cr_lf() {
    assert_eq!(
        run_bytes(crlf(), streaming(&b"\r\na"[..])),
        Ok((streaming(&b"a"[..]), &b"\r\n"[..]))
    );
    assert_eq!(
        run_bytes(crlf(), streaming(&b"\r"[..])),
        Err(ErrMode::Incomplete(Needed::new(2)))
    );
    assert_eq!(
        run_bytes(crlf(), streaming(&b"\ra"[..])),
        Err(bytes_error(streaming(&b"\ra"[..]), ErrorKind::CrLf))
    );

    assert_eq!(
        run_text(crlf(), Text::streaming("\r\na")),
        Ok((Text::streaming("a"), "\r\n"))
    );
    assert_eq!(
        run_text(crlf(), Text::streaming("\r")),
        Err(ErrMode::Incomplete(Needed::new(2)))
    );
    assert_eq!(
        run_text(crlf(), Text::streaming("\ra")),
        Err(text_error(Text::streaming("\ra"), ErrorKind::CrLf))
    );
}

#[test]
fn tests_end_of_line() {
    assert_eq!(
        run_bytes(line_ending(), streaming(&b"\na"[..])),
        Ok((streaming(&b"a"[..]), &b"\n"[..]))
    );
    assert_eq!(
        run_bytes(line_ending(), streaming(&b"\r\na"[..])),
        Ok((streaming(&b"a"[..]), &b"\r\n"[..]))
    );
    assert_eq!(
        run_bytes(line_ending(), streaming(&b"\r"[..])),
        Err(ErrMode::Incomplete(Needed::new(2)))
    );
    assert_eq!(
        run_bytes(line_ending(), streaming(&b"\ra"[..])),
        Err(bytes_error(streaming(&b"\ra"[..]), ErrorKind::CrLf))
    );

    assert_eq!(
        run_text(line_ending(), Text::streaming("\na")),
        Ok((Text::streaming("a"), "\n"))
    );
    assert_eq!(
        run_text(line_ending(), Text::streaming("\r\na")),
        Ok((Text::streaming("a"), "\r\n"))
    );
    assert_eq!(
        run_text(line_ending(), Text::streaming("\r")),
        Err(ErrMode::Incomplete(Needed::new(2)))
    );
    assert_eq!(
        run_text(line_ending(), Text::streaming("\ra")),
        Err(text_error(Text::streaming("\ra"), ErrorKind::CrLf))
    );
}

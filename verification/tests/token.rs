use parsekit::ascii::{
    alpha1, alphanumeric1, digit1, hex_digit1, multispace1, oct_digit1, space1,
};
use parsekit::basic::{rest, rest_len};
use parsekit::chars::AsChar;
use parsekit::error::{ErrMode, ErrorKind, InputError, Needed};
use parsekit::multi::Range;
use parsekit::parser::{taken, Parser};
use parsekit::sequence::delimited;
use parsekit::stream::Bytes;
use parsekit::text::Text;
use parsekit::token::{
    any, just, literal, none_of, one_of, take, take_till, take_until, take_while, Caseless,
};

type BytesResult<'a, O> = Result<(Bytes<'a>, O), ErrMode<InputError<Bytes<'a>>>>;
type TextResult<'a, O> = Result<(Text<'a>, O), ErrMode<InputError<Text<'a>>>>;

fn whole(input: &[u8]) -> Bytes<'_> {
    Bytes::new(input)
}

fn partial(input: &[u8]) -> Bytes<'_> {
    Bytes::streaming(input)
}

fn bytes_error<'a>(input: Bytes<'a>, kind: ErrorKind) -> ErrMode<InputError<Bytes<'a>>> {
    ErrMode::Backtrack(InputError::new(input, kind))
}

fn text_error<'a>(input: Text<'a>, kind: ErrorKind) -> ErrMode<InputError<Text<'a>>> {
    ErrMode::Backtrack(InputError::new(input, kind))
}

fn run_bytes<'a, P: Parser<Bytes<'a>, InputError<Bytes<'a>>>>(
    parser: P,
    input: Bytes<'a>,
) -> BytesResult<'a, P::Output> {
    parser.parse_peek(input)
}

fn run_text<'a, P: Parser<Text<'a>, InputError<Text<'a>>>>(
    parser: P,
    input: Text<'a>,
) -> TextResult<'a, P::Output> {
    parser.parse_peek(input)
}

#[test]
fn complete_take_while_m_n_utf8_all_matching() {
    let result = run_text(
        take_while(Range::between(1, 4), |c: char| c.is_alphabetic()),
        Text::new("øn"),
    );
    assert_eq!(result, Ok((Text::new(""), "øn")));
}

#[test]
fn complete_take_while_m_n_utf8_all_matching_substring() {
    let result = run_text(
        take_while(Range::exactly(1), |c: char| c.is_alphabetic()),
        Text::new("øn"),
    );
    assert_eq!(result, Ok((Text::new("n"), "ø")));
}

#[test]
fn complete_take_until() {
    fn take_until_5_10(i: &str) -> TextResult<'_, &str> {
        take_until::<char, _>(Range::between(5, 8), "end").parse_peek(Text::new(i))
    }
    assert_eq!(
        take_until_5_10("end"),
        Err(text_error(Text::new("end"), ErrorKind::Slice))
    );
    assert_eq!(
        take_until_5_10("1234end"),
        Err(text_error(Text::new("1234end"), ErrorKind::Slice))
    );
    assert_eq!(take_until_5_10("12345end"), Ok((Text::new("end"), "12345")));
    assert_eq!(take_until_5_10("123456end"), Ok((Text::new("end"), "123456")));
    assert_eq!(
        take_until_5_10("12345678end"),
        Ok((Text::new("end"), "12345678"))
    );
    assert_eq!(
        take_until_5_10("123456789end"),
        Err(text_error(Text::new("123456789end"), ErrorKind::Slice))
    );
}

#[test]
fn complete_take_until_empty() {
    fn take_until_empty(i: &str) -> TextResult<'_, &str> {
        take_until::<char, _>(Range::exactly(0), "").parse_peek(Text::new(i))
    }
    assert_eq!(take_until_empty(""), Ok((Text::new(""), "")));
    assert_eq!(take_until_empty("end"), Ok((Text::new("end"), "")));
}

#[test]
fn complete_literal_case_insensitive() {
    fn caseless_bytes(i: &[u8]) -> BytesResult<'_, &[u8]> {
        literal::<u8, _>(Caseless("ABcd")).parse_peek(whole(i))
    }
    assert_eq!(
        caseless_bytes(&b"aBCdefgh"[..]),
        Ok((whole(&[101, 102, 103, 104][..]), &[97, 66, 67, 100][..]))
    );
    assert_eq!(
        caseless_bytes(&b"abcdefgh"[..]),
        Ok((whole(&[101, 102, 103, 104][..]), &[97, 98, 99, 100][..]))
    );
    assert_eq!(
        caseless_bytes(&b"ABCDefgh"[..]),
        Ok((whole(&[101, 102, 103, 104][..]), &[65, 66, 67, 68][..]))
    );
    assert_eq!(
        caseless_bytes(&b"ab"[..]),
        Err(bytes_error(whole(&[97, 98][..]), ErrorKind::Literal))
    );
    assert_eq!(
        caseless_bytes(&b"Hello"[..]),
        Err(bytes_error(whole(&[72, 101, 108, 108, 111][..]), ErrorKind::Literal))
    );
    assert_eq!(
        caseless_bytes(&b"Hel"[..]),
        Err(bytes_error(whole(&[72, 101, 108][..]), ErrorKind::Literal))
    );

    fn caseless_str(i: &str) -> TextResult<'_, &str> {
        literal::<char, _>(Caseless("ABcd")).parse_peek(Text::new(i))
    }
    assert_eq!(caseless_str("aBCdefgh"), Ok((Text::new("efgh"), "aBCd")));
    assert_eq!(caseless_str("abcdefgh"), Ok((Text::new("efgh"), "abcd")));
    assert_eq!(caseless_str("ABCDefgh"), Ok((Text::new("efgh"), "ABCD")));
    assert_eq!(caseless_str("ab"), Err(text_error(Text::new("ab"), ErrorKind::Literal)));
    assert_eq!(
        caseless_str("Hello"),
        Err(text_error(Text::new("Hello"), ErrorKind::Literal))
    );
    assert_eq!(caseless_str("Hel"), Err(text_error(Text::new("Hel"), ErrorKind::Literal)));

    fn matches_kelvin(i: &str) -> TextResult<'_, &str> {
        literal::<char, _>(Caseless("k")).parse_peek(Text::new(i))
    }
    assert_eq!(
        matches_kelvin("K"),
        Err(text_error(Text::new("K"), ErrorKind::Literal))
    );

    fn is_kelvin(i: &str) -> TextResult<'_, &str> {
        literal::<char, _>(Caseless("K")).parse_peek(Text::new(i))
    }
    assert_eq!(is_kelvin("k"), Err(text_error(Text::new("k"), ErrorKind::Literal)));
}

#[test]
fn complete_literal_fixed_size_array() {
    fn test(i: &[u8]) -> BytesResult<'_, &[u8]> {
        const PATTERN: [u8; 1] = [0x42];
        literal::<u8, _>(&PATTERN[..]).parse_peek(whole(i))
    }
    fn test2(i: &[u8]) -> BytesResult<'_, &[u8]> {
        literal::<u8, _>(&[0x42][..]).parse_peek(whole(i))
    }

    let input = &[0x42, 0x00][..];
    assert_eq!(test(input), Ok((whole(&[0][..]), &[66][..])));
    assert_eq!(test2(input), Ok((whole(&[0][..]), &[66][..])));
}

#[test]
fn complete_literal_char() {
    fn test(i: &[u8]) -> BytesResult<'_, &[u8]> {
        literal::<u8, _>("B").parse_peek(whole(i))
    }
    assert_eq!(test(&[0x42, 0x00][..]), Ok((whole(&[0][..]), &[66][..])));
    assert_eq!(
        test(&[b'A', b'\0'][..]),
        Err(bytes_error(whole(&[65, 0][..]), ErrorKind::Literal))
    );
}

#[test]
fn complete_literal_byte() {
    fn test(i: &[u8]) -> BytesResult<'_, &[u8]> {
        literal::<u8, _>(&[b'B'][..]).parse_peek(whole(i))
    }
    assert_eq!(test(&[0x42, 0x00][..]), Ok((whole(&[0][..]), &[66][..])));
    assert_eq!(
        test(&[b'A', b'\0'][..]),
        Err(bytes_error(whole(&[65, 0][..]), ErrorKind::Literal))
    );
}

#[test]
fn partial_any_str() {
    assert_eq!(
        run_text(any(), Text::streaming("Ә")),
        Ok((Text::streaming(""), 'Ә'))
    );
}

#[test]
fn partial_one_of_test() {
    fn f(i: Bytes<'_>) -> BytesResult<'_, u8> {
        one_of(['a', 'b']).parse_peek(i)
    }

    let a = &b"abcd"[..];
    assert_eq!(f(partial(a)), Ok((partial(&[98, 99, 100][..]), 97)));

    let b = &b"cde"[..];
    assert_eq!(
        f(partial(b)),
        Err(bytes_error(partial(&[99, 100, 101][..]), ErrorKind::Verify))
    );

    fn utf8(i: Text<'_>) -> TextResult<'_, char> {
        one_of(['+', '\u{FF0B}']).parse_peek(i)
    }

    assert!(utf8(Text::streaming("+")).is_ok());
    assert!(utf8(Text::streaming("\u{FF0B}")).is_ok());
}

#[test]
fn char_byteslice() {
    fn f(i: Bytes<'_>) -> BytesResult<'_, char> {
        just('c').parse_peek(i)
    }

    let a = &b"abcd"[..];
    assert_eq!(
        f(partial(a)),
        Err(bytes_error(partial(&[97, 98, 99, 100][..]), ErrorKind::Literal))
    );

    let b = &b"cde"[..];
    assert_eq!(f(partial(b)), Ok((partial(&[100, 101][..]), 'c')));
}

#[test]
fn char_str() {
    fn f(i: Text<'_>) -> TextResult<'_, char> {
        just('c').parse_peek(i)
    }

    let a = "abcd";
    assert_eq!(
        f(Text::streaming(a)),
        Err(text_error(Text::streaming("abcd"), ErrorKind::Literal))
    );

    let b = "cde";
    assert_eq!(f(Text::streaming(b)), Ok((Text::streaming("de"), 'c')));
}

#[test]
fn partial_none_of_test() {
    fn f(i: Bytes<'_>) -> BytesResult<'_, u8> {
        none_of(['a', 'b']).parse_peek(i)
    }

    let a = &b"abcd"[..];
    assert_eq!(
        f(partial(a)),
        Err(bytes_error(partial(&[97, 98, 99, 100][..]), ErrorKind::Verify))
    );

    let b = &b"cde"[..];
    assert_eq!(f(partial(b)), Ok((partial(&[100, 101][..]), 99)));
}

#[test]
fn partial_is_a() {
    fn a_or_b(i: Bytes<'_>) -> BytesResult<'_, &[u8]> {
        take_while(Range::at_least(1), ['a', 'b']).parse_peek(i)
    }

    let a = partial(&b"abcd"[..]);
    assert_eq!(a_or_b(a), Ok((partial(&[99, 100][..]), &[97, 98][..])));

    let b = partial(&b"bcde"[..]);
    assert_eq!(a_or_b(b), Ok((partial(&[99, 100, 101][..]), &[98][..])));

    let c = partial(&b"cdef"[..]);
    assert_eq!(
        a_or_b(c),
        Err(bytes_error(partial(&[99, 100, 101, 102][..]), ErrorKind::Slice))
    );

    let d = partial(&b"bacdef"[..]);
    assert_eq!(a_or_b(d), Ok((partial(&[99, 100, 101, 102][..]), &[98, 97][..])));
}

#[test]
fn partial_is_not() {
    fn a_or_b(i: Bytes<'_>) -> BytesResult<'_, &[u8]> {
        take_till(Range::at_least(1), ['a', 'b']).parse_peek(i)
    }

    let a = partial(&b"cdab"[..]);
    assert_eq!(a_or_b(a), Ok((partial(&[97, 98][..]), &[99, 100][..])));

    let b = partial(&b"cbde"[..]);
    assert_eq!(a_or_b(b), Ok((partial(&[98, 100, 101][..]), &[99][..])));

    let c = partial(&b"abab"[..]);
    assert_eq!(
        a_or_b(c),
        Err(bytes_error(partial(&[97, 98, 97, 98][..]), ErrorKind::Slice))
    );

    let d = partial(&b"cdefba"[..]);
    assert_eq!(a_or_b(d), Ok((partial(&[98, 97][..]), &[99, 100, 101, 102][..])));

    let e = partial(&b"e"[..]);
    assert_eq!(a_or_b(e), Err(ErrMode::Incomplete(Needed::Size(1))));
}

#[test]
fn partial_take_until_incomplete() {
    fn y(i: Bytes<'_>) -> BytesResult<'_, &[u8]> {
        take_until::<u8, _>(Range::at_least(0), "end").parse_peek(i)
    }
    assert_eq!(y(partial(&b"nd"[..])), Err(ErrMode::Incomplete(Needed::Unknown)));
    assert_eq!(y(partial(&b"123"[..])), Err(ErrMode::Incomplete(Needed::Unknown)));
    assert_eq!(y(partial(&b"123en"[..])), Err(ErrMode::Incomplete(Needed::Unknown)));
}

#[test]
fn partial_take_until_incomplete_s() {
    fn ys(i: Text<'_>) -> TextResult<'_, &str> {
        take_until::<char, _>(Range::at_least(0), "end").parse_peek(i)
    }
    assert_eq!(
        ys(Text::streaming("123en")),
        Err(ErrMode::Incomplete(Needed::Unknown))
    );
}

#[test]
fn partial_take() {
    fn x(i: Bytes<'_>) -> BytesResult<'_, &[u8]> {
        taken(delimited(
            literal::<u8, _>("<!--"),
            take(5_usize),
            literal::<u8, _>("-->"),
        ))
        .parse_peek(i)
    }
    let r = x(partial(&b"<!-- abc --> aaa"[..]));
    assert_eq!(
        r,
        Ok((
            partial(&[32, 97, 97, 97][..]),
            &[60, 33, 45, 45, 32, 97, 98, 99, 32, 45, 45, 62][..]
        ))
    );

    let ra = run_bytes(taken(alpha1()), partial(&b"abc;"[..]));
    assert_eq!(ra, Ok((partial(&[59][..]), &[97, 98, 99][..])));

    let rd = run_bytes(taken(digit1()), partial(&b"123;"[..]));
    assert_eq!(rd, Ok((partial(&[59][..]), &[49, 50, 51][..])));

    let rhd = run_bytes(taken(hex_digit1()), partial(&b"123abcDEF;"[..]));
    assert_eq!(
        rhd,
        Ok((partial(&[59][..]), &[49, 50, 51, 97, 98, 99, 68, 69, 70][..]))
    );

    let rod = run_bytes(taken(oct_digit1()), partial(&b"1234567;"[..]));
    assert_eq!(rod, Ok((partial(&[59][..]), &[49, 50, 51, 52, 53, 54, 55][..])));

    let ran = run_bytes(taken(alphanumeric1()), partial(&b"123abc;"[..]));
    assert_eq!(ran, Ok((partial(&[59][..]), &[49, 50, 51, 97, 98, 99][..])));

    let rs = run_bytes(taken(space1()), partial(&b" \t;"[..]));
    assert_eq!(rs, Ok((partial(&[59][..]), &[32, 9][..])));

    let rms = run_bytes(taken(multispace1()), partial(&b" \t\r\n;"[..]));
    assert_eq!(rms, Ok((partial(&[59][..]), &[32, 9, 13, 10][..])));
}

#[test]
fn partial_take_while0() {
    fn f(i: Bytes<'_>) -> BytesResult<'_, &[u8]> {
        take_while(Range::at_least(0), <u8 as AsChar>::is_alpha).parse_peek(i)
    }
    let a = &b""[..];
    let b = &b"abcd"[..];
    let c = &b"abcd123"[..];
    let d = &b"123"[..];

    assert_eq!(f(partial(a)), Err(ErrMode::Incomplete(Needed::Size(1))));
    assert_eq!(f(partial(b)), Err(ErrMode::Incomplete(Needed::Size(1))));
    assert_eq!(f(partial(c)), Ok((partial(&[49, 50, 51][..]), &[97, 98, 99, 100][..])));
    assert_eq!(f(partial(d)), Ok((partial(&[49, 50, 51][..]), &[][..])));
}

#[test]
fn partial_take_while1() {
    fn f(i: Bytes<'_>) -> BytesResult<'_, &[u8]> {
        take_while(Range::at_least(1), <u8 as AsChar>::is_alpha).parse_peek(i)
    }
    let a = &b""[..];
    let b = &b"abcd"[..];
    let c = &b"abcd123"[..];
    let d = &b"123"[..];

    assert_eq!(f(partial(a)), Err(ErrMode::Incomplete(Needed::Size(1))));
    assert_eq!(f(partial(b)), Err(ErrMode::Incomplete(Needed::Size(1))));
    assert_eq!(f(partial(c)), Ok((partial(&[49, 50, 51][..]), &[97, 98, 99, 100][..])));
    assert_eq!(
        f(partial(d)),
        Err(bytes_error(partial(&[49, 50, 51][..]), ErrorKind::Slice))
    );
}

#[test]
fn partial_take_while_m_n() {
    fn x(i: Bytes<'_>) -> BytesResult<'_, &[u8]> {
        take_while(Range::between(2, 4), <u8 as AsChar>::is_alpha).parse_peek(i)
    }
    let a = &b""[..];
    let b = &b"a"[..];
    let c = &b"abc"[..];
    let d = &b"abc123"[..];
    let e = &b"abcde"[..];
    let f = &b"123"[..];

    assert_eq!(x(partial(a)), Err(ErrMode::Incomplete(Needed::Size(2))));
    assert_eq!(x(partial(b)), Err(ErrMode::Incomplete(Needed::Size(1))));
    assert_eq!(x(partial(c)), Err(ErrMode::Incomplete(Needed::Size(1))));
    assert_eq!(x(partial(d)), Ok((partial(&[49, 50, 51][..]), &[97, 98, 99][..])));
    assert_eq!(x(partial(e)), Ok((partial(&[101][..]), &[97, 98, 99, 100][..])));
    assert_eq!(
        x(partial(f)),
        Err(bytes_error(partial(&[49, 50, 51][..]), ErrorKind::Slice))
    );
}

#[test]
fn partial_take_till0() {
    fn f(i: Bytes<'_>) -> BytesResult<'_, &[u8]> {
        take_till(Range::at_least(0), <u8 as AsChar>::is_alpha).parse_peek(i)
    }
    let a = &b""[..];
    let b = &b"abcd"[..];
    let c = &b"123abcd"[..];
    let d = &b"123"[..];

    assert_eq!(f(partial(a)), Err(ErrMode::Incomplete(Needed::Size(1))));
    assert_eq!(f(partial(b)), Ok((partial(&[97, 98, 99, 100][..]), &[][..])));
    assert_eq!(f(partial(c)), Ok((partial(&[97, 98, 99, 100][..]), &[49, 50, 51][..])));
    assert_eq!(f(partial(d)), Err(ErrMode::Incomplete(Needed::Size(1))));
}

#[test]
fn partial_take_till1() {
    fn f(i: Bytes<'_>) -> BytesResult<'_, &[u8]> {
        take_till(Range::at_least(1), <u8 as AsChar>::is_alpha).parse_peek(i)
    }
    let a = &b""[..];
    let b = &b"abcd"[..];
    let c = &b"123abcd"[..];
    let d = &b"123"[..];

    assert_eq!(f(partial(a)), Err(ErrMode::Incomplete(Needed::Size(1))));
    assert_eq!(
        f(partial(b)),
        Err(bytes_error(partial(&[97, 98, 99, 100][..]), ErrorKind::Slice))
    );
    assert_eq!(f(partial(c)), Ok((partial(&[97, 98, 99, 100][..]), &[49, 50, 51][..])));
    assert_eq!(f(partial(d)), Err(ErrMode::Incomplete(Needed::Size(1))));
}

#[test]
fn partial_take_while_utf8() {
    fn f(i: &str) -> TextResult<'_, &str> {
        take_while(Range::at_least(0), |c: char| c != '點').parse_peek(Text::streaming(i))
    }

    assert_eq!(f(""), Err(ErrMode::Incomplete(Needed::Size(1))));
    assert_eq!(f("abcd"), Err(ErrMode::Incomplete(Needed::Size(1))));
    assert_eq!(f("abcd點"), Ok((Text::streaming("點"), "abcd")));
    assert_eq!(f("abcd點a"), Ok((Text::streaming("點a"), "abcd")));

    fn g(i: &str) -> TextResult<'_, &str> {
        take_while(Range::at_least(0), |c: char| c == '點').parse_peek(Text::streaming(i))
    }

    assert_eq!(g(""), Err(ErrMode::Incomplete(Needed::Size(1))));
    assert_eq!(g("點abcd"), Ok((Text::streaming("abcd"), "點")));
    assert_eq!(g("點點點a"), Ok((Text::streaming("a"), "點點點")));
}

#[test]
fn partial_take_till0_utf8() {
    fn f(i: &str) -> TextResult<'_, &str> {
        take_till(Range::at_least(0), |c: char| c == '點').parse_peek(Text::streaming(i))
    }

    assert_eq!(f(""), Err(ErrMode::Incomplete(Needed::Size(1))));
    assert_eq!(f("abcd"), Err(ErrMode::Incomplete(Needed::Size(1))));
    assert_eq!(f("abcd點"), Ok((Text::streaming("點"), "abcd")));
    assert_eq!(f("abcd點a"), Ok((Text::streaming("點a"), "abcd")));

    fn g(i: &str) -> TextResult<'_, &str> {
        take_till(Range::at_least(0), |c: char| c != '點').parse_peek(Text::streaming(i))
    }

    assert_eq!(g(""), Err(ErrMode::Incomplete(Needed::Size(1))));
    assert_eq!(g("點abcd"), Ok((Text::streaming("abcd"), "點")));
    assert_eq!(g("點點點a"), Ok((Text::streaming("a"), "點點點")));
}

#[test]
fn partial_take_utf8() {
    fn f(i: &str) -> TextResult<'_, &str> {
        take(3_usize).parse_peek(Text::streaming(i))
    }

    assert_eq!(f(""), Err(ErrMode::Incomplete(Needed::Unknown)));
    assert_eq!(f("ab"), Err(ErrMode::Incomplete(Needed::Unknown)));
    assert_eq!(f("點"), Err(ErrMode::Incomplete(Needed::Unknown)));
    assert_eq!(f("ab點cd"), Ok((Text::streaming("cd"), "ab點")));
    assert_eq!(f("a點bcd"), Ok((Text::streaming("cd"), "a點b")));
    assert_eq!(f("a點b"), Ok((Text::streaming(""), "a點b")));

    fn g(i: &str) -> TextResult<'_, &str> {
        take_while(Range::at_least(0), |c: char| c == '點').parse_peek(Text::streaming(i))
    }

    assert_eq!(g(""), Err(ErrMode::Incomplete(Needed::Size(1))));
    assert_eq!(g("點abcd"), Ok((Text::streaming("abcd"), "點")));
    assert_eq!(g("點點點a"), Ok((Text::streaming("a"), "點點點")));
}

#[test]
fn partial_take_while_m_n_utf8_fixed() {
    fn parser(i: &str) -> TextResult<'_, &str> {
        take_while(Range::exactly(1), |c: char| c == 'A' || c == '😃')
            .parse_peek(Text::streaming(i))
    }
    assert_eq!(parser("A!"), Ok((Text::streaming("!"), "A")));
    assert_eq!(parser("😃!"), Ok((Text::streaming("!"), "😃")));
}

#[test]
fn partial_take_while_m_n_utf8_range() {
    fn parser(i: &str) -> TextResult<'_, &str> {
        take_while(Range::between(1, 2), |c: char| c == 'A' || c == '😃')
            .parse_peek(Text::streaming(i))
    }
    assert_eq!(parser("A!"), Ok((Text::streaming("!"), "A")));
    assert_eq!(parser("😃!"), Ok((Text::streaming("!"), "😃")));
}

#[test]
fn partial_take_while_m_n_utf8_full_match_fixed() {
    fn parser(i: &str) -> TextResult<'_, &str> {
        take_while(Range::exactly(1), |c: char| c.is_alphabetic())
            .parse_peek(Text::streaming(i))
    }
    assert_eq!(parser("øn"), Ok((Text::streaming("n"), "ø")));
}

#[test]
fn partial_take_while_m_n_utf8_full_match_range() {
    fn parser(i: &str) -> TextResult<'_, &str> {
        take_while(Range::between(1, 2), |c: char| c.is_alphabetic())
            .parse_peek(Text::streaming(i))
    }
    assert_eq!(parser("øn"), Ok((Text::streaming(""), "øn")));
}

#[test]
fn partial_take_take_while0() {
    fn x(i: Bytes<'_>) -> BytesResult<'_, &[u8]> {
        take_while(Range::at_least(0), <u8 as AsChar>::is_alphanum).parse_peek(i)
    }
    fn y(i: Bytes<'_>) -> BytesResult<'_, &[u8]> {
        taken(take_while(Range::at_least(0), <u8 as AsChar>::is_alphanum)).parse_peek(i)
    }
    assert_eq!(x(partial(&b"ab."[..])), Ok((partial(&[46][..]), &[97, 98][..])));
    assert_eq!(y(partial(&b"ab."[..])), Ok((partial(&[46][..]), &[97, 98][..])));
}

#[test]
fn partial_literal_case_insensitive() {
    fn caseless_bytes(i: &[u8]) -> BytesResult<'_, &[u8]> {
        literal::<u8, _>(Caseless("ABcd")).parse_peek(partial(i))
    }
    assert_eq!(
        caseless_bytes(&b"aBCdefgh"[..]),
        Ok((partial(&[101, 102, 103, 104][..]), &[97, 66, 67, 100][..]))
    );
    assert_eq!(
        caseless_bytes(&b"abcdefgh"[..]),
        Ok((partial(&[101, 102, 103, 104][..]), &[97, 98, 99, 100][..]))
    );
    assert_eq!(
        caseless_bytes(&b"ABCDefgh"[..]),
        Ok((partial(&[101, 102, 103, 104][..]), &[65, 66, 67, 68][..]))
    );
    assert_eq!(
        caseless_bytes(&b"ab"[..]),
        Err(ErrMode::Incomplete(Needed::Size(2)))
    );
    assert_eq!(
        caseless_bytes(&b"Hello"[..]),
        Err(bytes_error(partial(&[72, 101, 108, 108, 111][..]), ErrorKind::Literal))
    );
    assert_eq!(
        caseless_bytes(&b"Hel"[..]),
        Err(bytes_error(partial(&[72, 101, 108][..]), ErrorKind::Literal))
    );

    fn caseless_str(i: &str) -> TextResult<'_, &str> {
        literal::<char, _>(Caseless("ABcd")).parse_peek(Text::streaming(i))
    }
    assert_eq!(caseless_str("aBCdefgh"), Ok((Text::streaming("efgh"), "aBCd")));
    assert_eq!(caseless_str("abcdefgh"), Ok((Text::streaming("efgh"), "abcd")));
    assert_eq!(caseless_str("ABCDefgh"), Ok((Text::streaming("efgh"), "ABCD")));
    assert_eq!(caseless_str("ab"), Err(ErrMode::Incomplete(Needed::Size(2))));
    assert_eq!(
        caseless_str("Hello"),
        Err(text_error(Text::streaming("Hello"), ErrorKind::Literal))
    );
    assert_eq!(
        caseless_str("Hel"),
        Err(text_error(Text::streaming("Hel"), ErrorKind::Literal))
    );

    fn matches_kelvin(i: &str) -> TextResult<'_, &str> {
        literal::<char, _>(Caseless("k")).parse_peek(Text::streaming(i))
    }
    assert_eq!(
        matches_kelvin("K"),
        Err(text_error(Text::streaming("K"), ErrorKind::Literal))
    );

    fn is_kelvin(i: &str) -> TextResult<'_, &str> {
        literal::<char, _>(Caseless("K")).parse_peek(Text::streaming(i))
    }
    assert_eq!(
        is_kelvin("k"),
        Err(text_error(Text::streaming("k"), ErrorKind::Literal))
    );
}

#[test]
fn partial_literal_fixed_size_array() {
    fn test(i: Bytes<'_>) -> BytesResult<'_, &[u8]> {
        const PATTERN: [u8; 1] = [0x42];
        literal::<u8, _>(&PATTERN[..]).parse_peek(i)
    }
    fn test2(i: Bytes<'_>) -> BytesResult<'_, &[u8]> {
        literal::<u8, _>(&[0x42][..]).parse_peek(i)
    }
    let input = partial(&[0x42, 0x00][..]);
    assert_eq!(test(input), Ok((partial(&[0][..]), &[66][..])));
    assert_eq!(test2(input), Ok((partial(&[0][..]), &[66][..])));
}

#[test]
fn rest_on_slices() {
    let input: &[u8] = &b"Hello, world!"[..];
    assert_eq!(
        run_bytes(rest(), whole(input)),
        Ok((
            whole(&[][..]),
            &[72, 101, 108, 108, 111, 44, 32, 119, 111, 114, 108, 100, 33][..]
        ))
    );
}

#[test]
fn rest_on_strs() {
    let input: &str = "Hello, world!";
    assert_eq!(
        run_text(rest(), Text::new(input)),
        Ok((Text::new(""), "Hello, world!"))
    );
}

#[test]
fn rest_len_on_slices() {
    let input: &[u8] = &b"Hello, world!"[..];
    assert_eq!(
        run_bytes(rest_len(), whole(input)),
        Ok((
            whole(&[72, 101, 108, 108, 111, 44, 32, 119, 111, 114, 108, 100, 33][..]),
            13
        ))
    );
}

//! Fixed-width unsigned integers read from a byte input.
use crate::error::{ErrMode, ErrorKind, Needed, PResult, ParserError};
use crate::parser::Parser;
use crate::stream::{Bytes, Cursor, Stream};
use crate::token::{starved, Any};
use vstd::prelude::*;

verus! {

/// The order of the bytes of a number.
#[derive(Clone, Copy, Debug, PartialEq, Eq)]
pub enum Endianness {
    /// The most significant byte first.
    Big,
    /// The least significant byte first.
    Little,
}

/// The number that two bytes stand for.
pub open spec fn u16_of(first: u8, second: u8, endian: Endianness) -> u16 {
    match endian {
        Endianness::Big => (first as u16 * 256 + second as u16) as u16,
        Endianness::Little => (second as u16 * 256 + first as u16) as u16,
    }
}

/// One byte as a number: the parser of any one token.
pub fn u8() -> (p: Any) {
    Any
}

/// A number of two bytes. See [`u16`].
pub struct Uint16 {
    pub endian: Endianness,
}

impl<'a, E: ParserError<Bytes<'a>>> Parser<Bytes<'a>, E> for Uint16 {
    type Output = u16;

    open spec fn inv(&self) -> bool {
        true
    }

    open spec fn parses(&self, start: Bytes<'a>, end: Bytes<'a>, result: PResult<u16, E>) -> bool {
        let bytes = start.tokens();
        if bytes.len() >= 2 {
            end.tokens() == bytes.skip(2) && result == Ok::<u16, ErrMode<E>>(
                u16_of(bytes[0], bytes[1], self.endian),
            )
        } else {
            starved(start, Needed::spec_new((2 - bytes.len()) as nat), ErrorKind::Slice, end, result)
        }
    }

    fn parse_next(&self, input: &mut Bytes<'a>) -> (result: PResult<u16, E>) {
        match input.next_slice(2) {
            Ok(pair) => {
                let first = pair[0] as u16;
                let second = pair[1] as u16;
                match self.endian {
                    Endianness::Big => Ok(first * 256 + second),
                    Endianness::Little => Ok(second * 256 + first),
                }
            },
            Err(needed) => {
                if input.is_partial() {
                    Err(ErrMode::Incomplete(needed))
                } else {
                    Err(ErrMode::from_error_kind(input, ErrorKind::Slice))
                }
            },
        }
    }
}

/// Reads two bytes as a number in the given byte order. Where fewer than two
/// are left, a streaming parse asks for what is missing and a complete parse
/// fails with `ErrorKind::Slice`.
pub fn u16(endian: Endianness) -> (p: Uint16)
    ensures
        p.endian == endian,
{
    Uint16 { endian }
}

} // verus!

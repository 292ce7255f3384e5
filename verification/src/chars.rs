//! Tokens as characters: the code of a token, the character classes, and
//! ASCII case folding.
use vstd::prelude::*;

verus! {

/// Whether `code` is an ASCII letter.
pub open spec fn is_alpha_code(code: u32) -> bool {
    (0x41 <= code <= 0x5A) || (0x61 <= code <= 0x7A)
}

/// Whether `code` is an ASCII decimal digit.
pub open spec fn is_dec_digit_code(code: u32) -> bool {
    0x30 <= code <= 0x39
}

/// Whether `code` is an ASCII hexadecimal digit.
pub open spec fn is_hex_digit_code(code: u32) -> bool {
    (0x30 <= code <= 0x39) || (0x41 <= code <= 0x46) || (0x61 <= code <= 0x66)
}

/// Whether `code` is an ASCII octal digit.
pub open spec fn is_oct_digit_code(code: u32) -> bool {
    0x30 <= code <= 0x37
}

/// Whether `code` is an ASCII letter or decimal digit.
pub open spec fn is_alphanum_code(code: u32) -> bool {
    is_alpha_code(code) || is_dec_digit_code(code)
}

/// Whether `code` is a space or a tab.
pub open spec fn is_space_code(code: u32) -> bool {
    code == 0x20 || code == 0x09
}

/// Whether `code` is a space, a tab, a carriage return or a line feed.
pub open spec fn is_multispace_code(code: u32) -> bool {
    code == 0x20 || code == 0x09 || code == 0x0D || code == 0x0A
}

/// Whether `code` is a line feed.
pub open spec fn is_newline_code(code: u32) -> bool {
    code == 0x0A
}

/// The code with an ASCII capital letter replaced by its small letter. No code
/// outside of ASCII is changed.
pub open spec fn fold_code(code: u32) -> u32 {
    if 0x41 <= code <= 0x5A {
        (code + 0x20) as u32
    } else {
        code
    }
}

/// Folds ASCII case: `A` to `Z` become `a` to `z`, every other code stays.
pub fn fold_ascii(code: u32) -> (folded: u32)
    ensures
        folded == fold_code(code),
{
    if 0x41 <= code && code <= 0x5A {
        code + 0x20
    } else {
        code
    }
}

/// A token that stands for a character: a byte or a codepoint.
pub trait AsChar: Copy {
    /// The number of the character.
    spec fn code(self) -> u32;

    /// Two tokens with one code are one token.
    proof fn lemma_code_injective(a: Self, b: Self)
        requires
            a.code() == b.code(),
        ensures
            a == b,
    ;

    /// The number of the character.
    fn as_u32(self) -> (c: u32)
        ensures
            c == self.code(),
    ;

    /// Whether the token is an ASCII letter.
    fn is_alpha(self) -> (b: bool)
        ensures
            b == is_alpha_code(self.code()),
    {
        let c = self.as_u32();
        (0x41 <= c && c <= 0x5A) || (0x61 <= c && c <= 0x7A)
    }

    /// Whether the token is an ASCII decimal digit.
    fn is_dec_digit(self) -> (b: bool)
        ensures
            b == is_dec_digit_code(self.code()),
    {
        let c = self.as_u32();
        0x30 <= c && c <= 0x39
    }

    /// Whether the token is an ASCII hexadecimal digit.
    fn is_hex_digit(self) -> (b: bool)
        ensures
            b == is_hex_digit_code(self.code()),
    {
        let c = self.as_u32();
        (0x30 <= c && c <= 0x39) || (0x41 <= c && c <= 0x46) || (0x61 <= c && c <= 0x66)
    }

    /// Whether the token is an ASCII octal digit.
    fn is_oct_digit(self) -> (b: bool)
        ensures
            b == is_oct_digit_code(self.code()),
    {
        let c = self.as_u32();
        0x30 <= c && c <= 0x37
    }

    /// Whether the token is an ASCII letter or decimal digit.
    fn is_alphanum(self) -> (b: bool)
        ensures
            b == is_alphanum_code(self.code()),
    {
        let c = self.as_u32();
        (0x41 <= c && c <= 0x5A) || (0x61 <= c && c <= 0x7A) || (0x30 <= c && c <= 0x39)
    }

    /// Whether the token is a space or a tab.
    fn is_space(self) -> (b: bool)
        ensures
            b == is_space_code(self.code()),
    {
        let c = self.as_u32();
        c == 0x20 || c == 0x09
    }

    /// Whether the token is a space, a tab, a carriage return or a line feed.
    fn is_multispace(self) -> (b: bool)
        ensures
            b == is_multispace_code(self.code()),
    {
        let c = self.as_u32();
        c == 0x20 || c == 0x09 || c == 0x0D || c == 0x0A
    }

    /// Whether the token is a line feed.
    fn is_newline(self) -> (b: bool)
        ensures
            b == is_newline_code(self.code()),
    {
        let c = self.as_u32();
        c == 0x0A
    }
}

impl AsChar for u8 {
    open spec fn code(self) -> u32 {
        self as u32
    }

    proof fn lemma_code_injective(a: u8, b: u8) {
    }

    fn as_u32(self) -> (c: u32) {
        self as u32
    }
}

impl AsChar for char {
    open spec fn code(self) -> u32 {
        self as u32
    }

    proof fn lemma_code_injective(a: char, b: char) {
        vstd::utf8::char_u32_cast(a, a as u32);
        vstd::utf8::char_u32_cast(b, b as u32);
    }

    fn as_u32(self) -> (c: u32) {
        self as u32
    }
}

/// The number of bytes that the UTF-8 encoding of `c` takes.
pub fn utf8_width(c: char) -> (w: usize)
    ensures
        w == vstd::utf8::encode_scalar(c as u32).len(),
        1 <= w <= 4,
{
    proof {
        vstd::utf8::char_is_scalar(c);
    }
    let v = c as u32;
    if v < 0x80 {
        1
    } else if v < 0x800 {
        2
    } else if v < 0x10000 {
        3
    } else {
        4
    }
}

} // verus!

//! The error reported when bytes do not encode a platform string.

use std::borrow::Cow;
use vstd::prelude::*;
use vstd::string::StringExecFns;

verus! {

/// Why a byte sequence could not be turned into a platform string.
#[derive(Clone, Copy, Debug, PartialEq, Eq, Structural)]
pub enum EncodingError {
    /// This byte cannot stand where it was found.
    Byte(u8),
    /// A complete unit was read, but the code point it yields is not allowed.
    CodePoint(u32),
    /// The input ended inside a multi-byte unit.
    End(),
}

/// The upper-case hexadecimal digit for a value below sixteen.
pub open spec fn hex_char(value: nat) -> char {
    if value < 10 {
        ('0' as u8 + value) as char
    } else {
        ('A' as u8 + (value - 10)) as char
    }
}

/// The upper-case hexadecimal digits of `value`, with zeros in front up to
/// `width` digits.
pub open spec fn hex_digits(value: nat, width: nat) -> Seq<char>
    decreases value, width,
{
    if value >= 16 || width > 1 {
        let less = if width > 0 {
            (width - 1) as nat
        } else {
            0nat
        };
        hex_digits(value / 16, less).push(hex_char(value % 16))
    } else {
        seq![hex_char(value)]
    }
}

/// The digit for a value below sixteen, as text.
fn hex_digit(value: u32) -> (r: &'static str)
    requires
        value < 16,
    ensures
        r@ == seq![hex_char(value as nat)],
{
    proof {
        reveal_strlit("0");
        reveal_strlit("1");
        reveal_strlit("2");
        reveal_strlit("3");
        reveal_strlit("4");
        reveal_strlit("5");
        reveal_strlit("6");
        reveal_strlit("7");
        reveal_strlit("8");
        reveal_strlit("9");
        reveal_strlit("A");
        reveal_strlit("B");
        reveal_strlit("C");
        reveal_strlit("D");
        reveal_strlit("E");
        reveal_strlit("F");
    }
    let r = if value == 0 {
        "0"
    } else if value == 1 {
        "1"
    } else if value == 2 {
        "2"
    } else if value == 3 {
        "3"
    } else if value == 4 {
        "4"
    } else if value == 5 {
        "5"
    } else if value == 6 {
        "6"
    } else if value == 7 {
        "7"
    } else if value == 8 {
        "8"
    } else if value == 9 {
        "9"
    } else if value == 10 {
        "A"
    } else if value == 11 {
        "B"
    } else if value == 12 {
        "C"
    } else if value == 13 {
        "D"
    } else if value == 14 {
        "E"
    } else {
        "F"
    };
    assert(r@ =~= seq![hex_char(value as nat)]);
    r
}

/// Writes the hexadecimal digits of `value` behind `text`, at least `width`
/// of them.
pub fn push_hex(text: &mut String, value: u32, width: usize)
    ensures
        final(text)@ == old(text)@ + hex_digits(value as nat, width as nat),
    decreases value, width,
{
    if value >= 16 || width > 1 {
        let less = if width > 0 {
            width - 1
        } else {
            0
        };
        push_hex(text, value / 16, less);
    }
    let ghost before = text@;
    text.append(hex_digit(value % 16));
    assert(text@ =~= before + seq![hex_char((value % 16) as nat)]);
    assert(text@ =~= old(text)@ + hex_digits(value as nat, width as nat));
}

impl EncodingError {
    /// Where the error was met, in words.
    pub open spec fn position_text(self) -> Seq<char> {
        match self {
            EncodingError::Byte(byte) => "byte b'\\x"@ + hex_digits(byte as nat, 2) + "'"@,
            EncodingError::CodePoint(code_point) => "code point U+"@ + hex_digits(
                code_point as nat,
                4,
            ),
            EncodingError::End() => "end of string"@,
        }
    }

    /// What is reported to a reader.
    pub open spec fn message_text(self) -> Seq<char> {
        "byte sequence is not representable in the platform encoding; error at "@
            + self.position_text()
    }

    /// Says where the error was met: the byte with two hexadecimal digits,
    /// the code point with four or more, or the end of the string.
    pub fn position(&self) -> (r: Cow<'static, str>)
        ensures
            r@ == self.position_text(),
    {
        match self {
            EncodingError::Byte(byte) => {
                let mut text = String::from_str("byte b'\\x");
                push_hex(&mut text, *byte as u32, 2);
                text.append("'");
                Cow::Owned(text)
            },
            EncodingError::CodePoint(code_point) => {
                let mut text = String::from_str("code point U+");
                push_hex(&mut text, *code_point, 4);
                Cow::Owned(text)
            },
            EncodingError::End() => Cow::Borrowed("end of string"),
        }
    }

    /// The message that describes the error.
    pub fn to_string(&self) -> (r: String)
        ensures
            r@ == self.message_text(),
    {
        let mut text = String::from_str(
            "byte sequence is not representable in the platform encoding; error at ",
        );
        let position = self.position();
        match position {
            Cow::Borrowed(part) => {
                text.append(part);
            },
            Cow::Owned(part) => {
                text.append(part.as_str());
            },
        }
        text
    }
}

} // verus!

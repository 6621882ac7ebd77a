//! Byte- and text-level helpers shared by the codec, the command model and
//! the store, and the error type every stage of the command path reports.
use vstd::prelude::*;

verus! {

use vstd::string::StrSliceExecFns;

/// Everything that can go wrong on the command path, from a malformed frame
/// to a type mismatch in the store.  Every variant but `Incomplete` is
/// surfaced to the client as one error reply; `Incomplete` says only that the
/// buffered bytes end before one whole value does.
#[derive(Debug, Clone, Copy, PartialEq, Eq, Structural)]
pub enum RespError {
    Incomplete,
    UnknownTag,
    ExpectedCrlf,
    BadInteger,
    BadLength,
    ExpectedArray,
    ExpectedBulkString,
    InvalidUtf8,
    UnknownCommand,
    MissingMessage,
    MessageNotBulk,
    MissingKey,
    KeyNotBulk,
    MissingValue,
    ValueNotBulk,
    UnexpectedArgument,
    OptionNotBulk,
    ExpectedInteger,
    DurationOutOfRange,
    ExpectedPx,
    EmptyKey,
    NotStorable,
    WrongType,
}

impl RespError {
    /// The diagnostic line of each error, as the characters of the text.
    pub open spec fn message_view(self) -> Seq<char> {
        match self {
            RespError::Incomplete => "incomplete value"@,
            RespError::UnknownTag => "unknown message tag"@,
            RespError::ExpectedCrlf => "expected <CR> <LF>"@,
            RespError::BadInteger => "invalid integer line"@,
            RespError::BadLength => "invalid length line"@,
            RespError::ExpectedArray => "expected array"@,
            RespError::ExpectedBulkString => "expected bulk string"@,
            RespError::InvalidUtf8 => "invalid utf-8 sequence"@,
            RespError::UnknownCommand => "unknown command"@,
            RespError::MissingMessage => "missing argument message"@,
            RespError::MessageNotBulk => "message is not bulk string"@,
            RespError::MissingKey => "missing argument key"@,
            RespError::KeyNotBulk => "key is not bulk string"@,
            RespError::MissingValue => "missing argument value"@,
            RespError::ValueNotBulk => "value is not bulk string"@,
            RespError::UnexpectedArgument => "unexpected argument"@,
            RespError::OptionNotBulk => "expiry option is not bulk string"@,
            RespError::ExpectedInteger => "expected integer"@,
            RespError::DurationOutOfRange => "expiry duration out of range"@,
            RespError::ExpectedPx => "expected PX"@,
            RespError::EmptyKey => "empty key"@,
            RespError::NotStorable => "value cannot be stored"@,
            RespError::WrongType => "entry is not a bulk string"@,
        }
    }

    /// The diagnostic line of each error, for an error reply.
    pub fn message(&self) -> (r: &'static str)
        ensures
            r@ == self.message_view(),
    {
        match self {
            RespError::Incomplete => "incomplete value",
            RespError::UnknownTag => "unknown message tag",
            RespError::ExpectedCrlf => "expected <CR> <LF>",
            RespError::BadInteger => "invalid integer line",
            RespError::BadLength => "invalid length line",
            RespError::ExpectedArray => "expected array",
            RespError::ExpectedBulkString => "expected bulk string",
            RespError::InvalidUtf8 => "invalid utf-8 sequence",
            RespError::UnknownCommand => "unknown command",
            RespError::MissingMessage => "missing argument message",
            RespError::MessageNotBulk => "message is not bulk string",
            RespError::MissingKey => "missing argument key",
            RespError::KeyNotBulk => "key is not bulk string",
            RespError::MissingValue => "missing argument value",
            RespError::ValueNotBulk => "value is not bulk string",
            RespError::UnexpectedArgument => "unexpected argument",
            RespError::OptionNotBulk => "expiry option is not bulk string",
            RespError::ExpectedInteger => "expected integer",
            RespError::DurationOutOfRange => "expiry duration out of range",
            RespError::ExpectedPx => "expected PX",
            RespError::EmptyKey => "empty key",
            RespError::NotStorable => "value cannot be stored",
            RespError::WrongType => "entry is not a bulk string",
        }
    }
}

/// A character sequence without its one trailing line terminator: a final
/// CR LF pair or a final lone LF is dropped, anything else is kept whole.
pub open spec fn strip_newline_chars(s: Seq<char>) -> Seq<char> {
    if s.len() >= 2 && s[s.len() - 2] == '\r' && s[s.len() - 1] == '\n' {
        s.take(s.len() - 2)
    } else if s.len() >= 1 && s[s.len() - 1] == '\n' {
        s.take(s.len() - 1)
    } else {
        s
    }
}

/// Removes one trailing line terminator from the text: a final CR LF pair,
/// or a final lone LF; text without one is returned unchanged.
pub fn strip_trailing_newline(input: &str) -> (r: &str)
    ensures
        r@ == strip_newline_chars(input@),
{
    let n = input.unicode_len();
    if n >= 2 && input.get_char(n - 2) == '\r' && input.get_char(n - 1) == '\n' {
        let r = input.substring_char(0, n - 2);
        proof {
            assert(r@ =~= strip_newline_chars(input@));
        }
        r
    } else if n >= 1 && input.get_char(n - 1) == '\n' {
        let r = input.substring_char(0, n - 1);
        proof {
            assert(r@ =~= strip_newline_chars(input@));
        }
        r
    } else {
        input
    }
}

/// The characters of a text taken as single bytes; faithful for ASCII text.
pub open spec fn ascii_bytes(s: Seq<char>) -> Seq<u8> {
    s.map_values(|c: char| c as u8)
}

/// The characters of a text as a byte vector, one byte per character;
/// intended for the ASCII texts the protocol itself speaks.
pub fn text_bytes(s: &str) -> (r: Vec<u8>)
    ensures
        r@ == ascii_bytes(s@),
{
    let n = s.unicode_len();
    let mut out: Vec<u8> = Vec::new();
    let mut i: usize = 0;
    while i < n
        invariant
            i <= n,
            n == s@.len(),
            out@ == ascii_bytes(s@.take(i as int)),
        decreases n - i,
    {
        let c = s.get_char(i);
        out.push(c as u8);
        i = i + 1;
        proof {
            assert(s@.take(i as int).map_values(|c: char| c as u8) =~= s@.take(
                i as int - 1,
            ).map_values(|c: char| c as u8) + seq![(s@[i as int - 1]) as u8]);
        }
    }
    proof {
        assert(s@.take(n as int) =~= s@);
    }
    out
}

/// The byte with an ASCII capital letter folded to its small letter; any
/// other byte is itself.
pub open spec fn lower(b: u8) -> u8 {
    if 65 <= b <= 90 {
        (b + 32) as u8
    } else {
        b
    }
}

/// Every byte of the sequence, case-folded by `lower`.
pub open spec fn lower_all(s: Seq<u8>) -> Seq<u8> {
    s.map_values(|b: u8| lower(b))
}

/// A copy of the bytes with every ASCII capital letter folded to its small
/// letter.
pub fn to_ascii_lower(v: &Vec<u8>) -> (r: Vec<u8>)
    ensures
        r@ == lower_all(v@),
{
    let n = v.len();
    let mut out: Vec<u8> = Vec::new();
    let mut i: usize = 0;
    while i < n
        invariant
            i <= n,
            n == v@.len(),
            out@ == lower_all(v@.take(i as int)),
        decreases n - i,
    {
        let b = v[i];
        if 65 <= b && b <= 90 {
            out.push(b + 32);
        } else {
            out.push(b);
        }
        i = i + 1;
        proof {
            assert(v@.take(i as int).map_values(|b: u8| lower(b)) =~= v@.take(
                i as int - 1,
            ).map_values(|b: u8| lower(b)) + seq![lower(v@[i as int - 1])]);
        }
    }
    proof {
        assert(v@.take(n as int) =~= v@);
    }
    out
}

/// Whether two byte vectors hold the same bytes.
pub fn vec_eq(a: &Vec<u8>, b: &Vec<u8>) -> (r: bool)
    ensures
        r == (a@ == b@),
{
    if a.len() != b.len() {
        return false;
    }
    let n = a.len();
    let mut i: usize = 0;
    while i < n
        invariant
            i <= n,
            n == a@.len(),
            n == b@.len(),
            forall|j: int| 0 <= j < i ==> a@[j] == b@[j],
        decreases n - i,
    {
        if a[i] != b[i] {
            return false;
        }
        i = i + 1;
    }
    proof {
        assert(a@ =~= b@);
    }
    true
}

/// Appends every byte of `s` to `out`.
pub fn push_bytes(out: &mut Vec<u8>, s: &Vec<u8>)
    ensures
        final(out)@ == old(out)@ + s@,
{
    let n = s.len();
    let mut i: usize = 0;
    while i < n
        invariant
            i <= n,
            n == s@.len(),
            out@ == old(out)@ + s@.take(i as int),
        decreases n - i,
    {
        out.push(s[i]);
        i = i + 1;
        proof {
            assert(old(out)@ + s@.take(i as int) =~= old(out)@ + s@.take(i as int - 1) + seq![
                s@[i as int - 1],
            ]);
        }
    }
    proof {
        assert(s@.take(n as int) =~= s@);
    }
}

/// The bytes of `input` from index `a` up to index `b`, as a fresh vector.
pub fn copy_range(input: &Vec<u8>, a: usize, b: usize) -> (r: Vec<u8>)
    requires
        a <= b <= input@.len(),
    ensures
        r@ == input@.subrange(a as int, b as int),
{
    let mut out: Vec<u8> = Vec::new();
    let mut i: usize = a;
    while i < b
        invariant
            a <= i <= b <= input@.len(),
            out@ == input@.subrange(a as int, i as int),
        decreases b - i,
    {
        out.push(input[i]);
        i = i + 1;
        proof {
            assert(input@.subrange(a as int, i as int) =~= input@.subrange(a as int, i as int - 1)
                + seq![input@[i as int - 1]]);
        }
    }
    out
}

/// True when the given byte has the form of a UTF-8 continuation byte.
pub open spec fn cont_byte(b: u8) -> bool {
    0x80 <= b <= 0xbf
}

/// The byte sequence is valid UTF-8 from index `i` on: each leading byte
/// announces its width, its continuation bytes follow it within their
/// allowed ranges, and overlong and surrogate encodings are excluded.
pub open spec fn valid_utf8_from(s: Seq<u8>, i: int) -> bool
    decreases s.len() - i,
{
    if i < 0 || i >= s.len() {
        true
    } else {
        let b0 = s[i];
        if b0 < 0x80 {
            valid_utf8_from(s, i + 1)
        } else if 0xc2 <= b0 <= 0xdf {
            i + 2 <= s.len() && cont_byte(s[i + 1]) && valid_utf8_from(s, i + 2)
        } else if b0 == 0xe0 {
            i + 3 <= s.len() && 0xa0 <= s[i + 1] <= 0xbf && cont_byte(s[i + 2]) && valid_utf8_from(
                s,
                i + 3,
            )
        } else if 0xe1 <= b0 <= 0xec || b0 == 0xee || b0 == 0xef {
            i + 3 <= s.len() && cont_byte(s[i + 1]) && cont_byte(s[i + 2]) && valid_utf8_from(
                s,
                i + 3,
            )
        } else if b0 == 0xed {
            i + 3 <= s.len() && 0x80 <= s[i + 1] <= 0x9f && cont_byte(s[i + 2]) && valid_utf8_from(
                s,
                i + 3,
            )
        } else if b0 == 0xf0 {
            i + 4 <= s.len() && 0x90 <= s[i + 1] <= 0xbf && cont_byte(s[i + 2]) && cont_byte(
                s[i + 3],
            ) && valid_utf8_from(s, i + 4)
        } else if 0xf1 <= b0 <= 0xf3 {
            i + 4 <= s.len() && cont_byte(s[i + 1]) && cont_byte(s[i + 2]) && cont_byte(s[i + 3])
                && valid_utf8_from(s, i + 4)
        } else if b0 == 0xf4 {
            i + 4 <= s.len() && 0x80 <= s[i + 1] <= 0x8f && cont_byte(s[i + 2]) && cont_byte(
                s[i + 3],
            ) && valid_utf8_from(s, i + 4)
        } else {
            false
        }
    }
}

/// The whole byte sequence is valid UTF-8.
pub open spec fn is_valid_utf8(s: Seq<u8>) -> bool {
    valid_utf8_from(s, 0)
}

/// Whether the bytes are valid UTF-8, so that they can stand for a text.
pub fn check_utf8(v: &Vec<u8>) -> (r: bool)
    ensures
        r == is_valid_utf8(v@),
{
    let n = v.len();
    let mut i: usize = 0;
    while i < n
        invariant
            i <= n,
            n == v@.len(),
            is_valid_utf8(v@) == valid_utf8_from(v@, i as int),
        decreases n - i,
    {
        let b0 = v[i];
        if b0 < 0x80 {
            i = i + 1;
        } else if 0xc2 <= b0 && b0 <= 0xdf {
            if n - i < 2 || !(0x80 <= v[i + 1] && v[i + 1] <= 0xbf) {
                return false;
            }
            i = i + 2;
        } else if b0 == 0xe0 {
            if n - i < 3 || !(0xa0 <= v[i + 1] && v[i + 1] <= 0xbf) || !(0x80 <= v[i + 2] && v[i
                + 2] <= 0xbf) {
                return false;
            }
            i = i + 3;
        } else if (0xe1 <= b0 && b0 <= 0xec) || b0 == 0xee || b0 == 0xef {
            if n - i < 3 || !(0x80 <= v[i + 1] && v[i + 1] <= 0xbf) || !(0x80 <= v[i + 2] && v[i
                + 2] <= 0xbf) {
                return false;
            }
            i = i + 3;
        } else if b0 == 0xed {
            if n - i < 3 || !(0x80 <= v[i + 1] && v[i + 1] <= 0x9f) || !(0x80 <= v[i + 2] && v[i
                + 2] <= 0xbf) {
                return false;
            }
            i = i + 3;
        } else if b0 == 0xf0 {
            if n - i < 4 || !(0x90 <= v[i + 1] && v[i + 1] <= 0xbf) || !(0x80 <= v[i + 2] && v[i
                + 2] <= 0xbf) || !(0x80 <= v[i + 3] && v[i + 3] <= 0xbf) {
                return false;
            }
            i = i + 4;
        } else if 0xf1 <= b0 && b0 <= 0xf3 {
            if n - i < 4 || !(0x80 <= v[i + 1] && v[i + 1] <= 0xbf) || !(0x80 <= v[i + 2] && v[i
                + 2] <= 0xbf) || !(0x80 <= v[i + 3] && v[i + 3] <= 0xbf) {
                return false;
            }
            i = i + 4;
        } else if b0 == 0xf4 {
            if n - i < 4 || !(0x80 <= v[i + 1] && v[i + 1] <= 0x8f) || !(0x80 <= v[i + 2] && v[i
                + 2] <= 0xbf) || !(0x80 <= v[i + 3] && v[i + 3] <= 0xbf) {
                return false;
            }
            i = i + 4;
        } else {
            return false;
        }
    }
    true
}

} // verus!

//! What the bytes of a stream mean: positional integers, byte spans and text.
//!
//! Everything here is specification. A stream is a `Seq<u8>`, a place in it
//! an `int`; a field that may be missing is described by a `Result` holding
//! the field's value and the place just behind it.

use crate::ea::file_buffer::{Endian, ReadError};
use vstd::prelude::*;
use vstd::utf8::{decode_utf8, valid_utf8};

verus! {

/// What stands at a place in a stream: the value of the field or record
/// there and the place just behind it, or why it cannot be read.
pub type Field<T> = Result<(T, int), ReadError>;

/// How many bytes of `s` lie at or behind `pos`.
pub open spec fn available(s: Seq<u8>, pos: int) -> int {
    if 0 <= pos <= s.len() {
        s.len() - pos
    } else {
        0
    }
}

/// The `n` bytes of `s` that start at `pos`.
pub open spec fn span(s: Seq<u8>, pos: int, n: nat) -> Seq<u8> {
    Seq::new(n, |i: int| s[pos + i])
}

/// 256 to the power `width`: the number of values that `width` bytes can hold.
pub open spec fn radix(width: nat) -> nat
    decreases width,
{
    if width == 0 {
        1
    } else {
        256 * radix((width - 1) as nat)
    }
}

/// The number written in the `width` bytes from `pos`, least significant byte first.
pub open spec fn le_value(s: Seq<u8>, pos: int, width: nat) -> nat
    decreases width,
{
    if width == 0 {
        0
    } else {
        s[pos] as nat + 256 * le_value(s, pos + 1, (width - 1) as nat)
    }
}

/// The number written in the `width` bytes from `pos`, most significant byte first.
pub open spec fn be_value(s: Seq<u8>, pos: int, width: nat) -> nat
    decreases width,
{
    if width == 0 {
        0
    } else {
        256 * be_value(s, pos, (width - 1) as nat) + s[pos + width - 1] as nat
    }
}

/// The unsigned number written in the `width` bytes from `pos`.
pub open spec fn uint_at(s: Seq<u8>, pos: int, width: nat, endian: Endian) -> nat {
    match endian {
        Endian::Little => le_value(s, pos, width),
        Endian::Big => be_value(s, pos, width),
    }
}

/// The two's complement reading of an unsigned number of `width` bytes.
pub open spec fn signed(v: nat, width: nat) -> int {
    if 2 * v >= radix(width) {
        v - radix(width)
    } else {
        v as int
    }
}

/// The signed number written in the `width` bytes from `pos`.
pub open spec fn int_at(s: Seq<u8>, pos: int, width: nat, endian: Endian) -> int {
    signed(uint_at(s, pos, width, endian), width)
}

/// A field of `width` bytes at `pos`: its unsigned value and the place behind it.
pub open spec fn take_uint(s: Seq<u8>, pos: int, width: nat, endian: Endian) -> Field<nat> {
    if width > available(s, pos) {
        Err(ReadError::UnexpectedEnd)
    } else {
        Ok((uint_at(s, pos, width, endian), pos + width))
    }
}

/// A field of `width` bytes at `pos`: its signed value and the place behind it.
pub open spec fn take_int(s: Seq<u8>, pos: int, width: nat, endian: Endian) -> Field<int> {
    if width > available(s, pos) {
        Err(ReadError::UnexpectedEnd)
    } else {
        Ok((int_at(s, pos, width, endian), pos + width))
    }
}

/// An unsigned 8-bit field.
pub open spec fn take_u8(s: Seq<u8>, pos: int) -> Field<u8> {
    match take_uint(s, pos, 1, Endian::Little) {
        Ok((v, end)) => Ok((v as u8, end)),
        Err(e) => Err(e),
    }
}

/// An unsigned 16-bit field.
pub open spec fn take_u16(s: Seq<u8>, pos: int, endian: Endian) -> Field<u16> {
    match take_uint(s, pos, 2, endian) {
        Ok((v, end)) => Ok((v as u16, end)),
        Err(e) => Err(e),
    }
}

/// An unsigned 32-bit field.
pub open spec fn take_u32(s: Seq<u8>, pos: int, endian: Endian) -> Field<u32> {
    match take_uint(s, pos, 4, endian) {
        Ok((v, end)) => Ok((v as u32, end)),
        Err(e) => Err(e),
    }
}

/// An unsigned 64-bit field.
pub open spec fn take_u64(s: Seq<u8>, pos: int, endian: Endian) -> Field<u64> {
    match take_uint(s, pos, 8, endian) {
        Ok((v, end)) => Ok((v as u64, end)),
        Err(e) => Err(e),
    }
}

/// A signed 8-bit field.
pub open spec fn take_i8(s: Seq<u8>, pos: int) -> Field<i8> {
    match take_int(s, pos, 1, Endian::Little) {
        Ok((v, end)) => Ok((v as i8, end)),
        Err(e) => Err(e),
    }
}

/// A signed 16-bit field.
pub open spec fn take_i16(s: Seq<u8>, pos: int, endian: Endian) -> Field<i16> {
    match take_int(s, pos, 2, endian) {
        Ok((v, end)) => Ok((v as i16, end)),
        Err(e) => Err(e),
    }
}

/// A signed 32-bit field.
pub open spec fn take_i32(s: Seq<u8>, pos: int, endian: Endian) -> Field<i32> {
    match take_int(s, pos, 4, endian) {
        Ok((v, end)) => Ok((v as i32, end)),
        Err(e) => Err(e),
    }
}

/// A signed 64-bit field.
pub open spec fn take_i64(s: Seq<u8>, pos: int, endian: Endian) -> Field<i64> {
    match take_int(s, pos, 8, endian) {
        Ok((v, end)) => Ok((v as i64, end)),
        Err(e) => Err(e),
    }
}

/// `n` raw bytes at `pos` and the place behind them.
pub open spec fn take_bytes(s: Seq<u8>, pos: int, n: nat) -> Field<Seq<u8>> {
    if n > available(s, pos) {
        Err(ReadError::UnexpectedEnd)
    } else {
        Ok((span(s, pos, n), pos + n))
    }
}

/// `b` without the zero bytes at its end.
pub open spec fn trim_nul(b: Seq<u8>) -> Seq<u8>
    decreases b.len(),
{
    if b.len() > 0 && b.last() == 0 {
        trim_nul(b.drop_last())
    } else {
        b
    }
}

/// A text field of `n` bytes at `pos`: NUL padding at its end is dropped and
/// the rest is read as UTF-8.
pub open spec fn take_text(s: Seq<u8>, pos: int, n: nat) -> Field<Seq<char>> {
    if n > available(s, pos) {
        Err(ReadError::UnexpectedEnd)
    } else if !valid_utf8(trim_nul(span(s, pos, n))) {
        Err(ReadError::InvalidUtf8)
    } else {
        Ok((decode_utf8(trim_nul(span(s, pos, n))), pos + n))
    }
}

/// The length that a one-byte length prefix stands for: 255 is reserved and
/// counts as an empty text.
pub open spec fn short_text_len(prefix: nat) -> nat {
    if prefix > 254 {
        0
    } else {
        prefix
    }
}

/// A text field behind a one-byte length prefix.
pub open spec fn take_text_8(s: Seq<u8>, pos: int) -> Field<Seq<char>> {
    if 1 > available(s, pos) {
        Err(ReadError::UnexpectedEnd)
    } else {
        take_text(s, pos + 1, short_text_len(s[pos] as nat))
    }
}

/// A text field behind a length prefix of `width` bytes.
pub open spec fn take_text_sized(
    s: Seq<u8>,
    pos: int,
    width: nat,
    endian: Endian,
) -> Field<Seq<char>> {
    if width > available(s, pos) {
        Err(ReadError::UnexpectedEnd)
    } else {
        take_text(s, pos + width, uint_at(s, pos, width, endian))
    }
}

/// What a read hands to its caller: the field's value, or the error.
pub open spec fn value_of<T>(field: Field<T>) -> Result<T, ReadError> {
    match field {
        Ok((v, _)) => Ok(v),
        Err(e) => Err(e),
    }
}

/// A number of `width` bytes is below `radix(width)`.
pub proof fn lemma_uint_bound(s: Seq<u8>, pos: int, width: nat, endian: Endian)
    ensures
        uint_at(s, pos, width, endian) < radix(width),
    decreases width,
{
    if width > 0 {
        lemma_uint_bound(s, pos, (width - 1) as nat, endian);
        lemma_uint_bound(s, pos + 1, (width - 1) as nat, endian);
    }
}

/// More bytes hold more values.
pub proof fn lemma_radix_grows(narrow: nat, wide: nat)
    requires
        narrow <= wide,
    ensures
        0 < radix(narrow) <= radix(wide),
    decreases wide,
{
    if wide == 0 {
    } else if narrow < wide {
        lemma_radix_grows(narrow, (wide - 1) as nat);
    } else {
        lemma_radix_grows((narrow - 1) as nat, (wide - 1) as nat);
    }
}

/// The values of `radix` for the widths that the formats use.
pub proof fn lemma_radix_values()
    ensures
        radix(0) == 1,
        radix(1) == 0x100,
        radix(2) == 0x1_0000,
        radix(4) == 0x1_0000_0000,
        radix(8) == 0x1_0000_0000_0000_0000,
{
    reveal_with_fuel(radix, 9);
}

} // verus!

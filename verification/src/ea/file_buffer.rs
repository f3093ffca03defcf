//! A cursor over the bytes of one file.

use crate::ea::wire::{
    available, be_value, le_value, lemma_radix_grows, lemma_radix_values, lemma_uint_bound, radix,
    span, take_bytes, take_i16, take_i32, take_i64, take_i8, take_int, take_text, take_text_8,
    take_text_sized, take_u16, take_u32, take_u64, take_u8, take_uint, trim_nul, value_of, Field,
};
use vstd::prelude::*;
use vstd::utf8::{decode_utf8, valid_utf8};

verus! {

/// The byte order of the multi-byte numbers in a file.
#[derive(Debug, Clone, Copy, PartialEq, Eq, Structural)]
pub enum Endian {
    Little,
    Big,
}

/// Why a read did not give a value.
#[derive(Debug, Clone, Copy, PartialEq, Eq, Structural)]
pub enum ReadError {
    /// The field reaches past the last byte of the file.
    UnexpectedEnd,
    /// The bytes of a text field are not UTF-8.
    InvalidUtf8,
    /// The file could not be opened or read. No function of this crate
    /// returns it: it is there for the code that fetches the bytes.
    IoFailure,
}

/// The bytes that a read returned, or its error.
pub open spec fn bytes_of(r: Result<Vec<u8>, ReadError>) -> Result<Seq<u8>, ReadError> {
    match r {
        Ok(bytes) => Ok(bytes@),
        Err(e) => Err(e),
    }
}

/// The characters that a read returned, or its error.
pub open spec fn text_of(r: Result<String, ReadError>) -> Result<Seq<char>, ReadError> {
    match r {
        Ok(text) => Ok(text@),
        Err(e) => Err(e),
    }
}

/// `String::from_utf8` of std: `Some` exactly when `bytes` is well-formed
/// UTF-8, and then the text that the bytes encode.
#[verifier::external_body]
fn decode_text(bytes: Vec<u8>) -> (text: Option<String>)
    ensures
        text is Some <==> valid_utf8(bytes@),
        text matches Some(t) ==> t@ == decode_utf8(bytes@),
{
    match String::from_utf8(bytes) {
        Ok(t) => Some(t),
        Err(_) => None,
    }
}

/// A character that parts the directories of a path.
pub open spec fn is_separator(c: char) -> bool {
    c == '/' || c == '\\'
}

/// The place in `path` where the file's name begins: behind the last
/// separator, or at the start where there is none.
pub open spec fn file_name_start(path: Seq<char>) -> int
    decreases path.len(),
{
    if path.len() == 0 {
        0
    } else if is_separator(path.last()) {
        path.len() as int
    } else {
        file_name_start(path.drop_last())
    }
}

/// The place of the first dot of `path` at or behind `from`, or the end of
/// the path where there is none.
pub open spec fn first_dot(path: Seq<char>, from: int) -> int
    decreases path.len() - from,
{
    if from >= path.len() {
        path.len() as int
    } else if path[from] == '.' {
        from
    } else {
        first_dot(path, from + 1)
    }
}

/// `path` with a slash in place of each backslash.
pub open spec fn with_slashes(path: Seq<char>) -> Seq<char> {
    Seq::new(
        path.len(),
        |i: int|
            if path[i] == '\\' {
                '/'
            } else {
                path[i]
            },
    )
}

/// The directory part of `path`, written with slashes: everything up to
/// and with the last separator.
pub open spec fn path_folder(path: Seq<char>) -> Seq<char> {
    with_slashes(path).take(file_name_start(path))
}

/// The name of the file of `path` without its extensions: what stands
/// between the last separator and the first dot behind it.
pub open spec fn path_name(path: Seq<char>) -> Seq<char> {
    path.subrange(file_name_start(path), first_dot(path, file_name_start(path)))
}

/// The bytes of one file and the place of the next read.
#[derive(Debug)]
pub struct FileBuffer {
    /// The directory part of the file's path, with its last separator.
    pub folder: String,
    /// The file's name without directory and extension.
    pub name: String,
    /// The file's contents.
    pub data: Vec<u8>,
    /// The index in `data` of the next byte to read.
    pub read_offset: usize,
    /// The byte order that the unsuffixed reads use.
    pub endian: Endian,
}

impl FileBuffer {
    /// `self` is `before` with its offset at `pos`: nothing else differs.
    pub open spec fn is_at(self, before: FileBuffer, pos: int) -> bool {
        &&& self.read_offset == pos
        &&& self.data == before.data
        &&& self.endian == before.endian
        &&& self.name == before.name
        &&& self.folder == before.folder
    }

    /// `self` is `before` after a read of `field`: behind the field if it is
    /// there, untouched if it is not.
    pub open spec fn follows<T>(self, before: FileBuffer, field: Field<T>) -> bool {
        match field {
            Ok((_, end)) => self.is_at(before, end),
            Err(_) => self == before,
        }
    }

    /// A cursor at the start of the little-endian file `path` with the
    /// contents `data`.
    pub fn new(path: String, data: Vec<u8>) -> (file: FileBuffer)
        ensures
            file.folder@ == path_folder(path@),
            file.name@ == path_name(path@),
            file.data == data,
            file.read_offset == 0,
            file.endian == Endian::Little,
    {
        Self::with_endian(path, data, Endian::Little)
    }

    /// A cursor at the start of the file `path` with the contents `data`,
    /// whose numbers have the byte order `endian`. The path may be written
    /// with slashes or backslashes.
    pub fn with_endian(path: String, data: Vec<u8>, endian: Endian) -> (file: FileBuffer)
        ensures
            file.folder@ == path_folder(path@),
            file.name@ == path_name(path@),
            file.data == data,
            file.read_offset == 0,
            file.endian == endian,
    {
        let text: &str = path.as_str();
        let n: usize = text.unicode_len();
        let start: usize = Self::name_start(text, n);
        let end: usize = Self::dot_from(text, n, start);
        let folder: String = Self::slashed_prefix(text, start);
        let name: String = text.substring_char(start, end).to_owned();
        FileBuffer { folder, name, data, read_offset: 0, endian }
    }

    /// The place where the file's name begins in a path of `n` characters.
    fn name_start(path: &str, n: usize) -> (start: usize)
        requires
            n == path@.len(),
        ensures
            start == file_name_start(path@),
            start <= n,
    {
        let mut start: usize = 0;
        let mut i: usize = 0;
        while i < n
            invariant
                i <= n,
                n == path@.len(),
                start <= i,
                start == file_name_start(path@.take(i as int)),
            decreases n - i,
        {
            let c: char = path.get_char(i);
            proof {
                assert(path@.take(i + 1).drop_last() =~= path@.take(i as int));
                assert(path@.take(i + 1).last() == c);
            }
            if c == '/' || c == '\\' {
                start = i + 1;
            }
            i = i + 1;
        }
        assert(path@.take(n as int) =~= path@);
        start
    }

    /// The place of the first dot at or behind `from` in a path of `n`
    /// characters.
    fn dot_from(path: &str, n: usize, from: usize) -> (end: usize)
        requires
            n == path@.len(),
            from <= n,
        ensures
            end == first_dot(path@, from as int),
            from <= end <= n,
    {
        let mut end: usize = from;
        while end < n && path.get_char(end) != '.'
            invariant
                from <= end <= n,
                n == path@.len(),
                first_dot(path@, end as int) == first_dot(path@, from as int),
            decreases n - end,
        {
            end = end + 1;
        }
        end
    }

    /// The first `len` characters of a path, with a slash in place of each
    /// backslash.
    fn slashed_prefix(path: &str, len: usize) -> (prefix: String)
        requires
            len <= path@.len(),
        ensures
            prefix@ == with_slashes(path@).take(len as int),
    {
        let mut prefix: String = String::new();
        let mut piece: usize = 0;
        let mut i: usize = 0;
        proof {
            reveal_strlit("/");
        }
        while i < len
            invariant
                piece <= i <= len <= path@.len(),
                "/"@ == seq!['/'],
                forall|j: int| piece <= j < i ==> path@[j] != '\\',
                prefix@ == with_slashes(path@).take(piece as int),
            decreases len - i,
        {
            if path.get_char(i) == '\\' {
                prefix.append(path.substring_char(piece, i));
                prefix.append("/");
                assert(prefix@ =~= with_slashes(path@).take(i + 1));
                piece = i + 1;
            }
            i = i + 1;
        }
        prefix.append(path.substring_char(piece, len));
        assert(prefix@ =~= with_slashes(path@).take(len as int));
        prefix
    }

    /// The number of bytes between the offset and the end of the file.
    pub fn remaining(&self) -> (n: usize)
        ensures
            n == available(self.data@, self.read_offset as int),
            self.read_offset + n <= usize::MAX,
    {
        if self.read_offset <= self.data.len() {
            self.data.len() - self.read_offset
        } else {
            0
        }
    }

    /// The offset as a 64-bit number.
    pub fn get_real_offset(&self) -> (offset: u64)
        ensures
            offset == self.read_offset,
    {
        self.read_offset as u64
    }

    /// Moves the offset forward over `bytes` bytes, which must still be there.
    pub fn skip(&mut self, bytes: usize) -> (r: Result<(), ReadError>)
        ensures
            match r {
                Ok(_) => bytes <= available(old(self).data@, old(self).read_offset as int)
                    && final(self).is_at(*old(self), old(self).read_offset + bytes),
                Err(e) => e == ReadError::UnexpectedEnd && bytes > available(
                    old(self).data@,
                    old(self).read_offset as int,
                ) && *final(self) == *old(self),
            },
    {
        if bytes > self.remaining() {
            return Err(ReadError::UnexpectedEnd);
        }
        self.read_offset = self.read_offset + bytes;
        Ok(())
    }

    /// Puts the offset at `offset`, which may lie anywhere, also behind the
    /// end of the file: from there only empty reads succeed.
    pub fn seek(&mut self, offset: usize)
        ensures
            final(self).is_at(*old(self), offset as int),
    {
        self.read_offset = offset;
    }

    /// Reads an unsigned number of `width` bytes in the given byte order.
    fn read_uint(&mut self, width: usize, endian: Endian) -> (r: Result<u64, ReadError>)
        requires
            width <= 8,
        ensures
            final(self).follows(
                *old(self),
                take_uint(old(self).data@, old(self).read_offset as int, width as nat, endian),
            ),
            match take_uint(old(self).data@, old(self).read_offset as int, width as nat, endian) {
                Ok((v, _)) => r == Ok::<u64, ReadError>(v as u64) && v < radix(width as nat),
                Err(e) => r == Err::<u64, ReadError>(e),
            },
    {
        if width > self.remaining() {
            return Err(ReadError::UnexpectedEnd);
        }
        let start: usize = self.read_offset;
        let mut acc: u64 = 0;
        let mut i: usize = 0;
        while i < width
            invariant
                i <= width <= 8,
                width == 0 || start + width <= self.data.len(),
                start + width <= usize::MAX,
                acc < radix(i as nat),
                endian == Endian::Little ==> acc == le_value(
                    self.data@,
                    start + width - i,
                    i as nat,
                ),
                endian == Endian::Big ==> acc == be_value(self.data@, start as int, i as nat),
            decreases width - i,
        {
            let byte: u8 = match endian {
                Endian::Little => self.data[start + width - 1 - i],
                Endian::Big => self.data[start + i],
            };
            proof {
                lemma_radix_grows((i + 1) as nat, 8);
                lemma_radix_values();
            }
            acc = acc * 256 + byte as u64;
            i = i + 1;
        }
        proof {
            lemma_uint_bound(self.data@, start as int, width as nat, endian);
        }
        self.read_offset = start + width;
        Ok(acc)
    }

    /// Reads a signed number of `width` bytes in the given byte order.
    fn read_int(&mut self, width: usize, endian: Endian) -> (r: Result<i64, ReadError>)
        requires
            1 <= width <= 8,
        ensures
            final(self).follows(
                *old(self),
                take_int(old(self).data@, old(self).read_offset as int, width as nat, endian),
            ),
            match take_int(old(self).data@, old(self).read_offset as int, width as nat, endian) {
                Ok((v, _)) => r == Ok::<i64, ReadError>(v as i64) && -(radix(width as nat) as int)
                    <= 2 * v < radix(width as nat),
                Err(e) => r == Err::<i64, ReadError>(e),
            },
    {
        proof {
            lemma_radix_values();
            lemma_radix_grows(width as nat, 8);
            lemma_radix_grows(1, width as nat);
        }
        match self.read_uint(width, endian) {
            Err(e) => Err(e),
            Ok(v) => {
                let half: u64 = if width == 8 {
                    0x8000_0000_0000_0000
                } else {
                    Self::half_range(width)
                };
                if v >= half {
                    // v - 2 * half, computed without leaving the 64-bit range
                    let above: i64 = (v - half) as i64;
                    Ok(above - (half - 1) as i64 - 1)
                } else {
                    Ok(v as i64)
                }
            },
        }
    }

    /// Half the number of values that `width` bytes can hold.
    fn half_range(width: usize) -> (half: u64)
        requires
            1 <= width < 8,
        ensures
            2 * half == radix(width as nat),
    {
        proof {
            reveal_with_fuel(radix, 9);
        }
        let mut half: u64 = 128;
        let mut i: usize = 1;
        while i < width
            invariant
                1 <= i <= width < 8,
                2 * half == radix(i as nat),
            decreases width - i,
        {
            proof {
                lemma_radix_grows((i + 1) as nat, 7);
                reveal_with_fuel(radix, 9);
            }
            half = half * 256;
            i = i + 1;
        }
        half
    }

    /// Reads one byte.
    pub fn read_uint_8(&mut self) -> (r: Result<u8, ReadError>)
        ensures
            r == value_of(take_u8(old(self).data@, old(self).read_offset as int)),
            final(self).follows(*old(self), take_u8(old(self).data@, old(self).read_offset as int)),
    {
        proof {
            lemma_radix_values();
        }
        match self.read_uint(1, Endian::Little) {
            Ok(v) => Ok(v as u8),
            Err(e) => Err(e),
        }
    }

    /// Reads an unsigned 16-bit number, in the cursor's byte order.
    pub fn read_uint_16(&mut self) -> (r: Result<u16, ReadError>)
        ensures
            r == value_of(
                take_u16(old(self).data@, old(self).read_offset as int, old(self).endian),
            ),
            final(self).follows(
                *old(self),
                take_u16(old(self).data@, old(self).read_offset as int, old(self).endian),
            ),
    {
        proof {
            lemma_radix_values();
        }
        let endian: Endian = self.endian;
        match self.read_uint(2, endian) {
            Ok(v) => Ok(v as u16),
            Err(e) => Err(e),
        }
    }

    /// Reads an unsigned 16-bit number, least significant byte first.
    pub fn read_uint_16_le(&mut self) -> (r: Result<u16, ReadError>)
        ensures
            r == value_of(take_u16(old(self).data@, old(self).read_offset as int, Endian::Little)),
            final(self).follows(
                *old(self),
                take_u16(old(self).data@, old(self).read_offset as int, Endian::Little),
            ),
    {
        proof {
            lemma_radix_values();
        }
        let endian: Endian = Endian::Little;
        match self.read_uint(2, endian) {
            Ok(v) => Ok(v as u16),
            Err(e) => Err(e),
        }
    }

    /// Reads an unsigned 16-bit number, most significant byte first.
    pub fn read_uint_16_be(&mut self) -> (r: Result<u16, ReadError>)
        ensures
            r == value_of(take_u16(old(self).data@, old(self).read_offset as int, Endian::Big)),
            final(self).follows(
                *old(self),
                take_u16(old(self).data@, old(self).read_offset as int, Endian::Big),
            ),
    {
        proof {
            lemma_radix_values();
        }
        let endian: Endian = Endian::Big;
        match self.read_uint(2, endian) {
            Ok(v) => Ok(v as u16),
            Err(e) => Err(e),
        }
    }

    /// Reads an unsigned 32-bit number, in the cursor's byte order.
    pub fn read_uint_32(&mut self) -> (r: Result<u32, ReadError>)
        ensures
            r == value_of(
                take_u32(old(self).data@, old(self).read_offset as int, old(self).endian),
            ),
            final(self).follows(
                *old(self),
                take_u32(old(self).data@, old(self).read_offset as int, old(self).endian),
            ),
    {
        proof {
            lemma_radix_values();
        }
        let endian: Endian = self.endian;
        match self.read_uint(4, endian) {
            Ok(v) => Ok(v as u32),
            Err(e) => Err(e),
        }
    }

    /// Reads an unsigned 32-bit number, least significant byte first.
    pub fn read_uint_32_le(&mut self) -> (r: Result<u32, ReadError>)
        ensures
            r == value_of(take_u32(old(self).data@, old(self).read_offset as int, Endian::Little)),
            final(self).follows(
                *old(self),
                take_u32(old(self).data@, old(self).read_offset as int, Endian::Little),
            ),
    {
        proof {
            lemma_radix_values();
        }
        let endian: Endian = Endian::Little;
        match self.read_uint(4, endian) {
            Ok(v) => Ok(v as u32),
            Err(e) => Err(e),
        }
    }

    /// Reads an unsigned 32-bit number, most significant byte first.
    pub fn read_uint_32_be(&mut self) -> (r: Result<u32, ReadError>)
        ensures
            r == value_of(take_u32(old(self).data@, old(self).read_offset as int, Endian::Big)),
            final(self).follows(
                *old(self),
                take_u32(old(self).data@, old(self).read_offset as int, Endian::Big),
            ),
    {
        proof {
            lemma_radix_values();
        }
        let endian: Endian = Endian::Big;
        match self.read_uint(4, endian) {
            Ok(v) => Ok(v as u32),
            Err(e) => Err(e),
        }
    }

    /// Reads an unsigned 64-bit number, in the cursor's byte order.
    pub fn read_uint_64(&mut self) -> (r: Result<u64, ReadError>)
        ensures
            r == value_of(
                take_u64(old(self).data@, old(self).read_offset as int, old(self).endian),
            ),
            final(self).follows(
                *old(self),
                take_u64(old(self).data@, old(self).read_offset as int, old(self).endian),
            ),
    {
        proof {
            lemma_radix_values();
        }
        let endian: Endian = self.endian;
        match self.read_uint(8, endian) {
            Ok(v) => Ok(v as u64),
            Err(e) => Err(e),
        }
    }

    /// Reads an unsigned 64-bit number, least significant byte first.
    pub fn read_uint_64_le(&mut self) -> (r: Result<u64, ReadError>)
        ensures
            r == value_of(take_u64(old(self).data@, old(self).read_offset as int, Endian::Little)),
            final(self).follows(
                *old(self),
                take_u64(old(self).data@, old(self).read_offset as int, Endian::Little),
            ),
    {
        proof {
            lemma_radix_values();
        }
        let endian: Endian = Endian::Little;
        match self.read_uint(8, endian) {
            Ok(v) => Ok(v as u64),
            Err(e) => Err(e),
        }
    }

    /// Reads an unsigned 64-bit number, most significant byte first.
    pub fn read_uint_64_be(&mut self) -> (r: Result<u64, ReadError>)
        ensures
            r == value_of(take_u64(old(self).data@, old(self).read_offset as int, Endian::Big)),
            final(self).follows(
                *old(self),
                take_u64(old(self).data@, old(self).read_offset as int, Endian::Big),
            ),
    {
        proof {
            lemma_radix_values();
        }
        let endian: Endian = Endian::Big;
        match self.read_uint(8, endian) {
            Ok(v) => Ok(v as u64),
            Err(e) => Err(e),
        }
    }

    /// Reads one byte as a signed number in two's complement.
    pub fn read_int_8(&mut self) -> (r: Result<i8, ReadError>)
        ensures
            r == value_of(take_i8(old(self).data@, old(self).read_offset as int)),
            final(self).follows(*old(self), take_i8(old(self).data@, old(self).read_offset as int)),
    {
        proof {
            lemma_radix_values();
        }
        match self.read_int(1, Endian::Little) {
            Ok(v) => Ok(v as i8),
            Err(e) => Err(e),
        }
    }

    /// Reads a signed 16-bit number in two's complement, in the cursor's byte order.
    pub fn read_int_16(&mut self) -> (r: Result<i16, ReadError>)
        ensures
            r == value_of(
                take_i16(old(self).data@, old(self).read_offset as int, old(self).endian),
            ),
            final(self).follows(
                *old(self),
                take_i16(old(self).data@, old(self).read_offset as int, old(self).endian),
            ),
    {
        proof {
            lemma_radix_values();
        }
        let endian: Endian = self.endian;
        match self.read_int(2, endian) {
            Ok(v) => Ok(v as i16),
            Err(e) => Err(e),
        }
    }

    /// Reads a signed 16-bit number in two's complement, least significant byte first.
    pub fn read_int_16_le(&mut self) -> (r: Result<i16, ReadError>)
        ensures
            r == value_of(take_i16(old(self).data@, old(self).read_offset as int, Endian::Little)),
            final(self).follows(
                *old(self),
                take_i16(old(self).data@, old(self).read_offset as int, Endian::Little),
            ),
    {
        proof {
            lemma_radix_values();
        }
        let endian: Endian = Endian::Little;
        match self.read_int(2, endian) {
            Ok(v) => Ok(v as i16),
            Err(e) => Err(e),
        }
    }

    /// Reads a signed 16-bit number in two's complement, most significant byte first.
    pub fn read_int_16_be(&mut self) -> (r: Result<i16, ReadError>)
        ensures
            r == value_of(take_i16(old(self).data@, old(self).read_offset as int, Endian::Big)),
            final(self).follows(
                *old(self),
                take_i16(old(self).data@, old(self).read_offset as int, Endian::Big),
            ),
    {
        proof {
            lemma_radix_values();
        }
        let endian: Endian = Endian::Big;
        match self.read_int(2, endian) {
            Ok(v) => Ok(v as i16),
            Err(e) => Err(e),
        }
    }

    /// Reads a signed 32-bit number in two's complement, in the cursor's byte order.
    pub fn read_int_32(&mut self) -> (r: Result<i32, ReadError>)
        ensures
            r == value_of(
                take_i32(old(self).data@, old(self).read_offset as int, old(self).endian),
            ),
            final(self).follows(
                *old(self),
                take_i32(old(self).data@, old(self).read_offset as int, old(self).endian),
            ),
    {
        proof {
            lemma_radix_values();
        }
        let endian: Endian = self.endian;
        match self.read_int(4, endian) {
            Ok(v) => Ok(v as i32),
            Err(e) => Err(e),
        }
    }

    /// Reads a signed 32-bit number in two's complement, least significant byte first.
    pub fn read_int_32_le(&mut self) -> (r: Result<i32, ReadError>)
        ensures
            r == value_of(take_i32(old(self).data@, old(self).read_offset as int, Endian::Little)),
            final(self).follows(
                *old(self),
                take_i32(old(self).data@, old(self).read_offset as int, Endian::Little),
            ),
    {
        proof {
            lemma_radix_values();
        }
        let endian: Endian = Endian::Little;
        match self.read_int(4, endian) {
            Ok(v) => Ok(v as i32),
            Err(e) => Err(e),
        }
    }

    /// Reads a signed 32-bit number in two's complement, most significant byte first.
    pub fn read_int_32_be(&mut self) -> (r: Result<i32, ReadError>)
        ensures
            r == value_of(take_i32(old(self).data@, old(self).read_offset as int, Endian::Big)),
            final(self).follows(
                *old(self),
                take_i32(old(self).data@, old(self).read_offset as int, Endian::Big),
            ),
    {
        proof {
            lemma_radix_values();
        }
        let endian: Endian = Endian::Big;
        match self.read_int(4, endian) {
            Ok(v) => Ok(v as i32),
            Err(e) => Err(e),
        }
    }

    /// Reads a signed 64-bit number in two's complement, in the cursor's byte order.
    pub fn read_int_64(&mut self) -> (r: Result<i64, ReadError>)
        ensures
            r == value_of(
                take_i64(old(self).data@, old(self).read_offset as int, old(self).endian),
            ),
            final(self).follows(
                *old(self),
                take_i64(old(self).data@, old(self).read_offset as int, old(self).endian),
            ),
    {
        proof {
            lemma_radix_values();
        }
        let endian: Endian = self.endian;
        match self.read_int(8, endian) {
            Ok(v) => Ok(v as i64),
            Err(e) => Err(e),
        }
    }

    /// Reads a signed 64-bit number in two's complement, least significant byte first.
    pub fn read_int_64_le(&mut self) -> (r: Result<i64, ReadError>)
        ensures
            r == value_of(take_i64(old(self).data@, old(self).read_offset as int, Endian::Little)),
            final(self).follows(
                *old(self),
                take_i64(old(self).data@, old(self).read_offset as int, Endian::Little),
            ),
    {
        proof {
            lemma_radix_values();
        }
        let endian: Endian = Endian::Little;
        match self.read_int(8, endian) {
            Ok(v) => Ok(v as i64),
            Err(e) => Err(e),
        }
    }

    /// Reads a signed 64-bit number in two's complement, most significant byte first.
    pub fn read_int_64_be(&mut self) -> (r: Result<i64, ReadError>)
        ensures
            r == value_of(take_i64(old(self).data@, old(self).read_offset as int, Endian::Big)),
            final(self).follows(
                *old(self),
                take_i64(old(self).data@, old(self).read_offset as int, Endian::Big),
            ),
    {
        proof {
            lemma_radix_values();
        }
        let endian: Endian = Endian::Big;
        match self.read_int(8, endian) {
            Ok(v) => Ok(v as i64),
            Err(e) => Err(e),
        }
    }

    /// Reads the bit pattern of a 32-bit IEEE 754 number, in the cursor's
    /// byte order. `f32::from_bits` turns it into the number.
    pub fn read_float_32(&mut self) -> (r: Result<u32, ReadError>)
        ensures
            r == value_of(
                take_u32(old(self).data@, old(self).read_offset as int, old(self).endian),
            ),
            final(self).follows(
                *old(self),
                take_u32(old(self).data@, old(self).read_offset as int, old(self).endian),
            ),
    {
        self.read_uint_32()
    }

    /// Reads the bit pattern of a 32-bit IEEE 754 number, least significant
    /// byte first.
    pub fn read_float_32_le(&mut self) -> (r: Result<u32, ReadError>)
        ensures
            r == value_of(take_u32(old(self).data@, old(self).read_offset as int, Endian::Little)),
            final(self).follows(
                *old(self),
                take_u32(old(self).data@, old(self).read_offset as int, Endian::Little),
            ),
    {
        self.read_uint_32_le()
    }

    /// Reads the bit pattern of a 32-bit IEEE 754 number, most significant
    /// byte first.
    pub fn read_float_32_be(&mut self) -> (r: Result<u32, ReadError>)
        ensures
            r == value_of(take_u32(old(self).data@, old(self).read_offset as int, Endian::Big)),
            final(self).follows(
                *old(self),
                take_u32(old(self).data@, old(self).read_offset as int, Endian::Big),
            ),
    {
        self.read_uint_32_be()
    }

    /// A copy of the `n` bytes from `start`.
    fn copy_span(&self, start: usize, n: usize) -> (bytes: Vec<u8>)
        requires
            n == 0 || start + n <= self.data.len(),
        ensures
            bytes@ == span(self.data@, start as int, n as nat),
    {
        let mut bytes: Vec<u8> = Vec::new();
        let mut i: usize = 0;
        while i < n
            invariant
                i <= n,
                n == 0 || start + n <= self.data.len(),
                bytes@ == span(self.data@, start as int, i as nat),
            decreases n - i,
        {
            bytes.push(self.data[start + i]);
            i = i + 1;
        }
        bytes
    }

    /// Reads `length` raw bytes.
    pub fn read_buffer(&mut self, length: usize) -> (r: Result<Vec<u8>, ReadError>)
        ensures
            bytes_of(r) == value_of(
                take_bytes(old(self).data@, old(self).read_offset as int, length as nat),
            ),
            final(self).follows(
                *old(self),
                take_bytes(old(self).data@, old(self).read_offset as int, length as nat),
            ),
    {
        if length > self.remaining() {
            return Err(ReadError::UnexpectedEnd);
        }
        let bytes: Vec<u8> = self.copy_span(self.read_offset, length);
        self.read_offset = self.read_offset + length;
        Ok(bytes)
    }

    /// Reads every byte from the offset to the end of the file. Behind the
    /// end there is nothing to read and the offset stays.
    pub fn read_remaining(&mut self) -> (bytes: Vec<u8>)
        ensures
            bytes@ == span(
                old(self).data@,
                old(self).read_offset as int,
                available(old(self).data@, old(self).read_offset as int) as nat,
            ),
            final(self).is_at(
                *old(self),
                old(self).read_offset + available(old(self).data@, old(self).read_offset as int),
            ),
    {
        let n: usize = self.remaining();
        let bytes: Vec<u8> = self.copy_span(self.read_offset, n);
        self.read_offset = self.read_offset + n;
        bytes
    }

    /// The length of the `n` bytes from `start` once the zero bytes at their
    /// end are taken off.
    fn trimmed_len(&self, start: usize, n: usize) -> (m: usize)
        requires
            n == 0 || start + n <= self.data.len(),
        ensures
            m <= n,
            span(self.data@, start as int, m as nat) == trim_nul(
                span(self.data@, start as int, n as nat),
            ),
    {
        let mut m: usize = n;
        while m > 0 && self.data[start + m - 1] == 0
            invariant
                m <= n,
                n == 0 || start + n <= self.data.len(),
                trim_nul(span(self.data@, start as int, m as nat)) == trim_nul(
                    span(self.data@, start as int, n as nat),
                ),
            decreases m,
        {
            assert(span(self.data@, start as int, m as nat).drop_last() == span(
                self.data@,
                start as int,
                (m - 1) as nat,
            ));
            m = m - 1;
        }
        m
    }

    /// Reads a text of `length` bytes: NUL padding at its end is dropped, the
    /// rest must be UTF-8.
    pub fn read_string(&mut self, length: usize) -> (r: Result<String, ReadError>)
        ensures
            text_of(r) == value_of(
                take_text(old(self).data@, old(self).read_offset as int, length as nat),
            ),
            final(self).follows(
                *old(self),
                take_text(old(self).data@, old(self).read_offset as int, length as nat),
            ),
    {
        if length > self.remaining() {
            return Err(ReadError::UnexpectedEnd);
        }
        let kept: usize = self.trimmed_len(self.read_offset, length);
        let bytes: Vec<u8> = self.copy_span(self.read_offset, kept);
        match decode_text(bytes) {
            Some(text) => {
                self.read_offset = self.read_offset + length;
                Ok(text)
            },
            None => Err(ReadError::InvalidUtf8),
        }
    }

    /// Reads a text behind a one-byte length. The length 255 is reserved and
    /// read as an empty text.
    pub fn read_string_8(&mut self) -> (r: Result<String, ReadError>)
        ensures
            text_of(r) == value_of(take_text_8(old(self).data@, old(self).read_offset as int)),
            final(self).follows(
                *old(self),
                take_text_8(old(self).data@, old(self).read_offset as int),
            ),
    {
        let start: usize = self.read_offset;
        proof {
            reveal_with_fuel(le_value, 2);
        }
        match self.read_uint_8() {
            Err(e) => Err(e),
            Ok(prefix) => {
                let length: usize = if prefix > 254 {
                    0
                } else {
                    prefix as usize
                };
                assert(prefix == old(self).data@[start as int]);
                match self.read_string(length) {
                    Ok(text) => Ok(text),
                    Err(e) => {
                        self.read_offset = start;
                        Err(e)
                    },
                }
            },
        }
    }

    /// Reads a text behind a 16-bit length, in the cursor's byte order.
    pub fn read_string_16(&mut self) -> (r: Result<String, ReadError>)
        ensures
            text_of(r) == value_of(
                take_text_sized(old(self).data@, old(self).read_offset as int, 2, old(self).endian),
            ),
            final(self).follows(
                *old(self),
                take_text_sized(old(self).data@, old(self).read_offset as int, 2, old(self).endian),
            ),
    {
        let start: usize = self.read_offset;
        let endian: Endian = self.endian;
        proof {
            lemma_radix_values();
        }
        match self.read_uint(2, endian) {
            Err(e) => Err(e),
            Ok(length) => {
                assert(length < 0x1_0000_0000);
                match self.read_string(length as usize) {
                    Ok(text) => Ok(text),
                    Err(e) => {
                        self.read_offset = start;
                        Err(e)
                    },
                }
            },
        }
    }

    /// Reads a text behind a 16-bit length, least significant byte first.
    pub fn read_string_16_le(&mut self) -> (r: Result<String, ReadError>)
        ensures
            text_of(r) == value_of(
                take_text_sized(old(self).data@, old(self).read_offset as int, 2, Endian::Little),
            ),
            final(self).follows(
                *old(self),
                take_text_sized(old(self).data@, old(self).read_offset as int, 2, Endian::Little),
            ),
    {
        let start: usize = self.read_offset;
        let endian: Endian = Endian::Little;
        proof {
            lemma_radix_values();
        }
        match self.read_uint(2, endian) {
            Err(e) => Err(e),
            Ok(length) => {
                assert(length < 0x1_0000_0000);
                match self.read_string(length as usize) {
                    Ok(text) => Ok(text),
                    Err(e) => {
                        self.read_offset = start;
                        Err(e)
                    },
                }
            },
        }
    }

    /// Reads a text behind a 16-bit length, most significant byte first.
    pub fn read_string_16_be(&mut self) -> (r: Result<String, ReadError>)
        ensures
            text_of(r) == value_of(
                take_text_sized(old(self).data@, old(self).read_offset as int, 2, Endian::Big),
            ),
            final(self).follows(
                *old(self),
                take_text_sized(old(self).data@, old(self).read_offset as int, 2, Endian::Big),
            ),
    {
        let start: usize = self.read_offset;
        let endian: Endian = Endian::Big;
        proof {
            lemma_radix_values();
        }
        match self.read_uint(2, endian) {
            Err(e) => Err(e),
            Ok(length) => {
                assert(length < 0x1_0000_0000);
                match self.read_string(length as usize) {
                    Ok(text) => Ok(text),
                    Err(e) => {
                        self.read_offset = start;
                        Err(e)
                    },
                }
            },
        }
    }

    /// Reads a text behind a 32-bit length, in the cursor's byte order.
    pub fn read_string_32(&mut self) -> (r: Result<String, ReadError>)
        ensures
            text_of(r) == value_of(
                take_text_sized(old(self).data@, old(self).read_offset as int, 4, old(self).endian),
            ),
            final(self).follows(
                *old(self),
                take_text_sized(old(self).data@, old(self).read_offset as int, 4, old(self).endian),
            ),
    {
        let start: usize = self.read_offset;
        let endian: Endian = self.endian;
        proof {
            lemma_radix_values();
        }
        match self.read_uint(4, endian) {
            Err(e) => Err(e),
            Ok(length) => {
                assert(length < 0x1_0000_0000);
                match self.read_string(length as usize) {
                    Ok(text) => Ok(text),
                    Err(e) => {
                        self.read_offset = start;
                        Err(e)
                    },
                }
            },
        }
    }

    /// Reads a text behind a 32-bit length, least significant byte first.
    pub fn read_string_32_le(&mut self) -> (r: Result<String, ReadError>)
        ensures
            text_of(r) == value_of(
                take_text_sized(old(self).data@, old(self).read_offset as int, 4, Endian::Little),
            ),
            final(self).follows(
                *old(self),
                take_text_sized(old(self).data@, old(self).read_offset as int, 4, Endian::Little),
            ),
    {
        let start: usize = self.read_offset;
        let endian: Endian = Endian::Little;
        proof {
            lemma_radix_values();
        }
        match self.read_uint(4, endian) {
            Err(e) => Err(e),
            Ok(length) => {
                assert(length < 0x1_0000_0000);
                match self.read_string(length as usize) {
                    Ok(text) => Ok(text),
                    Err(e) => {
                        self.read_offset = start;
                        Err(e)
                    },
                }
            },
        }
    }

    /// Reads a text behind a 32-bit length, most significant byte first.
    pub fn read_string_32_be(&mut self) -> (r: Result<String, ReadError>)
        ensures
            text_of(r) == value_of(
                take_text_sized(old(self).data@, old(self).read_offset as int, 4, Endian::Big),
            ),
            final(self).follows(
                *old(self),
                take_text_sized(old(self).data@, old(self).read_offset as int, 4, Endian::Big),
            ),
    {
        let start: usize = self.read_offset;
        let endian: Endian = Endian::Big;
        proof {
            lemma_radix_values();
        }
        match self.read_uint(4, endian) {
            Err(e) => Err(e),
            Ok(length) => {
                assert(length < 0x1_0000_0000);
                match self.read_string(length as usize) {
                    Ok(text) => Ok(text),
                    Err(e) => {
                        self.read_offset = start;
                        Err(e)
                    },
                }
            },
        }
    }
}

} // verus!

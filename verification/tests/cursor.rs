use tsto_bsv3::ea::file_buffer::{Endian, FileBuffer, ReadError};

fn cursor(data: &[u8]) -> FileBuffer {
    FileBuffer::new(String::from("dir/file.bin"), data.to_vec())
}

fn big(data: &[u8]) -> FileBuffer {
    FileBuffer::with_endian(String::from("dir/file.bin"), data.to_vec(), Endian::Big)
}

#[test]
fn new_starts_at_zero_little_endian() {
    let f = cursor(&[1, 2, 3]);
    assert_eq!(f.read_offset, 0);
    assert_eq!(f.endian, Endian::Little);
    assert_eq!(f.data, vec![1, 2, 3]);
    assert_eq!(f.remaining(), 3);
    assert_eq!(f.get_real_offset(), 0);
}

#[test]
fn path_is_split_into_folder_and_name() {
    let f = cursor(&[]);
    assert_eq!(f.folder, "dir/");
    assert_eq!(f.name, "file");
    let f = FileBuffer::new(String::from("./building.bsv3"), vec![]);
    assert_eq!(f.folder, "./");
    assert_eq!(f.name, "building");
    let f = FileBuffer::new(String::from("plain"), vec![]);
    assert_eq!(f.folder, "");
    assert_eq!(f.name, "plain");
    let f = FileBuffer::new(String::from("a/b/"), vec![]);
    assert_eq!(f.folder, "a/b/");
    assert_eq!(f.name, "");
}

#[test]
fn backslashes_become_slashes_in_the_folder() {
    let f = FileBuffer::new(String::from("C:\\art\\units\\tank.bsv3"), vec![]);
    assert_eq!(f.folder, "C:/art/units/");
    assert_eq!(f.name, "tank");
    let f = FileBuffer::new(String::from("mixed/sep\\x.y.z"), vec![]);
    assert_eq!(f.folder, "mixed/sep/");
    assert_eq!(f.name, "x");
}

#[test]
fn path_with_non_ascii_characters() {
    let f = FileBuffer::new(String::from("bär/ünï.dat"), vec![]);
    assert_eq!(f.folder, "bär/");
    assert_eq!(f.name, "ünï");
}

#[test]
fn unsigned_reads_little_endian() {
    let mut f = cursor(&[
        0xAB, 0x34, 0x12, 0x78, 0x56, 0x34, 0x12, 0xEF, 0xCD, 0xAB, 0x89, 0x67, 0x45, 0x23, 0x01,
    ]);
    assert_eq!(f.read_uint_8(), Ok(0xAB));
    assert_eq!(f.read_uint_16(), Ok(0x1234));
    assert_eq!(f.read_uint_32(), Ok(0x1234_5678));
    assert_eq!(f.read_uint_64(), Ok(0x0123_4567_89AB_CDEF));
    assert_eq!(f.read_offset, 15);
    assert_eq!(f.remaining(), 0);
}

#[test]
fn unsigned_reads_big_endian() {
    let mut f = big(&[
        0xAB, 0x12, 0x34, 0x12, 0x34, 0x56, 0x78, 0x01, 0x23, 0x45, 0x67, 0x89, 0xAB, 0xCD, 0xEF,
    ]);
    assert_eq!(f.read_uint_8(), Ok(0xAB));
    assert_eq!(f.read_uint_16(), Ok(0x1234));
    assert_eq!(f.read_uint_32(), Ok(0x1234_5678));
    assert_eq!(f.read_uint_64(), Ok(0x0123_4567_89AB_CDEF));
}

#[test]
fn suffixed_reads_ignore_the_cursor_order() {
    let mut f = big(&[0x34, 0x12, 0x78, 0x56, 0x34, 0x12, 1, 2, 3, 4, 5, 6, 7, 8]);
    assert_eq!(f.read_uint_16_le(), Ok(0x1234));
    assert_eq!(f.read_uint_32_le(), Ok(0x1234_5678));
    assert_eq!(f.read_uint_64_le(), Ok(0x0807_0605_0403_0201));
    let mut f = cursor(&[0x12, 0x34, 0x12, 0x34, 0x56, 0x78, 1, 2, 3, 4, 5, 6, 7, 8]);
    assert_eq!(f.read_uint_16_be(), Ok(0x1234));
    assert_eq!(f.read_uint_32_be(), Ok(0x1234_5678));
    assert_eq!(f.read_uint_64_be(), Ok(0x0102_0304_0506_0708));
}

#[test]
fn signed_reads_are_twos_complement() {
    let mut f = cursor(&[0xFF, 0x80, 0x7F]);
    assert_eq!(f.read_int_8(), Ok(-1));
    assert_eq!(f.read_int_8(), Ok(-128));
    assert_eq!(f.read_int_8(), Ok(127));
    let mut f = cursor(&[0xFE, 0xFF, 0x00, 0x80, 0xFF, 0x7F]);
    assert_eq!(f.read_int_16(), Ok(-2));
    assert_eq!(f.read_int_16_le(), Ok(i16::MIN));
    assert_eq!(f.read_int_16(), Ok(i16::MAX));
    let mut f = cursor(&[0xFD, 0xFF, 0xFF, 0xFF, 0x00, 0x00, 0x00, 0x80]);
    assert_eq!(f.read_int_32(), Ok(-3));
    assert_eq!(f.read_int_32_le(), Ok(i32::MIN));
    let mut f = cursor(&[0xFC, 0xFF, 0xFF, 0xFF, 0xFF, 0xFF, 0xFF, 0xFF, 0, 0, 0, 0, 0, 0, 0, 0x80]);
    assert_eq!(f.read_int_64(), Ok(-4));
    assert_eq!(f.read_int_64_le(), Ok(i64::MIN));
}

#[test]
fn signed_reads_big_endian() {
    let mut f = big(&[0xFF, 0xFE, 0xFF, 0xFF, 0xFF, 0xFD, 0xFF, 0xFF, 0xFF, 0xFF, 0xFF, 0xFF, 0xFF, 0xFC]);
    assert_eq!(f.read_int_16(), Ok(-2));
    assert_eq!(f.read_int_32(), Ok(-3));
    assert_eq!(f.read_int_64(), Ok(-4));
    let mut f = cursor(&[0x80, 0x00, 0x7F, 0xFF, 0xFF, 0xFF, 0x7F, 0xFF, 0xFF, 0xFF, 0xFF, 0xFF, 0xFF, 0xFF]);
    assert_eq!(f.read_int_16_be(), Ok(i16::MIN));
    assert_eq!(f.read_int_32_be(), Ok(i32::MAX));
    assert_eq!(f.read_int_64_be(), Ok(i64::MAX));
}

#[test]
fn float_reads_give_the_bit_pattern() {
    let mut bytes = Vec::new();
    bytes.extend_from_slice(&1.5f32.to_le_bytes());
    bytes.extend_from_slice(&(-0.25f32).to_le_bytes());
    bytes.extend_from_slice(&3.0f32.to_be_bytes());
    let mut f = cursor(&bytes);
    assert_eq!(f32::from_bits(f.read_float_32().unwrap()), 1.5);
    assert_eq!(f32::from_bits(f.read_float_32_le().unwrap()), -0.25);
    assert_eq!(f32::from_bits(f.read_float_32_be().unwrap()), 3.0);
    assert_eq!(f.read_float_32(), Err(ReadError::UnexpectedEnd));
    let mut f = big(&2.0f32.to_be_bytes());
    assert_eq!(f32::from_bits(f.read_float_32().unwrap()), 2.0);
}

#[test]
fn reads_past_the_end_fail_and_leave_the_cursor() {
    let mut f = cursor(&[1, 2, 3]);
    assert_eq!(f.read_uint_32(), Err(ReadError::UnexpectedEnd));
    assert_eq!(f.read_uint_64_be(), Err(ReadError::UnexpectedEnd));
    assert_eq!(f.read_int_32_le(), Err(ReadError::UnexpectedEnd));
    assert_eq!(f.read_offset, 0);
    assert_eq!(f.read_uint_16(), Ok(0x0201));
    assert_eq!(f.read_uint_16(), Err(ReadError::UnexpectedEnd));
    assert_eq!(f.read_int_16(), Err(ReadError::UnexpectedEnd));
    assert_eq!(f.read_offset, 2);
    assert_eq!(f.read_uint_8(), Ok(3));
    assert_eq!(f.read_uint_8(), Err(ReadError::UnexpectedEnd));
    assert_eq!(f.read_int_8(), Err(ReadError::UnexpectedEnd));
    assert_eq!(f.read_offset, 3);
}

#[test]
fn skip_moves_forward_or_fails() {
    let mut f = cursor(&[1, 2, 3, 4]);
    assert_eq!(f.skip(3), Ok(()));
    assert_eq!(f.read_offset, 3);
    assert_eq!(f.skip(2), Err(ReadError::UnexpectedEnd));
    assert_eq!(f.read_offset, 3);
    assert_eq!(f.skip(1), Ok(()));
    assert_eq!(f.skip(0), Ok(()));
    assert_eq!(f.read_offset, 4);
}

#[test]
fn seek_sets_the_offset() {
    let mut f = cursor(&[1, 2, 3, 4]);
    f.seek(2);
    assert_eq!(f.read_uint_8(), Ok(3));
    f.seek(0);
    assert_eq!(f.read_uint_8(), Ok(1));
    assert_eq!(f.get_real_offset(), 1);
    f.seek(9);
    assert_eq!(f.remaining(), 0);
    assert_eq!(f.read_uint_8(), Err(ReadError::UnexpectedEnd));
    assert_eq!(f.skip(0), Ok(()));
    assert_eq!(f.read_remaining(), Vec::<u8>::new());
    assert_eq!(f.read_offset, 9);
}

#[test]
fn read_buffer_gives_exactly_the_bytes() {
    let mut f = cursor(&[9, 8, 7, 6, 5]);
    assert_eq!(f.read_buffer(2), Ok(vec![9, 8]));
    assert_eq!(f.read_buffer(0), Ok(vec![]));
    assert_eq!(f.read_buffer(4), Err(ReadError::UnexpectedEnd));
    assert_eq!(f.read_offset, 2);
    assert_eq!(f.read_buffer(3), Ok(vec![7, 6, 5]));
}

#[test]
fn read_remaining_takes_the_rest() {
    let mut f = cursor(&[9, 8, 7, 6, 5]);
    f.skip(2).unwrap();
    assert_eq!(f.read_remaining(), vec![7, 6, 5]);
    assert_eq!(f.read_offset, 5);
    assert_eq!(f.read_remaining(), Vec::<u8>::new());
}

#[test]
fn read_string_strips_trailing_nul() {
    let mut f = cursor(b"abc\0\0xyz");
    assert_eq!(f.read_string(5), Ok(String::from("abc")));
    assert_eq!(f.read_offset, 5);
    assert_eq!(f.read_string(3), Ok(String::from("xyz")));
    let mut f = cursor(b"\0\0\0");
    assert_eq!(f.read_string(3), Ok(String::new()));
    let mut f = cursor(b"a\0b\0");
    assert_eq!(f.read_string(4), Ok(String::from("a\0b")));
}

#[test]
fn read_string_decodes_utf8() {
    let text = "héllo wörld ✓";
    let mut f = cursor(text.as_bytes());
    assert_eq!(f.read_string(text.len()), Ok(String::from(text)));
}

#[test]
fn read_string_rejects_bad_utf8_and_stays() {
    let mut f = cursor(&[b'a', 0xFF, b'b']);
    assert_eq!(f.read_string(3), Err(ReadError::InvalidUtf8));
    assert_eq!(f.read_offset, 0);
    // a sequence cut in two is no text either
    let mut f = cursor(&[0xC3, 0xA9]);
    assert_eq!(f.read_string(1), Err(ReadError::InvalidUtf8));
    assert_eq!(f.read_string(2), Ok(String::from("é")));
    // bad bytes are bad with padding behind them too
    let mut f = cursor(&[0xC3, 0x00, 0x00]);
    assert_eq!(f.read_string(3), Err(ReadError::InvalidUtf8));
}

#[test]
fn read_string_needs_all_its_bytes() {
    let mut f = cursor(b"ab");
    assert_eq!(f.read_string(3), Err(ReadError::UnexpectedEnd));
    assert_eq!(f.read_offset, 0);
    assert_eq!(f.read_string(0), Ok(String::new()));
}

#[test]
fn read_string_8_reads_length_then_text() {
    let mut f = cursor(&[4, b'N', b'A', b'M', b'E', 0]);
    assert_eq!(f.read_string_8(), Ok(String::from("NAME")));
    assert_eq!(f.read_offset, 5);
    assert_eq!(f.read_string_8(), Ok(String::new()));
    assert_eq!(f.read_string_8(), Err(ReadError::UnexpectedEnd));
    assert_eq!(f.read_offset, 6);
}

#[test]
fn read_string_8_treats_255_as_empty() {
    let mut f = cursor(&[255, b'x']);
    assert_eq!(f.read_string_8(), Ok(String::new()));
    assert_eq!(f.read_offset, 1);
    assert_eq!(f.read_uint_8(), Ok(b'x'));
}

#[test]
fn read_string_8_takes_254_bytes() {
    let mut data = vec![254u8];
    data.extend(std::iter::repeat(b'z').take(254));
    let mut f = cursor(&data);
    assert_eq!(f.read_string_8().unwrap().len(), 254);
    assert_eq!(f.read_offset, 255);
}

#[test]
fn read_string_8_failure_leaves_the_length_unread() {
    let mut f = cursor(&[5, b'a', b'b']);
    assert_eq!(f.read_string_8(), Err(ReadError::UnexpectedEnd));
    assert_eq!(f.read_offset, 0);
    let mut f = cursor(&[2, 0xFF, 0xFE]);
    assert_eq!(f.read_string_8(), Err(ReadError::InvalidUtf8));
    assert_eq!(f.read_offset, 0);
}

#[test]
fn read_string_16_and_32_in_both_orders() {
    let mut f = cursor(&[2, 0, b'h', b'i', 3, 0, 0, 0, b'y', b'o', 0]);
    assert_eq!(f.read_string_16(), Ok(String::from("hi")));
    assert_eq!(f.read_string_32(), Ok(String::from("yo")));
    assert_eq!(f.read_offset, 11);
    let mut f = big(&[0, 2, b'h', b'i', 0, 0, 0, 3, b'y', b'o', 0]);
    assert_eq!(f.read_string_16(), Ok(String::from("hi")));
    assert_eq!(f.read_string_32(), Ok(String::from("yo")));
    let mut f = big(&[2, 0, b'h', b'i', 3, 0, 0, 0, b'y', b'o', 0]);
    assert_eq!(f.read_string_16_le(), Ok(String::from("hi")));
    assert_eq!(f.read_string_32_le(), Ok(String::from("yo")));
    let mut f = cursor(&[0, 2, b'h', b'i', 0, 0, 0, 3, b'y', b'o', 0]);
    assert_eq!(f.read_string_16_be(), Ok(String::from("hi")));
    assert_eq!(f.read_string_32_be(), Ok(String::from("yo")));
}

#[test]
fn read_string_16_and_32_fail_whole() {
    let mut f = cursor(&[9, 0, b'h']);
    assert_eq!(f.read_string_16(), Err(ReadError::UnexpectedEnd));
    assert_eq!(f.read_offset, 0);
    let mut f = cursor(&[1, 0]);
    assert_eq!(f.read_string_32(), Err(ReadError::UnexpectedEnd));
    assert_eq!(f.read_offset, 0);
    let mut f = cursor(&[1, 0, 0, 0, 0x80]);
    assert_eq!(f.read_string_32_le(), Err(ReadError::InvalidUtf8));
    assert_eq!(f.read_offset, 0);
    let mut f = cursor(&[0xFF, 0xFF, 0xFF, 0xFF, 1]);
    assert_eq!(f.read_string_32_be(), Err(ReadError::UnexpectedEnd));
    assert_eq!(f.read_string_16_be(), Err(ReadError::UnexpectedEnd));
    assert_eq!(f.read_offset, 0);
}

#[test]
fn io_failure_is_left_to_the_caller() {
    // no read of the cursor gives it: it stands for a file that did not open
    let mut f = cursor(&[]);
    assert_ne!(f.read_uint_8(), Err(ReadError::IoFailure));
    assert_ne!(f.read_string_8(), Err(ReadError::IoFailure));
    assert_ne!(ReadError::IoFailure, ReadError::UnexpectedEnd);
    assert_ne!(ReadError::IoFailure, ReadError::InvalidUtf8);
    assert_eq!(format!("{:?}", ReadError::IoFailure), "IoFailure");
}

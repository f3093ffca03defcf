use tsto_bsv3::ea::file_buffer::{Endian, FileBuffer, ReadError};
use tsto_bsv3::ea::texture::{decode_pixels, Texture};

fn file(data: Vec<u8>) -> FileBuffer {
    FileBuffer::new(String::from("atlas.rgb"), data)
}

#[test]
fn rgba4444_texture() {
    let mut f = file(vec![9, 9, 9, 0x20, 2, 0, 1, 0, 0x0F, 0xF0, 0x12, 0x34]);
    let t = Texture::read(&mut f).unwrap();
    assert_eq!((t.format, t.width, t.height), (0x20, 2, 1));
    assert_eq!(t.data, vec![255, 0, 0, 255, 0x33, 0x44, 0x11, 0x22]);
    assert_eq!(t.data.len(), t.width as usize * t.height as usize * 4);
    assert_eq!(f.read_offset, 12);
}

#[test]
fn la88_texture() {
    let mut f = file(vec![0, 0, 0, 0x60, 1, 0, 2, 0, 0x80, 0x40, 0xFF, 0x01]);
    let t = Texture::read(&mut f).unwrap();
    assert_eq!((t.format, t.width, t.height), (0x60, 1, 2));
    assert_eq!(t.data, vec![0x40, 0x40, 0x40, 0x80, 1, 1, 1, 0xFF]);
}

#[test]
fn other_formats_are_rgba_already() {
    let mut f = file(vec![0, 0, 0, 0x00, 1, 0, 1, 0, 1, 2, 3, 4]);
    let t = Texture::read(&mut f).unwrap();
    assert_eq!((t.format, t.width, t.height), (0, 1, 1));
    assert_eq!(t.data, vec![1, 2, 3, 4]);
}

#[test]
fn empty_payload() {
    let mut f = file(vec![0, 0, 0, 0x20, 0, 1, 0, 2]);
    let t = Texture::read(&mut f).unwrap();
    assert_eq!((t.width, t.height), (0x100, 0x200));
    assert!(t.data.is_empty());
    assert_eq!(f.read_offset, 8);
}

#[test]
fn short_header_is_an_unexpected_end() {
    for len in 0..8 {
        let mut f = file(vec![0x20; len]);
        assert!(matches!(Texture::read(&mut f), Err(ReadError::UnexpectedEnd)));
        assert_eq!(f.read_offset, 0);
    }
}

#[test]
fn big_endian_texture() {
    let mut f = FileBuffer::with_endian(
        String::from("atlas.rgb"),
        vec![0, 0, 0, 0x60, 0, 3, 0, 4, 7, 8],
        Endian::Big,
    );
    let t = Texture::read(&mut f).unwrap();
    assert_eq!((t.width, t.height), (3, 4));
    assert_eq!(t.data, vec![8, 8, 8, 7]);
}

#[test]
fn pixels_by_format() {
    assert_eq!(decode_pixels(0x20, vec![0x0F, 0xF0]), vec![255, 0, 0, 255]);
    assert_eq!(decode_pixels(0x60, vec![0x0F, 0xF0]), vec![0xF0, 0xF0, 0xF0, 0x0F]);
    assert_eq!(decode_pixels(0x21, vec![0x0F, 0xF0]), vec![0x0F, 0xF0]);
    assert_eq!(decode_pixels(0x20, vec![0x28, 0xF4]), vec![255, 0x44, 0x22, 0x88]);
}

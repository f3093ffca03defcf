//! The raw texture file that goes with a container.

use crate::ea::file_buffer::{Endian, FileBuffer, ReadError};
use crate::ea::layout::u16_at;
use crate::ea::rgb::{la88_image, la88_to_rgba8888, rgba4444_image, rgba4444_to_rgba8888};
use crate::ea::wire::{available, span, value_of, Field};
use vstd::pervasive::unreached;
use vstd::prelude::*;

verus! {

/// The format byte of a texture whose texels are RGBA4444.
pub const PIXELS_RGBA4444: u8 = 0x20;

/// The format byte of a texture whose texels are LA88.
pub const PIXELS_LA88: u8 = 0x60;

/// The number of bytes before the texels: three reserved bytes, the format
/// byte, width and height.
pub const TEXTURE_HEADER_LEN: usize = 8;

/// A texture atlas as RGBA with 8 bits per channel.
#[derive(Debug, Clone)]
pub struct Texture {
    /// The format byte of the file.
    pub format: u8,
    /// The width that the file declares, in texels.
    pub width: u16,
    /// The height that the file declares, in texels.
    pub height: u16,
    /// The texels, four bytes each, row by row. Nothing says that there
    /// are `width * height` of them: the file's payload is taken as it is.
    pub data: Vec<u8>,
}

/// What a `Texture` stands for.
pub struct TextureView {
    pub format: u8,
    pub width: u16,
    pub height: u16,
    pub data: Seq<u8>,
}

impl View for Texture {
    type V = TextureView;

    open spec fn view(&self) -> TextureView {
        TextureView {
            format: self.format,
            width: self.width,
            height: self.height,
            data: self.data@,
        }
    }
}

impl DeepView for Texture {
    type V = TextureView;

    open spec fn deep_view(&self) -> TextureView {
        self.view()
    }
}

/// The RGBA image of a texel payload in the given format: RGBA4444 and LA88
/// are expanded, without scaling by alpha; any other format is RGBA already
/// and stays as it is.
pub open spec fn rgba_image(format: u8, payload: Seq<u8>) -> Seq<u8> {
    if format == PIXELS_RGBA4444 {
        rgba4444_image(payload, false)
    } else if format == PIXELS_LA88 {
        la88_image(payload)
    } else {
        payload
    }
}

/// A texture file from `pos`: three reserved bytes, the format byte, width
/// and height, then texels up to the end of the file.
pub open spec fn texture(s: Seq<u8>, pos: int, endian: Endian) -> Field<TextureView> {
    if 8 > available(s, pos) {
        Err(ReadError::UnexpectedEnd)
    } else {
        Ok(
            (
                TextureView {
                    format: s[pos + 3],
                    width: u16_at(s, pos + 4, endian),
                    height: u16_at(s, pos + 6, endian),
                    data: rgba_image(s[pos + 3], span(s, pos + 8, (s.len() - pos - 8) as nat)),
                },
                s.len() as int,
            ),
        )
    }
}

/// What a read of a texture hands to its caller, seen as what it stands for.
pub open spec fn texture_of(r: Result<Texture, ReadError>) -> Result<TextureView, ReadError> {
    match r {
        Ok(t) => Ok(t@),
        Err(e) => Err(e),
    }
}

/// Turns the texel payload of a texture file into RGBA with 8 bits per
/// channel.
pub fn decode_pixels(format: u8, payload: Vec<u8>) -> (rgba: Vec<u8>)
    ensures
        rgba@ == rgba_image(format, payload@),
{
    if format == PIXELS_RGBA4444 {
        rgba4444_to_rgba8888(payload, false)
    } else if format == PIXELS_LA88 {
        la88_to_rgba8888(payload, false)
    } else {
        payload
    }
}

impl Texture {
    /// Reads a texture file from the offset of `file` to its end. With
    /// fewer than eight bytes left nothing is read.
    pub fn read(file: &mut FileBuffer) -> (r: Result<Texture, ReadError>)
        ensures
            texture_of(r) == value_of(
                texture(old(file).data@, old(file).read_offset as int, old(file).endian),
            ),
            final(file).follows(
                *old(file),
                texture(old(file).data@, old(file).read_offset as int, old(file).endian),
            ),
    {
        if file.remaining() < TEXTURE_HEADER_LEN {
            return Err(ReadError::UnexpectedEnd);
        }
        proof {
            reveal_with_fuel(crate::ea::wire::le_value, 2);
        }
        match file.skip(3) {
            Ok(()) => (),
            Err(_) => unreached(),
        }
        let format: u8 = match file.read_uint_8() {
            Ok(v) => v,
            Err(_) => unreached(),
        };
        let width: u16 = match file.read_uint_16() {
            Ok(v) => v,
            Err(_) => unreached(),
        };
        let height: u16 = match file.read_uint_16() {
            Ok(v) => v,
            Err(_) => unreached(),
        };
        let payload: Vec<u8> = file.read_remaining();
        Ok(Texture { format, width, height, data: decode_pixels(format, payload) })
    }
}

} // verus!

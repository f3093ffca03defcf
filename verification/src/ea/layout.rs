//! The layout of a BSV3 container, record by record.
//!
//! Everything here is specification: each function says what the bytes at a
//! place in a stream stand for, and where the record ends, or why it cannot be
//! read. The readers in `bsv3` are verified against these functions.

use crate::ea::bsv3::{
    AnimationView, Dialect, DocumentView, FrameGroupView, FrameView, Layer, SpriteView,
};
use crate::ea::file_buffer::{Endian, ReadError};
use crate::ea::wire::{available, take_text_8, take_u16, uint_at, Field};
use vstd::prelude::*;

verus! {

/// The tag of the dialect whose frames hold a list of layers each.
pub const FORMAT_LAYERED: u16 = 0x0103;

/// The tag of the layered dialect that names its texture file.
pub const FORMAT_LAYERED_NAMED: u16 = 0x0203;

/// The tag of the dialect with three reserved bytes behind the tag and no
/// frame section.
pub const FORMAT_PADDED: u16 = 0x0104;

/// The tag of the dialect with single-layer frames and frame groups.
pub const FORMAT_GROUPED: u16 = 0x0303;

/// A record that stands `count` times in a row, the first at `pos`. `item`
/// reads one of them from its index in the row, the stream and its place.
/// The first record that cannot be read fails the whole row.
pub open spec fn repeat<T>(
    item: spec_fn(int, Seq<u8>, int) -> Field<T>,
    s: Seq<u8>,
    pos: int,
    count: nat,
) -> Field<Seq<T>>
    decreases count,
{
    if count == 0 {
        Ok((Seq::empty(), pos))
    } else {
        match repeat(item, s, pos, (count - 1) as nat) {
            Err(e) => Err(e),
            Ok((front, mid)) => match item(count - 1, s, mid) {
                Err(e) => Err(e),
                Ok((last, end)) => Ok((front.push(last), end)),
            },
        }
    }
}

/// A sprite's width or height as it is kept: never below 1.
pub open spec fn at_least_one(encoded: u16) -> u16 {
    if encoded == 0 {
        1
    } else {
        encoded
    }
}

/// A 16-bit field at `pos` that is known to be there.
pub open spec fn u16_at(s: Seq<u8>, pos: int, endian: Endian) -> u16 {
    uint_at(s, pos, 2, endian) as u16
}

/// A 32-bit field at `pos` that is known to be there.
pub open spec fn u32_at(s: Seq<u8>, pos: int, endian: Endian) -> u32 {
    uint_at(s, pos, 4, endian) as u32
}

/// A sprite record: its name behind a one-byte length, then x, y, width and
/// height, 16 bits each.
pub open spec fn sprite_record(s: Seq<u8>, pos: int, endian: Endian) -> Field<SpriteView> {
    match take_text_8(s, pos) {
        Err(e) => Err(e),
        Ok((name, at)) => if 8 > available(s, at) {
            Err(ReadError::UnexpectedEnd)
        } else {
            Ok(
                (
                    SpriteView {
                        name,
                        x: u16_at(s, at, endian),
                        y: u16_at(s, at + 2, endian),
                        width: at_least_one(u16_at(s, at + 4, endian)),
                        height: at_least_one(u16_at(s, at + 6, endian)),
                    },
                    at + 8,
                ),
            )
        },
    }
}

/// The number of bytes of a layer record: 26, and one more for the alpha
/// byte where `data_type` is 1.
pub open spec fn layer_size(data_type: u8) -> int {
    if data_type == 1 {
        27
    } else {
        26
    }
}

/// A layer record: the sprite's index, then the bit patterns of x, y, x
/// scale, vertical skew, horizontal skew and y scale, then the alpha byte
/// where `data_type` is 1. Without that byte alpha is 255.
pub open spec fn layer_record(
    s: Seq<u8>,
    pos: int,
    endian: Endian,
    data_type: u8,
    id: u16,
) -> Field<Layer> {
    if layer_size(data_type) > available(s, pos) {
        Err(ReadError::UnexpectedEnd)
    } else {
        Ok(
            (
                Layer {
                    id,
                    sprite: u16_at(s, pos, endian),
                    x: u32_at(s, pos + 2, endian),
                    y: u32_at(s, pos + 6, endian),
                    scale_x: u32_at(s, pos + 10, endian),
                    skew_v: u32_at(s, pos + 14, endian),
                    skew_h: u32_at(s, pos + 18, endian),
                    scale_y: u32_at(s, pos + 22, endian),
                    alpha: if data_type == 1 {
                        s[pos + 26]
                    } else {
                        255
                    },
                },
                pos + layer_size(data_type),
            ),
        )
    }
}

/// The layers of one frame as they stand in the file: the layer at index
/// `i` of the row gets the id `i`.
pub open spec fn layer_items(
    endian: Endian,
    data_type: u8) -> spec_fn(int, Seq<u8>, int,
) -> Field<Layer> {
    |i: int, s: Seq<u8>, pos: int| layer_record(s, pos, endian, data_type, i as u16)
}

/// A frame of a layered dialect: the number of layers, one reserved byte,
/// then the layers. The frame keeps them in the reverse of their order in
/// the file.
pub open spec fn layered_frame(
    s: Seq<u8>,
    pos: int,
    endian: Endian,
    data_type: u8,
) -> Field<FrameView> {
    if 3 > available(s, pos) {
        Err(ReadError::UnexpectedEnd)
    } else {
        let count = u16_at(s, pos, endian);
        match repeat(layer_items(endian, data_type), s, pos + 3, count as nat) {
            Err(e) => Err(e),
            Ok((layers, end)) => Ok((
                FrameView { layer_count: count, layers: layers.reverse() },
                end,
            )),
        }
    }
}

/// A frame of the grouped dialect: one layer record, which gets the id 0.
pub open spec fn single_frame(
    s: Seq<u8>,
    pos: int,
    endian: Endian,
    data_type: u8,
) -> Field<FrameView> {
    match layer_record(s, pos, endian, data_type, 0) {
        Err(e) => Err(e),
        Ok((layer, end)) => Ok((FrameView { layer_count: 1, layers: seq![layer] }, end)),
    }
}

/// One frame index of a frame group: a 16-bit number.
pub open spec fn frame_index(s: Seq<u8>, pos: int, endian: Endian) -> Field<usize> {
    match take_u16(s, pos, endian) {
        Err(e) => Err(e),
        Ok((index, end)) => Ok((index as usize, end)),
    }
}

/// The frame indices of one group.
pub open spec fn frame_index_items(endian: Endian) -> spec_fn(int, Seq<u8>, int) -> Field<usize> {
    |i: int, s: Seq<u8>, pos: int| frame_index(s, pos, endian)
}

/// A frame group: the number of indices, one reserved byte, then the
/// indices.
pub open spec fn group_record(s: Seq<u8>, pos: int, endian: Endian) -> Field<FrameGroupView> {
    if 3 > available(s, pos) {
        Err(ReadError::UnexpectedEnd)
    } else {
        let count = u16_at(s, pos, endian);
        match repeat(frame_index_items(endian), s, pos + 3, count as nat) {
            Err(e) => Err(e),
            Ok((frames, end)) => Ok((FrameGroupView { frame_count: count, frames }, end)),
        }
    }
}

/// An animation record: its name behind a one-byte length, then start and
/// end, 16 bits each.
pub open spec fn animation_record(s: Seq<u8>, pos: int, endian: Endian) -> Field<AnimationView> {
    match take_text_8(s, pos) {
        Err(e) => Err(e),
        Ok((name, at)) => if 4 > available(s, at) {
            Err(ReadError::UnexpectedEnd)
        } else {
            Ok(
                (
                    AnimationView {
                        name,
                        start: u16_at(s, at, endian),
                        end: u16_at(s, at + 2, endian),
                    },
                    at + 4,
                ),
            )
        },
    }
}

/// The sprite records of a container.
pub open spec fn sprite_items(endian: Endian) -> spec_fn(int, Seq<u8>, int) -> Field<SpriteView> {
    |i: int, s: Seq<u8>, pos: int| sprite_record(s, pos, endian)
}

/// The frames of a layered dialect.
pub open spec fn layered_frame_items(endian: Endian, data_type: u8) -> spec_fn(
    int,
    Seq<u8>,
    int,
) -> Field<FrameView> {
    |i: int, s: Seq<u8>, pos: int| layered_frame(s, pos, endian, data_type)
}

/// The frames of the grouped dialect.
pub open spec fn single_frame_items(endian: Endian, data_type: u8) -> spec_fn(
    int,
    Seq<u8>,
    int,
) -> Field<FrameView> {
    |i: int, s: Seq<u8>, pos: int| single_frame(s, pos, endian, data_type)
}

/// The frame groups of the grouped dialect.
pub open spec fn group_items(
    endian: Endian) -> spec_fn(int, Seq<u8>, int,
) -> Field<FrameGroupView> {
    |i: int, s: Seq<u8>, pos: int| group_record(s, pos, endian)
}

/// The animation records of a container.
pub open spec fn animation_items(
    endian: Endian) -> spec_fn(int, Seq<u8>, int,
) -> Field<AnimationView> {
    |i: int, s: Seq<u8>, pos: int| animation_record(s, pos, endian)
}

/// What stands before the sprite records.
pub struct HeaderView {
    pub format: u16,
    pub sprite_count: u16,
    pub data_type: u8,
    pub image_name: Seq<char>,
}

/// The dialect that a format tag selects.
pub open spec fn dialect_of(format: u16) -> Dialect {
    if format == FORMAT_LAYERED {
        Dialect::Layered
    } else if format == FORMAT_LAYERED_NAMED {
        Dialect::LayeredNamed
    } else if format == FORMAT_PADDED {
        Dialect::Padded
    } else if format == FORMAT_GROUPED {
        Dialect::Grouped
    } else {
        Dialect::Other
    }
}

/// The number of reserved bytes between the format tag and the sprite
/// count: three in the padded dialect, the four of an unused 32-bit number
/// in the grouped one.
pub open spec fn reserved_after_tag(dialect: Dialect) -> int {
    match dialect {
        Dialect::Padded => 3,
        Dialect::Grouped => 4,
        _ => 0,
    }
}

/// The head of a container: the format tag, the dialect's reserved bytes,
/// the number of sprites, the data type and, in the dialect that has one,
/// the name of the texture file.
pub open spec fn header(s: Seq<u8>, pos: int, endian: Endian) -> Field<HeaderView> {
    if 2 > available(s, pos) {
        Err(ReadError::UnexpectedEnd)
    } else {
        let format = u16_at(s, pos, endian);
        let reserved = reserved_after_tag(dialect_of(format));
        let at = pos + 2 + reserved;
        if reserved + 3 > available(s, pos + 2) {
            Err(ReadError::UnexpectedEnd)
        } else {
            let sprite_count = u16_at(s, at, endian);
            let data_type = s[at + 2];
            if dialect_of(format) == Dialect::LayeredNamed {
                match take_text_8(s, at + 3) {
                    Err(e) => Err(e),
                    Ok((image_name, end)) => Ok(
                        (HeaderView { format, sprite_count, data_type, image_name }, end),
                    ),
                }
            } else {
                Ok((
                    HeaderView { format, sprite_count, data_type, image_name: Seq::empty() },
                    at + 3,
                ))
            }
        }
    }
}

/// The frame section of the layered dialects: the number of frames, then
/// the frames.
pub open spec fn layered_body(
    s: Seq<u8>,
    pos: int,
    endian: Endian,
    data_type: u8,
) -> Field<Seq<FrameView>> {
    if 2 > available(s, pos) {
        Err(ReadError::UnexpectedEnd)
    } else {
        repeat(
            layered_frame_items(endian, data_type),
            s,
            pos + 2,
            u16_at(s, pos, endian) as nat,
        )
    }
}

/// The frame section of the grouped dialect: the number of groups, the
/// number of frames, the frames, then the groups.
pub open spec fn grouped_body(
    s: Seq<u8>,
    pos: int,
    endian: Endian,
    data_type: u8,
) -> Field<(Seq<FrameView>, Seq<FrameGroupView>)> {
    if 4 > available(s, pos) {
        Err(ReadError::UnexpectedEnd)
    } else {
        let group_count = u16_at(s, pos, endian);
        let frame_count = u16_at(s, pos + 2, endian);
        match repeat(single_frame_items(endian, data_type), s, pos + 4, frame_count as nat) {
            Err(e) => Err(e),
            Ok((frames, at)) => match repeat(group_items(endian), s, at, group_count as nat) {
                Err(e) => Err(e),
                Ok((groups, end)) => Ok(((frames, groups), end)),
            },
        }
    }
}

/// The frame section that a dialect has. An unknown dialect has none, and
/// neither has the padded one: no byte is read and no frame or group is
/// there.
pub open spec fn body(
    s: Seq<u8>,
    pos: int,
    endian: Endian,
    dialect: Dialect,
    data_type: u8,
) -> Field<(Seq<FrameView>, Seq<FrameGroupView>)> {
    match dialect {
        Dialect::Layered | Dialect::LayeredNamed => match layered_body(s, pos, endian, data_type) {
            Err(e) => Err(e),
            Ok((frames, end)) => Ok(((frames, Seq::empty()), end)),
        },
        Dialect::Grouped => grouped_body(s, pos, endian, data_type),
        _ => Ok(((Seq::empty(), Seq::empty()), pos)),
    }
}

/// The animation section: the number of animations, then their records.
pub open spec fn animation_section(
    s: Seq<u8>,
    pos: int,
    endian: Endian,
) -> Field<Seq<AnimationView>> {
    if 2 > available(s, pos) {
        Err(ReadError::UnexpectedEnd)
    } else {
        repeat(animation_items(endian), s, pos + 2, u16_at(s, pos, endian) as nat)
    }
}

/// A whole container from `pos`: head, sprites, frame section, animations.
/// What follows the last animation is not looked at.
pub open spec fn document(s: Seq<u8>, pos: int, endian: Endian) -> Field<DocumentView> {
    match header(s, pos, endian) {
        Err(e) => Err(e),
        Ok((head, at_sprites)) => match repeat(
            sprite_items(endian),
            s,
            at_sprites,
            head.sprite_count as nat,
        ) {
            Err(e) => Err(e),
            Ok((sprites, at_body)) => match body(
                s,
                at_body,
                endian,
                dialect_of(head.format),
                head.data_type,
            ) {
                Err(e) => Err(e),
                Ok(((frames, groups), at_animations)) => match animation_section(
                    s,
                    at_animations,
                    endian,
                ) {
                    Err(e) => Err(e),
                    Ok((animations, end)) => Ok(
                        (
                            DocumentView {
                                format: head.format,
                                data_type: head.data_type,
                                image_name: head.image_name,
                                sprites,
                                frames,
                                groups,
                                animations,
                            },
                            end,
                        ),
                    ),
                },
            },
        },
    }
}

/// A row that failed after `shorter` records fails in the same way however
/// many more are asked for.
pub proof fn lemma_repeat_stays_failed<T>(
    item: spec_fn(int, Seq<u8>, int) -> Field<T>,
    s: Seq<u8>,
    pos: int,
    shorter: nat,
    count: nat,
)
    requires
        shorter <= count,
        repeat(item, s, pos, shorter) is Err,
    ensures
        repeat(item, s, pos, count) == repeat(item, s, pos, shorter),
    decreases count,
{
    if shorter < count {
        lemma_repeat_stays_failed(item, s, pos, shorter, (count - 1) as nat);
    }
}

} // verus!

//! The bytes that stand for a container, and that reading them gives the
//! container back.
//!
//! Everything here is specification and proof: the crate writes no file.
//! The encoding says, field by field, which stream a reader takes for a
//! given container; the last lemma says that it does.

use crate::ea::bsv3::{
    AnimationView, Dialect, DocumentView, FrameGroupView, FrameView, Layer, SpriteView,
};
use crate::ea::file_buffer::Endian;
use crate::ea::laws::{
    counted, has_area, opaque_by_default, single_layered, stacked, storable_text, well_formed,
};
use crate::ea::layout::{
    animation_items, animation_record, animation_section, body, dialect_of, document,
    frame_index_items, group_items, group_record, grouped_body, header, layer_items, layer_record,
    layered_body, layered_frame, layered_frame_items, repeat, reserved_after_tag, single_frame,
    single_frame_items, sprite_items, sprite_record, u16_at, u32_at, HeaderView,
};
use crate::ea::wire::{be_value, le_value, span, take_text_8, Field};
use vstd::prelude::*;
use vstd::utf8::{encode_utf8, encode_utf8_decode_utf8, encode_utf8_valid_utf8};

verus! {

/// The stream `t` holds the bytes `b` from the place `q` on.
pub open spec fn holds_at(t: Seq<u8>, q: int, b: Seq<u8>) -> bool {
    &&& 0 <= q
    &&& q + b.len() <= t.len()
    &&& span(t, q, b.len()) == b
}

/// A 16-bit number as two bytes.
pub open spec fn encode_u16(v: u16, endian: Endian) -> Seq<u8> {
    match endian {
        Endian::Little => seq![(v % 256) as u8, (v / 256) as u8],
        Endian::Big => seq![(v / 256) as u8, (v % 256) as u8],
    }
}

/// A 32-bit number as four bytes.
pub open spec fn encode_u32(v: u32, endian: Endian) -> Seq<u8> {
    match endian {
        Endian::Little => seq![
            (v % 256) as u8,
            (v / 0x100 % 256) as u8,
            (v / 0x1_0000 % 256) as u8,
            (v / 0x100_0000) as u8,
        ],
        Endian::Big => seq![
            (v / 0x100_0000) as u8,
            (v / 0x1_0000 % 256) as u8,
            (v / 0x100 % 256) as u8,
            (v % 256) as u8,
        ],
    }
}

/// A text behind its length in one byte.
pub open spec fn encode_text_8(text: Seq<char>) -> Seq<u8> {
    seq![encode_utf8(text).len() as u8] + encode_utf8(text)
}

/// A row of records, one behind the other.
pub open spec fn encode_row<T>(encode: spec_fn(T) -> Seq<u8>, row: Seq<T>) -> Seq<u8>
    decreases row.len(),
{
    if row.len() == 0 {
        Seq::empty()
    } else {
        encode_row(encode, row.drop_last()) + encode(row.last())
    }
}

/// A sprite record.
pub open spec fn encode_sprite(sprite: SpriteView, endian: Endian) -> Seq<u8> {
    encode_text_8(sprite.name) + encode_u16(sprite.x, endian) + encode_u16(sprite.y, endian)
        + encode_u16(sprite.width, endian) + encode_u16(sprite.height, endian)
}

/// A layer record. The id is not stored: it is the layer's place in the
/// file.
pub open spec fn encode_layer(layer: Layer, endian: Endian, data_type: u8) -> Seq<u8> {
    encode_u16(layer.sprite, endian) + encode_u32(layer.x, endian) + encode_u32(layer.y, endian)
        + encode_u32(layer.scale_x, endian) + encode_u32(layer.skew_v, endian) + encode_u32(
        layer.skew_h,
        endian,
    ) + encode_u32(layer.scale_y, endian) + if data_type == 1 {
        seq![layer.alpha]
    } else {
        Seq::empty()
    }
}

/// How the layers of a frame are written.
pub open spec fn layer_encoder(endian: Endian, data_type: u8) -> spec_fn(Layer) -> Seq<u8> {
    |layer: Layer| encode_layer(layer, endian, data_type)
}

/// A frame of a layered dialect: the layer count, a reserved zero byte and
/// the layers, the last of the frame first.
pub open spec fn encode_layered_frame(frame: FrameView, endian: Endian, data_type: u8) -> Seq<u8> {
    encode_u16(frame.layer_count, endian) + seq![0u8] + encode_row(
        layer_encoder(endian, data_type),
        frame.layers.reverse(),
    )
}

/// A frame of the grouped dialect: its one layer.
pub open spec fn encode_single_frame(frame: FrameView, endian: Endian, data_type: u8) -> Seq<u8> {
    encode_layer(frame.layers[0], endian, data_type)
}

/// How the frame indices of a group are written.
pub open spec fn frame_index_encoder(endian: Endian) -> spec_fn(usize) -> Seq<u8> {
    |index: usize| encode_u16(index as u16, endian)
}

/// A frame group: the number of indices, a reserved zero byte and the
/// indices.
pub open spec fn encode_group(group: FrameGroupView, endian: Endian) -> Seq<u8> {
    encode_u16(group.frame_count, endian) + seq![0u8] + encode_row(
        frame_index_encoder(endian),
        group.frames,
    )
}

/// An animation record.
pub open spec fn encode_animation(animation: AnimationView, endian: Endian) -> Seq<u8> {
    encode_text_8(animation.name) + encode_u16(animation.start, endian) + encode_u16(
        animation.end,
        endian,
    )
}

/// How the sprites of a container are written.
pub open spec fn sprite_encoder(endian: Endian) -> spec_fn(SpriteView) -> Seq<u8> {
    |sprite: SpriteView| encode_sprite(sprite, endian)
}

/// How the frames of a layered dialect are written.
pub open spec fn layered_frame_encoder(
    endian: Endian,
    data_type: u8) -> spec_fn(FrameView,
) -> Seq<u8> {
    |frame: FrameView| encode_layered_frame(frame, endian, data_type)
}

/// How the frames of the grouped dialect are written.
pub open spec fn single_frame_encoder(
    endian: Endian,
    data_type: u8) -> spec_fn(FrameView,
) -> Seq<u8> {
    |frame: FrameView| encode_single_frame(frame, endian, data_type)
}

/// How the frame groups are written.
pub open spec fn group_encoder(endian: Endian) -> spec_fn(FrameGroupView) -> Seq<u8> {
    |group: FrameGroupView| encode_group(group, endian)
}

/// How the animations are written.
pub open spec fn animation_encoder(endian: Endian) -> spec_fn(AnimationView) -> Seq<u8> {
    |animation: AnimationView| encode_animation(animation, endian)
}

/// The reserved bytes behind the format tag, as zeros.
pub open spec fn encode_reserved(dialect: Dialect) -> Seq<u8> {
    Seq::new(reserved_after_tag(dialect) as nat, |i: int| 0u8)
}

/// The head of a container.
pub open spec fn encode_header(content: DocumentView, endian: Endian) -> Seq<u8> {
    encode_u16(content.format, endian) + encode_reserved(dialect_of(content.format)) + encode_u16(
        content.sprites.len() as u16,
        endian,
    ) + seq![content.data_type] + if dialect_of(content.format) == Dialect::LayeredNamed {
        encode_text_8(content.image_name)
    } else {
        Seq::empty()
    }
}

/// The frame section of a layered dialect: the number of frames, then the
/// frames.
pub open spec fn encode_layered_body(
    frames: Seq<FrameView>,
    endian: Endian,
    data_type: u8,
) -> Seq<u8> {
    encode_u16(frames.len() as u16, endian) + encode_row(
        layered_frame_encoder(endian, data_type),
        frames,
    )
}

/// The frame section of the grouped dialect: the number of groups, the
/// number of frames, the frames, then the groups.
pub open spec fn encode_grouped_body(
    frames: Seq<FrameView>,
    groups: Seq<FrameGroupView>,
    endian: Endian,
    data_type: u8,
) -> Seq<u8> {
    encode_u16(groups.len() as u16, endian) + encode_u16(frames.len() as u16, endian) + encode_row(
        single_frame_encoder(endian, data_type),
        frames,
    ) + encode_row(group_encoder(endian), groups)
}

/// The frame section of a container.
pub open spec fn encode_body(content: DocumentView, endian: Endian) -> Seq<u8> {
    match dialect_of(content.format) {
        Dialect::Layered | Dialect::LayeredNamed => encode_layered_body(
            content.frames,
            endian,
            content.data_type,
        ),
        Dialect::Grouped => encode_grouped_body(
            content.frames,
            content.groups,
            endian,
            content.data_type,
        ),
        _ => Seq::empty(),
    }
}

/// The animation section of a container.
pub open spec fn encode_animation_section(
    animations: Seq<AnimationView>,
    endian: Endian,
) -> Seq<u8> {
    encode_u16(animations.len() as u16, endian) + encode_row(animation_encoder(endian), animations)
}

/// A whole container: head, sprites, frame section, animations.
pub open spec fn encode_document(content: DocumentView, endian: Endian) -> Seq<u8> {
    encode_header(content, endian) + encode_row(sprite_encoder(endian), content.sprites)
        + encode_body(content, endian) + encode_animation_section(content.animations, endian)
}

/// A stream that holds two runs of bytes in a row holds each of them.
pub proof fn lemma_holds_split(t: Seq<u8>, q: int, a: Seq<u8>, b: Seq<u8>)
    requires
        holds_at(t, q, a + b),
    ensures
        holds_at(t, q, a),
        holds_at(t, q + a.len(), b),
{
    let whole = span(t, q, (a + b).len());
    assert forall|i: int| 0 <= i < a.len() implies span(t, q, a.len())[i] == a[i] by {
        assert(whole[i] == (a + b)[i]);
    }
    assert(span(t, q, a.len()) =~= a);
    assert forall|i: int| 0 <= i < b.len() implies span(t, q + a.len(), b.len())[i] == b[i] by {
        assert(whole[a.len() + i] == (a + b)[a.len() + i]);
    }
    assert(span(t, q + a.len(), b.len()) =~= b);
}

/// Reading the two bytes of a 16-bit number gives the number.
pub proof fn lemma_u16_round_trip(t: Seq<u8>, q: int, v: u16, endian: Endian)
    requires
        holds_at(t, q, encode_u16(v, endian)),
    ensures
        u16_at(t, q, endian) == v,
{
    reveal_with_fuel(le_value, 3);
    reveal_with_fuel(be_value, 3);
    let b = span(t, q, 2);
    assert(b[0] == t[q] && b[1] == t[q + 1]);
}

/// Reading the four bytes of a 32-bit number gives the number.
pub proof fn lemma_u32_round_trip(t: Seq<u8>, q: int, v: u32, endian: Endian)
    requires
        holds_at(t, q, encode_u32(v, endian)),
    ensures
        u32_at(t, q, endian) == v,
{
    reveal_with_fuel(le_value, 5);
    reveal_with_fuel(be_value, 5);
    let b = span(t, q, 4);
    assert(b[0] == t[q] && b[1] == t[q + 1] && b[2] == t[q + 2] && b[3] == t[q + 3]);
}

/// Reading a stored text gives the text.
pub proof fn lemma_text_8_round_trip(t: Seq<u8>, q: int, text: Seq<char>)
    requires
        storable_text(text),
        holds_at(t, q, encode_text_8(text)),
    ensures
        take_text_8(t, q) == Field::<Seq<char>>::Ok(
            (text, q + encode_text_8(text).len()),
        ),
{
    let bytes = encode_utf8(text);
    lemma_holds_split(t, q, seq![bytes.len() as u8], bytes);
    assert(span(t, q, 1)[0] == t[q]);
    encode_utf8_valid_utf8(text);
    encode_utf8_decode_utf8(text);
}

/// Reading a stored sprite gives the sprite.
pub proof fn lemma_sprite_round_trip(t: Seq<u8>, q: int, sprite: SpriteView, endian: Endian)
    requires
        has_area(sprite),
        storable_text(sprite.name),
        holds_at(t, q, encode_sprite(sprite, endian)),
    ensures
        sprite_record(t, q, endian) == Field::<SpriteView>::Ok(
            (sprite, q + encode_sprite(sprite, endian).len()),
        ),
{
    let name = encode_text_8(sprite.name);
    let x = encode_u16(sprite.x, endian);
    let y = encode_u16(sprite.y, endian);
    let width = encode_u16(sprite.width, endian);
    let height = encode_u16(sprite.height, endian);
    lemma_holds_split(t, q, name + x + y + width, height);
    lemma_holds_split(t, q, name + x + y, width);
    lemma_holds_split(t, q, name + x, y);
    lemma_holds_split(t, q, name, x);
    let at = q + name.len();
    lemma_text_8_round_trip(t, q, sprite.name);
    lemma_u16_round_trip(t, at, sprite.x, endian);
    lemma_u16_round_trip(t, at + 2, sprite.y, endian);
    lemma_u16_round_trip(t, at + 4, sprite.width, endian);
    lemma_u16_round_trip(t, at + 6, sprite.height, endian);
}

/// Reading a stored animation gives the animation.
pub proof fn lemma_animation_round_trip(
    t: Seq<u8>,
    q: int,
    animation: AnimationView,
    endian: Endian,
)
    requires
        storable_text(animation.name),
        holds_at(t, q, encode_animation(animation, endian)),
    ensures
        animation_record(t, q, endian) == Field::<AnimationView>::Ok(
            (animation, q + encode_animation(animation, endian).len()),
        ),
{
    let name = encode_text_8(animation.name);
    let first = encode_u16(animation.start, endian);
    let last = encode_u16(animation.end, endian);
    lemma_holds_split(t, q, name + first, last);
    lemma_holds_split(t, q, name, first);
    let at = q + name.len();
    lemma_text_8_round_trip(t, q, animation.name);
    lemma_u16_round_trip(t, at, animation.start, endian);
    lemma_u16_round_trip(t, at + 2, animation.end, endian);
}

/// Reading a stored layer at the place `id` of its frame gives the layer,
/// if that is its id and it is opaque where no alpha is stored.
pub proof fn lemma_layer_round_trip(
    t: Seq<u8>,
    q: int,
    layer: Layer,
    endian: Endian,
    data_type: u8,
)
    requires
        data_type != 1 ==> layer.alpha == 255,
        holds_at(t, q, encode_layer(layer, endian, data_type)),
    ensures
        layer_record(t, q, endian, data_type, layer.id) == Field::<Layer>::Ok(
            (layer, q + encode_layer(layer, endian, data_type).len()),
        ),
{
    let sprite = encode_u16(layer.sprite, endian);
    let x = encode_u32(layer.x, endian);
    let y = encode_u32(layer.y, endian);
    let scale_x = encode_u32(layer.scale_x, endian);
    let skew_v = encode_u32(layer.skew_v, endian);
    let skew_h = encode_u32(layer.skew_h, endian);
    let scale_y = encode_u32(layer.scale_y, endian);
    let alpha: Seq<u8> = if data_type == 1 {
        seq![layer.alpha]
    } else {
        Seq::empty()
    };
    lemma_holds_split(t, q, sprite + x + y + scale_x + skew_v + skew_h + scale_y, alpha);
    lemma_holds_split(t, q, sprite + x + y + scale_x + skew_v + skew_h, scale_y);
    lemma_holds_split(t, q, sprite + x + y + scale_x + skew_v, skew_h);
    lemma_holds_split(t, q, sprite + x + y + scale_x, skew_v);
    lemma_holds_split(t, q, sprite + x + y, scale_x);
    lemma_holds_split(t, q, sprite + x, y);
    lemma_holds_split(t, q, sprite, x);
    lemma_u16_round_trip(t, q, layer.sprite, endian);
    lemma_u32_round_trip(t, q + 2, layer.x, endian);
    lemma_u32_round_trip(t, q + 6, layer.y, endian);
    lemma_u32_round_trip(t, q + 10, layer.scale_x, endian);
    lemma_u32_round_trip(t, q + 14, layer.skew_v, endian);
    lemma_u32_round_trip(t, q + 18, layer.skew_h, endian);
    lemma_u32_round_trip(t, q + 22, layer.scale_y, endian);
    if data_type == 1 {
        assert(span(t, q + 26, 1)[0] == t[q + 26]);
    }
}

/// Reading a stored row gives the row, if reading each of its records at
/// its place in the row gives the record.
pub proof fn lemma_row_round_trip<T>(
    item: spec_fn(int, Seq<u8>, int) -> Field<T>,
    encode: spec_fn(T) -> Seq<u8>,
    row: Seq<T>,
    t: Seq<u8>,
    q: int,
)
    requires
        holds_at(t, q, encode_row(encode, row)),
        forall|i: int, p: int|
            #![trigger item(i, t, p)]
            0 <= i < row.len() && holds_at(t, p, encode(row[i]))
                ==> item(i, t, p) == Field::<T>::Ok((row[i], p + encode(row[i]).len())),
    ensures
        repeat(item, t, q, row.len()) == Field::<Seq<T>>::Ok(
            (row, q + encode_row(encode, row).len()),
        ),
    decreases row.len(),
{
    if row.len() > 0 {
        let front = row.drop_last();
        lemma_holds_split(t, q, encode_row(encode, front), encode(row.last()));
        assert forall|i: int, p: int|
            #![trigger item(i, t, p)]
            0 <= i < front.len() && holds_at(t, p, encode(front[i])) implies
                item(i, t, p) == Field::<T>::Ok((front[i], p + encode(front[i]).len())) by {
            assert(front[i] == row[i]);
        }
        lemma_row_round_trip(item, encode, front, t, q);
        let mid = q + encode_row(encode, front).len();
        assert(front.len() == (row.len() - 1) as nat);
        assert(row[row.len() - 1] == row.last());
        assert(item(row.len() - 1, t, mid) == Field::<T>::Ok(
            (row.last(), mid + encode(row.last()).len()),
        ));
        assert(front.push(row.last()) =~= row);
    } else {
        assert(row =~= Seq::<T>::empty());
    }
}

/// The layers of a frame in the order of the file: each has its place as
/// its id.
proof fn lemma_file_order(frame: FrameView, data_type: u8)
    requires
        stacked(frame),
        opaque_by_default(frame, data_type),
    ensures
        frame.layers.reverse().len() == frame.layer_count,
        frame.layers.reverse().reverse() == frame.layers,
        forall|i: int|
            0 <= i < frame.layer_count ==> (#[trigger] frame.layers.reverse()[i]).id == i && (
            data_type != 1 ==> frame.layers.reverse()[i].alpha == 255),
{
    let in_file = frame.layers.reverse();
    assert(in_file.reverse() =~= frame.layers);
    assert forall|i: int| 0 <= i < frame.layer_count implies (#[trigger] in_file[i]).id == i && (
    data_type != 1 ==> in_file[i].alpha == 255) by {
        let j = frame.layers.len() - 1 - i;
        assert(in_file[i] == frame.layers[j]);
    }
}

/// Reading a stored frame of a layered dialect gives the frame.
pub proof fn lemma_layered_frame_round_trip(
    t: Seq<u8>,
    q: int,
    frame: FrameView,
    endian: Endian,
    data_type: u8,
)
    requires
        stacked(frame),
        opaque_by_default(frame, data_type),
        holds_at(t, q, encode_layered_frame(frame, endian, data_type)),
    ensures
        layered_frame(t, q, endian, data_type) == Field::<FrameView>::Ok(
            (frame, q + encode_layered_frame(frame, endian, data_type).len()),
        ),
{
    let count = encode_u16(frame.layer_count, endian);
    let in_file = frame.layers.reverse();
    let item = layer_items(endian, data_type);
    let encode = layer_encoder(endian, data_type);
    lemma_holds_split(t, q, count + seq![0u8], encode_row(encode, in_file));
    lemma_holds_split(t, q, count, seq![0u8]);
    lemma_u16_round_trip(t, q, frame.layer_count, endian);
    lemma_file_order(frame, data_type);
    assert forall|i: int, p: int|
        #![trigger item(i, t, p)]
        0 <= i < in_file.len() && holds_at(t, p, encode(in_file[i])) implies
            item(i, t, p) == Field::<Layer>::Ok((in_file[i], p + encode(in_file[i]).len())) by {
        let layer = in_file[i];
        assert(layer.id == i);
        lemma_layer_round_trip(t, p, layer, endian, data_type);
    }
    lemma_row_round_trip(item, encode, in_file, t, q + 3);
}

/// Reading a stored frame of the grouped dialect gives the frame.
pub proof fn lemma_single_frame_round_trip(
    t: Seq<u8>,
    q: int,
    frame: FrameView,
    endian: Endian,
    data_type: u8,
)
    requires
        single_layered(frame),
        opaque_by_default(frame, data_type),
        holds_at(t, q, encode_single_frame(frame, endian, data_type)),
    ensures
        single_frame(t, q, endian, data_type) == Field::<FrameView>::Ok(
            (frame, q + encode_single_frame(frame, endian, data_type).len()),
        ),
{
    lemma_layer_round_trip(t, q, frame.layers[0], endian, data_type);
    assert(seq![frame.layers[0]] =~= frame.layers);
}

/// Reading a stored frame group gives the group.
pub proof fn lemma_group_round_trip(t: Seq<u8>, q: int, group: FrameGroupView, endian: Endian)
    requires
        counted(group),
        holds_at(t, q, encode_group(group, endian)),
    ensures
        group_record(t, q, endian) == Field::<FrameGroupView>::Ok(
            (group, q + encode_group(group, endian).len()),
        ),
{
    let count = encode_u16(group.frame_count, endian);
    let frames = encode_row(frame_index_encoder(endian), group.frames);
    lemma_holds_split(t, q, count + seq![0u8], frames);
    lemma_holds_split(t, q, count, seq![0u8]);
    lemma_u16_round_trip(t, q, group.frame_count, endian);
    let item = frame_index_items(endian);
    let encode = frame_index_encoder(endian);
    assert forall|i: int, p: int|
        #![trigger item(i, t, p)]
        0 <= i < group.frames.len() && holds_at(t, p, encode(group.frames[i])) implies item(i, t, p)
        == Field::<usize>::Ok((group.frames[i], p + encode(group.frames[i]).len())) by {
        lemma_u16_round_trip(t, p, group.frames[i] as u16, endian);
    }
    lemma_row_round_trip(item, encode, group.frames, t, q + 3);
}

/// Reading a stored head gives the head.
pub proof fn lemma_header_round_trip(t: Seq<u8>, q: int, content: DocumentView, endian: Endian)
    requires
        content.sprites.len() <= 0xFFFF,
        storable_text(content.image_name),
        dialect_of(content.format) != Dialect::LayeredNamed ==> content.image_name.len() == 0,
        holds_at(t, q, encode_header(content, endian)),
    ensures
        header(t, q, endian) == Field::<HeaderView>::Ok(
            (
                HeaderView {
                    format: content.format,
                    sprite_count: content.sprites.len() as u16,
                    data_type: content.data_type,
                    image_name: content.image_name,
                },
                q + encode_header(content, endian).len(),
            ),
        ),
{
    let dialect = dialect_of(content.format);
    let format = encode_u16(content.format, endian);
    let reserved = encode_reserved(dialect);
    let count = encode_u16(content.sprites.len() as u16, endian);
    let data_type = seq![content.data_type];
    let name: Seq<u8> = if dialect == Dialect::LayeredNamed {
        encode_text_8(content.image_name)
    } else {
        Seq::empty()
    };
    lemma_holds_split(t, q, format + reserved + count + data_type, name);
    lemma_holds_split(t, q, format + reserved + count, data_type);
    lemma_holds_split(t, q, format + reserved, count);
    lemma_holds_split(t, q, format, reserved);
    lemma_u16_round_trip(t, q, content.format, endian);
    let at = q + 2 + reserved_after_tag(dialect);
    lemma_u16_round_trip(t, at, content.sprites.len() as u16, endian);
    assert(span(t, at + 2, 1)[0] == t[at + 2]);
    if dialect == Dialect::LayeredNamed {
        lemma_text_8_round_trip(t, at + 3, content.image_name);
    } else {
        assert(content.image_name =~= Seq::<char>::empty());
    }
}

/// Reading the stored frame section of a layered dialect gives the
/// frames.
pub proof fn lemma_layered_body_round_trip(
    t: Seq<u8>,
    q: int,
    frames: Seq<FrameView>,
    endian: Endian,
    data_type: u8,
)
    requires
        frames.len() <= 0xFFFF,
        forall|i: int|
            0 <= i < frames.len() ==> stacked(#[trigger] frames[i]) && opaque_by_default(
                frames[i],
                data_type,
            ),
        holds_at(t, q, encode_layered_body(frames, endian, data_type)),
    ensures
        layered_body(t, q, endian, data_type) == Field::<Seq<FrameView>>::Ok(
            (frames, q + encode_layered_body(frames, endian, data_type).len()),
        ),
{
    let item = layered_frame_items(endian, data_type);
    let encode = layered_frame_encoder(endian, data_type);
    lemma_holds_split(t, q, encode_u16(frames.len() as u16, endian), encode_row(encode, frames));
    lemma_u16_round_trip(t, q, frames.len() as u16, endian);
    assert forall|i: int, p: int|
        #![trigger item(i, t, p)]
        0 <= i < frames.len() && holds_at(t, p, encode(frames[i])) implies
            item(i, t, p) == Field::<FrameView>::Ok((frames[i], p + encode(frames[i]).len())) by {
        lemma_layered_frame_round_trip(t, p, frames[i], endian, data_type);
    }
    lemma_row_round_trip(item, encode, frames, t, q + 2);
}

/// Reading the stored frame section of the grouped dialect gives the
/// frames and the groups.
pub proof fn lemma_grouped_body_round_trip(
    t: Seq<u8>,
    q: int,
    frames: Seq<FrameView>,
    groups: Seq<FrameGroupView>,
    endian: Endian,
    data_type: u8,
)
    requires
        frames.len() <= 0xFFFF,
        groups.len() <= 0xFFFF,
        forall|i: int|
            0 <= i < frames.len() ==> single_layered(#[trigger] frames[i]) && opaque_by_default(
                frames[i],
                data_type,
            ),
        forall|i: int| 0 <= i < groups.len() ==> counted(#[trigger] groups[i]),
        holds_at(t, q, encode_grouped_body(frames, groups, endian, data_type)),
    ensures
        grouped_body(t, q, endian, data_type)
            == Field::<(Seq<FrameView>, Seq<FrameGroupView>)>::Ok((
                (frames, groups),
                q + encode_grouped_body(frames, groups, endian, data_type).len(),
            )),
{
    let item = single_frame_items(endian, data_type);
    let encode = single_frame_encoder(endian, data_type);
    let group_item = group_items(endian);
    let group_encode = group_encoder(endian);
    let group_count = encode_u16(groups.len() as u16, endian);
    let frame_count = encode_u16(frames.len() as u16, endian);
    lemma_holds_split(
        t,
        q,
        group_count + frame_count + encode_row(encode, frames),
        encode_row(group_encode, groups),
    );
    lemma_holds_split(t, q, group_count + frame_count, encode_row(encode, frames));
    lemma_holds_split(t, q, group_count, frame_count);
    lemma_u16_round_trip(t, q, groups.len() as u16, endian);
    lemma_u16_round_trip(t, q + 2, frames.len() as u16, endian);
    assert forall|i: int, p: int|
        #![trigger item(i, t, p)]
        0 <= i < frames.len() && holds_at(t, p, encode(frames[i])) implies
            item(i, t, p) == Field::<FrameView>::Ok((frames[i], p + encode(frames[i]).len())) by {
        lemma_single_frame_round_trip(t, p, frames[i], endian, data_type);
    }
    lemma_row_round_trip(item, encode, frames, t, q + 4);
    let at = q + 4 + encode_row(encode, frames).len();
    assert forall|i: int, p: int|
        #![trigger group_item(i, t, p)]
        0 <= i < groups.len() && holds_at(t, p, group_encode(groups[i])) implies group_item(i, t, p)
        == Field::<FrameGroupView>::Ok(
        (groups[i], p + group_encode(groups[i]).len()),
    ) by {
        lemma_group_round_trip(t, p, groups[i], endian);
    }
    lemma_row_round_trip(group_item, group_encode, groups, t, at);
}

/// Reading the stored frame section of a container gives its frames and
/// groups.
pub proof fn lemma_body_round_trip(t: Seq<u8>, q: int, content: DocumentView, endian: Endian)
    requires
        well_formed(content),
        holds_at(t, q, encode_body(content, endian)),
    ensures
        body(t, q, endian, dialect_of(content.format), content.data_type)
            == Field::<(Seq<FrameView>, Seq<FrameGroupView>)>::Ok((
                (content.frames, content.groups),
                q + encode_body(content, endian).len(),
            )),
{
    let data_type = content.data_type;
    match dialect_of(content.format) {
        Dialect::Layered | Dialect::LayeredNamed => {
            lemma_layered_body_round_trip(t, q, content.frames, endian, data_type);
            assert(content.groups =~= Seq::<FrameGroupView>::empty());
        },
        Dialect::Grouped => {
            lemma_grouped_body_round_trip(t, q, content.frames, content.groups, endian, data_type);
        },
        _ => {
            assert(content.frames =~= Seq::<FrameView>::empty());
            assert(content.groups =~= Seq::<FrameGroupView>::empty());
        },
    }
}

/// Reading the stored animation section gives the animations.
pub proof fn lemma_animation_section_round_trip(
    t: Seq<u8>,
    q: int,
    animations: Seq<AnimationView>,
    endian: Endian,
)
    requires
        animations.len() <= 0xFFFF,
        forall|i: int| 0 <= i < animations.len() ==> storable_text((#[trigger] animations[i]).name),
        holds_at(t, q, encode_animation_section(animations, endian)),
    ensures
        animation_section(t, q, endian) == Field::<Seq<AnimationView>>::Ok(
            (animations, q + encode_animation_section(animations, endian).len()),
        ),
{
    let item = animation_items(endian);
    let encode = animation_encoder(endian);
    lemma_holds_split(
        t,
        q,
        encode_u16(animations.len() as u16, endian),
        encode_row(encode, animations),
    );
    lemma_u16_round_trip(t, q, animations.len() as u16, endian);
    assert forall|i: int, p: int|
        #![trigger item(i, t, p)]
        0 <= i < animations.len() && holds_at(t, p, encode(animations[i])) implies item(i, t, p)
        == Field::<AnimationView>::Ok(
        (animations[i], p + encode(animations[i]).len()),
    ) by {
        lemma_animation_round_trip(t, p, animations[i], endian);
    }
    lemma_row_round_trip(item, encode, animations, t, q + 2);
}

/// Reading the stored sprites gives the sprites.
pub proof fn lemma_sprites_round_trip(t: Seq<u8>, q: int, sprites: Seq<SpriteView>, endian: Endian)
    requires
        forall|i: int|
            0 <= i < sprites.len() ==> has_area(#[trigger] sprites[i]) && storable_text(
                sprites[i].name,
            ),
        holds_at(t, q, encode_row(sprite_encoder(endian), sprites)),
    ensures
        repeat(sprite_items(endian), t, q, sprites.len()) == Field::<Seq<SpriteView>>::Ok(
            (sprites, q + encode_row(sprite_encoder(endian), sprites).len()),
        ),
{
    let item = sprite_items(endian);
    let encode = sprite_encoder(endian);
    assert forall|i: int, p: int|
        #![trigger item(i, t, p)]
        0 <= i < sprites.len() && holds_at(t, p, encode(sprites[i])) implies
            item(i, t, p)
            == Field::<SpriteView>::Ok((sprites[i], p + encode(sprites[i]).len())) by {
        lemma_sprite_round_trip(t, p, sprites[i], endian);
    }
    lemma_row_round_trip(item, encode, sprites, t, q);
}

/// A stream that holds the encoding of a well-formed container at `q`
/// reads as that container, whatever stands before and behind it.
pub proof fn lemma_document_round_trip_at(
    t: Seq<u8>,
    q: int,
    content: DocumentView,
    endian: Endian,
)
    requires
        well_formed(content),
        holds_at(t, q, encode_document(content, endian)),
    ensures
        document(t, q, endian) == Field::<DocumentView>::Ok(
            (content, q + encode_document(content, endian).len()),
        ),
{
    let head = encode_header(content, endian);
    let sprites = encode_row(sprite_encoder(endian), content.sprites);
    let frames = encode_body(content, endian);
    let animations = encode_animation_section(content.animations, endian);
    lemma_holds_split(t, q, head + sprites + frames, animations);
    lemma_holds_split(t, q, head + sprites, frames);
    lemma_holds_split(t, q, head, sprites);
    let at_sprites = q + head.len();
    let at_body = at_sprites + sprites.len();
    let at_animations = at_body + frames.len();
    assert(header(t, q, endian) == Field::<HeaderView>::Ok(
        (
            HeaderView {
                format: content.format,
                sprite_count: content.sprites.len() as u16,
                data_type: content.data_type,
                image_name: content.image_name,
            },
            at_sprites,
        ),
    )) by {
        lemma_header_round_trip(t, q, content, endian);
    }
    assert(repeat(sprite_items(endian), t, at_sprites, content.sprites.len())
        == Field::<Seq<SpriteView>>::Ok((content.sprites, at_body))) by {
        lemma_sprites_round_trip(t, at_sprites, content.sprites, endian);
    }
    assert(body(t, at_body, endian, dialect_of(content.format), content.data_type)
        == Field::<(Seq<FrameView>, Seq<FrameGroupView>)>::Ok((
            (content.frames, content.groups),
            at_animations,
        ))) by {
        lemma_body_round_trip(t, at_body, content, endian);
    }
    assert(animation_section(t, at_animations, endian) == Field::<Seq<AnimationView>>::Ok(
        (content.animations, at_animations + animations.len()),
    )) by {
        lemma_animation_section_round_trip(t, at_animations, content.animations, endian);
    }
}

/// Reading the encoding of a well-formed container gives the container
/// back, field for field, and stops at the end of the encoding: bytes
/// behind it change nothing.
pub proof fn lemma_document_round_trip(content: DocumentView, endian: Endian, trailing: Seq<u8>)
    requires
        well_formed(content),
    ensures
        document(encode_document(content, endian) + trailing, 0, endian)
            == Field::<DocumentView>::Ok((content, encode_document(content, endian).len() as int)),
{
    let bytes = encode_document(content, endian);
    assert(span(bytes + trailing, 0, bytes.len()) =~= bytes);
    lemma_document_round_trip_at(bytes + trailing, 0, content, endian);
}

} // verus!

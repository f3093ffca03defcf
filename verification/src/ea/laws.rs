//! What holds of every container that can be read.

use crate::ea::bsv3::{
    all_below, frames_of_pose, AnimationView, Dialect, DocumentView, FrameGroupView, FrameView, Layer,
    SpriteView,
};
use crate::ea::file_buffer::Endian;
use crate::ea::layout::{
    animation_items, body, dialect_of, document, frame_index_items, group_items, group_record,
    grouped_body, header, layer_items, layer_record, layered_frame, layered_frame_items, repeat,
    reserved_after_tag, single_frame, single_frame_items, sprite_items, u16_at,
};
use crate::ea::wire::{short_text_len, span, take_text_8, trim_nul, Field};
use vstd::prelude::*;
use vstd::utf8::{decode_utf8_encode_utf8, encode_utf8};

verus! {

/// A text that a field behind a one-byte length can hold and give back: its
/// UTF-8 form has at most 254 bytes and does not end in a zero byte.
pub open spec fn storable_text(text: Seq<char>) -> bool {
    encode_utf8(text).len() <= 254 && trim_nul(encode_utf8(text)) == encode_utf8(text)
}

/// The sprite covers at least one texel.
pub open spec fn has_area(sprite: SpriteView) -> bool {
    sprite.width >= 1 && sprite.height >= 1
}

/// The frame holds as many layers as it counts, and their ids run down
/// from one below that number to 0: the order of the file, reversed.
pub open spec fn stacked(frame: FrameView) -> bool {
    &&& frame.layers.len() == frame.layer_count
    &&& forall|i: int|
        0 <= i < frame.layers.len() ==> (#[trigger] frame.layers[i]).id == frame.layer_count - 1 - i
}

/// The frame holds exactly one layer, with the id 0.
pub open spec fn single_layered(frame: FrameView) -> bool {
    &&& frame.layer_count == 1
    &&& frame.layers.len() == 1
    &&& frame.layers[0].id == 0
}

/// Where the container stores no alpha, every layer of the frame is opaque.
pub open spec fn opaque_by_default(frame: FrameView, data_type: u8) -> bool {
    data_type != 1 ==> forall|i: int|
        0 <= i < frame.layers.len() ==> (#[trigger] frame.layers[i]).alpha == 255
}

/// The group holds as many indices as it counts, each a 16-bit number.
pub open spec fn counted(group: FrameGroupView) -> bool {
    &&& group.frames.len() == group.frame_count
    &&& forall|i: int| 0 <= i < group.frames.len() ==> #[trigger] group.frames[i] <= 0xFFFF
}

/// What holds of the frames and groups of a container of the given dialect.
pub open spec fn frames_fit_dialect(content: DocumentView) -> bool {
    match dialect_of(content.format) {
        Dialect::Layered | Dialect::LayeredNamed => {
            &&& content.groups.len() == 0
            &&& forall|i: int|
                0 <= i < content.frames.len() ==> stacked(#[trigger] content.frames[i])
        },
        Dialect::Grouped => {
            &&& forall|i: int|
                0 <= i < content.frames.len() ==> single_layered(#[trigger] content.frames[i])
            &&& forall|i: int| 0 <= i < content.groups.len()
                ==> counted(#[trigger] content.groups[i])
        },
        _ => content.frames.len() == 0 && content.groups.len() == 0,
    }
}

/// What holds of every container that was read from a file:
/// - no sprite is without area, and every name can be stored;
/// - the frames and groups are those of the dialect, the layers of a
///   layered frame in the reverse of their order in the file;
/// - without stored alpha every layer is opaque;
/// - only the dialect with a texture name has one;
/// - no section holds more records than a 16-bit count can say.
pub open spec fn well_formed(content: DocumentView) -> bool {
    &&& content.sprites.len() <= 0xFFFF
    &&& content.frames.len() <= 0xFFFF
    &&& content.groups.len() <= 0xFFFF
    &&& content.animations.len() <= 0xFFFF
    &&& storable_text(content.image_name)
    &&& dialect_of(content.format) != Dialect::LayeredNamed ==> content.image_name.len() == 0
    &&& forall|i: int|
        0 <= i < content.sprites.len() ==> has_area(#[trigger] content.sprites[i]) && storable_text(
            content.sprites[i].name,
        )
    &&& forall|i: int|
        0 <= i < content.animations.len() ==> storable_text(
            (#[trigger] content.animations[i]).name,
        )
    &&& forall|i: int|
        0 <= i < content.frames.len() ==> opaque_by_default(
            #[trigger] content.frames[i],
            content.data_type,
        )
    &&& frames_fit_dialect(content)
}

/// Taking the zero bytes off the end leaves no zero byte at the end, and
/// never more bytes than there were.
pub proof fn lemma_trim_nul(b: Seq<u8>)
    ensures
        trim_nul(b).len() <= b.len(),
        trim_nul(trim_nul(b)) == trim_nul(b),
    decreases b.len(),
{
    if b.len() > 0 && b.last() == 0 {
        lemma_trim_nul(b.drop_last());
    }
}

/// A text that was read from a field behind a one-byte length can be
/// stored in one.
pub proof fn lemma_read_text_is_storable(s: Seq<u8>, pos: int)
    requires
        take_text_8(s, pos) is Ok,
    ensures
        storable_text(take_text_8(s, pos)->Ok_0.0),
{
    let n = short_text_len(s[pos] as nat);
    let raw = trim_nul(span(s, pos + 1, n));
    lemma_trim_nul(span(s, pos + 1, n));
    decode_utf8_encode_utf8(raw);
}

/// What holds of each record that `item` can read holds of each record of
/// a row that was read.
pub proof fn lemma_repeat_each<T>(
    item: spec_fn(int, Seq<u8>, int) -> Field<T>,
    s: Seq<u8>,
    pos: int,
    count: nat,
    holds: spec_fn(int, T) -> bool,
)
    requires
        repeat(item, s, pos, count) is Ok,
        forall|i: int, p: int|
            0 <= i < count && (#[trigger] item(i, s, p)) is Ok ==> holds(i, item(i, s, p)->Ok_0.0),
    ensures
        repeat(item, s, pos, count)->Ok_0.0.len() == count,
        forall|i: int|
            0 <= i < count ==> holds(i, #[trigger] repeat(item, s, pos, count)->Ok_0.0[i]),
    decreases count,
{
    if count > 0 {
        lemma_repeat_each(item, s, pos, (count - 1) as nat, holds);
        let front = repeat(item, s, pos, (count - 1) as nat)->Ok_0;
        assert(item(count - 1, s, front.1) is Ok);
    }
}

/// A layered frame that was read holds its layers in the reverse of their
/// order in the file: the ids run down from one below the layer count to
/// 0. Without stored alpha the layers are opaque.
pub proof fn lemma_layered_frame_stacked(s: Seq<u8>, pos: int, endian: Endian, data_type: u8)
    requires
        layered_frame(s, pos, endian, data_type) is Ok,
    ensures
        stacked(layered_frame(s, pos, endian, data_type)->Ok_0.0),
        opaque_by_default(layered_frame(s, pos, endian, data_type)->Ok_0.0, data_type),
{
    let frame = layered_frame(s, pos, endian, data_type)->Ok_0.0;
    let count = frame.layer_count;
    let items = layer_items(endian, data_type);
    let holds = |i: int, layer: Layer| layer.id == i && (data_type != 1 ==> layer.alpha == 255);
    lemma_repeat_each(items, s, pos + 3, count as nat, holds);
    let in_file = repeat(items, s, pos + 3, count as nat)->Ok_0.0;
    assert(frame.layers == in_file.reverse());
    assert forall|i: int| 0 <= i < frame.layers.len() implies (#[trigger] frame.layers[i]).id
        == frame.layer_count - 1 - i && (data_type != 1 ==> frame.layers[i].alpha == 255) by {
        assert(frame.layers[i] == in_file[count - 1 - i]);
        assert(holds(count - 1 - i, in_file[count - 1 - i]));
    }
}

/// A frame of the grouped dialect that was read holds one layer with the
/// id 0, opaque where no alpha is stored.
pub proof fn lemma_single_frame_shape(s: Seq<u8>, pos: int, endian: Endian, data_type: u8)
    requires
        single_frame(s, pos, endian, data_type) is Ok,
    ensures
        single_layered(single_frame(s, pos, endian, data_type)->Ok_0.0),
        opaque_by_default(single_frame(s, pos, endian, data_type)->Ok_0.0, data_type),
{
}

/// A frame group that was read holds as many indices as it counts, each a
/// 16-bit number.
pub proof fn lemma_group_counted(s: Seq<u8>, pos: int, endian: Endian)
    requires
        group_record(s, pos, endian) is Ok,
    ensures
        counted(group_record(s, pos, endian)->Ok_0.0),
{
    let group = group_record(s, pos, endian)->Ok_0.0;
    let holds = |i: int, index: usize| index <= 0xFFFF;
    lemma_repeat_each(frame_index_items(endian), s, pos + 3, group.frame_count as nat, holds);
}

/// The sprites of a row that was read have area and names that can be
/// stored.
proof fn lemma_sprites_shape(s: Seq<u8>, pos: int, endian: Endian, count: nat)
    requires
        repeat(sprite_items(endian), s, pos, count) is Ok,
    ensures
        repeat(sprite_items(endian), s, pos, count)->Ok_0.0.len() == count,
        forall|i: int|
            0 <= i < count ==> {
                let sprite = #[trigger] repeat(sprite_items(endian), s, pos, count)->Ok_0.0[i];
                has_area(sprite) && storable_text(sprite.name)
            },
{
    let item = sprite_items(endian);
    let holds = |i: int, sprite: SpriteView| has_area(sprite) && storable_text(sprite.name);
    assert forall|i: int, p: int| 0 <= i < count && (#[trigger] item(i, s, p)) is Ok implies holds(
        i,
        item(i, s, p)->Ok_0.0,
    ) by {
        lemma_read_text_is_storable(s, p);
    }
    lemma_repeat_each(item, s, pos, count, holds);
}

/// The animations of a row that was read have names that can be stored.
proof fn lemma_animations_shape(s: Seq<u8>, pos: int, endian: Endian, count: nat)
    requires
        repeat(animation_items(endian), s, pos, count) is Ok,
    ensures
        repeat(animation_items(endian), s, pos, count)->Ok_0.0.len() == count,
        forall|i: int|
            0 <= i < count ==> storable_text(
                (#[trigger] repeat(animation_items(endian), s, pos, count)->Ok_0.0[i]).name,
            ),
{
    let item = animation_items(endian);
    let holds = |i: int, animation: AnimationView| storable_text(animation.name);
    assert forall|i: int, p: int| 0 <= i < count && (#[trigger] item(i, s, p)) is Ok implies holds(
        i,
        item(i, s, p)->Ok_0.0,
    ) by {
        lemma_read_text_is_storable(s, p);
    }
    lemma_repeat_each(item, s, pos, count, holds);
}

/// The frames of a layered dialect that were read are stacked, and opaque
/// where no alpha is stored.
proof fn lemma_layered_frames_shape(
    s: Seq<u8>,
    pos: int,
    endian: Endian,
    data_type: u8,
    count: nat,
)
    requires
        repeat(layered_frame_items(endian, data_type), s, pos, count) is Ok,
    ensures
        repeat(layered_frame_items(endian, data_type), s, pos, count)->Ok_0.0.len() == count,
        forall|i: int|
            0 <= i < count ==> {
                let frame = #[trigger] repeat(
                    layered_frame_items(endian, data_type),
                    s,
                    pos,
                    count,
                )->Ok_0.0[i];
                stacked(frame) && opaque_by_default(frame, data_type)
            },
{
    let item = layered_frame_items(endian, data_type);
    let holds = |i: int, frame: FrameView| stacked(frame) && opaque_by_default(frame, data_type);
    assert forall|i: int, p: int| 0 <= i < count && (#[trigger] item(i, s, p)) is Ok implies holds(
        i,
        item(i, s, p)->Ok_0.0,
    ) by {
        lemma_layered_frame_stacked(s, p, endian, data_type);
    }
    lemma_repeat_each(item, s, pos, count, holds);
}

/// The frames and groups of the grouped dialect that were read: one layer
/// each frame, opaque where no alpha is stored, and as many indices in each
/// group as it counts.
proof fn lemma_grouped_body_shape(s: Seq<u8>, pos: int, endian: Endian, data_type: u8)
    requires
        grouped_body(s, pos, endian, data_type) is Ok,
    ensures
        grouped_body(s, pos, endian, data_type)->Ok_0.0.0.len() <= 0xFFFF,
        grouped_body(s, pos, endian, data_type)->Ok_0.0.1.len() <= 0xFFFF,
        forall|i: int|
            0 <= i < grouped_body(s, pos, endian, data_type)->Ok_0.0.0.len() ==> {
                let frame = #[trigger] grouped_body(s, pos, endian, data_type)->Ok_0.0.0[i];
                single_layered(frame) && opaque_by_default(frame, data_type)
            },
        forall|i: int|
            0 <= i < grouped_body(s, pos, endian, data_type)->Ok_0.0.1.len() ==> counted(
                #[trigger] grouped_body(s, pos, endian, data_type)->Ok_0.0.1[i],
            ),
{
    let groups = u16_at(s, pos, endian) as nat;
    let frames = u16_at(s, pos + 2, endian) as nat;
    let frame_item = single_frame_items(endian, data_type);
    let frame_holds = |i: int, frame: FrameView|
        single_layered(frame) && opaque_by_default(frame, data_type);
    assert forall|i: int, p: int|
        0 <= i < frames && (#[trigger] frame_item(i, s, p)) is Ok implies frame_holds(
        i,
        frame_item(i, s, p)->Ok_0.0,
    ) by {
        lemma_single_frame_shape(s, p, endian, data_type);
    }
    lemma_repeat_each(frame_item, s, pos + 4, frames, frame_holds);
    let at = repeat(frame_item, s, pos + 4, frames)->Ok_0.1;
    let group_item = group_items(endian);
    let group_holds = |i: int, group: FrameGroupView| counted(group);
    assert forall|i: int, p: int|
        0 <= i < groups && (#[trigger] group_item(i, s, p)) is Ok implies group_holds(
        i,
        group_item(i, s, p)->Ok_0.0,
    ) by {
        lemma_group_counted(s, p, endian);
    }
    lemma_repeat_each(group_item, s, at, groups, group_holds);
}

/// Every container that can be read is well formed.
pub proof fn lemma_document_well_formed(s: Seq<u8>, pos: int, endian: Endian)
    requires
        document(s, pos, endian) is Ok,
    ensures
        well_formed(document(s, pos, endian)->Ok_0.0),
{
    let (head, at_sprites) = header(s, pos, endian)->Ok_0;
    let dialect = dialect_of(head.format);
    if dialect == Dialect::LayeredNamed {
        lemma_read_text_is_storable(s, pos + 2 + reserved_after_tag(dialect) + 3);
    } else {
        assert(encode_utf8(Seq::<char>::empty()) =~= Seq::<u8>::empty());
    }
    lemma_sprites_shape(s, at_sprites, endian, head.sprite_count as nat);
    let at_body = repeat(sprite_items(endian), s, at_sprites, head.sprite_count as nat)->Ok_0.1;
    let at_animations = body(s, at_body, endian, dialect, head.data_type)->Ok_0.1;
    match dialect {
        Dialect::Layered | Dialect::LayeredNamed => {
            lemma_layered_frames_shape(
                s,
                at_body + 2,
                endian,
                head.data_type,
                u16_at(s, at_body, endian) as nat,
            );
        },
        Dialect::Grouped => {
            lemma_grouped_body_shape(s, at_body, endian, head.data_type);
        },
        _ => {},
    }
    lemma_animations_shape(
        s,
        at_animations + 2,
        endian,
        u16_at(s, at_animations, endian) as nat,
    );
}

/// The alpha of a layer is the byte behind its six numbers where the
/// container stores alpha, and 255 where it does not.
pub proof fn lemma_layer_alpha(s: Seq<u8>, pos: int, endian: Endian, data_type: u8, id: u16)
    requires
        layer_record(s, pos, endian, data_type, id) is Ok,
    ensures
        data_type == 1 ==> layer_record(s, pos, endian, data_type, id)->Ok_0.0.alpha == s[pos + 26],
        data_type != 1 ==> layer_record(s, pos, endian, data_type, id)->Ok_0.0.alpha == 255,
{
}

/// The frame section of the grouped dialect holds as many frames and as
/// many groups as it declares, each frame with one layer of the id 0.
pub proof fn lemma_grouped_body_counts(s: Seq<u8>, pos: int, endian: Endian, data_type: u8)
    requires
        grouped_body(s, pos, endian, data_type) is Ok,
    ensures
        grouped_body(s, pos, endian, data_type)->Ok_0.0.0.len() == u16_at(s, pos + 2, endian),
        grouped_body(s, pos, endian, data_type)->Ok_0.0.1.len() == u16_at(s, pos, endian),
        forall|i: int|
            0 <= i < u16_at(s, pos + 2, endian) ==> single_layered(
                #[trigger] grouped_body(s, pos, endian, data_type)->Ok_0.0.0[i],
            ),
{
    let groups = u16_at(s, pos, endian) as nat;
    let frames = u16_at(s, pos + 2, endian) as nat;
    let holds = |i: int, frame: FrameView| single_layered(frame);
    lemma_repeat_each(single_frame_items(endian, data_type), s, pos + 4, frames, holds);
    let at = repeat(single_frame_items(endian, data_type), s, pos + 4, frames)->Ok_0.1;
    let any = |i: int, group: FrameGroupView| true;
    lemma_repeat_each(group_items(endian), s, at, groups, any);
}

/// The frame indices of a row stand two bytes apart, and each is the
/// 16-bit number at its place.
pub proof fn lemma_frame_indices_as_stored(s: Seq<u8>, pos: int, endian: Endian, count: nat)
    requires
        repeat(frame_index_items(endian), s, pos, count) is Ok,
    ensures
        repeat(frame_index_items(endian), s, pos, count)->Ok_0.0.len() == count,
        repeat(frame_index_items(endian), s, pos, count)->Ok_0.1 == pos + 2 * count,
        forall|i: int|
            0 <= i < count
                ==> #[trigger] repeat(frame_index_items(endian), s, pos, count)->Ok_0.0[i]
                == u16_at(s, pos + 2 * i, endian),
    decreases count,
{
    if count > 0 {
        lemma_frame_indices_as_stored(s, pos, endian, (count - 1) as nat);
    }
}

/// A frame group whose stored indices are all below `frame_count` holds
/// only indices below `frame_count`: reading changes no index. Nothing
/// makes a file keep to that; `BSV3::group_indices_valid` tells.
pub proof fn lemma_group_indices_in_range(s: Seq<u8>, pos: int, endian: Endian, frame_count: nat)
    requires
        group_record(s, pos, endian) is Ok,
        forall|i: int|
            0 <= i < u16_at(s, pos, endian) ==> #[trigger] u16_at(s, pos + 3 + 2 * i, endian)
                < frame_count,
    ensures
        all_below(group_record(s, pos, endian)->Ok_0.0.frames, frame_count),
{
    let count = u16_at(s, pos, endian) as nat;
    lemma_frame_indices_as_stored(s, pos + 3, endian, count);
    let frames = group_record(s, pos, endian)->Ok_0.0.frames;
    assert forall|i: int| 0 <= i < frames.len() implies (#[trigger] frames[i]) < frame_count by {
        assert(frames[i] == u16_at(s, pos + 3 + 2 * i, endian));
    }
}

/// Every frame index of every group names a frame of the container.
pub open spec fn group_indices_in_range(content: DocumentView) -> bool {
    forall|g: int|
        0 <= g < content.groups.len() ==> all_below(
            (#[trigger] content.groups[g]).frames,
            content.frames.len(),
        )
}

/// Where every frame index names a frame, every group of a grouped
/// container is a pose that can be drawn.
pub proof fn lemma_poses_exist(content: DocumentView, pose: int)
    requires
        dialect_of(content.format) == Dialect::Grouped,
        group_indices_in_range(content),
        0 <= pose < content.groups.len(),
    ensures
        frames_of_pose(content, pose) == Some(content.groups[pose].frames.reverse()),
{
}

} // verus!

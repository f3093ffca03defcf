//! A file that was cut short: what reading it gives.
//!
//! A record that can be read from a stream can be read in the same way
//! from every beginning of the stream that still holds all of it, and
//! every shorter beginning ends inside it. The lemmas state both for each
//! record of a container, and the last one for the container itself.

use crate::ea::bsv3::{Dialect, DocumentView};
use crate::ea::file_buffer::{Endian, ReadError};
use crate::ea::layout::{
    animation_items, animation_record, animation_section, body, dialect_of, document, frame_index,
    frame_index_items, group_items, group_record, grouped_body, header, layer_items, layer_record,
    layered_body, layered_frame, layered_frame_items, repeat, reserved_after_tag, single_frame,
    single_frame_items, sprite_items, sprite_record, u16_at,
};
use crate::ea::wire::{short_text_len, span, take_text, take_text_8, uint_at, Field};
use vstd::prelude::*;

verus! {

/// What reading a record gives once the stream is cut at `k`: the same if
/// the record ends at or before `k`, else the end of the stream.
pub open spec fn cut_result<T>(whole: Field<T>, k: int) -> Field<T> {
    match whole {
        Ok((_, end)) => if end <= k {
            whole
        } else {
            Err(ReadError::UnexpectedEnd)
        },
        Err(e) => Err(e),
    }
}

/// Each record that `item` reads from `s` lies within `s` and is not empty,
/// and `item` reads the stream cut at `k` as `cut_result` says.
pub open spec fn cuts_cleanly<T>(
    item: spec_fn(int, Seq<u8>, int) -> Field<T>,
    s: Seq<u8>,
    k: int,
) -> bool {
    forall|i: int, p: int|
        #![trigger item(i, s, p)]
        item(i, s, p) is Ok ==> {
            &&& 0 <= p < item(i, s, p)->Ok_0.1 <= s.len()
            &&& p <= k ==> item(i, s.take(k), p) == cut_result(item(i, s, p), k)
        }
}

/// A number that lies before the cut is not changed by it.
pub proof fn lemma_uint_cut(s: Seq<u8>, k: int, pos: int, width: nat, endian: Endian)
    requires
        0 <= pos,
        pos + width <= k <= s.len(),
    ensures
        uint_at(s.take(k), pos, width, endian) == uint_at(s, pos, width, endian),
    decreases width,
{
    if width > 0 {
        lemma_uint_cut(s, k, pos + 1, (width - 1) as nat, endian);
        lemma_uint_cut(s, k, pos, (width - 1) as nat, endian);
    }
}

/// A text field of `n` bytes in a stream cut at `k`.
pub proof fn lemma_text_cut(s: Seq<u8>, pos: int, n: nat, k: int)
    requires
        0 <= pos <= k <= s.len(),
    ensures
        take_text(s.take(k), pos, n) == if pos + n <= k {
            take_text(s, pos, n)
        } else {
            Err(ReadError::UnexpectedEnd)
        },
{
    if pos + n <= k {
        assert(span(s.take(k), pos, n) =~= span(s, pos, n));
    }
}

/// A text field behind a one-byte length in a stream cut at `k`.
pub proof fn lemma_text_8_cut(s: Seq<u8>, pos: int, k: int)
    requires
        take_text_8(s, pos) is Ok,
        0 <= k <= s.len(),
        pos <= k,
    ensures
        0 <= pos < take_text_8(s, pos)->Ok_0.1 <= s.len(),
        take_text_8(s.take(k), pos) == cut_result(take_text_8(s, pos), k),
{
    if pos < k {
        lemma_text_cut(s, pos + 1, short_text_len(s[pos] as nat), k);
    }
}

/// A sprite record in a stream cut at `k`.
pub proof fn lemma_sprite_cut(s: Seq<u8>, pos: int, endian: Endian, k: int)
    requires
        sprite_record(s, pos, endian) is Ok,
        0 <= k <= s.len(),
        pos <= k,
    ensures
        0 <= pos < sprite_record(s, pos, endian)->Ok_0.1 <= s.len(),
        sprite_record(s.take(k), pos, endian) == cut_result(sprite_record(s, pos, endian), k),
{
    lemma_text_8_cut(s, pos, k);
    let at = take_text_8(s, pos)->Ok_0.1;
    if at + 8 <= k {
        lemma_uint_cut(s, k, at, 2, endian);
        lemma_uint_cut(s, k, at + 2, 2, endian);
        lemma_uint_cut(s, k, at + 4, 2, endian);
        lemma_uint_cut(s, k, at + 6, 2, endian);
    }
}

/// An animation record in a stream cut at `k`.
pub proof fn lemma_animation_cut(s: Seq<u8>, pos: int, endian: Endian, k: int)
    requires
        animation_record(s, pos, endian) is Ok,
        0 <= k <= s.len(),
        pos <= k,
    ensures
        0 <= pos < animation_record(s, pos, endian)->Ok_0.1 <= s.len(),
        animation_record(s.take(k), pos, endian) == cut_result(
            animation_record(s, pos, endian),
            k,
        ),
{
    lemma_text_8_cut(s, pos, k);
    let at = take_text_8(s, pos)->Ok_0.1;
    if at + 4 <= k {
        lemma_uint_cut(s, k, at, 2, endian);
        lemma_uint_cut(s, k, at + 2, 2, endian);
    }
}

/// A layer record in a stream cut at `k`.
pub proof fn lemma_layer_cut(s: Seq<u8>, pos: int, endian: Endian, data_type: u8, id: u16, k: int)
    requires
        layer_record(s, pos, endian, data_type, id) is Ok,
        0 <= k <= s.len(),
        pos <= k,
    ensures
        0 <= pos < layer_record(s, pos, endian, data_type, id)->Ok_0.1 <= s.len(),
        layer_record(s.take(k), pos, endian, data_type, id) == cut_result(
            layer_record(s, pos, endian, data_type, id),
            k,
        ),
{
    let end = layer_record(s, pos, endian, data_type, id)->Ok_0.1;
    if end <= k {
        lemma_uint_cut(s, k, pos, 2, endian);
        lemma_uint_cut(s, k, pos + 2, 4, endian);
        lemma_uint_cut(s, k, pos + 6, 4, endian);
        lemma_uint_cut(s, k, pos + 10, 4, endian);
        lemma_uint_cut(s, k, pos + 14, 4, endian);
        lemma_uint_cut(s, k, pos + 18, 4, endian);
        lemma_uint_cut(s, k, pos + 22, 4, endian);
    }
}

/// A frame index in a stream cut at `k`.
pub proof fn lemma_frame_index_cut(s: Seq<u8>, pos: int, endian: Endian, k: int)
    requires
        frame_index(s, pos, endian) is Ok,
        0 <= k <= s.len(),
        pos <= k,
    ensures
        0 <= pos < frame_index(s, pos, endian)->Ok_0.1 <= s.len(),
        frame_index(s.take(k), pos, endian) == cut_result(frame_index(s, pos, endian), k),
{
    if pos + 2 <= k {
        lemma_uint_cut(s, k, pos, 2, endian);
    }
}

/// A row of records in a stream cut at `k`.
pub proof fn lemma_repeat_cut<T>(
    item: spec_fn(int, Seq<u8>, int) -> Field<T>,
    s: Seq<u8>,
    pos: int,
    count: nat,
    k: int,
)
    requires
        repeat(item, s, pos, count) is Ok,
        cuts_cleanly(item, s, k),
        0 <= pos <= k <= s.len(),
    ensures
        pos <= repeat(item, s, pos, count)->Ok_0.1 <= s.len(),
        repeat(item, s.take(k), pos, count) == cut_result(repeat(item, s, pos, count), k),
    decreases count,
{
    if count > 0 {
        lemma_repeat_cut(item, s, pos, (count - 1) as nat, k);
        let mid = repeat(item, s, pos, (count - 1) as nat)->Ok_0.1;
        assert(item(count - 1, s, mid) is Ok);
    }
}

/// The layers of a frame are read cleanly from a stream cut at `k`.
pub proof fn lemma_layers_cut_cleanly(s: Seq<u8>, endian: Endian, data_type: u8, k: int)
    requires
        0 <= k <= s.len(),
    ensures
        cuts_cleanly(layer_items(endian, data_type), s, k),
{
    let item = layer_items(endian, data_type);
    assert forall|i: int, p: int| #![trigger item(i, s, p)] item(i, s, p) is Ok implies {
        &&& 0 <= p < item(i, s, p)->Ok_0.1 <= s.len()
        &&& p <= k ==> item(i, s.take(k), p) == cut_result(item(i, s, p), k)
    } by {
        if p <= k {
            lemma_layer_cut(s, p, endian, data_type, i as u16, k);
        }
    }
}

/// A frame of a layered dialect in a stream cut at `k`.
pub proof fn lemma_layered_frame_cut(s: Seq<u8>, pos: int, endian: Endian, data_type: u8, k: int)
    requires
        layered_frame(s, pos, endian, data_type) is Ok,
        0 <= k <= s.len(),
        pos <= k,
    ensures
        0 <= pos < layered_frame(s, pos, endian, data_type)->Ok_0.1 <= s.len(),
        layered_frame(s.take(k), pos, endian, data_type) == cut_result(
            layered_frame(s, pos, endian, data_type),
            k,
        ),
{
    let count = u16_at(s, pos, endian) as nat;
    lemma_layers_cut_cleanly(s, endian, data_type, k);
    if pos + 3 <= k {
        lemma_uint_cut(s, k, pos, 2, endian);
        lemma_repeat_cut(layer_items(endian, data_type), s, pos + 3, count, k);
    } else {
        lemma_layers_cut_cleanly(s, endian, data_type, s.len() as int);
        lemma_repeat_cut(layer_items(endian, data_type), s, pos + 3, count, s.len() as int);
    }
}

/// A frame of the grouped dialect in a stream cut at `k`.
pub proof fn lemma_single_frame_cut(s: Seq<u8>, pos: int, endian: Endian, data_type: u8, k: int)
    requires
        single_frame(s, pos, endian, data_type) is Ok,
        0 <= k <= s.len(),
        pos <= k,
    ensures
        0 <= pos < single_frame(s, pos, endian, data_type)->Ok_0.1 <= s.len(),
        single_frame(s.take(k), pos, endian, data_type) == cut_result(
            single_frame(s, pos, endian, data_type),
            k,
        ),
{
    lemma_layer_cut(s, pos, endian, data_type, 0, k);
}

/// The indices of a frame group are read cleanly from a stream cut at `k`.
pub proof fn lemma_frame_indices_cut_cleanly(s: Seq<u8>, endian: Endian, k: int)
    requires
        0 <= k <= s.len(),
    ensures
        cuts_cleanly(frame_index_items(endian), s, k),
{
    let item = frame_index_items(endian);
    assert forall|i: int, p: int| #![trigger item(i, s, p)] item(i, s, p) is Ok implies {
        &&& 0 <= p < item(i, s, p)->Ok_0.1 <= s.len()
        &&& p <= k ==> item(i, s.take(k), p) == cut_result(item(i, s, p), k)
    } by {
        if p <= k {
            lemma_frame_index_cut(s, p, endian, k);
        }
    }
}

/// A frame group in a stream cut at `k`.
pub proof fn lemma_group_cut(s: Seq<u8>, pos: int, endian: Endian, k: int)
    requires
        group_record(s, pos, endian) is Ok,
        0 <= k <= s.len(),
        pos <= k,
    ensures
        0 <= pos < group_record(s, pos, endian)->Ok_0.1 <= s.len(),
        group_record(s.take(k), pos, endian) == cut_result(group_record(s, pos, endian), k),
{
    let count = u16_at(s, pos, endian) as nat;
    lemma_frame_indices_cut_cleanly(s, endian, k);
    if pos + 3 <= k {
        lemma_uint_cut(s, k, pos, 2, endian);
        lemma_repeat_cut(frame_index_items(endian), s, pos + 3, count, k);
    } else {
        lemma_frame_indices_cut_cleanly(s, endian, s.len() as int);
        lemma_repeat_cut(frame_index_items(endian), s, pos + 3, count, s.len() as int);
    }
}

/// The sprite records are read cleanly from a stream cut at `k`.
pub proof fn lemma_sprites_cut_cleanly(s: Seq<u8>, endian: Endian, k: int)
    requires
        0 <= k <= s.len(),
    ensures
        cuts_cleanly(sprite_items(endian), s, k),
{
    let item = sprite_items(endian);
    assert forall|i: int, p: int| #![trigger item(i, s, p)] item(i, s, p) is Ok implies {
        &&& 0 <= p < item(i, s, p)->Ok_0.1 <= s.len()
        &&& p <= k ==> item(i, s.take(k), p) == cut_result(item(i, s, p), k)
    } by {
        if p <= k {
            lemma_sprite_cut(s, p, endian, k);
        } else {
            lemma_sprite_cut(s, p, endian, s.len() as int);
        }
    }
}

/// The frames of a layered dialect are read cleanly from a stream cut at `k`.
pub proof fn lemma_layered_frames_cut_cleanly(s: Seq<u8>, endian: Endian, data_type: u8, k: int)
    requires
        0 <= k <= s.len(),
    ensures
        cuts_cleanly(layered_frame_items(endian, data_type), s, k),
{
    let item = layered_frame_items(endian, data_type);
    assert forall|i: int, p: int| #![trigger item(i, s, p)] item(i, s, p) is Ok implies {
        &&& 0 <= p < item(i, s, p)->Ok_0.1 <= s.len()
        &&& p <= k ==> item(i, s.take(k), p) == cut_result(item(i, s, p), k)
    } by {
        if p <= k {
            lemma_layered_frame_cut(s, p, endian, data_type, k);
        } else {
            lemma_layered_frame_cut(s, p, endian, data_type, s.len() as int);
        }
    }
}

/// The frames of the grouped dialect are read cleanly from a stream cut at `k`.
pub proof fn lemma_single_frames_cut_cleanly(s: Seq<u8>, endian: Endian, data_type: u8, k: int)
    requires
        0 <= k <= s.len(),
    ensures
        cuts_cleanly(single_frame_items(endian, data_type), s, k),
{
    let item = single_frame_items(endian, data_type);
    assert forall|i: int, p: int| #![trigger item(i, s, p)] item(i, s, p) is Ok implies {
        &&& 0 <= p < item(i, s, p)->Ok_0.1 <= s.len()
        &&& p <= k ==> item(i, s.take(k), p) == cut_result(item(i, s, p), k)
    } by {
        if p <= k {
            lemma_single_frame_cut(s, p, endian, data_type, k);
        } else {
            lemma_single_frame_cut(s, p, endian, data_type, s.len() as int);
        }
    }
}

/// The frame groups are read cleanly from a stream cut at `k`.
pub proof fn lemma_groups_cut_cleanly(s: Seq<u8>, endian: Endian, k: int)
    requires
        0 <= k <= s.len(),
    ensures
        cuts_cleanly(group_items(endian), s, k),
{
    let item = group_items(endian);
    assert forall|i: int, p: int| #![trigger item(i, s, p)] item(i, s, p) is Ok implies {
        &&& 0 <= p < item(i, s, p)->Ok_0.1 <= s.len()
        &&& p <= k ==> item(i, s.take(k), p) == cut_result(item(i, s, p), k)
    } by {
        if p <= k {
            lemma_group_cut(s, p, endian, k);
        } else {
            lemma_group_cut(s, p, endian, s.len() as int);
        }
    }
}

/// The animation records are read cleanly from a stream cut at `k`.
pub proof fn lemma_animations_cut_cleanly(s: Seq<u8>, endian: Endian, k: int)
    requires
        0 <= k <= s.len(),
    ensures
        cuts_cleanly(animation_items(endian), s, k),
{
    let item = animation_items(endian);
    assert forall|i: int, p: int| #![trigger item(i, s, p)] item(i, s, p) is Ok implies {
        &&& 0 <= p < item(i, s, p)->Ok_0.1 <= s.len()
        &&& p <= k ==> item(i, s.take(k), p) == cut_result(item(i, s, p), k)
    } by {
        if p <= k {
            lemma_animation_cut(s, p, endian, k);
        } else {
            lemma_animation_cut(s, p, endian, s.len() as int);
        }
    }
}

/// The head of a container in a stream cut at `k`.
pub proof fn lemma_header_cut(s: Seq<u8>, pos: int, endian: Endian, k: int)
    requires
        header(s, pos, endian) is Ok,
        0 <= k <= s.len(),
        pos <= k,
    ensures
        0 <= pos < header(s, pos, endian)->Ok_0.1 <= s.len(),
        header(s.take(k), pos, endian) == cut_result(header(s, pos, endian), k),
{
    let format = u16_at(s, pos, endian);
    let at = pos + 2 + reserved_after_tag(dialect_of(format));
    if pos + 2 <= k {
        lemma_uint_cut(s, k, pos, 2, endian);
        if at + 3 <= k {
            lemma_uint_cut(s, k, at, 2, endian);
            if dialect_of(format) == Dialect::LayeredNamed {
                lemma_text_8_cut(s, at + 3, k);
            }
        }
    }
    if dialect_of(format) == Dialect::LayeredNamed {
        lemma_text_8_cut(s, at + 3, s.len() as int);
    }
}

/// The frame section of a layered dialect in a stream cut at `k`.
pub proof fn lemma_layered_body_cut(s: Seq<u8>, pos: int, endian: Endian, data_type: u8, k: int)
    requires
        layered_body(s, pos, endian, data_type) is Ok,
        0 <= k <= s.len(),
        pos <= k,
    ensures
        0 <= pos < layered_body(s, pos, endian, data_type)->Ok_0.1 <= s.len(),
        layered_body(s.take(k), pos, endian, data_type) == cut_result(
            layered_body(s, pos, endian, data_type),
            k,
        ),
{
    let count = u16_at(s, pos, endian) as nat;
    let items = layered_frame_items(endian, data_type);
    if pos + 2 <= k {
        lemma_uint_cut(s, k, pos, 2, endian);
        lemma_layered_frames_cut_cleanly(s, endian, data_type, k);
        lemma_repeat_cut(items, s, pos + 2, count, k);
    } else {
        lemma_layered_frames_cut_cleanly(s, endian, data_type, s.len() as int);
        lemma_repeat_cut(items, s, pos + 2, count, s.len() as int);
    }
}

/// The frame section of the grouped dialect in a stream cut at `k`.
pub proof fn lemma_grouped_body_cut(s: Seq<u8>, pos: int, endian: Endian, data_type: u8, k: int)
    requires
        grouped_body(s, pos, endian, data_type) is Ok,
        0 <= k <= s.len(),
        pos <= k,
    ensures
        0 <= pos < grouped_body(s, pos, endian, data_type)->Ok_0.1 <= s.len(),
        grouped_body(s.take(k), pos, endian, data_type) == cut_result(
            grouped_body(s, pos, endian, data_type),
            k,
        ),
{
    let groups = u16_at(s, pos, endian) as nat;
    let frames = u16_at(s, pos + 2, endian) as nat;
    let frame_items = single_frame_items(endian, data_type);
    let whole: int = s.len() as int;
    lemma_single_frames_cut_cleanly(s, endian, data_type, whole);
    lemma_repeat_cut(frame_items, s, pos + 4, frames, whole);
    let at = repeat(frame_items, s, pos + 4, frames)->Ok_0.1;
    lemma_groups_cut_cleanly(s, endian, whole);
    lemma_repeat_cut(group_items(endian), s, at, groups, whole);
    if pos + 4 <= k {
        lemma_uint_cut(s, k, pos, 2, endian);
        lemma_uint_cut(s, k, pos + 2, 2, endian);
        lemma_single_frames_cut_cleanly(s, endian, data_type, k);
        lemma_repeat_cut(frame_items, s, pos + 4, frames, k);
        if at <= k {
            lemma_groups_cut_cleanly(s, endian, k);
            lemma_repeat_cut(group_items(endian), s, at, groups, k);
        }
    }
}

/// The frame section of any dialect in a stream cut at `k`. Where the
/// dialect has none, nothing is read and nothing can be missing.
pub proof fn lemma_body_cut(
    s: Seq<u8>,
    pos: int,
    endian: Endian,
    dialect: Dialect,
    data_type: u8,
    k: int,
)
    requires
        body(s, pos, endian, dialect, data_type) is Ok,
        0 <= pos <= k <= s.len(),
    ensures
        pos <= body(s, pos, endian, dialect, data_type)->Ok_0.1 <= s.len(),
        body(s.take(k), pos, endian, dialect, data_type) == cut_result(
            body(s, pos, endian, dialect, data_type),
            k,
        ),
{
    match dialect {
        Dialect::Layered | Dialect::LayeredNamed => {
            lemma_layered_body_cut(s, pos, endian, data_type, k);
        },
        Dialect::Grouped => {
            lemma_grouped_body_cut(s, pos, endian, data_type, k);
        },
        _ => {},
    }
}

/// The animation section in a stream cut at `k`.
pub proof fn lemma_animation_section_cut(s: Seq<u8>, pos: int, endian: Endian, k: int)
    requires
        animation_section(s, pos, endian) is Ok,
        0 <= k <= s.len(),
        pos <= k,
    ensures
        0 <= pos < animation_section(s, pos, endian)->Ok_0.1 <= s.len(),
        animation_section(s.take(k), pos, endian) == cut_result(
            animation_section(s, pos, endian),
            k,
        ),
{
    let count = u16_at(s, pos, endian) as nat;
    if pos + 2 <= k {
        lemma_uint_cut(s, k, pos, 2, endian);
        lemma_animations_cut_cleanly(s, endian, k);
        lemma_repeat_cut(animation_items(endian), s, pos + 2, count, k);
    } else {
        lemma_animations_cut_cleanly(s, endian, s.len() as int);
        lemma_repeat_cut(animation_items(endian), s, pos + 2, count, s.len() as int);
    }
}

/// A container lies within its stream, and a stream that is cut at `k`
/// holds the same container if `k` is at or behind the container's end.
/// Cut anywhere before that, it cannot be read: the end comes too early.
pub proof fn lemma_document_cut(s: Seq<u8>, pos: int, endian: Endian, k: int)
    requires
        document(s, pos, endian) is Ok,
        0 <= k <= s.len(),
        pos <= k,
    ensures
        0 <= pos < document(s, pos, endian)->Ok_0.1 <= s.len(),
        document(s.take(k), pos, endian) == cut_result(document(s, pos, endian), k),
{
    let whole: int = s.len() as int;
    let (head, at_sprites) = header(s, pos, endian)->Ok_0;
    let dialect = dialect_of(head.format);
    lemma_header_cut(s, pos, endian, whole);
    lemma_sprites_cut_cleanly(s, endian, whole);
    lemma_repeat_cut(sprite_items(endian), s, at_sprites, head.sprite_count as nat, whole);
    let at_body = repeat(sprite_items(endian), s, at_sprites, head.sprite_count as nat)->Ok_0.1;
    lemma_body_cut(s, at_body, endian, dialect, head.data_type, whole);
    let at_animations = body(s, at_body, endian, dialect, head.data_type)->Ok_0.1;
    lemma_animation_section_cut(s, at_animations, endian, whole);
    lemma_header_cut(s, pos, endian, k);
    if at_sprites <= k {
        lemma_sprites_cut_cleanly(s, endian, k);
        lemma_repeat_cut(sprite_items(endian), s, at_sprites, head.sprite_count as nat, k);
        if at_body <= k {
            lemma_body_cut(s, at_body, endian, dialect, head.data_type, k);
            if at_animations <= k {
                lemma_animation_section_cut(s, at_animations, endian, k);
            }
        }
    }
}

/// A file that ends inside its container cannot be read: whatever was cut
/// off, the reader reports the unexpected end.
pub proof fn lemma_truncated_document_fails(s: Seq<u8>, endian: Endian, k: int)
    requires
        document(s, 0, endian) is Ok,
        0 <= k < document(s, 0, endian)->Ok_0.1,
    ensures
        document(s.take(k), 0, endian) == Field::<DocumentView>::Err(
            ReadError::UnexpectedEnd,
        ),
{
    lemma_document_cut(s, 0, endian, s.len() as int);
    lemma_document_cut(s, 0, endian, k);
}

} // verus!
